//! How the set of live addresses follows the set of allocated blocks.

use vstd::prelude::*;
use vstd::set_lib::{lemma_int_range, lemma_len_subset, set_int_range};
use crate::model::{BlockRef, HeapView};

verus! {

impl HeapView {
    /// `post` has the blocks of `self` at the addresses they had.
    pub open spec fn keeps_blocks(self, post: HeapView) -> bool {
        forall|b: BlockRef| #[trigger] self.holds(b) ==> post.holds(b) && post.address(b) == self.address(b)
    }

    /// The same blocks at the same addresses give the same live addresses.
    pub proof fn lemma_live_same(self, post: HeapView)
        requires
            self.keeps_blocks(post),
            post.keeps_blocks(self),
        ensures
            post.live_set() == self.live_set(),
    {
        assert forall|addr: int| post.live(addr) == self.live(addr) by {
            if post.live(addr) {
                let b = choose|b: BlockRef| #[trigger] post.holds(b) && post.address(b) == addr;
                assert(self.holds(b));
            }
            if self.live(addr) {
                let b = choose|b: BlockRef| #[trigger] self.holds(b) && self.address(b) == addr;
                assert(post.holds(b));
            }
        }
        assert(post.live_set() =~= self.live_set());
    }

    /// One more block, not allocated before, gives one more live address,
    /// which was not live before.
    pub proof fn lemma_live_insert(self, post: HeapView, nb: BlockRef)
        requires
            post.placed(),
            self.keeps_blocks(post),
            !self.holds(nb),
            post.holds(nb),
            forall|b: BlockRef| #[trigger]
                post.holds(b) && b != nb ==> self.holds(b),
        ensures
            !self.live(post.address(nb)),
            post.live_set() == self.live_set().insert(post.address(nb)),
    {
        let fresh = post.address(nb);
        post.lemma_held_is_slot(nb);
        if self.live(fresh) {
            let b = choose|b: BlockRef| #[trigger] self.holds(b) && self.address(b) == fresh;
            assert(post.holds(b));
            post.lemma_held_is_slot(b);
            post.lemma_locate_address(b);
            post.lemma_locate_address(nb);
        }
        assert forall|addr: int| post.live(addr) == (self.live(addr) || addr == fresh) by {
            if post.live(addr) {
                let b = choose|b: BlockRef| #[trigger] post.holds(b) && post.address(b) == addr;
                if b != nb {
                    assert(self.holds(b));
                }
            }
            if self.live(addr) {
                let b = choose|b: BlockRef| #[trigger] self.holds(b) && self.address(b) == addr;
                assert(post.holds(b));
            }
        }
        assert(post.live_set() =~= self.live_set().insert(fresh));
    }

    /// One block less gives one live address less.
    pub proof fn lemma_live_remove(self, post: HeapView, ob: BlockRef)
        requires
            self.placed(),
            post.keeps_blocks(self),
            self.holds(ob),
            !post.holds(ob),
            forall|b: BlockRef| #[trigger]
                self.holds(b) && b != ob ==> post.holds(b),
        ensures
            self.live(self.address(ob)),
            post.live_set() == self.live_set().remove(self.address(ob)),
    {
        let gone = self.address(ob);
        self.lemma_held_is_slot(ob);
        assert forall|addr: int| post.live(addr) == (self.live(addr) && addr != gone) by {
            if post.live(addr) {
                let b = choose|b: BlockRef| #[trigger] post.holds(b) && post.address(b) == addr;
                assert(self.holds(b));
                if addr == gone {
                    self.lemma_held_is_slot(b);
                    self.lemma_locate_address(b);
                    self.lemma_locate_address(ob);
                }
            }
            if self.live(addr) && addr != gone {
                let b = choose|b: BlockRef| #[trigger] self.holds(b) && self.address(b) == addr;
                assert(post.holds(b));
            }
        }
        assert(post.live_set() =~= self.live_set().remove(gone));
    }

    /// Live addresses are positive machine addresses, so they are finitely many.
    pub proof fn lemma_live_bounded(self)
        requires
            self.placed(),
        ensures
            self.live_set().subset_of(set_int_range(1, usize::MAX + 1)),
            self.live_set().finite(),
            self.live_set().len() <= usize::MAX,
    {
        let all = set_int_range(1, usize::MAX + 1);
        assert forall|addr: int| self.live_set().contains(addr) implies all.contains(addr) by {
            let b = choose|b: BlockRef| #[trigger] self.holds(b) && self.address(b) == addr;
            self.lemma_held_is_slot(b);
            self.lemma_slot_bounds(b);
        }
        lemma_int_range(1, usize::MAX + 1);
        lemma_len_subset(self.live_set(), all);
    }
}

} // verus!
