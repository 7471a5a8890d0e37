//! What holds of the allocator as a whole, stated over its mathematical state.

use vstd::prelude::*;
use crate::model::{Allocation, BlockRef, HeapView, PoolRef};
use crate::pool::PoolState;

verus! {

impl HeapView {
    /// An allocation returns an address that was not live, makes exactly
    /// that address live, and counts one block more; an answer without a
    /// block changes nothing.
    pub proof fn law_allocation_is_fresh(self, size: usize)
        requires
            self.wf(),
        ensures
            self.after_allocate(size as int).wf(),
            match self.allocation(size as int) {
                Allocation::Block(addr) => {
                    &&& !self.live(addr as int)
                    &&& self.after_allocate(size as int).live_set() == self.live_set().insert(
                        addr as int,
                    )
                    &&& self.after_allocate(size as int).blocks == self.blocks + 1
                },
                _ => self.after_allocate(size as int) == self,
            },
    {
        match self.config.class_of(size as int) {
            None => {},
            Some(c) => {
                self.config.lemma_class_of(size as int);
                self.lemma_supplied(c);
                let s = self.supplied(c);
                if s.avail[c].len() > 0 {
                    s.lemma_after_take(c);
                    s.lemma_slot_bounds(s.head_block(c));
                }
            },
        }
    }

    /// Supplying a class keeps the state valid and the live addresses as
    /// they are; afterwards the class's list is empty only if no arena has
    /// a free pool.
    pub proof fn lemma_supplied(self, c: int)
        requires
            self.wf(),
            0 <= c < self.config.class_count(),
        ensures
            self.supplied(c).wf(),
            self.supplied(c).live_set() == self.live_set(),
            self.supplied(c).blocks == self.blocks,
            self.supplied(c).avail[c].len() == 0 <==> self.avail[c].len() == 0 && forall|a: int|
                0 <= a < self.arenas.len() ==> !self.arenas[a].has_space(),
    {
        self.lemma_best_upto(self.arenas.len() as int);
        if self.avail[c].len() == 0 {
            match self.best_arena() {
                Some(a) => {
                    self.lemma_after_carve(a, c);
                },
                None => {},
            }
        }
    }

    /// The answer is `NeedArena` exactly when the request is small, its
    /// class has no pool with room, and no arena has a free pool.
    pub proof fn law_need_arena(self, size: usize)
        requires
            self.wf(),
        ensures
            self.allocation(size as int) == Allocation::Large <==> size
                > self.config.small_threshold,
            self.allocation(size as int) == Allocation::NeedArena <==> size
                <= self.config.small_threshold && self.avail[self.config.class_of(
                size as int,
            )->Some_0].len() == 0 && forall|a: int|
                0 <= a < self.arenas.len() ==> !self.arenas[a].has_space(),
    {
        if size <= self.config.small_threshold {
            self.config.lemma_class_of(size as int);
            self.lemma_supplied(self.config.class_of(size as int)->Some_0);
        }
    }

    /// Once an arena was taken over, every small request gets a block: an
    /// allocation fails for want of memory only if no arena could be mapped.
    pub proof fn law_arena_serves(self, base: usize, size: usize)
        requires
            self.wf(),
            self.adoptable(base as int),
            self.vacant.len() > 0 || self.arenas.len() < usize::MAX,
            size <= self.config.small_threshold,
        ensures
            self.after_acquire(base as int).wf(),
            self.after_acquire(base as int).allocation(size as int) is Block,
    {
        self.lemma_after_acquire(base as int);
        let post = self.after_acquire(base as int);
        post.law_need_arena(size);
        assert(post.arenas[self.next_slot()].has_space());
    }

    /// A block is served from a pool of the request's class: the block
    /// size of the pool is that of the class. The block starts at a
    /// multiple of the alignment and lies inside its pool's arena, and in
    /// no other arena.
    pub proof fn law_block_placement(self, size: usize)
        requires
            self.wf(),
            self.allocation(size as int) is Block,
        ensures
            ({
                let addr = self.allocation(size as int)->Block_0 as int;
                let post = self.after_allocate(size as int);
                let b = post.locate(addr)->Some_0;
                let arena = post.arenas[b.pool.arena as int];
                &&& post.locate(addr) is Some
                &&& post.holds(b)
                &&& post.pool_class(b.pool) == self.config.class_of(size as int)->Some_0
                &&& post.pool_block_size(b.pool) == self.config.block_size(
                    self.config.class_of(size as int)->Some_0,
                )
                &&& post.pool_block_size(b.pool) >= size
                &&& addr % (self.config.alignment as int) == 0
                &&& arena.is_live()
                &&& arena.base <= addr
                &&& addr + post.pool_block_size(b.pool) <= arena.base + self.config.arena_size
                &&& forall|a: int| post.spans(a, addr) ==> a == b.pool.arena
            }),
    {
        self.config.lemma_class_of(size as int);
        let c = self.config.class_of(size as int)->Some_0;
        self.lemma_supplied(c);
        let s = self.supplied(c);
        s.lemma_after_take(c);
        let nb = s.head_block(c);
        s.lemma_slot_bounds(nb);
        let post = s.after_take(c);
        let addr = s.address(nb);
        post.lemma_held_is_slot(nb);
        post.lemma_locate_address(nb);
        post.lemma_slot_bounds(nb);
        post.law_block_aligned(nb);
        post.lemma_pool_bounds(nb.pool);
        s.lemma_pool_bounds(nb.pool);
        s.pool(nb.pool).lemma_after_alloc();
        assert forall|a: int| post.spans(a, addr) implies a == nb.pool.arena by {
            post.lemma_arena_at(a, addr);
            post.lemma_arena_at(nb.pool.arena as int, addr);
        }
    }

    /// A carved pool is in exactly one state: held by its arena and in no
    /// list; with room, and once in the list of its class and in no
    /// other; or full and in no list.
    pub proof fn law_pool_state(self, r: PoolRef, c: int)
        requires
            self.wf(),
            r.arena < self.arenas.len(),
            r.pool < self.arenas[r.arena as int].pools.len(),
            0 <= c < self.config.class_count(),
        ensures
            self.has_pool(r) <==> !self.arenas[r.arena as int].free_pools.contains(r.pool),
            self.avail[c].contains(r) <==> self.has_pool(r) && self.pool_class(r) == c
                && self.pool(r).has_room(),
            self.avail[c].no_duplicates(),
    {
        assert(self.arena_ok(r.arena as int));
        if self.avail[c].contains(r) {
            let i = self.avail[c].index_of(r);
            assert(self.listable(c, self.avail[c][i]));
        }
        if self.listable(c, r) {
            assert(self.avail[c].contains(r));
        }
    }

    /// Two allocated blocks share no byte.
    pub proof fn law_live_blocks_apart(self, b1: BlockRef, b2: BlockRef)
        requires
            self.wf(),
            self.holds(b1),
            self.holds(b2),
            b1 != b2,
        ensures
            self.address(b1) + self.pool_block_size(b1.pool) <= self.address(b2) || self.address(
                b2,
            ) + self.pool_block_size(b2.pool) <= self.address(b1),
    {
        self.lemma_held_is_slot(b1);
        self.lemma_held_is_slot(b2);
        self.lemma_slots_apart(b1, b2);
    }

    /// The count of allocated blocks is the number of live addresses.
    pub proof fn law_count(self)
        requires
            self.wf(),
        ensures
            self.live_set().finite(),
            self.blocks == self.live_set().len(),
            self.blocks <= usize::MAX,
    {
        self.lemma_live_bounded();
    }

    /// The retention rule keeps the state valid and the live addresses as
    /// they are.
    pub proof fn lemma_after_reclaim(self, a: int)
        requires
            self.wf(),
        ensures
            self.after_reclaim(a).wf(),
            self.after_reclaim(a).live_set() == self.live_set(),
            self.after_reclaim(a).blocks == self.blocks,
    {
        if self.surplus(a) {
            self.lemma_after_release(a);
        }
    }

    /// A free takes exactly the freed address out of the live ones and
    /// counts one block less.
    pub proof fn law_free(self, addr: int)
        requires
            self.wf(),
            self.live(addr),
        ensures
            self.after_free(addr).wf(),
            self.after_free(addr).live_set() == self.live_set().remove(addr),
            self.after_free(addr).blocks == self.blocks - 1,
    {
        self.lemma_live(addr);
        let b = self.locate(addr)->Some_0;
        self.lemma_locate_sound(addr);
        self.lemma_after_put(b);
        self.after_put(b).lemma_after_reclaim(b.pool.arena as int);
    }

    /// Reclaiming is idempotent: after the retention rule was applied to
    /// an arena, applying it again releases nothing and changes nothing.
    /// The same holds of a plain release.
    pub proof fn law_reclaim_once(self, a: int)
        requires
            self.wf(),
        ensures
            self.after_reclaim(a).reclaimed(a) is None,
            self.after_reclaim(a).after_reclaim(a) == self.after_reclaim(a),
            !self.after_release(a).releasable(a),
            self.after_release(a).after_release(a) == self.after_release(a),
    {
        if self.releasable(a) {
            self.lemma_after_release(a);
        }
    }

    /// A region is unmapped by a free only if the free took the last
    /// allocated block of its pool and left the pool's arena idle.
    pub proof fn law_release_on_idle(self, addr: int)
        requires
            self.wf(),
            self.live(addr),
            self.freed_region(addr) is Some,
        ensures
            ({
                let b = self.locate(addr)->Some_0;
                &&& self.pool(b.pool).used_blocks() == 1
                &&& self.after_put(b).arenas[b.pool.arena as int].is_idle()
                &&& self.freed_region(addr) == Some(self.arenas[b.pool.arena as int].base as usize)
                &&& !self.after_free(addr).has_arena(b.pool.arena as int)
                &&& forall|x: int| self.after_free(addr).live(x) ==> !self.spans(b.pool.arena as int, x)
            }),
    {
        self.lemma_live(addr);
        let b = self.locate(addr)->Some_0;
        let a = b.pool.arena as int;
        self.lemma_after_put(b);
        let s = self.after_put(b);
        s.lemma_after_release(a);
        let post = self.after_free(addr);
        self.law_free(addr);
        assert forall|x: int| post.live(x) implies !self.spans(a, x) by {
            let h = choose|h: BlockRef| #[trigger] post.holds(h) && post.address(h) == x;
            post.lemma_held_is_slot(h);
            post.lemma_slot_bounds(h);
            if self.spans(a, x) {
                let other = h.pool.arena as int;
                assert(other != a);
                assert(s.arenas[other] == post.arenas[other]);
                assert(self.arenas[other] == s.arenas[other]);
                assert(self.has_arena(other) && self.has_arena(a));
                assert(self.apart(other, a));
            }
        }
    }

    /// Last freed, first reused: after a free that leaves other blocks of
    /// the pool allocated, in a pool that was full or heads its class's
    /// list, the next allocation of the class returns the freed address.
    pub proof fn law_freed_block_is_next(self, addr: int, size: usize)
        requires
            self.wf(),
            self.live(addr),
            self.config.class_of(size as int) == Some(
                self.pool_class(self.locate(addr)->Some_0.pool),
            ),
            self.pool(self.locate(addr)->Some_0.pool).used_blocks() >= 2,
            !self.pool(self.locate(addr)->Some_0.pool).has_room() || self.avail[self.pool_class(
                self.locate(addr)->Some_0.pool,
            )].last() == self.locate(addr)->Some_0.pool,
        ensures
            self.after_free(addr).allocation(size as int) == Allocation::Block(addr as usize),
            self.freed_region(addr) is None,
    {
        self.lemma_live(addr);
        let b = self.locate(addr)->Some_0;
        let r = b.pool;
        let c = self.pool_class(r);
        self.lemma_locate_sound(addr);
        self.lemma_slot_bounds(b);
        self.lemma_pool_bounds(r);
        self.lemma_after_put(b);
        self.pool(r).lemma_after_free(b.block);
        let post = self.after_free(addr);
        assert(post == self.after_put(b));
        assert(post.avail[c].len() > 0 && post.avail[c].last() == r) by {
            if self.pool(r).has_room() {
                assert(self.listable(c, r));
                assert(self.avail[c].contains(r));
            }
        }
        assert(post.head_block(c) == b);
    }

    /// The first arena with a free pool depends only on which arenas have
    /// a free pool and on how many each has.
    pub proof fn lemma_best_same(self, other: HeapView, n: int)
        requires
            0 <= n <= self.arenas.len(),
            other.arenas.len() == self.arenas.len(),
            forall|a: int|
                0 <= a < n ==> other.arenas[a].has_space() == self.arenas[a].has_space()
                    && other.arenas[a].free_pool_count() == self.arenas[a].free_pool_count(),
        ensures
            other.best_upto(n) == self.best_upto(n),
        decreases n,
    {
        if n > 0 {
            self.lemma_best_same(other, n - 1);
            self.lemma_best_upto(n - 1);
        }
    }

    /// Round trip: a block that is allocated and freed at once comes back
    /// from the next allocation of the same size. This holds unless the
    /// free released the block's arena, or the block came from a pool
    /// that was in use without an allocated block.
    pub proof fn law_round_trip(self, size: usize)
        requires
            self.wf(),
            self.allocation(size as int) is Block,
            self.after_allocate(size as int).freed_region(
                self.allocation(size as int)->Block_0 as int,
            ) is None,
            ({
                let list = self.avail[self.config.class_of(size as int)->Some_0];
                list.len() > 0 ==> self.pool(list.last()).used_blocks() >= 1
            }),
        ensures
            self.after_allocate(size as int).live(self.allocation(size as int)->Block_0 as int),
            self.after_allocate(size as int).after_free(
                self.allocation(size as int)->Block_0 as int,
            ).allocation(size as int) == self.allocation(size as int),
    {
        self.config.lemma_class_of(size as int);
        let c = self.config.class_of(size as int)->Some_0;
        self.lemma_supplied(c);
        let s = self.supplied(c);
        s.lemma_after_take(c);
        let nb = s.head_block(c);
        let r = nb.pool;
        let a = r.arena as int;
        s.lemma_slot_bounds(nb);
        s.lemma_pool_bounds(r);
        let pool = s.pool(r);
        pool.lemma_after_alloc();
        pool.lemma_free_bounded();
        let s1 = s.after_take(c);
        let addr = s.address(nb);
        assert(s1 == self.after_allocate(size as int));
        s1.lemma_held_is_slot(nb);
        s1.lemma_locate_address(nb);
        s1.lemma_live(addr);
        assert(s1.pool(r) == pool.after_alloc());
        if pool.used_blocks() >= 1 {
            s1.law_freed_block_is_next(addr, size);
        } else {
            // the pool was carved for this request: it goes back to its
            // arena and is carved again
            assert(self.avail[c].len() == 0);
            self.lemma_best_upto(self.arenas.len() as int);
            assert(self.best_arena() == Some(a));
            assert(self.can_carve(a, c));
            self.lemma_after_carve(a, c);
            assert(self.arena_ok(a));
            let cap = self.config.pool_capacity(c) as nat;
            self.arenas[a].lemma_after_carve(c as nat, cap);
            self.arenas[a].lemma_free_bounded();
            assert(r == self.carved(a));
            assert(nb.block == 0);
            s1.lemma_after_put(nb);
            let s2 = s1.after_put(nb);
            assert(s2 == s1.after_free(addr));
            s.arenas[a].lemma_with_pool(r.pool as int, pool.after_alloc());
            s1.arenas[a].lemma_after_return(r.pool as int);
            s2.arenas[a].lemma_free_bounded();
            assert(s.avail[c] =~= seq![r]);
            assert(s2.avail[c] =~= Seq::<PoolRef>::empty()) by {
                if s1.avail[c].len() > 0 {
                    assert(s1.avail[c] =~= seq![r]);
                    assert(s1.avail[c][0] == r);
                    assert(s1.avail[c].contains(r));
                    assert(s1.avail[c][s1.avail[c].index_of(r)] == r);
                    assert(s1.avail[c].index_of(r) == 0);
                }
            }
            assert forall|x: int| 0 <= x < self.arenas.len() implies s2.arenas[x].has_space()
                == self.arenas[x].has_space() && s2.arenas[x].free_pool_count()
                == self.arenas[x].free_pool_count() by {
                if x != a {
                    assert(s.arenas[x] == self.arenas[x]);
                    assert(s1.arenas[x] == s.arenas[x]);
                    assert(s2.arenas[x] == s1.arenas[x]);
                }
            }
            self.lemma_best_same(s2, self.arenas.len() as int);
            assert(s2.best_arena() == Some(a));
            assert(s2.carved(a) == r);
            s2.lemma_after_carve(a, c);
            let s3 = s2.supplied(c);
            assert(s3 == s2.after_carve(a, c));
            assert(s3.head_block(c) == nb);
            assert(s3.address(nb) == addr);
        }
    }
}

} // verus!
