//! Each operation keeps the state valid and changes the live addresses as it should.

use vstd::prelude::*;
use crate::arena::ArenaView;
use crate::arith::lemma_div_rem;
use crate::config::Config;
use crate::model::{BlockRef, HeapView, PoolRef};
use crate::pool::{PoolState, PoolView};

verus! {

impl HeapView {
    /// Every pool but `r0` is in `post` what it is in `self`, where it was.
    pub open spec fn differs_at(self, post: HeapView, r0: PoolRef) -> bool {
        &&& post.config == self.config
        &&& forall|r: PoolRef|
            #![trigger post.has_pool(r)]
            #![trigger self.has_pool(r)]
            r != r0 ==> (post.has_pool(r) == self.has_pool(r) && (self.has_pool(r) ==> post.pool(r)
                == self.pool(r) && post.pool_base(r) == self.pool_base(r)))
    }

    /// A change that leaves every arena but one alone, and in that one
    /// every pool but `r0`, changes no pool but `r0`. Arenas that are new
    /// have no pool in use.
    pub proof fn lemma_differs_at(self, post: HeapView, r0: PoolRef)
        requires
            post.config == self.config,
            self.arenas.len() <= post.arenas.len(),
            forall|x: int|
                0 <= x < self.arenas.len() && x != r0.arena ==> #[trigger] post.arenas[x]
                    == self.arenas[x],
            forall|x: int, p: int|
                self.arenas.len() <= x < post.arenas.len() ==> !#[trigger] post.arenas[x].in_use(p),
            r0.arena < self.arenas.len() ==> forall|p: int|
                #![trigger post.arenas[r0.arena as int].in_use(p)]
                #![trigger self.arenas[r0.arena as int].in_use(p)]
                p != r0.pool ==> post.arenas[r0.arena as int].in_use(p)
                    == self.arenas[r0.arena as int].in_use(p) && (self.arenas[r0.arena as int].in_use(
                    p,
                ) ==> post.arenas[r0.arena as int].pools[p] == self.arenas[r0.arena as int].pools[p]
                    && post.arenas[r0.arena as int].base == self.arenas[r0.arena as int].base),
        ensures
            self.differs_at(post, r0),
    {
        assert forall|r: PoolRef| r != r0 implies (post.has_pool(r) == self.has_pool(r) && (
        self.has_pool(r) ==> post.pool(r) == self.pool(r) && post.pool_base(r) == self.pool_base(
            r,
        ))) by {
            if r.arena < self.arenas.len() {
                if r.arena != r0.arena {
                    assert(post.arenas[r.arena as int] == self.arenas[r.arena as int]);
                } else {
                    assert(post.arenas[r0.arena as int].in_use(r.pool as int)
                        == self.arenas[r0.arena as int].in_use(r.pool as int));
                }
            } else if r.arena < post.arenas.len() {
                assert(!post.arenas[r.arena as int].in_use(r.pool as int));
            }
        }
    }

    /// The vacant indices stay in order when they are not touched and no
    /// released arena comes to life.
    pub proof fn lemma_vacant_keep(self, post: HeapView)
        requires
            self.vacant_wf(),
            post.vacant == self.vacant,
            self.arenas.len() <= post.arenas.len(),
            forall|x: int|
                0 <= x < self.arenas.len() && !self.arenas[x].is_live() ==> !(
                #[trigger] post.arenas[x]).is_live(),
        ensures
            post.vacant_wf(),
    {
        assert forall|i: int| 0 <= i < post.vacant.len() implies (#[trigger] post.vacant[i])
            < post.arenas.len() && !post.arenas[post.vacant[i] as int].is_live() by {
            assert(self.vacant[i] < self.arenas.len());
        }
    }

    /// A change to a pool that holds no block, before or after, keeps the
    /// live addresses as they are.
    pub proof fn lemma_same_blocks(self, post: HeapView, r0: PoolRef)
        requires
            self.differs_at(post, r0),
            forall|b: BlockRef| b.pool == r0 ==> !#[trigger] self.holds(b),
            forall|b: BlockRef| b.pool == r0 ==> !#[trigger] post.holds(b),
        ensures
            post.live_set() == self.live_set(),
    {
        assert forall|b: BlockRef| #[trigger] self.holds(b) implies post.holds(b) && post.address(b)
            == self.address(b) by {
            assert(self.has_pool(b.pool));
        }
        assert forall|b: BlockRef| #[trigger] post.holds(b) implies self.holds(b) && self.address(b)
            == post.address(b) by {
            assert(post.has_pool(b.pool));
        }
        self.lemma_live_same(post);
    }

    /// A carve keeps the state valid and the live addresses as they are;
    /// the carved pool heads its class's list with every block untouched.
    pub proof fn lemma_after_carve(self, a: int, c: int)
        requires
            self.wf(),
            self.can_carve(a, c),
        ensures
            self.after_carve(a, c).wf(),
            self.after_carve(a, c).live_set() == self.live_set(),
            !self.has_pool(self.carved(a)),
            self.after_carve(a, c).has_pool(self.carved(a)),
            self.after_carve(a, c).pool(self.carved(a)) == PoolView::fresh(
                c as nat,
                self.config.pool_capacity(c) as nat,
            ),
            self.after_carve(a, c).avail[c].len() > 0,
            self.after_carve(a, c).avail[c].last() == self.carved(a),
            self.differs_at(self.after_carve(a, c), self.carved(a)),
    {
        let post = self.after_carve(a, c);
        let cap = self.config.pool_capacity(c);
        let r0 = self.carved(a);
        self.config.lemma_classes(c);
        assert(self.arena_ok(a));
        self.arenas[a].lemma_after_carve(c as nat, cap as nat);
        assert(post.arenas.len() == self.arenas.len());
        assert(post.arenas[a] == self.arenas[a].after_carve(c as nat, cap as nat));
        self.lemma_differs_at(post, r0);
        assert(post.arenas_wf()) by {
            let arena = self.arenas[a].after_carve(c as nat, cap as nat);
            assert forall|p: int| 0 <= p < arena.pools.len() implies self.pool_fits(
                #[trigger] arena.pools[p],
            ) by {
                if p != r0.pool {
                    assert(self.pool_fits(self.arenas[a].pools[p]));
                }
            }
            self.lemma_arenas_replace(post, a, arena);
        }
        self.lemma_vacant_keep(post);
        assert(post.lists_wf()) by {
            self.lemma_lists_push(post, c, r0);
        }
        self.lemma_same_blocks(post, r0);
    }

    /// A pool that gained room and joins the head of its class's list
    /// leaves the lists in order.
    pub proof fn lemma_lists_push(self, post: HeapView, c: int, r0: PoolRef)
        requires
            self.lists_wf(),
            self.differs_at(post, r0),
            0 <= c < self.avail.len(),
            !self.has_pool(r0) || !self.pool(r0).has_room(),
            post.listable(c, r0),
            post.avail == self.avail.update(c, self.avail[c].push(r0)),
        ensures
            post.lists_wf(),
    {
        let list = self.avail[c];
        assert forall|d: int, i: int|
            0 <= d < self.avail.len() && 0 <= i < self.avail[d].len() implies #[trigger] self.avail[d][i]
            != r0 by {
            assert(self.listable(d, self.avail[d][i]));
        }
        assert forall|d: int| 0 <= d < post.avail.len() implies (#[trigger] post.avail[d]).no_duplicates() by {
            assert(self.avail[d].no_duplicates());
            if d == c {
                assert forall|i: int, j: int|
                    0 <= i < post.avail[d].len() && 0 <= j < post.avail[d].len() && i
                        != j implies post.avail[d][i] != post.avail[d][j] by {
                    if i < list.len() {
                        assert(list.contains(list[i]));
                    }
                    if j < list.len() {
                        assert(list.contains(list[j]));
                    }
                }
            }
        }
        assert forall|d: int, i: int|
            0 <= d < post.avail.len() && 0 <= i < post.avail[d].len() implies post.listable(
            d,
            #[trigger] post.avail[d][i],
        ) by {
            if d == c && i == list.len() {
            } else {
                assert(self.listable(d, self.avail[d][i]));
                assert(self.has_pool(self.avail[d][i]));
            }
        }
        assert forall|d: int, r: PoolRef|
            0 <= d < post.avail.len() && #[trigger] post.listable(d, r) implies post.avail[d].contains(
            r,
        ) by {
            if r == r0 {
                assert(post.avail[c][list.len() as int] == r0);
            } else {
                assert(post.has_pool(r));
                assert(self.listable(d, r));
                let i = self.avail[d].index_of(r);
                assert(post.avail[d][i] == r);
            }
        }
    }

    /// A pool that lost its room, or is no longer in use, and leaves its
    /// class's list leaves the lists in order.
    pub proof fn lemma_lists_drop(self, post: HeapView, c: int, r0: PoolRef)
        requires
            self.lists_wf(),
            self.differs_at(post, r0),
            0 <= c < self.avail.len(),
            self.has_pool(r0) ==> self.pool_class(r0) == c,
            !post.has_pool(r0) || !post.pool(r0).has_room(),
            post.avail == self.avail.update(c, Self::without(self.avail[c], r0)),
        ensures
            post.lists_wf(),
    {
        let list = self.avail[c];
        let rest = Self::without(list, r0);
        assert(list.no_duplicates());
        assert forall|d: int, i: int|
            0 <= d < self.avail.len() && d != c && 0 <= i < self.avail[d].len() implies #[trigger] self.avail[d][i]
            != r0 by {
            assert(self.listable(d, self.avail[d][i]));
        }
        assert forall|i: int| 0 <= i < rest.len() implies #[trigger] rest[i] != r0 && list.contains(
            rest[i],
        ) by {
            if list.contains(r0) {
                let k = list.index_of(r0);
                if i < k {
                    assert(rest[i] == list[i]);
                } else {
                    assert(rest[i] == list[i + 1]);
                }
            } else {
                assert(rest[i] == list[i]);
            }
        }
        assert forall|r: PoolRef| r != r0 && list.contains(r) implies rest.contains(r) by {
            let i = list.index_of(r);
            if list.contains(r0) {
                let k = list.index_of(r0);
                if i < k {
                    assert(rest[i] == r);
                } else {
                    assert(rest[i - 1] == r);
                }
            } else {
                assert(rest[i] == r);
            }
        }
        assert(rest.no_duplicates()) by {
            if list.contains(r0) {
                let k = list.index_of(r0);
                assert forall|i: int, j: int| 0 <= i < rest.len() && 0 <= j < rest.len() && i != j implies rest[i]
                    != rest[j] by {
                    let ii = if i < k { i } else { i + 1 };
                    let jj = if j < k { j } else { j + 1 };
                    assert(rest[i] == list[ii]);
                    assert(rest[j] == list[jj]);
                }
            }
        }
        assert forall|d: int| 0 <= d < post.avail.len() implies (#[trigger] post.avail[d]).no_duplicates() by {
            assert(self.avail[d].no_duplicates());
        }
        assert forall|d: int, i: int|
            0 <= d < post.avail.len() && 0 <= i < post.avail[d].len() implies post.listable(
            d,
            #[trigger] post.avail[d][i],
        ) by {
            let r = post.avail[d][i];
            if d == c {
                let j = list.index_of(r);
                assert(self.listable(c, self.avail[c][j]));
            } else {
                assert(self.listable(d, self.avail[d][i]));
            }
            assert(self.has_pool(r));
        }
        assert forall|d: int, r: PoolRef|
            0 <= d < post.avail.len() && #[trigger] post.listable(d, r) implies post.avail[d].contains(
            r,
        ) by {
            assert(post.has_pool(r));
            assert(self.listable(d, r));
            assert(self.avail[d].contains(r));
        }
    }

    /// A pool that has room before and after, in the same class, leaves
    /// the lists in order when they are not touched.
    pub proof fn lemma_lists_keep(self, post: HeapView, r0: PoolRef)
        requires
            self.lists_wf(),
            self.differs_at(post, r0),
            post.has_pool(r0) == self.has_pool(r0),
            self.has_pool(r0) ==> post.pool_class(r0) == self.pool_class(r0) && post.pool(
                r0,
            ).has_room() == self.pool(r0).has_room(),
            post.avail == self.avail,
        ensures
            post.lists_wf(),
    {
        assert forall|d: int, i: int|
            0 <= d < post.avail.len() && 0 <= i < post.avail[d].len() implies post.listable(
            d,
            #[trigger] post.avail[d][i],
        ) by {
            assert(self.listable(d, self.avail[d][i]));
            assert(self.has_pool(self.avail[d][i]));
        }
        assert forall|d: int, r: PoolRef|
            0 <= d < post.avail.len() && #[trigger] post.listable(d, r) implies post.avail[d].contains(
            r,
        ) by {
            assert(post.has_pool(r));
            assert(self.listable(d, r));
        }
    }

    /// Without duplicates, taking the last entry out by name drops it.
    pub proof fn lemma_without_last(list: Seq<PoolRef>)
        requires
            list.no_duplicates(),
            list.len() > 0,
        ensures
            Self::without(list, list.last()) == list.drop_last(),
    {
        let r = list.last();
        assert(list[list.len() - 1] == r);
        assert(list.contains(r));
        assert(list.index_of(r) == list.len() - 1);
        assert(list.remove(list.len() - 1) =~= list.drop_last());
    }

    /// Replacing an arena by a valid one at the same place, or by a
    /// released one, leaves the arenas in order.
    pub proof fn lemma_arenas_replace(self, post: HeapView, a: int, arena: ArenaView)
        requires
            self.arenas_wf(),
            post.config == self.config,
            0 <= a < self.arenas.len(),
            post.arenas == self.arenas.update(a, arena),
            arena.wf(),
            arena.is_live() ==> self.arenas[a].is_live() && arena.base == self.arenas[a].base
                && arena.total == self.arenas[a].total,
            forall|p: int| 0 <= p < arena.pools.len() ==> self.pool_fits(#[trigger] arena.pools[p]),
        ensures
            post.arenas_wf(),
    {
        assert forall|x: int| 0 <= x < post.arenas.len() implies #[trigger] post.arena_ok(x) by {
            assert(self.arena_ok(x));
            if x != a {
                assert(post.arenas[x] == self.arenas[x]);
                assert forall|p: int| 0 <= p < post.arenas[x].pools.len() implies post.pool_fits(
                    #[trigger] post.arenas[x].pools[p],
                ) by {
                    assert(self.pool_fits(self.arenas[x].pools[p]));
                }
            } else {
                assert forall|p: int| 0 <= p < post.arenas[x].pools.len() implies post.pool_fits(
                    #[trigger] post.arenas[x].pools[p],
                ) by {
                    assert(self.pool_fits(arena.pools[p]));
                }
            }
        }
        assert forall|x: int, y: int|
            post.has_arena(x) && post.has_arena(y) && x != y implies #[trigger] post.apart(x, y) by {
            assert(self.has_arena(x) && self.has_arena(y));
            assert(self.apart(x, y));
        }
    }

    /// An allocation from a pool that can serve keeps the state valid and
    /// makes one address live that was not.
    pub proof fn lemma_after_pool_alloc(self, r: PoolRef)
        requires
            self.wf(),
            self.can_serve(r),
        ensures
            self.after_pool_alloc(r).wf(),
            self.slot(self.pool_block(r)),
            !self.holds(self.pool_block(r)),
            self.after_pool_alloc(r).holds(self.pool_block(r)),
            self.after_pool_alloc(r).address(self.pool_block(r)) == self.address(
                self.pool_block(r),
            ),
            !self.live(self.address(self.pool_block(r))),
            self.after_pool_alloc(r).live_set() == self.live_set().insert(
                self.address(self.pool_block(r)),
            ),
            self.after_pool_alloc(r).has_pool(r),
            self.after_pool_alloc(r).pool(r) == self.pool(r).after_alloc(),
            self.differs_at(self.after_pool_alloc(r), r),
    {
        let post = self.after_pool_alloc(r);
        let nb = self.pool_block(r);
        let a = r.arena as int;
        let c = self.pool_class(r);
        self.lemma_pool_bounds(r);
        let pool = self.pool(r);
        pool.lemma_after_alloc();
        assert(self.arena_ok(a));
        let arena = self.arenas[a].after_alloc(r.pool as int);
        self.arenas[a].lemma_with_pool(r.pool as int, pool.after_alloc());
        assert(post.arenas == self.arenas.update(a, arena));
        self.lemma_differs_at(post, r);
        assert(post.arenas_wf()) by {
            assert forall|p: int| 0 <= p < arena.pools.len() implies self.pool_fits(
                #[trigger] arena.pools[p],
            ) by {
                assert(self.pool_fits(self.arenas[a].pools[p]));
            }
            self.lemma_arenas_replace(post, a, arena);
        }
        self.lemma_vacant_keep(post);
        assert(post.has_pool(r) && post.pool(r) == pool.after_alloc());
        assert(post.lists_wf()) by {
            if post.pool(r).has_room() {
                self.lemma_lists_keep(post, r);
            } else {
                self.lemma_lists_drop(post, c, r);
            }
        }
        assert(self.keeps_blocks(post)) by {
            assert forall|b: BlockRef| #[trigger] self.holds(b) implies post.holds(b)
                && post.address(b) == self.address(b) by {
                assert(self.has_pool(b.pool));
            }
        }
        assert forall|b: BlockRef| #[trigger] post.holds(b) && b != nb implies self.holds(b) by {
            assert(post.has_pool(b.pool));
        }
        self.lemma_live_insert(post, nb);
        self.lemma_live_bounded();
    }

    /// An allocation from the head of a class's list keeps the state valid
    /// and makes one address live that was not; a head that became full
    /// is dropped from the list.
    pub proof fn lemma_after_take(self, c: int)
        requires
            self.wf(),
            0 <= c < self.avail.len(),
            self.avail[c].len() > 0,
        ensures
            self.after_take(c).wf(),
            self.slot(self.head_block(c)),
            self.listable(c, self.avail[c].last()),
            self.pool_class(self.head_block(c).pool) == c,
            !self.holds(self.head_block(c)),
            self.after_take(c).holds(self.head_block(c)),
            self.after_take(c).address(self.head_block(c)) == self.address(self.head_block(c)),
            !self.live(self.address(self.head_block(c))),
            self.after_take(c).live_set() == self.live_set().insert(
                self.address(self.head_block(c)),
            ),
            self.after_take(c).avail[c] == if self.pool(self.avail[c].last()).after_alloc().has_room() {
                self.avail[c]
            } else {
                self.avail[c].drop_last()
            },
            self.differs_at(self.after_take(c), self.head_block(c).pool),
    {
        let r = self.avail[c].last();
        assert(r == self.avail[c][self.avail[c].len() - 1]);
        assert(self.listable(c, r));
        self.lemma_after_pool_alloc(r);
        Self::lemma_without_last(self.avail[c]);
    }

    /// A block that goes back to its pool keeps the state valid and takes
    /// its address out of the live ones.
    pub proof fn lemma_after_put(self, b: BlockRef)
        requires
            self.wf(),
            self.holds(b),
        ensures
            self.after_put(b).wf(),
            self.blocks >= 1,
            self.live(self.address(b)),
            self.after_put(b).live_set() == self.live_set().remove(self.address(b)),
            self.differs_at(self.after_put(b), b.pool),
            self.pool(b.pool).free_transition() == PoolState::BecameEmpty ==> !self.after_put(
                b,
            ).has_pool(b.pool) && self.after_put(b).arenas[b.pool.arena as int]
                == self.arenas[b.pool.arena as int].after_return(b.pool.pool as int),
            self.pool(b.pool).free_transition() != PoolState::BecameEmpty ==> self.after_put(
                b,
            ).has_pool(b.pool) && self.after_put(b).pool(b.pool) == self.pool(b.pool).after_free(
                b.block,
            ) && self.after_put(b).pool_base(b.pool) == self.pool_base(b.pool)
                && self.after_put(b).listable(self.pool_class(b.pool), b.pool),
    {
        let post = self.after_put(b);
        let r = b.pool;
        let a = r.arena as int;
        let c = self.pool_class(r);
        self.lemma_pool_bounds(r);
        let pool = self.pool(r);
        pool.lemma_after_free(b.block);
        assert(self.arena_ok(a));
        let arena = self.arenas[a].after_free(r.pool as int, b.block);
        self.arenas[a].lemma_with_pool(r.pool as int, pool.after_free(b.block));
        self.arenas[a].lemma_after_return(r.pool as int);
        assert(post.arenas == self.arenas.update(a, arena));
        self.lemma_differs_at(post, r);
        assert(post.arenas_wf()) by {
            assert forall|p: int| 0 <= p < arena.pools.len() implies self.pool_fits(
                #[trigger] arena.pools[p],
            ) by {
                assert(self.pool_fits(self.arenas[a].pools[p]));
            }
            self.lemma_arenas_replace(post, a, arena);
        }
        self.lemma_vacant_keep(post);
        assert(post.lists_wf()) by {
            match pool.free_transition() {
                PoolState::BecameEmpty => {
                    assert(!post.has_pool(r));
                    self.lemma_lists_drop(post, c, r);
                },
                PoolState::BecameAvailable => {
                    self.lemma_lists_push(post, c, r);
                },
                PoolState::StillPartial => {
                    assert(post.avail =~= self.avail);
                    self.lemma_lists_keep(post, r);
                },
            }
        }
        assert(post.keeps_blocks(self)) by {
            assert forall|x: BlockRef| #[trigger] post.holds(x) implies self.holds(x)
                && self.address(x) == post.address(x) by {
                assert(post.has_pool(x.pool));
            }
        }
        assert forall|x: BlockRef| #[trigger] self.holds(x) && x != b implies post.holds(x) by {
            assert(self.has_pool(x.pool));
            if x.pool == r && pool.after_free(b.block).is_idle() {
                pool.after_free(b.block).lemma_idle(x.block);
            }
        }
        self.lemma_live_remove(post, b);
        assert(self.live_set().contains(self.address(b)));
    }

    /// The state right after start-up is valid and has no live address.
    pub proof fn lemma_started(config: Config)
        requires
            config.valid(),
        ensures
            Self::started(config).wf(),
            Self::started(config).live_set() == Set::<int>::empty(),
    {
        let s = Self::started(config);
        config.lemma_geometry();
        assert forall|addr: int| !s.live(addr) by {
            assert forall|b: BlockRef| !#[trigger] s.holds(b) by {}
        }
        assert(s.live_set() =~= Set::<int>::empty());
    }

    /// A new arena keeps the state valid and the live addresses as they
    /// are; it takes the index of the arena released last, else a new one,
    /// and all its pools are free.
    pub proof fn lemma_after_acquire(self, base: int)
        requires
            self.wf(),
            self.adoptable(base),
            self.vacant.len() > 0 || self.arenas.len() < usize::MAX,
        ensures
            self.after_acquire(base).wf(),
            self.after_acquire(base).live_set() == self.live_set(),
            !self.has_arena(self.next_slot()),
            self.after_acquire(base).arenas[self.next_slot()] == ArenaView::mapped(
                base as nat,
                self.config.pools_per_arena() as nat,
            ),
            self.after_acquire(base).arenas[self.next_slot()].has_space(),
            forall|a: int|
                0 <= a < self.arenas.len() && a != self.next_slot() ==> self.after_acquire(
                    base,
                ).arenas[a] == self.arenas[a],
    {
        let post = self.after_acquire(base);
        let slot = self.next_slot();
        let arena = ArenaView::mapped(base as nat, self.config.pools_per_arena() as nat);
        self.config.lemma_geometry();
        lemma_div_rem(self.config.arena_size as int, self.config.pool_size as int);
        if self.vacant.len() > 0 {
            assert(self.vacant[self.vacant.len() - 1] == slot);
            assert(self.arena_ok(slot));
        }
        assert(post.arenas[slot] == arena);
        let r0 = PoolRef { arena: slot as usize, pool: 0 };
        self.lemma_differs_at(post, r0);
        assert(post.arenas_wf()) by {
            assert forall|x: int| 0 <= x < post.arenas.len() implies #[trigger] post.arena_ok(
                x,
            ) by {
                if x != slot {
                    assert(self.arena_ok(x));
                    assert(post.arenas[x] == self.arenas[x]);
                    assert forall|p: int| 0 <= p < post.arenas[x].pools.len() implies post.pool_fits(
                        #[trigger] post.arenas[x].pools[p],
                    ) by {
                        assert(self.pool_fits(self.arenas[x].pools[p]));
                    }
                }
            }
            assert forall|x: int, y: int|
                post.has_arena(x) && post.has_arena(y) && x != y implies #[trigger] post.apart(
                x,
                y,
            ) by {
                if x == slot {
                    assert(self.has_arena(y));
                } else if y == slot {
                    assert(self.has_arena(x));
                } else {
                    assert(self.has_arena(x) && self.has_arena(y));
                    assert(self.apart(x, y));
                }
            }
        }
        assert(post.vacant_wf()) by {
            assert forall|i: int| 0 <= i < post.vacant.len() implies (#[trigger] post.vacant[i])
                < post.arenas.len() && !post.arenas[post.vacant[i] as int].is_live() by {
                assert(self.vacant[i] < self.arenas.len());
                assert(self.vacant[i] != self.vacant[self.vacant.len() - 1]);
            }
        }
        self.lemma_lists_keep(post, r0);
        self.lemma_same_blocks(post, r0);
    }

    /// A release keeps the state valid and the live addresses as they are;
    /// the arena is gone afterwards, so a second release changes nothing.
    pub proof fn lemma_after_release(self, a: int)
        requires
            self.wf(),
            self.releasable(a),
        ensures
            self.after_release(a).wf(),
            self.after_release(a).live_set() == self.live_set(),
            !self.after_release(a).has_arena(a),
            !self.after_release(a).releasable(a),
            forall|x: int|
                0 <= x < self.arenas.len() && x != a ==> self.after_release(a).arenas[x]
                    == self.arenas[x],
    {
        let post = self.after_release(a);
        assert(self.arena_ok(a));
        let r0 = PoolRef { arena: a as usize, pool: 0 };
        assert forall|p: int| !self.arenas[a].in_use(p) by {
            self.arenas[a].lemma_idle(p);
        }
        self.lemma_differs_at(post, r0);
        self.lemma_arenas_replace(post, a, ArenaView::released());
        assert(post.vacant_wf()) by {
            assert forall|i: int| 0 <= i < self.vacant.len() implies #[trigger] self.vacant[i]
                != a by {}
            assert forall|i: int| 0 <= i < post.vacant.len() implies (#[trigger] post.vacant[i])
                < post.arenas.len() && !post.arenas[post.vacant[i] as int].is_live() by {
                if i < self.vacant.len() {
                    assert(self.vacant[i] < self.arenas.len());
                }
            }
            assert forall|i: int, j: int|
                0 <= i < post.vacant.len() && 0 <= j < post.vacant.len() && i
                    != j implies post.vacant[i] != post.vacant[j] by {
                if i < self.vacant.len() {
                    assert(self.vacant[i] != a);
                }
                if j < self.vacant.len() {
                    assert(self.vacant[j] != a);
                }
            }
        }
        self.lemma_lists_keep(post, r0);
        self.lemma_same_blocks(post, r0);
    }

    /// The first arena with a free pool among the first `n`: it has a free
    /// pool and comes before every other arena with a free pool; there is
    /// none exactly when no arena has a free pool.
    pub proof fn lemma_best_upto(self, n: int)
        requires
            0 <= n <= self.arenas.len(),
        ensures
            match self.best_upto(n) {
                Some(b) => 0 <= b < n && self.arenas[b].has_space() && forall|a: int|
                    0 <= a < n && self.arenas[a].has_space() ==> self.precedes(b, a),
                None => forall|a: int| 0 <= a < n ==> !self.arenas[a].has_space(),
            },
        decreases n,
    {
        if n > 0 {
            self.lemma_best_upto(n - 1);
            let prev = self.best_upto(n - 1);
            let x = n - 1;
            match self.best_upto(n) {
                Some(b) => {
                    assert forall|a: int| 0 <= a < n && self.arenas[a].has_space() implies self.precedes(
                        b,
                        a,
                    ) by {
                        if b == x && a < x {
                            assert(self.precedes(prev->Some_0, a));
                        }
                    }
                },
                None => {},
            }
        }
    }
}

} // verus!
