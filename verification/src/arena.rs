//! One arena: a mapped region cut into pools of equal size.

use vstd::prelude::*;
use crate::arith::{lemma_distinct_below, lemma_distinct_below_without};
use crate::pool::{PoolHeader, PoolState, PoolView};

verus! {

/// The mathematical content of an arena.
pub struct ArenaView {
    /// Address of the region; zero once the region was released.
    pub base: nat,
    /// Number of pools that the region holds.
    pub total: nat,
    /// The pools carved so far, in address order. The pools from here on
    /// were never touched.
    pub pools: Seq<PoolView>,
    /// The carved pools that were handed back; the last one is reused first.
    pub free_pools: Seq<usize>,
}

impl ArenaView {
    /// A freshly mapped arena: every pool free.
    pub open spec fn mapped(base: nat, total: nat) -> ArenaView {
        ArenaView { base, total, pools: Seq::empty(), free_pools: Seq::empty() }
    }

    /// What is left of an arena once its region was released.
    pub open spec fn released() -> ArenaView {
        ArenaView { base: 0, total: 0, pools: Seq::empty(), free_pools: Seq::empty() }
    }

    /// The arena stands for a mapped region.
    pub open spec fn is_live(self) -> bool {
        self.base != 0
    }

    /// The arena is in order: every pool is, and the pools handed back
    /// are, once each, exactly the carved pools that serve no class.
    pub open spec fn wf(self) -> bool {
        &&& self.total <= usize::MAX
        &&& self.pools.len() <= self.total
        &&& !self.is_live() ==> self.total == 0
        &&& forall|p: int| 0 <= p < self.pools.len() ==> (#[trigger] self.pools[p]).wf()
        &&& self.free_pools.no_duplicates()
        &&& forall|i: int| 0 <= i < self.free_pools.len() ==> self.free_pools[i] < self.pools.len()
        &&& forall|p: int|
            0 <= p < self.pools.len() ==> ((#[trigger] self.pools[p]).class is None
                <==> self.free_pools.contains(p as usize))
    }

    /// Pool `p` is carved and serves a class.
    pub open spec fn in_use(self, p: int) -> bool {
        0 <= p < self.pools.len() && self.pools[p].class is Some
    }

    /// Number of pools that are free: never carved, or handed back.
    pub open spec fn free_pool_count(self) -> int {
        self.total - self.pools.len() + self.free_pools.len()
    }

    /// The arena is mapped and has a free pool.
    pub open spec fn has_space(self) -> bool {
        self.is_live() && (self.free_pools.len() > 0 || self.pools.len() < self.total)
    }

    /// The arena is mapped and every pool of it is free.
    pub open spec fn is_idle(self) -> bool {
        self.is_live() && self.free_pools.len() == self.pools.len()
    }

    /// The pool that the next carve takes: the one handed back most
    /// recently, else the lowest untouched one.
    pub open spec fn next_pool(self) -> int {
        if self.free_pools.len() > 0 {
            self.free_pools.last() as int
        } else {
            self.pools.len() as int
        }
    }

    /// The arena after a pool was carved for a class; unchanged when it has
    /// no free pool.
    pub open spec fn after_carve(self, class: nat, capacity: nat) -> ArenaView {
        if !self.has_space() {
            self
        } else if self.free_pools.len() > 0 {
            ArenaView {
                pools: self.pools.update(self.next_pool(), PoolView::fresh(class, capacity)),
                free_pools: self.free_pools.drop_last(),
                ..self
            }
        } else {
            ArenaView { pools: self.pools.push(PoolView::fresh(class, capacity)), ..self }
        }
    }

    /// The arena with pool `p` replaced.
    pub open spec fn with_pool(self, p: int, pool: PoolView) -> ArenaView {
        ArenaView { pools: self.pools.update(p, pool), ..self }
    }

    /// The arena after pool `p` was handed back.
    pub open spec fn after_return(self, p: int) -> ArenaView {
        ArenaView {
            pools: self.pools.update(p, PoolView::unused()),
            free_pools: self.free_pools.push(p as usize),
            ..self
        }
    }

    /// The arena after an allocation from pool `p`.
    pub open spec fn after_alloc(self, p: int) -> ArenaView {
        self.with_pool(p, self.pools[p].after_alloc())
    }

    /// The arena after block `k` of pool `p` was freed: a pool without
    /// allocated blocks is handed back.
    pub open spec fn after_free(self, p: int, k: usize) -> ArenaView {
        if self.pools[p].after_free(k).is_idle() {
            self.after_return(p)
        } else {
            self.with_pool(p, self.pools[p].after_free(k))
        }
    }

    /// No more pools are handed back than were carved.
    pub proof fn lemma_free_bounded(self)
        requires
            self.wf(),
        ensures
            self.free_pools.len() <= self.pools.len(),
            0 <= self.free_pool_count() <= self.total,
    {
        lemma_distinct_below(self.free_pools, self.pools.len());
    }

    /// An idle arena has no pool in use.
    pub proof fn lemma_idle(self, p: int)
        requires
            self.wf(),
            self.is_idle(),
        ensures
            !self.in_use(p),
    {
        if self.in_use(p) {
            lemma_distinct_below_without(self.free_pools, self.pools.len(), p as usize);
        }
    }

    /// A carve takes a free pool and leaves the others as they are.
    pub proof fn lemma_after_carve(self, class: nat, capacity: nat)
        requires
            self.wf(),
            self.has_space(),
            1 <= capacity <= usize::MAX,
        ensures
            self.after_carve(class, capacity).wf(),
            0 <= self.next_pool() < self.total,
            !self.in_use(self.next_pool()),
            self.after_carve(class, capacity).pools.len() >= self.pools.len(),
            self.after_carve(class, capacity).pools[self.next_pool()] == PoolView::fresh(
                class,
                capacity,
            ),
            forall|p: int|
                0 <= p < self.pools.len() && p != self.next_pool() ==> self.after_carve(
                    class,
                    capacity,
                ).pools[p] == self.pools[p],
            self.after_carve(class, capacity).pools.len() <= self.pools.len() + 1,
            self.after_carve(class, capacity).base == self.base,
            self.after_carve(class, capacity).total == self.total,
            self.after_carve(class, capacity).free_pool_count() == self.free_pool_count() - 1,
    {
        let post = self.after_carve(class, capacity);
        let np = self.next_pool();
        if self.free_pools.len() > 0 {
            let top = self.free_pools.last();
            assert(self.free_pools.contains(top));
            assert(self.pools[top as int].class is None);
            assert forall|p: int| 0 <= p < post.pools.len() implies ((#[trigger] post.pools[p]).class is None
                <==> post.free_pools.contains(p as usize)) by {
                if p == top {
                    if post.free_pools.contains(top) {
                        let i = post.free_pools.index_of(top);
                        assert(self.free_pools[i] == top);
                    }
                } else {
                    assert(post.pools[p] == self.pools[p]);
                    if self.free_pools.contains(p as usize) {
                        let i = self.free_pools.index_of(p as usize);
                        assert(post.free_pools[i] == p as usize);
                    }
                    if post.free_pools.contains(p as usize) {
                        let i = post.free_pools.index_of(p as usize);
                        assert(self.free_pools[i] == p as usize);
                    }
                }
            }
        } else {
            assert forall|p: int| 0 <= p < post.pools.len() implies ((#[trigger] post.pools[p]).class is None
                <==> post.free_pools.contains(p as usize)) by {
                if p < self.pools.len() {
                    assert(post.pools[p] == self.pools[p]);
                }
            }
        }
    }

    /// Replacing a pool in use by another state of it keeps the arena in order.
    pub proof fn lemma_with_pool(self, p: int, pool: PoolView)
        requires
            self.wf(),
            self.in_use(p),
            pool.wf(),
            pool.class is Some,
        ensures
            self.with_pool(p, pool).wf(),
            self.with_pool(p, pool).free_pool_count() == self.free_pool_count(),
    {
        let post = self.with_pool(p, pool);
        assert forall|q: int| 0 <= q < post.pools.len() implies ((#[trigger] post.pools[q]).class is None
            <==> post.free_pools.contains(q as usize)) by {
            if q != p {
                assert(post.pools[q] == self.pools[q]);
            }
        }
        assert forall|q: int| 0 <= q < post.pools.len() implies (#[trigger] post.pools[q]).wf() by {
            if q != p {
                assert(post.pools[q] == self.pools[q]);
            }
        }
    }

    /// Handing a pool back frees exactly that pool.
    pub proof fn lemma_after_return(self, p: int)
        requires
            self.wf(),
            self.in_use(p),
        ensures
            self.after_return(p).wf(),
            self.after_return(p).next_pool() == p,
            self.after_return(p).has_space() == self.is_live(),
            self.after_return(p).free_pool_count() == self.free_pool_count() + 1,
    {
        let post = self.after_return(p);
        assert(!self.free_pools.contains(p as usize));
        assert(post.free_pools[self.free_pools.len() as int] == p as usize);
        assert forall|i: int, j: int|
            0 <= i < post.free_pools.len() && 0 <= j < post.free_pools.len() && i
                != j implies post.free_pools[i] != post.free_pools[j] by {
            if i < self.free_pools.len() {
                assert(self.free_pools.contains(self.free_pools[i]));
            }
            if j < self.free_pools.len() {
                assert(self.free_pools.contains(self.free_pools[j]));
            }
        }
        assert forall|q: int| 0 <= q < post.pools.len() implies ((#[trigger] post.pools[q]).class is None
            <==> post.free_pools.contains(q as usize)) by {
            if q != p {
                assert(post.pools[q] == self.pools[q]);
                if self.free_pools.contains(q as usize) {
                    let i = self.free_pools.index_of(q as usize);
                    assert(post.free_pools[i] == q as usize);
                }
                if post.free_pools.contains(q as usize) {
                    let i = post.free_pools.index_of(q as usize);
                    assert(self.free_pools[i] == q as usize);
                }
            }
        }
        assert forall|q: int| 0 <= q < post.pools.len() implies (#[trigger] post.pools[q]).wf() by {
            if q != p {
                assert(post.pools[q] == self.pools[q]);
            }
        }
    }
}

/// An arena's bookkeeping.
pub struct ArenaObject {
    address: usize,
    ntotalpools: usize,
    pools: Vec<PoolHeader>,
    freepools: Vec<usize>,
}

impl View for ArenaObject {
    type V = ArenaView;

    closed spec fn view(&self) -> ArenaView {
        ArenaView {
            base: self.address as nat,
            total: self.ntotalpools as nat,
            pools: Seq::new(self.pools@.len(), |p: int| self.pools@[p]@),
            free_pools: self.freepools@,
        }
    }
}

impl ArenaObject {
    /// The bookkeeping for a region at `address` that holds `ntotalpools` pools.
    pub fn mapped(address: usize, ntotalpools: usize) -> (a: ArenaObject)
        requires
            address != 0,
        ensures
            a@ == ArenaView::mapped(address as nat, ntotalpools as nat),
            a@.wf(),
    {
        let a = ArenaObject { address, ntotalpools, pools: Vec::new(), freepools: Vec::new() };
        assert(a@.pools =~= Seq::empty());
        a
    }

    /// Forgets the region. The caller returns it to the operating system.
    pub fn release(&mut self)
        ensures
            final(self)@ == ArenaView::released(),
            final(self)@.wf(),
    {
        self.address = 0;
        self.ntotalpools = 0;
        self.pools = Vec::new();
        self.freepools = Vec::new();
        assert(self@.pools =~= Seq::empty());
    }

    /// Address of the region; zero once it was released.
    pub fn address(&self) -> (a: usize)
        ensures
            a == self@.base,
    {
        self.address
    }

    /// Whether the arena stands for a mapped region.
    pub fn is_live(&self) -> (b: bool)
        ensures
            b == self@.is_live(),
    {
        self.address != 0
    }

    /// Number of pools that the region holds.
    pub fn ntotalpools(&self) -> (n: usize)
        ensures
            n == self@.total,
    {
        self.ntotalpools
    }

    /// Number of pools carved so far.
    pub fn ncarved(&self) -> (n: usize)
        ensures
            n == self@.pools.len(),
    {
        self.pools.len()
    }

    /// Number of free pools.
    pub fn nfreepools(&self) -> (n: usize)
        requires
            self@.wf(),
        ensures
            n == self@.free_pool_count(),
            n <= self@.total,
    {
        proof {
            self@.lemma_free_bounded();
        }
        self.ntotalpools - self.pools.len() + self.freepools.len()
    }

    /// Whether the arena is mapped and has a free pool.
    pub fn has_space(&self) -> (b: bool)
        ensures
            b == self@.has_space(),
    {
        self.address != 0 && (self.freepools.len() > 0 || self.pools.len() < self.ntotalpools)
    }

    /// Whether the arena is mapped and every pool of it is free.
    pub fn is_idle(&self) -> (b: bool)
        ensures
            b == self@.is_idle(),
    {
        self.address != 0 && self.freepools.len() == self.pools.len()
    }

    /// The bookkeeping of pool `p`.
    pub fn pool(&self, p: usize) -> (pool: &PoolHeader)
        requires
            p < self@.pools.len(),
        ensures
            pool@ == self@.pools[p as int],
    {
        &self.pools[p]
    }

    /// Takes a free pool for `class`: the one handed back most recently,
    /// else the lowest untouched one. `None` when the arena has no free pool.
    pub fn carve_pool(&mut self, class: usize, capacity: usize) -> (r: Option<usize>)
        requires
            old(self)@.wf(),
            capacity >= 1,
        ensures
            final(self)@.wf(),
            final(self)@ == old(self)@.after_carve(class as nat, capacity as nat),
            match r {
                Some(p) => old(self)@.has_space() && p == old(self)@.next_pool(),
                None => !old(self)@.has_space(),
            },
    {
        if !self.has_space() {
            return None;
        }
        proof {
            self@.lemma_after_carve(class as nat, capacity as nat);
        }
        if self.freepools.len() > 0 {
            let p = self.freepools.pop().unwrap();
            self.pools[p] = PoolHeader::stamped(class, capacity);
            assert(self@.pools =~= old(self)@.after_carve(class as nat, capacity as nat).pools);
            Some(p)
        } else {
            let p = self.pools.len();
            self.pools.push(PoolHeader::stamped(class, capacity));
            assert(self@.pools =~= old(self)@.after_carve(class as nat, capacity as nat).pools);
            Some(p)
        }
    }

    /// Takes a block from pool `p`. `None` when the pool is full.
    pub fn pool_alloc(&mut self, p: usize) -> (r: Option<usize>)
        requires
            old(self)@.wf(),
            old(self)@.in_use(p as int),
        ensures
            final(self)@.wf(),
            final(self)@ == old(self)@.after_alloc(p as int),
            match r {
                Some(k) => {
                    &&& old(self)@.pools[p as int].has_room()
                    &&& k == old(self)@.pools[p as int].next_block()
                },
                None => !old(self)@.pools[p as int].has_room(),
            },
    {
        proof {
            if self@.pools[p as int].has_room() {
                self@.pools[p as int].lemma_after_alloc();
            }
            self@.lemma_with_pool(p as int, self@.pools[p as int].after_alloc());
        }
        let r = self.pools[p].pool_alloc();
        assert(self@.pools =~= old(self)@.after_alloc(p as int).pools);
        r
    }

    /// Puts block `k` of pool `p` back, and hands the pool back if that was
    /// its last allocated block.
    pub fn pool_free(&mut self, p: usize, k: usize) -> (r: PoolState)
        requires
            old(self)@.wf(),
            old(self)@.in_use(p as int),
            old(self)@.pools[p as int].holds(k),
        ensures
            final(self)@.wf(),
            final(self)@ == old(self)@.after_free(p as int, k),
            r == old(self)@.pools[p as int].free_transition(),
    {
        proof {
            self@.pools[p as int].lemma_after_free(k);
            self@.lemma_with_pool(p as int, self@.pools[p as int].after_free(k));
            self@.lemma_after_return(p as int);
        }
        let r = self.pools[p].pool_free(k);
        if self.pools[p].is_idle() {
            self.pools[p] = PoolHeader::unused();
            self.freepools.push(p);
            assert(self@.pools =~= old(self)@.after_free(p as int, k).pools);
        } else {
            assert(self@.pools =~= old(self)@.after_free(p as int, k).pools);
        }
        r
    }
}

} // verus!
