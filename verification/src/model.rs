//! The mathematical state of an allocator and what each operation does to it.

use vstd::prelude::*;
use crate::arena::ArenaView;
use crate::config::Config;
use crate::pool::{PoolState, PoolView};

verus! {

/// Names a pool: the index of its arena and its index within the arena.
#[derive(Clone, Copy, Debug, PartialEq, Eq, Structural)]
pub struct PoolRef {
    pub arena: usize,
    pub pool: usize,
}

/// Names a block: its pool and its index within the pool.
#[derive(Clone, Copy, Debug, PartialEq, Eq, Structural)]
pub struct BlockRef {
    pub pool: PoolRef,
    pub block: usize,
}

/// The outcome of an allocation request.
#[derive(Clone, Copy, Debug, PartialEq, Eq, Structural)]
pub enum Allocation {
    /// A block at this address was handed out.
    Block(usize),
    /// The request is above the threshold: the large-object path serves it.
    Large,
    /// No pool of the class has room and no arena has a free pool. Nothing
    /// was changed; map an arena, hand it over, and ask again.
    NeedArena,
}

/// What can go wrong after start-up.
#[derive(Clone, Copy, Debug, PartialEq, Eq, Structural)]
pub enum AllocError {
    /// The operating system refused to map an arena.
    OutOfMemory,
    /// The address is not that of an allocated block.
    InvalidFree,
    /// Blocks are still allocated.
    BlocksInUse,
}

/// The mathematical state of an allocator.
pub struct HeapView {
    /// The tunables that the allocator was made with.
    pub config: Config,
    /// Whether start-up was done.
    pub ready: bool,
    /// The arenas by index; an arena keeps its index for as long as it is mapped.
    pub arenas: Seq<ArenaView>,
    /// Indices of released arenas; the last one is taken first for a new arena.
    pub vacant: Seq<usize>,
    /// For each class the pools that have room; the last one is the head,
    /// which serves the next allocation.
    pub avail: Seq<Seq<PoolRef>>,
    /// Number of allocated blocks.
    pub blocks: nat,
}

impl HeapView {
    // ---------------------------------------------------------------
    // Reading the state

    /// The state before start-up.
    pub open spec fn blank(config: Config) -> HeapView {
        HeapView {
            config,
            ready: false,
            arenas: Seq::empty(),
            vacant: Seq::empty(),
            avail: Seq::empty(),
            blocks: 0,
        }
    }

    /// The state right after start-up: no arena, one empty list per class.
    pub open spec fn started(config: Config) -> HeapView {
        HeapView {
            config,
            ready: true,
            arenas: Seq::empty(),
            vacant: Seq::empty(),
            avail: Seq::new(config.class_count() as nat, |c: int| Seq::empty()),
            blocks: 0,
        }
    }

    /// Arena `a` is mapped.
    pub open spec fn has_arena(self, a: int) -> bool {
        0 <= a < self.arenas.len() && self.arenas[a].is_live()
    }

    /// Pool `r` is carved and serves a class.
    pub open spec fn has_pool(self, r: PoolRef) -> bool {
        r.arena < self.arenas.len() && self.arenas[r.arena as int].in_use(r.pool as int)
    }

    /// The content of pool `r`.
    pub open spec fn pool(self, r: PoolRef) -> PoolView {
        self.arenas[r.arena as int].pools[r.pool as int]
    }

    /// The class that pool `r` serves.
    pub open spec fn pool_class(self, r: PoolRef) -> int {
        self.pool(r).class->Some_0 as int
    }

    /// Block `b` is a position in a pool in use, allocated or not.
    pub open spec fn slot(self, b: BlockRef) -> bool {
        self.has_pool(b.pool) && b.block < self.pool(b.pool).capacity
    }

    /// Block `b` is allocated.
    pub open spec fn holds(self, b: BlockRef) -> bool {
        self.has_pool(b.pool) && self.pool(b.pool).holds(b.block)
    }

    /// Address of the first byte of pool `r`.
    pub open spec fn pool_base(self, r: PoolRef) -> int {
        self.arenas[r.arena as int].base + r.pool * self.config.pool_size
    }

    /// Block size of pool `r`.
    pub open spec fn pool_block_size(self, r: PoolRef) -> int {
        self.config.block_size(self.pool_class(r))
    }

    /// Address of block `b`.
    pub open spec fn address(self, b: BlockRef) -> int {
        self.pool_base(b.pool) + self.config.pool_overhead + b.block * self.pool_block_size(
            b.pool,
        )
    }

    /// An allocated block starts at `addr`.
    pub open spec fn live(self, addr: int) -> bool {
        exists|b: BlockRef| #[trigger] self.holds(b) && self.address(b) == addr
    }

    /// The addresses of the allocated blocks.
    pub open spec fn live_set(self) -> Set<int> {
        Set::new(|addr: int| self.live(addr))
    }

    /// Arena `a` is mapped and `addr` lies in its region.
    pub open spec fn spans(self, a: int, addr: int) -> bool {
        self.has_arena(a) && self.arenas[a].base <= addr < self.arenas[a].base
            + self.config.arena_size
    }

    /// The arena whose region holds `addr`.
    pub open spec fn arena_at(self, addr: int) -> Option<int> {
        if exists|a: int| self.spans(a, addr) {
            Some(choose|a: int| self.spans(a, addr))
        } else {
            None
        }
    }

    /// The block position that starts at `addr`, by address arithmetic: the
    /// arena that spans the address, the pool by division of the offset by
    /// the pool size, the block by division of what is left after the
    /// overhead by the block size.
    pub open spec fn locate(self, addr: int) -> Option<BlockRef> {
        match self.arena_at(addr) {
            None => None,
            Some(a) => {
                let off = addr - self.arenas[a].base;
                let r = PoolRef {
                    arena: a as usize,
                    pool: (off / (self.config.pool_size as int)) as usize,
                };
                let rest = off % (self.config.pool_size as int) - self.config.pool_overhead;
                if self.has_pool(r) && rest >= 0 && rest % self.pool_block_size(r) == 0 && rest
                    / self.pool_block_size(r) < self.pool(r).capacity {
                    Some(BlockRef { pool: r, block: (rest / self.pool_block_size(r)) as usize })
                } else {
                    None
                }
            },
        }
    }

    /// Number of idle arenas among the first `n`.
    pub open spec fn idle_upto(self, n: int) -> int
        decreases n,
    {
        if n <= 0 {
            0
        } else {
            self.idle_upto(n - 1) + if self.arenas[n - 1].is_idle() {
                1int
            } else {
                0int
            }
        }
    }

    /// Number of idle arenas.
    pub open spec fn idle_count(self) -> int {
        self.idle_upto(self.arenas.len() as int)
    }

    /// Arena `a` comes before arena `b` in the global order: fewer free
    /// pools first, the lower index first among equals.
    pub open spec fn precedes(self, a: int, b: int) -> bool {
        self.arenas[a].free_pool_count() < self.arenas[b].free_pool_count() || (
        self.arenas[a].free_pool_count() == self.arenas[b].free_pool_count() && a <= b)
    }

    /// The first arena with a free pool among the first `n`, in the global order.
    pub open spec fn best_upto(self, n: int) -> Option<int>
        decreases n,
    {
        if n <= 0 {
            None
        } else {
            let prev = self.best_upto(n - 1);
            if self.arenas[n - 1].has_space() && (prev is None || !self.precedes(
                prev->Some_0,
                n - 1,
            )) {
                Some(n - 1)
            } else {
                prev
            }
        }
    }

    /// The first arena with a free pool, in the global order.
    pub open spec fn best_arena(self) -> Option<int> {
        self.best_upto(self.arenas.len() as int)
    }

    /// A region at `base` can become an arena: it is not null, aligned to
    /// the arena size, inside the address space, and apart from every arena.
    pub open spec fn adoptable(self, base: int) -> bool {
        &&& base > 0
        &&& base % (self.config.arena_size as int) == 0
        &&& base + self.config.arena_size <= usize::MAX + 1
        &&& forall|a: int| #[trigger]
            self.has_arena(a) ==> (self.arenas[a].base + self.config.arena_size <= base || base
                + self.config.arena_size <= self.arenas[a].base)
    }

    /// The addresses of the mapped arenas among the first `n`, by index.
    pub open spec fn bases_upto(self, n: int) -> Seq<usize>
        decreases n,
    {
        if n <= 0 {
            Seq::empty()
        } else if self.arenas[n - 1].is_live() {
            self.bases_upto(n - 1).push(self.arenas[n - 1].base as usize)
        } else {
            self.bases_upto(n - 1)
        }
    }

    /// The addresses of the mapped arenas, by index.
    pub open spec fn bases(self) -> Seq<usize> {
        self.bases_upto(self.arenas.len() as int)
    }

    // ---------------------------------------------------------------
    // Validity

    /// A pool in use serves a class of the table and has that class's capacity.
    pub open spec fn pool_fits(self, pool: PoolView) -> bool {
        pool.class is Some ==> pool.class->Some_0 < self.config.class_count() && pool.capacity
            == self.config.pool_capacity(pool.class->Some_0 as int)
    }

    /// Arena `a` is in order: a mapped arena has the pool count of the
    /// configuration and an aligned region inside the address space, and
    /// every pool fits the class table.
    pub open spec fn arena_ok(self, a: int) -> bool {
        let arena = self.arenas[a];
        &&& arena.wf()
        &&& arena.is_live() ==> {
            &&& arena.total == self.config.pools_per_arena()
            &&& arena.base % (self.config.arena_size as nat) == 0
            &&& arena.base + self.config.arena_size <= usize::MAX + 1
        }
        &&& forall|p: int| 0 <= p < arena.pools.len() ==> self.pool_fits(#[trigger] arena.pools[p])
    }

    /// The regions of arenas `a` and `b` do not overlap.
    pub open spec fn apart(self, a: int, b: int) -> bool {
        self.arenas[a].base + self.config.arena_size <= self.arenas[b].base || self.arenas[b].base
            + self.config.arena_size <= self.arenas[a].base
    }

    /// Every arena is in order and no two mapped arenas overlap.
    pub open spec fn arenas_wf(self) -> bool {
        &&& self.arenas.len() <= usize::MAX
        &&& forall|a: int| 0 <= a < self.arenas.len() ==> #[trigger] self.arena_ok(a)
        &&& forall|a: int, b: int|
            self.has_arena(a) && self.has_arena(b) && a != b ==> #[trigger] self.apart(a, b)
    }

    /// The vacant indices are those of released arenas, once each.
    pub open spec fn vacant_wf(self) -> bool {
        &&& self.vacant.no_duplicates()
        &&& forall|i: int|
            0 <= i < self.vacant.len() ==> (#[trigger] self.vacant[i]) < self.arenas.len()
                && !self.arenas[self.vacant[i] as int].is_live()
    }

    /// Pool `r` belongs in the list of class `c`: it serves `c` and has room.
    pub open spec fn listable(self, c: int, r: PoolRef) -> bool {
        self.has_pool(r) && self.pool_class(r) == c && self.pool(r).has_room()
    }

    /// Each class list holds, once each, exactly the pools of the class that have room.
    pub open spec fn lists_wf(self) -> bool {
        &&& self.avail.len() == self.config.class_count()
        &&& forall|c: int| 0 <= c < self.avail.len() ==> (#[trigger] self.avail[c]).no_duplicates()
        &&& forall|c: int, i: int|
            0 <= c < self.avail.len() && 0 <= i < self.avail[c].len() ==> self.listable(
                c,
                #[trigger] self.avail[c][i],
            )
        &&& forall|c: int, r: PoolRef|
            0 <= c < self.avail.len() && #[trigger] self.listable(c, r) ==> self.avail[c].contains(
                r,
            )
    }

    /// The block count is the number of live addresses.
    pub open spec fn count_wf(self) -> bool {
        self.live_set().finite() && self.blocks == self.live_set().len()
    }

    /// The state of a started allocator is in order.
    pub open spec fn wf(self) -> bool {
        &&& self.ready
        &&& self.config.valid()
        &&& self.arenas_wf()
        &&& self.vacant_wf()
        &&& self.lists_wf()
        &&& self.count_wf()
    }

    // ---------------------------------------------------------------
    // What the operations do

    /// The state with arena `a` replaced.
    pub open spec fn with_arena(self, a: int, arena: ArenaView) -> HeapView {
        HeapView { arenas: self.arenas.update(a, arena), ..self }
    }

    /// The state with the list of class `c` replaced.
    pub open spec fn with_list(self, c: int, list: Seq<PoolRef>) -> HeapView {
        HeapView { avail: self.avail.update(c, list), ..self }
    }

    /// The index that the next arena gets.
    pub open spec fn next_slot(self) -> int {
        if self.vacant.len() > 0 {
            self.vacant.last() as int
        } else {
            self.arenas.len() as int
        }
    }

    /// The state after a region at `base` became an arena.
    pub open spec fn after_acquire(self, base: int) -> HeapView {
        let arena = ArenaView::mapped(base as nat, self.config.pools_per_arena() as nat);
        if self.vacant.len() > 0 {
            HeapView {
                arenas: self.arenas.update(self.next_slot(), arena),
                vacant: self.vacant.drop_last(),
                ..self
            }
        } else {
            HeapView { arenas: self.arenas.push(arena), ..self }
        }
    }

    /// Arena `a` can be carved for class `c`.
    pub open spec fn can_carve(self, a: int, c: int) -> bool {
        0 <= a < self.arenas.len() && self.arenas[a].has_space() && 0 <= c
            < self.config.class_count()
    }

    /// The pool that a carve of arena `a` takes.
    pub open spec fn carved(self, a: int) -> PoolRef {
        PoolRef { arena: a as usize, pool: self.arenas[a].next_pool() as usize }
    }

    /// The state after a pool of arena `a` was carved for class `c` and put
    /// at the head of the class's list; unchanged when that cannot be done.
    pub open spec fn after_carve(self, a: int, c: int) -> HeapView {
        if self.can_carve(a, c) {
            self.with_arena(
                a,
                self.arenas[a].after_carve(c as nat, self.config.pool_capacity(c) as nat),
            ).with_list(c, self.avail[c].push(self.carved(a)))
        } else {
            self
        }
    }

    /// The state in which class `c` has a pool with room, if that can be
    /// had without a new arena: a pool is carved from the first arena with
    /// a free pool when the list is empty.
    pub open spec fn supplied(self, c: int) -> HeapView {
        if self.avail[c].len() > 0 {
            self
        } else {
            match self.best_arena() {
                Some(a) => self.after_carve(a, c),
                None => self,
            }
        }
    }

    /// The list `list` without pool `r`.
    pub open spec fn without(list: Seq<PoolRef>, r: PoolRef) -> Seq<PoolRef> {
        if list.contains(r) {
            list.remove(list.index_of(r))
        } else {
            list
        }
    }

    /// Pool `r` can serve an allocation: it is in use and has room.
    pub open spec fn can_serve(self, r: PoolRef) -> bool {
        self.has_pool(r) && self.pool(r).has_room()
    }

    /// The block that an allocation from pool `r` returns.
    pub open spec fn pool_block(self, r: PoolRef) -> BlockRef {
        BlockRef { pool: r, block: self.pool(r).next_block() as usize }
    }

    /// The state after an allocation from pool `r`: a pool that became
    /// full leaves its class's list. Unchanged when the pool cannot serve.
    pub open spec fn after_pool_alloc(self, r: PoolRef) -> HeapView {
        if self.can_serve(r) {
            let c = self.pool_class(r);
            let arena = self.arenas[r.arena as int].after_alloc(r.pool as int);
            HeapView {
                arenas: self.arenas.update(r.arena as int, arena),
                avail: if arena.pools[r.pool as int].has_room() {
                    self.avail
                } else {
                    self.avail.update(c, Self::without(self.avail[c], r))
                },
                blocks: self.blocks + 1,
                ..self
            }
        } else {
            self
        }
    }

    /// The block that an allocation from the head of class `c` returns.
    pub open spec fn head_block(self, c: int) -> BlockRef {
        self.pool_block(self.avail[c].last())
    }

    /// The state after an allocation from the head of class `c`.
    pub open spec fn after_take(self, c: int) -> HeapView {
        self.after_pool_alloc(self.avail[c].last())
    }

    /// What an allocation of `size` bytes returns.
    pub open spec fn allocation(self, size: int) -> Allocation {
        match self.config.class_of(size) {
            None => Allocation::Large,
            Some(c) => {
                let s = self.supplied(c);
                if s.avail[c].len() > 0 {
                    Allocation::Block(s.address(s.head_block(c)) as usize)
                } else {
                    Allocation::NeedArena
                }
            },
        }
    }

    /// The state after an allocation of `size` bytes.
    pub open spec fn after_allocate(self, size: int) -> HeapView {
        match self.config.class_of(size) {
            None => self,
            Some(c) => {
                let s = self.supplied(c);
                if s.avail[c].len() > 0 {
                    s.after_take(c)
                } else {
                    self
                }
            },
        }
    }

    /// The state after block `b` went back to its pool: a pool that was
    /// full becomes the head of its class's list, a pool without allocated
    /// blocks leaves the list and goes back to its arena.
    pub open spec fn after_put(self, b: BlockRef) -> HeapView {
        let r = b.pool;
        let c = self.pool_class(r);
        let arena = self.arenas[r.arena as int].after_free(r.pool as int, b.block);
        let list = match self.pool(r).free_transition() {
            PoolState::BecameEmpty => Self::without(self.avail[c], r),
            PoolState::BecameAvailable => self.avail[c].push(r),
            PoolState::StillPartial => self.avail[c],
        };
        HeapView {
            arenas: self.arenas.update(r.arena as int, arena),
            avail: self.avail.update(c, list),
            blocks: (self.blocks - 1) as nat,
            ..self
        }
    }

    /// Arena `a` can be released: it is mapped and all its pools are free.
    pub open spec fn releasable(self, a: int) -> bool {
        0 <= a < self.arenas.len() && self.arenas[a].is_idle()
    }

    /// The state after arena `a` was released; unchanged when it cannot be.
    pub open spec fn after_release(self, a: int) -> HeapView {
        if self.releasable(a) {
            HeapView {
                arenas: self.arenas.update(a, ArenaView::released()),
                vacant: self.vacant.push(a as usize),
                ..self
            }
        } else {
            self
        }
    }

    /// The retention rule: arena `a` is released when it is idle and more
    /// arenas are idle than the configuration keeps.
    pub open spec fn surplus(self, a: int) -> bool {
        self.releasable(a) && self.idle_count() > self.config.max_idle_arenas
    }

    /// The state after the retention rule was applied to arena `a`.
    pub open spec fn after_reclaim(self, a: int) -> HeapView {
        if self.surplus(a) {
            self.after_release(a)
        } else {
            self
        }
    }

    /// The region to unmap after the retention rule was applied to arena `a`.
    pub open spec fn reclaimed(self, a: int) -> Option<usize> {
        if self.surplus(a) {
            Some(self.arenas[a].base as usize)
        } else {
            None
        }
    }

    /// The state after the block at `addr` was freed: the block goes back
    /// to its pool, and if that emptied the pool the retention rule is
    /// applied to its arena.
    pub open spec fn after_free(self, addr: int) -> HeapView {
        let b = self.locate(addr)->Some_0;
        let s = self.after_put(b);
        if self.pool(b.pool).free_transition() == PoolState::BecameEmpty {
            s.after_reclaim(b.pool.arena as int)
        } else {
            s
        }
    }

    /// The region to unmap after the block at `addr` was freed.
    pub open spec fn freed_region(self, addr: int) -> Option<usize> {
        let b = self.locate(addr)->Some_0;
        if self.pool(b.pool).free_transition() == PoolState::BecameEmpty {
            self.after_put(b).reclaimed(b.pool.arena as int)
        } else {
            None
        }
    }
}

} // verus!
