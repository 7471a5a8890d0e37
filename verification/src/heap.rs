//! The allocator: arenas, class lists, and the operations on them.

use vstd::prelude::*;
use crate::arena::{ArenaObject, ArenaView};
use crate::config::{Config, InitError};
use crate::model::{AllocError, Allocation, BlockRef, HeapView, PoolRef};
use crate::pool::PoolState;

verus! {

/// One allocator instance. It owns its arenas and shares nothing.
pub struct PyMemAllocator {
    config: Config,
    ready: bool,
    arenas: Vec<ArenaObject>,
    vacant: Vec<usize>,
    usedpools: Vec<Vec<PoolRef>>,
    nblocks: usize,
}

impl View for PyMemAllocator {
    type V = HeapView;

    closed spec fn view(&self) -> HeapView {
        HeapView {
            config: self.config,
            ready: self.ready,
            arenas: Seq::new(self.arenas@.len(), |a: int| self.arenas@[a]@),
            vacant: self.vacant@,
            avail: Seq::new(self.usedpools@.len(), |c: int| self.usedpools@[c]@),
            blocks: self.nblocks as nat,
        }
    }
}

impl PyMemAllocator {
    /// The allocator was started and its state is in order.
    pub open spec fn wf(&self) -> bool {
        self@.wf()
    }

    /// An allocator that was not started yet.
    pub fn new(config: Config) -> (heap: PyMemAllocator)
        ensures
            heap@ == HeapView::blank(config),
    {
        let heap = PyMemAllocator {
            config,
            ready: false,
            arenas: Vec::new(),
            vacant: Vec::new(),
            usedpools: Vec::new(),
            nblocks: 0,
        };
        assert(heap@.arenas =~= Seq::empty());
        assert(heap@.avail =~= Seq::empty());
        heap
    }

    /// Starts the allocator: checks the configuration and sets up one
    /// empty list per size class. A second call does nothing.
    pub fn init_obmalloc(&mut self) -> (r: Result<(), InitError>)
        ensures
            r is Ok <==> old(self)@.ready || old(self)@.config.valid(),
            r is Err ==> old(self)@.config.defect() == Some(r->Err_0),
            r is Err ==> final(self)@ == old(self)@,
            r is Ok && old(self)@.ready ==> final(self)@ == old(self)@,
            r is Ok && !old(self)@.ready ==> final(self)@ == HeapView::started(old(self)@.config)
                && final(self).wf(),
    {
        if self.ready {
            return Ok(());
        }
        match self.config.validate() {
            Err(e) => Err(e),
            Ok(()) => {
                self.reset();
                Ok(())
            },
        }
    }

    /// Puts the allocator into the state right after start-up.
    fn reset(&mut self)
        requires
            old(self)@.config.valid(),
        ensures
            final(self)@ == HeapView::started(old(self)@.config),
            final(self).wf(),
    {
        let n = self.config.classes();
        let mut lists: Vec<Vec<PoolRef>> = Vec::new();
        let mut i: usize = 0;
        while i < n
            invariant
                i <= n,
                lists@.len() == i,
                forall|c: int| 0 <= c < i ==> (#[trigger] lists@[c])@ == Seq::<PoolRef>::empty(),
            decreases n - i,
        {
            lists.push(Vec::new());
            i = i + 1;
        }
        self.arenas = Vec::new();
        self.vacant = Vec::new();
        self.usedpools = lists;
        self.nblocks = 0;
        self.ready = true;
        proof {
            let s = HeapView::started(self.config);
            assert(self@.arenas =~= s.arenas);
            assert(self@.avail =~= s.avail);
            HeapView::lemma_started(self.config);
        }
    }

    /// Whether start-up was done, so that the allocator holds its own
    /// class lists and arena table.
    pub fn is_obmalloc_state_on_heap(&self) -> (b: bool)
        ensures
            b == self@.ready,
    {
        self.ready
    }

    /// The configuration that the allocator was made with.
    pub fn config(&self) -> (c: Config)
        ensures
            c == self@.config,
    {
        self.config
    }

    /// Routes a request to its size class; `None` above the threshold.
    pub fn classify(&self, size: usize) -> (r: Option<usize>)
        requires
            self.wf(),
        ensures
            r is None <==> size > self@.config.small_threshold,
            match r {
                Some(c) => self@.config.class_of(size as int) == Some(c as int) && c
                    < self@.config.class_count() && self@.config.block_size(c as int) >= size && (c
                    > 0 ==> self@.config.block_size(c - 1) < size),
                None => self@.config.class_of(size as int) is None,
            },
    {
        self.config.classify(size)
    }

    /// Number of arena indices in use or vacant.
    pub fn arena_slots(&self) -> (n: usize)
        ensures
            n == self@.arenas.len(),
    {
        self.arenas.len()
    }

    /// The bookkeeping of arena `a`.
    pub fn arena(&self, a: usize) -> (arena: &ArenaObject)
        requires
            a < self@.arenas.len(),
        ensures
            arena@ == self@.arenas[a as int],
    {
        &self.arenas[a]
    }

    /// The first arena with a free pool in the global order: fewest free
    /// pools first, so that the fuller arenas fill up and the emptier ones
    /// can become idle.
    pub fn find_arena_with_space(&self) -> (r: Option<usize>)
        requires
            self.wf(),
        ensures
            match r {
                Some(a) => self@.best_arena() == Some(a as int) && a < self@.arenas.len()
                    && self@.arenas[a as int].has_space() && forall|b: int|
                    0 <= b < self@.arenas.len() && self@.arenas[b].has_space() ==> self@.precedes(
                        a as int,
                        b,
                    ),
                None => self@.best_arena() is None && forall|b: int|
                    0 <= b < self@.arenas.len() ==> !self@.arenas[b].has_space(),
            },
    {
        let mut best: Option<usize> = None;
        let mut i: usize = 0;
        while i < self.arenas.len()
            invariant
                self.wf(),
                i <= self.arenas.len(),
                match best {
                    Some(a) => self@.best_upto(i as int) == Some(a as int),
                    None => self@.best_upto(i as int) is None,
                },
            decreases self.arenas.len() - i,
        {
            proof {
                self@.lemma_best_upto(i as int);
                assert(self@.arena_ok(i as int));
            }
            if self.arenas[i].has_space() {
                match best {
                    None => {
                        best = Some(i);
                    },
                    Some(b) => {
                        proof {
                            assert(self@.arena_ok(b as int));
                        }
                        let nb = self.arenas[b].nfreepools();
                        let ni = self.arenas[i].nfreepools();
                        if !(nb < ni || (nb == ni && b <= i)) {
                            best = Some(i);
                        }
                    },
                }
            }
            i = i + 1;
        }
        proof {
            self@.lemma_best_upto(i as int);
        }
        best
    }

    /// Number of idle arenas.
    pub fn idle_arenas(&self) -> (n: usize)
        ensures
            n == self@.idle_count(),
    {
        let mut n: usize = 0;
        let mut i: usize = 0;
        while i < self.arenas.len()
            invariant
                i <= self.arenas.len(),
                n <= i,
                n == self@.idle_upto(i as int),
            decreases self.arenas.len() - i,
        {
            if self.arenas[i].is_idle() {
                n = n + 1;
            }
            i = i + 1;
        }
        n
    }

    /// Size and alignment of the region to ask the operating system for
    /// when an arena is needed: both are the arena size.
    pub fn arena_request(&self) -> (r: (usize, usize))
        ensures
            r.0 == self@.config.arena_size,
            r.1 == self@.config.arena_size,
    {
        (self.config.arena_size, self.config.arena_size)
    }

    /// Whether a region at `base` can become an arena: not null, aligned
    /// to the arena size, inside the address space, apart from every arena.
    pub fn can_adopt(&self, base: usize) -> (b: bool)
        requires
            self.wf(),
        ensures
            b == self@.adoptable(base as int),
    {
        let size = self.config.arena_size;
        proof {
            self@.config.lemma_geometry();
        }
        if base == 0 || base % size != 0 || base - 1 > usize::MAX - size {
            return false;
        }
        let mut i: usize = 0;
        while i < self.arenas.len()
            invariant
                self.wf(),
                size == self@.config.arena_size,
                size >= 1,
                base as int + size <= usize::MAX + 1,
                i <= self.arenas.len(),
                forall|a: int|
                    0 <= a < i && #[trigger] self@.has_arena(a) ==> (self@.arenas[a].base + size
                        <= base || base + size <= self@.arenas[a].base),
            decreases self.arenas.len() - i,
        {
            let other = self.arenas[i].address();
            proof {
                assert(self@.arena_ok(i as int));
            }
            if other != 0 && !(other <= base && base - other >= size || base <= other && other
                - base >= size) {
                assert(self@.has_arena(i as int));
                return false;
            }
            i = i + 1;
        }
        true
    }

    /// Takes over a region of the arena size that the embedding program
    /// asked the operating system for: `None` if the request was refused.
    /// The region must be one that `can_adopt` accepts. The arena gets the
    /// index of the arena released last, else a new one, and enters the
    /// global order with all its pools free.
    pub fn acquire_arena(&mut self, mapped: Option<usize>) -> (r: Result<usize, AllocError>)
        requires
            old(self).wf(),
            mapped is Some ==> old(self)@.adoptable(mapped->Some_0 as int),
        ensures
            final(self).wf(),
            final(self)@.live_set() == old(self)@.live_set(),
            match mapped {
                None => {
                    &&& r == Err::<usize, AllocError>(AllocError::OutOfMemory)
                    &&& final(self)@ == old(self)@
                },
                Some(base) => {
                    &&& r == Ok::<usize, AllocError>(old(self)@.next_slot() as usize)
                    &&& final(self)@ == old(self)@.after_acquire(base as int)
                },
            },
    {
        let base = match mapped {
            None => {
                return Err(AllocError::OutOfMemory);
            },
            Some(base) => base,
        };
        proof {
            self@.config.lemma_geometry();
        }
        let arena = ArenaObject::mapped(base, self.config.pools_in_arena());
        let slot = match self.vacant.pop() {
            Some(slot) => {
                self.arenas[slot] = arena;
                slot
            },
            None => {
                self.arenas.push(arena);
                self.arenas.len() - 1
            },
        };
        proof {
            let post = old(self)@.after_acquire(base as int);
            assert(self@.arenas =~= post.arenas);
            assert(self@.avail =~= post.avail);
            assert(self@.vacant =~= post.vacant);
            old(self)@.lemma_after_acquire(base as int);
        }
        Ok(slot)
    }

    /// Gives up arena `arena` if all its pools are free, and returns the
    /// address of the region, which the embedding program unmaps.
    /// Otherwise, and for an arena that was released before, nothing happens.
    pub fn release_arena(&mut self, arena: usize) -> (r: Option<usize>)
        requires
            old(self).wf(),
        ensures
            final(self).wf(),
            final(self)@ == old(self)@.after_release(arena as int),
            final(self)@.live_set() == old(self)@.live_set(),
            r == if old(self)@.releasable(arena as int) {
                Some(old(self)@.arenas[arena as int].base as usize)
            } else {
                None
            },
    {
        if arena >= self.arenas.len() || !self.arenas[arena].is_idle() {
            return None;
        }
        proof {
            old(self)@.lemma_after_release(arena as int);
        }
        let base = self.arenas[arena].address();
        self.arenas[arena].release();
        self.vacant.push(arena);
        proof {
            let post = old(self)@.after_release(arena as int);
            assert(self@.arenas =~= post.arenas);
            assert(self@.avail =~= post.avail);
        }
        Some(base)
    }

    /// Applies the retention rule to arena `arena`: it is released if it
    /// is idle and more arenas are idle than the configuration keeps.
    /// Returns the address of the region to unmap, if any.
    pub fn reclaim(&mut self, arena: usize) -> (r: Option<usize>)
        requires
            old(self).wf(),
        ensures
            final(self).wf(),
            final(self)@ == old(self)@.after_reclaim(arena as int),
            final(self)@.live_set() == old(self)@.live_set(),
            r == old(self)@.reclaimed(arena as int),
    {
        if arena >= self.arenas.len() || !self.arenas[arena].is_idle() {
            return None;
        }
        if self.idle_arenas() > self.config.max_idle_arenas {
            self.release_arena(arena)
        } else {
            None
        }
    }

    /// Takes a free pool of arena `arena` for `class` and puts it at the
    /// head of the class's list. `None`, and nothing changed, when there is
    /// no such arena or class or the arena has no free pool.
    pub fn carve_pool(&mut self, arena: usize, class: usize) -> (r: Option<PoolRef>)
        requires
            old(self).wf(),
        ensures
            final(self).wf(),
            final(self)@ == old(self)@.after_carve(arena as int, class as int),
            final(self)@.live_set() == old(self)@.live_set(),
            r == if old(self)@.can_carve(arena as int, class as int) {
                Some(old(self)@.carved(arena as int))
            } else {
                None
            },
    {
        if arena >= self.arenas.len() || class >= self.usedpools.len()
            || !self.arenas[arena].has_space() {
            return None;
        }
        let capacity = self.config.capacity_of_class(class);
        proof {
            old(self)@.lemma_after_carve(arena as int, class as int);
            assert(old(self)@.arena_ok(arena as int));
        }
        let pool = self.arenas[arena].carve_pool(class, capacity).unwrap();
        let r = PoolRef { arena, pool };
        self.usedpools[class].push(r);
        proof {
            let post = old(self)@.after_carve(arena as int, class as int);
            assert(self@.arenas =~= post.arenas);
            assert(self@.avail =~= post.avail);
        }
        Some(r)
    }

    /// Address of block position `b`.
    pub fn block_address(&self, b: BlockRef) -> (addr: usize)
        requires
            self.wf(),
            self@.slot(b),
        ensures
            addr == self@.address(b),
            addr > 0,
            addr % self@.config.alignment == 0,
    {
        proof {
            self@.lemma_pool_bounds(b.pool);
            self@.lemma_slot_bounds(b);
            self@.law_block_aligned(b);
        }
        let arena = &self.arenas[b.pool.arena];
        let class = arena.pool(b.pool.pool).class().unwrap();
        let size = self.config.size_of_class(class);
        arena.address() + b.pool.pool * self.config.pool_size + self.config.pool_overhead + b.block
            * size
    }

    /// Serves a request of `size` bytes. Above the threshold the answer is
    /// `Large`. Else the block comes from the head pool of the class; if the
    /// class has no pool with room, one is carved first from the first
    /// arena with a free pool; if no arena has one, the answer is
    /// `NeedArena` and nothing changed. The block is the pool's most
    /// recently freed one, else its lowest untouched one, and was not
    /// allocated before. Its address is a multiple of the alignment.
    pub fn allocate(&mut self, size: usize) -> (r: Allocation)
        requires
            old(self).wf(),
        ensures
            final(self).wf(),
            r == old(self)@.allocation(size as int),
            final(self)@ == old(self)@.after_allocate(size as int),
            match r {
                Allocation::Block(addr) => {
                    &&& !old(self)@.live(addr as int)
                    &&& final(self)@.live_set() == old(self)@.live_set().insert(addr as int)
                    &&& addr % old(self)@.config.alignment == 0
                },
                _ => final(self)@ == old(self)@,
            },
    {
        let class = match self.config.classify(size) {
            None => {
                return Allocation::Large;
            },
            Some(class) => class,
        };
        assert(self@.avail[class as int] == self.usedpools@[class as int]@);
        if self.usedpools[class].len() == 0 {
            match self.find_arena_with_space() {
                None => {
                    return Allocation::NeedArena;
                },
                Some(arena) => {
                    proof {
                        self@.lemma_after_carve(arena as int, class as int);
                    }
                    self.carve_pool(arena, class);
                },
            }
        }
        let r = self.usedpools[class][self.usedpools[class].len() - 1];
        proof {
            assert(self@.avail[class as int] == self.usedpools@[class as int]@);
            assert(self@ == old(self)@.supplied(class as int));
            self@.lemma_after_take(class as int);
        }
        Allocation::Block(self.pool_alloc(r).unwrap())
    }

    /// Takes a block from pool `pool`: its most recently freed one, else
    /// its lowest untouched one. A pool that became full leaves its
    /// class's list. `None`, and nothing changed, when there is no such
    /// pool in use or it is full. Returns the block's address.
    pub fn pool_alloc(&mut self, pool: PoolRef) -> (r: Option<usize>)
        requires
            old(self).wf(),
        ensures
            final(self).wf(),
            final(self)@ == old(self)@.after_pool_alloc(pool),
            match r {
                Some(addr) => {
                    &&& old(self)@.can_serve(pool)
                    &&& addr == old(self)@.address(old(self)@.pool_block(pool))
                    &&& !old(self)@.live(addr as int)
                    &&& final(self)@.live_set() == old(self)@.live_set().insert(addr as int)
                    &&& addr % old(self)@.config.alignment == 0
                },
                None => !old(self)@.can_serve(pool),
            },
    {
        if pool.arena >= self.arenas.len() || pool.pool >= self.arenas[pool.arena].ncarved() {
            return None;
        }
        let class = match self.arenas[pool.arena].pool(pool.pool).class() {
            None => {
                return None;
            },
            Some(class) => class,
        };
        if !self.arenas[pool.arena].pool(pool.pool).has_room() {
            return None;
        }
        proof {
            let pre = old(self)@;
            pre.lemma_after_pool_alloc(pool);
            pre.lemma_pool_bounds(pool);
            pre.after_pool_alloc(pool).lemma_live_bounded();
            pre.after_pool_alloc(pool).lemma_held_is_slot(pre.pool_block(pool));
            assert(pre.arena_ok(pool.arena as int));
            assert(pre.avail[class as int] == self.usedpools@[class as int]@);
        }
        let k = self.arenas[pool.arena].pool_alloc(pool.pool).unwrap();
        if !self.arenas[pool.arena].pool(pool.pool).has_room() {
            unlist(&mut self.usedpools[class], pool);
        }
        self.nblocks = self.nblocks + 1;
        proof {
            let post = old(self)@.after_pool_alloc(pool);
            assert(self@.arenas =~= post.arenas);
            assert(self@.avail =~= post.avail);
        }
        Some(self.block_address(BlockRef { pool, block: k }))
    }

    /// Finds the block position that starts at `ptr`, by address
    /// arithmetic. `None` if `ptr` lies in no arena, in a pool that is not
    /// in use, in a pool's overhead, inside a block, or past the last block.
    pub fn resolve(&self, ptr: usize) -> (r: Option<BlockRef>)
        requires
            self.wf(),
        ensures
            r == self@.locate(ptr as int),
            r matches Some(b) ==> self@.slot(b) && self@.address(b) == ptr,
    {
        let size = self.config.arena_size;
        let mut a: usize = 0;
        while a < self.arenas.len()
            invariant
                self.wf(),
                size == self@.config.arena_size,
                a <= self.arenas.len(),
                forall|x: int| 0 <= x < a ==> !self@.spans(x, ptr as int),
            decreases self.arenas.len() - a,
        {
            let arena = &self.arenas[a];
            let base = arena.address();
            if base != 0 && ptr >= base && ptr - base < size {
                proof {
                    assert(self@.spans(a as int, ptr as int));
                    self@.lemma_arena_at(a as int, ptr as int);
                    self@.config.lemma_geometry();
                    assert(self@.arena_ok(a as int));
                    if self@.locate(ptr as int) is Some {
                        self@.lemma_locate_sound(ptr as int);
                    }
                }
                let off = ptr - base;
                let p = off / self.config.pool_size;
                let within = off % self.config.pool_size;
                if p >= arena.ncarved() {
                    return None;
                }
                let pool = arena.pool(p);
                let class = match pool.class() {
                    None => {
                        return None;
                    },
                    Some(class) => class,
                };
                proof {
                    self@.lemma_pool_bounds(PoolRef { arena: a, pool: p });
                }
                if within < self.config.pool_overhead {
                    return None;
                }
                let rest = within - self.config.pool_overhead;
                let block_size = self.config.size_of_class(class);
                if rest % block_size != 0 || rest / block_size >= pool.capacity() {
                    return None;
                }
                return Some(BlockRef { pool: PoolRef { arena: a, pool: p }, block: rest / block_size });
            }
            a = a + 1;
        }
        None
    }

    /// Whether an allocated block starts at `ptr`. Resolves the address
    /// and walks the pool's free stack, so this also tells a block that
    /// was freed already.
    pub fn is_allocated(&self, ptr: usize) -> (b: bool)
        requires
            self.wf(),
        ensures
            b == self@.live(ptr as int),
    {
        proof {
            self@.lemma_live(ptr as int);
        }
        match self.resolve(ptr) {
            None => false,
            Some(b) => self.arenas[b.pool.arena].pool(b.pool.pool).is_allocated(b.block),
        }
    }

    /// Puts an allocated block back into its pool, where it becomes the
    /// first to be reused. A pool that was full becomes the head of its
    /// class's list; a pool without allocated blocks leaves the list and
    /// goes back to its arena. Says which of these happened.
    pub fn pool_free(&mut self, b: BlockRef) -> (r: PoolState)
        requires
            old(self).wf(),
            old(self)@.holds(b),
        ensures
            final(self).wf(),
            final(self)@ == old(self)@.after_put(b),
            final(self)@.live_set() == old(self)@.live_set().remove(old(self)@.address(b)),
            r == old(self)@.pool(b.pool).free_transition(),
    {
        proof {
            old(self)@.lemma_after_put(b);
            old(self)@.lemma_pool_bounds(b.pool);
            assert(old(self)@.arena_ok(b.pool.arena as int));
        }
        let class = self.arenas[b.pool.arena].pool(b.pool.pool).class().unwrap();
        let state = self.arenas[b.pool.arena].pool_free(b.pool.pool, b.block);
        match state {
            PoolState::BecameEmpty => {
                assert(old(self)@.avail[class as int].no_duplicates());
                unlist(&mut self.usedpools[class], b.pool);
            },
            PoolState::BecameAvailable => {
                self.usedpools[class].push(b.pool);
            },
            PoolState::StillPartial => {},
        }
        self.nblocks = self.nblocks - 1;
        proof {
            let post = old(self)@.after_put(b);
            assert(self@.arenas =~= post.arenas);
            assert(self@.avail =~= post.avail);
        }
        state
    }

    /// Frees the block at `ptr`, which must be allocated: freeing any
    /// other address, or a block twice, is the caller's error. If the free
    /// emptied the block's pool, the retention rule is applied to the
    /// pool's arena. Returns the address of the region to unmap, if an
    /// arena was released.
    pub fn free(&mut self, ptr: usize) -> (r: Option<usize>)
        requires
            old(self).wf(),
            old(self)@.live(ptr as int),
        ensures
            final(self).wf(),
            final(self)@ == old(self)@.after_free(ptr as int),
            final(self)@.live_set() == old(self)@.live_set().remove(ptr as int),
            r == old(self)@.freed_region(ptr as int),
    {
        proof {
            old(self)@.lemma_live(ptr as int);
        }
        let b = self.resolve(ptr).unwrap();
        match self.pool_free(b) {
            PoolState::BecameEmpty => self.reclaim(b.pool.arena),
            _ => None,
        }
    }

    /// Frees the block at `ptr` if one is allocated there, and reports
    /// `InvalidFree` otherwise, with nothing changed.
    pub fn try_free(&mut self, ptr: usize) -> (r: Result<Option<usize>, AllocError>)
        requires
            old(self).wf(),
        ensures
            final(self).wf(),
            match r {
                Ok(region) => {
                    &&& old(self)@.live(ptr as int)
                    &&& final(self)@ == old(self)@.after_free(ptr as int)
                    &&& region == old(self)@.freed_region(ptr as int)
                    &&& final(self)@.live_set() == old(self)@.live_set().remove(ptr as int)
                },
                Err(e) => {
                    &&& e == AllocError::InvalidFree
                    &&& !old(self)@.live(ptr as int)
                    &&& final(self)@ == old(self)@
                },
            },
    {
        if self.is_allocated(ptr) {
            Ok(self.free(ptr))
        } else {
            Err(AllocError::InvalidFree)
        }
    }

    /// Number of allocated blocks, for diagnostics. Counts that do not fit
    /// are reported as the largest number.
    pub fn get_interpreter_allocated_blocks(&self) -> (n: i64)
        ensures
            n == if self@.blocks <= i64::MAX {
                self@.blocks as int
            } else {
                i64::MAX as int
            },
    {
        if self.nblocks as u128 > i64::MAX as u128 {
            i64::MAX
        } else {
            self.nblocks as i64
        }
    }

    /// Shuts the allocator down. With blocks still allocated this fails
    /// and changes nothing. Otherwise every arena is given up, the state
    /// is that after start-up, and the addresses of the regions come back
    /// for the embedding program to unmap.
    pub fn finalize_allocated_blocks(&mut self) -> (r: Result<Vec<usize>, AllocError>)
        requires
            old(self).wf(),
        ensures
            final(self).wf(),
            match r {
                Ok(regions) => {
                    &&& old(self)@.blocks == 0
                    &&& regions@ == old(self)@.bases()
                    &&& final(self)@ == HeapView::started(old(self)@.config)
                },
                Err(e) => {
                    &&& e == AllocError::BlocksInUse
                    &&& old(self)@.blocks > 0
                    &&& final(self)@ == old(self)@
                },
            },
    {
        if self.nblocks > 0 {
            return Err(AllocError::BlocksInUse);
        }
        let mut regions: Vec<usize> = Vec::new();
        let mut a: usize = 0;
        while a < self.arenas.len()
            invariant
                a <= self.arenas.len(),
                regions@ == self@.bases_upto(a as int),
            decreases self.arenas.len() - a,
        {
            if self.arenas[a].is_live() {
                regions.push(self.arenas[a].address());
            }
            a = a + 1;
        }
        self.reset();
        Ok(regions)
    }
}

/// Takes pool `r` out of a list that names no pool twice.
fn unlist(list: &mut Vec<PoolRef>, r: PoolRef)
    requires
        old(list)@.no_duplicates(),
    ensures
        final(list)@ == HeapView::without(old(list)@, r),
{
    let mut i: usize = list.len();
    while i > 0
        invariant
            i <= list.len(),
            list@ == old(list)@,
            list@.no_duplicates(),
            forall|j: int| i <= j < list.len() ==> list@[j] != r,
        decreases i,
    {
        i = i - 1;
        if list[i] == r {
            proof {
                assert(list@.contains(r));
                assert(list@[list@.index_of(r)] == list@[i as int]);
            }
            list.remove(i);
            return;
        }
    }
}

} // verus!
