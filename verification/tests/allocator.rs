use obmalloc::{AllocError, Allocation, BlockRef, Config, InitError, PoolRef, PoolState, PyMemAllocator};

const BASE: usize = 0x10000;

fn small() -> Config {
    Config {
        arena_size: 4096,
        pool_size: 1024,
        pool_overhead: 32,
        alignment: 16,
        small_threshold: 64,
        max_idle_arenas: 0,
    }
}

fn started(config: Config) -> PyMemAllocator {
    let mut heap = PyMemAllocator::new(config);
    assert_eq!(heap.init_obmalloc(), Ok(()));
    heap
}

fn with_arena(config: Config) -> PyMemAllocator {
    let mut heap = started(config);
    assert!(heap.can_adopt(BASE));
    assert_eq!(heap.acquire_arena(Some(BASE)), Ok(0));
    heap
}

fn block(heap: &mut PyMemAllocator, size: usize) -> usize {
    match heap.allocate(size) {
        Allocation::Block(addr) => addr,
        other => panic!("no block: {:?}", other),
    }
}

#[test]
fn classify_edges() {
    let c = Config::standard();
    assert_eq!(c.validate(), Ok(()));
    assert_eq!(c.classify(0), Some(0));
    assert_eq!(c.classify(1), Some(0));
    assert_eq!(c.classify(16), Some(0));
    assert_eq!(c.classify(17), Some(1));
    assert_eq!(c.classify(511), Some(31));
    assert_eq!(c.classify(512), Some(31));
    assert_eq!(c.classify(513), None);
    assert_eq!(c.classify(usize::MAX), None);
}

#[test]
fn class_geometry() {
    let c = Config::standard();
    assert_eq!(c.classes(), 32);
    assert_eq!(c.pools_in_arena(), 64);
    assert_eq!(c.size_of_class(0), 16);
    assert_eq!(c.size_of_class(31), 512);
    assert_eq!(c.capacity_of_class(0), 1021);
    assert_eq!(c.capacity_of_class(2), 340);
    assert_eq!(c.capacity_of_class(31), 31);
}

#[test]
fn classify_is_smallest_fit() {
    let c = small();
    for size in 0..=c.small_threshold {
        let class = c.classify(size).unwrap();
        assert!(c.size_of_class(class) >= size);
        if class > 0 {
            assert!(c.size_of_class(class - 1) < size);
        }
    }
}

#[test]
fn init_errors() {
    let ok = small();
    assert_eq!(Config { alignment: 0, ..ok }.validate(), Err(InitError::ZeroAlignment));
    assert_eq!(Config { small_threshold: 0, ..ok }.validate(), Err(InitError::ThresholdNotAligned));
    assert_eq!(Config { small_threshold: 40, ..ok }.validate(), Err(InitError::ThresholdNotAligned));
    assert_eq!(Config { pool_overhead: 1024, ..ok }.validate(), Err(InitError::PoolTooSmall));
    assert_eq!(Config { pool_overhead: 976, ..ok }.validate(), Err(InitError::PoolTooSmall));
    assert_eq!(Config { pool_overhead: 40, ..ok }.validate(), Err(InitError::BlockMisfit));
    assert_eq!(
        Config { pool_size: 1032, pool_overhead: 8, ..ok }.validate(),
        Err(InitError::OverheadNotAligned)
    );
    assert_eq!(Config { arena_size: 512, ..ok }.validate(), Err(InitError::ArenaNotPoolMultiple));
    assert_eq!(Config { arena_size: 4097, ..ok }.validate(), Err(InitError::ArenaNotPoolMultiple));
    assert_eq!(Config { pool_overhead: 960, ..ok }.validate(), Ok(()));

    let mut heap = PyMemAllocator::new(Config { alignment: 0, ..ok });
    assert_eq!(heap.init_obmalloc(), Err(InitError::ZeroAlignment));
    let mut heap = PyMemAllocator::new(ok);
    assert_eq!(heap.init_obmalloc(), Ok(()));
    assert_eq!(heap.init_obmalloc(), Ok(()));
    assert_eq!(heap.config(), ok);
}

#[test]
fn large_and_need_arena() {
    let mut heap = started(small());
    assert_eq!(heap.allocate(65), Allocation::Large);
    assert_eq!(heap.allocate(64), Allocation::NeedArena);
    assert_eq!(heap.allocate(0), Allocation::NeedArena);
    assert_eq!(heap.acquire_arena(None), Err(AllocError::OutOfMemory));
    assert_eq!(heap.allocate(0), Allocation::NeedArena);
    assert_eq!(heap.get_interpreter_allocated_blocks(), 0);
    assert_eq!(heap.arena_slots(), 0);
}

#[test]
fn adoptable_regions() {
    let mut heap = started(small());
    assert!(!heap.can_adopt(0));
    assert!(!heap.can_adopt(BASE + 16));
    assert!(heap.can_adopt(BASE));
    assert!(heap.can_adopt(usize::MAX - 4095));
    assert_eq!(heap.acquire_arena(Some(BASE)), Ok(0));
    assert!(!heap.can_adopt(BASE));
    assert!(heap.can_adopt(BASE + 4096));
    assert!(heap.can_adopt(BASE - 4096));
}

#[test]
fn addresses_follow_the_layout() {
    let mut heap = with_arena(small());
    // class 1 (32 bytes): first pool of the arena, blocks in address order
    assert_eq!(heap.allocate(17), Allocation::Block(BASE + 32));
    assert_eq!(heap.allocate(32), Allocation::Block(BASE + 32 + 32));
    // class 0 (16 bytes): second pool
    assert_eq!(heap.allocate(0), Allocation::Block(BASE + 1024 + 32));
    assert_eq!(heap.allocate(16), Allocation::Block(BASE + 1024 + 32 + 16));
    // class 3 (64 bytes): third pool
    assert_eq!(heap.allocate(64), Allocation::Block(BASE + 2048 + 32));
    assert_eq!(heap.get_interpreter_allocated_blocks(), 5);
    assert_eq!(heap.arena(0).nfreepools(), 1);
    assert_eq!(heap.arena(0).ncarved(), 3);
    assert_eq!(heap.arena(0).pool(0).class(), Some(1));
    assert_eq!(heap.arena(0).pool(0).capacity(), 31);
    assert_eq!(heap.arena(0).pool(0).used_blocks(), 2);
}

#[test]
fn resolve_by_arithmetic() {
    let mut heap = with_arena(small());
    let a = block(&mut heap, 32);
    let b = block(&mut heap, 32);
    let first = BlockRef { pool: PoolRef { arena: 0, pool: 0 }, block: 0 };
    let second = BlockRef { pool: PoolRef { arena: 0, pool: 0 }, block: 1 };
    assert_eq!(heap.resolve(a), Some(first));
    assert_eq!(heap.resolve(b), Some(second));
    assert_eq!(heap.block_address(second), b);
    assert_eq!(heap.resolve(a + 1), None);
    assert_eq!(heap.resolve(BASE), None);
    assert_eq!(heap.resolve(BASE + 1024 + 32), None);
    assert_eq!(heap.resolve(BASE - 1), None);
    assert_eq!(heap.resolve(BASE + 4096), None);
    // the 31 positions of the pool end 32 + 31 * 32 = 1024 bytes in
    assert_eq!(
        heap.resolve(BASE + 32 + 30 * 32),
        Some(BlockRef { pool: PoolRef { arena: 0, pool: 0 }, block: 30 })
    );
    assert!(heap.is_allocated(a));
    assert!(heap.is_allocated(b));
    assert!(!heap.is_allocated(BASE + 32 + 2 * 32));
    assert!(!heap.is_allocated(a + 8));
}

#[test]
fn live_addresses_are_unique() {
    let mut heap = with_arena(small());
    let mut live: Vec<usize> = Vec::new();
    let sizes = [1usize, 16, 17, 33, 64, 48, 0, 20, 64, 5];
    for round in 0..40 {
        let size = sizes[round % sizes.len()];
        let addr = block(&mut heap, size);
        assert!(!live.contains(&addr));
        live.push(addr);
        if round % 3 == 2 {
            let victim = live.remove(round % live.len());
            assert_eq!(heap.free(victim), None);
        }
        assert_eq!(heap.get_interpreter_allocated_blocks(), live.len() as i64);
    }
    for addr in &live {
        assert!(heap.is_allocated(*addr));
    }
}

#[test]
fn blocks_do_not_overlap() {
    let config = small();
    let mut heap = with_arena(config);
    let mut spans: Vec<(usize, usize)> = Vec::new();
    for size in [64usize, 1, 33, 64, 17, 48, 16, 2] {
        let addr = block(&mut heap, size);
        let class = config.classify(size).unwrap();
        let b = heap.resolve(addr).unwrap();
        assert_eq!(heap.arena(0).pool(b.pool.pool).class(), Some(class));
        let len = config.size_of_class(class);
        assert!(addr >= BASE && addr + len <= BASE + config.arena_size);
        for (start, end) in &spans {
            assert!(addr + len <= *start || *end <= addr);
        }
        spans.push((addr, addr + len));
    }
}

#[test]
fn freed_block_is_reused_first() {
    let mut heap = with_arena(small());
    let a = block(&mut heap, 32);
    let b = block(&mut heap, 32);
    let c = block(&mut heap, 32);
    assert_eq!(heap.free(b), None);
    assert_eq!(heap.allocate(32), Allocation::Block(b));
    assert_eq!(heap.free(a), None);
    assert_eq!(heap.free(c), None);
    assert_eq!(heap.allocate(20), Allocation::Block(c));
    assert_eq!(heap.allocate(20), Allocation::Block(a));
    // the free stack is empty again: the next block is the lowest untouched one
    assert_eq!(heap.allocate(20), Allocation::Block(c + 32));
}

#[test]
fn pool_transitions() {
    let mut heap = with_arena(small());
    // class 3 has 64-byte blocks: 15 to a pool
    let mut blocks: Vec<usize> = Vec::new();
    for _ in 0..15 {
        blocks.push(block(&mut heap, 64));
    }
    assert!(!heap.arena(0).pool(0).has_room());
    let at = |heap: &PyMemAllocator, addr: usize| heap.resolve(addr).unwrap();
    let b = at(&heap, blocks[3]);
    assert_eq!(heap.pool_free(b), PoolState::BecameAvailable);
    let b = at(&heap, blocks[4]);
    assert_eq!(heap.pool_free(b), PoolState::StillPartial);
    for i in 0..15 {
        if i != 3 && i != 4 && i != 14 {
            let b = at(&heap, blocks[i]);
            assert_eq!(heap.pool_free(b), PoolState::StillPartial);
        }
    }
    let b = at(&heap, blocks[14]);
    assert_eq!(heap.pool_free(b), PoolState::BecameEmpty);
    assert_eq!(heap.arena(0).pool(0).class(), None);
    assert_eq!(heap.arena(0).nfreepools(), 4);
    assert!(heap.arena(0).is_idle());
}

#[test]
fn full_pool_returns_to_the_head() {
    let mut heap = with_arena(small());
    let mut first: Vec<usize> = Vec::new();
    for _ in 0..15 {
        first.push(block(&mut heap, 64));
    }
    // the first pool is full: the next block opens a second pool
    let other = block(&mut heap, 64);
    assert_eq!(other, BASE + 1024 + 32);
    // a free in the full pool makes it the head again
    assert_eq!(heap.free(first[7]), None);
    assert_eq!(heap.allocate(64), Allocation::Block(first[7]));
    // full again: the second pool serves
    assert_eq!(heap.allocate(64), Allocation::Block(other + 64));
}

#[test]
fn two_pools_then_release() {
    let config = small();
    let mut heap = with_arena(config);
    // class 0 has 16-byte blocks: 62 to a pool, so 124 blocks fill two pools
    let n = 2 * config.capacity_of_class(0);
    assert_eq!(n, 124);
    let mut blocks: Vec<usize> = Vec::new();
    for _ in 0..n {
        blocks.push(block(&mut heap, 16));
    }
    assert_eq!(heap.arena(0).ncarved(), 2);
    assert_eq!(heap.arena(0).nfreepools(), 2);
    assert_eq!(heap.get_interpreter_allocated_blocks(), 124);
    let mut released: Vec<usize> = Vec::new();
    for addr in &blocks {
        if let Some(region) = heap.free(*addr) {
            released.push(region);
        }
    }
    // nothing is kept idle: the arena went back with its last block
    assert_eq!(released, vec![BASE]);
    assert!(!heap.arena(0).is_live());
    assert_eq!(heap.idle_arenas(), 0);
    assert_eq!(heap.get_interpreter_allocated_blocks(), 0);
    assert_eq!(heap.allocate(16), Allocation::NeedArena);
    // the index is taken again by the next arena
    assert_eq!(heap.acquire_arena(Some(BASE + 8192)), Ok(0));
    assert_eq!(heap.allocate(16), Allocation::Block(BASE + 8192 + 32));
}

#[test]
fn idle_arena_is_kept() {
    let config = Config { max_idle_arenas: 1, ..small() };
    let mut heap = with_arena(config);
    let a = block(&mut heap, 16);
    assert_eq!(heap.free(a), None);
    assert!(heap.arena(0).is_live());
    assert!(heap.arena(0).is_idle());
    assert_eq!(heap.idle_arenas(), 1);
    assert_eq!(heap.arena(0).nfreepools(), 4);
    // the pool that went back is carved again first
    assert_eq!(heap.allocate(64), Allocation::Block(BASE + 32));
    // a second idle arena is one too many
    assert_eq!(heap.acquire_arena(Some(BASE + 4096)), Ok(1));
    assert_eq!(heap.idle_arenas(), 1);
    let b = heap.resolve(BASE + 32).unwrap();
    assert_eq!(heap.pool_free(b), PoolState::BecameEmpty);
    assert_eq!(heap.idle_arenas(), 2);
    assert_eq!(heap.reclaim(0), Some(BASE));
    assert_eq!(heap.reclaim(0), None);
    assert_eq!(heap.reclaim(1), None);
    assert_eq!(heap.reclaim(7), None);
    assert_eq!(heap.idle_arenas(), 1);
}

#[test]
fn release_happens_once() {
    let mut heap = with_arena(small());
    assert_eq!(heap.release_arena(0), Some(BASE));
    assert_eq!(heap.release_arena(0), None);
    assert_eq!(heap.reclaim(0), None);
    assert_eq!(heap.release_arena(1), None);
    assert_eq!(heap.arena_slots(), 1);
    assert!(!heap.arena(0).is_live());
}

#[test]
fn busy_arena_is_not_released() {
    let mut heap = with_arena(small());
    let a = block(&mut heap, 16);
    assert_eq!(heap.release_arena(0), None);
    assert_eq!(heap.reclaim(0), None);
    assert!(heap.is_allocated(a));
}

#[test]
fn classes_share_an_arena() {
    let mut heap = with_arena(small());
    let a1 = block(&mut heap, 16);
    let a2 = block(&mut heap, 16);
    let b1 = block(&mut heap, 64);
    assert_eq!(heap.arena(0).ncarved(), 2);
    assert_eq!(heap.free(a1), None);
    assert_eq!(heap.free(a2), None);
    // the pool of the small class went back; the other pool is untouched
    assert_eq!(heap.arena(0).pool(0).class(), None);
    assert_eq!(heap.arena(0).pool(1).class(), Some(3));
    assert_eq!(heap.arena(0).pool(1).used_blocks(), 1);
    assert!(heap.arena(0).is_live());
    assert!(!heap.arena(0).is_idle());
    assert_eq!(heap.arena(0).nfreepools(), 3);
    assert!(heap.is_allocated(b1));
    assert_eq!(heap.allocate(64), Allocation::Block(b1 + 64));
    assert_eq!(heap.free(b1 + 64), None);
    assert_eq!(heap.free(b1), Some(BASE));
}

#[test]
fn fuller_arena_is_preferred() {
    let mut heap = started(small());
    assert_eq!(heap.find_arena_with_space(), None);
    assert_eq!(heap.acquire_arena(Some(BASE)), Ok(0));
    assert_eq!(heap.acquire_arena(Some(BASE + 4096)), Ok(1));
    // equal counts: the lower index
    assert_eq!(heap.find_arena_with_space(), Some(0));
    assert_eq!(heap.carve_pool(1, 0), Some(PoolRef { arena: 1, pool: 0 }));
    assert_eq!(heap.find_arena_with_space(), Some(1));
    assert_eq!(heap.carve_pool(1, 1), Some(PoolRef { arena: 1, pool: 1 }));
    assert_eq!(heap.carve_pool(1, 2), Some(PoolRef { arena: 1, pool: 2 }));
    assert_eq!(heap.carve_pool(1, 3), Some(PoolRef { arena: 1, pool: 3 }));
    // the second arena is full now
    assert_eq!(heap.carve_pool(1, 3), None);
    assert_eq!(heap.find_arena_with_space(), Some(0));
    assert_eq!(heap.carve_pool(0, 4), None);
    assert_eq!(heap.carve_pool(2, 0), None);
    // the pool carved last heads its class
    assert_eq!(heap.allocate(64), Allocation::Block(BASE + 4096 + 3 * 1024 + 32));
}

#[test]
fn invalid_free_is_reported() {
    let mut heap = with_arena(small());
    let a = block(&mut heap, 16);
    let b = block(&mut heap, 16);
    assert_eq!(heap.try_free(a + 1), Err(AllocError::InvalidFree));
    assert_eq!(heap.try_free(BASE), Err(AllocError::InvalidFree));
    assert_eq!(heap.try_free(0), Err(AllocError::InvalidFree));
    assert_eq!(heap.try_free(a + 32), Err(AllocError::InvalidFree));
    assert_eq!(heap.try_free(a), Ok(None));
    assert_eq!(heap.try_free(a), Err(AllocError::InvalidFree));
    assert_eq!(heap.try_free(b), Ok(Some(BASE)));
    assert_eq!(heap.try_free(b), Err(AllocError::InvalidFree));
}

#[test]
fn teardown() {
    let mut heap = started(small());
    assert_eq!(heap.acquire_arena(Some(BASE)), Ok(0));
    assert_eq!(heap.acquire_arena(Some(BASE + 4096)), Ok(1));
    assert_eq!(heap.acquire_arena(Some(BASE + 8192)), Ok(2));
    assert_eq!(heap.release_arena(1), Some(BASE + 4096));
    let a = block(&mut heap, 16);
    assert_eq!(heap.finalize_allocated_blocks(), Err(AllocError::BlocksInUse));
    assert!(heap.is_allocated(a));
    let config = Config { max_idle_arenas: 5, ..small() };
    let mut heap = started(config);
    assert_eq!(heap.acquire_arena(Some(BASE)), Ok(0));
    assert_eq!(heap.acquire_arena(Some(BASE + 4096)), Ok(1));
    assert_eq!(heap.acquire_arena(Some(BASE + 8192)), Ok(2));
    assert_eq!(heap.release_arena(1), Some(BASE + 4096));
    let a = block(&mut heap, 16);
    assert_eq!(heap.free(a), None);
    assert_eq!(heap.finalize_allocated_blocks(), Ok(vec![BASE, BASE + 8192]));
    assert_eq!(heap.arena_slots(), 0);
    assert_eq!(heap.allocate(16), Allocation::NeedArena);
    assert_eq!(heap.finalize_allocated_blocks(), Ok(vec![]));
}

#[test]
fn standard_geometry_fills_an_arena() {
    let config = Config::standard();
    let mut heap = started(config);
    let base = 16 * config.arena_size;
    assert_eq!(heap.acquire_arena(Some(base)), Ok(0));
    // 31 blocks of 512 bytes to a pool, 64 pools to the arena
    for pool in 0..64 {
        for k in 0..31 {
            assert_eq!(
                heap.allocate(512),
                Allocation::Block(base + pool * 16384 + 48 + k * 512)
            );
        }
    }
    assert_eq!(heap.allocate(512), Allocation::NeedArena);
    assert_eq!(heap.allocate(1), Allocation::NeedArena);
    assert_eq!(heap.get_interpreter_allocated_blocks(), 64 * 31);
    assert_eq!(heap.arena(0).nfreepools(), 0);
}

#[test]
fn round_trip_returns_the_same_block() {
    // a pool that keeps other blocks: the freed block is the next one
    let mut heap = with_arena(small());
    let _keep = block(&mut heap, 48);
    let a = block(&mut heap, 48);
    assert_eq!(heap.free(a), None);
    assert_eq!(heap.allocate(48), Allocation::Block(a));
    // a pool that is emptied, in an arena that is kept: the pool is carved again
    let mut heap = with_arena(Config { max_idle_arenas: 1, ..small() });
    let a = block(&mut heap, 48);
    assert_eq!(heap.free(a), None);
    assert_eq!(heap.arena(0).pool(0).class(), None);
    assert_eq!(heap.allocate(48), Allocation::Block(a));
    assert_eq!(heap.arena(0).ncarved(), 1);
}

#[test]
fn round_trip_ends_with_the_arena() {
    // nothing is kept idle: the free of the only block releases the arena
    let mut heap = with_arena(small());
    let a = block(&mut heap, 48);
    assert_eq!(heap.free(a), Some(BASE));
    assert_eq!(heap.allocate(48), Allocation::NeedArena);
}

#[test]
fn emptied_pool_starts_over() {
    let mut heap = with_arena(Config { max_idle_arenas: 1, ..small() });
    let a = block(&mut heap, 48);
    let b = block(&mut heap, 48);
    assert_eq!(heap.free(a), None);
    // this free empties the pool, which forgets its free stack
    assert_eq!(heap.free(b), None);
    assert_eq!(heap.allocate(48), Allocation::Block(a));
    assert_eq!(heap.allocate(48), Allocation::Block(b));
}

#[test]
fn free_elsewhere_does_not_move_the_head() {
    let mut heap = with_arena(small());
    let mut first: Vec<usize> = Vec::new();
    for _ in 0..15 {
        first.push(block(&mut heap, 64));
    }
    let second = block(&mut heap, 64);
    let third = block(&mut heap, 64);
    // the first pool was full and heads the list after this free
    assert_eq!(heap.free(first[0]), None);
    // the second pool has room and is not the head: its freed block waits
    assert_eq!(heap.free(third), None);
    assert_eq!(heap.allocate(64), Allocation::Block(first[0]));
    assert_eq!(heap.allocate(64), Allocation::Block(third));
    assert!(heap.is_allocated(second));
}

#[test]
fn state_flags() {
    let mut heap = PyMemAllocator::new(small());
    assert!(!heap.is_obmalloc_state_on_heap());
    assert_eq!(heap.init_obmalloc(), Ok(()));
    assert!(heap.is_obmalloc_state_on_heap());
    assert_eq!(heap.classify(64), Some(3));
    assert_eq!(heap.classify(65), None);
    assert_eq!(heap.arena_request(), (4096, 4096));
    assert_eq!(heap.acquire_arena(Some(BASE)), Ok(0));
    let arena = heap.arena(0);
    assert_eq!(arena.address(), BASE);
    assert_eq!(arena.ntotalpools(), 4);
    assert!(arena.has_space());
    assert!(arena.is_idle());
}

#[test]
fn pool_alloc_by_name() {
    let mut heap = with_arena(small());
    let first = heap.carve_pool(0, 3).unwrap();
    let second = heap.carve_pool(0, 3).unwrap();
    assert_eq!(second, PoolRef { arena: 0, pool: 1 });
    // a pool that is not the head serves as well
    assert_eq!(heap.pool_alloc(first), Some(BASE + 32));
    assert_eq!(heap.pool_alloc(first), Some(BASE + 32 + 64));
    for k in 2..15 {
        assert_eq!(heap.pool_alloc(first), Some(BASE + 32 + k * 64));
    }
    // full: nothing to take, and the head serves the class
    assert_eq!(heap.pool_alloc(first), None);
    assert_eq!(heap.allocate(64), Allocation::Block(BASE + 1024 + 32));
    // pools that are not in use serve nothing
    assert_eq!(heap.pool_alloc(PoolRef { arena: 0, pool: 2 }), None);
    assert_eq!(heap.pool_alloc(PoolRef { arena: 1, pool: 0 }), None);
    assert_eq!(heap.get_interpreter_allocated_blocks(), 16);
}

#[test]
fn hand_carved_pool_goes_back_when_emptied() {
    let mut heap = with_arena(small());
    let first = heap.carve_pool(0, 2).unwrap();
    let second = heap.carve_pool(0, 2).unwrap();
    // the pool carved last heads the class and serves the block
    let a = block(&mut heap, 48);
    assert_eq!(heap.resolve(a).unwrap().pool, second);
    // its only block is freed: it goes back, and the other pool serves next
    assert_eq!(heap.free(a), None);
    assert_eq!(heap.arena(0).pool(1).class(), None);
    let b = block(&mut heap, 48);
    assert_eq!(heap.resolve(b).unwrap().pool, first);
    assert_eq!(b, BASE + 32);
}

#[test]
fn unaligned_overhead_is_refused() {
    // the room of each pool is 62 blocks of 16 bytes, but they would start 6 bytes off
    let config = Config {
        arena_size: 4120,
        pool_size: 1030,
        pool_overhead: 38,
        alignment: 16,
        small_threshold: 64,
        max_idle_arenas: 0,
    };
    assert_eq!(config.validate(), Err(InitError::OverheadNotAligned));
    let mut heap = PyMemAllocator::new(config);
    assert_eq!(heap.init_obmalloc(), Err(InitError::OverheadNotAligned));
    assert!(!heap.is_obmalloc_state_on_heap());
    // with an aligned overhead the same room is accepted
    let config = Config { arena_size: 4160, pool_size: 1040, pool_overhead: 48, ..config };
    assert_eq!(config.validate(), Ok(()));
}

#[test]
fn blocks_are_aligned() {
    let config = Config {
        arena_size: 4160,
        pool_size: 1040,
        pool_overhead: 48,
        alignment: 16,
        small_threshold: 64,
        max_idle_arenas: 0,
    };
    let mut heap = started(config);
    let base = 16 * 4160;
    assert!(heap.can_adopt(base));
    assert_eq!(heap.acquire_arena(Some(base)), Ok(0));
    assert_eq!(heap.allocate(16), Allocation::Block(base + 48));
    assert_eq!(heap.allocate(48), Allocation::Block(base + 1040 + 48));
    for size in [1usize, 17, 33, 49, 64, 16, 32, 48, 0, 5] {
        for _ in 0..7 {
            let addr = block(&mut heap, size);
            assert_eq!(addr % config.alignment, 0);
            assert_eq!(heap.block_address(heap.resolve(addr).unwrap()), addr);
        }
    }
    let mut heap = started(Config::standard());
    assert_eq!(heap.acquire_arena(Some(4 * 1048576)), Ok(0));
    for size in [1usize, 100, 512, 24, 300] {
        assert_eq!(block(&mut heap, size) % 16, 0);
    }
}
