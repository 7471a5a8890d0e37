//! Where blocks lie: bounds, non-overlap, and address resolution.

use vstd::prelude::*;
use crate::arith::{
    lemma_div_rem, lemma_div_rem_unique, lemma_multiple_sum, lemma_multiple_times,
    lemma_stretch_order,
};
use crate::model::{BlockRef, HeapView, PoolRef};

verus! {

impl HeapView {
    /// What the address arithmetic rests on.
    pub open spec fn placed(self) -> bool {
        self.config.valid() && self.arenas_wf()
    }

    /// A pool in use lies in a mapped arena, inside the arena's region.
    pub proof fn lemma_pool_bounds(self, r: PoolRef)
        requires
            self.placed(),
            self.has_pool(r),
        ensures
            self.has_arena(r.arena as int),
            0 <= self.pool_class(r) < self.config.class_count(),
            self.pool(r).capacity == self.config.pool_capacity(self.pool_class(r)),
            self.pool(r).wf(),
            r.pool < self.config.pools_per_arena(),
            self.arenas[r.arena as int].base <= self.pool_base(r),
            self.pool_base(r) + self.config.pool_size <= self.arenas[r.arena as int].base
                + self.config.arena_size,
            self.config.alignment <= self.pool_block_size(r) <= self.config.small_threshold,
    {
        let a = r.arena as int;
        assert(self.arena_ok(a));
        let arena = self.arenas[a];
        assert(self.pool_fits(arena.pools[r.pool as int]));
        assert(arena.pools[r.pool as int].wf());
        self.config.lemma_geometry();
        self.config.lemma_classes(self.pool_class(r));
        lemma_stretch_order(
            r.pool as int,
            self.config.pools_per_arena(),
            self.config.pool_size as int,
        );
    }

    /// A block position lies inside its pool, after the overhead.
    pub proof fn lemma_slot_bounds(self, b: BlockRef)
        requires
            self.placed(),
            self.slot(b),
        ensures
            self.pool_base(b.pool) + self.config.pool_overhead <= self.address(b),
            self.address(b) + self.pool_block_size(b.pool) <= self.pool_base(b.pool)
                + self.config.pool_size,
            0 < self.address(b) <= usize::MAX,
            self.spans(b.pool.arena as int, self.address(b)),
    {
        self.lemma_pool_bounds(b.pool);
        let c = self.pool_class(b.pool);
        self.config.lemma_classes(c);
        lemma_stretch_order(
            b.block as int,
            self.config.pool_capacity(c),
            self.config.block_size(c),
        );
        assert(self.arena_ok(b.pool.arena as int));
    }

    /// Every block position starts at a multiple of the alignment: arenas
    /// are aligned to their size, and pool size, overhead and block sizes
    /// are multiples of the alignment.
    pub proof fn law_block_aligned(self, b: BlockRef)
        requires
            self.placed(),
            self.slot(b),
        ensures
            self.address(b) % (self.config.alignment as int) == 0,
    {
        let g = self.config.alignment as int;
        let a = b.pool.arena as int;
        let base = self.arenas[a].base as int;
        let size = self.config.arena_size as int;
        let c = self.pool_class(b.pool);
        self.lemma_pool_bounds(b.pool);
        self.config.lemma_aligned(c);
        assert(self.arena_ok(a));
        lemma_div_rem(base, size);
        lemma_multiple_times(base / size, size, g);
        lemma_multiple_times(b.pool.pool as int, self.config.pool_size as int, g);
        lemma_multiple_times(b.block as int, self.config.block_size(c), g);
        lemma_multiple_sum(base, b.pool.pool * self.config.pool_size, g);
        lemma_multiple_sum(
            base + b.pool.pool * self.config.pool_size,
            self.config.pool_overhead as int,
            g,
        );
        lemma_multiple_sum(
            base + b.pool.pool * self.config.pool_size + self.config.pool_overhead,
            b.block * self.config.block_size(c),
            g,
        );
    }

    /// Two different block positions do not overlap.
    pub proof fn lemma_slots_apart(self, b1: BlockRef, b2: BlockRef)
        requires
            self.placed(),
            self.slot(b1),
            self.slot(b2),
            b1 != b2,
        ensures
            self.address(b1) + self.pool_block_size(b1.pool) <= self.address(b2) || self.address(
                b2,
            ) + self.pool_block_size(b2.pool) <= self.address(b1),
    {
        self.lemma_pool_bounds(b1.pool);
        self.lemma_pool_bounds(b2.pool);
        self.lemma_slot_bounds(b1);
        self.lemma_slot_bounds(b2);
        let p = self.config.pool_size as int;
        if b1.pool.arena != b2.pool.arena {
            assert(self.apart(b1.pool.arena as int, b2.pool.arena as int));
        } else if b1.pool.pool != b2.pool.pool {
            if b1.pool.pool < b2.pool.pool {
                lemma_stretch_order(b1.pool.pool as int, b2.pool.pool as int, p);
            } else {
                lemma_stretch_order(b2.pool.pool as int, b1.pool.pool as int, p);
            }
        } else {
            assert(b1.pool == b2.pool);
            let bs = self.pool_block_size(b1.pool);
            if b1.block < b2.block {
                lemma_stretch_order(b1.block as int, b2.block as int, bs);
            } else {
                lemma_stretch_order(b2.block as int, b1.block as int, bs);
            }
        }
    }

    /// An address lies in at most one arena.
    pub proof fn lemma_arena_at(self, a: int, addr: int)
        requires
            self.placed(),
            self.spans(a, addr),
        ensures
            self.arena_at(addr) == Some(a),
    {
        let found = choose|x: int| self.spans(x, addr);
        if found != a {
            assert(self.apart(found, a));
        }
    }

    /// Arenas are aligned to their size: the arena of an address starts
    /// where the address rounded down to the arena size lies.
    pub proof fn law_arena_alignment(self, a: int, addr: int)
        requires
            self.placed(),
            self.spans(a, addr),
        ensures
            self.arenas[a].base == addr - addr % (self.config.arena_size as int),
    {
        let size = self.config.arena_size as int;
        let base = self.arenas[a].base as int;
        assert(self.arena_ok(a));
        self.config.lemma_geometry();
        lemma_div_rem(base, size);
        lemma_div_rem_unique(addr, size, base / size, addr - base);
    }

    /// Address resolution finds every block position from its address.
    pub proof fn lemma_locate_address(self, b: BlockRef)
        requires
            self.placed(),
            self.slot(b),
        ensures
            self.locate(self.address(b)) == Some(b),
    {
        let addr = self.address(b);
        let a = b.pool.arena as int;
        self.lemma_pool_bounds(b.pool);
        self.lemma_slot_bounds(b);
        self.lemma_arena_at(a, addr);
        let p = self.config.pool_size as int;
        let bs = self.pool_block_size(b.pool);
        let off = addr - self.arenas[a].base;
        let within = self.config.pool_overhead + b.block * bs;
        lemma_stretch_order(b.block as int, b.block + 1, bs);
        lemma_div_rem_unique(off, p, b.pool.pool as int, within);
        let r = PoolRef { arena: a as usize, pool: (off / p) as usize };
        assert(r == b.pool);
        lemma_div_rem_unique(b.block * bs, bs, b.block as int, 0);
    }

    /// What address resolution finds is a block position at that address.
    pub proof fn lemma_locate_sound(self, addr: int)
        requires
            self.placed(),
            self.locate(addr) is Some,
        ensures
            self.slot(self.locate(addr)->Some_0),
            self.address(self.locate(addr)->Some_0) == addr,
    {
        let b = self.locate(addr)->Some_0;
        let a = self.arena_at(addr)->Some_0;
        assert(self.spans(a, addr));
        let p = self.config.pool_size as int;
        let off = addr - self.arenas[a].base;
        self.config.lemma_geometry();
        lemma_div_rem(off, p);
        let r = PoolRef { arena: a as usize, pool: (off / p) as usize };
        assert(r == b.pool);
        self.lemma_pool_bounds(r);
        let bs = self.pool_block_size(r);
        let rest = off % p - self.config.pool_overhead;
        lemma_div_rem(rest, bs);
    }

    /// Address resolution finds a block position exactly at the addresses
    /// where one starts.
    pub proof fn law_locate(self, addr: int, b: BlockRef)
        requires
            self.placed(),
        ensures
            self.locate(addr) == Some(b) <==> self.slot(b) && self.address(b) == addr,
    {
        if self.locate(addr) == Some(b) {
            self.lemma_locate_sound(addr);
        }
        if self.slot(b) && self.address(b) == addr {
            self.lemma_locate_address(b);
        }
    }

    /// An address is live exactly when address resolution finds an allocated block.
    pub proof fn lemma_live(self, addr: int)
        requires
            self.placed(),
        ensures
            self.live(addr) <==> self.locate(addr) is Some && self.holds(self.locate(addr)->Some_0),
    {
        if self.live(addr) {
            let b = choose|b: BlockRef| #[trigger] self.holds(b) && self.address(b) == addr;
            self.lemma_held_is_slot(b);
            self.lemma_locate_address(b);
        }
        if self.locate(addr) is Some && self.holds(self.locate(addr)->Some_0) {
            self.lemma_locate_sound(addr);
        }
    }

    /// An allocated block is a block position.
    pub proof fn lemma_held_is_slot(self, b: BlockRef)
        requires
            self.placed(),
            self.holds(b),
        ensures
            self.slot(b),
    {
        self.lemma_pool_bounds(b.pool);
    }
}

} // verus!
