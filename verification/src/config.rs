//! Geometry of the allocator and the size-class table derived from it.

use vstd::prelude::*;
use crate::arith::{
    lemma_div_rem, lemma_div_rem_unique, lemma_fits, lemma_mul_le, lemma_multiple_sum,
    lemma_multiple_times,
};

verus! {

/// Why a configuration was turned down at start-up.
#[derive(Clone, Copy, Debug, PartialEq, Eq, Structural)]
pub enum InitError {
    /// The alignment is zero.
    ZeroAlignment,
    /// The small-object threshold is zero or no multiple of the alignment.
    ThresholdNotAligned,
    /// The per-pool overhead leaves no room for one block of the largest class.
    PoolTooSmall,
    /// The alignment, which is the smallest block size, does not evenly divide
    /// the pool's capacity (pool size minus overhead).
    BlockMisfit,
    /// The per-pool overhead is no multiple of the alignment, so blocks
    /// would not start at aligned addresses.
    OverheadNotAligned,
    /// The arena size is no positive multiple of the pool size.
    ArenaNotPoolMultiple,
}

/// The tunables of one allocator instance. All sizes are in bytes.
#[derive(Clone, Copy, Debug, PartialEq, Eq, Structural)]
pub struct Config {
    /// Size of each region requested from the operating system.
    pub arena_size: usize,
    /// Size of each pool; an arena holds `arena_size / pool_size` of them.
    pub pool_size: usize,
    /// Bytes at the start of each pool that are never handed out; a
    /// multiple of the alignment.
    pub pool_overhead: usize,
    /// Block sizes are the multiples of this up to `small_threshold`.
    pub alignment: usize,
    /// Largest request served from pools; larger ones go to the large-object path.
    pub small_threshold: usize,
    /// How many fully idle arenas are kept mapped for reuse. An arena that
    /// becomes idle while this many others are idle is released at once.
    pub max_idle_arenas: usize,
}

impl Config {
    /// The constraint that `validate` reports first, if any.
    pub open spec fn defect(self) -> Option<InitError> {
        if self.alignment == 0 {
            Some(InitError::ZeroAlignment)
        } else if self.small_threshold == 0 || self.small_threshold % self.alignment != 0 {
            Some(InitError::ThresholdNotAligned)
        } else if self.pool_overhead >= self.pool_size || self.small_threshold
            > self.pool_size - self.pool_overhead {
            Some(InitError::PoolTooSmall)
        } else if (self.pool_size - self.pool_overhead) % (self.alignment as int) != 0 {
            Some(InitError::BlockMisfit)
        } else if self.pool_overhead % self.alignment != 0 {
            Some(InitError::OverheadNotAligned)
        } else if self.arena_size < self.pool_size || self.arena_size % self.pool_size != 0 {
            Some(InitError::ArenaNotPoolMultiple)
        } else {
            None
        }
    }

    /// A configuration is valid when no constraint is violated.
    pub open spec fn valid(self) -> bool {
        self.defect() is None
    }

    /// Number of size classes.
    pub open spec fn class_count(self) -> int {
        self.small_threshold as int / self.alignment as int
    }

    /// Block size of a class.
    pub open spec fn block_size(self, class: int) -> int {
        (class + 1) * self.alignment
    }

    /// Bytes of a pool that can hold blocks.
    pub open spec fn pool_room(self) -> int {
        self.pool_size - self.pool_overhead
    }

    /// Number of blocks in a pool of a class.
    pub open spec fn pool_capacity(self, class: int) -> int {
        self.pool_room() / self.block_size(class)
    }

    /// Number of pools in an arena.
    pub open spec fn pools_per_arena(self) -> int {
        self.arena_size as int / self.pool_size as int
    }

    /// The class that serves a request: none above the threshold, else the
    /// class of the request rounded up to the alignment. A request of zero
    /// bytes is served by the smallest class.
    pub open spec fn class_of(self, size: int) -> Option<int> {
        if size > self.small_threshold {
            None
        } else if size <= 0 {
            Some(0)
        } else {
            Some((size - 1) / (self.alignment as int))
        }
    }

    /// The default geometry: 1 MiB arenas, 16 KiB pools with 48 bytes of
    /// overhead, 16-byte alignment, requests up to 512 bytes, one idle arena kept.
    pub fn standard() -> (c: Config)
        ensures
            c.valid(),
            c == (Config {
                arena_size: 1048576,
                pool_size: 16384,
                pool_overhead: 48,
                alignment: 16,
                small_threshold: 512,
                max_idle_arenas: 1,
            }),
    {
        Config {
            arena_size: 1048576,
            pool_size: 16384,
            pool_overhead: 48,
            alignment: 16,
            small_threshold: 512,
            max_idle_arenas: 1,
        }
    }

    /// Checks the constraints in a fixed order and reports the first that fails.
    pub fn validate(&self) -> (r: Result<(), InitError>)
        ensures
            r is Ok <==> self.valid(),
            r is Err ==> self.defect() == Some(r->Err_0),
    {
        if self.alignment == 0 {
            return Err(InitError::ZeroAlignment);
        }
        if self.small_threshold == 0 || self.small_threshold % self.alignment != 0 {
            return Err(InitError::ThresholdNotAligned);
        }
        if self.pool_overhead >= self.pool_size || self.small_threshold > self.pool_size
            - self.pool_overhead {
            return Err(InitError::PoolTooSmall);
        }
        if (self.pool_size - self.pool_overhead) % self.alignment != 0 {
            return Err(InitError::BlockMisfit);
        }
        if self.pool_overhead % self.alignment != 0 {
            return Err(InitError::OverheadNotAligned);
        }
        if self.arena_size < self.pool_size || self.arena_size % self.pool_size != 0 {
            return Err(InitError::ArenaNotPoolMultiple);
        }
        Ok(())
    }

    /// A valid configuration has at least one class and at least one pool in
    /// each arena; the classes tile the threshold and the pools tile the arena.
    pub proof fn lemma_geometry(self)
        requires
            self.valid(),
        ensures
            self.class_count() >= 1,
            self.class_count() * self.alignment == self.small_threshold,
            self.pools_per_arena() >= 1,
            self.pools_per_arena() * self.pool_size == self.arena_size,
    {
        let g = self.alignment as int;
        let t = self.small_threshold as int;
        let p = self.pool_size as int;
        let a = self.arena_size as int;
        lemma_div_rem(t, g);
        lemma_div_rem(a, p);
        assert(t / g >= 1) by (nonlinear_arith)
            requires
                t == (t / g) * g,
                t > 0,
                g > 0,
        ;
        assert(a / p >= 1) by (nonlinear_arith)
            requires
                a == (a / p) * p,
                a > 0,
                p > 0,
        ;
    }

    /// Pool size, arena size and every block size are multiples of the
    /// alignment.
    pub proof fn lemma_aligned(self, class: int)
        requires
            self.valid(),
            0 <= class,
        ensures
            self.pool_size % self.alignment == 0,
            self.arena_size % self.alignment == 0,
            self.block_size(class) % (self.alignment as int) == 0,
    {
        let g = self.alignment as int;
        self.lemma_geometry();
        lemma_multiple_sum(self.pool_overhead as int, self.pool_room(), g);
        lemma_multiple_times(self.pools_per_arena(), self.pool_size as int, g);
        lemma_multiple_times(class + 1, g, g);
    }

    /// Every class has a block size between the alignment and the threshold,
    /// and every pool holds at least one block of its class.
    pub proof fn lemma_classes(self, class: int)
        requires
            self.valid(),
            0 <= class < self.class_count(),
        ensures
            self.alignment <= self.block_size(class) <= self.small_threshold,
            self.block_size(class) <= self.pool_room(),
            1 <= self.pool_capacity(class) <= self.pool_room(),
            self.pool_capacity(class) * self.block_size(class) <= self.pool_room(),
    {
        self.lemma_geometry();
        let g = self.alignment as int;
        let t = self.small_threshold as int;
        lemma_mul_le(class + 1, t / g, g);
        lemma_mul_le(1, class + 1, g);
        let bs = self.block_size(class);
        lemma_div_rem(self.pool_room(), bs);
        lemma_fits(1, bs, self.pool_room());
        lemma_mul_le(1, bs, self.pool_capacity(class));
    }

    /// Every request up to the threshold has a class; its block is the
    /// smallest that holds the request.
    pub proof fn lemma_class_of(self, size: int)
        requires
            self.valid(),
            0 <= size <= self.small_threshold,
        ensures
            self.class_of(size) is Some,
            0 <= self.class_of(size)->Some_0 < self.class_count(),
            self.block_size(self.class_of(size)->Some_0) >= size,
            self.class_of(size)->Some_0 > 0 ==> self.block_size(self.class_of(size)->Some_0 - 1)
                < size,
    {
        let g = self.alignment as int;
        let t = self.small_threshold as int;
        self.lemma_geometry();
        if size > 0 {
            lemma_div_rem(size - 1, g);
            let c = (size - 1) / g;
            lemma_fits(c + 1, g, t);
            assert((c + 1) * g == c * g + g) by (nonlinear_arith);
            if c >= t / g {
                lemma_mul_le(t / g, c, g);
            }
        } else {
            assert((0 + 1) * g == g) by (nonlinear_arith);
        }
    }

    /// The edges of the table: a request of zero bytes has the smallest
    /// class, a request of exactly the threshold has the largest, and one
    /// byte more has none.
    pub proof fn law_class_edges(self)
        requires
            self.valid(),
        ensures
            self.class_of(0) == Some(0int),
            self.class_of(self.small_threshold as int) == Some(self.class_count() - 1),
            self.block_size(self.class_count() - 1) == self.small_threshold,
            self.class_of(self.small_threshold + 1) is None,
    {
        let g = self.alignment as int;
        let t = self.small_threshold as int;
        let n = self.class_count();
        self.lemma_geometry();
        assert((n - 1) * g == n * g - g) by (nonlinear_arith);
        lemma_div_rem_unique(t - 1, g, n - 1, g - 1);
        assert((n - 1 + 1) * g == n * g);
    }

    /// A larger request never has a smaller class.
    pub proof fn law_class_order(self, small: int, large: int)
        requires
            self.valid(),
            0 <= small <= large <= self.small_threshold,
        ensures
            self.class_of(small)->Some_0 <= self.class_of(large)->Some_0,
    {
        let g = self.alignment as int;
        if small > 0 {
            lemma_div_rem(small - 1, g);
            lemma_div_rem(large - 1, g);
            let a = (small - 1) / g;
            let b = (large - 1) / g;
            if a > b {
                lemma_mul_le(b + 1, a, g);
                assert((b + 1) * g == b * g + g) by (nonlinear_arith);
            }
        } else if large > 0 {
            lemma_div_rem(large - 1, g);
        }
    }

    /// Number of size classes.
    pub fn classes(&self) -> (n: usize)
        requires
            self.valid(),
        ensures
            n == self.class_count(),
            n >= 1,
    {
        proof {
            self.lemma_geometry();
        }
        self.small_threshold / self.alignment
    }

    /// Number of pools in an arena.
    pub fn pools_in_arena(&self) -> (n: usize)
        requires
            self.valid(),
        ensures
            n == self.pools_per_arena(),
            n >= 1,
    {
        proof {
            self.lemma_geometry();
        }
        self.arena_size / self.pool_size
    }

    /// Block size of a class.
    pub fn size_of_class(&self, class: usize) -> (n: usize)
        requires
            self.valid(),
            class < self.class_count(),
        ensures
            n == self.block_size(class as int),
            self.alignment <= n <= self.small_threshold,
    {
        proof {
            self.lemma_classes(class as int);
        }
        (class + 1) * self.alignment
    }

    /// Number of blocks that a pool of a class holds.
    pub fn capacity_of_class(&self, class: usize) -> (n: usize)
        requires
            self.valid(),
            class < self.class_count(),
        ensures
            n == self.pool_capacity(class as int),
            n >= 1,
    {
        proof {
            self.lemma_classes(class as int);
        }
        let size = self.size_of_class(class);
        (self.pool_size - self.pool_overhead) / size
    }

    /// Routes a request to its size class. `None` sends it to the
    /// large-object path: that happens exactly above the threshold, so the
    /// threshold itself is still served from pools, and so is a request of
    /// zero bytes.
    pub fn classify(&self, size: usize) -> (r: Option<usize>)
        requires
            self.valid(),
        ensures
            r is None <==> size > self.small_threshold,
            match r {
                Some(c) => self.class_of(size as int) == Some(c as int) && c < self.class_count()
                    && self.block_size(c as int) >= size && (c > 0 ==> self.block_size(c - 1)
                    < size),
                None => self.class_of(size as int) is None,
            },
    {
        if size > self.small_threshold {
            None
        } else {
            proof {
                self.lemma_class_of(size as int);
            }
            if size == 0 {
                Some(0)
            } else {
                Some((size - 1) / self.alignment)
            }
        }
    }
}

} // verus!
