//! One pool: a run of equal blocks with a high-water mark and a stack of
//! freed blocks.

use vstd::prelude::*;
use crate::arith::{lemma_distinct_below, lemma_distinct_below_without};

verus! {

/// What a free did to the pool it went to.
#[derive(Clone, Copy, Debug, PartialEq, Eq, Structural)]
pub enum PoolState {
    /// The pool holds no allocated block any more and goes back to its arena.
    BecameEmpty,
    /// The pool was full and has a free block again.
    BecameAvailable,
    /// The pool had free blocks before and still holds allocated ones.
    StillPartial,
}

/// The mathematical content of a pool.
pub struct PoolView {
    /// The size class that the pool serves; `None` while its arena holds it.
    pub class: Option<nat>,
    /// Number of blocks that fit into the pool.
    pub capacity: nat,
    /// Number of blocks handed out at least once; blocks are numbered in
    /// address order and the blocks from here on were never touched.
    pub carved: nat,
    /// The freed blocks; the last one was freed most recently and is reused first.
    pub free: Seq<usize>,
}

impl PoolView {
    /// A pool that its arena holds.
    pub open spec fn unused() -> PoolView {
        PoolView { class: None, capacity: 0, carved: 0, free: Seq::empty() }
    }

    /// A pool right after it was assigned to a class: every block untouched.
    pub open spec fn fresh(class: nat, capacity: nat) -> PoolView {
        PoolView { class: Some(class), capacity, carved: 0, free: Seq::empty() }
    }

    /// The pool is in order: only carved blocks are on the free stack,
    /// once each, and no more blocks are carved than fit.
    pub open spec fn wf(self) -> bool {
        &&& self.class is None ==> self.capacity == 0
        &&& self.class is Some ==> 1 <= self.capacity <= usize::MAX
        &&& self.carved <= self.capacity
        &&& forall|i: int| 0 <= i < self.free.len() ==> self.free[i] < self.carved
        &&& self.free.no_duplicates()
    }

    /// Block `k` is allocated: carved and not on the free stack.
    pub open spec fn holds(self, k: usize) -> bool {
        k < self.carved && !self.free.contains(k)
    }

    /// Number of allocated blocks.
    pub open spec fn used_blocks(self) -> int {
        self.carved - self.free.len()
    }

    /// The pool can serve one more allocation.
    pub open spec fn has_room(self) -> bool {
        self.free.len() > 0 || self.carved < self.capacity
    }

    /// No block of the pool is allocated.
    pub open spec fn is_idle(self) -> bool {
        self.free.len() == self.carved
    }

    /// The block that the next allocation returns: the most recently freed
    /// one, else the lowest untouched one.
    pub open spec fn next_block(self) -> int {
        if self.free.len() > 0 {
            self.free.last() as int
        } else {
            self.carved as int
        }
    }

    /// The pool after an allocation; unchanged when it has no room.
    pub open spec fn after_alloc(self) -> PoolView {
        if self.free.len() > 0 {
            PoolView { free: self.free.drop_last(), ..self }
        } else if self.carved < self.capacity {
            PoolView { carved: self.carved + 1, ..self }
        } else {
            self
        }
    }

    /// The pool after block `k` was freed.
    pub open spec fn after_free(self, k: usize) -> PoolView {
        PoolView { free: self.free.push(k), ..self }
    }

    /// What freeing one allocated block does to the pool.
    pub open spec fn free_transition(self) -> PoolState {
        if self.used_blocks() == 1 {
            PoolState::BecameEmpty
        } else if !self.has_room() {
            PoolState::BecameAvailable
        } else {
            PoolState::StillPartial
        }
    }

    /// The free stack never holds more blocks than were carved.
    pub proof fn lemma_free_bounded(self)
        requires
            self.wf(),
        ensures
            self.free.len() <= self.carved,
            self.used_blocks() >= 0,
    {
        lemma_distinct_below(self.free, self.carved);
    }

    /// A pool without allocated blocks holds no block.
    pub proof fn lemma_idle(self, k: usize)
        requires
            self.wf(),
            self.is_idle(),
        ensures
            !self.holds(k),
    {
        if self.holds(k) {
            lemma_distinct_below_without(self.free, self.carved, k);
        }
    }

    /// An allocation hands out a block that was not allocated, and changes
    /// the state of no other block.
    pub proof fn lemma_after_alloc(self)
        requires
            self.wf(),
            self.has_room(),
        ensures
            self.after_alloc().wf(),
            0 <= self.next_block() < self.capacity,
            !self.holds(self.next_block() as usize),
            self.after_alloc().holds(self.next_block() as usize),
            forall|k: usize| k != self.next_block() ==> (self.after_alloc().holds(k) <==> self.holds(k)),
            self.after_alloc().used_blocks() == self.used_blocks() + 1,
            self.after_alloc().class == self.class,
            self.after_alloc().capacity == self.capacity,
    {
        let post = self.after_alloc();
        if self.free.len() > 0 {
            let top = self.free.last();
            assert(self.free.contains(top));
            assert forall|k: usize| k != top implies (post.holds(k) <==> self.holds(k)) by {
                if self.free.contains(k) {
                    let i = self.free.index_of(k);
                    assert(post.free[i] == k);
                }
                if post.free.contains(k) {
                    let i = post.free.index_of(k);
                    assert(self.free[i] == k);
                }
            }
            if post.free.contains(top) {
                let i = post.free.index_of(top);
                assert(self.free[i] == top);
            }
        } else {
            assert(!self.free.contains(self.carved as usize));
        }
    }

    /// A free releases exactly the block it names.
    pub proof fn lemma_after_free(self, k: usize)
        requires
            self.wf(),
            self.holds(k),
        ensures
            self.after_free(k).wf(),
            !self.after_free(k).holds(k),
            forall|j: usize| j != k ==> (self.after_free(k).holds(j) <==> self.holds(j)),
            self.used_blocks() >= 1,
            self.after_free(k).used_blocks() == self.used_blocks() - 1,
            self.after_free(k).has_room(),
            self.after_free(k).next_block() == k,
            self.after_free(k).is_idle() <==> self.free_transition() == PoolState::BecameEmpty,
    {
        let post = self.after_free(k);
        lemma_distinct_below_without(self.free, self.carved, k);
        assert(post.free[self.free.len() as int] == k);
        assert forall|i: int, j: int|
            0 <= i < post.free.len() && 0 <= j < post.free.len() && i != j implies post.free[i]
            != post.free[j] by {
            if i < self.free.len() {
                assert(self.free.contains(self.free[i]));
            }
            if j < self.free.len() {
                assert(self.free.contains(self.free[j]));
            }
        }
        assert forall|j: usize| j != k implies (post.holds(j) <==> self.holds(j)) by {
            if self.free.contains(j) {
                let i = self.free.index_of(j);
                assert(post.free[i] == j);
            }
            if post.free.contains(j) {
                let i = post.free.index_of(j);
                assert(self.free[i] == j);
            }
        }
    }
}

/// A pool's bookkeeping.
pub struct PoolHeader {
    szidx: Option<usize>,
    capacity: usize,
    nextoffset: usize,
    freeblock: Vec<usize>,
}

impl View for PoolHeader {
    type V = PoolView;

    closed spec fn view(&self) -> PoolView {
        PoolView {
            class: match self.szidx {
                Some(c) => Some(c as nat),
                None => None,
            },
            capacity: self.capacity as nat,
            carved: self.nextoffset as nat,
            free: self.freeblock@,
        }
    }
}

impl PoolHeader {
    /// A pool that its arena holds.
    pub fn unused() -> (p: PoolHeader)
        ensures
            p@ == PoolView::unused(),
            p@.wf(),
    {
        PoolHeader { szidx: None, capacity: 0, nextoffset: 0, freeblock: Vec::new() }
    }

    /// A pool assigned to `class`, with room for `capacity` blocks, all untouched.
    pub fn stamped(class: usize, capacity: usize) -> (p: PoolHeader)
        requires
            capacity >= 1,
        ensures
            p@ == PoolView::fresh(class as nat, capacity as nat),
            p@.wf(),
    {
        PoolHeader { szidx: Some(class), capacity, nextoffset: 0, freeblock: Vec::new() }
    }

    /// The size class that the pool serves, if it is in use.
    pub fn class(&self) -> (c: Option<usize>)
        ensures
            match c {
                Some(c) => self@.class == Some(c as nat),
                None => self@.class is None,
            },
    {
        self.szidx
    }

    /// Number of blocks that fit into the pool.
    pub fn capacity(&self) -> (n: usize)
        ensures
            n == self@.capacity,
    {
        self.capacity
    }

    /// Number of blocks handed out at least once.
    pub fn carved(&self) -> (n: usize)
        ensures
            n == self@.carved,
    {
        self.nextoffset
    }

    /// Number of allocated blocks.
    pub fn used_blocks(&self) -> (n: usize)
        requires
            self@.wf(),
        ensures
            n == self@.used_blocks(),
    {
        proof {
            self@.lemma_free_bounded();
        }
        self.nextoffset - self.freeblock.len()
    }

    /// Whether the pool can serve one more allocation.
    pub fn has_room(&self) -> (b: bool)
        ensures
            b == self@.has_room(),
    {
        self.freeblock.len() > 0 || self.nextoffset < self.capacity
    }

    /// Whether no block of the pool is allocated.
    pub fn is_idle(&self) -> (b: bool)
        ensures
            b == self@.is_idle(),
    {
        self.freeblock.len() == self.nextoffset
    }

    /// Whether block `k` is allocated. Walks the free stack.
    pub fn is_allocated(&self, k: usize) -> (b: bool)
        ensures
            b == self@.holds(k),
    {
        if k >= self.nextoffset {
            return false;
        }
        let mut i: usize = 0;
        while i < self.freeblock.len()
            invariant
                i <= self.freeblock.len(),
                forall|j: int| 0 <= j < i ==> self.freeblock@[j] != k,
            decreases self.freeblock.len() - i,
        {
            if self.freeblock[i] == k {
                assert(self.freeblock@.contains(k));
                return false;
            }
            i = i + 1;
        }
        true
    }

    /// Takes a block from the pool: the most recently freed one, else the
    /// lowest untouched one. `None` when the pool is full.
    pub fn pool_alloc(&mut self) -> (r: Option<usize>)
        requires
            old(self)@.wf(),
        ensures
            final(self)@.wf(),
            final(self)@ == old(self)@.after_alloc(),
            match r {
                Some(k) => old(self)@.has_room() && k == old(self)@.next_block(),
                None => !old(self)@.has_room() && final(self)@ == old(self)@,
            },
    {
        if self.freeblock.len() > 0 {
            proof {
                self@.lemma_after_alloc();
            }
            self.freeblock.pop()
        } else if self.nextoffset < self.capacity {
            proof {
                self@.lemma_after_alloc();
            }
            let k = self.nextoffset;
            self.nextoffset = k + 1;
            Some(k)
        } else {
            None
        }
    }

    /// Puts an allocated block back. It becomes the first to be reused.
    /// Freeing a block that is not allocated is the caller's error.
    pub fn pool_free(&mut self, block: usize) -> (r: PoolState)
        requires
            old(self)@.wf(),
            old(self)@.holds(block),
        ensures
            final(self)@.wf(),
            final(self)@ == old(self)@.after_free(block),
            r == old(self)@.free_transition(),
    {
        proof {
            self@.lemma_after_free(block);
            self@.lemma_free_bounded();
        }
        let was_full = !self.has_room();
        self.freeblock.push(block);
        if self.freeblock.len() == self.nextoffset {
            PoolState::BecameEmpty
        } else if was_full {
            PoolState::BecameAvailable
        } else {
            PoolState::StillPartial
        }
    }
}

} // verus!
