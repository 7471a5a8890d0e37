//! A segregated-size object allocator: arenas are cut into pools, pools into
//! blocks of one size class each.
//!
//! The allocator works on addresses. It never touches the memory behind them,
//! and it never talks to the operating system: the embedding program maps and
//! unmaps arenas and reports the outcome.

pub mod arena;
pub mod arith;
pub mod config;
pub mod geometry;
pub mod heap;
pub mod laws;
pub mod live;
pub mod model;
pub mod pool;
pub mod steps;

pub use crate::arena::ArenaObject;
pub use crate::config::{Config, InitError};
pub use crate::heap::PyMemAllocator;
pub use crate::model::{AllocError, Allocation, BlockRef, PoolRef};
pub use crate::pool::{PoolHeader, PoolState};
