//! A least-frequently-used cache with constant-time lookup, insertion and
//! eviction, built on linked vectors of frequency buckets.
pub mod cache;
mod linked;

pub use cache::{KeyState, LfuCache};
