//! In-memory cache eviction policies: a constant-time
//! least-frequently-used cache and a simplified two-queue cache, both
//! built on one doubly-linked-list arena.

pub mod caching;
pub mod common;
