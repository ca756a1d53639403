//! Cache eviction policies.

/// A constant-time cache for the least-frequently-used eviction
/// scheme, after "An O(1) algorithm for implementing the LFU cache
/// eviction scheme" by Shah, Mitra and Matani: entries are grouped
/// into frequency buckets so that every access and eviction touches
/// a bounded number of nodes.
pub mod lfu;

/// A simplified two-queue cache, after "2Q: A Low Overhead High
/// Performance Buffer Management Replacement Algorithm" by Johnson
/// and Shasha: a probationary FIFO queue for keys seen once and a
/// main LRU queue for keys accessed again.
pub mod two_q_lru;
