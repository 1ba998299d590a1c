//! Lock-free work-partitioning primitives.
//!
//! Two building blocks let independently running workers claim
//! non-overlapping units of work from one shared resource without locks:
//!
//! - a countdown allocator ([`countdown::Counter`]) that hands out each
//!   integer of a fixed range exactly once across any number of threads, and
//! - a disjoint chunk partitioner ([`chunks::AtomicChunksMut`]) that divides
//!   a fixed-length buffer into consecutive chunks of a configured stride and
//!   assigns each chunk to exactly one caller.
//!
//! Both advance a single shared atomic cursor through bounded
//! compare-and-swap retry loops. A small string helper ([`parse::parse_pair`])
//! is included for callers that read a pair of coordinates from text.

pub mod chunks;
pub mod countdown;
pub mod parse;

pub use chunks::AtomicChunksMut;
pub use chunks::ChunkHandle;
pub use countdown::Counter;
