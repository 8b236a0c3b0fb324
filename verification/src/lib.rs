//! The background control plane and GC engine of an in-memory, range-scoped
//! read cache that fronts a persistent key-value engine.
//!
//! The cache keeps the recent MVCC-visible data of chosen regions in ordered
//! in-memory columns. This crate holds the verified core of its background
//! machinery: the region lifecycle and its manager, the MVCC GC filter, the
//! memory-bounded snapshot loader, deferred range deletion, lock-column
//! tombstone cleanup, the computations behind the periodic tick, the
//! handling of cache-hint label rules, and the split write batch of the
//! apply path. Worker threads, timers, and the disk engine itself stay
//! outside, in an unverified shell that hands the core plain values.

#![verifier::loop_isolation(false)]
pub mod keys;
pub mod column;
pub mod write_record;
pub mod memory;
pub mod engine;
pub mod region;
pub mod region_manager;
pub mod filter;
pub mod gc;
pub mod loader;
pub mod delete_range;
pub mod tasks;
pub mod tick;
pub mod hint;
pub mod write_batch;
pub mod lock_cleanup;
pub mod laws;

pub use tasks::GcTask;
