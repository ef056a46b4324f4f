//! Shard lineage tracking and checkpoint migration for consumers of a
//! resharding stream: which shards to consume, from what position, and when
//! to start and stop each shard's consumer.

pub mod position;
pub mod shard;
pub mod lineage;
pub mod error;
pub mod checkpoint;
pub mod descent;
pub mod migration;
pub mod supervisor;
pub mod reconcile;
pub mod backoff;
