//! Aggregation engine of a sampling profiler: content-addressed identities
//! for frames and call-tree nodes, a mergeable aggregation store, the
//! ingestion decisions that feed it, and the reconstruction of per-sample
//! records from the aggregated tree.
pub mod ids;
pub mod symcache;
pub mod model;
pub mod store;
pub mod tree;
pub mod reconstruct;
pub mod ingest;
pub mod perf;
pub mod flamegraph;
