//! Entity component system storages and workload scheduling.
pub mod entity_id;
pub mod type_id;
pub mod tracking;
pub mod sparse_set;
pub mod sparse_array;
pub mod scheduler;
pub mod error;
pub mod serde_setup;
