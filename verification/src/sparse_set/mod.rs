//! Component storage: a sparse array of entities pointing into dense buckets.
pub mod bucket_index;
pub mod deser;
pub mod group_page;
pub mod groups;
pub mod sparse_array;
pub mod component_bucket;
pub mod set;
pub mod apply;
pub mod retain;
pub mod sort;
pub mod sort_by;
pub mod memory_usage;
pub mod metadata;
pub mod window;
pub mod window_clear;
pub mod window_sort;
pub mod window_sort_by;
pub mod packed_remove;
