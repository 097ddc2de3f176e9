//! How much memory a sparse set uses.
use crate::entity_id::{EntityId, BUCKET_SIZE};
use crate::sparse_set::bucket_index::BucketIndex;
use crate::sparse_set::set::SparseSet;
use crate::sparse_set::sparse_array::{allocated_count, SparseArray};
use crate::tracking::TrackingTimestamp;
use vstd::prelude::*;

verus! {

/// `a + b`, or `usize::MAX` when it does not fit.
pub open spec fn sat_add(a: int, b: int) -> int {
    if a + b > usize::MAX { usize::MAX as int } else { a + b }
}

/// `a * b`, or `usize::MAX` when it does not fit.
pub open spec fn sat_mul(a: int, b: int) -> int {
    if a * b > usize::MAX { usize::MAX as int } else { a * b }
}

pub(crate) fn add_sat(a: usize, b: usize) -> (r: usize)
    ensures
        r == sat_add(a as int, b as int),
{
    a.saturating_add(b)
}

pub(crate) fn mul_sat(a: usize, b: usize) -> (r: usize)
    ensures
        r == sat_mul(a as int, b as int),
{
    match a.checked_mul(b) {
        Some(r) => r,
        None => usize::MAX,
    }
}

/// Number of elements `v` can hold without reallocating.
///
/// Calls `Vec::capacity`; std documents that it is at least the length. The value itself
/// depends on the allocator and is not stated.
#[verifier::external_body]
pub(crate) fn capacity_of<T>(v: &Vec<T>) -> (c: usize)
    ensures
        c >= v@.len(),
{
    v.capacity()
}

/// Memory used and reserved by a storage, with its number of components.
pub struct StorageMemoryUsage {
    pub storage_name: String,
    pub allocated_memory_bytes: usize,
    pub used_memory_bytes: usize,
    pub component_count: usize,
}

/// Memory of each part of a sparse set, in bytes.
pub struct SparseSetMemory {
    pub sparse: usize,
    pub dense: usize,
    pub data: usize,
    pub insertion_data: usize,
    pub modification_data: usize,
    pub deletion_data: usize,
    pub removal_data: usize,
    pub itself: usize,
}

/// Detailed memory usage of a sparse set.
pub struct SparseSetMemoryUsage {
    pub base: StorageMemoryUsage,
    pub allocated: SparseSetMemory,
    pub used: SparseSetMemory,
}

impl SparseSetMemory {
    /// Total of the parts.
    pub open spec fn total(&self) -> int {
        sat_add(sat_add(sat_add(sat_add(sat_add(sat_add(sat_add(self.sparse as int, self.dense as int), self.data as int),
            self.insertion_data as int), self.modification_data as int), self.deletion_data as int), self.removal_data as int),
            self.itself as int)
    }

    /// Adds the parts up.
    pub fn sum(&self) -> (t: usize)
        ensures
            t == self.total(),
    {
        add_sat(add_sat(add_sat(add_sat(add_sat(add_sat(add_sat(self.sparse, self.dense), self.data), self.insertion_data),
            self.modification_data), self.deletion_data), self.removal_data), self.itself)
    }
}

impl SparseArray {
    /// Bytes taken by `c` slots of the list of pages and by the allocated pages.
    pub open spec fn memory_with(&self, c: int) -> int {
        sat_add(
            sat_mul(c, vstd::layout::size_of::<Vec<EntityId>>() as int),
            sat_mul(allocated_count(self.pages@, self.pages@.len() as int),
                sat_mul(BUCKET_SIZE as int, vstd::layout::size_of::<EntityId>() as int)))
    }

    /// Bytes used by the list of pages and by the allocated pages.
    pub fn used_memory(&self) -> (m: usize)
        ensures
            m == self.memory_with(self.pages@.len() as int),
    {
        let pages = self.allocated_pages();
        add_sat(
            mul_sat(self.pages.len(), core::mem::size_of::<Vec<EntityId>>()),
            mul_sat(pages, mul_sat(BUCKET_SIZE, core::mem::size_of::<EntityId>())),
        )
    }

    /// Bytes reserved by the list of pages and by the allocated pages.
    pub fn reserved_memory(&self) -> (m: usize)
        ensures
            exists|c: int| c >= self.pages@.len() && m == self.memory_with(c),
    {
        let pages = self.allocated_pages();
        let c = capacity_of(&self.pages);
        let m = add_sat(
            mul_sat(c, core::mem::size_of::<Vec<EntityId>>()),
            mul_sat(pages, mul_sat(BUCKET_SIZE, core::mem::size_of::<EntityId>())),
        );
        assert(m == self.memory_with(c as int));
        m
    }
}

impl<T> SparseSet<T> {
    /// Bytes used by each part of the storage.
    pub fn used_memory(&self) -> (m: SparseSetMemory)
        ensures
            m.sparse == self.sparse.memory_with(self.sparse.pages@.len() as int),
            m.dense == sat_mul(self.unclassified_bucket.dense@.len() as int, vstd::layout::size_of::<EntityId>() as int),
            m.data == sat_mul(self.unclassified_bucket.data@.len() as int, vstd::layout::size_of::<T>() as int),
            m.insertion_data == sat_mul(self.unclassified_bucket.insertion_data@.len() as int, vstd::layout::size_of::<TrackingTimestamp>() as int),
            m.modification_data == sat_mul(self.unclassified_bucket.modification_data@.len() as int, vstd::layout::size_of::<TrackingTimestamp>() as int),
            m.deletion_data == sat_mul(self.deletion_data@.len() as int, vstd::layout::size_of::<(EntityId, TrackingTimestamp, T)>() as int),
            m.removal_data == sat_mul(self.removal_data@.len() as int, vstd::layout::size_of::<(EntityId, TrackingTimestamp)>() as int),
            m.itself == vstd::layout::size_of::<SparseSet<T>>(),
    {
        SparseSetMemory {
            sparse: self.sparse.used_memory(),
            dense: mul_sat(self.unclassified_bucket.dense.len(), core::mem::size_of::<EntityId>()),
            data: mul_sat(self.unclassified_bucket.data.len(), core::mem::size_of::<T>()),
            insertion_data: mul_sat(self.unclassified_bucket.insertion_data.len(), core::mem::size_of::<TrackingTimestamp>()),
            modification_data: mul_sat(self.unclassified_bucket.modification_data.len(), core::mem::size_of::<TrackingTimestamp>()),
            deletion_data: mul_sat(self.deletion_data.len(), core::mem::size_of::<(EntityId, TrackingTimestamp, T)>()),
            removal_data: mul_sat(self.removal_data.len(), core::mem::size_of::<(EntityId, TrackingTimestamp)>()),
            itself: core::mem::size_of::<SparseSet<T>>(),
        }
    }

    /// Bytes reserved by each part of the storage.
    pub fn allocated_memory(&self) -> (m: SparseSetMemory)
        ensures
            exists|c: int| c >= self.unclassified_bucket.dense@.len() && m.dense == sat_mul(c, vstd::layout::size_of::<EntityId>() as int),
            exists|c: int| c >= self.unclassified_bucket.data@.len() && m.data == sat_mul(c, vstd::layout::size_of::<T>() as int),
            exists|c: int| c >= self.unclassified_bucket.insertion_data@.len() && m.insertion_data == sat_mul(c, vstd::layout::size_of::<TrackingTimestamp>() as int),
            exists|c: int| c >= self.unclassified_bucket.modification_data@.len() && m.modification_data == sat_mul(c, vstd::layout::size_of::<TrackingTimestamp>() as int),
            exists|c: int| c >= self.sparse.pages@.len() && m.sparse == self.sparse.memory_with(c),
            exists|c: int| c >= self.deletion_data@.len() && m.deletion_data == sat_mul(c, vstd::layout::size_of::<(EntityId, TrackingTimestamp, T)>() as int),
            exists|c: int| c >= self.removal_data@.len() && m.removal_data == sat_mul(c, vstd::layout::size_of::<(EntityId, TrackingTimestamp)>() as int),
            m.itself == vstd::layout::size_of::<SparseSet<T>>(),
    {
        SparseSetMemory {
            sparse: self.sparse.reserved_memory(),
            dense: mul_sat(capacity_of(&self.unclassified_bucket.dense), core::mem::size_of::<EntityId>()),
            data: mul_sat(capacity_of(&self.unclassified_bucket.data), core::mem::size_of::<T>()),
            insertion_data: mul_sat(capacity_of(&self.unclassified_bucket.insertion_data), core::mem::size_of::<TrackingTimestamp>()),
            modification_data: mul_sat(capacity_of(&self.unclassified_bucket.modification_data), core::mem::size_of::<TrackingTimestamp>()),
            deletion_data: mul_sat(capacity_of(&self.deletion_data), core::mem::size_of::<(EntityId, TrackingTimestamp, T)>()),
            removal_data: mul_sat(capacity_of(&self.removal_data), core::mem::size_of::<(EntityId, TrackingTimestamp)>()),
            itself: core::mem::size_of::<SparseSet<T>>(),
        }
    }

    /// Memory used and reserved by the storage, named `storage_name`, with its number of components.
    pub fn private_memory_usage(&self, storage_name: String) -> (u: StorageMemoryUsage)
        ensures
            u.storage_name == storage_name,
            u.component_count == self.unclassified_bucket.dense@.len(),
            exists|used: SparseSetMemory| #![auto] u.used_memory_bytes == used.total()
                && used.dense == sat_mul(self.unclassified_bucket.dense@.len() as int, vstd::layout::size_of::<EntityId>() as int)
                && used.data == sat_mul(self.unclassified_bucket.data@.len() as int, vstd::layout::size_of::<T>() as int),
    {
        let used = self.used_memory();
        let allocated = self.allocated_memory();
        StorageMemoryUsage {
            storage_name,
            allocated_memory_bytes: allocated.sum(),
            used_memory_bytes: used.sum(),
            component_count: self.unclassified_bucket.dense.len(),
        }
    }

    /// Memory of each part of the storage, named `storage_name`, with the totals.
    pub fn detailed_memory_usage(&self, storage_name: String) -> (u: SparseSetMemoryUsage)
        ensures
            u.base.storage_name == storage_name,
            u.base.used_memory_bytes == u.used.total(),
            u.base.allocated_memory_bytes == u.allocated.total(),
            u.base.component_count == self.unclassified_bucket.dense@.len(),
            u.used.dense == sat_mul(self.unclassified_bucket.dense@.len() as int, vstd::layout::size_of::<EntityId>() as int),
            u.used.data == sat_mul(self.unclassified_bucket.data@.len() as int, vstd::layout::size_of::<T>() as int),
            u.used.deletion_data == sat_mul(self.deletion_data@.len() as int, vstd::layout::size_of::<(EntityId, TrackingTimestamp, T)>() as int),
            u.used.removal_data == sat_mul(self.removal_data@.len() as int, vstd::layout::size_of::<(EntityId, TrackingTimestamp)>() as int),
    {
        let used = self.used_memory();
        let allocated = self.allocated_memory();
        let base = StorageMemoryUsage {
            storage_name,
            allocated_memory_bytes: allocated.sum(),
            used_memory_bytes: used.sum(),
            component_count: self.unclassified_bucket.dense.len(),
        };
        SparseSetMemoryUsage { base, allocated, used }
    }
}

} // verus!
