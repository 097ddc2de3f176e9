//! What a storage records beside its components.
use crate::entity_id::EntityId;
use crate::sparse_set::memory_usage::{add_sat, capacity_of, mul_sat, sat_add, sat_mul};
use vstd::prelude::*;

verus! {

/// The tracking a storage does, with the removed entities and the deleted components when
/// those are tracked.
pub struct Metadata<T> {
    pub track_insertion: bool,
    pub track_modification: bool,
    pub track_removal: Option<Vec<EntityId>>,
    pub track_deletion: Option<Vec<(EntityId, T)>>,
}

/// Number of elements in `v`, none when there is no list.
pub open spec fn listed<X>(v: Option<Vec<X>>) -> int {
    match v {
        Some(l) => l@.len() as int,
        None => 0,
    }
}

impl<T> Metadata<T> {
    /// Metadata of a storage that tracks nothing.
    pub fn new() -> (m: Metadata<T>)
        ensures
            !m.track_insertion,
            !m.track_modification,
            m.track_removal is None,
            m.track_deletion is None,
    {
        Metadata { track_insertion: false, track_modification: false, track_removal: None, track_deletion: None }
    }

    /// Bytes used by the metadata and by the entities and components it records.
    pub fn used_memory(&self) -> (n: usize)
        ensures
            n == sat_add(sat_add(vstd::layout::size_of::<Metadata<T>>() as int,
                sat_mul(listed(self.track_removal), vstd::layout::size_of::<EntityId>() as int)),
                sat_mul(listed(self.track_deletion), vstd::layout::size_of::<(EntityId, T)>() as int)),
    {
        let removed = match &self.track_removal {
            Some(removed) => mul_sat(removed.len(), core::mem::size_of::<EntityId>()),
            None => 0,
        };
        let deleted = match &self.track_deletion {
            Some(deleted) => mul_sat(deleted.len(), core::mem::size_of::<(EntityId, T)>()),
            None => 0,
        };
        add_sat(add_sat(core::mem::size_of::<Metadata<T>>(), removed), deleted)
    }

    /// Bytes reserved by the metadata and by the lists it keeps, at their capacity.
    pub fn reserved_memory(&self) -> (n: usize)
        ensures
            exists|cr: int, cd: int| cr >= listed(self.track_removal) && cd >= listed(self.track_deletion)
                && (self.track_removal is None ==> cr == 0) && (self.track_deletion is None ==> cd == 0)
                && n == sat_add(sat_add(vstd::layout::size_of::<Metadata<T>>() as int,
                    sat_mul(cr, vstd::layout::size_of::<EntityId>() as int)),
                    sat_mul(cd, vstd::layout::size_of::<(EntityId, T)>() as int)),
    {
        let (removed, cr) = match &self.track_removal {
            Some(removed) => {
                let c = capacity_of(removed);
                (mul_sat(c, core::mem::size_of::<EntityId>()), c)
            },
            None => (0, 0),
        };
        let (deleted, cd) = match &self.track_deletion {
            Some(deleted) => {
                let c = capacity_of(deleted);
                (mul_sat(c, core::mem::size_of::<(EntityId, T)>()), c)
            },
            None => (0, 0),
        };
        proof {
            assert(removed == sat_mul(cr as int, vstd::layout::size_of::<EntityId>() as int));
            assert(deleted == sat_mul(cd as int, vstd::layout::size_of::<(EntityId, T)>() as int));
        }
        let n = add_sat(add_sat(core::mem::size_of::<Metadata<T>>(), removed), deleted);
        proof {
            assert(cr as int >= listed(self.track_removal));
            assert(cd as int >= listed(self.track_deletion));
            assert(n == sat_add(sat_add(vstd::layout::size_of::<Metadata<T>>() as int,
                sat_mul(cr as int, vstd::layout::size_of::<EntityId>() as int)),
                sat_mul(cd as int, vstd::layout::size_of::<(EntityId, T)>() as int)));
        }
        n
    }
}

} // verus!
