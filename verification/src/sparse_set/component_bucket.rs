//! A dense list of components with their entities and tracking data.
use crate::entity_id::EntityId;
use crate::tracking::TrackingTimestamp;
use vstd::prelude::*;

verus! {

/// Components of one bucket, side by side with their entities and timestamps.
#[derive(Debug)]
pub struct ComponentBucket<T> {
    pub dense: Vec<EntityId>,
    pub data: Vec<T>,
    pub insertion_data: Vec<TrackingTimestamp>,
    pub modification_data: Vec<TrackingTimestamp>,
}

impl<T> ComponentBucket<T> {
    /// The lists agree in length; a tracking list is empty unless that tracking is on.
    pub open spec fn shape(&self, ins: bool, modif: bool) -> bool {
        &&& self.data@.len() == self.dense@.len()
        &&& self.insertion_data@.len() == (if ins { self.dense@.len() } else { 0 })
        &&& self.modification_data@.len() == (if modif { self.dense@.len() } else { 0 })
    }

    /// An empty bucket.
    pub fn new() -> (b: ComponentBucket<T>)
        ensures
            b.dense@.len() == 0,
            b.shape(false, false),
            b.shape(true, true),
            b.shape(true, false),
            b.shape(false, true),
    {
        ComponentBucket { dense: Vec::new(), data: Vec::new(), insertion_data: Vec::new(), modification_data: Vec::new() }
    }

    /// Adds a component at the end.
    pub fn push(&mut self, entity: EntityId, value: T, insertion: Option<TrackingTimestamp>, modification: Option<TrackingTimestamp>)
        ensures
            final(self).dense@ == old(self).dense@.push(entity),
            final(self).data@ == old(self).data@.push(value),
            final(self).insertion_data@ == (match insertion {
                Some(t) => old(self).insertion_data@.push(t),
                None => old(self).insertion_data@,
            }),
            final(self).modification_data@ == (match modification {
                Some(t) => old(self).modification_data@.push(t),
                None => old(self).modification_data@,
            }),
    {
        self.dense.push(entity);
        self.data.push(value);
        if let Some(t) = insertion {
            self.insertion_data.push(t);
        }
        if let Some(t) = modification {
            self.modification_data.push(t);
        }
    }

    /// Replaces the component at `k`, returns the previous one.
    pub fn replace_data(&mut self, k: usize, value: T) -> (previous: T)
        requires
            k < old(self).data@.len(),
        ensures
            previous == old(self).data@[k as int],
            final(self).data@ == old(self).data@.update(k as int, value),
            final(self).dense == old(self).dense,
            final(self).insertion_data == old(self).insertion_data,
            final(self).modification_data == old(self).modification_data,
    {
        self.data.push(value);
        let previous = self.data.swap_remove(k);
        assert(self.data@ =~= old(self).data@.update(k as int, value));
        previous
    }

    /// Sets the entity at `k`.
    pub fn set_dense(&mut self, k: usize, entity: EntityId)
        requires
            k < old(self).dense@.len(),
        ensures
            final(self).dense@ == old(self).dense@.update(k as int, entity),
            final(self).data == old(self).data,
            final(self).insertion_data == old(self).insertion_data,
            final(self).modification_data == old(self).modification_data,
    {
        self.dense.set(k, entity);
    }

    /// Sets the insertion timestamp at `k`.
    pub fn set_insertion(&mut self, k: usize, t: TrackingTimestamp)
        requires
            k < old(self).insertion_data@.len(),
        ensures
            final(self).insertion_data@ == old(self).insertion_data@.update(k as int, t),
            final(self).dense == old(self).dense,
            final(self).data == old(self).data,
            final(self).modification_data == old(self).modification_data,
    {
        self.insertion_data.set(k, t);
    }

    /// Sets the modification timestamp at `k`.
    pub fn set_modification(&mut self, k: usize, t: TrackingTimestamp)
        requires
            k < old(self).modification_data@.len(),
        ensures
            final(self).modification_data@ == old(self).modification_data@.update(k as int, t),
            final(self).dense == old(self).dense,
            final(self).data == old(self).data,
            final(self).insertion_data == old(self).insertion_data,
    {
        self.modification_data.set(k, t);
    }

    /// Removes the component at `k`, moving the last one in its place.
    pub fn swap_remove(&mut self, k: usize, ins: bool, modif: bool) -> (r: (T, Option<TrackingTimestamp>, Option<TrackingTimestamp>))
        requires
            k < old(self).dense@.len(),
            old(self).shape(ins, modif),
        ensures
            final(self).shape(ins, modif),
            r.0 == old(self).data@[k as int],
            r.1 == (if ins { Some(old(self).insertion_data@[k as int]) } else { None::<TrackingTimestamp> }),
            r.2 == (if modif { Some(old(self).modification_data@[k as int]) } else { None::<TrackingTimestamp> }),
            final(self).dense@ == old(self).dense@.update(k as int, old(self).dense@.last()).drop_last(),
            final(self).data@ == old(self).data@.update(k as int, old(self).data@.last()).drop_last(),
            ins ==> final(self).insertion_data@ == old(self).insertion_data@.update(k as int, old(self).insertion_data@.last()).drop_last(),
            modif ==> final(self).modification_data@ == old(self).modification_data@.update(k as int, old(self).modification_data@.last()).drop_last(),
    {
        self.dense.swap_remove(k);
        let insertion = if ins { Some(self.insertion_data.swap_remove(k)) } else { None };
        let modification = if modif { Some(self.modification_data.swap_remove(k)) } else { None };
        let component = self.data.swap_remove(k);
        (component, insertion, modification)
    }
}

} // verus!
