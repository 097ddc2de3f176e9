use shipyard::entity_id::{EntityId, BUCKET_SIZE};
use shipyard::sparse_set::bucket_index::BucketIndex;
use shipyard::sparse_set::group_page::GroupPage;
use shipyard::sparse_set::groups::Groups;
use shipyard::sparse_set::metadata::Metadata;
use shipyard::sparse_set::set::{InsertionResult, SparseSet};
use shipyard::error::GetStorage;
use shipyard::tracking::{Tracking, TrackingTimestamp};
use shipyard::type_id::TypeId;
use std::mem::size_of;

#[derive(Debug, PartialEq, Eq, PartialOrd, Ord, Clone)]
struct I32(i32);

#[derive(Debug, PartialEq, Eq, PartialOrd, Ord, Clone)]
struct TrackedI32(i32);

fn tracking_all<T>() -> SparseSet<T> {
    SparseSet::new(true, true, true, true)
}

#[derive(Debug, PartialEq, Eq, Clone)]
struct Str(&'static str);

fn untracked<T>() -> SparseSet<T> {
    SparseSet::new(false, false, false, false)
}

fn get<T: Clone>(set: &SparseSet<T>, entity: EntityId) -> Option<T> {
    set.get(entity).cloned()
}

#[test]
fn bucket_indices_map_groups_to_physical_buckets() {
    assert!(BucketIndex::unclassified().is_unclassified());
    assert_eq!(BucketIndex::unclassified().group_index(), None);

    for group_index in [0, 1, 127, u16::MAX as usize - 1] {
        let bucket = BucketIndex::from_group_index(group_index);
        assert!(!bucket.is_unclassified());
        assert_eq!(bucket.group_index(), Some(group_index));
    }
}

#[test]
fn group_page_tracks_bucket_indices() {
    let mut page = GroupPage::new();

    for slot in 0..BUCKET_SIZE {
        assert_eq!(page.bucket_index(slot), BucketIndex::unclassified());
    }

    page.set_bucket_index(7, BucketIndex::from_group_index(2));
    assert_eq!(page.bucket_index(7).group_index(), Some(2));
}

#[test]
fn add_and_index_varying_length_groups() {
    let mut groups = Groups::new();
    let a = TypeId(1);
    let b = TypeId(2);
    let c = TypeId(3);

    assert!(groups.offsets.is_empty());

    let empty = groups.add(&vec![]);
    let single = groups.add(&vec![a]);
    let multiple = groups.add(&vec![a, b, c]);
    let second_empty = groups.add(&vec![]);
    let duplicate = groups.add(&vec![a]);

    assert_eq!(empty, 0);
    assert_eq!(single, 1);
    assert_eq!(multiple, 2);
    assert_eq!(second_empty, 3);
    assert_eq!(duplicate, 4);
    assert_eq!(groups.get(empty), Vec::<TypeId>::new());
    assert_eq!(groups.get(single), vec![a]);
    assert_eq!(groups.get(multiple), vec![a, b, c]);
    assert_eq!(groups.get(second_empty), Vec::<TypeId>::new());
    assert_eq!(groups.get(duplicate), vec![a]);
}

#[test]
fn indices_remain_valid_after_additions() {
    let mut groups = Groups::new();
    let a = TypeId(1);
    let b = TypeId(2);

    let first = groups.add(&vec![a, b]);

    for _ in 0..128 {
        groups.add(&vec![b]);
    }

    assert_eq!(groups.get(first), vec![a, b]);
}

fn set_with_history() -> SparseSet<I32> {
    let mut sparse_set = untracked();
    sparse_set.track_all();

    sparse_set
        .insert(EntityId::new_from_parts(0, 0), I32(0), TrackingTimestamp::new(0))
        .assert_inserted();
    sparse_set.dyn_delete(EntityId::new_from_index_and_gen(0, 0), TrackingTimestamp::new(0));

    sparse_set
        .insert(EntityId::new_from_parts(0, 0), I32(1), TrackingTimestamp::new(0))
        .assert_inserted();
    sparse_set.dyn_remove(EntityId::new_from_index_and_gen(0, 0), TrackingTimestamp::new(0));

    sparse_set
        .insert(EntityId::new_from_parts(0, 0), I32(2), TrackingTimestamp::new(0))
        .assert_inserted();
    sparse_set
}

#[test]
fn memory_usage() {
    let sparse_set = set_with_history();

    let expected_sparse_memory = sparse_set.sparse.used_memory();
    let expected_dense_memory = 1 * size_of::<EntityId>();
    let expected_data_memory = 1 * size_of::<I32>();
    let expected_insertion_tracking_memory = 1 * size_of::<TrackingTimestamp>();
    let expected_modification_tracking_memory = 1 * size_of::<TrackingTimestamp>();
    let expected_deletion_tracking_memory = 1 * size_of::<(EntityId, TrackingTimestamp, I32)>();
    let expected_removal_tracking_memory = 1 * size_of::<(EntityId, TrackingTimestamp)>();
    let expected_self_memory = size_of::<SparseSet<I32>>();
    let expected_total_memory = expected_sparse_memory
        + expected_dense_memory
        + expected_data_memory
        + expected_insertion_tracking_memory
        + expected_modification_tracking_memory
        + expected_deletion_tracking_memory
        + expected_removal_tracking_memory
        + expected_self_memory;

    let memory_usage = sparse_set.private_memory_usage(String::from("I32"));

    assert_eq!(memory_usage.used_memory_bytes, expected_total_memory);
}

#[test]
fn detailed_memory_usage() {
    let sparse_set = set_with_history();
    let bucket = &sparse_set.unclassified_bucket;

    let expected_sparse_allocated = sparse_set.sparse.reserved_memory();
    let expected_dense_allocated = bucket.dense.capacity() * size_of::<EntityId>();
    let expected_data_allocated = bucket.data.capacity() * size_of::<I32>();
    let expected_insertion_allocated = bucket.insertion_data.capacity() * size_of::<TrackingTimestamp>();
    let expected_modification_allocated = bucket.modification_data.capacity() * size_of::<TrackingTimestamp>();
    let expected_deletion_allocated =
        sparse_set.deletion_data.capacity() * size_of::<(EntityId, TrackingTimestamp, I32)>();
    let expected_removal_allocated = sparse_set.removal_data.capacity() * size_of::<(EntityId, TrackingTimestamp)>();

    let expected_sparse_used = sparse_set.sparse.used_memory();
    let expected_dense_used = bucket.dense.len() * size_of::<EntityId>();
    let expected_data_used = bucket.data.len() * size_of::<I32>();
    let expected_insertion_used = bucket.insertion_data.len() * size_of::<TrackingTimestamp>();
    let expected_modification_used = bucket.modification_data.len() * size_of::<TrackingTimestamp>();
    let expected_deletion_used = sparse_set.deletion_data.len() * size_of::<(EntityId, TrackingTimestamp, I32)>();
    let expected_removal_used = sparse_set.removal_data.len() * size_of::<(EntityId, TrackingTimestamp)>();

    let memory_usage = sparse_set.private_memory_usage(String::from("I32"));
    let detailed_usage = sparse_set.detailed_memory_usage(String::from("I32"));

    assert_eq!(detailed_usage.base.storage_name, memory_usage.storage_name);
    assert_eq!(detailed_usage.base.component_count, memory_usage.component_count);
    assert_eq!(detailed_usage.base.used_memory_bytes, memory_usage.used_memory_bytes);
    assert_eq!(detailed_usage.base.allocated_memory_bytes, memory_usage.allocated_memory_bytes);
    assert_eq!(
        memory_usage.used_memory_bytes,
        detailed_usage.used.sparse
            + detailed_usage.used.dense
            + detailed_usage.used.data
            + detailed_usage.used.insertion_data
            + detailed_usage.used.modification_data
            + detailed_usage.used.deletion_data
            + detailed_usage.used.removal_data
            + detailed_usage.used.itself
    );
    assert_eq!(
        memory_usage.allocated_memory_bytes,
        detailed_usage.allocated.sparse
            + detailed_usage.allocated.dense
            + detailed_usage.allocated.data
            + detailed_usage.allocated.insertion_data
            + detailed_usage.allocated.modification_data
            + detailed_usage.allocated.deletion_data
            + detailed_usage.allocated.removal_data
            + detailed_usage.allocated.itself
    );

    assert_eq!(detailed_usage.allocated.sparse, expected_sparse_allocated);
    assert_eq!(detailed_usage.allocated.dense, expected_dense_allocated);
    assert_eq!(detailed_usage.allocated.data, expected_data_allocated);
    assert_eq!(detailed_usage.allocated.insertion_data, expected_insertion_allocated);
    assert_eq!(detailed_usage.allocated.modification_data, expected_modification_allocated);
    assert_eq!(detailed_usage.allocated.deletion_data, expected_deletion_allocated);
    assert_eq!(detailed_usage.allocated.removal_data, expected_removal_allocated);

    assert_eq!(detailed_usage.used.sparse, expected_sparse_used);
    assert_eq!(detailed_usage.used.dense, expected_dense_used);
    assert_eq!(detailed_usage.used.data, expected_data_used);
    assert_eq!(detailed_usage.used.insertion_data, expected_insertion_used);
    assert_eq!(detailed_usage.used.modification_data, expected_modification_used);
    assert_eq!(detailed_usage.used.deletion_data, expected_deletion_used);
    assert_eq!(detailed_usage.used.removal_data, expected_removal_used);
}

#[test]
fn mod_insert() {
    let mut array = untracked();

    array
        .insert(EntityId::new_from_parts(0, 0), Str("0"), TrackingTimestamp::new(0))
        .assert_inserted();
    assert_eq!(array.unclassified_bucket.dense, &[EntityId::new_from_parts(0, 0)]);
    assert_eq!(array.unclassified_bucket.data, &[Str("0")]);
    assert_eq!(get(&array, EntityId::new_from_parts(0, 0)), Some(Str("0")));

    array
        .insert(EntityId::new_from_parts(1, 0), Str("1"), TrackingTimestamp::new(0))
        .assert_inserted();
    assert_eq!(
        array.unclassified_bucket.dense,
        &[EntityId::new_from_parts(0, 0), EntityId::new_from_parts(1, 0)]
    );
    assert_eq!(array.unclassified_bucket.data, &[Str("0"), Str("1")]);
    assert_eq!(get(&array, EntityId::new_from_parts(0, 0)), Some(Str("0")));
    assert_eq!(get(&array, EntityId::new_from_parts(1, 0)), Some(Str("1")));

    array
        .insert(EntityId::new_from_parts(5, 0), Str("5"), TrackingTimestamp::new(0))
        .assert_inserted();
    assert_eq!(
        array.unclassified_bucket.dense,
        &[
            EntityId::new_from_parts(0, 0),
            EntityId::new_from_parts(1, 0),
            EntityId::new_from_parts(5, 0)
        ]
    );
    assert_eq!(array.unclassified_bucket.data, &[Str("0"), Str("1"), Str("5")]);
    assert_eq!(get(&array, EntityId::new_from_parts(5, 0)), Some(Str("5")));

    assert_eq!(get(&array, EntityId::new_from_parts(4, 0)), None);
}

#[test]
fn insertion_marks_pending_placement_only_when_needed() {
    let mut sparse_set = untracked();
    let existing = EntityId::new_from_parts(0, 0);

    sparse_set.insert(existing, I32(0), TrackingTimestamp::new(0)).assert_inserted();
    assert!(sparse_set.sparse.pending_placement_pages().is_empty());
    assert_eq!(sparse_set.sparse.pending_placement_mask(0), 0);

    sparse_set.add_group(&vec![]);

    let result = sparse_set.insert(existing, I32(1), TrackingTimestamp::new(1));
    assert!(matches!(result, InsertionResult::ComponentOverride(I32(0))));
    assert!(sparse_set.sparse.pending_placement_pages().is_empty());

    let inserted = EntityId::new_from_parts(31, 0);
    sparse_set.insert(inserted, I32(31), TrackingTimestamp::new(2)).assert_inserted();
    assert_eq!(sparse_set.sparse.pending_placement_pages(), &[0]);
    assert_eq!(sparse_set.sparse.pending_placement_mask(0), 1 << 31);

    let newer_generation = EntityId::new_from_parts(0, 1);
    let result = sparse_set.insert(newer_generation, I32(2), TrackingTimestamp::new(3));
    assert!(matches!(result, InsertionResult::OtherComponentOverride));
    assert_eq!(sparse_set.sparse.pending_placement_mask(0), (1 << 0) | (1 << 31));

    let older_generation = EntityId::new_from_parts(0, 0);
    let result = sparse_set.insert(older_generation, I32(3), TrackingTimestamp::new(4));
    assert!(matches!(result, InsertionResult::NotInserted));
    assert_eq!(sparse_set.sparse.pending_placement_mask(0), (1 << 0) | (1 << 31));
}

#[test]
fn collected_pending_page_can_be_appended_again_once() {
    let mut sparse_set = untracked();
    sparse_set.add_group(&vec![]);
    let entity = EntityId::new(64);
    sparse_set.insert(entity, I32(1), TrackingTimestamp::new(0)).assert_inserted();

    let (_groups, emitted) = sparse_set.collect_regroup_pages();

    assert_eq!(emitted, [(2, 1)]);
    assert!(sparse_set.sparse.pending_placement_pages().is_empty());
    assert_eq!(sparse_set.sparse.pending_placement_mask(2), 0);

    sparse_set.sparse.set_pending_placement(entity);
    sparse_set.sparse.set_pending_placement(entity);

    assert_eq!(sparse_set.sparse.pending_placement_pages(), &[2]);
    assert_eq!(sparse_set.sparse.pending_placement_mask(2), 1);
}

#[test]
fn mod_remove() {
    let mut array = untracked();
    array
        .insert(EntityId::new_from_parts(0, 0), Str("0"), TrackingTimestamp::new(0))
        .assert_inserted();
    array
        .insert(EntityId::new_from_parts(5, 0), Str("5"), TrackingTimestamp::new(0))
        .assert_inserted();
    array
        .insert(EntityId::new_from_parts(10, 0), Str("10"), TrackingTimestamp::new(0))
        .assert_inserted();

    assert_eq!(
        array.dyn_remove(EntityId::new_from_parts(0, 0), TrackingTimestamp::new(0)),
        Some(Str("0")),
    );
    assert_eq!(
        array.unclassified_bucket.dense,
        &[EntityId::new_from_parts(10, 0), EntityId::new_from_parts(5, 0)]
    );
    assert_eq!(array.unclassified_bucket.data, &[Str("10"), Str("5")]);
    assert_eq!(get(&array, EntityId::new_from_parts(0, 0)), None);
    assert_eq!(get(&array, EntityId::new_from_parts(5, 0)), Some(Str("5")));
    assert_eq!(get(&array, EntityId::new_from_parts(10, 0)), Some(Str("10")));

    array
        .insert(EntityId::new_from_parts(3, 0), Str("3"), TrackingTimestamp::new(0))
        .assert_inserted();
    array
        .insert(EntityId::new_from_parts(100, 0), Str("100"), TrackingTimestamp::new(0))
        .assert_inserted();
    assert_eq!(
        array.unclassified_bucket.dense,
        &[
            EntityId::new_from_parts(10, 0),
            EntityId::new_from_parts(5, 0),
            EntityId::new_from_parts(3, 0),
            EntityId::new_from_parts(100, 0)
        ]
    );
    assert_eq!(
        array.unclassified_bucket.data,
        &[Str("10"), Str("5"), Str("3"), Str("100")]
    );
    assert_eq!(get(&array, EntityId::new_from_parts(0, 0)), None);
    assert_eq!(get(&array, EntityId::new_from_parts(3, 0)), Some(Str("3")));
    assert_eq!(get(&array, EntityId::new_from_parts(5, 0)), Some(Str("5")));
    assert_eq!(get(&array, EntityId::new_from_parts(10, 0)), Some(Str("10")));
    assert_eq!(get(&array, EntityId::new_from_parts(100, 0)), Some(Str("100")));

    assert_eq!(
        array.dyn_remove(EntityId::new_from_parts(3, 0), TrackingTimestamp::new(0)),
        Some(Str("3")),
    );
    assert_eq!(
        array.unclassified_bucket.dense,
        &[
            EntityId::new_from_parts(10, 0),
            EntityId::new_from_parts(5, 0),
            EntityId::new_from_parts(100, 0)
        ]
    );
    assert_eq!(array.unclassified_bucket.data, &[Str("10"), Str("5"), Str("100")]);
    assert_eq!(get(&array, EntityId::new_from_parts(0, 0)), None);
    assert_eq!(get(&array, EntityId::new_from_parts(3, 0)), None);
    assert_eq!(get(&array, EntityId::new_from_parts(5, 0)), Some(Str("5")));
    assert_eq!(get(&array, EntityId::new_from_parts(10, 0)), Some(Str("10")));
    assert_eq!(get(&array, EntityId::new_from_parts(100, 0)), Some(Str("100")));

    assert_eq!(
        array.dyn_remove(EntityId::new_from_parts(100, 0), TrackingTimestamp::new(0)),
        Some(Str("100"))
    );
    assert_eq!(
        array.unclassified_bucket.dense,
        &[EntityId::new_from_parts(10, 0), EntityId::new_from_parts(5, 0)]
    );
    assert_eq!(array.unclassified_bucket.data, &[Str("10"), Str("5")]);
    assert_eq!(get(&array, EntityId::new_from_parts(0, 0)), None);
    assert_eq!(get(&array, EntityId::new_from_parts(3, 0)), None);
    assert_eq!(get(&array, EntityId::new_from_parts(5, 0)), Some(Str("5")));
    assert_eq!(get(&array, EntityId::new_from_parts(10, 0)), Some(Str("10")));
    assert_eq!(get(&array, EntityId::new_from_parts(100, 0)), None);
}

#[test]
fn unclassified_remove_does_not_queue_regroup_record() {
    let mut sparse_set = untracked::<I32>();
    let entity = EntityId::new(0);

    sparse_set.insert(entity, I32(10), TrackingTimestamp::new(0)).assert_inserted();

    assert_eq!(sparse_set.dyn_remove(entity, TrackingTimestamp::new(1)), Some(I32(10)));
    assert!(sparse_set.sparse.removed_from_groups.is_empty());
}

#[test]
fn grouped_remove_resets_bucket_metadata_for_later_insertion() {
    let mut sparse_set = untracked::<I32>();
    let group = vec![TypeId(1)];
    sparse_set.add_group(&group);

    let old_entity = EntityId::new_from_parts(0, 0);
    sparse_set.insert(old_entity, I32(10), TrackingTimestamp::new(0)).assert_inserted();
    sparse_set.move_to_group_batch(&vec![old_entity], &group);

    assert_eq!(sparse_set.dyn_remove(old_entity, TrackingTimestamp::new(1)), Some(I32(10)));
    assert!(sparse_set.sparse.bucket_index(old_entity).is_unclassified());

    let new_entity = EntityId::new_from_parts(0, 1);
    sparse_set.insert(new_entity, I32(20), TrackingTimestamp::new(2)).assert_inserted();
    assert!(sparse_set.sparse.bucket_index(new_entity).is_unclassified());
    assert_eq!(sparse_set.unclassified_bucket.dense, [new_entity]);
}

#[test]
fn clear() {
    let mut sparse_set = untracked();
    sparse_set.track_all();

    sparse_set.insert(EntityId::new(0), I32(0), TrackingTimestamp::new(0)).assert_inserted();
    sparse_set.insert(EntityId::new(1), I32(1), TrackingTimestamp::new(0)).assert_inserted();

    sparse_set.clear(TrackingTimestamp::new(0));

    assert_eq!(sparse_set.len(), 0);
    assert_eq!(get(&sparse_set, EntityId::new(0)), None);
    assert_eq!(get(&sparse_set, EntityId::new(1)), None);
    assert_eq!(sparse_set.unclassified_bucket.insertion_data.len(), 0);
    assert_eq!(sparse_set.unclassified_bucket.modification_data.len(), 0);
    assert_eq!(sparse_set.deletion_data.len(), 2);
    assert_eq!(sparse_set.removal_data.len(), 0);
}

#[test]
fn drain() {
    let mut sparse_set = untracked();
    sparse_set.track_all();

    sparse_set.insert(EntityId::new(0), I32(0), TrackingTimestamp::new(0)).assert_inserted();
    sparse_set.insert(EntityId::new(1), I32(1), TrackingTimestamp::new(0)).assert_inserted();

    let mut drain = sparse_set.drain(TrackingTimestamp::new(0)).into_components().into_iter();

    assert_eq!(drain.next(), Some(I32(0)));
    assert_eq!(drain.next(), Some(I32(1)));
    assert_eq!(drain.next(), None);

    drop(drain);

    assert_eq!(sparse_set.len(), 0);
    assert_eq!(get(&sparse_set, EntityId::new(0)), None);
    assert_eq!(get(&sparse_set, EntityId::new(1)), None);
    assert_eq!(sparse_set.unclassified_bucket.insertion_data.len(), 0);
    assert_eq!(sparse_set.unclassified_bucket.modification_data.len(), 0);
    assert_eq!(sparse_set.deletion_data.len(), 0);
    assert_eq!(sparse_set.removal_data.len(), 2);
}

#[test]
fn drain_with_id() {
    let mut sparse_set = untracked();

    sparse_set.insert(EntityId::new(0), I32(0), TrackingTimestamp::new(0)).assert_inserted();
    sparse_set.insert(EntityId::new(1), I32(1), TrackingTimestamp::new(0)).assert_inserted();

    let mut drain = sparse_set.drain(TrackingTimestamp::new(0)).with_id().into_iter();

    assert_eq!(drain.next(), Some((EntityId::new(0), I32(0))));
    assert_eq!(drain.next(), Some((EntityId::new(1), I32(1))));
    assert_eq!(drain.next(), None);

    drop(drain);

    assert_eq!(sparse_set.len(), 0);
    assert_eq!(get(&sparse_set, EntityId::new(0)), None);
}

#[test]
fn drain_empty() {
    let mut sparse_set = untracked::<I32>();

    assert_eq!(
        sparse_set.drain(TrackingTimestamp::new(0)).into_components().into_iter().next(),
        None
    );
    assert_eq!(
        sparse_set.drain(TrackingTimestamp::new(0)).with_id().into_iter().next(),
        None
    );

    assert_eq!(sparse_set.len(), 0);
}

#[test]
fn debug() {
    let mut sparse_set = untracked();

    sparse_set.insert(EntityId::new(0), Str("0"), TrackingTimestamp::new(0)).assert_inserted();
    sparse_set.insert(EntityId::new(5), Str("5"), TrackingTimestamp::new(0)).assert_inserted();
    sparse_set.insert(EntityId::new(10), Str("10"), TrackingTimestamp::new(0)).assert_inserted();

    println!("{:#?}", sparse_set);
}

#[test]
fn multiple_enable_tracking() {
    let mut sparse_set = untracked();

    sparse_set
        .insert(EntityId::new_from_parts(0, 0), I32(0), TrackingTimestamp::new(0))
        .assert_inserted();

    sparse_set.track_all();
    sparse_set.track_all();
    sparse_set.track_all();

    assert_eq!(sparse_set.unclassified_bucket.insertion_data.len(), 1);
    assert_eq!(sparse_set.unclassified_bucket.modification_data.len(), 1);
}

#[test]
fn mod_unstable_sort() {
    let mut array = untracked();

    for i in (0..100u32).rev() {
        let mut entity_id = EntityId::zero();
        entity_id.set_index(100 - i);
        array.insert(entity_id, I32(i as i32), TrackingTimestamp::new(0)).assert_inserted();
    }

    array.sort_unstable();

    for window in array.unclassified_bucket.data.windows(2) {
        assert!(window[0] < window[1]);
    }
    for i in 0..100u32 {
        let mut entity_id = EntityId::zero();
        entity_id.set_index(100 - i);
        assert_eq!(get(&array, entity_id), Some(I32(i as i32)));
    }
}

#[test]
fn mod_partially_sorted_unstable_sort() {
    let mut array = untracked();

    for i in 0..20u32 {
        let mut entity_id = EntityId::zero();
        entity_id.set_index(i);
        array.insert(entity_id, I32(i as i32), TrackingTimestamp::new(0)).assert_inserted();
    }
    for i in (20..100u32).rev() {
        let mut entity_id = EntityId::zero();
        entity_id.set_index(100 - i + 20);
        array.insert(entity_id, I32(i as i32), TrackingTimestamp::new(0)).assert_inserted();
    }

    array.sort_unstable();

    for window in array.unclassified_bucket.data.windows(2) {
        assert!(window[0] < window[1]);
    }
    for i in 0..20u32 {
        let mut entity_id = EntityId::zero();
        entity_id.set_index(i);
        assert_eq!(get(&array, entity_id), Some(I32(i as i32)));
    }
    for i in 20..100u32 {
        let mut entity_id = EntityId::zero();
        entity_id.set_index(100 - i + 20);
        assert_eq!(get(&array, entity_id), Some(I32(i as i32)));
    }
}

#[test]
fn unstable_unstable_sort() {
    let mut array = untracked();

    for i in (0..100u64).rev() {
        let mut entity_id = EntityId::zero();
        entity_id.set_index(100 - i as u32);
        array.insert(entity_id, i, TrackingTimestamp::new(0)).assert_inserted();
    }

    array.sort().unstable(|x: &u64, y: &u64| x.cmp(&y));

    for window in array.unclassified_bucket.data.windows(2) {
        assert!(window[0] < window[1]);
    }
    for i in 0..100u64 {
        let mut entity_id = EntityId::zero();
        entity_id.set_index(100 - i as u32);
        assert_eq!(get(&array, entity_id), Some(i));
    }
}

#[test]
fn unstable_partially_sorted_unstable_sort() {
    let mut array = untracked();

    for i in 0..20u64 {
        let mut entity_id = EntityId::zero();
        entity_id.set_index(i as u32);
        assert!(array.insert(entity_id, i, TrackingTimestamp::new(0)).was_inserted());
    }
    for i in (20..100u64).rev() {
        let mut entity_id = EntityId::zero();
        entity_id.set_index(100 - i as u32 + 20);
        assert!(array.insert(entity_id, i, TrackingTimestamp::new(0)).was_inserted());
    }

    array.sort().unstable(|x: &u64, y: &u64| x.cmp(&y));

    for window in array.unclassified_bucket.data.windows(2) {
        assert!(window[0] < window[1]);
    }
    for i in 0..20u64 {
        let mut entity_id = EntityId::zero();
        entity_id.set_index(i as u32);
        assert_eq!(get(&array, entity_id), Some(i));
    }
    for i in 20..100u64 {
        let mut entity_id = EntityId::zero();
        entity_id.set_index(100 - i as u32 + 20);
        assert_eq!(get(&array, entity_id), Some(i));
    }
}

#[test]
fn unstable_sort_preserves_inserted_tracking() {
    let mut array = tracking_all();
    let tracked_id = EntityId::new_from_parts(0, 0);
    let other = EntityId::new_from_parts(1, 0);
    let another = EntityId::new_from_parts(2, 0);
    let last = TrackingTimestamp::new(1);
    let current = TrackingTimestamp::new(2);

    array.insert(tracked_id, TrackedI32(3), current).assert_inserted();
    array.insert(other, TrackedI32(1), last).assert_inserted();
    array.insert(another, TrackedI32(2), last).assert_inserted();

    assert!(array.is_inserted(tracked_id, last, current));
    assert!(!array.is_inserted(other, last, current));

    array.sort_unstable();

    assert!(array.is_inserted(tracked_id, last, current));
    assert!(!array.is_inserted(other, last, current));
    assert!(!array.is_inserted(another, last, current));
}

#[test]
fn unstable_sort_preserves_modified_tracking() {
    let mut array = tracking_all();
    let tracked_id = EntityId::new_from_parts(0, 0);
    let other = EntityId::new_from_parts(1, 0);
    let another = EntityId::new_from_parts(2, 0);
    let last = TrackingTimestamp::new(1);
    let current = TrackingTimestamp::new(2);

    array.insert(tracked_id, TrackedI32(3), TrackingTimestamp::origin()).assert_inserted();
    array.insert(other, TrackedI32(1), TrackingTimestamp::origin()).assert_inserted();
    array.insert(another, TrackedI32(2), TrackingTimestamp::origin()).assert_inserted();

    let _ = array.insert(tracked_id, TrackedI32(3), current);

    assert!(array.is_modified(tracked_id, last, current));
    assert!(!array.is_modified(other, last, current));

    array.sort_unstable();

    assert!(array.is_modified(tracked_id, last, current));
    assert!(!array.is_modified(other, last, current));
    assert!(!array.is_modified(another, last, current));
}

#[test]
fn remove_gives_back_what_insert_put() {
    let mut set = untracked();
    set.insert(EntityId::new(4), I32(9), TrackingTimestamp::new(0)).assert_inserted();
    set.insert(EntityId::new(7), I32(1), TrackingTimestamp::new(0)).assert_inserted();
    assert_eq!(set.dyn_remove(EntityId::new(4), TrackingTimestamp::new(1)), Some(I32(9)));
    assert_eq!(get(&set, EntityId::new(4)), None);
    assert_eq!(get(&set, EntityId::new(7)), Some(I32(1)));
}

#[test]
fn move_component_between_storages() {
    let mut from = tracking_all();
    let mut to = untracked();
    from.insert(EntityId::new(1), I32(5), TrackingTimestamp::new(0)).assert_inserted();
    from.move_component_from(&mut to, EntityId::new(1), EntityId::new(8), TrackingTimestamp::new(2), TrackingTimestamp::new(3));
    assert_eq!(get(&from, EntityId::new(1)), None);
    assert_eq!(from.removal_data, vec![(EntityId::new(1), TrackingTimestamp::new(2))]);
    assert_eq!(get(&to, EntityId::new(8)), Some(I32(5)));

    from.move_component_from(&mut to, EntityId::new(1), EntityId::new(9), TrackingTimestamp::new(4), TrackingTimestamp::new(5));
    assert_eq!(get(&to, EntityId::new(9)), None);
}

#[test]
fn enabling_tracking_twice_changes_nothing() {
    let mut set = untracked();
    set.insert(EntityId::new(0), I32(0), TrackingTimestamp::new(0)).assert_inserted();
    set.track_all();
    let before = (set.unclassified_bucket.insertion_data.clone(), set.unclassified_bucket.modification_data.clone());
    set.track_all();
    assert_eq!(before, (set.unclassified_bucket.insertion_data.clone(), set.unclassified_bucket.modification_data.clone()));
}

#[test]
fn check_tracking_reports_the_missing_kind() {
    let inserted_only = Tracking { insertion: true, modification: false, deletion: false, removal: false };
    let removed_only = Tracking { insertion: false, modification: false, deletion: false, removal: true };
    let mut sparse_set: SparseSet<I32> = SparseSet::new(true, false, false, false);
    assert_eq!(sparse_set.check_tracking(inserted_only), Ok(()));
    assert_eq!(
        sparse_set.check_tracking(removed_only),
        Err(GetStorage::TrackingNotEnabled { tracking: removed_only })
    );
    sparse_set.enable_tracking(removed_only);
    assert!(sparse_set.is_tracking_insertion());
    assert!(!sparse_set.is_tracking_modification());
    assert!(!sparse_set.is_tracking_deletion());
    assert!(sparse_set.is_tracking_removal());
    assert_eq!(sparse_set.check_tracking(removed_only), Ok(()));
}

#[test]
fn enable_tracking_fills_timestamps_once() {
    let all = Tracking { insertion: true, modification: true, deletion: true, removal: true };
    let mut sparse_set = untracked();
    sparse_set
        .insert(EntityId::new_from_parts(0, 0), I32(0), TrackingTimestamp::new(0))
        .assert_inserted();
    sparse_set.enable_tracking(all);
    sparse_set.enable_tracking(all);
    assert_eq!(sparse_set.unclassified_bucket.insertion_data.len(), 1);
    assert_eq!(sparse_set.unclassified_bucket.modification_data.len(), 1);
    assert_eq!(sparse_set.check_tracking(all), Ok(()));
}

#[test]
fn apply_changes_the_first_component_from_the_second() {
    let mut sparse_set: SparseSet<I32> = SparseSet::new(false, true, false, false);
    let a = EntityId::new_from_parts(0, 0);
    let b = EntityId::new_from_parts(1, 0);
    sparse_set.insert(a, I32(1), TrackingTimestamp::new(0)).assert_inserted();
    sparse_set.insert(b, I32(10), TrackingTimestamp::new(0)).assert_inserted();
    let seen = sparse_set.apply(a, b, |x: &mut I32, y: &I32| { x.0 += y.0; y.0 }, TrackingTimestamp::new(5));
    assert_eq!(seen, 10);
    assert_eq!(get(&sparse_set, a), Some(I32(11)));
    assert_eq!(get(&sparse_set, b), Some(I32(10)));
    assert_eq!(sparse_set.unclassified_bucket.modification_data[0], TrackingTimestamp::new(5));
    assert_eq!(sparse_set.unclassified_bucket.modification_data[1], TrackingTimestamp::new(0));
}

#[test]
fn apply_mut_changes_both_components() {
    let mut sparse_set: SparseSet<I32> = SparseSet::new(false, true, false, false);
    let a = EntityId::new_from_parts(0, 0);
    let b = EntityId::new_from_parts(1, 0);
    sparse_set.insert(a, I32(1), TrackingTimestamp::new(0)).assert_inserted();
    sparse_set.insert(b, I32(2), TrackingTimestamp::new(0)).assert_inserted();
    sparse_set.apply_mut(b, a, |x: &mut I32, y: &mut I32| std::mem::swap(x, y), TrackingTimestamp::new(3));
    assert_eq!(get(&sparse_set, a), Some(I32(2)));
    assert_eq!(get(&sparse_set, b), Some(I32(1)));
    assert_eq!(sparse_set.unclassified_bucket.modification_data[0], TrackingTimestamp::new(3));
    assert_eq!(sparse_set.unclassified_bucket.modification_data[1], TrackingTimestamp::new(3));
}

#[test]
fn retain_deletes_refused_components_and_logs_them() {
    let mut sparse_set: SparseSet<I32> = SparseSet::new(false, false, true, false);
    for i in 0..6u32 {
        sparse_set
            .insert(EntityId::new_from_parts(i, 0), I32(i as i32), TrackingTimestamp::new(0))
            .assert_inserted();
    }
    let mut asked = Vec::new();
    sparse_set.retain(TrackingTimestamp::new(9), |e: EntityId, v: &I32| {
        asked.push(e);
        v.0 % 2 == 1
    });
    assert_eq!(asked.len(), 6);
    assert_eq!(sparse_set.len(), 3);
    for i in 0..6u32 {
        let expected = if i % 2 == 1 { Some(I32(i as i32)) } else { None };
        assert_eq!(get(&sparse_set, EntityId::new_from_parts(i, 0)), expected);
    }
    assert_eq!(sparse_set.deletion_data.len(), 3);
    for (entity, t, component) in &sparse_set.deletion_data {
        assert_eq!(*t, TrackingTimestamp::new(9));
        assert_eq!(component.0 as u64, entity.index() as u64);
        assert_eq!(component.0 % 2, 0);
    }
}

#[test]
fn retain_without_deletion_tracking_keeps_no_log() {
    let mut sparse_set: SparseSet<I32> = untracked();
    for i in 0..4u32 {
        sparse_set
            .insert(EntityId::new_from_parts(i, 0), I32(i as i32), TrackingTimestamp::new(0))
            .assert_inserted();
    }
    sparse_set.retain(TrackingTimestamp::new(1), |_: EntityId, v: &I32| v.0 >= 2);
    assert_eq!(sparse_set.len(), 2);
    assert_eq!(sparse_set.deletion_data.len(), 0);
    assert_eq!(get(&sparse_set, EntityId::new_from_parts(3, 0)), Some(I32(3)));
    assert_eq!(get(&sparse_set, EntityId::new_from_parts(0, 0)), None);
}

#[test]
fn metadata_memory_counts_recorded_lists() {
    let mut metadata: Metadata<u64> = Metadata::new();
    assert!(!metadata.track_insertion && !metadata.track_modification);
    assert_eq!(metadata.used_memory(), size_of::<Metadata<u64>>());
    assert!(metadata.reserved_memory() >= metadata.used_memory());
    metadata.track_removal = Some(vec![EntityId::new_from_parts(0, 0), EntityId::new_from_parts(1, 0)]);
    metadata.track_deletion = Some(vec![(EntityId::new_from_parts(2, 0), 7u64)]);
    assert_eq!(
        metadata.used_memory(),
        size_of::<Metadata<u64>>() + 2 * size_of::<EntityId>() + size_of::<(EntityId, u64)>()
    );
    assert!(metadata.reserved_memory() >= metadata.used_memory());
}

#[test]
fn bulk_allocate_allocates_every_page_of_the_range() {
    let mut sparse = shipyard::sparse_set::sparse_array::SparseArray::new();
    sparse.bulk_allocate(EntityId::new_from_parts(40, 0), EntityId::new_from_parts(100, 0));
    assert_eq!(sparse.len(), 4);
    assert_eq!(sparse.allocated_pages(), 3);
    assert!(sparse.pages[0].is_empty());
    for page in 1..4 {
        assert_eq!(sparse.pages[page].len(), BUCKET_SIZE);
        assert!(sparse.pages[page].iter().all(|e| e.is_dead()));
    }
    assert_eq!(sparse.get(EntityId::new_from_parts(50, 0)), Some(EntityId::dead()));
    assert_eq!(sparse.get(EntityId::new_from_parts(5, 0)), None);
}

#[test]
fn clearing_tracking_records_and_marks() {
    let mut sparse_set: SparseSet<I32> = tracking_all();
    assert!(sparse_set.is_tracking_any());
    let e0 = EntityId::new_from_parts(0, 0);
    let e1 = EntityId::new_from_parts(1, 0);
    sparse_set.insert(e0, I32(0), TrackingTimestamp::new(1)).assert_inserted();
    sparse_set.insert(e1, I32(1), TrackingTimestamp::new(1)).assert_inserted();
    assert!(sparse_set.dyn_delete(e0, TrackingTimestamp::new(2)));
    assert_eq!(sparse_set.dyn_remove(e1, TrackingTimestamp::new(3)), Some(I32(1)));
    assert_eq!(sparse_set.deletion_data.len(), 1);
    assert_eq!(sparse_set.removal_data.len(), 1);
    sparse_set.clear_all_removed_and_deleted_older_than_timestamp(TrackingTimestamp::new(2));
    assert_eq!(sparse_set.deletion_data.len(), 0);
    assert_eq!(sparse_set.removal_data.len(), 1);
    sparse_set.clear_all_removed_and_deleted();
    assert_eq!(sparse_set.removal_data.len(), 0);
    sparse_set.clear_all_inserted(TrackingTimestamp::new(7));
    assert_eq!(sparse_set.last_insert, TrackingTimestamp::new(7));
    sparse_set.clear_all_modified(TrackingTimestamp::new(8));
    assert_eq!(sparse_set.last_modified, TrackingTimestamp::new(8));
    sparse_set.clear_all_inserted_and_modified(TrackingTimestamp::new(9));
    assert_eq!(sparse_set.last_insert, TrackingTimestamp::new(9));
    assert_eq!(sparse_set.last_modified, TrackingTimestamp::new(9));
    let untracked: SparseSet<I32> = untracked();
    assert!(!untracked.is_tracking_any());
}

#[test]
fn entity_ids_copy_their_parts() {
    let mut e = EntityId::new_from_parts(3, 1);
    e.copy_gen(EntityId::new_from_parts(7, 5));
    assert_eq!(e, EntityId::new_from_parts(3, 5));
    e.copy_index(EntityId::new_from_parts(9, 2));
    assert_eq!(e, EntityId::new_from_parts(9, 5));
    e.copy_index_gen(EntityId::new_from_parts(4, 4));
    assert_eq!(e, EntityId::new_from_parts(4, 4));
    assert_eq!(TypeId::all_storages(), TypeId(0));
}

#[test]
fn removing_a_grouped_component_queues_its_entity_and_group() {
    let group = vec![TypeId(1), TypeId(2)];
    let mut sparse_set: SparseSet<I32> = untracked();
    let entity = EntityId::new_from_parts(3, 0);
    let other = EntityId::new_from_parts(4, 0);
    sparse_set.insert(entity, I32(10), TrackingTimestamp::new(0)).assert_inserted();
    sparse_set.insert(other, I32(20), TrackingTimestamp::new(0)).assert_inserted();
    sparse_set.move_to_group_batch(&vec![entity, other], &group);
    assert_eq!(sparse_set.entity_group(entity), Some(group.clone()));
    assert_eq!(sparse_set.dyn_remove(entity, TrackingTimestamp::new(1)), Some(I32(10)));
    assert_eq!(sparse_set.sparse.removed_from_groups, vec![(entity, 0)]);
    assert!(sparse_set.sparse.bucket_index(entity).is_unclassified());
    assert_eq!(get(&sparse_set, other), Some(I32(20)));
    assert_eq!(sparse_set.entity_group(other), Some(group));
}

#[test]
fn deleting_a_grouped_component_keeps_the_others_tracking() {
    let group = vec![TypeId(1), TypeId(2)];
    let mut sparse_set: SparseSet<I32> = tracking_all();
    let removed = EntityId::new_from_parts(0, 0);
    let deleted = EntityId::new_from_parts(1, 0);
    let kept = EntityId::new_from_parts(2, 0);
    sparse_set.insert(removed, I32(10), TrackingTimestamp::new(1)).assert_inserted();
    sparse_set.insert(deleted, I32(20), TrackingTimestamp::new(2)).assert_inserted();
    sparse_set.insert(kept, I32(30), TrackingTimestamp::new(3)).assert_inserted();
    sparse_set.move_to_group_batch(&vec![removed, deleted, kept], &group);
    assert_eq!(sparse_set.dyn_remove(removed, TrackingTimestamp::new(4)), Some(I32(10)));
    assert!(sparse_set.dyn_delete(deleted, TrackingTimestamp::new(5)));
    assert_eq!(sparse_set.sparse.removed_from_groups, vec![(removed, 0), (deleted, 0)]);
    assert_eq!(sparse_set.removal_data, vec![(removed, TrackingTimestamp::new(4))]);
    assert_eq!(sparse_set.deletion_data.len(), 1);
    assert_eq!(sparse_set.deletion_data[0].0, deleted);
    assert_eq!(sparse_set.deletion_data[0].1, TrackingTimestamp::new(5));
    assert_eq!(sparse_set.deletion_data[0].2, I32(20));
    assert!(sparse_set.is_inserted(kept, TrackingTimestamp::new(2), TrackingTimestamp::new(3)));
    assert_eq!(get(&sparse_set, kept), Some(I32(30)));
}

#[test]
fn stale_grouped_remove_queues_the_stored_generation_without_tracking() {
    let group = vec![TypeId(7)];
    let mut sparse_set: SparseSet<TrackedI32> = tracking_all();
    sparse_set.add_group(&group);
    let stored = EntityId::new_from_parts(0, 2);
    let newer = EntityId::new_from_parts(0, 3);
    sparse_set.insert(stored, TrackedI32(10), TrackingTimestamp::new(0)).assert_inserted();
    sparse_set.move_entity_to_bucket(stored, BucketIndex::from_group_index(0));
    assert_eq!(sparse_set.dyn_remove(newer, TrackingTimestamp::new(1)), None);
    assert_eq!(sparse_set.sparse.removed_from_groups, vec![(stored, 0)]);
    assert!(sparse_set.removal_data.is_empty());

    let exact = EntityId::new_from_parts(1, 4);
    sparse_set.insert(exact, TrackedI32(20), TrackingTimestamp::new(2)).assert_inserted();
    sparse_set.move_entity_to_bucket(exact, BucketIndex::from_group_index(0));
    assert_eq!(sparse_set.dyn_remove(exact, TrackingTimestamp::new(3)), Some(TrackedI32(20)));
    assert_eq!(sparse_set.removal_data, vec![(exact, TrackingTimestamp::new(3))]);
}

#[test]
fn reserve_keeps_the_components() {
    let mut sparse_set: SparseSet<I32> = untracked();
    sparse_set.insert(EntityId::new_from_parts(2, 0), I32(2), TrackingTimestamp::new(0)).assert_inserted();
    sparse_set.reserve(10);
    assert!(sparse_set.unclassified_bucket.dense.capacity() >= 11);
    assert!(sparse_set.unclassified_bucket.data.capacity() >= 11);
    assert_eq!(sparse_set.len(), 1);
    assert_eq!(get(&sparse_set, EntityId::new_from_parts(2, 0)), Some(I32(2)));
}

#[test]
fn len_slice_and_positions_cover_grouped_components() {
    let mut sparse_set: SparseSet<I32> = untracked();
    let entities: Vec<EntityId> = (0..4u32).map(|i| EntityId::new_from_parts(i, 0)).collect();
    for (i, e) in entities.iter().enumerate() {
        sparse_set.insert(*e, I32(i as i32 * 10), TrackingTimestamp::new(0)).assert_inserted();
    }
    sparse_set.add_group(&vec![TypeId(1), TypeId(2)]);
    sparse_set.move_entity_to_bucket(entities[1], BucketIndex::from_group_index(0));
    assert_eq!(sparse_set.len(), 4);
    assert!(!sparse_set.is_empty());
    let all: Vec<i32> = sparse_set.as_slice().iter().map(|c| c.0).collect();
    assert_eq!(all, vec![0, 30, 20, 10]);
    assert_eq!(sparse_set.index_of(entities[1]), Some(3));
    assert_eq!(sparse_set.index_of(entities[3]), Some(1));
    for e in &entities {
        let i = sparse_set.index_of(*e).unwrap();
        assert_eq!(sparse_set.id_at(i), Some(*e));
    }
    assert_eq!(sparse_set.id_at(4), None);
    assert_eq!(sparse_set.index_of(EntityId::new_from_parts(7, 0)), None);
    let empty: SparseSet<I32> = untracked();
    assert!(empty.is_empty());
    assert_eq!(empty.len(), 0);
}

#[test]
fn dyn_remove_swaps_last_component_into_place() {
    let mut sparse_set: SparseSet<I32> = untracked();
    let entities: Vec<EntityId> = (0..3u32).map(|i| EntityId::new_from_parts(i, 0)).collect();
    for (i, e) in entities.iter().enumerate() {
        sparse_set.insert(*e, I32(i as i32), TrackingTimestamp::new(0)).assert_inserted();
    }
    assert_eq!(sparse_set.dyn_remove(entities[0], TrackingTimestamp::new(1)), Some(I32(0)));
    assert_eq!(sparse_set.unclassified_bucket.dense, vec![entities[2], entities[1]]);
    assert_eq!(sparse_set.unclassified_bucket.data, vec![I32(2), I32(1)]);
    assert!(sparse_set.sparse.removed_from_groups.is_empty());
    assert_eq!(sparse_set.dyn_remove(entities[0], TrackingTimestamp::new(1)), None);
    assert_eq!(sparse_set.len(), 2);
}

fn e(index: u32, gen: u16) -> EntityId {
    EntityId::new_from_parts(index, gen)
}

#[test]
fn thread_local_wrappers_delegate_regroup_page_collection() {
    let mut sparse_set: SparseSet<I32> = untracked();
    sparse_set.add_group(&vec![]);
    sparse_set.insert(e(64, 0), I32(1), TrackingTimestamp::new(0)).assert_inserted();
    let (groups, pages) = sparse_set.collect_regroup_pages();
    assert_eq!(pages, vec![(2, 1)]);
    assert_eq!(groups, vec![Vec::<TypeId>::new()]);
}

#[test]
fn remove_grouped_component_returns_and_queues_exact_entity() {
    let mut sparse_set: SparseSet<I32> = untracked();
    let group = vec![TypeId(1), TypeId(2)];
    sparse_set.add_group(&group);
    let entity = e(0, 0);
    sparse_set.insert(entity, I32(10), TrackingTimestamp::new(0)).assert_inserted();
    sparse_set.move_to_group_batch(&vec![entity], &group);

    assert_eq!(sparse_set.dyn_remove(entity, TrackingTimestamp::new(1)), Some(I32(10)));
    assert_eq!(sparse_set.sparse.removed_from_groups, vec![(entity, 0)]);
    assert!(sparse_set.sparse.bucket_index(entity).is_unclassified());
}

#[test]
fn delete_grouped_component_queues_exact_entity_and_keeps_tracking_data() {
    let mut sparse_set: SparseSet<TrackedI32> = tracking_all();
    let group = vec![TypeId(1), TypeId(2)];
    sparse_set.add_group(&group);
    let removed = e(0, 0);
    let deleted = e(1, 0);
    sparse_set.insert(removed, TrackedI32(10), TrackingTimestamp::new(0)).assert_inserted();
    sparse_set.insert(deleted, TrackedI32(20), TrackingTimestamp::new(0)).assert_inserted();
    sparse_set.move_to_group_batch(&vec![removed, deleted], &group);

    assert_eq!(sparse_set.dyn_remove(removed, TrackingTimestamp::new(1)), Some(TrackedI32(10)));
    assert!(sparse_set.dyn_delete(deleted, TrackingTimestamp::new(1)));

    assert_eq!(sparse_set.sparse.removed_from_groups, vec![(removed, 0), (deleted, 0)]);
    assert_eq!(sparse_set.removal_data.len(), 1);
    assert_eq!(sparse_set.removal_data[0].0, removed);
    assert_eq!(sparse_set.deletion_data.len(), 1);
    assert_eq!(sparse_set.deletion_data[0].0, deleted);
    assert_eq!(sparse_set.deletion_data[0].2, TrackedI32(20));
}

#[test]
fn grouped_remove_repairs_swapped_sparse_index_and_tracking_vectors() {
    let mut sparse_set: SparseSet<TrackedI32> = tracking_all();
    let group = vec![TypeId(1)];
    sparse_set.add_group(&group);
    let first = e(0, 0);
    let second = e(1, 0);
    sparse_set.insert(first, TrackedI32(10), TrackingTimestamp::new(1)).assert_inserted();
    sparse_set.insert(second, TrackedI32(20), TrackingTimestamp::new(2)).assert_inserted();
    sparse_set.move_to_group_batch(&vec![first], &group);
    sparse_set.move_to_group_batch(&vec![second], &group);

    let insertion = sparse_set.group_buckets[0].insertion_data[1];
    let modification = sparse_set.group_buckets[0].modification_data[1];

    assert_eq!(sparse_set.dyn_remove(first, TrackingTimestamp::new(3)), Some(TrackedI32(10)));
    assert_eq!(sparse_set.group_buckets[0].dense, vec![second]);
    assert_eq!(sparse_set.group_buckets[0].data, vec![TrackedI32(20)]);
    assert_eq!(sparse_set.group_buckets[0].insertion_data.len(), 1);
    assert_eq!(sparse_set.group_buckets[0].modification_data.len(), 1);
    assert_eq!(sparse_set.group_buckets[0].insertion_data[0], insertion);
    assert_eq!(sparse_set.group_buckets[0].modification_data[0], modification);
    assert_eq!(sparse_set.sparse.get(second).unwrap().uindex(), 0);
}

#[test]
fn stale_grouped_remove_queues_stored_generation_without_callback_or_tracking() {
    let mut sparse_set: SparseSet<TrackedI32> = tracking_all();
    let group = vec![TypeId(1)];
    sparse_set.add_group(&group);
    let stored = e(0, 2);
    let newer = e(0, 3);
    sparse_set.insert(stored, TrackedI32(10), TrackingTimestamp::new(0)).assert_inserted();
    sparse_set.move_to_group_batch(&vec![stored], &group);

    assert_eq!(sparse_set.dyn_remove(newer, TrackingTimestamp::new(1)), None);
    assert_eq!(sparse_set.sparse.removed_from_groups, vec![(stored, 0)]);
    assert!(sparse_set.removal_data.is_empty());

    let exact = e(1, 4);
    sparse_set.insert(exact, TrackedI32(20), TrackingTimestamp::new(2)).assert_inserted();
    sparse_set.move_to_group_batch(&vec![exact], &group);
    assert_eq!(sparse_set.dyn_remove(exact, TrackingTimestamp::new(3)), Some(TrackedI32(20)));
    assert_eq!(sparse_set.removal_data.len(), 1);
}

#[test]
fn movement_from_existing_group_repairs_swapped_sparse_indices() {
    let mut sparse_set: SparseSet<I32> = untracked();
    let ac = vec![TypeId(1), TypeId(3)];
    let abc = vec![TypeId(1), TypeId(2), TypeId(3)];
    sparse_set.add_group(&ac);
    let first = e(0, 0);
    let second = e(1, 0);
    sparse_set.insert(first, I32(1), TrackingTimestamp::new(0)).assert_inserted();
    sparse_set.insert(second, I32(2), TrackingTimestamp::new(0)).assert_inserted();
    sparse_set.move_to_group_batch(&vec![first, second], &ac);
    let moving = sparse_set.group_buckets[0].dense[0];
    let remaining = sparse_set.group_buckets[0].dense[1];

    sparse_set.move_to_group_batch(&vec![moving], &abc);

    assert_eq!(sparse_set.entity_group(moving), Some(abc.clone()));
    assert_eq!(sparse_set.entity_group(remaining), Some(ac.clone()));
    assert_eq!(sparse_set.sparse.get(remaining).unwrap().uindex(), 0);
    assert_eq!(sparse_set.group_buckets[0].dense, vec![remaining]);
}

#[test]
fn empty_group_movement_returns_to_unclassified_without_creating_a_group() {
    let mut sparse_set: SparseSet<I32> = untracked();
    let group = vec![TypeId(1), TypeId(2)];
    sparse_set.add_group(&group);
    let entity = e(0, 0);
    sparse_set.insert(entity, I32(1), TrackingTimestamp::new(0)).assert_inserted();
    sparse_set.move_to_group_batch(&vec![entity], &group);
    assert_eq!(sparse_set.groups.offsets.len(), 1);
    assert_eq!(sparse_set.group_buckets[0].dense, vec![entity]);

    sparse_set.move_to_group_batch(&vec![entity], &vec![]);

    assert_eq!(sparse_set.groups.offsets.len(), 1);
    assert_eq!(sparse_set.group_buckets.len(), 1);
    assert!(sparse_set.group_buckets[0].dense.is_empty());
    assert_eq!(sparse_set.unclassified_bucket.dense, vec![entity]);
    assert!(sparse_set.sparse.bucket_index(entity).is_unclassified());
}

#[test]
fn empty_group_movement_preserves_component_tracking() {
    let mut sparse_set: SparseSet<TrackedI32> = tracking_all();
    let group = vec![TypeId(1), TypeId(2)];
    sparse_set.add_group(&group);
    let entity = e(0, 0);
    sparse_set.insert(entity, TrackedI32(10), TrackingTimestamp::new(4)).assert_inserted();
    sparse_set.move_to_group_batch(&vec![entity], &group);
    assert_eq!(sparse_set.group_buckets[0].data, vec![TrackedI32(10)]);
    let insertion = sparse_set.group_buckets[0].insertion_data[0];
    let modification = sparse_set.group_buckets[0].modification_data[0];

    sparse_set.move_to_group_batch(&vec![entity], &vec![]);

    assert_eq!(sparse_set.unclassified_bucket.dense, vec![entity]);
    assert_eq!(sparse_set.unclassified_bucket.data, vec![TrackedI32(10)]);
    assert_eq!(sparse_set.unclassified_bucket.insertion_data[0], insertion);
    assert_eq!(sparse_set.unclassified_bucket.modification_data[0], modification);
}

#[test]
fn empty_group_movement_repairs_the_source_bucket_sparse_index() {
    let mut sparse_set: SparseSet<I32> = untracked();
    let group = vec![TypeId(1)];
    sparse_set.add_group(&group);
    let first = e(0, 0);
    let second = e(1, 0);
    sparse_set.insert(first, I32(10), TrackingTimestamp::new(0)).assert_inserted();
    sparse_set.insert(second, I32(20), TrackingTimestamp::new(0)).assert_inserted();
    sparse_set.move_to_group_batch(&vec![first], &group);
    sparse_set.move_to_group_batch(&vec![second], &group);

    sparse_set.move_to_group_batch(&vec![first], &vec![]);

    assert_eq!(sparse_set.group_buckets[0].dense, vec![second]);
    assert_eq!(sparse_set.sparse.get(second).unwrap().uindex(), 0);
    assert_eq!(sparse_set.unclassified_bucket.dense, vec![first]);
    assert_eq!(sparse_set.unclassified_bucket.data, vec![I32(10)]);
}

#[test]
fn dead_generation_ids_own_nothing() {
    let mut sparse_set: SparseSet<I32> = untracked();
    sparse_set.insert(e(0, 0), I32(1), TrackingTimestamp::new(0)).assert_inserted();
    let dead = EntityId::dead();
    assert_eq!(sparse_set.index_of(dead), None);
    assert!(!sparse_set.contains(dead));
    assert_eq!(get(&sparse_set, dead), None);
    assert_eq!(sparse_set.bucket_position(dead), None);
    let stale = e(0, u16::MAX);
    assert_eq!(sparse_set.index_of(stale), None);
    assert_eq!(sparse_set.index_of(e(0, 0)), Some(0));
}

#[test]
fn track_all_keeps_components_in_their_buckets() {
    let mut sparse_set: SparseSet<I32> = untracked();
    sparse_set.insert(e(0, 0), I32(0), TrackingTimestamp::new(0)).assert_inserted();
    sparse_set.track_all();
    sparse_set.track_all();
    sparse_set.track_all();
    assert_eq!(sparse_set.unclassified_bucket.insertion_data.len(), 1);
    assert_eq!(sparse_set.unclassified_bucket.modification_data.len(), 1);
    assert!(sparse_set.group_buckets.is_empty());
    assert!(sparse_set.is_tracking_insertion() && sparse_set.is_tracking_modification());
    assert!(sparse_set.is_tracking_deletion() && sparse_set.is_tracking_removal());
}
