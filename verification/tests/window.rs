use shipyard::entity_id::EntityId;
use shipyard::error::{NotUpdatePack, Sort};
use shipyard::sparse_set::window::{Pack, PackedStorage, UpdatePack};

fn storage(n: u32, inserted: usize, modified: usize) -> PackedStorage<u32> {
    PackedStorage {
        sparse: (0..n as usize).collect(),
        dense: (0..n).map(|i| EntityId::new_from_parts(i, 0)).collect(),
        data: (0..n).collect(),
        pack: Pack::Update(UpdatePack { inserted, modified, deleted: Vec::new(), removed: Vec::new() }),
    }
}

fn counts(storage: &PackedStorage<u32>) -> (usize, usize) {
    match &storage.pack {
        Pack::Update(p) => (p.inserted, p.modified),
        Pack::NoPack => panic!("not update packed"),
    }
}

#[test]
fn clear_inserted_moves_inserted_behind_modified() {
    let mut storage = storage(6, 2, 3);
    storage.as_window_mut().clear_inserted();
    assert_eq!(storage.data, vec![3, 4, 2, 0, 1, 5]);
    let indexes: Vec<u32> = storage.dense.iter().map(|e| e.index()).collect();
    assert_eq!(indexes, vec![3, 4, 2, 0, 1, 5]);
    assert_eq!(storage.sparse, vec![3, 4, 2, 3, 1, 5]);
    assert_eq!(counts(&storage), (0, 3));
}

#[test]
fn clear_inserted_with_more_inserted_than_modified() {
    let mut storage = storage(4, 3, 1);
    assert_eq!(storage.as_window_mut().try_clear_inserted(), Ok(()));
    assert_eq!(storage.data, vec![3, 0, 1, 2]);
    assert_eq!(storage.sparse, vec![1, 2, 3, 0]);
    assert_eq!(counts(&storage), (0, 1));
}

#[test]
fn clear_inserted_without_modified_only_resets_the_count() {
    let mut storage = storage(4, 3, 0);
    assert_eq!(storage.as_window_mut().try_clear_inserted(), Ok(()));
    assert_eq!(storage.data, vec![0, 1, 2, 3]);
    assert_eq!(storage.sparse, vec![0, 1, 2, 3]);
    assert_eq!(counts(&storage), (0, 0));
}

#[test]
fn clear_inserted_needs_an_update_pack() {
    let mut storage = storage(2, 0, 0);
    storage.pack = Pack::NoPack;
    assert_eq!(storage.as_window_mut().try_clear_inserted(), Err(NotUpdatePack));
    assert_eq!(storage.data, vec![0, 1]);
}

fn unpacked(data: Vec<u32>) -> PackedStorage<u32> {
    let n = data.len() as u32;
    PackedStorage {
        sparse: (0..n as usize).collect(),
        dense: (0..n).map(|i| EntityId::new_from_parts(i, 0)).collect(),
        data,
        pack: Pack::NoPack,
    }
}

#[test]
fn window_unstable_sort_orders_components_with_their_entities() {
    let mut storage = unpacked(vec![30, 10, 40, 20]);
    storage.as_window_mut().sort().unstable(|a: &u32, b: &u32| a.cmp(b));
    assert_eq!(storage.data, vec![10, 20, 30, 40]);
    let indexes: Vec<u32> = storage.dense.iter().map(|e| e.index()).collect();
    assert_eq!(indexes, vec![1, 3, 0, 2]);
    assert_eq!(storage.sparse, vec![2, 0, 3, 1]);
}

#[test]
fn window_unstable_sort_of_a_part_uses_window_positions() {
    let mut storage = unpacked(vec![9, 30, 10, 20, 0]);
    {
        let mut whole = storage.as_window_mut();
        let mut part = whole.as_window_mut(1, 4);
        assert_eq!(part.sort().try_unstable(|a: &u32, b: &u32| a.cmp(b)), Ok(()));
    }
    assert_eq!(storage.data, vec![9, 10, 20, 30, 0]);
    let indexes: Vec<u32> = storage.dense.iter().map(|e| e.index()).collect();
    assert_eq!(indexes, vec![0, 2, 3, 1, 4]);
    assert_eq!(storage.sparse, vec![0, 3, 1, 2, 4]);
}

#[test]
fn window_sort_refuses_packed_storage() {
    let mut storage = storage(3, 1, 1);
    assert_eq!(
        storage.as_window_mut().sort().try_unstable(|a: &u32, b: &u32| a.cmp(b)),
        Err(Sort::MissingPackStorage)
    );
    assert_eq!(storage.data, vec![0, 1, 2]);
}

fn update_storage(n: u32, inserted: usize, modified: usize) -> PackedStorage<u32> {
    let mut s = storage(n, inserted, modified);
    if let Pack::Update(p) = &mut s.pack {
        p.deleted = vec![(EntityId::new_from_parts(9, 0), 90)];
        p.removed = vec![EntityId::new_from_parts(8, 0)];
    }
    s
}

#[test]
fn mutable_sections_of_an_update_pack() {
    let mut storage = update_storage(6, 2, 3);
    let mut whole = storage.as_window_mut();
    assert_eq!(whole.inserted_mut().len(), 2);
    assert_eq!(whole.modified_mut().len(), 3);
    assert_eq!(whole.inserted_or_modified_mut().len(), 5);
    assert_eq!(whole.try_modified_mut().map(|w| w.as_slice().to_vec()).ok(), Some(vec![2, 3, 4]));
    assert_eq!(whole.try_inserted_mut().map(|w| w.as_slice().to_vec()).ok(), Some(vec![0, 1]));
    assert_eq!(whole.try_inserted_or_modified_mut().map(|w| w.len()).ok(), Some(5));
    let part = whole.try_as_window_mut(1, 4).map(|w| w.as_slice().to_vec()).ok();
    assert_eq!(part, Some(vec![1, 2, 3]));
    assert!(whole.try_as_window_mut(2, 7).is_err());
}

#[test]
fn taking_and_clearing_the_records_of_an_update_pack() {
    let mut storage = update_storage(6, 2, 3);
    {
        let mut whole = storage.as_window_mut();
        assert_eq!(whole.take_deleted(), vec![(EntityId::new_from_parts(9, 0), 90)]);
        assert_eq!(whole.take_removed(), vec![EntityId::new_from_parts(8, 0)]);
        assert!(whole.deleted().is_empty());
        assert!(whole.removed().is_empty());
        whole.clear_modified();
    }
    assert_eq!(counts(&storage), (2, 0));
    storage.as_window_mut().clear_inserted_and_modified();
    assert_eq!(counts(&storage), (0, 0));
    assert_eq!(storage.data, vec![0, 1, 2, 3, 4, 5]);
}

#[test]
fn clear_inserted_reindexes_only_the_positions_around_the_modified_end() {
    let mut storage = storage(6, 1, 5);
    storage.as_window_mut().clear_inserted();
    assert_eq!(storage.data, vec![5, 1, 2, 3, 4, 0]);
    assert_eq!(storage.sparse, vec![5, 1, 2, 3, 4, 5]);
    assert_eq!(counts(&storage), (0, 5));
}

#[test]
fn remove_from_update_pack_keeps_sections_in_front() {
    let mut storage = storage(4, 2, 1);
    assert_eq!(storage.remove(EntityId::new_from_parts(0, 0)), Some(0));
    assert_eq!(storage.data, vec![1, 3, 2]);
    let indexes: Vec<u32> = storage.dense.iter().map(|e| e.index()).collect();
    assert_eq!(indexes, vec![1, 3, 2]);
    assert_eq!(counts(&storage), (1, 0));
    assert!(!storage.contains(EntityId::new_from_parts(0, 0)));
    assert!(storage.contains(EntityId::new_from_parts(3, 0)));
    assert_eq!(storage.remove(EntityId::new_from_parts(0, 0)), None);
    assert_eq!(storage.remove(EntityId::new_from_parts(2, 1)), None);
}

#[test]
fn remove_from_modified_section_and_unpacked_storage() {
    let mut storage = storage(4, 1, 2);
    assert_eq!(storage.remove(EntityId::new_from_parts(1, 0)), Some(1));
    assert_eq!(storage.data, vec![0, 2, 3]);
    assert_eq!(counts(&storage), (1, 1));
    let mut plain = unpacked(vec![5, 6, 7]);
    assert_eq!(plain.remove(EntityId::new_from_parts(0, 0)), Some(5));
    assert_eq!(plain.data, vec![7, 6]);
    assert!(matches!(plain.pack, Pack::NoPack));
}
