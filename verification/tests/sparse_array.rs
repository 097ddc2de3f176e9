use shipyard::entity_id::EntityId;
use shipyard::sparse_array::pack_info::{check_types, LoosePack, PackInfo, TightPack};
use shipyard::sparse_array::SparseArray;
use shipyard::type_id::TypeId;

fn key(index: u32) -> EntityId {
    let mut key = EntityId::zero();
    key.set_index(index);
    key
}

fn get(array: &SparseArray<&'static str>, entity: EntityId) -> Option<&'static str> {
    array.get(entity).copied()
}

const U32: TypeId = TypeId(1);
const USIZE: TypeId = TypeId(2);
const U8: TypeId = TypeId(3);
const STRING: TypeId = TypeId(4);
const I8: TypeId = TypeId(5);

fn sorted(mut types: Vec<TypeId>) -> Vec<TypeId> {
    types.sort_unstable();
    types
}

#[test]
fn sparse_array_insert() {
    let mut array = SparseArray::default();
    array.insert("0", key(0));
    array.insert("1", key(1));
    assert_eq!(array.len(), 2);
    assert_eq!(get(&array, key(0)), Some("0"));
    assert_eq!(get(&array, key(1)), Some("1"));
    array.insert("5", key(5));
    assert_eq!(get(&array, key(5)), Some("5"));
    assert_eq!(get(&array, key(4)), None);
    assert_eq!(get(&array, key(6)), None);
    array.insert("6", key(6));
    assert_eq!(get(&array, key(5)), Some("5"));
    assert_eq!(get(&array, key(6)), Some("6"));
    assert_eq!(get(&array, key(4)), None);
}

#[test]
fn sparse_array_remove() {
    let mut array = SparseArray::default();
    array.insert("0", key(0));
    array.insert("5", key(5));
    array.insert("10", key(10));
    assert_eq!(array.remove(key(0)), Some("0"));
    assert_eq!(get(&array, key(0)), None);
    assert_eq!(get(&array, key(5)), Some("5"));
    assert_eq!(get(&array, key(10)), Some("10"));
    assert_eq!(array.remove(key(10)), Some("10"));
    assert_eq!(get(&array, key(0)), None);
    assert_eq!(get(&array, key(5)), Some("5"));
    assert_eq!(get(&array, key(10)), None);
    assert_eq!(array.len(), 1);
    array.insert("3", key(3));
    array.insert("100", key(10));
    assert_eq!(get(&array, key(0)), None);
    assert_eq!(get(&array, key(3)), Some("3"));
    assert_eq!(get(&array, key(5)), Some("5"));
    assert_eq!(get(&array, key(10)), Some("100"));
    assert_eq!(array.remove(key(3)), Some("3"));
    assert_eq!(get(&array, key(0)), None);
    assert_eq!(get(&array, key(3)), None);
    assert_eq!(get(&array, key(5)), Some("5"));
    assert_eq!(get(&array, key(10)), Some("100"));
    assert_eq!(array.remove(key(10)), Some("100"));
    assert_eq!(get(&array, key(0)), None);
    assert_eq!(get(&array, key(3)), None);
    assert_eq!(get(&array, key(5)), Some("5"));
    assert_eq!(get(&array, key(10)), None);
    assert_eq!(array.remove(key(5)), Some("5"));
    assert_eq!(get(&array, key(0)), None);
    assert_eq!(get(&array, key(3)), None);
    assert_eq!(get(&array, key(5)), None);
    assert_eq!(get(&array, key(10)), None);
    assert_eq!(array.len(), 0);
}

#[test]
fn packed_array_insert_returns_previous_component() {
    let mut array = SparseArray::default();
    assert!(array.insert("0", key(0)).is_none());
    assert!(array.insert("1", key(1)).is_none());
    assert_eq!(array.insert("one", key(1)), Some("1"));
    assert_eq!(array.len(), 2);
    assert_eq!(array.view().get(key(1)), Some(&"one"));
    assert!(array.view_mut().contains(key(0)));
}

#[test]
fn packed_remove_keeps_pack_in_front() {
    let mut array = SparseArray::default();
    array.pack_info = PackInfo::Tight(TightPack::new(vec![U32]));
    for i in 0..4 {
        array.insert(i, key(i));
    }
    array.pack(key(2));
    array.pack(key(3));
    assert_eq!(array.dense, vec![key(2), key(3), key(0), key(1)]);
    assert_eq!(array.pack_info.len(), 2);

    assert_eq!(array.remove(key(2)), Some(2));
    assert_eq!(array.pack_info.len(), 1);
    assert_eq!(array.dense[0], key(3));
    assert_eq!(array.get(key(0)), Some(&0));
    assert_eq!(array.get(key(1)), Some(&1));
    assert_eq!(array.get(key(3)), Some(&3));
    assert_eq!(array.get(key(2)), None);
}

#[test]
fn pack_is_ignored_without_tight_pack() {
    let mut array = SparseArray::default();
    array.insert(7u32, key(0));
    array.insert(8u32, key(1));
    array.pack(key(1));
    assert_eq!(array.pack_info.len(), 0);
    assert_eq!(array.dense, vec![key(0), key(1)]);
}

#[test]
fn check_types_for_pack_owned() {
    let pack_types = sorted(vec![U32, USIZE, U8]);
    let mut sparse_array = SparseArray::<u32>::default();
    sparse_array.pack_with(pack_types);

    let slice = sorted(vec![U32, USIZE, U8]);
    assert!(!sparse_array.should_pack_owned(&slice).is_empty());

    let pack_types = sorted(vec![USIZE, U8]);
    sparse_array.pack_with(pack_types);
    assert!(!sparse_array.should_pack_owned(&slice).is_empty());

    let slice = sorted(vec![U32, U8]);
    let pack_types = sorted(vec![U32, USIZE, U8]);
    sparse_array.pack_with(pack_types);
    assert!(sparse_array.should_pack_owned(&slice).is_empty());
}

#[test]
fn pack_check() {
    let pack_types = sorted(vec![USIZE, U32, STRING]);

    let components: Vec<TypeId> = vec![];
    let additional = sorted(vec![USIZE, STRING]);
    assert_eq!(check_types(&pack_types, &components, &additional), (false, false));

    let components: Vec<TypeId> = vec![];
    let additional = sorted(vec![USIZE, I8, STRING]);
    assert_eq!(check_types(&pack_types, &components, &additional), (false, false));

    let components: Vec<TypeId> = vec![];
    let additional = sorted(vec![USIZE, U32, STRING]);
    assert_eq!(check_types(&pack_types, &components, &additional), (true, false));

    let components = vec![USIZE];
    let additional = sorted(vec![U32, STRING]);
    assert_eq!(check_types(&pack_types, &components, &additional), (true, false));

    let components = sorted(vec![USIZE, U32, STRING]);
    let additional: Vec<TypeId> = vec![];
    assert_eq!(check_types(&pack_types, &components, &additional), (true, true));
}

#[test]
fn check_types_looks_only_at_the_pack_types() {
    let pack_types = vec![U32, USIZE];
    assert_eq!(check_types(&pack_types, &[U32, USIZE, U8], &[]), (true, true));
    assert_eq!(check_types(&pack_types, &[U32], &[USIZE, USIZE]), (true, false));
    assert_eq!(check_types(&pack_types, &[U32], &[U8]), (false, false));
    assert_eq!(check_types(&[], &[], &[]), (true, true));
    assert_eq!(TightPack::new(pack_types).check_types(&[U32, USIZE], &[]), (true, true));
}

#[test]
fn loose_pack_checks_owned_and_read_types_together() {
    let pack = LoosePack::new(vec![U8, U32], vec![USIZE]);
    assert_eq!(pack.check_types(&[U32, USIZE, U8], &[]), (true, true));
    assert_eq!(pack.check_types(&[U32, U8], &[USIZE]), (true, false));
    assert_eq!(pack.check_types(&[U32, USIZE], &[]), (false, false));
    assert_eq!(pack.check_types(&[U32, USIZE, U8, STRING], &[]), (true, true));
}

#[test]
fn get_mut_changes_the_component_in_place() {
    let mut array = SparseArray::default();
    array.insert("a", key(2));
    array.insert("b", key(7));
    if let Some(v) = array.get_mut(key(7)) {
        *v = "c";
    }
    assert_eq!(get(&array, key(7)), Some("c"));
    assert_eq!(get(&array, key(2)), Some("a"));
    assert!(array.get_mut(key(3)).is_none());
    {
        let mut view = array.view_mut();
        *view.get_mut(key(2)).unwrap() = "d";
        assert!(view.get_mut(key(4)).is_none());
    }
    assert_eq!(get(&array, key(2)), Some("d"));
}

#[test]
fn view_packs_and_unpacks() {
    let mut array = SparseArray::default();
    array.pack_info = PackInfo::Tight(TightPack::new(vec![U32, USIZE]));
    array.insert("0", key(0));
    array.insert("1", key(1));
    array.insert("2", key(2));
    array.view_mut().pack(key(2));
    assert_eq!(array.pack_info.len(), 1);
    assert_eq!(array.dense[0], key(2));
    assert_eq!(get(&array, key(2)), Some("2"));
    array.view_mut().pack(key(0));
    assert_eq!(array.pack_info.len(), 2);
    array.view_mut().unpack(key(2));
    assert_eq!(array.pack_info.len(), 1);
    assert_eq!(array.dense[0], key(0));
    assert_eq!(array.dense[1], key(2));
    assert_eq!(get(&array, key(0)), Some("0"));
}
