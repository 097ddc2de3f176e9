use shipyard::entity_id::EntityId;
use shipyard::sparse_array::sort::insertion_sort;
use shipyard::sparse_array::SparseArray;

fn key(index: usize) -> EntityId {
    let mut key = EntityId::zero();
    key.set_index(index as u32);
    key
}

fn reversed_array() -> SparseArray<usize> {
    let mut array = SparseArray::default();
    for i in (0..100).rev() {
        array.view_mut().insert(i, key(100 - i));
    }
    array
}

fn partially_sorted_array() -> SparseArray<usize> {
    let mut array = SparseArray::default();
    for i in 0..20 {
        assert!(array.view_mut().insert(i, key(i)).is_none());
    }
    for i in (20..100).rev() {
        assert!(array.view_mut().insert(i, key(100 - i + 20)).is_none());
    }
    array
}

fn check_reversed(array: &SparseArray<usize>) {
    for window in array.data.windows(2) {
        assert!(window[0] < window[1]);
    }
    for i in 0..100 {
        assert_eq!(array.get(key(100 - i)), Some(&i));
    }
}

fn check_partially_sorted(array: &SparseArray<usize>) {
    for window in array.data.windows(2) {
        assert!(window[0] < window[1]);
    }
    for i in 0..20 {
        assert_eq!(array.get(key(i)), Some(&i));
    }
    for i in 20..100 {
        assert_eq!(array.get(key(100 - i + 20)), Some(&i));
    }
}

#[test]
fn insertion_sort_insert_sort() {
    let mut array = reversed_array();
    insertion_sort(&mut array.view_mut(), &mut |x: &usize, y: &usize| x.cmp(&y));
    check_reversed(&array);
}

#[test]
fn insertion_sort_insert_sort_partially_sorted() {
    let mut array = partially_sorted_array();
    insertion_sort(&mut array.view_mut(), &mut |x: &usize, y: &usize| x.cmp(&y));
    check_partially_sorted(&array);
}

#[test]
fn mod_insert_sort() {
    let mut array = reversed_array();
    insertion_sort(&mut array.view_mut(), &mut |x: &usize, y: &usize| x.cmp(&y));
    check_reversed(&array);
}

#[test]
fn mod_insert_sort_partially_sorted() {
    let mut array = partially_sorted_array();
    insertion_sort(&mut array.view_mut(), &mut |x: &usize, y: &usize| x.cmp(&y));
    check_partially_sorted(&array);
}

#[test]
fn insertion_sort_with_a_reversed_comparison() {
    let mut array = SparseArray::default();
    for i in 0..10usize {
        array.insert(i, key(i));
    }
    insertion_sort(&mut array.view_mut(), &mut |x: &usize, y: &usize| y.cmp(x));
    assert_eq!(array.data, vec![9, 8, 7, 6, 5, 4, 3, 2, 1, 0]);
    for i in 0..10usize {
        assert_eq!(array.get(key(i)), Some(&i));
    }
}

#[test]
fn insertion_sort_on_empty_and_single() {
    let mut empty: SparseArray<usize> = SparseArray::default();
    insertion_sort(&mut empty.view_mut(), &mut |x: &usize, y: &usize| x.cmp(y));
    assert_eq!(empty.len(), 0);
    let mut single = SparseArray::default();
    single.insert(7usize, key(3));
    insertion_sort(&mut single.view_mut(), &mut |x: &usize, y: &usize| x.cmp(y));
    assert_eq!(single.get(key(3)), Some(&7));
}
