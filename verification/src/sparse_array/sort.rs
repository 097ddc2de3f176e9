//! Sorting the components of a packed sparse array with a comparison, by insertion.
use crate::sparse_array::{ix, moved_down, SparseArray, ViewMut};
use std::cmp::Ordering;
use vstd::prelude::*;

verus! {

/// `compare` put `a` before `b`: asked about `(a, b)` it answered `Less`, or asked about
/// `(b, a)` it answered something else than `Less`.
pub open spec fn in_order<T, F: FnMut(&T, &T) -> Ordering>(compare: F, a: T, b: T) -> bool {
    ||| call_ensures(compare, (&a, &b), Ordering::Less)
    ||| exists|r: Ordering| #[trigger] call_ensures(compare, (&b, &a), r) && r != Ordering::Less
}

/// Each component of `data` before `end` is in order with the next one, as `compare`
/// answered.
pub open spec fn ordered_upto<T, F: FnMut(&T, &T) -> Ordering>(compare: F, data: Seq<T>, end: int) -> bool {
    forall|k: int| 0 <= k && k + 1 < end ==> #[trigger] in_order(compare, data[k], data[k + 1])
}

/// Each component of `data` is in order with the next one, as `compare` answered.
pub open spec fn sorted_by<T, F: FnMut(&T, &T) -> Ordering>(compare: F, data: Seq<T>) -> bool {
    forall|k: int| 0 <= k && k + 1 < data.len() ==> #[trigger] in_order(compare, data[k], data[k + 1])
}

/// `compare` may be called on any two components.
pub open spec fn callable<T, F: FnMut(&T, &T) -> Ordering>(compare: F) -> bool {
    forall|a: &T, b: &T| #[trigger] call_requires(compare, (a, b))
}

/// Inserts the component at position `len - 1` among the ones before it, which are in order,
/// so that the first `len` are in order.
fn shift_tail<T, F: FnMut(&T, &T) -> Ordering>(array: &mut SparseArray<T>, compare: &mut F, len: usize)
    requires
        old(array).wf(),
        2 <= len <= old(array).dense@.len(),
        callable(*old(compare)),
        ordered_upto(*old(compare), old(array).data@, len - 1),
    ensures
        final(array).wf(),
        forall|i: int| #[trigger] final(array).entry(i) == old(array).entry(i),
        final(array).dense@.len() == old(array).dense@.len(),
        forall|j: int| len <= j < final(array).data@.len() ==> #[trigger] final(array).data@[j] == old(array).data@[j],
        final(array).pack_info == old(array).pack_info,
        final(array).owned_type == old(array).owned_type,
        final(array).sparse@.len() == old(array).sparse@.len(),
        *final(compare) == *old(compare),
        ordered_upto(*final(compare), final(array).data@, ix(len)),
{
    let ghost s = array.data@;
    let ghost f = *compare;
    let last = len - 1;
    let first = compare(&array.data[last], &array.data[last - 1]);
    if matches!(first, Ordering::Less) {
        let mut index = last - 1;
        loop
            invariant
                index < last,
                last + 1 == len,
                len <= s.len(),
                array.data@ == s,
                *compare == f,
                callable(f),
                call_ensures(f, (&s[ix(last)], &s[ix(index)]), Ordering::Less),
            ensures
                index < last,
                call_ensures(f, (&s[ix(last)], &s[ix(index)]), Ordering::Less),
                index >= 1 ==> exists|r: Ordering| #[trigger] call_ensures(f, (&s[ix(last)], &s[ix(index) - 1]), r)
                    && r != Ordering::Less,
            decreases index,
        {
            if index == 0 {
                break;
            }
            let r = compare(&array.data[last], &array.data[index - 1]);
            if matches!(r, Ordering::Less) {
                index -= 1;
            } else {
                break;
            }
        }
        let ghost a0 = *array;
        array.move_down(last, index);
        proof {
            let d = array.data@;
            assert forall|k: int| 0 <= k && k + 1 < len implies #[trigger] in_order(f, d[k], d[k + 1]) by {
                if k + 1 < index {
                    assert(in_order(f, s[k], s[k + 1]));
                } else if k + 1 == index {
                    assert(d[k] == s[k]);
                    assert(d[k + 1] == s[ix(last)]);
                } else if k == index {
                    assert(d[k] == s[ix(last)]);
                    assert(d[k + 1] == s[ix(index)]);
                } else {
                    let j = k - 1;
                    assert(d[k] == s[j]);
                    assert(d[k + 1] == s[j + 1]);
                    assert(in_order(f, s[j], s[j + 1]));
                }
            }
        }
    } else {
        proof {
            assert(in_order(f, s[ix(last) - 1], s[ix(last)]));
        }
    }
}

/// Sorts the components of `array` by insertion; see [`insertion_sort`].
fn sort_array<T, F: FnMut(&T, &T) -> Ordering>(array: &mut SparseArray<T>, compare: &mut F)
    requires
        old(array).wf(),
        callable(*old(compare)),
    ensures
        final(array).wf(),
        forall|i: int| #[trigger] final(array).entry(i) == old(array).entry(i),
        final(array).dense@.len() == old(array).dense@.len(),
        final(array).pack_info == old(array).pack_info,
        final(array).owned_type == old(array).owned_type,
        *final(compare) == *old(compare),
        sorted_by(*final(compare), final(array).data@),
{
    let ghost f = *compare;
    let ghost s0 = *array;
    let n = array.dense.len();
    let mut i: usize = 1;
    while i < n
        invariant
            1 <= i,
            n == s0.dense@.len(),
            array.wf(),
            forall|j: int| #[trigger] array.entry(j) == s0.entry(j),
            array.dense@.len() == n,
            array.pack_info == s0.pack_info,
            array.owned_type == s0.owned_type,
            *compare == f,
            callable(f),
            ordered_upto(f, array.data@, ix(i)),
        decreases n - i,
    {
        shift_tail(array, compare, i + 1);
        i += 1;
    }
}

/// Sorts the components of the array, with their entities, by insertion: each component in
/// turn is moved down past the ones that `compare` puts after it. Every entity keeps its
/// component, and each component ends in order with the next one, as `compare` answered.
pub fn insertion_sort<T, F: FnMut(&T, &T) -> Ordering>(view: &mut ViewMut<T>, compare: &mut F)
    requires
        old(view).store().wf(),
        callable(*old(compare)),
    ensures
        *final(final(view).array) == *final(old(view).array),
        final(view).store().wf(),
        forall|i: int| #[trigger] final(view).store().entry(i) == old(view).store().entry(i),
        final(view).store().dense@.len() == old(view).store().dense@.len(),
        final(view).store().pack_info == old(view).store().pack_info,
        final(view).store().owned_type == old(view).store().owned_type,
        *final(compare) == *old(compare),
        sorted_by(*final(compare), final(view).store().data@),
{
    sort_array(view.array, compare)
}

} // verus!
