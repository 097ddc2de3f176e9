//! Sorting the unclassified components of a sparse set by a comparison.
use crate::entity_id::{EntityId, DEAD_GEN};
use crate::sparse_set::set::SparseSet;
use crate::sparse_set::sort::{is_permutation, permuted, rearranged, reordered};
use crate::tracking::TrackingTimestamp;
use std::cmp::Ordering;
use vstd::laws_cmp::obeys_cmp;
use vstd::laws_eq::obeys_concrete_eq;
use vstd::std_specs::cmp::{OrdSpec, PartialEqSpec, PartialOrdSpec};
use vstd::prelude::*;

verus! {

/// `compare` answers as the total preorder `le`: it can be called on any two components and,
/// asked about `(a, b)`, answers `Less` when only `le(a, b)` holds, `Greater` when only
/// `le(b, a)` holds, and `Equal` when both do.
pub open spec fn is_total_order<T, F: FnMut(&T, &T) -> Ordering>(compare: F, le: spec_fn(T, T) -> bool) -> bool {
    &&& forall|a: T, b: T| #[trigger] le(a, b) || le(b, a)
    &&& forall|a: T, b: T, c: T| #[trigger] le(a, b) && #[trigger] le(b, c) ==> le(a, c)
    &&& forall|a: &T, b: &T| #[trigger] call_requires(compare, (a, b))
    &&& forall|a: T, b: T, r: Ordering| #[trigger] call_ensures(compare, (&a, &b), r) ==> r == (if le(a, b) && le(b, a) {
        Ordering::Equal
    } else if le(a, b) {
        Ordering::Less
    } else {
        Ordering::Greater
    })
}

/// `compare` answers as some total preorder.
pub open spec fn compares_totally<T, F: FnMut(&T, &T) -> Ordering>(compare: F) -> bool {
    exists|le: spec_fn(T, T) -> bool| is_total_order(compare, le)
}

/// Each element of `s` is, by `le`, at most every later one.
pub open spec fn sorted_by_le<T>(s: Seq<T>, le: spec_fn(T, T) -> bool) -> bool {
    forall|i: int, j: int| 0 <= i < j < s.len() ==> le(#[trigger] s[i], #[trigger] s[j])
}

/// Each element of `s` is, by its type's order, at most every later one.
pub open spec fn sorted_by_cmp<T: Ord>(s: Seq<T>) -> bool {
    forall|i: int, j: int| #![trigger s[i], s[j]] 0 <= i < j < s.len() ==> !(s[i].cmp_spec(&s[j]) is Greater)
}

/// A comparison that answers as a type's order, when that order is total and its equality
/// is spec equality, answers as a total preorder.
proof fn lemma_cmp_is_total<T: Ord, F: FnMut(&T, &T) -> Ordering>(compare: F)
    requires
        obeys_cmp::<T>(),
        obeys_concrete_eq::<T>(),
        forall|a: &T, b: &T| #[trigger] call_requires(compare, (a, b)),
        forall|a: &T, b: &T, r: Ordering| #[trigger] call_ensures(compare, (a, b), r)
            ==> (T::obeys_cmp_spec() ==> r == a.cmp_spec(b)),
    ensures
        is_total_order(compare, |a: T, b: T| !(a.cmp_spec(&b) is Greater)),
        compares_totally(compare),
{
    let le = |a: T, b: T| !(a.cmp_spec(&b) is Greater);
    reveal(vstd::laws_cmp::obeys_cmp_ord);
    reveal(vstd::laws_cmp::obeys_cmp_partial_ord);
    reveal(vstd::laws_cmp::obeys_partial_cmp_spec_properties);
    reveal(obeys_concrete_eq);
    assert forall|a: T, b: T| a.cmp_spec(&b) is Greater implies b.cmp_spec(&a) is Less by {
        assert(a.partial_cmp_spec(&b) == Some(a.cmp_spec(&b)));
        assert(b.partial_cmp_spec(&a) == Some(b.cmp_spec(&a)));
    }
    assert forall|a: T, b: T| a.cmp_spec(&b) is Less implies b.cmp_spec(&a) is Greater by {
        assert(a.partial_cmp_spec(&b) == Some(a.cmp_spec(&b)));
        assert(b.partial_cmp_spec(&a) == Some(b.cmp_spec(&a)));
    }
    assert forall|a: T, b: T| a.cmp_spec(&b) is Equal <==> a == b by {
        assert(a.partial_cmp_spec(&b) == Some(a.cmp_spec(&b)));
        assert(a.eq_spec(&b) <==> a == b);
    }
    assert forall|a: T, b: T| #[trigger] le(a, b) || le(b, a) by {
        if a.cmp_spec(&b) is Greater {
            assert(b.cmp_spec(&a) is Less);
        }
    }
    assert forall|a: T, b: T, c: T| #[trigger] le(a, b) && #[trigger] le(b, c) implies le(a, c) by {
        if a == b || b == c {
        } else {
            assert(a.cmp_spec(&b) is Less);
            assert(b.cmp_spec(&c) is Less);
            assert(a.partial_cmp_spec(&b) == Some(a.cmp_spec(&b)));
            assert(b.partial_cmp_spec(&c) == Some(b.cmp_spec(&c)));
            assert(a.partial_cmp_spec(&c) == Some(a.cmp_spec(&c)));
        }
    }
    assert(T::obeys_cmp_spec());
    assert(is_total_order(compare, le));
}

/// Sorts `positions` by the components of `data` they point at, comparing them with
/// `compare`.
///
/// Calls `slice::sort_unstable_by`; std documents that it reorders the slice and, when
/// `compare` is a total order, leaves it sorted by it, and that it may panic when `compare`
/// is not one.
#[verifier::external_body]
pub(crate) fn sort_positions_by<T, F: FnMut(&T, &T) -> Ordering>(positions: &mut Vec<usize>, data: &Vec<T>, mut compare: F)
    requires
        forall|k: int| 0 <= k < old(positions)@.len() ==> #[trigger] old(positions)@[k] < data@.len(),
        compares_totally(compare),
    ensures
        rearranged(final(positions)@, old(positions)@),
        forall|le: spec_fn(T, T) -> bool| #[trigger] is_total_order(compare, le) ==> sorted_by_le(permuted(data@, final(positions)@), le),
{
    positions.sort_unstable_by(|i, j| compare(&data[*i], &data[*j]));
}

/// The positions `0..n`, in order.
fn positions(n: usize) -> (v: Vec<usize>)
    ensures
        v@.len() == n,
        forall|k: int| 0 <= k < n ==> #[trigger] v@[k] == k,
{
    let mut v: Vec<usize> = Vec::new();
    let mut k: usize = 0;
    while k < n
        invariant
            k <= n,
            v@.len() == k,
            forall|m: int| 0 <= m < k ==> #[trigger] v@[m] == m,
        decreases n - k,
    {
        v.push(k);
        k += 1;
    }
    v
}

/// A rearrangement of the positions `0..n` lists each of them once.
proof fn lemma_rearranged_positions(t: Seq<usize>, id: Seq<usize>)
    requires
        rearranged(t, id),
        forall|k: int| 0 <= k < id.len() ==> #[trigger] id[k] == k,
    ensures
        is_permutation(t, id.len() as int),
{
    let s = choose|s: Seq<usize>| #![trigger is_permutation(s, id.len() as int)]
        is_permutation(s, id.len() as int) && t.len() == id.len()
        && forall|k: int| 0 <= k < t.len() ==> #[trigger] t[k] == id[s[k] as int];
    assert forall|k: int| 0 <= k < t.len() implies #[trigger] t[k] == s[k] by {
        assert(t[k] == id[s[k] as int]);
    }
}

impl<T> SparseSet<T> {
    /// Sorts the unclassified components with `compare`, a total order; every entity keeps
    /// its component and its timestamps.
    pub fn sort_unstable_by<F: FnMut(&T, &T) -> Ordering>(&mut self, compare: F)
        requires
            old(self).wf(),
            compares_totally(compare),
        ensures
            reordered(*old(self), *final(self)),
            forall|le: spec_fn(T, T) -> bool| #[trigger] is_total_order(compare, le)
                ==> sorted_by_le(final(self).unclassified_bucket.data@, le),
    {
        let n = self.unclassified_bucket.dense.len();
        let mut order = positions(n);
        let ghost id = order@;
        proof {
            assert(self.bucket(0).shape(self.is_tracking_insertion, self.is_tracking_modification));
        }
        let ghost data0 = self.unclassified_bucket.data@;
        sort_positions_by(&mut order, &self.unclassified_bucket.data, compare);
        proof {
            lemma_rearranged_positions(order@, id);
        }
        self.apply_order(&order);
        proof {
            assert(self.unclassified_bucket.data@ == permuted(data0, order@));
        }
    }

    /// Sorts the unclassified components in their order, which must be a total order;
    /// every entity keeps its component and its timestamps.
    pub fn sort_unstable(&mut self)
        where T: Ord,
        requires
            old(self).wf(),
            obeys_cmp::<T>(),
            obeys_concrete_eq::<T>(),
        ensures
            reordered(*old(self), *final(self)),
            sorted_by_cmp(final(self).unclassified_bucket.data@),
    {
        let compare = |a: &T, b: &T| -> (r: Ordering)
            ensures
                T::obeys_cmp_spec() ==> r == a.cmp_spec(b),
        { a.cmp(b) };
        proof {
            lemma_cmp_is_total::<T, _>(compare);
        }
        self.sort_unstable_by(compare);
        proof {
            assert(is_total_order(compare, |a: T, b: T| !(a.cmp_spec(&b) is Greater)));
        }
    }

    /// Returns `true` if insertion is tracked and `entity`'s component was inserted after
    /// `last` and no later than `current`.
    pub fn is_inserted(&self, entity: EntityId, last: TrackingTimestamp, current: TrackingTimestamp) -> (b: bool)
        requires
            self.wf(),
        ensures
            b == (self.is_tracking_insertion && self.get_spec(entity) is Some
                && self.insertion_at(entity.index as int).is_within_spec(last, current)),
    {
        if !self.is_tracking_insertion || entity.gen == DEAD_GEN {
            return false;
        }
        match self.bucket_position(entity) {
            Some(k) => {
                let b = self.sparse.bucket_index(entity);
                proof {
                    assert(!self.sparse.entry(entity.index as int).is_dead_spec());
                    assert(self.bucket(b.0 as int).shape(self.is_tracking_insertion, self.is_tracking_modification));
                }
                let t = if b.0 == 0 {
                    self.unclassified_bucket.insertion_data[k]
                } else {
                    self.group_buckets[(b.0 - 1) as usize].insertion_data[k]
                };
                t.is_within(last, current)
            },
            None => false,
        }
    }

    /// Returns `true` if modification is tracked and `entity`'s component was modified after
    /// `last` and no later than `current`.
    pub fn is_modified(&self, entity: EntityId, last: TrackingTimestamp, current: TrackingTimestamp) -> (b: bool)
        requires
            self.wf(),
        ensures
            b == (self.is_tracking_modification && self.get_spec(entity) is Some
                && self.modification_at(entity.index as int).is_within_spec(last, current)),
    {
        if !self.is_tracking_modification || entity.gen == DEAD_GEN {
            return false;
        }
        match self.bucket_position(entity) {
            Some(k) => {
                let b = self.sparse.bucket_index(entity);
                proof {
                    assert(!self.sparse.entry(entity.index as int).is_dead_spec());
                    assert(self.bucket(b.0 as int).shape(self.is_tracking_insertion, self.is_tracking_modification));
                }
                let t = if b.0 == 0 {
                    self.unclassified_bucket.modification_data[k]
                } else {
                    self.group_buckets[(b.0 - 1) as usize].modification_data[k]
                };
                t.is_within(last, current)
            },
            None => false,
        }
    }
}

/// Sorts one storage, once a way to sort is picked.
pub struct Sort1<'tmp, T>(pub &'tmp mut SparseSet<T>);

impl<T> SparseSet<T> {
    /// Prepares this storage to be sorted.
    pub fn sort(&mut self) -> (s: Sort1<'_, T>)
        ensures
            *s.0 == *old(self),
            *final(self) == *final(s.0),
    {
        Sort1(self)
    }
}

impl<'tmp, T> Sort1<'tmp, T> {
    /// Sorts the storage's unclassified components with `cmp`, a total order, by an unstable
    /// algorithm that may reorder equal components.
    pub fn unstable<F: FnMut(&T, &T) -> Ordering>(self, cmp: F)
        requires
            old(self.0).wf(),
            compares_totally(cmp),
        ensures
            reordered(*old(self.0), *final(self.0)),
            forall|le: spec_fn(T, T) -> bool| #[trigger] is_total_order(cmp, le)
                ==> sorted_by_le(final(self.0).unclassified_bucket.data@, le),
    {
        let Sort1(storage) = self;
        storage.sort_unstable_by(cmp);
    }
}

} // verus!
