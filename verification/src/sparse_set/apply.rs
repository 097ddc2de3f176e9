//! Running a function on two components of a sparse set at once.
use crate::entity_id::{EntityId, DEAD_GEN};
use crate::sparse_set::set::SparseSet;
use crate::tracking::TrackingTimestamp;
use vstd::prelude::*;

verus! {

impl<T> SparseSet<T> {
    /// `entity` owns a component, and it lies in the unclassified bucket.
    pub open spec fn owns_unclassified(&self, entity: EntityId) -> bool {
        &&& entity.gen != DEAD_GEN
        &&& self.get_spec(entity) is Some
        &&& self.sparse.bucket_of(entity.index as int) == 0
    }

    /// Position of the component of entity index `i` in its bucket.
    pub open spec fn position(&self, i: int) -> int {
        self.sparse.entry(i).index as int
    }

    /// `after` is `before` with the unclassified components at the positions of entity
    /// indexes `a` and `b` replaced by `va` and `vb`, and, when modification is tracked, the
    /// modification timestamp of each index in `touched` set to `current`.
    pub open spec fn applied(before: SparseSet<T>, after: SparseSet<T>, a: int, va: T, b: int, vb: T,
        touched: Set<int>, current: TrackingTimestamp) -> bool {
        let ka = before.position(a);
        let kb = before.position(b);
        &&& after.same_but_buckets(&before)
        &&& after.group_buckets == before.group_buckets
        &&& after.unclassified_bucket.dense == before.unclassified_bucket.dense
        &&& after.unclassified_bucket.insertion_data == before.unclassified_bucket.insertion_data
        &&& after.unclassified_bucket.data@ == before.unclassified_bucket.data@.update(ka, va).update(kb, vb)
        &&& after.unclassified_bucket.modification_data@.len() == before.unclassified_bucket.modification_data@.len()
        &&& forall|k: int| 0 <= k < after.unclassified_bucket.modification_data@.len() ==>
            #[trigger] after.unclassified_bucket.modification_data@[k] == (if (k == ka && touched.contains(a))
                || (k == kb && touched.contains(b)) { current } else { before.unclassified_bucket.modification_data@[k] })
    }

    /// Sets, when modification is tracked, the modification timestamp of the unclassified
    /// component at position `k`.
    fn touch(&mut self, k: usize, current: TrackingTimestamp)
        requires
            k < old(self).unclassified_bucket.dense@.len(),
            old(self).unclassified_bucket.shape(old(self).is_tracking_insertion, old(self).is_tracking_modification),
        ensures
            final(self).same_but_buckets(old(self)),
            final(self).group_buckets == old(self).group_buckets,
            final(self).unclassified_bucket.dense == old(self).unclassified_bucket.dense,
            final(self).unclassified_bucket.data == old(self).unclassified_bucket.data,
            final(self).unclassified_bucket.insertion_data == old(self).unclassified_bucket.insertion_data,
            final(self).unclassified_bucket.modification_data@ == (if old(self).is_tracking_modification {
                old(self).unclassified_bucket.modification_data@.update(k as int, current)
            } else {
                old(self).unclassified_bucket.modification_data@
            }),
    {
        if self.is_tracking_modification {
            self.unclassified_bucket.modification_data.set(k, current);
        }
    }

    /// Calls `f` with `a`'s component, to change, and `b`'s, to read. When modification is
    /// tracked, `a`'s component is marked modified at `current`.
    pub fn apply<R, F: FnOnce(&mut T, &T) -> R>(&mut self, a: EntityId, b: EntityId, f: F, current: TrackingTimestamp) -> (r: R)
        requires
            old(self).wf(),
            old(self).owns_unclassified(a),
            old(self).owns_unclassified(b),
            a.index != b.index,
            forall|x: &mut T, y: &T| call_requires(f, (x, y)),
        ensures
            final(self).wf(),
            exists|x: &mut T, y: &T| {
                &&& *x == old(self).get_spec(a)->0
                &&& *y == old(self).get_spec(b)->0
                &&& #[trigger] call_ensures(f, (x, y), r)
                &&& Self::applied(*old(self), *final(self), a.index as int, *final(x), b.index as int, *y,
                    (if old(self).is_tracking_modification { set![a.index as int] } else { Set::empty() }), current)
            },
            final(self).get_spec(b) == old(self).get_spec(b),
            forall|j: int| j != a.index ==> #[trigger] final(self).view_at(j) == old(self).view_at(j),
    {
        let ka = self.bucket_position(a).unwrap();
        let kb = self.bucket_position(b).unwrap();
        proof {
            self.lemma_unclassified_position(a);
            self.lemma_unclassified_position(b);
        }
        let ghost s1 = *self;
        self.touch(ka, current);
        let ghost s2 = *self;
        let data = self.unclassified_bucket.data.as_mut_slice();
        let (x, y) = if ka < kb {
            let (lo, hi) = data.split_at_mut(kb);
            (&mut lo[ka], &hi[0])
        } else {
            let (lo, hi) = data.split_at_mut(ka);
            (&mut hi[0], &lo[kb])
        };
        let ghost gx = x;
        let ghost gy = y;
        let r = f(x, y);
        proof {
            assert(self.unclassified_bucket.data@ =~= s2.unclassified_bucket.data@.update(ka as int, *final(gx)).update(kb as int, *gy));
            Self::lemma_applied(s1, *self, a.index as int, b.index as int);
            assert(Self::applied(s1, *self, a.index as int, *final(gx), b.index as int, *gy,
                (if s1.is_tracking_modification { set![a.index as int] } else { Set::empty() }), current));
        }
        r
    }

    /// Calls `f` with the components of `a` and `b`, both to change. When modification is
    /// tracked, both are marked modified at `current`.
    pub fn apply_mut<R, F: FnOnce(&mut T, &mut T) -> R>(&mut self, a: EntityId, b: EntityId, f: F, current: TrackingTimestamp) -> (r: R)
        requires
            old(self).wf(),
            old(self).owns_unclassified(a),
            old(self).owns_unclassified(b),
            a.index != b.index,
            forall|x: &mut T, y: &mut T| call_requires(f, (x, y)),
        ensures
            final(self).wf(),
            exists|x: &mut T, y: &mut T| {
                &&& *x == old(self).get_spec(a)->0
                &&& *y == old(self).get_spec(b)->0
                &&& #[trigger] call_ensures(f, (x, y), r)
                &&& Self::applied(*old(self), *final(self), a.index as int, *final(x), b.index as int, *final(y),
                    (if old(self).is_tracking_modification { set![a.index as int, b.index as int] } else { Set::empty() }), current)
            },
            forall|j: int| j != a.index && j != b.index ==> #[trigger] final(self).view_at(j) == old(self).view_at(j),
    {
        let ka = self.bucket_position(a).unwrap();
        let kb = self.bucket_position(b).unwrap();
        proof {
            self.lemma_unclassified_position(a);
            self.lemma_unclassified_position(b);
        }
        let ghost s1 = *self;
        self.touch(ka, current);
        self.touch(kb, current);
        let ghost s2 = *self;
        let data = self.unclassified_bucket.data.as_mut_slice();
        let (x, y) = if ka < kb {
            let (lo, hi) = data.split_at_mut(kb);
            (&mut lo[ka], &mut hi[0])
        } else {
            let (lo, hi) = data.split_at_mut(ka);
            (&mut hi[0], &mut lo[kb])
        };
        let ghost gx = x;
        let ghost gy = y;
        let r = f(x, y);
        proof {
            assert(self.unclassified_bucket.data@ =~= s2.unclassified_bucket.data@.update(ka as int, *final(gx)).update(kb as int, *final(gy)));
            Self::lemma_applied(s1, *self, a.index as int, b.index as int);
            assert(Self::applied(s1, *self, a.index as int, *final(gx), b.index as int, *final(gy),
                (if s1.is_tracking_modification { set![a.index as int, b.index as int] } else { Set::empty() }), current));
        }
        r
    }

    /// An entity owning an unclassified component finds it at its position, inside the
    /// unclassified bucket.
    proof fn lemma_unclassified_position(&self, e: EntityId)
        requires
            self.wf(),
            self.owns_unclassified(e),
        ensures
            0 <= self.position(e.index as int) < self.unclassified_bucket.dense@.len(),
            self.unclassified_bucket.dense@[self.position(e.index as int)].index == e.index,
            self.sparse.allocated(e.index as int),
            self.sparse.entry(e.index as int).gen == e.gen,
            self.get_spec(e) == Some(self.unclassified_bucket.data@[self.position(e.index as int)]),
    {
        assert(self.valid_bucket(0));
        assert(self.bucket(0).shape(self.is_tracking_insertion, self.is_tracking_modification));
    }

    /// Changing unclassified components in place, and their modification timestamps, keeps
    /// the storage consistent and every other index's component.
    proof fn lemma_applied(s1: SparseSet<T>, s2: SparseSet<T>, a: int, b: int)
        requires
            s1.wf(),
            s2.same_but_buckets(&s1),
            s2.group_buckets == s1.group_buckets,
            s2.unclassified_bucket.dense == s1.unclassified_bucket.dense,
            s2.unclassified_bucket.insertion_data == s1.unclassified_bucket.insertion_data,
            0 <= s1.position(a) < s1.unclassified_bucket.dense@.len(),
            0 <= s1.position(b) < s1.unclassified_bucket.dense@.len(),
            s1.unclassified_bucket.dense@[s1.position(a)].index == a,
            s1.unclassified_bucket.dense@[s1.position(b)].index == b,
            s2.unclassified_bucket.data@.len() == s1.unclassified_bucket.data@.len(),
            s2.unclassified_bucket.modification_data@.len() == s1.unclassified_bucket.modification_data@.len(),
            forall|k: int| 0 <= k < s1.unclassified_bucket.data@.len() && k != s1.position(a) && k != s1.position(b)
                ==> #[trigger] s2.unclassified_bucket.data@[k] == s1.unclassified_bucket.data@[k],
        ensures
            s2.wf(),
            forall|j: int| j != a && j != b ==> #[trigger] s2.view_at(j) == s1.view_at(j),
    {
        assert(s1.valid_bucket(0));
        assert forall|c: int| s2.valid_bucket(c) implies (#[trigger] s2.bucket(c)).dense == s1.bucket(c).dense by {
        }
        assert forall|j: int| j != a && j != b implies #[trigger] s2.view_at(j) == s1.view_at(j) by {
            if !s1.sparse.entry(j).is_dead_spec() && s1.sparse.bucket_of(j) == 0 {
                let k = s1.position(j);
                assert(s1.bucket(0).dense@[k].index == j);
                if k == s1.position(a) {
                    assert(s1.unclassified_bucket.dense@[k].index == a);
                }
                if k == s1.position(b) {
                    assert(s1.unclassified_bucket.dense@[k].index == b);
                }
            }
        }
    }
}

} // verus!
