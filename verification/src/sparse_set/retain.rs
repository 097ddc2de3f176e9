//! Keeping only the unclassified components that a predicate accepts.
use crate::entity_id::{EntityId, DEAD_GEN};
use crate::sparse_set::set::{swap_removed, SparseSet};
use crate::tracking::TrackingTimestamp;
use vstd::prelude::*;

verus! {

/// Entity index `j` owns a component of the unclassified bucket of `s`.
pub open spec fn unclassified_at<T>(s: SparseSet<T>, j: int) -> bool {
    s.view_at(j) is Some && s.sparse.bucket_of(j) == 0
}

/// The entity that owns the component of entity index `j` in `s`.
pub open spec fn owner_at<T>(s: SparseSet<T>, j: int) -> EntityId {
    EntityId { index: j as u32, gen: (s.view_at(j)->0).0 }
}

/// The component of entity index `j` in `s`.
pub open spec fn component_at<T>(s: SparseSet<T>, j: int) -> T {
    (s.view_at(j)->0).1
}

/// `f` was asked about the component of entity index `j` in `s` and answered `keep`.
pub open spec fn answered<T, F: FnMut(EntityId, &T) -> bool>(f: F, s: SparseSet<T>, j: int, keep: bool) -> bool {
    call_ensures(f, (owner_at(s, j), &component_at(s, j)), keep)
}

/// `s1` holds `s0`'s components but the unclassified ones that `f` refused; `f` was asked
/// about every unclassified component once.
pub open spec fn retained<T, F: FnMut(EntityId, &T) -> bool>(s0: SparseSet<T>, s1: SparseSet<T>, f: F) -> bool {
    forall|j: int| if unclassified_at(s0, j) {
        ||| #[trigger] s1.view_at(j) == s0.view_at(j) && answered(f, s0, j, true)
        ||| s1.view_at(j) is None && answered(f, s0, j, false)
    } else {
        s1.view_at(j) == s0.view_at(j)
    }
}

/// The deletions recorded in `s1` are those of `s0` followed by one for each unclassified
/// component of `s0` that is gone from `s1`: its owner, `current` and the component.
pub open spec fn logged_deletions<T>(s0: SparseSet<T>, s1: SparseSet<T>, current: TrackingTimestamp) -> bool {
    let base = s0.deletion_data@.len();
    let log = s1.deletion_data@;
    &&& base <= log.len()
    &&& log.subrange(0, base as int) == s0.deletion_data@
    &&& forall|m: int| base <= m < log.len() ==> {
        let j = (#[trigger] log[m]).0.index as int;
        &&& unclassified_at(s0, j)
        &&& s1.view_at(j) is None
        &&& log[m] == (owner_at(s0, j), current, component_at(s0, j))
    }
    &&& forall|m1: int, m2: int| base <= m1 < m2 < log.len() ==> (#[trigger] log[m1]).0.index != (#[trigger] log[m2]).0.index
    &&& forall|j: int| unclassified_at(s0, j) && #[trigger] s1.view_at(j) is None ==>
        exists|m: int| base <= m < log.len() && (#[trigger] log[m]).0.index == j
}

impl<T> SparseSet<T> {
    /// Deletes, with `current` as deletion time, every unclassified component that `f`
    /// refuses; `f` is asked about each of them once, with its entity.
    pub fn retain<F: FnMut(EntityId, &T) -> bool>(&mut self, current: TrackingTimestamp, f: F)
        requires
            old(self).wf(),
            forall|e: EntityId, v: &T| #[trigger] call_requires(f, (e, v)),
        ensures
            final(self).wf(),
            retained(*old(self), *final(self), f),
            final(self).removal_data == old(self).removal_data,
            if old(self).is_tracking_deletion {
                logged_deletions(*old(self), *final(self), current)
            } else {
                final(self).deletion_data == old(self).deletion_data
            },
    {
        let ghost s0 = *self;
        let mut f = f;
        let ghost f0 = f;
        let n = self.unclassified_bucket.dense.len();
        let mut removed: usize = 0;
        let mut t: usize = 0;
        proof {
            assert(s0.valid_bucket(0));
            assert(s0.deletion_data@.subrange(0, s0.deletion_data@.len() as int) =~= s0.deletion_data@);
        }
        while t < n
            invariant
                self.wf(),
                removed <= t <= n,
                n == s0.unclassified_bucket.dense@.len(),
                self.unclassified_bucket.dense@.len() == n - removed,
                self.group_buckets@.len() == s0.group_buckets@.len(),
                forall|c: int| 1 <= c <= s0.group_buckets@.len() ==> (#[trigger] self.bucket(c)).dense == s0.bucket(c).dense
                    && self.bucket(c).data == s0.bucket(c).data,
                f == f0,
                forall|e: EntityId, v: &T| #[trigger] call_requires(f0, (e, v)),
                s0.wf(),
                self.removal_data == s0.removal_data,
                self.is_tracking_deletion == s0.is_tracking_deletion,
                if s0.is_tracking_deletion {
                    logged_deletions(s0, *self, current)
                } else {
                    self.deletion_data == s0.deletion_data
                },
                forall|j: int| if unclassified_at(s0, j) {
                    ||| #[trigger] self.view_at(j) == s0.view_at(j) && self.sparse.bucket_of(j) == 0
                        && (self.sparse.entry(j).index < t - removed ==> answered(f0, s0, j, true))
                    ||| self.view_at(j) is None && answered(f0, s0, j, false)
                } else {
                    self.view_at(j) == s0.view_at(j)
                },
            decreases n - t,
        {
            let i = t - removed;
            let ghost s1 = *self;
            proof {
                assert(s1.valid_bucket(0));
                assert(s1.bucket(0).shape(s1.is_tracking_insertion, s1.is_tracking_modification));
            }
            let eid = self.unclassified_bucket.dense[i];
            let ghost j = eid.index as int;
            proof {
                assert(s1.bucket(0).dense@[i as int] == eid);
                assert(s1.view_at(j) == Some((eid.gen, s1.unclassified_bucket.data@[i as int])));
                if !unclassified_at(s0, j) {
                    assert(s1.view_at(j) == s0.view_at(j));
                    let c = s0.sparse.bucket_of(j) as int;
                    let k = s0.sparse.entry(j).index as int;
                    assert(s0.bucket(c).dense@[k].index == j);
                    assert(s1.bucket(c).dense@[k] == s0.bucket(c).dense@[k]);
                    assert(false);
                }
                assert(owner_at(s0, j) == eid);
            }
            let keep = f(eid, &self.unclassified_bucket.data[i]);
            if !keep {
                self.dyn_delete(eid, current);
                removed += 1;
                proof {
                    assert(swap_removed(s1, *self, j));
                    assert forall|j2: int| #[trigger] unclassified_at(s0, j2) && self.view_at(j2) is Some implies
                        self.sparse.bucket_of(j2) == 0 && (self.sparse.entry(j2).index < t + 1 - removed ==> answered(f0, s0, j2, true)) by {
                        assert(j2 != j);
                        assert(s1.view_at(j2) == self.view_at(j2));
                        let p = s1.sparse.entry(j2).index as int;
                        assert(s1.bucket(0).dense@[p].index == j2);
                        let l = s1.unclassified_bucket.dense@.len();
                        let q = if p == l - 1 { i as int } else { p };
                        assert(self.bucket(0).dense@[q] == s1.bucket(0).dense@[p]);
                    }
                    if s0.is_tracking_deletion {
                        let base = s0.deletion_data@.len();
                        let log = self.deletion_data@;
                        let log1 = s1.deletion_data@;
                        assert(log == log1.push((eid, current, s1.unclassified_bucket.data@[i as int])));
                        assert(log.subrange(0, base as int) =~= log1.subrange(0, base as int));
                        assert forall|m: int| base <= m < log.len() implies {
                            let j2 = (#[trigger] log[m]).0.index as int;
                            &&& unclassified_at(s0, j2)
                            &&& self.view_at(j2) is None
                            &&& log[m] == (owner_at(s0, j2), current, component_at(s0, j2))
                        } by {
                            if m < log.len() - 1 {
                                assert(log[m] == log1[m]);
                                let j2 = log1[m].0.index as int;
                                assert(s1.view_at(j2) is None);
                            }
                        }
                        assert forall|m1: int, m2: int| base <= m1 < m2 < log.len() implies
                            (#[trigger] log[m1]).0.index != (#[trigger] log[m2]).0.index by {
                            if m2 == log.len() - 1 {
                                assert(log[m1] == log1[m1]);
                                assert(s1.view_at(log1[m1].0.index as int) is None);
                            } else {
                                assert(log[m1] == log1[m1]);
                                assert(log[m2] == log1[m2]);
                            }
                        }
                        assert forall|j2: int| unclassified_at(s0, j2) && #[trigger] self.view_at(j2) is None implies
                            exists|m: int| base <= m < log.len() && (#[trigger] log[m]).0.index == j2 by {
                            if j2 == j {
                                assert(log[log.len() - 1].0.index == j2);
                            } else {
                                assert(s1.view_at(j2) is None);
                                let m = choose|m: int| base <= m < log1.len() && (#[trigger] log1[m]).0.index == j2;
                                assert(log[m] == log1[m]);
                            }
                        }
                    }
                }
            }
            t += 1;
        }
        proof {
            assert forall|j: int| #[trigger] unclassified_at(s0, j) && self.view_at(j) is Some implies answered(f0, s0, j, true) by {
                assert(!self.sparse.entry(j).is_dead_spec());
            }
        }
    }
}

} // verus!
