//! Sorting the unclassified components of a sparse set.
use crate::entity_id::{EntityId, DEAD_GEN};
use crate::sparse_array::swap_at;
use crate::sparse_set::component_bucket::ComponentBucket;
use crate::sparse_set::set::SparseSet;
use crate::tracking::TrackingTimestamp;
use vstd::prelude::*;

verus! {

/// `t` lists each of the positions `0..n` once.
pub open spec fn is_permutation(t: Seq<usize>, n: int) -> bool {
    &&& t.len() == n
    &&& forall|k: int| 0 <= k < n ==> #[trigger] t[k] < n
    &&& forall|a: int, b: int| 0 <= a < b < n ==> t[a] != t[b]
}

/// `new` holds the elements of `old`, each once, in some order.
pub open spec fn rearranged<A>(new: Seq<A>, old: Seq<A>) -> bool {
    exists|s: Seq<usize>| #![trigger is_permutation(s, old.len() as int)]
        is_permutation(s, old.len() as int) && new.len() == old.len()
        && forall|k: int| 0 <= k < new.len() ==> #[trigger] new[k] == old[s[k] as int]
}

/// `v` reordered by `t`: its element `k` is the element `t[k]` of `v`.
pub open spec fn permuted<A>(v: Seq<A>, t: Seq<usize>) -> Seq<A> {
    Seq::new(t.len(), |k: int| v[t[k] as int])
}

/// `s` is `s0` with its unclassified components in another order: every entity keeps its
/// component and its timestamps, and the rest of the storage is unchanged.
pub open spec fn reordered<T>(s0: SparseSet<T>, s: SparseSet<T>) -> bool {
    &&& s.wf()
    &&& exists|t: Seq<usize>| #![trigger is_permutation(t, s0.unclassified_bucket.dense@.len() as int)]
        is_permutation(t, s0.unclassified_bucket.dense@.len() as int)
        && s.unclassified_bucket.dense@ == permuted(s0.unclassified_bucket.dense@, t)
        && s.unclassified_bucket.data@ == permuted(s0.unclassified_bucket.data@, t)
    &&& forall|i: int| #[trigger] s.view_at(i) == s0.view_at(i)
    &&& forall|i: int| s0.view_at(i) is Some && s0.is_tracking_insertion ==> #[trigger] s.insertion_at(i) == s0.insertion_at(i)
    &&& forall|i: int| s0.view_at(i) is Some && s0.is_tracking_modification ==> #[trigger] s.modification_at(i) == s0.modification_at(i)
    &&& s.group_buckets == s0.group_buckets
    &&& s.groups == s0.groups
    &&& s.sparse.pending_placement_pages == s0.sparse.pending_placement_pages
    &&& s.sparse.pending_placement_masks == s0.sparse.pending_placement_masks
    &&& s.deletion_data == s0.deletion_data
    &&& s.removal_data == s0.removal_data
    &&& s.is_tracking_insertion == s0.is_tracking_insertion
    &&& s.is_tracking_modification == s0.is_tracking_modification
    &&& s.is_tracking_deletion == s0.is_tracking_deletion
    &&& s.is_tracking_removal == s0.is_tracking_removal
}

/// Some position of `t` holds `p`.
pub open spec fn hits(t: Seq<usize>, p: int) -> bool {
    exists|q: int| 0 <= q < t.len() && t[q] == p
}

/// The positions `0..n`, in order.
fn identity(n: usize) -> (v: Vec<usize>)
    ensures
        v@.len() == n,
        forall|k: int| 0 <= k < n ==> #[trigger] v@[k] == k,
{
    let mut v: Vec<usize> = Vec::new();
    let mut k: usize = 0;
    while k < n
        invariant
            k <= n,
            v@.len() == k,
            forall|m: int| 0 <= m < k ==> #[trigger] v@[m] == m,
        decreases n - k,
    {
        v.push(k);
        k += 1;
    }
    v
}

impl<T> ComponentBucket<T> {
    /// Reorders the lists so that position `k` holds what position `t[k]` held; the
    /// tracking lists follow when they are kept.
    pub fn reorder(&mut self, t: &Vec<usize>, ins: bool, modif: bool)
        requires
            old(self).shape(ins, modif),
            is_permutation(t@, old(self).dense@.len() as int),
        ensures
            final(self).shape(ins, modif),
            final(self).dense@ == permuted(old(self).dense@, t@),
            final(self).data@ == permuted(old(self).data@, t@),
            ins ==> final(self).insertion_data@ == permuted(old(self).insertion_data@, t@),
            modif ==> final(self).modification_data@ == permuted(old(self).modification_data@, t@),
            !ins ==> final(self).insertion_data@.len() == 0,
            !modif ==> final(self).modification_data@.len() == 0,
            forall|p: int| 0 <= p < t@.len() ==> #[trigger] hits(t@, p),
    {
        let ghost b0 = *self;
        let n = self.dense.len();
        let mut at = identity(n);
        let mut loc = identity(n);
        let mut i: usize = 0;
        while i < n
            invariant
                i <= n,
                n == b0.dense@.len(),
                is_permutation(t@, n as int),
                self.shape(ins, modif),
                self.dense@.len() == n,
                at@.len() == n,
                loc@.len() == n,
                forall|q: int| 0 <= q < n ==> #[trigger] at@[q] < n && loc@[at@[q] as int] == q,
                forall|p: int| 0 <= p < n ==> #[trigger] loc@[p] < n && at@[loc@[p] as int] == p,
                forall|j: int| 0 <= j < i ==> #[trigger] at@[j] == t@[j],
                forall|q: int| 0 <= q < n ==> #[trigger] self.dense@[q] == b0.dense@[at@[q] as int],
                forall|q: int| 0 <= q < n ==> #[trigger] self.data@[q] == b0.data@[at@[q] as int],
                ins ==> forall|q: int| 0 <= q < n ==> #[trigger] self.insertion_data@[q] == b0.insertion_data@[at@[q] as int],
                modif ==> forall|q: int| 0 <= q < n ==> #[trigger] self.modification_data@[q] == b0.modification_data@[at@[q] as int],
                !ins ==> self.insertion_data@.len() == 0,
                !modif ==> self.modification_data@.len() == 0,
            decreases n - i,
        {
            let target = t[i];
            let p = loc[target];
            let a = at[i];
            proof {
                if p < i {
                    assert(at@[p as int] == t@[p as int]);
                    assert(t@[p as int] == t@[i as int]);
                }
            }
            swap_at(&mut self.dense, i, p);
            swap_at(&mut self.data, i, p);
            if ins {
                swap_at(&mut self.insertion_data, i, p);
            }
            if modif {
                swap_at(&mut self.modification_data, i, p);
            }
            let ghost at0 = at@;
            let ghost loc0 = loc@;
            at.set(i, target);
            at.set(p, a);
            loc.set(target, i);
            loc.set(a, p);
            proof {
                assert(at0[p as int] == target);
                assert(loc0[a as int] == i);
                assert forall|q: int| 0 <= q < n implies #[trigger] at@[q] < n && loc@[at@[q] as int] == q by {
                    if q != i && q != p {
                        assert(at@[q] == at0[q]);
                        assert(at0[q] != target && at0[q] != a);
                    }
                }
                assert forall|x: int| 0 <= x < n implies #[trigger] loc@[x] < n && at@[loc@[x] as int] == x by {
                    if x != target && x != a {
                        assert(loc@[x] == loc0[x]);
                        assert(loc0[x] != i && loc0[x] != p);
                    }
                }
            }
            i += 1;
        }
        proof {
            assert forall|p: int| 0 <= p < t@.len() implies #[trigger] hits(t@, p) by {
                let q = loc@[p] as int;
                assert(at@[q] == p);
                assert(t@[q] == p);
            }
            assert(self.dense@ =~= permuted(b0.dense@, t@));
            assert(self.data@ =~= permuted(b0.data@, t@));
            if ins {
                assert(self.insertion_data@ =~= permuted(b0.insertion_data@, t@));
            }
            if modif {
                assert(self.modification_data@ =~= permuted(b0.modification_data@, t@));
            }
        }
    }
}

impl<T> SparseSet<T> {
    /// Reorders the unclassified components so that position `k` holds the component that
    /// was at position `t[k]`; every entity keeps its component and its timestamps.
    pub fn apply_order(&mut self, t: &Vec<usize>)
        requires
            old(self).wf(),
            is_permutation(t@, old(self).unclassified_bucket.dense@.len() as int),
        ensures
            final(self).wf(),
            forall|i: int| #[trigger] final(self).view_at(i) == old(self).view_at(i),
            forall|i: int| old(self).view_at(i) is Some && old(self).is_tracking_insertion
                ==> #[trigger] final(self).insertion_at(i) == old(self).insertion_at(i),
            forall|i: int| old(self).view_at(i) is Some && old(self).is_tracking_modification
                ==> #[trigger] final(self).modification_at(i) == old(self).modification_at(i),
            final(self).unclassified_bucket.dense@ == permuted(old(self).unclassified_bucket.dense@, t@),
            final(self).unclassified_bucket.data@ == permuted(old(self).unclassified_bucket.data@, t@),
            final(self).group_buckets == old(self).group_buckets,
            final(self).groups == old(self).groups,
            final(self).deletion_data == old(self).deletion_data,
            final(self).removal_data == old(self).removal_data,
            final(self).is_tracking_insertion == old(self).is_tracking_insertion,
            final(self).is_tracking_modification == old(self).is_tracking_modification,
            final(self).is_tracking_deletion == old(self).is_tracking_deletion,
            final(self).is_tracking_removal == old(self).is_tracking_removal,
            final(self).sparse.pending_placement_pages == old(self).sparse.pending_placement_pages,
            final(self).sparse.pending_placement_masks == old(self).sparse.pending_placement_masks,
            final(self).sparse.removed_from_groups == old(self).sparse.removed_from_groups,
    {
        let ghost s0 = *old(self);
        let ghost d0 = s0.unclassified_bucket.dense@;
        let ins = self.is_tracking_insertion;
        let modif = self.is_tracking_modification;
        proof {
            assert(s0.bucket(0).shape(ins, modif));
        }
        self.unclassified_bucket.reorder(t, ins, modif);
        let n = self.unclassified_bucket.dense.len();
        let ghost d1 = self.unclassified_bucket.dense@;
        let ghost s1 = *self;
        let mut q: usize = 0;
        while q < n
            invariant
                q <= n,
                n == d1.len(),
                n == d0.len(),
                d1 == permuted(d0, t@),
                is_permutation(t@, n as int),
                s0.wf(),
                self.unclassified_bucket.dense@ == d1,
                s1.unclassified_bucket.dense@ == d1,
                *self == (SparseSet { sparse: self.sparse, ..s1 }),
                d0 == s0.unclassified_bucket.dense@,
                self.sparse.wf(),
                forall|i: int| #[trigger] self.sparse.bucket_of(i) == s0.sparse.bucket_of(i),
                forall|i: int| #[trigger] self.sparse.allocated(i) == s0.sparse.allocated(i),
                self.sparse.pending_placement_pages == s0.sparse.pending_placement_pages,
                self.sparse.pending_placement_masks == s0.sparse.pending_placement_masks,
                self.sparse.removed_from_groups == s0.sparse.removed_from_groups,
                forall|m: int| 0 <= m < q ==> #[trigger] self.sparse.entry(d1[m].index as int) == (EntityId { index: m as u32, gen: d1[m].gen }),
                forall|i: int| (forall|m: int| 0 <= m < q ==> #[trigger] d1[m].index != i) ==> #[trigger] self.sparse.entry(i) == s0.sparse.entry(i),
            decreases n - q,
        {
            let e = self.unclassified_bucket.dense[q];
            proof {
                assert(t@[q as int] < n);
                assert(d1[q as int] == d0[t@[q as int] as int]);
                assert(e == d1[q as int]);
                assert(s0.bucket(0).dense@[t@[q as int] as int] == e);
                assert(s0.sparse.allocated(e.index as int));
                assert forall|m: int| 0 <= m < q implies d1[m].index != e.index by {
                    let pm = t@[m] as int;
                    let pq = t@[q as int] as int;
                    assert(s0.bucket(0).dense@[pm] == d1[m]);
                    assert(pm != pq);
                    assert(s0.sparse.entry(d0[pm].index as int).index == pm);
                    assert(s0.sparse.entry(d0[pq].index as int).index == pq);
                }
            }
            let ghost before = self.sparse;
            self.sparse.set_entry(e, EntityId { index: q as u32, gen: e.gen });
            proof {
                assert forall|m: int| 0 <= m < q + 1 implies #[trigger] self.sparse.entry(d1[m].index as int) == (EntityId { index: m as u32, gen: d1[m].gen }) by {
                    if m < q {
                        assert(d1[m].index != e.index);
                    }
                }
                assert forall|i: int| (forall|m: int| 0 <= m < q + 1 ==> #[trigger] d1[m].index != i) implies #[trigger] self.sparse.entry(i) == s0.sparse.entry(i) by {
                    assert(d1[q as int].index != i);
                    assert(before.entry(i) == s0.sparse.entry(i));
                }
            }
            q += 1;
        }
        proof {
            lemma_reordered_wf(s0, *self, t@);
        }
    }
}

/// The storage `s` is `s0` with its unclassified components reordered by `t` and their
/// entries pointing at their new positions: it is consistent and holds the same components.
proof fn lemma_reordered_wf<T>(s0: SparseSet<T>, s: SparseSet<T>, t: Seq<usize>)
    requires
        s0.wf(),
        s.sparse.wf(),
        is_permutation(t, s0.unclassified_bucket.dense@.len() as int),
        forall|p: int| 0 <= p < t.len() ==> #[trigger] hits(t, p),
        s.unclassified_bucket.dense@ == permuted(s0.unclassified_bucket.dense@, t),
        s.unclassified_bucket.data@ == permuted(s0.unclassified_bucket.data@, t),
        s.unclassified_bucket.shape(s.is_tracking_insertion, s.is_tracking_modification),
        s.is_tracking_insertion ==> s.unclassified_bucket.insertion_data@ == permuted(s0.unclassified_bucket.insertion_data@, t),
        s.is_tracking_modification ==> s.unclassified_bucket.modification_data@ == permuted(s0.unclassified_bucket.modification_data@, t),
        s.group_buckets == s0.group_buckets,
        s.groups == s0.groups,
        s.is_tracking_insertion == s0.is_tracking_insertion,
        s.is_tracking_modification == s0.is_tracking_modification,
        forall|i: int| #[trigger] s.sparse.bucket_of(i) == s0.sparse.bucket_of(i),
        forall|i: int| #[trigger] s.sparse.allocated(i) == s0.sparse.allocated(i),
        forall|m: int| 0 <= m < t.len() ==> #[trigger] s.sparse.entry(s.unclassified_bucket.dense@[m].index as int)
            == (EntityId { index: m as u32, gen: s.unclassified_bucket.dense@[m].gen }),
        forall|i: int| (forall|m: int| 0 <= m < t.len() ==> #[trigger] s.unclassified_bucket.dense@[m].index != i)
            ==> #[trigger] s.sparse.entry(i) == s0.sparse.entry(i),
    ensures
        s.wf(),
        forall|i: int| #[trigger] s.view_at(i) == s0.view_at(i),
        forall|i: int| s0.view_at(i) is Some && s0.is_tracking_insertion ==> #[trigger] s.insertion_at(i) == s0.insertion_at(i),
        forall|i: int| s0.view_at(i) is Some && s0.is_tracking_modification ==> #[trigger] s.modification_at(i) == s0.modification_at(i),
{
    let d0 = s0.unclassified_bucket.dense@;
    let d1 = s.unclassified_bucket.dense@;
    let n = d0.len() as int;
    // Where an unclassified entity of `s0` is now.
    assert forall|i: int| s0.view_at(i) is Some && s0.sparse.bucket_of(i) == 0 implies {
        let p = s0.sparse.entry(i).index as int;
        exists|q: int| 0 <= q < n && t[q] == p && d1[q].index == i && s.sparse.entry(i) == (EntityId { index: q as u32, gen: s0.sparse.entry(i).gen })
    } by {
        let p = s0.sparse.entry(i).index as int;
        assert(p < n);
        assert(hits(t, p));
        let q = choose|q: int| 0 <= q < t.len() && t[q] == p;
        assert(d1[q] == d0[p]);
        assert(d0[p].index == i);
        assert(s0.sparse.entry(d0[p].index as int) == (EntityId { index: p as u32, gen: d0[p].gen }));
        assert(s.sparse.entry(d1[q].index as int) == (EntityId { index: q as u32, gen: d1[q].gen }));
    }
    // Entities listed in other buckets keep their entries.
    assert forall|i: int| !(s0.view_at(i) is Some && s0.sparse.bucket_of(i) == 0) implies #[trigger] s.sparse.entry(i) == s0.sparse.entry(i) by {
        assert forall|m: int| 0 <= m < t.len() implies #[trigger] d1[m].index != i by {
            let p = t[m] as int;
            assert(d1[m] == d0[p]);
            assert(s0.bucket(0).dense@[p] == d0[p]);
            assert(s0.sparse.entry(d0[p].index as int) == (EntityId { index: p as u32, gen: d0[p].gen }));
            assert(s0.sparse.bucket_of(d0[p].index as int) == 0);
        }
    }
    assert forall|b: int| s.valid_bucket(b) implies (#[trigger] s.bucket(b)).shape(s.is_tracking_insertion, s.is_tracking_modification)
        && s.bucket(b).dense@.len() < u32::MAX by {
        if b == 0 {
            assert(s0.bucket(0).dense@.len() < u32::MAX);
        } else {
            assert(s.bucket(b) == s0.bucket(b));
        }
    }
    assert forall|b: int, k: int| s.valid_bucket(b) && 0 <= k < s.bucket(b).dense@.len() implies {
        let e = #[trigger] s.bucket(b).dense@[k];
        &&& e.gen != DEAD_GEN
        &&& s.sparse.allocated(e.index as int)
        &&& s.sparse.entry(e.index as int) == (EntityId { index: k as u32, gen: e.gen })
        &&& s.sparse.bucket_of(e.index as int) == b
    } by {
        if b == 0 {
            let p = t[k] as int;
            assert(d1[k] == d0[p]);
            assert(s0.bucket(0).dense@[p] == d0[p]);
        } else {
            assert(s.bucket(b) == s0.bucket(b));
            let e = s0.bucket(b).dense@[k];
            assert(s0.sparse.bucket_of(e.index as int) == b);
            assert(s.sparse.entry(e.index as int) == s0.sparse.entry(e.index as int));
        }
    }
    assert forall|i: int| !(#[trigger] s.sparse.entry(i)).is_dead_spec() implies {
        let x = s.sparse.entry(i);
        let b = s.sparse.bucket_of(i) as int;
        &&& s.valid_bucket(b)
        &&& x.index < s.bucket(b).dense@.len()
        &&& s.bucket(b).dense@[x.index as int].index == i
    } by {
        if s0.view_at(i) is Some && s0.sparse.bucket_of(i) == 0 {
        } else {
            assert(s.sparse.entry(i) == s0.sparse.entry(i));
            if s0.sparse.bucket_of(i) != 0 {
                assert(s.bucket(s0.sparse.bucket_of(i) as int) == s0.bucket(s0.sparse.bucket_of(i) as int));
            }
        }
    }
    assert forall|i: int| (#[trigger] s.sparse.entry(i)).is_dead_spec() implies s.sparse.bucket_of(i) == 0 by {
        if s0.view_at(i) is Some && s0.sparse.bucket_of(i) == 0 {
        } else {
            assert(s.sparse.entry(i) == s0.sparse.entry(i));
        }
    }
    assert(s.wf());
    assert forall|i: int| #[trigger] s.view_at(i) == s0.view_at(i) by {
        if s0.view_at(i) is Some && s0.sparse.bucket_of(i) == 0 {
            let p = s0.sparse.entry(i).index as int;
            let q = choose|q: int| 0 <= q < n && t[q] == p && d1[q].index == i
                && s.sparse.entry(i) == (EntityId { index: q as u32, gen: s0.sparse.entry(i).gen });
            assert(s.unclassified_bucket.data@[q] == s0.unclassified_bucket.data@[p]);
        } else {
            assert(s.sparse.entry(i) == s0.sparse.entry(i));
            if s0.sparse.bucket_of(i) != 0 {
                assert(s.bucket(s0.sparse.bucket_of(i) as int) == s0.bucket(s0.sparse.bucket_of(i) as int));
            }
        }
    }
    assert forall|i: int| s0.view_at(i) is Some && s0.is_tracking_insertion implies #[trigger] s.insertion_at(i) == s0.insertion_at(i) by {
        if s0.sparse.bucket_of(i) == 0 {
            let p = s0.sparse.entry(i).index as int;
            let q = choose|q: int| 0 <= q < n && t[q] == p && d1[q].index == i
                && s.sparse.entry(i) == (EntityId { index: q as u32, gen: s0.sparse.entry(i).gen });
            assert(s.unclassified_bucket.insertion_data@[q] == s0.unclassified_bucket.insertion_data@[p]);
        } else {
            assert(s.sparse.entry(i) == s0.sparse.entry(i));
            assert(s.bucket(s0.sparse.bucket_of(i) as int) == s0.bucket(s0.sparse.bucket_of(i) as int));
        }
    }
    assert forall|i: int| s0.view_at(i) is Some && s0.is_tracking_modification implies #[trigger] s.modification_at(i) == s0.modification_at(i) by {
        if s0.sparse.bucket_of(i) == 0 {
            let p = s0.sparse.entry(i).index as int;
            let q = choose|q: int| 0 <= q < n && t[q] == p && d1[q].index == i
                && s.sparse.entry(i) == (EntityId { index: q as u32, gen: s0.sparse.entry(i).gen });
            assert(s.unclassified_bucket.modification_data@[q] == s0.unclassified_bucket.modification_data@[p]);
        } else {
            assert(s.sparse.entry(i) == s0.sparse.entry(i));
            assert(s.bucket(s0.sparse.bucket_of(i) as int) == s0.bucket(s0.sparse.bucket_of(i) as int));
        }
    }
}

} // verus!
