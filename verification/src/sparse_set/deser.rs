//! Rebuilding a sparse set from its serialized parts.
use crate::entity_id::{EntityId, DEAD_GEN};
use crate::sparse_set::component_bucket::ComponentBucket;
use crate::sparse_set::groups::Groups;
use crate::sparse_set::set::SparseSet;
use crate::sparse_set::sparse_array::{dead_entry, SparseArray};
use crate::tracking::TrackingTimestamp;
use vstd::prelude::*;

verus! {

/// The entities of `dense` have live generations and distinct indexes.
pub open spec fn well_listed(dense: Seq<EntityId>) -> bool {
    &&& forall|k: int| 0 <= k < dense.len() ==> (#[trigger] dense[k]).gen != DEAD_GEN
    &&& forall|k: int, m: int| 0 <= k < m < dense.len() ==> dense[k].index != dense[m].index
}

impl<T> SparseSet<T> {
    /// A storage holding, for each entity of `dense`, the component at the same position
    /// of `data`, in that order and tracking nothing; `None` when the lists differ in
    /// length, when `dense` lists a dead entity or an index twice, or when it is too long
    /// for positions to fit in an entity index.
    pub fn from_parts(dense: Vec<EntityId>, data: Vec<T>) -> (r: Option<SparseSet<T>>)
        ensures
            r is Some <==> dense@.len() == data@.len() && well_listed(dense@) && dense@.len() < u32::MAX,
            r matches Some(s) ==> {
                &&& s.wf()
                &&& s.unclassified_bucket.dense@ == dense@
                &&& s.unclassified_bucket.data@ == data@
                &&& s.group_buckets@.len() == 0
                &&& !s.is_tracking_insertion && !s.is_tracking_modification
                &&& !s.is_tracking_deletion && !s.is_tracking_removal
                &&& forall|k: int| 0 <= k < dense@.len() ==> #[trigger] s.view_at(dense@[k].index as int) == Some((dense@[k].gen, data@[k]))
                &&& forall|i: int| (forall|k: int| 0 <= k < dense@.len() ==> #[trigger] dense@[k].index != i) ==> s.view_at(i) is None
            },
    {
        if dense.len() != data.len() || dense.len() >= 0xffff_ffff {
            return None;
        }
        let mut sparse = SparseArray::new();
        let mut k: usize = 0;
        while k < dense.len()
            invariant
                k <= dense@.len(),
                dense@.len() < u32::MAX,
                sparse.wf(),
                sparse.pages@.len() >= 0,
                sparse.pending_placement_pages@.len() == 0,
                sparse.pending_placement_masks@.len() == 0,
                sparse.removed_from_groups@.len() == 0,
                well_listed(dense@.subrange(0, k as int)),
                forall|i: int| #[trigger] sparse.bucket_of(i) == 0,
                forall|m: int| 0 <= m < k ==> sparse.allocated((#[trigger] dense@[m]).index as int)
                    && sparse.entry(dense@[m].index as int) == (EntityId { index: m as u32, gen: dense@[m].gen }),
                forall|i: int| !(#[trigger] sparse.entry(i)).is_dead_spec() ==> exists|m: int| 0 <= m < k && dense@[m].index == i,
            decreases dense@.len() - k,
        {
            let e = dense[k];
            if e.gen == DEAD_GEN {
                proof {
                    assert(dense@[k as int].gen == DEAD_GEN);
                }
                return None;
            }
            sparse.allocate_at(e);
            let current = sparse.get(e);
            let taken = match current {
                Some(x) => !x.is_dead(),
                None => false,
            };
            if taken {
                proof {
                    let m = choose|m: int| 0 <= m < k && dense@[m].index == e.index;
                    assert(dense@[m].index == dense@[k as int].index);
                }
                return None;
            }
            let ghost before = sparse;
            sparse.set_entry(e, EntityId { index: k as u32, gen: e.gen });
            proof {
                assert forall|m: int| 0 <= m < k + 1 implies sparse.allocated((#[trigger] dense@[m]).index as int)
                    && sparse.entry(dense@[m].index as int) == (EntityId { index: m as u32, gen: dense@[m].gen }) by {
                    if m < k {
                        assert(dense@.subrange(0, k as int)[m] == dense@[m]);
                        assert(!before.entry(dense@[m].index as int).is_dead_spec());
                        assert(dense@[m].index != e.index);
                    }
                }
                assert forall|i: int| !(#[trigger] sparse.entry(i)).is_dead_spec() implies exists|m: int| 0 <= m < k + 1 && dense@[m].index == i by {
                    if i == e.index {
                        assert(dense@[k as int].index == i);
                    } else {
                        assert(sparse.entry(i) == before.entry(i));
                        let m = choose|m: int| 0 <= m < k && dense@[m].index == i;
                        assert(0 <= m < k + 1 && dense@[m].index == i);
                    }
                }
                let sub = dense@.subrange(0, k + 1);
                assert forall|a: int, b: int| 0 <= a < b < sub.len() implies sub[a].index != sub[b].index by {
                    if b < k {
                        assert(sub[a] == dense@.subrange(0, k as int)[a]);
                        assert(sub[b] == dense@.subrange(0, k as int)[b]);
                    } else {
                        assert(dense@.subrange(0, k as int)[a] == dense@[a]);
                        assert(!before.entry(dense@[a].index as int).is_dead_spec());
                        if dense@[a].index == e.index {
                            assert(before.entry(e.index as int).is_dead_spec());
                        }
                    }
                }
                assert forall|a: int| 0 <= a < sub.len() implies (#[trigger] sub[a]).gen != DEAD_GEN by {
                    if a < k {
                        assert(sub[a] == dense@.subrange(0, k as int)[a]);
                    }
                }
            }
            k += 1;
        }
        proof {
            assert(dense@.subrange(0, k as int) =~= dense@);
        }
        let s = SparseSet {
            sparse,
            unclassified_bucket: ComponentBucket { dense, data, insertion_data: Vec::new(), modification_data: Vec::new() },
            groups: Groups::new(),
            group_buckets: Vec::new(),
            last_insert: TrackingTimestamp::new(0),
            last_modified: TrackingTimestamp::new(0),
            deletion_data: Vec::new(),
            removal_data: Vec::new(),
            is_tracking_insertion: false,
            is_tracking_modification: false,
            is_tracking_deletion: false,
            is_tracking_removal: false,
        };
        proof {
            let d = s.unclassified_bucket.dense@;
            assert forall|b: int| s.valid_bucket(b) implies (#[trigger] s.bucket(b)).shape(false, false) && s.bucket(b).dense@.len() < u32::MAX by {}
            assert forall|b: int, m: int| s.valid_bucket(b) && 0 <= m < s.bucket(b).dense@.len() implies {
                let e = #[trigger] s.bucket(b).dense@[m];
                &&& e.gen != DEAD_GEN
                &&& s.sparse.allocated(e.index as int)
                &&& s.sparse.entry(e.index as int) == (EntityId { index: m as u32, gen: e.gen })
                &&& s.sparse.bucket_of(e.index as int) == b
            } by {
                assert(b == 0);
                assert(d[m] == dense@[m]);
            }
            assert forall|i: int| !(#[trigger] s.sparse.entry(i)).is_dead_spec() implies {
                let x = s.sparse.entry(i);
                let b = s.sparse.bucket_of(i) as int;
                &&& s.valid_bucket(b)
                &&& x.index < s.bucket(b).dense@.len()
                &&& s.bucket(b).dense@[x.index as int].index == i
            } by {
                let m = choose|m: int| 0 <= m < dense@.len() && dense@[m].index == i;
                assert(s.sparse.entry(dense@[m].index as int) == (EntityId { index: m as u32, gen: dense@[m].gen }));
            }
            assert forall|i: int| (forall|k: int| 0 <= k < dense@.len() ==> #[trigger] dense@[k].index != i) implies s.view_at(i) is None by {
                if !s.sparse.entry(i).is_dead_spec() {
                    let m = choose|m: int| 0 <= m < dense@.len() && dense@[m].index == i;
                    assert(dense@[m].index != i);
                }
            }
            assert forall|k: int| 0 <= k < dense@.len() implies #[trigger] s.view_at(dense@[k].index as int) == Some((dense@[k].gen, data@[k])) by {
                assert(s.sparse.entry(dense@[k].index as int) == (EntityId { index: k as u32, gen: dense@[k].gen }));
            }
        }
        Some(s)
    }
}

} // verus!
