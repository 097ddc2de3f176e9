//! The sparse set: components of one type, found from their entity in constant time.
use crate::entity_id::{EntityId, DEAD_GEN};
use crate::sparse_set::bucket_index::BucketIndex;
use crate::sparse_set::component_bucket::ComponentBucket;
use crate::sparse_set::groups::Groups;
use crate::sparse_set::sparse_array::{dead_entry, SparseArray};
use crate::error::GetStorage;
use crate::tracking::{Tracking, TrackingTimestamp};
use vstd::prelude::*;

verus! {

/// Default component storage.
///
/// The sparse array maps each entity to the position of its component in one of the
/// buckets: the unclassified bucket, or the bucket of a group. For each component present,
/// `dense[sparse[entity]] == entity`.
#[derive(Debug)]
pub struct SparseSet<T> {
    pub sparse: SparseArray,
    pub unclassified_bucket: ComponentBucket<T>,
    pub groups: Groups,
    pub group_buckets: Vec<ComponentBucket<T>>,
    pub last_insert: TrackingTimestamp,
    pub last_modified: TrackingTimestamp,
    pub deletion_data: Vec<(EntityId, TrackingTimestamp, T)>,
    pub removal_data: Vec<(EntityId, TrackingTimestamp)>,
    pub is_tracking_insertion: bool,
    pub is_tracking_modification: bool,
    pub is_tracking_deletion: bool,
    pub is_tracking_removal: bool,
}

/// The components of `s1` are those of `s0` after `entity` was given `value`, which
/// replaces a component of the same or an older generation and is dropped in favour of one
/// of a newer generation; `r` says which happened.
pub open spec fn inserted<T>(s0: SparseSet<T>, s1: SparseSet<T>, entity: EntityId, value: T, r: InsertionResult<T>) -> bool {
    &&& forall|j: int| j != entity.index ==> #[trigger] s1.view_at(j) == s0.view_at(j)
    &&& match s0.view_at(entity.index as int) {
        None => r is Inserted && s1.view_at(entity.index as int) == Some((entity.gen, value)),
        Some((g, v)) => if g == entity.gen {
            r == InsertionResult::ComponentOverride(v) && s1.view_at(entity.index as int) == Some((entity.gen, value))
        } else if entity.gen > g {
            r is OtherComponentOverride && s1.view_at(entity.index as int) == Some((entity.gen, value))
        } else {
            r is NotInserted && s1.view_at(entity.index as int) == s0.view_at(entity.index as int)
        },
    }
}

/// The components of `s1` are those of `s0` after `entity`'s was taken out as `r`; other
/// indexes keep theirs.
pub open spec fn removed<T>(s0: SparseSet<T>, s1: SparseSet<T>, entity: EntityId, r: Option<T>) -> bool {
    &&& r == s0.get_spec(entity)
    &&& r is Some ==> s1.view_at(entity.index as int) is None
    &&& forall|j: int| j != entity.index ==> #[trigger] s1.view_at(j) == s0.view_at(j)
}

/// `s1`'s buckets are `s0`'s with the component of entity index `i` taken out of its
/// bucket, the last component of that bucket moved to its place.
pub open spec fn swap_removed<T>(s0: SparseSet<T>, s1: SparseSet<T>, i: int) -> bool {
    let b = s0.sparse.bucket_of(i) as int;
    let k = s0.sparse.entry(i).index as int;
    &&& s1.group_buckets@.len() == s0.group_buckets@.len()
    &&& s1.bucket(b).dense@ == s0.bucket(b).dense@.update(k, s0.bucket(b).dense@.last()).drop_last()
    &&& s1.bucket(b).data@ == s0.bucket(b).data@.update(k, s0.bucket(b).data@.last()).drop_last()
    &&& s0.is_tracking_insertion ==> s1.bucket(b).insertion_data@
            == s0.bucket(b).insertion_data@.update(k, s0.bucket(b).insertion_data@.last()).drop_last()
    &&& s0.is_tracking_modification ==> s1.bucket(b).modification_data@
            == s0.bucket(b).modification_data@.update(k, s0.bucket(b).modification_data@.last()).drop_last()
    &&& forall|c: int| c != b && s0.valid_bucket(c) ==> #[trigger] s1.bucket(c) == s0.bucket(c)
}

/// What a read gives back of a write: after `entity` was given `value` where no newer
/// generation held a component, `entity` has `value`.
pub proof fn law_get_after_insert<T>(s0: SparseSet<T>, s1: SparseSet<T>, entity: EntityId, value: T, r: InsertionResult<T>)
    requires
        inserted(s0, s1, entity, value, r),
        s0.view_at(entity.index as int) matches Some((g, _)) ==> g <= entity.gen,
    ensures
        s1.get_spec(entity) == Some(value),
        r.was_inserted_spec(),
{
}

/// Removing what was just inserted gives it back and leaves the components as they were
/// before the insertion.
pub proof fn law_remove_undoes_insert<T>(
    s0: SparseSet<T>,
    s1: SparseSet<T>,
    s2: SparseSet<T>,
    entity: EntityId,
    value: T,
    r1: InsertionResult<T>,
    r2: Option<T>,
)
    requires
        s0.view_at(entity.index as int) is None,
        inserted(s0, s1, entity, value, r1),
        removed(s1, s2, entity, r2),
    ensures
        r2 == Some(value),
        forall|j: int| #[trigger] s2.view_at(j) == s0.view_at(j),
{
    assert forall|j: int| #[trigger] s2.view_at(j) == s0.view_at(j) by {
        if j != entity.index {
            assert(s1.view_at(j) == s0.view_at(j));
        }
    }
}

/// A position given by [`SparseSet::index_of`] names its entity back through
/// [`SparseSet::id_at`], as long as the storage does not change.
pub proof fn law_id_at_index_of<T>(s: SparseSet<T>, entity: EntityId)
    requires
        s.wf(),
        s.get_spec(entity) is Some,
        s.all_dense().len() <= usize::MAX,
    ensures
        s.index_of_spec(entity) matches Some(i) && i < s.all_dense().len() && s.all_dense()[i as int] == entity,
{
    let i = entity.index as int;
    let x = s.sparse.entry(i);
    let b = s.sparse.bucket_of(i) as int;
    assert(!x.is_dead_spec());
    let k = x.index as int;
    s.lemma_dense_upto(b, s.group_buckets@.len() + 1 as int, k);
    let e = s.bucket(b).dense@[k];
    assert(s.sparse.entry(e.index as int) == (EntityId { index: k as u32, gen: e.gen }));
}

/// [`SparseSet::insert`]'s return value.
pub enum InsertionResult<T> {
    /// No component were present at this index.
    Inserted,
    /// The component was inserted. A component from the same entity was present.
    ComponentOverride(T),
    /// A component from an entity with a smaller generation was present.
    OtherComponentOverride,
    /// A component from an entity with a larger generation was present.
    NotInserted,
}

impl<T> InsertionResult<T> {
    pub open spec fn was_inserted_spec(&self) -> bool {
        !(self is NotInserted)
    }

    /// Returns `true` unless a newer component was present.
    pub fn was_inserted(&self) -> (b: bool)
        ensures
            b == self.was_inserted_spec(),
    {
        match self {
            InsertionResult::NotInserted => false,
            _ => true,
        }
    }

    /// Checks that the value was inserted; callers outside verified code that break the
    /// requirement stop with a panic.
    pub fn assert_inserted(&self)
        requires
            self.was_inserted_spec(),
    {
        vstd::pervasive::runtime_assert(self.was_inserted());
    }
}

impl<T> SparseSet<T> {
    /// Bucket `b` exists: 0 is the unclassified bucket, `g + 1` the bucket of group `g`.
    pub open spec fn valid_bucket(&self, b: int) -> bool {
        0 <= b <= self.group_buckets@.len()
    }

    /// The bucket of index `b`.
    pub open spec fn bucket(&self, b: int) -> ComponentBucket<T> {
        if b == 0 {
            self.unclassified_bucket
        } else {
            self.group_buckets@[b - 1]
        }
    }

    /// Every bucket's lists agree with the tracking in place.
    pub open spec fn buckets_wf(&self) -> bool {
        forall|b: int| self.valid_bucket(b) ==> (#[trigger] self.bucket(b)).shape(self.is_tracking_insertion, self.is_tracking_modification)
            && self.bucket(b).dense@.len() < u32::MAX
    }

    /// Each entity listed in a bucket is found back from the sparse array.
    pub open spec fn dense_to_sparse(&self) -> bool {
        forall|b: int, k: int| self.valid_bucket(b) && 0 <= k < self.bucket(b).dense@.len() ==> {
            let e = #[trigger] self.bucket(b).dense@[k];
            &&& e.gen != DEAD_GEN
            &&& self.sparse.allocated(e.index as int)
            &&& self.sparse.entry(e.index as int) == (EntityId { index: k as u32, gen: e.gen })
            &&& self.sparse.bucket_of(e.index as int) == b
        }
    }

    /// Each live entry of the sparse array points at its entity in a bucket.
    pub open spec fn sparse_to_dense(&self) -> bool {
        forall|i: int| !(#[trigger] self.sparse.entry(i)).is_dead_spec() ==> {
            let x = self.sparse.entry(i);
            let b = self.sparse.bucket_of(i) as int;
            &&& self.valid_bucket(b)
            &&& x.index < self.bucket(b).dense@.len()
            &&& self.bucket(b).dense@[x.index as int].index == i
        }
    }

    /// Entities without component are unclassified.
    pub open spec fn dead_unclassified(&self) -> bool {
        forall|i: int| (#[trigger] self.sparse.entry(i)).is_dead_spec() ==> self.sparse.bucket_of(i) == 0
    }

    /// The storage is consistent.
    pub open spec fn wf(&self) -> bool {
        &&& self.sparse.wf()
        &&& self.groups.wf()
        &&& self.group_buckets@.len() == self.groups.offsets@.len()
        &&& self.group_buckets@.len() < u16::MAX
        &&& self.buckets_wf()
        &&& self.dense_to_sparse()
        &&& self.sparse_to_dense()
        &&& self.dead_unclassified()
    }

    /// The component of entity index `i`, with the generation of its owner.
    pub open spec fn view_at(&self, i: int) -> Option<(u16, T)> {
        let x = self.sparse.entry(i);
        if x.is_dead_spec() {
            None
        } else {
            Some((x.gen, self.bucket(self.sparse.bucket_of(i) as int).data@[x.index as int]))
        }
    }

    /// The component owned by `entity`.
    pub open spec fn get_spec(&self, entity: EntityId) -> Option<T> {
        match self.view_at(entity.index as int) {
            Some((g, v)) => if g == entity.gen { Some(v) } else { None },
            None => None,
        }
    }

    /// The two storages agree on everything but their buckets.
    pub open spec fn same_but_buckets(&self, other: &SparseSet<T>) -> bool {
        &&& self.sparse == other.sparse
        &&& self.groups == other.groups
        &&& self.group_buckets@.len() == other.group_buckets@.len()
        &&& self.last_insert == other.last_insert
        &&& self.last_modified == other.last_modified
        &&& self.deletion_data == other.deletion_data
        &&& self.removal_data == other.removal_data
        &&& self.is_tracking_insertion == other.is_tracking_insertion
        &&& self.is_tracking_modification == other.is_tracking_modification
        &&& self.is_tracking_deletion == other.is_tracking_deletion
        &&& self.is_tracking_removal == other.is_tracking_removal
    }

    /// An empty storage, tracking what is asked.
    pub fn new(track_insertion: bool, track_modification: bool, track_deletion: bool, track_removal: bool) -> (s: SparseSet<T>)
        ensures
            s.wf(),
            forall|i: int| #[trigger] s.view_at(i) is None,
            s.unclassified_bucket.dense@.len() == 0,
            s.group_buckets@.len() == 0,
            s.deletion_data@.len() == 0,
            s.removal_data@.len() == 0,
            s.sparse.pending_placement_pages@.len() == 0,
            s.sparse.pending_placement_masks@.len() == 0,
            s.sparse.removed_from_groups@.len() == 0,
            s.is_tracking_insertion == track_insertion,
            s.is_tracking_modification == track_modification,
            s.is_tracking_deletion == track_deletion,
            s.is_tracking_removal == track_removal,
    {
        let s = SparseSet {
            sparse: SparseArray::new(),
            unclassified_bucket: ComponentBucket::new(),
            groups: Groups::new(),
            group_buckets: Vec::new(),
            last_insert: TrackingTimestamp::new(0),
            last_modified: TrackingTimestamp::new(0),
            deletion_data: Vec::new(),
            removal_data: Vec::new(),
            is_tracking_insertion: track_insertion,
            is_tracking_modification: track_modification,
            is_tracking_deletion: track_deletion,
            is_tracking_removal: track_removal,
        };
        proof {
            assert forall|i: int| #[trigger] s.view_at(i) is None by {
                assert(s.sparse.entry(i) == dead_entry());
            }
        }
        s
    }

    /// A new storage to be used as a custom storage, tracking nothing.
    pub fn new_custom_storage() -> (s: SparseSet<T>)
        ensures
            s.wf(),
            forall|i: int| #[trigger] s.view_at(i) is None,
            !s.is_tracking_insertion && !s.is_tracking_modification && !s.is_tracking_deletion && !s.is_tracking_removal,
    {
        SparseSet::new(false, false, false, false)
    }

    /// The entities of the buckets before bucket `b`, bucket after bucket.
    pub open spec fn dense_upto(&self, b: int) -> Seq<EntityId>
        decreases b,
    {
        if b <= 0 {
            Seq::empty()
        } else {
            self.dense_upto(b - 1) + self.bucket(b - 1).dense@
        }
    }

    /// The components of the buckets before bucket `b`, bucket after bucket.
    pub open spec fn data_upto(&self, b: int) -> Seq<T>
        decreases b,
    {
        if b <= 0 {
            Seq::empty()
        } else {
            self.data_upto(b - 1) + self.bucket(b - 1).data@
        }
    }

    /// Every entity owning a component: the unclassified bucket, then the group buckets.
    pub open spec fn all_dense(&self) -> Seq<EntityId> {
        self.dense_upto(self.group_buckets@.len() + 1 as int)
    }

    /// Every component, in the order of [`SparseSet::all_dense`].
    pub open spec fn all_data(&self) -> Seq<T> {
        self.data_upto(self.group_buckets@.len() + 1 as int)
    }

    /// Position of `entity`'s component among all the components, when it owns one.
    pub open spec fn index_of_spec(&self, entity: EntityId) -> Option<usize> {
        if self.get_spec(entity) is Some {
            Some((self.dense_upto(self.sparse.bucket_of(entity.index as int) as int).len()
                + self.sparse.entry(entity.index as int).index) as usize)
        } else {
            None
        }
    }

    /// Positions in bucket `b` are found at the same offset in every longer prefix.
    proof fn lemma_dense_upto(&self, b: int, m: int, k: int)
        requires
            0 <= b < m,
            0 <= k < self.bucket(b).dense@.len(),
        ensures
            self.dense_upto(b).len() + k < self.dense_upto(m).len(),
            self.dense_upto(m)[self.dense_upto(b).len() + k] == self.bucket(b).dense@[k],
        decreases m,
    {
        if m > b + 1 {
            self.lemma_dense_upto(b, m - 1, k);
        }
    }

    /// A prefix is no longer than a longer one.
    proof fn lemma_dense_upto_len(&self, b: int, m: int)
        requires
            0 <= b <= m,
        ensures
            self.dense_upto(b).len() <= self.dense_upto(m).len(),
        decreases m,
    {
        if m > b {
            self.lemma_dense_upto_len(b, m - 1);
        }
    }

    /// The lists of components follow those of entities.
    proof fn lemma_data_upto(&self, b: int)
        requires
            self.buckets_wf(),
            0 <= b <= self.group_buckets@.len() + 1,
        ensures
            self.data_upto(b).len() == self.dense_upto(b).len(),
        decreases b,
    {
        if b > 0 {
            self.lemma_data_upto(b - 1);
            assert(self.bucket(b - 1).shape(self.is_tracking_insertion, self.is_tracking_modification));
        }
    }

    /// The bucket of index `b`.
    fn bucket_ref(&self, b: usize) -> (r: &ComponentBucket<T>)
        requires
            self.valid_bucket(b as int),
        ensures
            *r == self.bucket(b as int),
    {
        if b == 0 {
            &self.unclassified_bucket
        } else {
            &self.group_buckets[b - 1]
        }
    }

    /// Number of components in the storage, grouped ones included.
    pub fn len(&self) -> (n: usize)
        requires
            self.wf(),
            self.all_dense().len() <= usize::MAX,
        ensures
            n == self.all_dense().len(),
    {
        let nb = self.group_buckets.len() + 1;
        let mut n: usize = 0;
        let mut b: usize = 0;
        while b < nb
            invariant
                nb == self.group_buckets@.len() + 1,
                b <= nb,
                n == self.dense_upto(b as int).len(),
                self.all_dense().len() <= usize::MAX,
            decreases nb - b,
        {
            proof {
                self.lemma_dense_upto_len(b + 1, nb as int);
            }
            n = n + self.bucket_ref(b).dense.len();
            b += 1;
        }
        n
    }

    /// Returns `true` if the storage holds no component.
    pub fn is_empty(&self) -> (r: bool)
        requires
            self.wf(),
        ensures
            r == (self.all_dense().len() == 0),
    {
        let nb = self.group_buckets.len() + 1;
        let mut b: usize = 0;
        while b < nb
            invariant
                nb == self.group_buckets@.len() + 1,
                b <= nb,
                self.dense_upto(b as int).len() == 0,
            decreases nb - b,
        {
            if self.bucket_ref(b).dense.len() > 0 {
                proof {
                    self.lemma_dense_upto_len(b + 1, nb as int);
                }
                return false;
            }
            b += 1;
        }
        true
    }

    /// All the components of the storage: the unclassified ones, then those of each group.
    pub fn as_slice(&self) -> (r: Vec<&T>)
        requires
            self.wf(),
        ensures
            r@.len() == self.all_data().len(),
            r@.len() == self.all_dense().len(),
            forall|i: int| 0 <= i < r@.len() ==> *r@[i] == self.all_data()[i],
    {
        proof {
            self.lemma_data_upto(self.group_buckets@.len() + 1 as int);
        }
        let nb = self.group_buckets.len() + 1;
        let mut r: Vec<&T> = Vec::new();
        let mut b: usize = 0;
        while b < nb
            invariant
                nb == self.group_buckets@.len() + 1,
                b <= nb,
                r@.len() == self.data_upto(b as int).len(),
                forall|i: int| 0 <= i < r@.len() ==> *r@[i] == self.data_upto(b as int)[i],
            decreases nb - b,
        {
            let bk = self.bucket_ref(b);
            let mut k: usize = 0;
            while k < bk.data.len()
                invariant
                    nb == self.group_buckets@.len() + 1,
                    b < nb,
                    *bk == self.bucket(b as int),
                    k <= bk.data@.len(),
                    r@.len() == self.data_upto(b as int).len() + k,
                    forall|i: int| 0 <= i < r@.len() ==> *r@[i] == (self.data_upto(b as int) + bk.data@)[i],
                decreases bk.data@.len() - k,
            {
                r.push(&bk.data[k]);
                k += 1;
            }
            assert(self.data_upto(b + 1) == self.data_upto(b as int) + bk.data@);
            b += 1;
        }
        r
    }

    /// Position of `entity`'s component in its bucket.
    pub fn bucket_position(&self, entity: EntityId) -> (r: Option<usize>)
        requires
            self.sparse.wf(),
        ensures
            r == (if self.sparse.allocated(entity.index as int) && self.sparse.entry(entity.index as int).gen == entity.gen
                && entity.gen != DEAD_GEN {
                Some(self.sparse.entry(entity.index as int).index as usize)
            } else {
                None::<usize>
            }),
    {
        if entity.is_dead() {
            return None;
        }
        match self.sparse.get(entity) {
            Some(e) => if e.gen == entity.gen { Some(e.uindex()) } else { None },
            None => None,
        }
    }

    /// Position of `entity`'s component among all the components of the storage, in the
    /// order of [`SparseSet::as_slice`]. The position is valid until the storage changes.
    pub fn index_of(&self, entity: EntityId) -> (r: Option<usize>)
        requires
            self.wf(),
            self.all_dense().len() <= usize::MAX,
        ensures
            r == self.index_of_spec(entity),
    {
        match self.bucket_position(entity) {
            Some(k) => {
                let b = self.sparse.bucket_index(entity);
                proof {
                    assert(!self.sparse.entry(entity.index as int).is_dead_spec());
                }
                let nb = b.0 as usize;
                let mut off: usize = 0;
                let mut c: usize = 0;
                while c < nb
                    invariant
                        nb <= self.group_buckets@.len(),
                        c <= nb,
                        off == self.dense_upto(c as int).len(),
                        self.all_dense().len() <= usize::MAX,
                    decreases nb - c,
                {
                    proof {
                        self.lemma_dense_upto_len(c + 1, self.group_buckets@.len() + 1 as int);
                    }
                    off = off + self.bucket_ref(c).dense.len();
                    c += 1;
                }
                proof {
                    self.lemma_dense_upto(nb as int, self.group_buckets@.len() + 1 as int, k as int);
                }
                Some(off + k)
            },
            None => None,
        }
    }

    /// Returns `true` if `entity` owns a component in this storage.
    pub fn contains(&self, entity: EntityId) -> (b: bool)
        requires
            self.wf(),
        ensures
            b == self.get_spec(entity) is Some,
    {
        self.bucket_position(entity).is_some()
    }

    /// The entity at `index` among all the entities of the storage, in the order of
    /// [`SparseSet::as_slice`].
    pub fn id_at(&self, index: usize) -> (r: Option<EntityId>)
        requires
            self.wf(),
        ensures
            r == (if index < self.all_dense().len() { Some(self.all_dense()[index as int]) } else { None::<EntityId> }),
    {
        let nb = self.group_buckets.len() + 1;
        let mut rest: usize = index;
        let mut b: usize = 0;
        while b < nb
            invariant
                nb == self.group_buckets@.len() + 1,
                b <= nb,
                rest + self.dense_upto(b as int).len() == index,
            decreases nb - b,
        {
            let bk = self.bucket_ref(b);
            if rest < bk.dense.len() {
                proof {
                    self.lemma_dense_upto(b as int, nb as int, rest as int);
                }
                return Some(bk.dense[rest]);
            }
            rest = rest - bk.dense.len();
            b += 1;
        }
        None
    }

    /// The component owned by `entity`.
    pub fn get(&self, entity: EntityId) -> (r: Option<&T>)
        requires
            self.wf(),
        ensures
            match self.get_spec(entity) {
                Some(v) => r == Some(&v),
                None => r is None,
            },
    {
        match self.bucket_position(entity) {
            Some(k) => {
                let b = self.sparse.bucket_index(entity);
                proof {
                    assert(!self.sparse.entry(entity.index as int).is_dead_spec());
                }
                if b.0 == 0 {
                    Some(&self.unclassified_bucket.data[k])
                } else {
                    Some(&self.group_buckets[(b.0 - 1) as usize].data[k])
                }
            },
            None => None,
        }
    }

    /// Insertion timestamp of the component of entity index `i`.
    pub open spec fn insertion_at(&self, i: int) -> TrackingTimestamp {
        self.bucket(self.sparse.bucket_of(i) as int).insertion_data@[self.sparse.entry(i).index as int]
    }

    /// Modification timestamp of the component of entity index `i`.
    pub open spec fn modification_at(&self, i: int) -> TrackingTimestamp {
        self.bucket(self.sparse.bucket_of(i) as int).modification_data@[self.sparse.entry(i).index as int]
    }

    /// Takes bucket `b` out, leaving an empty one in its place.
    fn take_bucket(&mut self, b: u16) -> (bk: ComponentBucket<T>)
        requires
            old(self).valid_bucket(b as int),
        ensures
            bk == old(self).bucket(b as int),
            final(self).same_but_buckets(old(self)),
            forall|c: int| c != b && old(self).valid_bucket(c) ==> #[trigger] final(self).bucket(c) == old(self).bucket(c),
            final(self).bucket(b as int).dense@.len() == 0,
            final(self).bucket(b as int).data@.len() == 0,
            final(self).bucket(b as int).insertion_data@.len() == 0,
            final(self).bucket(b as int).modification_data@.len() == 0,
            b == 0 ==> final(self).group_buckets == old(self).group_buckets,
    {
        let empty = ComponentBucket::new();
        if b == 0 {
            let mut bk = empty;
            std::mem::swap(&mut bk, &mut self.unclassified_bucket);
            bk
        } else {
            let g = (b - 1) as usize;
            let ghost before = self.group_buckets@;
            self.group_buckets.push(empty);
            let bk = self.group_buckets.swap_remove(g);
            proof {
                assert forall|c: int| c != b && old(self).valid_bucket(c) implies #[trigger] self.bucket(c) == old(self).bucket(c) by {
                    if c != 0 {
                        assert(self.group_buckets@[c - 1] == before[c - 1]);
                    }
                }
            }
            bk
        }
    }

    /// Puts `bk` in place of bucket `b`.
    fn put_bucket(&mut self, b: u16, bk: ComponentBucket<T>)
        requires
            old(self).valid_bucket(b as int),
        ensures
            final(self).bucket(b as int) == bk,
            final(self).same_but_buckets(old(self)),
            forall|c: int| c != b && old(self).valid_bucket(c) ==> #[trigger] final(self).bucket(c) == old(self).bucket(c),
    {
        if b == 0 {
            self.unclassified_bucket = bk;
        } else {
            let g = (b - 1) as usize;
            self.group_buckets.set(g, bk);
        }
    }

    /// Inserts `value` for `entity`.
    ///
    /// If `entity` had a component, the new one is considered modified; otherwise it is
    /// considered inserted. A component of an older generation is replaced; one of a newer
    /// generation is kept and nothing is inserted. An entity that gets a component of its
    /// own is marked to be placed in a group when the storage is grouped.
    pub fn insert(&mut self, entity: EntityId, value: T, current: TrackingTimestamp) -> (r: InsertionResult<T>)
        requires
            old(self).wf(),
            entity.gen != DEAD_GEN,
            old(self).unclassified_bucket.dense@.len() + 1 < u32::MAX,
        ensures
            final(self).wf(),
            final(self).groups == old(self).groups,
            final(self).deletion_data == old(self).deletion_data,
            final(self).removal_data == old(self).removal_data,
            final(self).is_tracking_insertion == old(self).is_tracking_insertion,
            final(self).is_tracking_modification == old(self).is_tracking_modification,
            final(self).is_tracking_deletion == old(self).is_tracking_deletion,
            final(self).is_tracking_removal == old(self).is_tracking_removal,
            final(self).sparse.removed_from_groups == old(self).sparse.removed_from_groups,
            inserted(*old(self), *final(self), entity, value, r),
            forall|j: int| j != entity.index ==> #[trigger] final(self).view_at(j) == old(self).view_at(j),
            forall|j: int| j != entity.index && old(self).view_at(j) is Some && old(self).is_tracking_insertion
                ==> #[trigger] final(self).insertion_at(j) == old(self).insertion_at(j),
            forall|j: int| j != entity.index && old(self).view_at(j) is Some && old(self).is_tracking_modification
                ==> #[trigger] final(self).modification_at(j) == old(self).modification_at(j),
            old(self).view_at(entity.index as int) is None ==> {
                &&& final(self).unclassified_bucket.dense@ == old(self).unclassified_bucket.dense@.push(entity)
                &&& final(self).unclassified_bucket.data@ == old(self).unclassified_bucket.data@.push(value)
                &&& final(self).group_buckets == old(self).group_buckets
            },
            r is NotInserted ==> {
                &&& final(self).unclassified_bucket == old(self).unclassified_bucket
                &&& final(self).group_buckets == old(self).group_buckets
                &&& forall|j: int| #[trigger] final(self).sparse.entry(j) == old(self).sparse.entry(j)
                &&& final(self).sparse.pending_placement_masks == old(self).sparse.pending_placement_masks
            },
            match old(self).view_at(entity.index as int) {
                None => {
                    &&& r is Inserted
                    &&& final(self).view_at(entity.index as int) == Some((entity.gen, value))
                    &&& final(self).is_tracking_insertion ==> final(self).insertion_at(entity.index as int) == current
                    &&& final(self).is_tracking_modification ==> final(self).modification_at(entity.index as int) == TrackingTimestamp(0)
                },
                Some((g, v)) => if g == entity.gen {
                    &&& r == InsertionResult::ComponentOverride(v)
                    &&& final(self).view_at(entity.index as int) == Some((entity.gen, value))
                    &&& final(self).is_tracking_modification ==> final(self).modification_at(entity.index as int) == current
                    &&& final(self).is_tracking_insertion ==> final(self).insertion_at(entity.index as int) == old(self).insertion_at(entity.index as int)
                } else if entity.gen > g {
                    &&& r is OtherComponentOverride
                    &&& final(self).view_at(entity.index as int) == Some((entity.gen, value))
                    &&& final(self).is_tracking_insertion ==> final(self).insertion_at(entity.index as int) == current
                    &&& final(self).is_tracking_modification ==> final(self).modification_at(entity.index as int) == old(self).modification_at(entity.index as int)
                } else {
                    &&& r is NotInserted
                    &&& final(self).view_at(entity.index as int) == old(self).view_at(entity.index as int)
                },
            },
            ({
                let placed = (old(self).view_at(entity.index as int) matches Some((g, _)) ==> entity.gen > g)
                    && old(self).groups.offsets@.len() > 0;
                &&& placed ==> final(self).sparse.mask(entity.bucket_spec()) == old(self).sparse.mask(entity.bucket_spec()) | (1u32 << (entity.bucket_index_spec() as u32))
                &&& placed ==> forall|p: int| p != entity.bucket_spec() ==> #[trigger] final(self).sparse.mask(p) == old(self).sparse.mask(p)
                &&& placed && old(self).sparse.mask(entity.bucket_spec()) == 0 ==> final(self).sparse.pending_placement_pages@
                    == old(self).sparse.pending_placement_pages@.push(entity.bucket_spec() as usize)
                &&& placed && old(self).sparse.mask(entity.bucket_spec()) != 0 ==> final(self).sparse.pending_placement_pages
                    == old(self).sparse.pending_placement_pages
                &&& !placed ==> final(self).sparse.pending_placement_masks == old(self).sparse.pending_placement_masks
                &&& !placed ==> final(self).sparse.pending_placement_pages == old(self).sparse.pending_placement_pages
            }),
    {
        let ghost s0 = *old(self);
        let ghost i = entity.index as int;
        self.sparse.allocate_at(entity);
        proof {
            lemma_same_layout(s0, *self);
        }
        let ghost s1 = *self;
        let x = match self.sparse.get(entity) {
            Some(x) => x,
            None => EntityId::dead(),
        };
        assert(x == self.sparse.entry(i));
        let mut should_set_pending_placement = false;
        let result;
        if x.is_dead() {
            let k = self.unclassified_bucket.dense.len();
            self.sparse.set_entry(entity, EntityId::new_from_index_and_gen(k as u32, entity.gen));
            let insertion = if self.is_tracking_insertion { Some(current) } else { None };
            let modification = if self.is_tracking_modification { Some(TrackingTimestamp::origin()) } else { None };
            self.unclassified_bucket.push(entity, value, insertion, modification);
            proof {
                assert(s1.bucket(0).shape(s1.is_tracking_insertion, s1.is_tracking_modification));
                assert(s1.sparse.bucket_of(i) == 0);
                assert(self.unclassified_bucket.data@.subrange(0, k as int) =~= s1.unclassified_bucket.data@);
                if self.is_tracking_insertion {
                    assert(self.unclassified_bucket.insertion_data@.subrange(0, k as int) =~= s1.unclassified_bucket.insertion_data@);
                }
                if self.is_tracking_modification {
                    assert(self.unclassified_bucket.modification_data@.subrange(0, k as int) =~= s1.unclassified_bucket.modification_data@);
                }
                lemma_insert_new(s1, *self, entity, k as int);
            }
            result = InsertionResult::Inserted;
            should_set_pending_placement = true;
        } else if entity.gen >= x.gen {
            let b = self.sparse.bucket_index(entity);
            let k = x.uindex();
            proof {
                assert(s1.valid_bucket(b.0 as int));
                assert(s1.bucket(b.0 as int).shape(s1.is_tracking_insertion, s1.is_tracking_modification));
            }
            let mut bk = self.take_bucket(b.0);
            let ghost s_mid = *self;
            let previous = bk.replace_data(k, value);
            bk.set_dense(k, entity);
            if entity.gen == x.gen {
                if self.is_tracking_modification {
                    bk.set_modification(k, current);
                }
            } else {
                if self.is_tracking_insertion {
                    bk.set_insertion(k, current);
                }
            }
            self.put_bucket(b.0, bk);
            let ghost s_put = *self;
            self.sparse.set_entry(entity, EntityId::new_from_index_and_gen(x.index, entity.gen));
            proof {
                assert forall|c: int| c != b.0 && s1.valid_bucket(c) implies #[trigger] self.bucket(c) == s1.bucket(c) by {
                    assert(s_put.bucket(c) == s_mid.bucket(c));
                    assert(s_mid.bucket(c) == s1.bucket(c));
                }
                lemma_insert_replace(s1, *self, entity, b.0 as int, k as int);
            }
            if entity.gen == x.gen {
                result = InsertionResult::ComponentOverride(previous);
            } else {
                result = InsertionResult::OtherComponentOverride;
                should_set_pending_placement = true;
            }
        } else {
            result = InsertionResult::NotInserted;
        }
        let ghost s2 = *self;
        if should_set_pending_placement && !self.groups.is_empty() {
            self.sparse.set_pending_placement(entity);
            proof {
                lemma_same_layout(s2, *self);
            }
        }
        result
    }

    /// Removes the component of `entity`'s index if its owner is not newer than `entity`,
    /// and returns it if it was `entity`'s own. A component leaving a group's bucket is
    /// recorded with its owner and group.
    pub fn actual_remove(&mut self, entity: EntityId) -> (r: Option<T>)
        requires
            old(self).wf(),
            entity.gen != DEAD_GEN,
        ensures
            final(self).wf(),
            final(self).groups == old(self).groups,
            final(self).deletion_data == old(self).deletion_data,
            final(self).removal_data == old(self).removal_data,
            final(self).is_tracking_insertion == old(self).is_tracking_insertion,
            final(self).is_tracking_modification == old(self).is_tracking_modification,
            final(self).is_tracking_deletion == old(self).is_tracking_deletion,
            final(self).is_tracking_removal == old(self).is_tracking_removal,
            final(self).sparse.pending_placement_pages == old(self).sparse.pending_placement_pages,
            final(self).sparse.pending_placement_masks == old(self).sparse.pending_placement_masks,
            forall|j: int| j != entity.index ==> #[trigger] final(self).view_at(j) == old(self).view_at(j),
            forall|j: int| j != entity.index && old(self).view_at(j) is Some && old(self).is_tracking_insertion
                ==> #[trigger] final(self).insertion_at(j) == old(self).insertion_at(j),
            forall|j: int| j != entity.index && old(self).view_at(j) is Some && old(self).is_tracking_modification
                ==> #[trigger] final(self).modification_at(j) == old(self).modification_at(j),
            match old(self).view_at(entity.index as int) {
                Some((g, v)) => if entity.gen >= g {
                    &&& final(self).view_at(entity.index as int) is None
                    &&& swap_removed(*old(self), *final(self), entity.index as int)
                    &&& r == (if g == entity.gen { Some(v) } else { None::<T> })
                    &&& ({
                        let b = old(self).sparse.bucket_of(entity.index as int);
                        let k = old(self).sparse.entry(entity.index as int).index;
                        if b == 0 {
                            final(self).sparse.removed_from_groups == old(self).sparse.removed_from_groups
                        } else {
                            final(self).sparse.removed_from_groups@ == old(self).sparse.removed_from_groups@.push(
                                (old(self).bucket(b as int).dense@[k as int], (b - 1) as usize))
                        }
                    })
                } else {
                    &&& r is None
                    &&& *final(self) == *old(self)
                },
                None => {
                    &&& r is None
                    &&& *final(self) == *old(self)
                },
            },
    {
        let ghost s1 = *old(self);
        let ghost i = entity.index as int;
        let x = match self.sparse.get(entity) {
            Some(x) => x,
            None => {
                return None;
            },
        };
        if x.is_dead() || entity.gen < x.gen {
            return None;
        }
        let b = self.sparse.bucket_index(entity);
        let k = x.uindex();
        proof {
            assert(s1.valid_bucket(b.0 as int));
            assert(s1.bucket(b.0 as int).shape(s1.is_tracking_insertion, s1.is_tracking_modification));
        }
        self.sparse.set_entry(entity, EntityId::dead());
        self.sparse.set_bucket_index(entity, BucketIndex::unclassified());
        let ghost s_a = *self;
        let ins = self.is_tracking_insertion;
        let modif = self.is_tracking_modification;
        let mut bk = self.take_bucket(b.0);
        let ghost s_mid = *self;
        let removed_entity = bk.dense[k];
        let (component, _, _) = bk.swap_remove(k, ins, modif);
        let replacement = if k < bk.dense.len() { Some(bk.dense[k]) } else { None };
        self.put_bucket(b.0, bk);
        let ghost s_put = *self;
        assert(s_put.sparse.entry(i).is_dead_spec());
        if let Some(rep) = replacement {
            proof {
                let last = s1.bucket(b.0 as int).dense@.len() - 1;
                assert(rep == s1.bucket(b.0 as int).dense@[last]);
                assert(s1.sparse.allocated(rep.index as int));
                assert(rep.index != entity.index) by {
                    assert(s1.sparse.entry(rep.index as int).index == last);
                }
            }
            let rep_entry = EntityId::new_from_index_and_gen(x.index, rep.gen);
            self.sparse.set_entry(rep, rep_entry);
            assert(self.sparse.entry(i) == s_put.sparse.entry(i));
        }
        let ghost s_rep = *self;
        if b.0 != 0 {
            self.sparse.removed_from_groups.push((removed_entity, (b.0 - 1) as usize));
        }
        proof {
            let l = s1.bucket(b.0 as int).dense@.len();
            let rep = s1.bucket(b.0 as int).dense@[l - 1];
            assert(s_put.sparse == s_a.sparse);
            if k < l - 1 {
                assert(replacement == Some(rep));
                assert(self.sparse.entry(rep.index as int) == s_rep.sparse.entry(rep.index as int));
            } else {
                assert(replacement is None);
            }
            assert forall|j: int| j != entity.index && !(k < l - 1 && j == rep.index) implies #[trigger] self.sparse.entry(j) == s1.sparse.entry(j) by {
                assert(self.sparse.entry(j) == s_rep.sparse.entry(j));
                assert(s_rep.sparse.entry(j) == s_put.sparse.entry(j));
                assert(s_a.sparse.entry(j) == s1.sparse.entry(j));
            }
            assert forall|j: int| j != entity.index implies #[trigger] self.sparse.bucket_of(j) == s1.sparse.bucket_of(j) by {
                assert(self.sparse.bucket_of(j) == s_rep.sparse.bucket_of(j));
                assert(s_rep.sparse.bucket_of(j) == s_put.sparse.bucket_of(j));
                assert(s_a.sparse.bucket_of(j) == s1.sparse.bucket_of(j));
            }
            assert forall|j: int| #[trigger] self.sparse.allocated(j) == s1.sparse.allocated(j) by {
                assert(self.sparse.allocated(j) == s_rep.sparse.allocated(j));
                assert(s_rep.sparse.allocated(j) == s_put.sparse.allocated(j));
                assert(s_a.sparse.allocated(j) == s1.sparse.allocated(j));
            }
            assert(self.sparse.bucket_of(i) == 0);
            assert forall|c: int| c != b.0 && s1.valid_bucket(c) implies #[trigger] self.bucket(c) == s1.bucket(c) by {
                assert(s_put.bucket(c) == s_mid.bucket(c));
                assert(s_mid.bucket(c) == s1.bucket(c));
            }
            lemma_remove(s1, *self, entity, b.0 as int, k as int);
        }
        if entity.gen == x.gen {
            Some(component)
        } else {
            None
        }
    }

    /// Removes `entity`'s component and records the removal when that is tracked.
    pub fn dyn_remove(&mut self, entity: EntityId, current: TrackingTimestamp) -> (r: Option<T>)
        requires
            old(self).wf(),
            entity.gen != DEAD_GEN,
        ensures
            final(self).wf(),
            forall|j: int| j != entity.index ==> #[trigger] final(self).view_at(j) == old(self).view_at(j),
            r == old(self).get_spec(entity),
            r is Some ==> final(self).view_at(entity.index as int) is None,
            removed(*old(self), *final(self), entity, r),
            final(self).deletion_data == old(self).deletion_data,
            r is Some && old(self).is_tracking_removal ==> final(self).removal_data@ == old(self).removal_data@.push((entity, current)),
            !(r is Some && old(self).is_tracking_removal) ==> final(self).removal_data == old(self).removal_data,
            match old(self).view_at(entity.index as int) {
                Some((g, v)) => if entity.gen >= g {
                    &&& swap_removed(*old(self), *final(self), entity.index as int)
                    &&& ({
                        let b = old(self).sparse.bucket_of(entity.index as int);
                        let k = old(self).sparse.entry(entity.index as int).index;
                        if b == 0 {
                            final(self).sparse.removed_from_groups == old(self).sparse.removed_from_groups
                        } else {
                            final(self).sparse.removed_from_groups@ == old(self).sparse.removed_from_groups@.push(
                                (old(self).bucket(b as int).dense@[k as int], (b - 1) as usize))
                        }
                    })
                } else {
                    *final(self) == *old(self)
                },
                None => *final(self) == *old(self),
            },
    {
        let component = self.actual_remove(entity);
        let ghost s1 = *self;
        if component.is_some() && self.is_tracking_removal {
            self.removal_data.push((entity, current));
            proof {
                lemma_same_layout(s1, *self);
                assert(forall|c: int| #[trigger] self.bucket(c) == s1.bucket(c));
            }
        }
        proof {
            if old(self).view_at(entity.index as int) matches Some((g, _)) && entity.gen >= g {
                assert(swap_removed(*old(self), s1, entity.index as int));
            }
        }
        component
    }

    /// Moves `from`'s component, if it has one, to `to` in the storage `other`, recording
    /// the removal here and the insertion there as each storage tracks them.
    pub fn move_component_from(&mut self, other: &mut SparseSet<T>, from: EntityId, to: EntityId, current: TrackingTimestamp, other_current: TrackingTimestamp)
        requires
            old(self).wf(),
            old(other).wf(),
            from.gen != DEAD_GEN,
            to.gen != DEAD_GEN,
            old(other).unclassified_bucket.dense@.len() + 1 < u32::MAX,
        ensures
            final(self).wf(),
            final(other).wf(),
            removed(*old(self), *final(self), from, old(self).get_spec(from)),
            match old(self).get_spec(from) {
                Some(v) => exists|r: InsertionResult<T>| inserted(*old(other), *final(other), to, v, r),
                None => *final(other) == *old(other),
            },
    {
        match self.dyn_remove(from, current) {
            Some(component) => {
                let ghost v = component;
                let r = other.insert(to, component, other_current);
                proof {
                    assert(inserted(*old(other), *other, to, v, r));
                }
            },
            None => {},
        }
    }

    /// Deletes `entity`'s component, keeping it when deletion is tracked.
    pub fn dyn_delete(&mut self, entity: EntityId, current: TrackingTimestamp) -> (deleted: bool)
        requires
            old(self).wf(),
            entity.gen != DEAD_GEN,
        ensures
            final(self).wf(),
            forall|j: int| j != entity.index ==> #[trigger] final(self).view_at(j) == old(self).view_at(j),
            deleted == old(self).get_spec(entity) is Some,
            deleted ==> final(self).view_at(entity.index as int) is None,
            deleted ==> swap_removed(*old(self), *final(self), entity.index as int),
            final(self).removal_data == old(self).removal_data,
            final(self).is_tracking_insertion == old(self).is_tracking_insertion,
            final(self).is_tracking_modification == old(self).is_tracking_modification,
            final(self).is_tracking_deletion == old(self).is_tracking_deletion,
            final(self).is_tracking_removal == old(self).is_tracking_removal,
            deleted && old(self).is_tracking_deletion ==> final(self).deletion_data@ == old(self).deletion_data@.push((entity, current, old(self).get_spec(entity)->0)),
            !(deleted && old(self).is_tracking_deletion) ==> final(self).deletion_data == old(self).deletion_data,
    {
        match self.actual_remove(entity) {
            Some(component) => {
                let ghost s1 = *self;
                if self.is_tracking_deletion {
                    self.deletion_data.push((entity, current, component));
                    proof {
                        lemma_same_layout(s1, *self);
                    }
                }
                proof {
                    assert forall|c: int| #[trigger] self.bucket(c) == s1.bucket(c) by {}
                }
                true
            },
            None => false,
        }
    }

    /// Same entities and components in every bucket.
    pub open spec fn same_components(&self, other: &SparseSet<T>) -> bool {
        &&& self.sparse == other.sparse
        &&& self.groups == other.groups
        &&& self.group_buckets@.len() == other.group_buckets@.len()
        &&& forall|c: int| self.valid_bucket(c) ==> (#[trigger] self.bucket(c)).dense == other.bucket(c).dense
            && self.bucket(c).data == other.bucket(c).data
    }

    /// Fills the tracking list of insertions, or of modifications, of every bucket with
    /// the origin timestamp.
    fn fill_tracking(&mut self, insertion: bool)
        requires
            old(self).wf(),
            insertion ==> !old(self).is_tracking_insertion,
            !insertion ==> !old(self).is_tracking_modification,
        ensures
            final(self).same_components(old(self)),
            final(self).is_tracking_deletion == old(self).is_tracking_deletion,
            final(self).is_tracking_removal == old(self).is_tracking_removal,
            final(self).deletion_data == old(self).deletion_data,
            final(self).removal_data == old(self).removal_data,
            final(self).is_tracking_insertion == (old(self).is_tracking_insertion || insertion),
            final(self).is_tracking_modification == (old(self).is_tracking_modification || !insertion),
            final(self).wf(),
            forall|j: int| #[trigger] final(self).view_at(j) == old(self).view_at(j),
    {
        let ghost s0 = *old(self);
        let n = self.group_buckets.len();
        let mut b: usize = 0;
        while b <= n
            invariant
                n == s0.group_buckets@.len(),
                n < u16::MAX,
                b <= n + 1,
                self.sparse == s0.sparse,
                self.groups == s0.groups,
                self.group_buckets@.len() == n,
                self.is_tracking_insertion == s0.is_tracking_insertion,
                self.is_tracking_modification == s0.is_tracking_modification,
                self.is_tracking_deletion == s0.is_tracking_deletion,
                self.is_tracking_removal == s0.is_tracking_removal,
                self.deletion_data == s0.deletion_data,
                self.removal_data == s0.removal_data,
                forall|c: int| self.valid_bucket(c) ==> (#[trigger] self.bucket(c)).dense == s0.bucket(c).dense
                    && self.bucket(c).data == s0.bucket(c).data,
                forall|c: int| 0 <= c < b ==> (#[trigger] self.bucket(c)).shape(
                    s0.is_tracking_insertion || insertion, s0.is_tracking_modification || !insertion),
                forall|c: int| b <= c <= n ==> #[trigger] self.bucket(c) == s0.bucket(c),
                s0.wf(),
            decreases n + 1 - b,
        {
            let ghost sb = *self;
            assert(s0.bucket(b as int).shape(s0.is_tracking_insertion, s0.is_tracking_modification));
            let mut bk = self.take_bucket(b as u16);
            let len = bk.dense.len();
            if insertion {
                while bk.insertion_data.len() < len
                    invariant
                        bk.insertion_data@.len() <= len,
                        len == bk.dense@.len(),
                        bk.dense == s0.bucket(b as int).dense,
                        bk.data == s0.bucket(b as int).data,
                        bk.modification_data == s0.bucket(b as int).modification_data,
                    decreases len - bk.insertion_data@.len(),
                {
                    bk.insertion_data.push(TrackingTimestamp::new(0));
                }
            } else {
                while bk.modification_data.len() < len
                    invariant
                        bk.modification_data@.len() <= len,
                        len == bk.dense@.len(),
                        bk.dense == s0.bucket(b as int).dense,
                        bk.data == s0.bucket(b as int).data,
                        bk.insertion_data == s0.bucket(b as int).insertion_data,
                    decreases len - bk.modification_data@.len(),
                {
                    bk.modification_data.push(TrackingTimestamp::new(0));
                }
            }
            let ghost sm = *self;
            self.put_bucket(b as u16, bk);
            proof {
                assert forall|c: int| self.valid_bucket(c) implies (#[trigger] self.bucket(c)).dense == s0.bucket(c).dense
                    && self.bucket(c).data == s0.bucket(c).data by {
                    if c != b {
                        assert(self.bucket(c) == sm.bucket(c));
                        assert(sm.bucket(c) == sb.bucket(c));
                    }
                }
                assert forall|c: int| 0 <= c < b + 1 implies (#[trigger] self.bucket(c)).shape(
                    s0.is_tracking_insertion || insertion, s0.is_tracking_modification || !insertion) by {
                    if c != b {
                        assert(self.bucket(c) == sm.bucket(c));
                        assert(sm.bucket(c) == sb.bucket(c));
                    }
                }
                assert forall|c: int| b + 1 <= c <= n implies #[trigger] self.bucket(c) == s0.bucket(c) by {
                    assert(self.bucket(c) == sm.bucket(c));
                    assert(sm.bucket(c) == sb.bucket(c));
                }
            }
            b += 1;
        }
        let ghost sl = *self;
        if insertion {
            self.is_tracking_insertion = true;
        } else {
            self.is_tracking_modification = true;
        }
        proof {
            let s = *self;
            assert forall|c: int| #[trigger] s.bucket(c) == sl.bucket(c) by {}
            assert(s.buckets_wf()) by {
                assert forall|c: int| s.valid_bucket(c) implies (#[trigger] s.bucket(c)).shape(s.is_tracking_insertion, s.is_tracking_modification)
                    && s.bucket(c).dense@.len() < u32::MAX by {
                    assert(s0.bucket(c).shape(s0.is_tracking_insertion, s0.is_tracking_modification));
                    assert(s.bucket(c) == sl.bucket(c));
                    assert(sl.bucket(c).dense == s0.bucket(c).dense);
                }
            }
            assert(s.dense_to_sparse()) by {
                assert forall|c: int, k: int| s.valid_bucket(c) && 0 <= k < s.bucket(c).dense@.len() implies {
                    let e = #[trigger] s.bucket(c).dense@[k];
                    &&& e.gen != DEAD_GEN
                    &&& s.sparse.allocated(e.index as int)
                    &&& s.sparse.entry(e.index as int) == (EntityId { index: k as u32, gen: e.gen })
                    &&& s.sparse.bucket_of(e.index as int) == c
                } by {
                    assert(s.bucket(c) == sl.bucket(c));
                    assert(sl.bucket(c).dense == s0.bucket(c).dense);
                    assert(s0.bucket(c).dense@[k] == s.bucket(c).dense@[k]);
                }
            }
            assert(s.sparse_to_dense()) by {
                assert forall|j: int| !(#[trigger] s.sparse.entry(j)).is_dead_spec() implies {
                    let x = s.sparse.entry(j);
                    let c = s.sparse.bucket_of(j) as int;
                    &&& s.valid_bucket(c)
                    &&& x.index < s.bucket(c).dense@.len()
                    &&& s.bucket(c).dense@[x.index as int].index == j
                } by {
                    assert(!s0.sparse.entry(j).is_dead_spec());
                    let c = s.sparse.bucket_of(j) as int;
                    assert(s.bucket(c) == sl.bucket(c));
                    assert(sl.bucket(c).dense == s0.bucket(c).dense);
                }
            }
            assert forall|j: int| #[trigger] s.view_at(j) == s0.view_at(j) by {
                if !s0.sparse.entry(j).is_dead_spec() {
                    let c = s.sparse.bucket_of(j) as int;
                    assert(s0.valid_bucket(c));
                    assert(s.bucket(c) == sl.bucket(c));
                    assert(sl.bucket(c).data == s0.bucket(c).data);
                }
            }
        }
    }

    /// Makes this storage track insertions; components present are given the origin timestamp.
    pub fn track_insertion(&mut self)
        requires
            old(self).wf(),
        ensures
            final(self).wf(),
            final(self).is_tracking_insertion,
            final(self).is_tracking_modification == old(self).is_tracking_modification,
            final(self).is_tracking_deletion == old(self).is_tracking_deletion,
            final(self).is_tracking_removal == old(self).is_tracking_removal,
            final(self).same_components(old(self)),
            forall|j: int| #[trigger] final(self).view_at(j) == old(self).view_at(j),
            old(self).is_tracking_insertion ==> *final(self) == *old(self),
    {
        if !self.is_tracking_insertion {
            self.fill_tracking(true);
        }
    }

    /// Makes this storage track modifications; components present are given the origin timestamp.
    pub fn track_modification(&mut self)
        requires
            old(self).wf(),
        ensures
            final(self).wf(),
            final(self).is_tracking_modification,
            final(self).is_tracking_insertion == old(self).is_tracking_insertion,
            final(self).is_tracking_deletion == old(self).is_tracking_deletion,
            final(self).is_tracking_removal == old(self).is_tracking_removal,
            final(self).same_components(old(self)),
            forall|j: int| #[trigger] final(self).view_at(j) == old(self).view_at(j),
            old(self).is_tracking_modification ==> *final(self) == *old(self),
    {
        if !self.is_tracking_modification {
            self.fill_tracking(false);
        }
    }

    /// Makes this storage track deletions.
    pub fn track_deletion(&mut self)
        requires
            old(self).wf(),
        ensures
            final(self).wf(),
            *final(self) == (SparseSet { is_tracking_deletion: true, ..*old(self) }),
    {
        let ghost s0 = *self;
        self.is_tracking_deletion = true;
        proof {
            lemma_same_layout(s0, *self);
        }
    }

    /// Makes this storage track removals.
    pub fn track_removal(&mut self)
        requires
            old(self).wf(),
        ensures
            final(self).wf(),
            *final(self) == (SparseSet { is_tracking_removal: true, ..*old(self) }),
    {
        let ghost s0 = *self;
        self.is_tracking_removal = true;
        proof {
            lemma_same_layout(s0, *self);
        }
    }

    /// Makes this storage track insertions, modifications, deletions and removals.
    pub fn track_all(&mut self)
        requires
            old(self).wf(),
        ensures
            final(self).wf(),
            final(self).is_tracking_insertion && final(self).is_tracking_modification,
            final(self).is_tracking_deletion && final(self).is_tracking_removal,
            final(self).same_components(old(self)),
            forall|j: int| #[trigger] final(self).view_at(j) == old(self).view_at(j),
            old(self).is_tracking_insertion && old(self).is_tracking_modification && old(self).is_tracking_deletion
                && old(self).is_tracking_removal ==> *final(self) == *old(self),
    {
        let ghost s0 = *self;
        self.track_insertion();
        let ghost sa = *self;
        self.track_modification();
        let ghost s1 = *self;
        self.track_deletion();
        self.track_removal();
        proof {
            lemma_same_layout(s1, *self);
            assert forall|c: int| self.valid_bucket(c) implies (#[trigger] self.bucket(c)).dense == s0.bucket(c).dense
                && self.bucket(c).data == s0.bucket(c).data by {
                assert(self.bucket(c) == s1.bucket(c));
                assert(s1.bucket(c).dense == sa.bucket(c).dense && s1.bucket(c).data == sa.bucket(c).data);
                assert(sa.bucket(c).dense == s0.bucket(c).dense && sa.bucket(c).data == s0.bucket(c).data);
            }
        }
    }

    /// `track` asks for no kind of tracking that this storage does not do.
    pub open spec fn tracks_all_of(&self, track: Tracking) -> bool {
        &&& track.insertion ==> self.is_tracking_insertion
        &&& track.modification ==> self.is_tracking_modification
        &&& track.deletion ==> self.is_tracking_deletion
        &&& track.removal ==> self.is_tracking_removal
    }

    /// Succeeds when the storage does every kind of tracking that `track` asks for.
    pub fn check_tracking(&self, track: Tracking) -> (r: Result<(), GetStorage>)
        ensures
            r == (if self.tracks_all_of(track) {
                Ok::<(), GetStorage>(())
            } else {
                Err(GetStorage::TrackingNotEnabled { tracking: track })
            }),
    {
        if (track.insertion && !self.is_tracking_insertion) || (track.modification && !self.is_tracking_modification)
            || (track.deletion && !self.is_tracking_deletion) || (track.removal && !self.is_tracking_removal) {
            return Err(GetStorage::TrackingNotEnabled { tracking: track });
        }
        Ok(())
    }

    /// Starts every kind of tracking that `track` asks for; the others stay as they were.
    pub fn enable_tracking(&mut self, track: Tracking)
        requires
            old(self).wf(),
        ensures
            final(self).wf(),
            final(self).is_tracking_insertion == (old(self).is_tracking_insertion || track.insertion),
            final(self).is_tracking_modification == (old(self).is_tracking_modification || track.modification),
            final(self).is_tracking_deletion == (old(self).is_tracking_deletion || track.deletion),
            final(self).is_tracking_removal == (old(self).is_tracking_removal || track.removal),
            forall|j: int| #[trigger] final(self).view_at(j) == old(self).view_at(j),
            old(self).tracks_all_of(track) ==> *final(self) == *old(self),
    {
        let ghost s0 = *self;
        if track.insertion {
            self.track_insertion();
        }
        let ghost s1 = *self;
        if track.modification {
            self.track_modification();
        }
        let ghost s2 = *self;
        if track.deletion {
            self.track_deletion();
        }
        if track.removal {
            self.track_removal();
        }
        proof {
            assert forall|j: int| #[trigger] self.view_at(j) == s0.view_at(j) by {
                assert(s1.view_at(j) == s0.view_at(j));
                assert(s2.view_at(j) == s1.view_at(j));
            }
        }
    }

    /// Returns `true` if the storage tracks insertion.
    pub fn is_tracking_insertion(&self) -> (b: bool)
        ensures
            b == self.is_tracking_insertion,
    {
        self.is_tracking_insertion
    }

    /// Returns `true` if the storage tracks modification.
    pub fn is_tracking_modification(&self) -> (b: bool)
        ensures
            b == self.is_tracking_modification,
    {
        self.is_tracking_modification
    }

    /// Returns `true` if the storage tracks deletion.
    pub fn is_tracking_deletion(&self) -> (b: bool)
        ensures
            b == self.is_tracking_deletion,
    {
        self.is_tracking_deletion
    }

    /// Returns `true` if the storage tracks removal.
    pub fn is_tracking_removal(&self) -> (b: bool)
        ensures
            b == self.is_tracking_removal,
    {
        self.is_tracking_removal
    }

    /// Returns `true` if the storage tracks anything.
    pub fn is_tracking_any(&self) -> (b: bool)
        ensures
            b == (self.is_tracking_insertion || self.is_tracking_modification || self.is_tracking_deletion
                || self.is_tracking_removal),
    {
        self.is_tracking_insertion || self.is_tracking_modification || self.is_tracking_deletion
            || self.is_tracking_removal
    }

    /// Removes the *inserted* flag on all components: later insertions only count as new.
    pub fn clear_all_inserted(&mut self, current: TrackingTimestamp)
        requires
            old(self).wf(),
        ensures
            final(self).wf(),
            *final(self) == (SparseSet { last_insert: current, ..*old(self) }),
    {
        let ghost s0 = *self;
        self.last_insert = current;
        proof {
            lemma_same_layout(s0, *self);
        }
    }

    /// Removes the *modified* flag on all components.
    pub fn clear_all_modified(&mut self, current: TrackingTimestamp)
        requires
            old(self).wf(),
        ensures
            final(self).wf(),
            *final(self) == (SparseSet { last_modified: current, ..*old(self) }),
    {
        let ghost s0 = *self;
        self.last_modified = current;
        proof {
            lemma_same_layout(s0, *self);
        }
    }

    /// Removes the *inserted* and *modified* flags on all components.
    pub fn clear_all_inserted_and_modified(&mut self, current: TrackingTimestamp)
        requires
            old(self).wf(),
        ensures
            final(self).wf(),
            *final(self) == (SparseSet { last_insert: current, last_modified: current, ..*old(self) }),
    {
        let ghost s0 = *self;
        self.last_insert = current;
        self.last_modified = current;
        proof {
            lemma_same_layout(s0, *self);
        }
    }

    /// Clears all deletion tracking data.
    pub fn clear_all_deleted(&mut self)
        requires
            old(self).wf(),
        ensures
            final(self).wf(),
            final(self).deletion_data@.len() == 0,
            *final(self) == (SparseSet { deletion_data: final(self).deletion_data, ..*old(self) }),
    {
        let ghost s0 = *self;
        self.deletion_data.clear();
        proof {
            lemma_same_layout(s0, *self);
        }
    }

    /// Clears all deletion tracking data older than `timestamp`.
    pub fn clear_all_deleted_older_than_timestamp(&mut self, timestamp: TrackingTimestamp)
        requires
            old(self).wf(),
        ensures
            final(self).wf(),
            final(self).deletion_data@ == newer_deletions(old(self).deletion_data@, timestamp),
            final(self).deletion_data@ == old(self).deletion_data@.filter(|r: (EntityId, TrackingTimestamp, T)| timestamp.is_older_than_spec(r.1)),
            *final(self) == (SparseSet { deletion_data: final(self).deletion_data, ..*old(self) }),
    {
        let ghost s0 = *self;
        let mut rest: Vec<(EntityId, TrackingTimestamp, T)> = Vec::new();
        std::mem::swap(&mut rest, &mut self.deletion_data);
        let ghost all = rest@;
        let total = rest.len();
        let mut k: usize = 0;
        while rest.len() > 0
            invariant
                k + rest@.len() == all.len(),
                all.len() == total,
                rest@ == all.subrange(k as int, all.len() as int),
                self.deletion_data@ == newer_deletions(all.subrange(0, k as int), timestamp),
                *self == (SparseSet { deletion_data: self.deletion_data, ..s0 }),
            decreases rest@.len(),
        {
            let x = rest.remove(0);
            assert(all.subrange(0, k + 1).drop_last() =~= all.subrange(0, k as int));
            assert(x == all[k as int]);
            if timestamp.is_older_than(x.1) {
                self.deletion_data.push(x);
            }
            assert(rest@ =~= all.subrange(k + 1, all.len() as int));
            k += 1;
        }
        assert(all.subrange(0, k as int) =~= all);
        proof {
            lemma_same_layout(s0, *self);
            law_newer_deletions(all, timestamp);
        }
    }

    /// Clears all removal tracking data.
    pub fn clear_all_removed(&mut self)
        requires
            old(self).wf(),
        ensures
            final(self).wf(),
            final(self).removal_data@.len() == 0,
            *final(self) == (SparseSet { removal_data: final(self).removal_data, ..*old(self) }),
    {
        let ghost s0 = *self;
        self.removal_data.clear();
        proof {
            lemma_same_layout(s0, *self);
        }
    }

    /// Clears all removal tracking data older than `timestamp`.
    pub fn clear_all_removed_older_than_timestamp(&mut self, timestamp: TrackingTimestamp)
        requires
            old(self).wf(),
        ensures
            final(self).wf(),
            final(self).removal_data@ == newer_removals(old(self).removal_data@, timestamp),
            final(self).removal_data@ == old(self).removal_data@.filter(|r: (EntityId, TrackingTimestamp)| timestamp.is_older_than_spec(r.1)),
            *final(self) == (SparseSet { removal_data: final(self).removal_data, ..*old(self) }),
    {
        let ghost s0 = *self;
        let mut kept: Vec<(EntityId, TrackingTimestamp)> = Vec::new();
        let ghost all = self.removal_data@;
        let mut k: usize = 0;
        while k < self.removal_data.len()
            invariant
                k <= all.len(),
                self.removal_data@ == all,
                kept@ == newer_removals(all.subrange(0, k as int), timestamp),
                *self == s0,
            decreases all.len() - k,
        {
            let x = self.removal_data[k];
            assert(all.subrange(0, k + 1).drop_last() =~= all.subrange(0, k as int));
            if timestamp.is_older_than(x.1) {
                kept.push(x);
            }
            k += 1;
        }
        assert(all.subrange(0, k as int) =~= all);
        self.removal_data = kept;
        proof {
            lemma_same_layout(s0, *self);
            law_newer_removals(all, timestamp);
        }
    }

    /// Clears all deletion and removal tracking data.
    pub fn clear_all_removed_and_deleted(&mut self)
        requires
            old(self).wf(),
        ensures
            final(self).wf(),
            final(self).deletion_data@.len() == 0,
            final(self).removal_data@.len() == 0,
            *final(self) == (SparseSet { deletion_data: final(self).deletion_data, removal_data: final(self).removal_data, ..*old(self) }),
    {
        self.clear_all_deleted();
        self.clear_all_removed();
    }

    /// Clears all deletion and removal tracking data older than `timestamp`.
    pub fn clear_all_removed_and_deleted_older_than_timestamp(&mut self, timestamp: TrackingTimestamp)
        requires
            old(self).wf(),
        ensures
            final(self).wf(),
            final(self).deletion_data@ == newer_deletions(old(self).deletion_data@, timestamp),
            final(self).removal_data@ == newer_removals(old(self).removal_data@, timestamp),
            final(self).deletion_data@ == old(self).deletion_data@.filter(|r: (EntityId, TrackingTimestamp, T)| timestamp.is_older_than_spec(r.1)),
            final(self).removal_data@ == old(self).removal_data@.filter(|r: (EntityId, TrackingTimestamp)| timestamp.is_older_than_spec(r.1)),
            *final(self) == (SparseSet { deletion_data: final(self).deletion_data, removal_data: final(self).removal_data, ..*old(self) }),
    {
        self.clear_all_deleted_older_than_timestamp(timestamp);
        self.clear_all_removed_older_than_timestamp(timestamp);
    }

    /// Reserves memory for at least `additional` more components in the unclassified bucket;
    /// what the storage holds does not change.
    pub fn reserve(&mut self, additional: usize)
        requires
            old(self).wf(),
        ensures
            final(self).wf(),
            forall|j: int| #[trigger] final(self).view_at(j) == old(self).view_at(j),
            final(self).unclassified_bucket.dense@ == old(self).unclassified_bucket.dense@,
            final(self).unclassified_bucket.data@ == old(self).unclassified_bucket.data@,
            final(self).unclassified_bucket.insertion_data == old(self).unclassified_bucket.insertion_data,
            final(self).unclassified_bucket.modification_data == old(self).unclassified_bucket.modification_data,
            final(self).sparse == old(self).sparse,
            final(self).groups == old(self).groups,
            final(self).group_buckets == old(self).group_buckets,
            final(self).last_insert == old(self).last_insert,
            final(self).last_modified == old(self).last_modified,
            final(self).deletion_data == old(self).deletion_data,
            final(self).removal_data == old(self).removal_data,
            final(self).is_tracking_insertion == old(self).is_tracking_insertion,
            final(self).is_tracking_modification == old(self).is_tracking_modification,
            final(self).is_tracking_deletion == old(self).is_tracking_deletion,
            final(self).is_tracking_removal == old(self).is_tracking_removal,
    {
        let ghost s0 = *self;
        self.unclassified_bucket.dense.reserve(additional);
        self.unclassified_bucket.data.reserve(additional);
        proof {
            lemma_same_layout(s0, *self);
        }
    }

    /// Kills the entries of the unclassified components and takes them out.
    fn take_unclassified(&mut self) -> (bk: ComponentBucket<T>)
        requires
            old(self).wf(),
        ensures
            final(self).wf(),
            bk == old(self).unclassified_bucket,
            final(self).unclassified_bucket.dense@.len() == 0,
            final(self).unclassified_bucket.data@.len() == 0,
            final(self).group_buckets == old(self).group_buckets,
            final(self).groups == old(self).groups,
            final(self).deletion_data == old(self).deletion_data,
            final(self).removal_data == old(self).removal_data,
            final(self).is_tracking_insertion == old(self).is_tracking_insertion,
            final(self).is_tracking_modification == old(self).is_tracking_modification,
            final(self).is_tracking_deletion == old(self).is_tracking_deletion,
            final(self).is_tracking_removal == old(self).is_tracking_removal,
            final(self).sparse.pending_placement_pages == old(self).sparse.pending_placement_pages,
            final(self).sparse.pending_placement_masks == old(self).sparse.pending_placement_masks,
            final(self).sparse.removed_from_groups == old(self).sparse.removed_from_groups,
            forall|j: int| #![trigger final(self).view_at(j)] old(self).view_at(j) is Some && old(self).sparse.bucket_of(j) == 0
                ==> final(self).view_at(j) is None,
            forall|j: int| #![trigger final(self).view_at(j)] !(old(self).view_at(j) is Some && old(self).sparse.bucket_of(j) == 0)
                ==> final(self).view_at(j) == old(self).view_at(j),
    {
        let ghost s0 = *old(self);
        let n = self.unclassified_bucket.dense.len();
        let mut k: usize = 0;
        while k < n
            invariant
                k <= n,
                n == s0.unclassified_bucket.dense@.len(),
                s0.wf(),
                self.sparse.wf(),
                self.unclassified_bucket == s0.unclassified_bucket,
                self.group_buckets == s0.group_buckets,
                self.groups == s0.groups,
                self.deletion_data == s0.deletion_data,
                self.removal_data == s0.removal_data,
                self.is_tracking_insertion == s0.is_tracking_insertion,
                self.is_tracking_modification == s0.is_tracking_modification,
                self.is_tracking_deletion == s0.is_tracking_deletion,
                self.is_tracking_removal == s0.is_tracking_removal,
                self.sparse.pending_placement_pages == s0.sparse.pending_placement_pages,
                self.sparse.pending_placement_masks == s0.sparse.pending_placement_masks,
                self.sparse.removed_from_groups == s0.sparse.removed_from_groups,
                forall|j: int| #[trigger] self.sparse.allocated(j) == s0.sparse.allocated(j),
                forall|j: int| #[trigger] self.sparse.bucket_of(j) == s0.sparse.bucket_of(j),
                forall|j: int| #![trigger self.sparse.entry(j)] listed_before(s0.unclassified_bucket.dense@, k as int, j) ==> self.sparse.entry(j) == dead_entry(),
                forall|j: int| #![trigger self.sparse.entry(j)] !listed_before(s0.unclassified_bucket.dense@, k as int, j) ==> self.sparse.entry(j) == s0.sparse.entry(j),
            decreases n - k,
        {
            let e = self.unclassified_bucket.dense[k];
            proof {
                assert(s0.bucket(0).dense@[k as int] == e);
            }
            let ghost before = self.sparse;
            self.sparse.set_entry(e, EntityId::dead());
            proof {
                assert forall|j: int| #![trigger self.sparse.entry(j)] listed_before(s0.unclassified_bucket.dense@, k + 1, j) implies self.sparse.entry(j) == dead_entry() by {
                    if j != e.index {
                        let m = choose|m: int| 0 <= m < k + 1 && s0.unclassified_bucket.dense@[m].index == j;
                        assert(listed_before(s0.unclassified_bucket.dense@, k as int, j));
                        assert(before.entry(j) == dead_entry());
                    }
                }
                assert forall|j: int| #![trigger self.sparse.entry(j)] !listed_before(s0.unclassified_bucket.dense@, k + 1, j) implies self.sparse.entry(j) == s0.sparse.entry(j) by {
                    assert(s0.unclassified_bucket.dense@[k as int].index == e.index);
                    if j == e.index {
                        assert(listed_before(s0.unclassified_bucket.dense@, k + 1, j));
                    }
                    assert(!listed_before(s0.unclassified_bucket.dense@, k as int, j));
                    assert(before.entry(j) == s0.sparse.entry(j));
                }
            }
            k += 1;
        }
        let ghost s1 = *self;
        let bk = self.take_bucket(0);
        proof {
            let s = *self;
            assert(s.bucket(0).dense@.len() == 0);
            assert forall|c: int| c != 0 implies #[trigger] s.bucket(c) == s0.bucket(c) by {}
            assert(s.buckets_wf()) by {
                assert forall|c: int| s.valid_bucket(c) implies (#[trigger] s.bucket(c)).shape(s.is_tracking_insertion, s.is_tracking_modification)
                    && s.bucket(c).dense@.len() < u32::MAX by {
                    assert(s0.bucket(c).shape(s0.is_tracking_insertion, s0.is_tracking_modification));
                }
            }
            assert(s.dense_to_sparse()) by {
                assert forall|c: int, kk: int| s.valid_bucket(c) && 0 <= kk < s.bucket(c).dense@.len() implies {
                    let e = #[trigger] s.bucket(c).dense@[kk];
                    &&& e.gen != DEAD_GEN
                    &&& s.sparse.allocated(e.index as int)
                    &&& s.sparse.entry(e.index as int) == (EntityId { index: kk as u32, gen: e.gen })
                    &&& s.sparse.bucket_of(e.index as int) == c
                } by {
                    let e = s0.bucket(c).dense@[kk];
                    assert(s0.sparse.bucket_of(e.index as int) == c);
                    if listed_before(s0.unclassified_bucket.dense@, n as int, e.index as int) {
                        let m = choose|m: int| 0 <= m < n && s0.unclassified_bucket.dense@[m].index == e.index;
                        let f = s0.bucket(0).dense@[m];
                        assert(s0.sparse.bucket_of(f.index as int) == 0);
                    }
                }
            }
            assert(s.sparse_to_dense()) by {
                assert forall|j: int| !(#[trigger] s.sparse.entry(j)).is_dead_spec() implies {
                    let x = s.sparse.entry(j);
                    let c = s.sparse.bucket_of(j) as int;
                    &&& s.valid_bucket(c)
                    &&& x.index < s.bucket(c).dense@.len()
                    &&& s.bucket(c).dense@[x.index as int].index == j
                } by {
                    assert(!listed_before(s0.unclassified_bucket.dense@, n as int, j));
                    assert(s.sparse.entry(j) == s0.sparse.entry(j));
                    let c = s0.sparse.bucket_of(j) as int;
                    let x = s0.sparse.entry(j);
                    if c == 0 {
                        assert(s0.unclassified_bucket.dense@[x.index as int].index == j);
                    }
                }
            }
            assert(s.dead_unclassified()) by {
                assert forall|j: int| (#[trigger] s.sparse.entry(j)).is_dead_spec() implies s.sparse.bucket_of(j) == 0 by {
                    if listed_before(s0.unclassified_bucket.dense@, n as int, j) {
                        let m = choose|m: int| 0 <= m < n && s0.unclassified_bucket.dense@[m].index == j;
                        let f = s0.bucket(0).dense@[m];
                        assert(s0.sparse.bucket_of(f.index as int) == 0);
                    } else {
                        assert(s0.sparse.entry(j).is_dead_spec());
                    }
                }
            }
            assert forall|j: int| #![trigger s.view_at(j)] s0.view_at(j) is Some && s0.sparse.bucket_of(j) == 0 implies s.view_at(j) is None by {
                let x = s0.sparse.entry(j);
                assert(s0.unclassified_bucket.dense@[x.index as int].index == j);
                assert(listed_before(s0.unclassified_bucket.dense@, n as int, j));
            }
            assert forall|j: int| #![trigger s.view_at(j)] !(s0.view_at(j) is Some && s0.sparse.bucket_of(j) == 0) implies s.view_at(j) == s0.view_at(j) by {
                if listed_before(s0.unclassified_bucket.dense@, n as int, j) {
                    let m = choose|m: int| 0 <= m < n && s0.unclassified_bucket.dense@[m].index == j;
                    let f = s0.bucket(0).dense@[m];
                    assert(s0.sparse.bucket_of(f.index as int) == 0);
                } else if !s0.sparse.entry(j).is_dead_spec() {
                    assert(s0.sparse.bucket_of(j) != 0);
                }
            }
        }
        bk
    }

    /// Deletes all unclassified components, keeping them as deleted when deletion is tracked.
    pub fn clear(&mut self, current: TrackingTimestamp)
        requires
            old(self).wf(),
        ensures
            final(self).wf(),
            final(self).unclassified_bucket.dense@.len() == 0,
            forall|j: int| #![trigger final(self).view_at(j)] old(self).view_at(j) is Some && old(self).sparse.bucket_of(j) == 0
                ==> final(self).view_at(j) is None,
            forall|j: int| #![trigger final(self).view_at(j)] !(old(self).view_at(j) is Some && old(self).sparse.bucket_of(j) == 0)
                ==> final(self).view_at(j) == old(self).view_at(j),
            final(self).removal_data == old(self).removal_data,
            old(self).is_tracking_deletion ==> final(self).deletion_data@ == old(self).deletion_data@
                + stamped(old(self).unclassified_bucket.dense@, old(self).unclassified_bucket.data@, current),
            !old(self).is_tracking_deletion ==> final(self).deletion_data == old(self).deletion_data,
    {
        proof {
            assert(old(self).bucket(0).shape(old(self).is_tracking_insertion, old(self).is_tracking_modification));
        }
        let bk = self.take_unclassified();
        if self.is_tracking_deletion {
            let ghost s1 = *self;
            let ComponentBucket { dense, data, insertion_data: _, modification_data: _ } = bk;
            let ghost d0 = dense@;
            let ghost v0 = data@;
            let mut data = data;
            let total = data.len();
            let mut k: usize = 0;
            while data.len() > 0
                invariant
                    k + data@.len() == v0.len(),
                    v0.len() == total,
                    v0.len() == d0.len(),
                    dense@ == d0,
                    data@ == v0.subrange(k as int, v0.len() as int),
                    self.deletion_data@ == s1.deletion_data@ + stamped(d0.subrange(0, k as int), v0.subrange(0, k as int), current),
                    *self == (SparseSet { deletion_data: self.deletion_data, ..s1 }),
                decreases data@.len(),
            {
                let v = data.remove(0);
                assert(v == v0[k as int]);
                self.deletion_data.push((dense[k], current, v));
                proof {
                    assert(d0.subrange(0, k + 1).drop_last() =~= d0.subrange(0, k as int));
                    assert(v0.subrange(0, k + 1).drop_last() =~= v0.subrange(0, k as int));
                    assert(data@ =~= v0.subrange(k + 1, v0.len() as int));
                    assert(self.deletion_data@ =~= s1.deletion_data@ + stamped(d0.subrange(0, k + 1), v0.subrange(0, k + 1), current));
                }
                k += 1;
            }
            proof {
                assert(d0.subrange(0, k as int) =~= d0);
                assert(v0.subrange(0, k as int) =~= v0);
                lemma_same_layout(s1, *self);
            }
        }
    }

    /// Empties the unclassified bucket and hands its entities and components out, recording
    /// the removals when they are tracked.
    pub fn drain(&mut self, current: TrackingTimestamp) -> (d: SparseSetDrain<T>)
        requires
            old(self).wf(),
        ensures
            final(self).wf(),
            final(self).unclassified_bucket.dense@.len() == 0,
            d.dense@ == old(self).unclassified_bucket.dense@,
            d.data@ == old(self).unclassified_bucket.data@,
            final(self).group_buckets == old(self).group_buckets,
            final(self).groups == old(self).groups,
            forall|j: int| #![trigger final(self).view_at(j)] old(self).view_at(j) is Some && old(self).sparse.bucket_of(j) == 0
                ==> final(self).view_at(j) is None,
            forall|j: int| #![trigger final(self).view_at(j)] !(old(self).view_at(j) is Some && old(self).sparse.bucket_of(j) == 0)
                ==> final(self).view_at(j) == old(self).view_at(j),
            final(self).deletion_data == old(self).deletion_data,
            old(self).is_tracking_removal ==> final(self).removal_data@ == old(self).removal_data@
                + stamped_ids(old(self).unclassified_bucket.dense@, current),
            !old(self).is_tracking_removal ==> final(self).removal_data == old(self).removal_data,
    {
        let bk = self.take_unclassified();
        let ComponentBucket { dense, data, insertion_data: _, modification_data: _ } = bk;
        if self.is_tracking_removal {
            let ghost s1 = *self;
            let mut k: usize = 0;
            while k < dense.len()
                invariant
                    k <= dense@.len(),
                    self.removal_data@ == s1.removal_data@ + stamped_ids(dense@.subrange(0, k as int), current),
                    *self == (SparseSet { removal_data: self.removal_data, ..s1 }),
                decreases dense@.len() - k,
            {
                self.removal_data.push((dense[k], current));
                proof {
                    assert(dense@.subrange(0, k + 1).drop_last() =~= dense@.subrange(0, k as int));
                    assert(self.removal_data@ =~= s1.removal_data@ + stamped_ids(dense@.subrange(0, k + 1), current));
                }
                k += 1;
            }
            proof {
                assert(dense@.subrange(0, k as int) =~= dense@);
                lemma_same_layout(s1, *self);
            }
        }
        SparseSetDrain { dense, data }
    }

    /// Adds a group of storages, with an empty bucket.
    pub fn add_group(&mut self, group: &Vec<crate::type_id::TypeId>)
        requires
            old(self).wf(),
            old(self).group_buckets@.len() + 1 < u16::MAX,
        ensures
            final(self).wf(),
            final(self).groups.offsets@.len() == old(self).groups.offsets@.len() + 1,
            final(self).groups.group(old(self).groups.offsets@.len() as int) == group@,
            forall|g: int| 0 <= g < old(self).groups.offsets@.len() ==> #[trigger] final(self).groups.group(g) == old(self).groups.group(g),
            forall|j: int| #[trigger] final(self).view_at(j) == old(self).view_at(j),
            final(self).group_buckets@.len() == old(self).group_buckets@.len() + 1,
            final(self).bucket(final(self).group_buckets@.len() as int).dense@.len() == 0,
            forall|c: int| old(self).valid_bucket(c) ==> #[trigger] final(self).bucket(c) == old(self).bucket(c),
            final(self).sparse == old(self).sparse,
            final(self).unclassified_bucket == old(self).unclassified_bucket,
            final(self).deletion_data == old(self).deletion_data,
            final(self).removal_data == old(self).removal_data,
            final(self).is_tracking_insertion == old(self).is_tracking_insertion,
            final(self).is_tracking_modification == old(self).is_tracking_modification,
            final(self).is_tracking_deletion == old(self).is_tracking_deletion,
            final(self).is_tracking_removal == old(self).is_tracking_removal,
    {
        let ghost s0 = *old(self);
        self.groups.add(group);
        self.group_buckets.push(ComponentBucket::new());
        proof {
            let s = *self;
            assert forall|c: int| s0.valid_bucket(c) implies #[trigger] s.bucket(c) == s0.bucket(c) by {
                if c != 0 {
                    assert(s.group_buckets@[c - 1] == s0.group_buckets@[c - 1]);
                }
            }
            let nb = s.group_buckets@.len() as int;
            assert(s.bucket(nb).dense@.len() == 0);
            assert(s.buckets_wf()) by {
                assert forall|c: int| s.valid_bucket(c) implies (#[trigger] s.bucket(c)).shape(s.is_tracking_insertion, s.is_tracking_modification)
                    && s.bucket(c).dense@.len() < u32::MAX by {
                    if c < nb {
                        assert(s0.bucket(c).shape(s0.is_tracking_insertion, s0.is_tracking_modification));
                    }
                }
            }
            assert(s.dense_to_sparse()) by {
                assert forall|c: int, k: int| s.valid_bucket(c) && 0 <= k < s.bucket(c).dense@.len() implies {
                    let e = #[trigger] s.bucket(c).dense@[k];
                    &&& e.gen != DEAD_GEN
                    &&& s.sparse.allocated(e.index as int)
                    &&& s.sparse.entry(e.index as int) == (EntityId { index: k as u32, gen: e.gen })
                    &&& s.sparse.bucket_of(e.index as int) == c
                } by {
                    assert(c < nb);
                    assert(s.bucket(c) == s0.bucket(c));
                    let e = s0.bucket(c).dense@[k];
                }
            }
            assert(s.sparse_to_dense()) by {
                assert forall|j: int| !(#[trigger] s.sparse.entry(j)).is_dead_spec() implies {
                    let x = s.sparse.entry(j);
                    let c = s.sparse.bucket_of(j) as int;
                    &&& s.valid_bucket(c)
                    &&& x.index < s.bucket(c).dense@.len()
                    &&& s.bucket(c).dense@[x.index as int].index == j
                } by {
                    assert(!s0.sparse.entry(j).is_dead_spec());
                    let c = s0.sparse.bucket_of(j) as int;
                    assert(s.bucket(c) == s0.bucket(c));
                }
            }
            assert forall|j: int| #[trigger] s.view_at(j) == s0.view_at(j) by {
                if !s0.sparse.entry(j).is_dead_spec() {
                    let c = s0.sparse.bucket_of(j) as int;
                    assert(s.bucket(c) == s0.bucket(c));
                }
            }
        }
    }

    /// Moves `entity`'s component, with its tracking data, to bucket `target`.
    pub fn move_entity_to_bucket(&mut self, entity: EntityId, target: BucketIndex)
        requires
            old(self).wf(),
            entity.gen != DEAD_GEN,
            old(self).get_spec(entity) is Some,
            old(self).valid_bucket(target.0 as int),
            old(self).bucket(target.0 as int).dense@.len() + 1 < u32::MAX,
        ensures
            final(self).wf(),
            forall|j: int| #[trigger] final(self).view_at(j) == old(self).view_at(j),
            final(self).sparse.bucket_of(entity.index as int) == target.0,
            final(self).bucket(target.0 as int).dense@.len() <= old(self).bucket(target.0 as int).dense@.len() + 1,
            old(self).sparse.bucket_of(entity.index as int) == target.0 ==> *final(self) == *old(self),
            ({
                let src = old(self).sparse.bucket_of(entity.index as int) as int;
                let k = old(self).sparse.entry(entity.index as int).index as int;
                let t = target.0 as int;
                src != t ==> {
                    &&& final(self).bucket(src).dense@ == old(self).bucket(src).dense@.update(k, old(self).bucket(src).dense@.last()).drop_last()
                    &&& final(self).bucket(src).data@ == old(self).bucket(src).data@.update(k, old(self).bucket(src).data@.last()).drop_last()
                    &&& final(self).bucket(t).dense@ == old(self).bucket(t).dense@.push(entity)
                    &&& final(self).bucket(t).data@ == old(self).bucket(t).data@.push(old(self).bucket(src).data@[k])
                    &&& final(self).sparse.entry(entity.index as int).index == old(self).bucket(t).dense@.len()
                    &&& forall|c: int| c != src && c != t && old(self).valid_bucket(c) ==> #[trigger] final(self).bucket(c) == old(self).bucket(c)
                }
            }),
            forall|c: int| c != target.0 && old(self).valid_bucket(c) ==> #[trigger] final(self).bucket(c).dense@.len() <= old(self).bucket(c).dense@.len(),
            forall|j: int| j != entity.index ==> #[trigger] final(self).sparse.bucket_of(j) == old(self).sparse.bucket_of(j),
            forall|j: int| old(self).view_at(j) is Some && old(self).is_tracking_insertion ==> #[trigger] final(self).insertion_at(j) == old(self).insertion_at(j),
            forall|j: int| old(self).view_at(j) is Some && old(self).is_tracking_modification ==> #[trigger] final(self).modification_at(j) == old(self).modification_at(j),
            final(self).groups == old(self).groups,
            final(self).group_buckets@.len() == old(self).group_buckets@.len(),
            final(self).deletion_data == old(self).deletion_data,
            final(self).removal_data == old(self).removal_data,
            final(self).sparse.removed_from_groups == old(self).sparse.removed_from_groups,
            final(self).sparse.pending_placement_pages == old(self).sparse.pending_placement_pages,
            final(self).sparse.pending_placement_masks == old(self).sparse.pending_placement_masks,
            final(self).is_tracking_insertion == old(self).is_tracking_insertion,
            final(self).is_tracking_modification == old(self).is_tracking_modification,
            final(self).is_tracking_deletion == old(self).is_tracking_deletion,
            final(self).is_tracking_removal == old(self).is_tracking_removal,
    {
        let ghost s1 = *old(self);
        let ghost i = entity.index as int;
        let x = match self.sparse.get(entity) {
            Some(x) => x,
            None => EntityId::dead(),
        };
        let source = self.sparse.bucket_index(entity);
        if source.0 == target.0 {
            return;
        }
        let k = x.uindex();
        proof {
            assert(s1.valid_bucket(source.0 as int));
            assert(s1.bucket(source.0 as int).shape(s1.is_tracking_insertion, s1.is_tracking_modification));
            assert(s1.bucket(target.0 as int).shape(s1.is_tracking_insertion, s1.is_tracking_modification));
        }
        let ins = self.is_tracking_insertion;
        let modif = self.is_tracking_modification;
        let mut bk = self.take_bucket(source.0);
        let ghost s_mid = *self;
        let (component, insertion, modification) = bk.swap_remove(k, ins, modif);
        let replacement = if k < bk.dense.len() { Some(bk.dense[k]) } else { None };
        self.put_bucket(source.0, bk);
        let ghost s_put = *self;
        if let Some(rep) = replacement {
            proof {
                let last = s1.bucket(source.0 as int).dense@.len() - 1;
                assert(rep == s1.bucket(source.0 as int).dense@[last]);
                assert(s1.sparse.allocated(rep.index as int));
                assert(rep.index != entity.index) by {
                    assert(s1.sparse.entry(rep.index as int).index == last);
                }
            }
            self.sparse.set_entry(rep, EntityId::new_from_index_and_gen(x.index, rep.gen));
        }
        let ghost s_rep = *self;
        let mut tk = self.take_bucket(target.0);
        let ghost s_t = *self;
        let target_index = tk.dense.len();
        tk.push(entity, component, insertion, modification);
        self.put_bucket(target.0, tk);
        let ghost s_t2 = *self;
        self.sparse.set_entry(entity, EntityId::new_from_index_and_gen(target_index as u32, x.gen));
        let ghost s_e = *self;
        self.sparse.set_bucket_index(entity, target);
        proof {
            let l = s1.bucket(source.0 as int).dense@.len();
            let rep = s1.bucket(source.0 as int).dense@[l - 1];
            assert(s_put.sparse == s1.sparse);
            assert(s_t.sparse == s_rep.sparse);
            assert(s_t2.sparse == s_t.sparse);
            assert(x == s1.sparse.entry(entity.index as int));
            assert(s_rep.bucket(target.0 as int) == s1.bucket(target.0 as int)) by {
                assert(s_rep.bucket(target.0 as int) == s_put.bucket(target.0 as int));
                assert(s_put.bucket(target.0 as int) == s_mid.bucket(target.0 as int));
            }
            assert(s_put.bucket(source.0 as int) == self.bucket(source.0 as int)) by {
                assert(self.bucket(source.0 as int) == s_e.bucket(source.0 as int));
                assert(s_e.bucket(source.0 as int) == s_t2.bucket(source.0 as int));
                assert(s_t2.bucket(source.0 as int) == s_t.bucket(source.0 as int));
                assert(s_t.bucket(source.0 as int) == s_rep.bucket(source.0 as int));
            }
            if k < l - 1 {
                assert(replacement == Some(rep));
                assert(self.sparse.entry(rep.index as int) == s_e.sparse.entry(rep.index as int));
                assert(s_e.sparse.entry(rep.index as int) == s_t2.sparse.entry(rep.index as int));
            } else {
                assert(replacement is None);
            }
            assert forall|j: int| j != entity.index && !(k < l - 1 && j == rep.index) implies #[trigger] self.sparse.entry(j) == s1.sparse.entry(j) by {
                assert(self.sparse.entry(j) == s_e.sparse.entry(j));
                assert(s_e.sparse.entry(j) == s_t2.sparse.entry(j));
                assert(s_rep.sparse.entry(j) == s_put.sparse.entry(j));
            }
            assert forall|j: int| j != entity.index implies #[trigger] self.sparse.bucket_of(j) == s1.sparse.bucket_of(j) by {
                assert(self.sparse.bucket_of(j) == s_e.sparse.bucket_of(j));
                assert(s_e.sparse.bucket_of(j) == s_t2.sparse.bucket_of(j));
                assert(s_rep.sparse.bucket_of(j) == s_put.sparse.bucket_of(j));
            }
            assert forall|j: int| #[trigger] self.sparse.allocated(j) == s1.sparse.allocated(j) by {
                assert(self.sparse.allocated(j) == s_e.sparse.allocated(j));
                assert(s_e.sparse.allocated(j) == s_t2.sparse.allocated(j));
                assert(s_rep.sparse.allocated(j) == s_put.sparse.allocated(j));
            }
            assert(self.sparse.entry(entity.index as int) == s_e.sparse.entry(entity.index as int));
            assert forall|c: int| c != source.0 && c != target.0 && s1.valid_bucket(c) implies #[trigger] self.bucket(c) == s1.bucket(c) by {
                assert(self.bucket(c) == s_e.bucket(c));
                assert(s_e.bucket(c) == s_t2.bucket(c));
                assert(s_t2.bucket(c) == s_t.bucket(c));
                assert(s_t.bucket(c) == s_rep.bucket(c));
                assert(s_rep.bucket(c) == s_put.bucket(c));
                assert(s_put.bucket(c) == s_mid.bucket(c));
            }
            assert(self.bucket(target.0 as int) == s_t2.bucket(target.0 as int));
            assert(!s1.sparse.entry(entity.index as int).is_dead_spec());
            assert(k < s1.bucket(source.0 as int).dense@.len());
            lemma_move(s1, *self, entity, source.0 as int, target.0 as int, k as int);
            assert(self.bucket(target.0 as int).dense@.len() == s1.bucket(target.0 as int).dense@.len() + 1);
        }
    }

    /// Moves the components of `entities` to the bucket of `group`, adding the group if it is
    /// new; an empty group is the unclassified bucket.
    pub fn move_to_group_batch(&mut self, entities: &Vec<EntityId>, group: &Vec<crate::type_id::TypeId>)
        requires
            old(self).wf(),
            old(self).group_buckets@.len() + 1 < u16::MAX,
            forall|k: int| 0 <= k < entities@.len() ==> (#[trigger] entities@[k]).gen != DEAD_GEN && old(self).get_spec(entities@[k]) is Some,
            old(self).unclassified_bucket.dense@.len() + entities@.len() + 1 < u32::MAX,
            forall|g: int| 0 <= g < old(self).group_buckets@.len() ==> (#[trigger] old(self).group_buckets@[g]).dense@.len() + entities@.len() + 1 < u32::MAX,
        ensures
            final(self).wf(),
            forall|j: int| #[trigger] final(self).view_at(j) == old(self).view_at(j),
            forall|k: int| 0 <= k < entities@.len() ==> {
                let b = final(self).sparse.bucket_of((#[trigger] entities@[k]).index as int);
                &&& group@.len() == 0 ==> b == 0
                &&& group@.len() > 0 ==> b > 0 && final(self).groups.group(b - 1) == group@
            },
            forall|j: int| (forall|k: int| 0 <= k < entities@.len() ==> (#[trigger] entities@[k]).index != j)
                ==> #[trigger] final(self).sparse.bucket_of(j) == old(self).sparse.bucket_of(j),
            forall|j: int| old(self).view_at(j) is Some && old(self).is_tracking_insertion ==> #[trigger] final(self).insertion_at(j) == old(self).insertion_at(j),
            forall|j: int| old(self).view_at(j) is Some && old(self).is_tracking_modification ==> #[trigger] final(self).modification_at(j) == old(self).modification_at(j),
            forall|g: int| 0 <= g < old(self).groups.offsets@.len() ==> #[trigger] final(self).groups.group(g) == old(self).groups.group(g),
            final(self).sparse.removed_from_groups == old(self).sparse.removed_from_groups,
            final(self).sparse.pending_placement_pages == old(self).sparse.pending_placement_pages,
            final(self).sparse.pending_placement_masks == old(self).sparse.pending_placement_masks,
            final(self).removal_data == old(self).removal_data,
            final(self).deletion_data == old(self).deletion_data,
            final(self).is_tracking_insertion == old(self).is_tracking_insertion,
            final(self).is_tracking_modification == old(self).is_tracking_modification,
            final(self).is_tracking_deletion == old(self).is_tracking_deletion,
            final(self).is_tracking_removal == old(self).is_tracking_removal,
    {
        let ghost s0 = *old(self);
        let target = if group.len() == 0 {
            BucketIndex::unclassified()
        } else {
            match self.groups.position(group) {
                Some(g) => {
                    assert(s0.group_buckets@[g as int] == s0.bucket(g + 1));
                    BucketIndex::from_group_index(g)
                },
                None => {
                    self.add_group(group);
                    BucketIndex::from_group_index(self.group_buckets.len() - 1)
                },
            }
        };
        let ghost s1 = *self;
        proof {
            assert forall|k: int| 0 <= k < entities@.len() implies (#[trigger] entities@[k]).gen != DEAD_GEN && s1.get_spec(entities@[k]) is Some by {
                assert(s1.view_at(entities@[k].index as int) == old(self).view_at(entities@[k].index as int));
            }
            assert(s1.bucket(target.0 as int).dense@.len() + entities@.len() + 1 < u32::MAX) by {
                if target.0 != 0 && target.0 as int - 1 < s0.group_buckets@.len() {
                    assert(s1.bucket(target.0 as int) == s0.bucket(target.0 as int));
                    assert(s0.group_buckets@[target.0 - 1] == s0.bucket(target.0 as int));
                }
            }
        }
        let mut k: usize = 0;
        while k < entities.len()
            invariant
                k <= entities@.len(),
                self.wf(),
                s1.valid_bucket(target.0 as int),
                self.group_buckets@.len() == s1.group_buckets@.len(),
                self.groups == s1.groups,
                forall|j: int| #[trigger] self.view_at(j) == old(self).view_at(j),
                forall|m: int| 0 <= m < entities@.len() ==> (#[trigger] entities@[m]).gen != DEAD_GEN && old(self).get_spec(entities@[m]) is Some,
                self.bucket(target.0 as int).dense@.len() <= s1.bucket(target.0 as int).dense@.len() + k,
                s1.bucket(target.0 as int).dense@.len() + entities@.len() + 1 < u32::MAX,
                forall|m: int| 0 <= m < k ==> self.sparse.bucket_of((#[trigger] entities@[m]).index as int) == target.0,
                group@.len() == 0 ==> target.0 == 0,
                group@.len() > 0 ==> target.0 > 0 && self.groups.group(target.0 - 1) == group@,
                forall|j: int| (forall|m: int| 0 <= m < k ==> (#[trigger] entities@[m]).index != j)
                    ==> #[trigger] self.sparse.bucket_of(j) == s1.sparse.bucket_of(j),
                forall|j: int| #[trigger] s1.view_at(j) == old(self).view_at(j),
                forall|j: int| s1.view_at(j) is Some && s1.is_tracking_insertion ==> #[trigger] self.insertion_at(j) == s1.insertion_at(j),
                forall|j: int| s1.view_at(j) is Some && s1.is_tracking_modification ==> #[trigger] self.modification_at(j) == s1.modification_at(j),
                self.sparse.removed_from_groups == s1.sparse.removed_from_groups,
                self.sparse.pending_placement_pages == s1.sparse.pending_placement_pages,
                self.sparse.pending_placement_masks == s1.sparse.pending_placement_masks,
                self.removal_data == s1.removal_data,
                self.deletion_data == s1.deletion_data,
                self.is_tracking_insertion == s1.is_tracking_insertion,
                self.is_tracking_modification == s1.is_tracking_modification,
                self.is_tracking_deletion == s1.is_tracking_deletion,
                self.is_tracking_removal == s1.is_tracking_removal,
            decreases entities@.len() - k,
        {
            let e = entities[k];
            let ghost sb = *self;
            assert(self.view_at(e.index as int) == old(self).view_at(e.index as int));
            assert(self.valid_bucket(target.0 as int));
            self.move_entity_to_bucket(e, target);
            proof {
                assert forall|j: int| s1.view_at(j) is Some && s1.is_tracking_insertion implies #[trigger] self.insertion_at(j) == s1.insertion_at(j) by {
                    assert(sb.view_at(j) == s1.view_at(j));
                    assert(sb.insertion_at(j) == s1.insertion_at(j));
                }
                assert forall|j: int| s1.view_at(j) is Some && s1.is_tracking_modification implies #[trigger] self.modification_at(j) == s1.modification_at(j) by {
                    assert(sb.view_at(j) == s1.view_at(j));
                    assert(sb.modification_at(j) == s1.modification_at(j));
                }
                assert forall|m: int| 0 <= m < k + 1 implies self.sparse.bucket_of((#[trigger] entities@[m]).index as int) == target.0 by {
                    if entities@[m].index != e.index {
                        assert(sb.sparse.bucket_of(entities@[m].index as int) == target.0);
                    }
                }
            }
            k += 1;
        }
    }

    /// The storages of the group `entity`'s component belongs to, if any.
    pub fn entity_group(&self, entity: EntityId) -> (r: Option<Vec<crate::type_id::TypeId>>)
        requires
            self.wf(),
        ensures
            !(self.sparse.allocated(entity.index as int) && self.sparse.entry(entity.index as int).gen == entity.gen) ==> r is None,
            self.sparse.allocated(entity.index as int) && self.sparse.entry(entity.index as int).gen == entity.gen ==> match r {
                Some(g) => self.sparse.bucket_of(entity.index as int) > 0
                    && g@ == self.groups.group(self.sparse.bucket_of(entity.index as int) - 1),
                None => self.sparse.bucket_of(entity.index as int) == 0,
            },
    {
        if !self.sparse.contains(entity) {
            return None;
        }
        let b = self.sparse.bucket_index(entity);
        match b.group_index() {
            Some(g) => {
                proof {
                    if self.sparse.entry(entity.index as int).is_dead_spec() {
                        assert(self.sparse.bucket_of(entity.index as int) == 0);
                    }
                }
                Some(self.groups.get(g))
            },
            None => None,
        }
    }

    /// Hands out the groups, then each page with entities waiting to be placed in a group
    /// with their mask, and clears the marks.
    pub fn collect_regroup_pages(&mut self) -> (r: (Vec<Vec<crate::type_id::TypeId>>, Vec<(usize, u32)>))
        requires
            old(self).wf(),
        ensures
            final(self).wf(),
            forall|j: int| #[trigger] final(self).view_at(j) == old(self).view_at(j),
            r.0@.len() == old(self).groups.offsets@.len(),
            forall|g: int| 0 <= g < r.0@.len() ==> (#[trigger] r.0@[g])@ == old(self).groups.group(g),
            r.1@ == collected(old(self).sparse.pending_placement_pages@, old(self).sparse.pending_placement_masks@),
            final(self).sparse.pending_placement_pages@.len() == 0,
            forall|p: int| #[trigger] final(self).sparse.mask(p) == (if listed_page(old(self).sparse.pending_placement_pages@, p) { 0 } else { old(self).sparse.mask(p) }),
    {
        let ghost s0 = *old(self);
        let mut groups: Vec<Vec<crate::type_id::TypeId>> = Vec::new();
        let mut g: usize = 0;
        while g < self.groups.len()
            invariant
                self.wf(),
                *self == s0,
                g <= self.groups.offsets@.len(),
                groups@.len() == g,
                forall|m: int| 0 <= m < g ==> (#[trigger] groups@[m])@ == s0.groups.group(m),
            decreases self.groups.offsets@.len() - g,
        {
            groups.push(self.groups.get(g));
            g += 1;
        }
        let mut pages: Vec<(usize, u32)> = Vec::new();
        let ghost all = self.sparse.pending_placement_pages@;
        let mut k: usize = 0;
        while k < self.sparse.pending_placement_pages.len()
            invariant
                k <= all.len(),
                self.sparse.pending_placement_pages@ == all,
                all == s0.sparse.pending_placement_pages@,
                self.sparse.pages == s0.sparse.pages,
                self.sparse.bucket_pages == s0.sparse.bucket_pages,
                self.sparse.removed_from_groups == s0.sparse.removed_from_groups,
                self.sparse.pending_placement_masks@.len() == s0.sparse.pending_placement_masks@.len(),
                self.unclassified_bucket == s0.unclassified_bucket,
                self.group_buckets == s0.group_buckets,
                self.groups == s0.groups,
                self.deletion_data == s0.deletion_data,
                self.removal_data == s0.removal_data,
                self.is_tracking_insertion == s0.is_tracking_insertion,
                self.is_tracking_modification == s0.is_tracking_modification,
                self.is_tracking_deletion == s0.is_tracking_deletion,
                self.is_tracking_removal == s0.is_tracking_removal,
                self.last_insert == s0.last_insert,
                self.last_modified == s0.last_modified,
                pages@ == collected(all.subrange(0, k as int), s0.sparse.pending_placement_masks@),
                self.sparse.pending_placement_masks@ == masks_after(all.subrange(0, k as int), s0.sparse.pending_placement_masks@),
            decreases all.len() - k,
        {
            let page = self.sparse.pending_placement_pages[k];
            let ghost prefix = all.subrange(0, k as int);
            assert(all.subrange(0, k + 1).drop_last() =~= prefix);
            assert(all.subrange(0, k + 1).last() == page);
            if page < self.sparse.pending_placement_masks.len() {
                let mask = self.sparse.pending_placement_masks[page];
                self.sparse.pending_placement_masks.set(page, 0);
                if mask != 0 {
                    pages.push((page, mask));
                }
            }
            k += 1;
        }
        assert(all.subrange(0, k as int) =~= all);
        self.sparse.pending_placement_pages.clear();
        proof {
            lemma_masks_after(all, s0.sparse.pending_placement_masks@);
            assert forall|p: int| #[trigger] self.sparse.mask(p) == (if listed_page(all, p) { 0 } else { s0.sparse.mask(p) }) by {
                lemma_masks_after_at(all, s0.sparse.pending_placement_masks@, p);
            }
            assert(self.sparse.wf());
            lemma_same_layout(s0, *self);
        }
        (groups, pages)
    }
}

/// A storage whose entries and buckets are those of a consistent one is consistent, and holds
/// the same components.
proof fn lemma_same_layout<T>(a: SparseSet<T>, b: SparseSet<T>)
    requires
        a.wf(),
        b.sparse.wf(),
        forall|j: int| #[trigger] b.sparse.entry(j) == a.sparse.entry(j),
        forall|j: int| #[trigger] b.sparse.bucket_of(j) == a.sparse.bucket_of(j),
        forall|j: int| #[trigger] a.sparse.allocated(j) ==> b.sparse.allocated(j),
        b.group_buckets@.len() == a.group_buckets@.len(),
        forall|c: int| #[trigger] b.bucket(c).dense@ == a.bucket(c).dense@,
        forall|c: int| #[trigger] b.bucket(c).data@ == a.bucket(c).data@,
        forall|c: int| #[trigger] b.bucket(c).insertion_data@ == a.bucket(c).insertion_data@,
        forall|c: int| #[trigger] b.bucket(c).modification_data@ == a.bucket(c).modification_data@,
        b.groups == a.groups,
        b.is_tracking_insertion == a.is_tracking_insertion,
        b.is_tracking_modification == a.is_tracking_modification,
    ensures
        b.wf(),
        forall|j: int| #[trigger] b.view_at(j) == a.view_at(j),
        forall|j: int| #[trigger] b.insertion_at(j) == a.insertion_at(j),
        forall|j: int| #[trigger] b.modification_at(j) == a.modification_at(j),
{
    assert(b.buckets_wf()) by {
        assert forall|c: int| b.valid_bucket(c) implies (#[trigger] b.bucket(c)).shape(b.is_tracking_insertion, b.is_tracking_modification)
            && b.bucket(c).dense@.len() < u32::MAX by {
            assert(a.bucket(c).shape(a.is_tracking_insertion, a.is_tracking_modification));
            assert(b.bucket(c).dense@ == a.bucket(c).dense@);
            assert(b.bucket(c).data@ == a.bucket(c).data@);
            assert(b.bucket(c).insertion_data@ == a.bucket(c).insertion_data@);
            assert(b.bucket(c).modification_data@ == a.bucket(c).modification_data@);
        }
    }
    assert(b.dense_to_sparse()) by {
        assert forall|c: int, k: int| b.valid_bucket(c) && 0 <= k < b.bucket(c).dense@.len() implies {
            let e = #[trigger] b.bucket(c).dense@[k];
            &&& e.gen != DEAD_GEN
            &&& b.sparse.allocated(e.index as int)
            &&& b.sparse.entry(e.index as int) == (EntityId { index: k as u32, gen: e.gen })
            &&& b.sparse.bucket_of(e.index as int) == c
        } by {
            assert(b.bucket(c).dense@ == a.bucket(c).dense@);
            let e = a.bucket(c).dense@[k];
            assert(a.sparse.allocated(e.index as int));
        }
    }
    assert(b.sparse_to_dense()) by {
        assert forall|j: int| !(#[trigger] b.sparse.entry(j)).is_dead_spec() implies {
            let x = b.sparse.entry(j);
            let c = b.sparse.bucket_of(j) as int;
            &&& b.valid_bucket(c)
            &&& x.index < b.bucket(c).dense@.len()
            &&& b.bucket(c).dense@[x.index as int].index == j
        } by {
            assert(!a.sparse.entry(j).is_dead_spec());
            assert(b.bucket(b.sparse.bucket_of(j) as int).dense@ == a.bucket(a.sparse.bucket_of(j) as int).dense@);
        }
    }
    assert(b.dead_unclassified()) by {
        assert forall|j: int| (#[trigger] b.sparse.entry(j)).is_dead_spec() implies b.sparse.bucket_of(j) == 0 by {
            assert(a.sparse.entry(j).is_dead_spec());
        }
    }
    assert forall|j: int| #[trigger] b.view_at(j) == a.view_at(j) by {
        assert(b.bucket(b.sparse.bucket_of(j) as int).data@ == a.bucket(a.sparse.bucket_of(j) as int).data@);
    }
    assert forall|j: int| #[trigger] b.insertion_at(j) == a.insertion_at(j) by {
        assert(b.bucket(b.sparse.bucket_of(j) as int).insertion_data@ == a.bucket(a.sparse.bucket_of(j) as int).insertion_data@);
    }
    assert forall|j: int| #[trigger] b.modification_at(j) == a.modification_at(j) by {
        assert(b.bucket(b.sparse.bucket_of(j) as int).modification_data@ == a.bucket(a.sparse.bucket_of(j) as int).modification_data@);
    }
}

proof fn lemma_insert_new<T>(s1: SparseSet<T>, s: SparseSet<T>, entity: EntityId, k: int)
    requires
        s1.wf(),
        s1.sparse.allocated(entity.index as int),
        s1.sparse.entry(entity.index as int).is_dead_spec(),
        entity.gen != DEAD_GEN,
        k == s1.unclassified_bucket.dense@.len(),
        s.sparse.wf(),
        s.sparse.entry(entity.index as int) == (EntityId { index: k as u32, gen: entity.gen }),
        forall|j: int| j != entity.index ==> #[trigger] s.sparse.entry(j) == s1.sparse.entry(j),
        forall|j: int| #[trigger] s.sparse.bucket_of(j) == s1.sparse.bucket_of(j),
        forall|j: int| #[trigger] s.sparse.allocated(j) == s1.sparse.allocated(j),
        s.groups == s1.groups,
        s.group_buckets == s1.group_buckets,
        s.is_tracking_insertion == s1.is_tracking_insertion,
        s.is_tracking_modification == s1.is_tracking_modification,
        s.unclassified_bucket.dense@ == s1.unclassified_bucket.dense@.push(entity),
        s.unclassified_bucket.data@.len() == s1.unclassified_bucket.data@.len() + 1,
        s.unclassified_bucket.data@.subrange(0, k) == s1.unclassified_bucket.data@,
        s.unclassified_bucket.insertion_data@.len() == (if s.is_tracking_insertion { k + 1 } else { 0 }),
        s.unclassified_bucket.modification_data@.len() == (if s.is_tracking_modification { k + 1 } else { 0 }),
        s.is_tracking_insertion ==> s.unclassified_bucket.insertion_data@.subrange(0, k) == s1.unclassified_bucket.insertion_data@,
        s.is_tracking_modification ==> s.unclassified_bucket.modification_data@.subrange(0, k) == s1.unclassified_bucket.modification_data@,
        k + 1 < u32::MAX,
    ensures
        s.wf(),
        forall|j: int| j != entity.index ==> #[trigger] s.view_at(j) == s1.view_at(j),
        s.view_at(entity.index as int) == Some((entity.gen, s.unclassified_bucket.data@[k])),
        forall|j: int| j != entity.index && s1.view_at(j) is Some && s.is_tracking_insertion ==> #[trigger] s.insertion_at(j) == s1.insertion_at(j),
        forall|j: int| j != entity.index && s1.view_at(j) is Some && s.is_tracking_modification ==> #[trigger] s.modification_at(j) == s1.modification_at(j),
{
    let i = entity.index as int;
    assert(s1.sparse.bucket_of(i) == 0);
    assert forall|c: int| c != 0 implies #[trigger] s.bucket(c) == s1.bucket(c) by {}
    assert(s.buckets_wf()) by {
        assert forall|b: int| s.valid_bucket(b) implies (#[trigger] s.bucket(b)).shape(s.is_tracking_insertion, s.is_tracking_modification)
            && s.bucket(b).dense@.len() < u32::MAX by {
            assert(s1.bucket(b).shape(s1.is_tracking_insertion, s1.is_tracking_modification));
        }
    }
    assert(s.dense_to_sparse()) by {
        assert forall|b: int, kk: int| s.valid_bucket(b) && 0 <= kk < s.bucket(b).dense@.len() implies {
            let e = #[trigger] s.bucket(b).dense@[kk];
            &&& e.gen != DEAD_GEN
            &&& s.sparse.allocated(e.index as int)
            &&& s.sparse.entry(e.index as int) == (EntityId { index: kk as u32, gen: e.gen })
            &&& s.sparse.bucket_of(e.index as int) == b
        } by {
            if b == 0 && kk == k {
                assert(s.bucket(b).dense@[kk] == entity);
            } else {
                assert(s.bucket(b).dense@[kk] == s1.bucket(b).dense@[kk]);
                let e = s1.bucket(b).dense@[kk];
                assert(s1.sparse.entry(e.index as int) == (EntityId { index: kk as u32, gen: e.gen }));
                assert(e.index != entity.index);
            }
        }
    }
    assert(s.sparse_to_dense()) by {
        assert forall|j: int| !(#[trigger] s.sparse.entry(j)).is_dead_spec() implies {
            let x = s.sparse.entry(j);
            let b = s.sparse.bucket_of(j) as int;
            &&& s.valid_bucket(b)
            &&& x.index < s.bucket(b).dense@.len()
            &&& s.bucket(b).dense@[x.index as int].index == j
        } by {
            if j != i {
                assert(!s1.sparse.entry(j).is_dead_spec());
                let b = s1.sparse.bucket_of(j) as int;
                assert(s1.bucket(b).dense@[s1.sparse.entry(j).index as int].index == j);
            }
        }
    }
    assert(s.dead_unclassified()) by {
        assert forall|j: int| (#[trigger] s.sparse.entry(j)).is_dead_spec() implies s.sparse.bucket_of(j) == 0 by {
            if j != i {
                assert(s1.sparse.entry(j).is_dead_spec());
            }
        }
    }
    assert forall|j: int| j != entity.index implies #[trigger] s.view_at(j) == s1.view_at(j) by {
        if !s1.sparse.entry(j).is_dead_spec() {
            let b = s1.sparse.bucket_of(j) as int;
            let x = s1.sparse.entry(j);
            if b == 0 {
                assert(s.unclassified_bucket.data@[x.index as int] == s.unclassified_bucket.data@.subrange(0, k)[x.index as int]);
            }
        }
    }
    assert forall|j: int| j != entity.index && s1.view_at(j) is Some && s.is_tracking_insertion implies #[trigger] s.insertion_at(j) == s1.insertion_at(j) by {
        let b = s1.sparse.bucket_of(j) as int;
        let x = s1.sparse.entry(j);
        assert(s1.bucket(b).shape(s1.is_tracking_insertion, s1.is_tracking_modification));
        if b == 0 {
            assert(s.unclassified_bucket.insertion_data@[x.index as int] == s.unclassified_bucket.insertion_data@.subrange(0, k)[x.index as int]);
        }
    }
    assert forall|j: int| j != entity.index && s1.view_at(j) is Some && s.is_tracking_modification implies #[trigger] s.modification_at(j) == s1.modification_at(j) by {
        let b = s1.sparse.bucket_of(j) as int;
        let x = s1.sparse.entry(j);
        assert(s1.bucket(b).shape(s1.is_tracking_insertion, s1.is_tracking_modification));
        if b == 0 {
            assert(s.unclassified_bucket.modification_data@[x.index as int] == s.unclassified_bucket.modification_data@.subrange(0, k)[x.index as int]);
        }
    }
}

proof fn lemma_insert_replace<T>(s1: SparseSet<T>, s: SparseSet<T>, entity: EntityId, b: int, k: int)
    requires
        s1.wf(),
        s1.sparse.allocated(entity.index as int),
        !s1.sparse.entry(entity.index as int).is_dead_spec(),
        s1.sparse.entry(entity.index as int).index == k,
        s1.sparse.bucket_of(entity.index as int) == b,
        entity.gen != DEAD_GEN,
        s.sparse.wf(),
        s.sparse.entry(entity.index as int) == (EntityId { index: k as u32, gen: entity.gen }),
        forall|j: int| j != entity.index ==> #[trigger] s.sparse.entry(j) == s1.sparse.entry(j),
        forall|j: int| #[trigger] s.sparse.bucket_of(j) == s1.sparse.bucket_of(j),
        forall|j: int| #[trigger] s.sparse.allocated(j) == s1.sparse.allocated(j),
        s.groups == s1.groups,
        s.group_buckets@.len() == s1.group_buckets@.len(),
        s.is_tracking_insertion == s1.is_tracking_insertion,
        s.is_tracking_modification == s1.is_tracking_modification,
        forall|c: int| c != b && s1.valid_bucket(c) ==> #[trigger] s.bucket(c) == s1.bucket(c),
        s.bucket(b).dense@ == s1.bucket(b).dense@.update(k, entity),
        s.bucket(b).data@.len() == s1.bucket(b).data@.len(),
        forall|kk: int| 0 <= kk < s1.bucket(b).data@.len() && kk != k ==> s.bucket(b).data@[kk] == s1.bucket(b).data@[kk],
        s.bucket(b).insertion_data@.len() == s1.bucket(b).insertion_data@.len(),
        s.bucket(b).modification_data@.len() == s1.bucket(b).modification_data@.len(),
        forall|kk: int| 0 <= kk < s1.bucket(b).insertion_data@.len() && kk != k ==> s.bucket(b).insertion_data@[kk] == s1.bucket(b).insertion_data@[kk],
        forall|kk: int| 0 <= kk < s1.bucket(b).modification_data@.len() && kk != k ==> s.bucket(b).modification_data@[kk] == s1.bucket(b).modification_data@[kk],
    ensures
        s.wf(),
        forall|j: int| j != entity.index ==> #[trigger] s.view_at(j) == s1.view_at(j),
        s.view_at(entity.index as int) == Some((entity.gen, s.bucket(b).data@[k])),
        forall|j: int| j != entity.index && s1.view_at(j) is Some && s.is_tracking_insertion ==> #[trigger] s.insertion_at(j) == s1.insertion_at(j),
        forall|j: int| j != entity.index && s1.view_at(j) is Some && s.is_tracking_modification ==> #[trigger] s.modification_at(j) == s1.modification_at(j),
{
    let i = entity.index as int;
    assert(s1.valid_bucket(b));
    assert forall|j: int| j != entity.index && s1.view_at(j) is Some && s.is_tracking_insertion implies #[trigger] s.insertion_at(j) == s1.insertion_at(j) by {
        let c = s1.sparse.bucket_of(j) as int;
        let x = s1.sparse.entry(j);
        assert(s1.bucket(c).dense@[x.index as int].index == j);
        assert(s1.bucket(b).dense@[k].index == i);
    }
    assert forall|j: int| j != entity.index && s1.view_at(j) is Some && s.is_tracking_modification implies #[trigger] s.modification_at(j) == s1.modification_at(j) by {
        let c = s1.sparse.bucket_of(j) as int;
        let x = s1.sparse.entry(j);
        assert(s1.bucket(c).dense@[x.index as int].index == j);
        assert(s1.bucket(b).dense@[k].index == i);
    }
    assert(s.buckets_wf()) by {
        assert forall|c: int| s.valid_bucket(c) implies (#[trigger] s.bucket(c)).shape(s.is_tracking_insertion, s.is_tracking_modification)
            && s.bucket(c).dense@.len() < u32::MAX by {
            assert(s1.bucket(c).shape(s1.is_tracking_insertion, s1.is_tracking_modification));
        }
    }
    assert(s1.bucket(b).dense@[k].index == i);
    assert(s.dense_to_sparse()) by {
        assert forall|c: int, kk: int| s.valid_bucket(c) && 0 <= kk < s.bucket(c).dense@.len() implies {
            let e = #[trigger] s.bucket(c).dense@[kk];
            &&& e.gen != DEAD_GEN
            &&& s.sparse.allocated(e.index as int)
            &&& s.sparse.entry(e.index as int) == (EntityId { index: kk as u32, gen: e.gen })
            &&& s.sparse.bucket_of(e.index as int) == c
        } by {
            if c == b && kk == k {
                assert(s.bucket(c).dense@[kk] == entity);
            } else {
                assert(s.bucket(c).dense@[kk] == s1.bucket(c).dense@[kk]);
                let e = s1.bucket(c).dense@[kk];
                assert(s1.sparse.entry(e.index as int) == (EntityId { index: kk as u32, gen: e.gen }));
                assert(e.index != entity.index);
            }
        }
    }
    assert(s.sparse_to_dense()) by {
        assert forall|j: int| !(#[trigger] s.sparse.entry(j)).is_dead_spec() implies {
            let x = s.sparse.entry(j);
            let c = s.sparse.bucket_of(j) as int;
            &&& s.valid_bucket(c)
            &&& x.index < s.bucket(c).dense@.len()
            &&& s.bucket(c).dense@[x.index as int].index == j
        } by {
            if j != i {
                assert(!s1.sparse.entry(j).is_dead_spec());
                let c = s1.sparse.bucket_of(j) as int;
                let x = s1.sparse.entry(j);
                assert(s1.bucket(c).dense@[x.index as int].index == j);
                if c == b {
                    assert(x.index != k);
                }
            }
        }
    }
    assert(s.dead_unclassified()) by {
        assert forall|j: int| (#[trigger] s.sparse.entry(j)).is_dead_spec() implies s.sparse.bucket_of(j) == 0 by {
            if j != i {
                assert(s1.sparse.entry(j).is_dead_spec());
            }
        }
    }
    assert forall|j: int| j != entity.index implies #[trigger] s.view_at(j) == s1.view_at(j) by {
        if !s1.sparse.entry(j).is_dead_spec() {
            let c = s1.sparse.bucket_of(j) as int;
            let x = s1.sparse.entry(j);
            assert(s1.bucket(c).dense@[x.index as int].index == j);
            if c == b {
                assert(x.index != k);
            }
        }
    }
}



proof fn lemma_remove<T>(s1: SparseSet<T>, s: SparseSet<T>, entity: EntityId, b: int, k: int)
    requires
        s1.wf(),
        s1.sparse.allocated(entity.index as int),
        !s1.sparse.entry(entity.index as int).is_dead_spec(),
        s1.sparse.entry(entity.index as int).index == k,
        s1.sparse.bucket_of(entity.index as int) == b,
        s.sparse.wf(),
        s.sparse.entry(entity.index as int).is_dead_spec(),
        s.sparse.bucket_of(entity.index as int) == 0,
        ({
            let l = s1.bucket(b).dense@.len();
            let rep = s1.bucket(b).dense@[l - 1];
            &&& k < l - 1 ==> s.sparse.entry(rep.index as int) == (EntityId { index: k as u32, gen: rep.gen })
            &&& forall|j: int| j != entity.index && !(k < l - 1 && j == rep.index) ==> #[trigger] s.sparse.entry(j) == s1.sparse.entry(j)
        }),
        forall|j: int| j != entity.index ==> #[trigger] s.sparse.bucket_of(j) == s1.sparse.bucket_of(j),
        forall|j: int| #[trigger] s.sparse.allocated(j) == s1.sparse.allocated(j),
        s.groups == s1.groups,
        s.group_buckets@.len() == s1.group_buckets@.len(),
        s.is_tracking_insertion == s1.is_tracking_insertion,
        s.is_tracking_modification == s1.is_tracking_modification,
        forall|c: int| c != b && s1.valid_bucket(c) ==> #[trigger] s.bucket(c) == s1.bucket(c),
        s.bucket(b).shape(s.is_tracking_insertion, s.is_tracking_modification),
        s.bucket(b).dense@ == s1.bucket(b).dense@.update(k, s1.bucket(b).dense@.last()).drop_last(),
        s.bucket(b).data@ == s1.bucket(b).data@.update(k, s1.bucket(b).data@.last()).drop_last(),
        s.is_tracking_insertion ==> s.bucket(b).insertion_data@ == s1.bucket(b).insertion_data@.update(k, s1.bucket(b).insertion_data@.last()).drop_last(),
        s.is_tracking_modification ==> s.bucket(b).modification_data@ == s1.bucket(b).modification_data@.update(k, s1.bucket(b).modification_data@.last()).drop_last(),
    ensures
        s.wf(),
        forall|j: int| j != entity.index ==> #[trigger] s.view_at(j) == s1.view_at(j),
        forall|j: int| j != entity.index && s1.view_at(j) is Some && s1.is_tracking_insertion ==> #[trigger] s.insertion_at(j) == s1.insertion_at(j),
        forall|j: int| j != entity.index && s1.view_at(j) is Some && s1.is_tracking_modification ==> #[trigger] s.modification_at(j) == s1.modification_at(j),
        s.view_at(entity.index as int) is None,
{
    let i = entity.index as int;
    let l = s1.bucket(b).dense@.len();
    let rep = s1.bucket(b).dense@[l - 1];
    assert(s1.valid_bucket(b));
    assert(s1.bucket(b).shape(s1.is_tracking_insertion, s1.is_tracking_modification));
    assert(s1.bucket(b).dense@[k].index == i);
    assert(s1.sparse.entry(rep.index as int) == (EntityId { index: (l - 1) as u32, gen: rep.gen }));
    assert(s1.sparse.bucket_of(rep.index as int) == b);
    assert(s.buckets_wf()) by {
        assert forall|c: int| s.valid_bucket(c) implies (#[trigger] s.bucket(c)).shape(s.is_tracking_insertion, s.is_tracking_modification)
            && s.bucket(c).dense@.len() < u32::MAX by {
            assert(s1.bucket(c).shape(s1.is_tracking_insertion, s1.is_tracking_modification));
        }
    }
    assert(s.dense_to_sparse()) by {
        assert forall|c: int, kk: int| s.valid_bucket(c) && 0 <= kk < s.bucket(c).dense@.len() implies {
            let e = #[trigger] s.bucket(c).dense@[kk];
            &&& e.gen != DEAD_GEN
            &&& s.sparse.allocated(e.index as int)
            &&& s.sparse.entry(e.index as int) == (EntityId { index: kk as u32, gen: e.gen })
            &&& s.sparse.bucket_of(e.index as int) == c
        } by {
            if c == b && kk == k {
                assert(s.bucket(c).dense@[kk] == rep);
                assert(rep.index != entity.index);
            } else {
                assert(s.bucket(c).dense@[kk] == s1.bucket(c).dense@[kk]);
                let e = s1.bucket(c).dense@[kk];
                assert(s1.sparse.entry(e.index as int) == (EntityId { index: kk as u32, gen: e.gen }));
                assert(e.index != entity.index);
                if k < l - 1 && e.index == rep.index {
                    assert(c == b && kk == l - 1);
                }
            }
        }
    }
    assert(s.sparse_to_dense()) by {
        assert forall|j: int| !(#[trigger] s.sparse.entry(j)).is_dead_spec() implies {
            let x = s.sparse.entry(j);
            let c = s.sparse.bucket_of(j) as int;
            &&& s.valid_bucket(c)
            &&& x.index < s.bucket(c).dense@.len()
            &&& s.bucket(c).dense@[x.index as int].index == j
        } by {
            assert(j != i);
            if k < l - 1 && j == rep.index {
                assert(s.bucket(b).dense@[k] == rep);
            } else {
                assert(!s1.sparse.entry(j).is_dead_spec());
                let c = s1.sparse.bucket_of(j) as int;
                let x = s1.sparse.entry(j);
                assert(s1.bucket(c).dense@[x.index as int].index == j);
                if c == b {
                    assert(x.index != k);
                    assert(x.index != l - 1);
                }
            }
        }
    }
    assert(s.dead_unclassified()) by {
        assert forall|j: int| (#[trigger] s.sparse.entry(j)).is_dead_spec() implies s.sparse.bucket_of(j) == 0 by {
            if j != i {
                if k < l - 1 && j == rep.index {
                } else {
                    assert(s1.sparse.entry(j).is_dead_spec());
                }
            }
        }
    }
    assert forall|j: int| j != entity.index implies #[trigger] s.view_at(j) == s1.view_at(j) by {
        if k < l - 1 && j == rep.index {
            assert(s.bucket(b).data@[k] == s1.bucket(b).data@[l - 1]);
        } else if !s1.sparse.entry(j).is_dead_spec() {
            let c = s1.sparse.bucket_of(j) as int;
            let x = s1.sparse.entry(j);
            assert(s1.bucket(c).dense@[x.index as int].index == j);
            if c == b {
                assert(x.index != k);
                assert(x.index != l - 1);
            }
        }
    }
    assert forall|j: int| j != entity.index && s1.view_at(j) is Some && s1.is_tracking_insertion implies #[trigger] s.insertion_at(j) == s1.insertion_at(j) by {
        if k < l - 1 && j == rep.index {
        } else {
            let c = s1.sparse.bucket_of(j) as int;
            let x = s1.sparse.entry(j);
            assert(s1.bucket(c).dense@[x.index as int].index == j);
            if c == b {
                assert(x.index != k);
                assert(x.index != l - 1);
            }
        }
    }
    assert forall|j: int| j != entity.index && s1.view_at(j) is Some && s1.is_tracking_modification implies #[trigger] s.modification_at(j) == s1.modification_at(j) by {
        if k < l - 1 && j == rep.index {
        } else {
            let c = s1.sparse.bucket_of(j) as int;
            let x = s1.sparse.entry(j);
            assert(s1.bucket(c).dense@[x.index as int].index == j);
            if c == b {
                assert(x.index != k);
                assert(x.index != l - 1);
            }
        }
    }
}


/// The deletions of `s` more recent than `t`, in order.
pub open spec fn newer_deletions<T>(s: Seq<(EntityId, TrackingTimestamp, T)>, t: TrackingTimestamp) -> Seq<(EntityId, TrackingTimestamp, T)>
    decreases s.len(),
{
    if s.len() == 0 {
        s
    } else {
        let rest = newer_deletions(s.drop_last(), t);
        if t.is_older_than_spec(s.last().1) { rest.push(s.last()) } else { rest }
    }
}

/// The removals of `s` more recent than `t`, in order.
pub open spec fn newer_removals(s: Seq<(EntityId, TrackingTimestamp)>, t: TrackingTimestamp) -> Seq<(EntityId, TrackingTimestamp)>
    decreases s.len(),
{
    if s.len() == 0 {
        s
    } else {
        let rest = newer_removals(s.drop_last(), t);
        if t.is_older_than_spec(s.last().1) { rest.push(s.last()) } else { rest }
    }
}


/// Clearing the removals older than `t` keeps exactly the removals strictly more recent than
/// `t`, in their order: what is kept is the log filtered by "more recent than `t`", so every
/// kept removal is more recent than `t` and every removal more recent than `t` is kept.
pub proof fn law_newer_removals(s: Seq<(EntityId, TrackingTimestamp)>, t: TrackingTimestamp)
    ensures
        newer_removals(s, t) == s.filter(|r: (EntityId, TrackingTimestamp)| t.is_older_than_spec(r.1)),
        forall|i: int| 0 <= i < newer_removals(s, t).len() ==> t.is_older_than_spec(#[trigger] newer_removals(s, t)[i].1),
        forall|i: int| 0 <= i < s.len() && t.is_older_than_spec(s[i].1) ==> newer_removals(s, t).contains(#[trigger] s[i]),
        forall|i: int| 0 <= i < newer_removals(s, t).len() ==> s.contains(#[trigger] newer_removals(s, t)[i]),
    decreases s.len(),
{
    let pred = |r: (EntityId, TrackingTimestamp)| t.is_older_than_spec(r.1);
    reveal(Seq::filter);
    if s.len() > 0 {
        law_newer_removals(s.drop_last(), t);
    }
    assert(newer_removals(s, t) =~= s.filter(pred));
    s.filter_lemma(pred);
    assert forall|i: int| 0 <= i < s.len() && t.is_older_than_spec(s[i].1) implies newer_removals(s, t).contains(#[trigger] s[i]) by {
        assert(pred(s[i]));
    }
}

/// Clearing the deletions older than `t` keeps exactly the deletions strictly more recent
/// than `t`, in their order.
pub proof fn law_newer_deletions<T>(s: Seq<(EntityId, TrackingTimestamp, T)>, t: TrackingTimestamp)
    ensures
        newer_deletions(s, t) == s.filter(|r: (EntityId, TrackingTimestamp, T)| t.is_older_than_spec(r.1)),
        forall|i: int| 0 <= i < newer_deletions(s, t).len() ==> t.is_older_than_spec(#[trigger] newer_deletions(s, t)[i].1),
        forall|i: int| 0 <= i < s.len() && t.is_older_than_spec(s[i].1) ==> newer_deletions(s, t).contains(#[trigger] s[i]),
        forall|i: int| 0 <= i < newer_deletions(s, t).len() ==> s.contains(#[trigger] newer_deletions(s, t)[i]),
    decreases s.len(),
{
    let pred = |r: (EntityId, TrackingTimestamp, T)| t.is_older_than_spec(r.1);
    reveal(Seq::filter);
    if s.len() > 0 {
        law_newer_deletions(s.drop_last(), t);
    }
    assert(newer_deletions(s, t) =~= s.filter(pred));
    s.filter_lemma(pred);
    assert forall|i: int| 0 <= i < s.len() && t.is_older_than_spec(s[i].1) implies newer_deletions(s, t).contains(#[trigger] s[i]) by {
        assert(pred(s[i]));
    }
}

/// Some of the first `k` entities of `dense` has index `j`.
pub open spec fn listed_before(dense: Seq<EntityId>, k: int, j: int) -> bool {
    exists|m: int| 0 <= m < k && dense[m].index == j
}

/// Each entity with its component, stamped with `t`.
pub open spec fn stamped<T>(dense: Seq<EntityId>, data: Seq<T>, t: TrackingTimestamp) -> Seq<(EntityId, TrackingTimestamp, T)>
    decreases dense.len(),
{
    if dense.len() == 0 || data.len() == 0 {
        Seq::empty()
    } else {
        stamped(dense.drop_last(), data.drop_last(), t).push((dense.last(), t, data.last()))
    }
}

/// Each entity stamped with `t`.
pub open spec fn stamped_ids(dense: Seq<EntityId>, t: TrackingTimestamp) -> Seq<(EntityId, TrackingTimestamp)>
    decreases dense.len(),
{
    if dense.len() == 0 {
        Seq::empty()
    } else {
        stamped_ids(dense.drop_last(), t).push((dense.last(), t))
    }
}

/// The entities and components taken out of a sparse set.
pub struct SparseSetDrain<T> {
    pub dense: Vec<EntityId>,
    pub data: Vec<T>,
}

impl<T> SparseSetDrain<T> {
    /// The components with the entities that owned them.
    pub fn with_id(self) -> (r: Vec<(EntityId, T)>)
        requires
            self.dense@.len() == self.data@.len(),
        ensures
            r@.len() == self.data@.len(),
            forall|k: int| 0 <= k < r@.len() ==> #[trigger] r@[k] == (self.dense@[k], self.data@[k]),
    {
        let SparseSetDrain { dense, data } = self;
        let ghost v0 = data@;
        let mut data = data;
        let mut r: Vec<(EntityId, T)> = Vec::new();
        let total = data.len();
        let mut k: usize = 0;
        while data.len() > 0
            invariant
                k + data@.len() == v0.len(),
                v0.len() == total,
                v0.len() == dense@.len(),
                data@ == v0.subrange(k as int, v0.len() as int),
                r@.len() == k,
                forall|m: int| 0 <= m < k ==> #[trigger] r@[m] == (dense@[m], v0[m]),
            decreases data@.len(),
        {
            let v = data.remove(0);
            assert(v == v0[k as int]);
            r.push((dense[k], v));
            assert(data@ =~= v0.subrange(k + 1, v0.len() as int));
            k += 1;
        }
        r
    }

    /// The components, in order.
    pub fn into_components(self) -> (r: Vec<T>)
        ensures
            r@ == self.data@,
    {
        self.data
    }
}


/// Page `p` is listed in `pages`.
pub open spec fn listed_page(pages: Seq<usize>, p: int) -> bool {
    exists|k: int| 0 <= k < pages.len() && pages[k] as int == p
}

/// The masks once those of `pages` are taken, in order.
pub open spec fn masks_after(pages: Seq<usize>, masks: Seq<u32>) -> Seq<u32>
    decreases pages.len(),
{
    if pages.len() == 0 {
        masks
    } else {
        let m = masks_after(pages.drop_last(), masks);
        let p = pages.last();
        if p < m.len() { m.update(p as int, 0) } else { m }
    }
}

/// The pages of `pages` with a mask set when their turn comes, with that mask.
pub open spec fn collected(pages: Seq<usize>, masks: Seq<u32>) -> Seq<(usize, u32)>
    decreases pages.len(),
{
    if pages.len() == 0 {
        Seq::empty()
    } else {
        let c = collected(pages.drop_last(), masks);
        let m = masks_after(pages.drop_last(), masks);
        let p = pages.last();
        if p < m.len() && m[p as int] != 0 { c.push((p, m[p as int])) } else { c }
    }
}

proof fn lemma_masks_after(pages: Seq<usize>, masks: Seq<u32>)
    ensures
        masks_after(pages, masks).len() == masks.len(),
    decreases pages.len(),
{
    if pages.len() > 0 {
        lemma_masks_after(pages.drop_last(), masks);
    }
}

proof fn lemma_masks_after_at(pages: Seq<usize>, masks: Seq<u32>, p: int)
    ensures
        0 <= p < masks.len() ==> masks_after(pages, masks)[p] == (if listed_page(pages, p) { 0 } else { masks[p] }),
    decreases pages.len(),
{
    lemma_masks_after(pages, masks);
    if pages.len() > 0 {
        let q = pages.drop_last();
        lemma_masks_after_at(q, masks, p);
        lemma_masks_after(q, masks);
        if 0 <= p < masks.len() {
            if listed_page(q, p) {
                let k = choose|k: int| 0 <= k < q.len() && q[k] as int == p;
                assert(pages[k] == q[k]);
            }
            if listed_page(pages, p) && !listed_page(q, p) {
                let k = choose|k: int| 0 <= k < pages.len() && pages[k] as int == p;
                if k < q.len() {
                    assert(q[k] == pages[k]);
                }
            }
            if pages.last() as int == p {
                assert(listed_page(pages, p));
            }
        }
    }
}

proof fn lemma_move<T>(s1: SparseSet<T>, s: SparseSet<T>, entity: EntityId, src: int, dst: int, k: int)
    requires
        s1.wf(),
        entity.gen != DEAD_GEN,
        src != dst,
        s1.valid_bucket(dst),
        0 <= k < s1.bucket(src).dense@.len(),
        s1.sparse.allocated(entity.index as int),
        s1.sparse.entry(entity.index as int) == (EntityId { index: k as u32, gen: entity.gen }),
        s1.sparse.bucket_of(entity.index as int) == src,
        s1.bucket(dst).dense@.len() + 1 < u32::MAX,
        s.sparse.wf(),
        s.groups == s1.groups,
        s.group_buckets@.len() == s1.group_buckets@.len(),
        s.is_tracking_insertion == s1.is_tracking_insertion,
        s.is_tracking_modification == s1.is_tracking_modification,
        forall|c: int| c != src && c != dst && s1.valid_bucket(c) ==> #[trigger] s.bucket(c) == s1.bucket(c),
        ({
            let b = s1.bucket(src);
            let t = s1.bucket(dst);
            let ins = s1.is_tracking_insertion;
            let modif = s1.is_tracking_modification;
            &&& s.bucket(src).dense@ == b.dense@.update(k, b.dense@.last()).drop_last()
            &&& s.bucket(src).data@ == b.data@.update(k, b.data@.last()).drop_last()
            &&& s.bucket(src).insertion_data@.len() == (if ins { b.dense@.len() - 1 } else { 0 })
            &&& s.bucket(src).modification_data@.len() == (if modif { b.dense@.len() - 1 } else { 0 })
            &&& ins ==> s.bucket(src).insertion_data@ == b.insertion_data@.update(k, b.insertion_data@.last()).drop_last()
            &&& modif ==> s.bucket(src).modification_data@ == b.modification_data@.update(k, b.modification_data@.last()).drop_last()
            &&& s.bucket(dst).dense@ == t.dense@.push(entity)
            &&& s.bucket(dst).data@ == t.data@.push(b.data@[k])
            &&& s.bucket(dst).insertion_data@ == (if ins { t.insertion_data@.push(b.insertion_data@[k]) } else { t.insertion_data@ })
            &&& s.bucket(dst).modification_data@ == (if modif { t.modification_data@.push(b.modification_data@[k]) } else { t.modification_data@ })
        }),
        ({
            let l = s1.bucket(src).dense@.len();
            let rep = s1.bucket(src).dense@[l - 1];
            &&& k < l - 1 ==> s.sparse.entry(rep.index as int) == (EntityId { index: k as u32, gen: rep.gen })
            &&& forall|j: int| j != entity.index && !(k < l - 1 && j == rep.index) ==> #[trigger] s.sparse.entry(j) == s1.sparse.entry(j)
        }),
        s.sparse.entry(entity.index as int) == (EntityId { index: s1.bucket(dst).dense@.len() as u32, gen: entity.gen }),
        s.sparse.bucket_of(entity.index as int) == dst,
        forall|j: int| j != entity.index ==> #[trigger] s.sparse.bucket_of(j) == s1.sparse.bucket_of(j),
        forall|j: int| #[trigger] s.sparse.allocated(j) == s1.sparse.allocated(j),
    ensures
        s.wf(),
        forall|j: int| #[trigger] s.view_at(j) == s1.view_at(j),
        forall|j: int| s1.view_at(j) is Some && s1.is_tracking_insertion ==> #[trigger] s.insertion_at(j) == s1.insertion_at(j),
        forall|j: int| s1.view_at(j) is Some && s1.is_tracking_modification ==> #[trigger] s.modification_at(j) == s1.modification_at(j),
{
    let i = entity.index as int;
    let l = s1.bucket(src).dense@.len();
    let rep = s1.bucket(src).dense@[l - 1];
    let t = s1.bucket(dst).dense@.len() as int;
    assert(s1.valid_bucket(src));
    assert(s1.bucket(src).shape(s1.is_tracking_insertion, s1.is_tracking_modification));
    assert(s1.bucket(dst).shape(s1.is_tracking_insertion, s1.is_tracking_modification));
    assert(!s1.sparse.entry(i).is_dead_spec());
    assert(s1.bucket(src).dense@[k].index == i);
    assert(s1.sparse.entry(rep.index as int) == (EntityId { index: (l - 1) as u32, gen: rep.gen }));
    assert(s1.sparse.bucket_of(rep.index as int) == src);
    assert(s.buckets_wf()) by {
        assert forall|c: int| s.valid_bucket(c) implies (#[trigger] s.bucket(c)).shape(s.is_tracking_insertion, s.is_tracking_modification)
            && s.bucket(c).dense@.len() < u32::MAX by {
            assert(s1.bucket(c).shape(s1.is_tracking_insertion, s1.is_tracking_modification));
            if c == src {
                assert(s.bucket(c).dense@.len() == l - 1);
                assert(s.bucket(c).data@.len() == l - 1);
            } else if c == dst {
                assert(s.bucket(c).dense@.len() == t + 1);
                assert(s.bucket(c).data@.len() == t + 1);
            }
        }
    }
    assert(s.dense_to_sparse()) by {
        assert forall|c: int, kk: int| s.valid_bucket(c) && 0 <= kk < s.bucket(c).dense@.len() implies {
            let e = #[trigger] s.bucket(c).dense@[kk];
            &&& e.gen != DEAD_GEN
            &&& s.sparse.allocated(e.index as int)
            &&& s.sparse.entry(e.index as int) == (EntityId { index: kk as u32, gen: e.gen })
            &&& s.sparse.bucket_of(e.index as int) == c
        } by {
            if c == dst && kk == t {
                assert(s.bucket(c).dense@[kk] == entity);
            } else if c == src && kk == k {
                assert(s.bucket(c).dense@[kk] == rep);
                assert(rep.index != entity.index);
            } else {
                assert(s.bucket(c).dense@[kk] == s1.bucket(c).dense@[kk]);
                let e = s1.bucket(c).dense@[kk];
                assert(s1.sparse.entry(e.index as int) == (EntityId { index: kk as u32, gen: e.gen }));
                assert(e.index != entity.index);
                if k < l - 1 && e.index == rep.index {
                    assert(c == src && kk == l - 1);
                }
            }
        }
    }
    assert(s.sparse_to_dense()) by {
        assert forall|j: int| !(#[trigger] s.sparse.entry(j)).is_dead_spec() implies {
            let x = s.sparse.entry(j);
            let c = s.sparse.bucket_of(j) as int;
            &&& s.valid_bucket(c)
            &&& x.index < s.bucket(c).dense@.len()
            &&& s.bucket(c).dense@[x.index as int].index == j
        } by {
            if j == i {
                assert(s.bucket(dst).dense@[t] == entity);
            } else if k < l - 1 && j == rep.index {
                assert(s.bucket(src).dense@[k] == rep);
            } else {
                assert(!s1.sparse.entry(j).is_dead_spec());
                let c = s1.sparse.bucket_of(j) as int;
                let x = s1.sparse.entry(j);
                assert(s1.bucket(c).dense@[x.index as int].index == j);
                if c == src {
                    assert(x.index != k);
                    assert(x.index != l - 1);
                }
            }
        }
    }
    assert(s.dead_unclassified()) by {
        assert forall|j: int| (#[trigger] s.sparse.entry(j)).is_dead_spec() implies s.sparse.bucket_of(j) == 0 by {
            if j != i && !(k < l - 1 && j == rep.index) {
                assert(s1.sparse.entry(j).is_dead_spec());
            }
        }
    }
    assert forall|j: int| #[trigger] s.view_at(j) == s1.view_at(j) by {
        if j == i {
            assert(s.bucket(dst).data@[t] == s1.bucket(src).data@[k]);
        } else if k < l - 1 && j == rep.index {
            assert(s.bucket(src).data@[k] == s1.bucket(src).data@[l - 1]);
        } else if !s1.sparse.entry(j).is_dead_spec() {
            let c = s1.sparse.bucket_of(j) as int;
            let x = s1.sparse.entry(j);
            assert(s1.bucket(c).dense@[x.index as int].index == j);
            if c == src {
                assert(x.index != k);
                assert(x.index != l - 1);
            }
            if c == dst {
                assert(x.index < t);
                assert(s.bucket(dst).data@[x.index as int] == s1.bucket(dst).data@[x.index as int]);
            }
        }
    }
    assert forall|j: int| s1.view_at(j) is Some && s1.is_tracking_insertion implies #[trigger] s.insertion_at(j) == s1.insertion_at(j) by {
        if j == i {
        } else if k < l - 1 && j == rep.index {
        } else {
            let c = s1.sparse.bucket_of(j) as int;
            let x = s1.sparse.entry(j);
            assert(s1.bucket(c).dense@[x.index as int].index == j);
            if c == src {
                assert(x.index != k);
                assert(x.index != l - 1);
            }
            if c == dst {
                assert(x.index < t);
            }
        }
    }
    assert forall|j: int| s1.view_at(j) is Some && s1.is_tracking_modification implies #[trigger] s.modification_at(j) == s1.modification_at(j) by {
        if j == i {
        } else if k < l - 1 && j == rep.index {
        } else {
            let c = s1.sparse.bucket_of(j) as int;
            let x = s1.sparse.entry(j);
            assert(s1.bucket(c).dense@[x.index as int].index == j);
            if c == src {
                assert(x.index != k);
                assert(x.index != l - 1);
            }
            if c == dst {
                assert(x.index < t);
            }
        }
    }
}

} // verus!
