//! A packed sparse array: components found by entity index, with a pack kept at the front.
pub mod pack_info;
pub mod sort;

use crate::entity_id::EntityId;
use crate::sparse_array::pack_info::{strictly_sorted, PackInfo};
use crate::type_id::TypeId;
use vstd::prelude::*;

verus! {

/// Exchanges the elements at `i` and `j`.
pub(crate) fn swap_at<T>(v: &mut Vec<T>, i: usize, j: usize)
    requires
        i < old(v)@.len(),
        j < old(v)@.len(),
    ensures
        final(v)@ == old(v)@.update(i as int, old(v)@[j as int]).update(j as int, old(v)@[i as int]),
{
    if i == j {
        assert(v@ =~= v@.update(i as int, v@[j as int]).update(j as int, v@[i as int]));
        return;
    }
    let ghost s = v@;
    let n = v.len();
    let mut tmp = v.pop().unwrap();
    if i == n - 1 {
        std::mem::swap(&mut v[j], &mut tmp);
        v.push(tmp);
    } else if j == n - 1 {
        std::mem::swap(&mut v[i], &mut tmp);
        v.push(tmp);
    } else {
        std::mem::swap(&mut v[i], &mut tmp);
        std::mem::swap(&mut v[j], &mut tmp);
        std::mem::swap(&mut v[i], &mut tmp);
        v.push(tmp);
    }
    assert(v@ =~= s.update(i as int, s[j as int]).update(j as int, s[i as int]));
}

/// `b` is `a` with the element at `from` moved down to `to`, the ones in between shifted
/// up by one.
pub open spec fn moved_down<X>(b: Seq<X>, a: Seq<X>, from: int, to: int) -> bool {
    &&& b.len() == a.len()
    &&& b[to] == a[from]
    &&& forall|j: int| 0 <= j < b.len() && (j < to || j > from) ==> #[trigger] b[j] == a[j]
    &&& forall|j: int| to < j <= from ==> #[trigger] b[j] == a[j - 1]
}

/// The position `i` as an integer.
pub open spec fn ix(i: usize) -> int {
    i as int
}

/// A storage packed by ownership with the types `pack` is ready to be packed for an entity
/// holding exactly the types `slice`: each type of the pack is in `slice`, and no type of
/// `slice` comes after the last of the pack. No entity fits an empty pack.
pub open spec fn owned_pack_fits(pack: Seq<TypeId>, slice: Seq<TypeId>) -> bool {
    if pack.len() == 0 {
        slice.len() == 0
    } else {
        &&& forall|k: int| 0 <= k < pack.len() ==> slice.contains(#[trigger] pack[k])
        &&& forall|j: int| 0 <= j < slice.len() ==> (#[trigger] slice[j]).0 <= pack.last().0
    }
}

/// Components of one type, found from their entity in constant time.
///
/// `dense` lists the entities that have a component, `data` their components at the same
/// positions, and `sparse[entity.index]` the position of the entity's component. For each
/// component present, `dense[sparse[entity.index]] == entity`. The first entities, as many
/// as the pack holds, are the packed ones.
#[derive(Debug)]
pub struct SparseArray<T> {
    pub sparse: Vec<usize>,
    pub dense: Vec<EntityId>,
    pub data: Vec<T>,
    pub pack_info: PackInfo,
    /// The storage types this storage is packed with, by ownership.
    pub owned_type: Vec<TypeId>,
}

impl<T> SparseArray<T> {
    /// Every listed entity is found back from its index, and the pack lies inside the list.
    pub open spec fn wf(&self) -> bool {
        &&& self.dense@.len() == self.data@.len()
        &&& forall|k: int| 0 <= k < self.dense@.len() ==> (#[trigger] self.dense@[k]).index < self.sparse@.len()
            && self.sparse@[self.dense@[k].index as int] == k
        &&& self.pack_info.pack_len() <= self.dense@.len()
    }

    /// Position in `dense` of the component at entity index `i`, if one is there.
    pub open spec fn slot(&self, i: int) -> Option<int> {
        if 0 <= i < self.sparse@.len() && self.sparse@[i] < self.dense@.len()
            && self.dense@[self.sparse@[i] as int].index == i {
            Some(self.sparse@[i] as int)
        } else {
            None
        }
    }

    /// The entity and component at entity index `i`, if there is one.
    pub open spec fn entry(&self, i: int) -> Option<(EntityId, T)> {
        match self.slot(i) {
            Some(k) => Some((self.dense@[k], self.data@[k])),
            None => None,
        }
    }

    /// The component of `e`.
    pub open spec fn get_spec(&self, e: EntityId) -> Option<T> {
        match self.entry(e.index as int) {
            Some((k, v)) => if k == e { Some(v) } else { None },
            None => None,
        }
    }

    /// `e` has a component, and it is packed.
    pub open spec fn packed(&self, e: EntityId) -> bool {
        match self.slot(e.index as int) {
            Some(k) => self.dense@[k] == e && k < self.pack_info.pack_len(),
            None => false,
        }
    }

    /// No entity but `e` has a component at `e`'s index.
    pub open spec fn index_free_for(&self, e: EntityId) -> bool {
        forall|k: int| 0 <= k < self.dense@.len() && (#[trigger] self.dense@[k]).index == e.index ==> self.dense@[k] == e
    }

    /// The entity listed at `k` is found back from its index.
    pub proof fn lemma_slot(&self, k: int)
        requires
            self.wf(),
            0 <= k < self.dense@.len(),
        ensures
            self.slot(self.dense@[k].index as int) == Some(k),
    {
    }

    /// An empty array, not packed.
    pub fn new() -> (s: SparseArray<T>)
        ensures
            s.wf(),
            forall|i: int| #[trigger] s.entry(i) is None,
            s.dense@.len() == 0,
            s.pack_info is NoPack,
            s.owned_type@.len() == 0,
    {
        SparseArray { sparse: Vec::new(), dense: Vec::new(), data: Vec::new(), pack_info: PackInfo::NoPack, owned_type: Vec::new() }
    }

    /// Number of components.
    pub fn len(&self) -> (n: usize)
        ensures
            n == self.dense@.len(),
    {
        self.dense.len()
    }

    /// Returns `true` if `entity` has a component.
    pub fn contains(&self, entity: EntityId) -> (b: bool)
        requires
            self.wf(),
        ensures
            b == self.get_spec(entity) is Some,
    {
        let i = entity.index as usize;
        i < self.sparse.len() && self.sparse[i] < self.dense.len() && self.dense[self.sparse[i]] == entity
    }

    /// The component of `entity`.
    pub fn get(&self, entity: EntityId) -> (r: Option<&T>)
        requires
            self.wf(),
        ensures
            match self.get_spec(entity) {
                Some(v) => r == Some(&v),
                None => r is None,
            },
    {
        if self.contains(entity) {
            Some(&self.data[self.sparse[entity.index as usize]])
        } else {
            None
        }
    }

    /// The component of `entity`, to change in place.
    pub fn get_mut(&mut self, entity: EntityId) -> (r: Option<&mut T>)
        requires
            old(self).wf(),
        ensures
            match old(self).get_spec(entity) {
                Some(v) => r matches Some(x) && *x == v && ({
                    let k = old(self).sparse@[entity.index as int] as int;
                    *final(self) == (SparseArray { data: final(self).data, ..*old(self) })
                        && final(self).data@ == old(self).data@.update(k, *final(x))
                }),
                None => r is None && *final(self) == *old(self),
            },
    {
        if self.contains(entity) {
            let k = self.sparse[entity.index as usize];
            Some(&mut self.data[k])
        } else {
            None
        }
    }

    /// Gives `entity` the component `value`, handing back the one it had.
    ///
    /// A new component goes at the end, out of the pack.
    pub fn insert(&mut self, value: T, entity: EntityId) -> (r: Option<T>)
        requires
            old(self).wf(),
            old(self).index_free_for(entity),
            old(self).dense@.len() < usize::MAX,
            entity.index < usize::MAX,
        ensures
            final(self).wf(),
            r == old(self).get_spec(entity),
            final(self).entry(entity.index as int) == Some((entity, value)),
            forall|i: int| i != entity.index ==> #[trigger] final(self).entry(i) == old(self).entry(i),
            final(self).pack_info == old(self).pack_info,
            final(self).owned_type == old(self).owned_type,
            final(self).dense@.subrange(0, old(self).dense@.len() as int) == old(self).dense@,
            forall|e: EntityId| #[trigger] final(self).packed(e) == old(self).packed(e),
    {
        let ghost s0 = *old(self);
        let i = entity.index as usize;
        if i >= self.sparse.len() {
            self.sparse.resize(i + 1, 0);
        }
        let ghost s1 = *self;
        proof {
            assert forall|k: int| 0 <= k < s1.dense@.len() implies (#[trigger] s1.dense@[k]).index < s1.sparse@.len()
                && s1.sparse@[s1.dense@[k].index as int] == k by {
                assert(s0.sparse@[s0.dense@[k].index as int] == k);
            }
            assert forall|j: int| #[trigger] s1.entry(j) == s0.entry(j) by {
                if s1.slot(j) is Some {
                    let k = s1.sparse@[j] as int;
                    if j >= s0.sparse@.len() {
                        s0.lemma_slot(k);
                    }
                }
                if s0.slot(j) is Some {
                    assert(s1.sparse@[j] == s0.sparse@[j]);
                }
            }
            assert forall|e: EntityId| #[trigger] s1.packed(e) == s0.packed(e) by {
                assert(s1.slot(e.index as int) == s0.slot(e.index as int)) by {
                    let j = e.index as int;
                    if s1.slot(j) is Some && j >= s0.sparse@.len() {
                        s0.lemma_slot(s1.sparse@[j] as int);
                    }
                    if s0.slot(j) is Some {
                        assert(s1.sparse@[j] == s0.sparse@[j]);
                    }
                }
            }
        }
        if self.contains(entity) {
            let k = self.sparse[i];
            let mut value = value;
            std::mem::swap(&mut self.data[k], &mut value);
            proof {
                assert(self.dense@.subrange(0, s0.dense@.len() as int) =~= s0.dense@);
                assert forall|e: EntityId| #[trigger] self.packed(e) == s0.packed(e) by {
                    assert(self.slot(e.index as int) == s1.slot(e.index as int));
                }
            }
            Some(value)
        } else {
            let n = self.dense.len();
            proof {
                assert forall|k: int| 0 <= k < s1.dense@.len() implies (#[trigger] s1.dense@[k]).index != i by {
                    if s1.dense@[k].index == i {
                        assert(s0.dense@[k] == entity);
                        s1.lemma_slot(k);
                    }
                }
            }
            self.sparse.set(i, n);
            self.dense.push(entity);
            self.data.push(value);
            proof {
                assert(self.dense@.subrange(0, s0.dense@.len() as int) =~= s0.dense@);
                assert forall|k: int| 0 <= k < self.dense@.len() implies (#[trigger] self.dense@[k]).index < self.sparse@.len()
                    && self.sparse@[self.dense@[k].index as int] == k by {
                    if k < n {
                        assert(s1.dense@[k].index != i);
                        assert(s1.sparse@[s1.dense@[k].index as int] == k);
                    }
                }
                assert forall|j: int| j != i implies #[trigger] self.entry(j) == s1.entry(j) by {
                    if self.slot(j) is Some {
                        assert(self.sparse@[j] == s1.sparse@[j]);
                        if self.sparse@[j] == n {
                            assert(self.dense@[n as int].index == i);
                        }
                    }
                    if s1.slot(j) is Some {
                        assert(self.sparse@[j] == s1.sparse@[j]);
                    }
                }
                assert forall|e: EntityId| #[trigger] self.packed(e) == s1.packed(e) by {
                    let j = e.index as int;
                    if j != i {
                        assert(self.entry(j) == s1.entry(j));
                        assert(self.slot(j) == s1.slot(j));
                    } else {
                        assert(s1.slot(j) is None);
                    }
                }
            }
            None
        }
    }

    /// Returns `true` if the storage is packed by ownership.
    pub fn is_packed_owned(&self) -> (b: bool)
        ensures
            b == (self.owned_type@.len() > 0),
    {
        self.owned_type.len() > 0
    }

    /// The types this storage is packed with by ownership.
    pub fn pack_types_owned(&self) -> (t: &[TypeId])
        ensures
            t@ == self.owned_type@,
    {
        self.owned_type.as_slice()
    }

    /// The entities that have a component, in storage order.
    pub fn clone_indices(&self) -> (v: Vec<EntityId>)
        ensures
            v@ == self.dense@,
    {
        self.dense.clone()
    }

    /// Packs this storage by ownership with `types`.
    pub fn pack_with(&mut self, types: Vec<TypeId>)
        ensures
            final(self).owned_type == types,
            final(self).sparse == old(self).sparse,
            final(self).dense == old(self).dense,
            final(self).data == old(self).data,
            final(self).pack_info == old(self).pack_info,
    {
        self.owned_type = types;
    }

    /// The types this storage is packed with by ownership, when an entity holding `slice`
    /// (in order, no type twice) fits the pack; nothing otherwise.
    pub fn should_pack_owned(&self, slice: &[TypeId]) -> (r: &[TypeId])
        requires
            strictly_sorted(self.owned_type@),
            strictly_sorted(slice@),
        ensures
            owned_pack_fits(self.owned_type@, slice@) ==> r@ == self.owned_type@,
            !owned_pack_fits(self.owned_type@, slice@) ==> r@.len() == 0,
    {
        let pack_types = self.pack_types_owned();
        let ghost p = pack_types@;
        let ghost q = slice@;
        let empty: &[TypeId] = &[];
        assert(empty@.len() == 0);
        let mut i: usize = 0;
        let mut j: usize = 0;
        while i < pack_types.len() && j < slice.len()
            invariant
                p == pack_types@,
                p == self.owned_type@,
                q == slice@,
                strictly_sorted(p),
                strictly_sorted(q),
                i <= p.len(),
                j <= q.len(),
                forall|k: int| 0 <= k < i ==> q.subrange(0, j as int).contains(#[trigger] p[k]),
                i < p.len() ==> forall|m: int| 0 <= m < j ==> q[m].0 < p[i as int].0,
                i == p.len() && p.len() > 0 ==> forall|m: int| 0 <= m < j ==> q[m].0 <= p.last().0,
                p.len() == 0 ==> j == 0,
                empty@.len() == 0,
            decreases p.len() - i + q.len() - j,
        {
            let a = pack_types[i];
            let b = slice[j];
            if a.0 == b.0 {
                proof {
                    assert forall|k: int| 0 <= k < i + 1 implies q.subrange(0, j + 1).contains(#[trigger] p[k]) by {
                        if k < i {
                            let m = choose|m: int| 0 <= m < j && q.subrange(0, j as int)[m] == p[k];
                            assert(q.subrange(0, j + 1)[m] == p[k]);
                        } else {
                            assert(q.subrange(0, j + 1)[j as int] == p[k]);
                        }
                    }
                    if i + 1 < p.len() {
                        assert(p[i as int].0 < p[i + 1].0);
                    }
                }
                i += 1;
                j += 1;
            } else if a.0 > b.0 {
                proof {
                    assert forall|k: int| 0 <= k < i implies q.subrange(0, j + 1).contains(#[trigger] p[k]) by {
                        let m = choose|m: int| 0 <= m < j && q.subrange(0, j as int)[m] == p[k];
                        assert(q.subrange(0, j + 1)[m] == p[k]);
                    }
                }
                j += 1;
            } else {
                proof {
                    if q.contains(p[i as int]) {
                        let m = choose|m: int| 0 <= m < q.len() && q[m] == p[i as int];
                        if m >= j {
                            assert(q[j as int].0 <= q[m].0);
                        }
                    }
                    assert(!q.contains(p[i as int]));
                    assert(!owned_pack_fits(p, q));
                }
                return empty;
            }
        }
        if i == pack_types.len() && j == slice.len() {
            proof {
                assert(q.subrange(0, j as int) =~= q);
            }
            pack_types
        } else {
            proof {
                if i < p.len() {
                    assert(q.subrange(0, j as int) =~= q);
                    if q.contains(p[i as int]) {
                        let m = choose|m: int| 0 <= m < q.len() && q[m] == p[i as int];
                    }
                } else if p.len() > 0 {
                    let k = p.len() - 1;
                    assert(q.subrange(0, j as int).contains(p[k]));
                    let m = choose|m: int| 0 <= m < j && q.subrange(0, j as int)[m] == p[k];
                    assert(q[m].0 < q[j as int].0);
                    assert(!(q[j as int].0 <= p.last().0));
                }
            }
            empty
        }
    }

    /// Moves the component at position `from`, with its entity, down to position `to`; the
    /// ones in between move up by one. Every entity keeps its component.
    pub(crate) fn move_down(&mut self, from: usize, to: usize)
        requires
            old(self).wf(),
            to <= from < old(self).dense@.len(),
        ensures
            final(self).wf(),
            forall|i: int| #[trigger] final(self).entry(i) == old(self).entry(i),
            moved_down(final(self).dense@, old(self).dense@, from as int, to as int),
            moved_down(final(self).data@, old(self).data@, from as int, to as int),
            final(self).pack_info == old(self).pack_info,
            final(self).owned_type == old(self).owned_type,
            final(self).sparse@.len() == old(self).sparse@.len(),
    {
        let ghost s0 = *old(self);
        let mut k = from;
        while k > to
            invariant
                self.wf(),
                to <= k <= from < s0.dense@.len(),
                forall|i: int| #[trigger] self.entry(i) == s0.entry(i),
                moved_down(self.dense@, s0.dense@, from as int, k as int),
                moved_down(self.data@, s0.data@, from as int, k as int),
                self.pack_info == s0.pack_info,
                self.owned_type == s0.owned_type,
                self.sparse@.len() == s0.sparse@.len(),
            decreases k,
        {
            self.swap_positions(k - 1, k);
            k -= 1;
        }
    }

    /// Exchanges the components at positions `a` and `b`, with their entities.
    fn swap_positions(&mut self, a: usize, b: usize)
        requires
            old(self).wf(),
            a < old(self).dense@.len(),
            b < old(self).dense@.len(),
        ensures
            final(self).wf(),
            forall|i: int| #[trigger] final(self).entry(i) == old(self).entry(i),
            final(self).dense@ == old(self).dense@.update(a as int, old(self).dense@[b as int]).update(b as int, old(self).dense@[a as int]),
            final(self).data@ == old(self).data@.update(a as int, old(self).data@[b as int]).update(b as int, old(self).data@[a as int]),
            final(self).pack_info == old(self).pack_info,
            final(self).owned_type == old(self).owned_type,
            forall|i: int| 0 <= i < old(self).sparse@.len() && i != old(self).dense@[a as int].index
                && i != old(self).dense@[b as int].index ==> #[trigger] final(self).sparse@[i] == old(self).sparse@[i],
            final(self).sparse@.len() == old(self).sparse@.len(),
    {
        let ghost s0 = *old(self);
        let ea = self.dense[a];
        let eb = self.dense[b];
        proof {
            s0.lemma_slot(a as int);
            s0.lemma_slot(b as int);
        }
        self.sparse.set(ea.index as usize, b);
        self.sparse.set(eb.index as usize, a);
        swap_at(&mut self.dense, a, b);
        swap_at(&mut self.data, a, b);
        proof {
            assert(a != b ==> ea.index != eb.index);
            assert forall|k: int| 0 <= k < self.dense@.len() implies (#[trigger] self.dense@[k]).index < self.sparse@.len()
                && self.sparse@[self.dense@[k].index as int] == k by {
                if k != a && k != b {
                    s0.lemma_slot(k);
                    assert(s0.dense@[k].index != ea.index);
                    assert(s0.dense@[k].index != eb.index);
                }
            }
            assert forall|i: int| #[trigger] self.entry(i) == s0.entry(i) by {
                if i == ea.index {
                } else if i == eb.index {
                } else {
                    if self.slot(i) is Some {
                        let k = self.sparse@[i] as int;
                        assert(k != a && k != b);
                    }
                    if s0.slot(i) is Some {
                        let k = s0.sparse@[i] as int;
                        assert(k != a && k != b);
                    }
                }
            }
        }
    }

    /// Takes the last component out; it is not packed.
    fn pop_last(&mut self) -> (v: T)
        requires
            old(self).wf(),
            old(self).pack_info.pack_len() < old(self).dense@.len(),
        ensures
            final(self).wf(),
            v == old(self).data@.last(),
            final(self).entry(old(self).dense@.last().index as int) is None,
            forall|i: int| i != old(self).dense@.last().index ==> #[trigger] final(self).entry(i) == old(self).entry(i),
            final(self).dense@ == old(self).dense@.drop_last(),
            final(self).data@ == old(self).data@.drop_last(),
            final(self).sparse == old(self).sparse,
            final(self).pack_info == old(self).pack_info,
            final(self).owned_type == old(self).owned_type,
    {
        let ghost s0 = *old(self);
        let ghost n = s0.dense@.len() as int;
        self.dense.pop();
        let v = self.data.pop().unwrap();
        proof {
            s0.lemma_slot(n - 1);
            assert forall|i: int| i != s0.dense@.last().index implies #[trigger] self.entry(i) == s0.entry(i) by {
                if s0.slot(i) is Some {
                    assert(s0.sparse@[i] != n - 1);
                }
            }
        }
        v
    }

    /// Takes `entity`'s component out and hands it back.
    ///
    /// A packed component first leaves the pack, whose last packed component takes its
    /// place; then the last component takes the place of the one removed.
    pub fn remove(&mut self, entity: EntityId) -> (r: Option<T>)
        requires
            old(self).wf(),
        ensures
            final(self).wf(),
            r == old(self).get_spec(entity),
            r is Some ==> final(self).entry(entity.index as int) is None,
            forall|i: int| i != entity.index ==> #[trigger] final(self).entry(i) == old(self).entry(i),
            r is None ==> *final(self) == *old(self),
            forall|e: EntityId| #[trigger] final(self).packed(e) == (old(self).packed(e) && e != entity),
            final(self).pack_info.same_kind(&old(self).pack_info),
            final(self).pack_info.pack_len() == old(self).pack_info.pack_len() - (if old(self).packed(entity) { 1int } else { 0 }),
            final(self).owned_type == old(self).owned_type,
    {
        if !self.contains(entity) {
            return None;
        }
        let ghost s0 = *old(self);
        let ghost i = entity.index as int;
        let d = self.sparse[entity.index as usize];
        let pack_len = self.pack_info.len();
        let mut p = d;
        if d < pack_len {
            self.swap_positions(d, pack_len - 1);
            let ghost sa = *self;
            self.pack_info.shrink();
            proof {
                assert forall|j: int| #[trigger] self.entry(j) == s0.entry(j) by {
                    assert(sa.entry(j) == s0.entry(j));
                }
            }
            p = pack_len - 1;
        }
        let ghost s1 = *self;
        proof {
            assert(s1.wf());
            assert(s1.entry(i) == s0.entry(i));
            assert(s1.dense@[p as int] == entity);
            assert forall|e: EntityId| #[trigger] s1.packed(e) == (s0.packed(e) && e != entity) by {
                let j = e.index as int;
                assert(s1.entry(j) == s0.entry(j));
                if s1.slot(j) is Some {
                    s1.lemma_slot(s1.slot(j)->0);
                }
                if s0.slot(j) is Some {
                    s0.lemma_slot(s0.slot(j)->0);
                }
            }
        }
        let n = self.dense.len();
        self.swap_positions(p, n - 1);
        let ghost s2 = *self;
        proof {
            assert forall|j: int| #[trigger] s2.entry(j) == s0.entry(j) by {
                assert(s1.entry(j) == s0.entry(j));
            }
            assert(s2.dense@.last() == entity);
            assert forall|e: EntityId| #[trigger] s2.packed(e) == s1.packed(e) by {
                let j = e.index as int;
                assert(s2.entry(j) == s1.entry(j));
                if s2.slot(j) is Some {
                    s2.lemma_slot(s2.slot(j)->0);
                }
                if s1.slot(j) is Some {
                    s1.lemma_slot(s1.slot(j)->0);
                }
            }
        }
        let v = self.pop_last();
        proof {
            assert forall|j: int| j != i implies #[trigger] self.entry(j) == s0.entry(j) by {
                assert(s2.entry(j) == s0.entry(j));
            }
            assert forall|e: EntityId| #[trigger] self.packed(e) == (s2.packed(e) && e != entity) by {
                let j = e.index as int;
                if j != i {
                    assert(self.entry(j) == s2.entry(j));
                    if self.slot(j) is Some {
                        self.lemma_slot(self.slot(j)->0);
                    }
                    if s2.slot(j) is Some {
                        s2.lemma_slot(s2.slot(j)->0);
                    }
                } else {
                    assert(self.entry(j) is None);
                }
            }
        }
        Some(v)
    }

    /// Moves `entity`'s component into a tight pack, right after the packed ones.
    pub fn pack(&mut self, entity: EntityId)
        requires
            old(self).wf(),
        ensures
            final(self).wf(),
            forall|i: int| #[trigger] final(self).entry(i) == old(self).entry(i),
            forall|e: EntityId| #[trigger] final(self).packed(e) == (old(self).packed(e)
                || (e == entity && old(self).get_spec(entity) is Some && old(self).pack_info is Tight)),
            final(self).pack_info.same_kind(&old(self).pack_info),
            final(self).owned_type == old(self).owned_type,
    {
        if self.contains(entity) {
            let d = self.sparse[entity.index as usize];
            let is_tight = match &self.pack_info {
                PackInfo::Tight(_) => true,
                _ => false,
            };
            let len = self.pack_info.len();
            if is_tight && d >= len {
                let ghost s0 = *self;
                let n = self.dense.len();
                assert(d < n);
                self.swap_positions(len, d);
                let ghost sa = *self;
                self.pack_info.grow();
                proof {
                    assert forall|j: int| #[trigger] self.entry(j) == s0.entry(j) by {
                        assert(sa.entry(j) == s0.entry(j));
                    }
                    assert forall|e: EntityId| #[trigger] self.packed(e) == (s0.packed(e) || e == entity) by {
                        let j = e.index as int;
                        assert(self.entry(j) == s0.entry(j));
                        if self.slot(j) is Some {
                            self.lemma_slot(self.slot(j)->0);
                        }
                        if s0.slot(j) is Some {
                            s0.lemma_slot(s0.slot(j)->0);
                        }
                    }
                }
            }
        }
    }

    /// Moves the component at `entity`'s index out of the pack, to the end of the packed
    /// ones, whose last packed component takes its place and index. The entry of `entity`'s
    /// own index is left as it was.
    pub fn unpack(&mut self, entity: EntityId)
        requires
            old(self).wf(),
            entity.index < old(self).sparse@.len(),
        ensures
            ({
                let d = old(self).sparse@[entity.index as int] as int;
                let l = old(self).pack_info.pack_len();
                if d < l {
                    &&& final(self).sparse@ == old(self).sparse@.update(old(self).dense@[l - 1].index as int, d as usize)
                    &&& final(self).dense@ == old(self).dense@.update(d, old(self).dense@[l - 1]).update(l - 1, old(self).dense@[d])
                    &&& final(self).data@ == old(self).data@.update(d, old(self).data@[l - 1]).update(l - 1, old(self).data@[d])
                    &&& final(self).pack_info.pack_len() == l - 1
                    &&& final(self).pack_info.same_kind(&old(self).pack_info)
                    &&& final(self).owned_type == old(self).owned_type
                } else {
                    *final(self) == *old(self)
                }
            }),
    {
        let d = self.sparse[entity.index as usize];
        let pack_len = self.pack_info.len();
        if d < pack_len {
            self.pack_info.shrink();
            let last = self.dense[pack_len - 1];
            self.sparse.set(last.index as usize, d);
            swap_at(&mut self.dense, d, pack_len - 1);
            swap_at(&mut self.data, d, pack_len - 1);
        }
    }
}

impl<T> Default for SparseArray<T> {
    /// An empty array, not packed.
    fn default() -> (s: SparseArray<T>)
        ensures
            s.wf(),
            forall|i: int| #[trigger] s.entry(i) is None,
            s.dense@.len() == 0,
            s.pack_info is NoPack,
            s.owned_type@.len() == 0,
    {
        SparseArray::new()
    }
}

/// Shared view into the parts of a sparse array.
pub struct ArrayView<'a, T> {
    pub sparse: &'a [usize],
    pub dense: &'a [EntityId],
    pub data: &'a [T],
    pub pack_info: &'a PackInfo,
}

impl<'a, T> ArrayView<'a, T> {
    /// Returns `true` if `entity` has a component.
    pub fn contains(&self, entity: EntityId) -> (b: bool)
        ensures
            b == (entity.index < self.sparse@.len() && self.sparse@[entity.index as int] < self.dense@.len()
                && self.dense@[self.sparse@[entity.index as int] as int] == entity),
    {
        let i = entity.index as usize;
        i < self.sparse.len() && self.sparse[i] < self.dense.len() && self.dense[self.sparse[i]] == entity
    }

    /// The component of `entity`.
    pub fn get(&self, entity: EntityId) -> (r: Option<&'a T>)
        requires
            self.dense@.len() == self.data@.len(),
        ensures
            r == (if entity.index < self.sparse@.len() && self.sparse@[entity.index as int] < self.dense@.len()
                && self.dense@[self.sparse@[entity.index as int] as int] == entity {
                Some(&self.data@[self.sparse@[entity.index as int] as int])
            } else {
                None
            }),
    {
        if self.contains(entity) {
            Some(&self.data[self.sparse[entity.index as usize]])
        } else {
            None
        }
    }

    /// Number of components.
    pub fn len(&self) -> (n: usize)
        ensures
            n == self.dense@.len(),
    {
        self.dense.len()
    }
}

/// Mutable view into a sparse array.
pub struct ViewMut<'a, T> {
    pub array: &'a mut SparseArray<T>,
}

impl<'a, T> ViewMut<'a, T> {
    /// The array seen through this view.
    pub open spec fn store(&self) -> SparseArray<T> {
        *self.array
    }

    /// Number of components.
    pub fn len(&self) -> (n: usize)
        ensures
            n == self.store().dense@.len(),
    {
        self.array.len()
    }

    /// Returns `true` if `entity` has a component.
    pub fn contains(&self, entity: EntityId) -> (b: bool)
        requires
            self.store().wf(),
        ensures
            b == self.store().get_spec(entity) is Some,
    {
        self.array.contains(entity)
    }

    /// The component of `entity`.
    pub fn get(&self, entity: EntityId) -> (r: Option<&T>)
        requires
            self.store().wf(),
        ensures
            match self.store().get_spec(entity) {
                Some(v) => r == Some(&v),
                None => r is None,
            },
    {
        self.array.get(entity)
    }

    /// The component of `entity`, to change in place; see [`SparseArray::get_mut`].
    pub fn get_mut(&mut self, entity: EntityId) -> (r: Option<&mut T>)
        requires
            old(self).store().wf(),
        ensures
            *final(final(self).array) == *final(old(self).array),
            match old(self).store().get_spec(entity) {
                Some(v) => r matches Some(x) && *x == v && ({
                    let k = old(self).store().sparse@[entity.index as int] as int;
                    final(self).store() == (SparseArray { data: final(self).store().data, ..old(self).store() })
                        && final(self).store().data@ == old(self).store().data@.update(k, *final(x))
                }),
                None => r is None && final(self).store() == old(self).store(),
            },
    {
        self.array.get_mut(entity)
    }

    /// Gives `entity` the component `value`; see [`SparseArray::insert`].
    pub fn insert(&mut self, value: T, entity: EntityId) -> (r: Option<T>)
        requires
            old(self).store().wf(),
            old(self).store().index_free_for(entity),
            old(self).store().dense@.len() < usize::MAX,
            entity.index < usize::MAX,
        ensures
            *final(final(self).array) == *final(old(self).array),
            final(self).store().wf(),
            r == old(self).store().get_spec(entity),
            final(self).store().entry(entity.index as int) == Some((entity, value)),
            forall|i: int| i != entity.index ==> #[trigger] final(self).store().entry(i) == old(self).store().entry(i),
            forall|e: EntityId| #[trigger] final(self).store().packed(e) == old(self).store().packed(e),
    {
        self.array.insert(value, entity)
    }

    /// Takes `entity`'s component out; see [`SparseArray::remove`].
    pub fn remove(&mut self, entity: EntityId) -> (r: Option<T>)
        requires
            old(self).store().wf(),
        ensures
            *final(final(self).array) == *final(old(self).array),
            final(self).store().wf(),
            r == old(self).store().get_spec(entity),
            r is Some ==> final(self).store().entry(entity.index as int) is None,
            forall|i: int| i != entity.index ==> #[trigger] final(self).store().entry(i) == old(self).store().entry(i),
            forall|e: EntityId| #[trigger] final(self).store().packed(e) == (old(self).store().packed(e) && e != entity),
    {
        self.array.remove(entity)
    }

    /// Moves `entity`'s component into a tight pack; see [`SparseArray::pack`].
    pub fn pack(&mut self, entity: EntityId)
        requires
            old(self).store().wf(),
        ensures
            *final(final(self).array) == *final(old(self).array),
            final(self).store().wf(),
            forall|i: int| #[trigger] final(self).store().entry(i) == old(self).store().entry(i),
            forall|e: EntityId| #[trigger] final(self).store().packed(e) == (old(self).store().packed(e)
                || (e == entity && old(self).store().get_spec(entity) is Some && old(self).store().pack_info is Tight)),
            final(self).store().pack_info.same_kind(&old(self).store().pack_info),
            final(self).store().owned_type == old(self).store().owned_type,
    {
        self.array.pack(entity)
    }

    /// Moves the component at `entity`'s index out of the pack; see [`SparseArray::unpack`].
    pub fn unpack(&mut self, entity: EntityId)
        requires
            old(self).store().wf(),
            entity.index < old(self).store().sparse@.len(),
        ensures
            *final(final(self).array) == *final(old(self).array),
            ({
                let s0 = old(self).store();
                let s1 = final(self).store();
                let d = s0.sparse@[entity.index as int] as int;
                let l = s0.pack_info.pack_len();
                if d < l {
                    &&& s1.sparse@ == s0.sparse@.update(s0.dense@[l - 1].index as int, d as usize)
                    &&& s1.dense@ == s0.dense@.update(d, s0.dense@[l - 1]).update(l - 1, s0.dense@[d])
                    &&& s1.data@ == s0.data@.update(d, s0.data@[l - 1]).update(l - 1, s0.data@[d])
                    &&& s1.pack_info.pack_len() == l - 1
                    &&& s1.pack_info.same_kind(&s0.pack_info)
                    &&& s1.owned_type == s0.owned_type
                } else {
                    s1 == s0
                }
            }),
    {
        self.array.unpack(entity)
    }

    /// Shared view of the same array.
    pub fn as_non_mut(&self) -> (v: ArrayView<'_, T>)
        ensures
            v.sparse@ == self.store().sparse@,
            v.dense@ == self.store().dense@,
            v.data@ == self.store().data@,
            *v.pack_info == self.store().pack_info,
    {
        self.array.view()
    }
}

impl<T> SparseArray<T> {
    /// Shared view into the parts of this array.
    pub fn view(&self) -> (v: ArrayView<'_, T>)
        ensures
            v.sparse@ == self.sparse@,
            v.dense@ == self.dense@,
            v.data@ == self.data@,
            *v.pack_info == self.pack_info,
    {
        ArrayView { sparse: self.sparse.as_slice(), dense: self.dense.as_slice(), data: self.data.as_slice(), pack_info: &self.pack_info }
    }

    /// Mutable view into this array.
    pub fn view_mut(&mut self) -> (v: ViewMut<'_, T>)
        ensures
            v.store() == *old(self),
            *final(self) == *final(v.array),
    {
        ViewMut { array: self }
    }
}

} // verus!
