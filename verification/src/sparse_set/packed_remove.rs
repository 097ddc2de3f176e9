//! Removing a component from a packed storage, keeping its update sections in place.
use crate::entity_id::EntityId;
use crate::sparse_array::swap_at;
use crate::sparse_set::window::{Pack, PackedStorage};
use vstd::prelude::*;

verus! {

impl<T> PackedStorage<T> {
    /// Each listed entity is found back from its index, and the update sections lie
    /// inside the list.
    pub open spec fn consistent(&self) -> bool {
        &&& self.wf()
        &&& forall|k: int| 0 <= k < self.dense@.len() ==> self.sparse@[(#[trigger] self.dense@[k]).index as int] == k
        &&& (self.pack matches Pack::Update(p) ==> p.inserted + p.modified <= self.dense@.len())
    }

    /// Position in `dense` of the component at entity index `i`, if one is there.
    pub open spec fn slot(&self, i: int) -> Option<int> {
        if 0 <= i < self.sparse@.len() && self.sparse@[i] < self.dense@.len()
            && self.dense@[self.sparse@[i] as int].index == i {
            Some(self.sparse@[i] as int)
        } else {
            None
        }
    }

    /// The entity and component at entity index `i`, if there is one.
    pub open spec fn entry(&self, i: int) -> Option<(EntityId, T)> {
        match self.slot(i) {
            Some(k) => Some((self.dense@[k], self.data@[k])),
            None => None,
        }
    }

    /// The component of `e`.
    pub open spec fn get_spec(&self, e: EntityId) -> Option<T> {
        match self.entry(e.index as int) {
            Some((d, v)) => if d == e { Some(v) } else { None },
            None => None,
        }
    }

    /// Number of inserted components, at the front.
    pub open spec fn inserted_len(&self) -> int {
        match self.pack {
            Pack::Update(p) => p.inserted as int,
            Pack::NoPack => 0,
        }
    }

    /// Number of modified components, right after the inserted ones.
    pub open spec fn modified_len(&self) -> int {
        match self.pack {
            Pack::Update(p) => p.modified as int,
            Pack::NoPack => 0,
        }
    }

    proof fn lemma_slot(&self, k: int)
        requires
            self.consistent(),
            0 <= k < self.dense@.len(),
        ensures
            self.slot(self.dense@[k].index as int) == Some(k),
    {
    }

    /// Returns `true` if `entity` owns a component.
    pub fn contains(&self, entity: EntityId) -> (b: bool)
        requires
            self.wf(),
        ensures
            b == (self.get_spec(entity) is Some),
    {
        let i = entity.uindex();
        if i < self.sparse.len() {
            let d = self.sparse[i];
            d < self.dense.len() && self.dense[d] == entity
        } else {
            false
        }
    }

    /// Exchanges the components at `a` and `b`, with their entities.
    fn swap_positions(&mut self, a: usize, b: usize)
        requires
            old(self).consistent(),
            a < old(self).dense@.len(),
            b < old(self).dense@.len(),
        ensures
            final(self).consistent(),
            forall|i: int| #[trigger] final(self).entry(i) == old(self).entry(i),
            final(self).dense@ == old(self).dense@.update(a as int, old(self).dense@[b as int]).update(b as int, old(self).dense@[a as int]),
            final(self).data@ == old(self).data@.update(a as int, old(self).data@[b as int]).update(b as int, old(self).data@[a as int]),
            final(self).pack == old(self).pack,
    {
        let ghost s0 = *old(self);
        let ea = self.dense[a];
        let eb = self.dense[b];
        proof {
            s0.lemma_slot(a as int);
            s0.lemma_slot(b as int);
        }
        self.sparse.set(ea.uindex(), b);
        self.sparse.set(eb.uindex(), a);
        swap_at(&mut self.dense, a, b);
        swap_at(&mut self.data, a, b);
        proof {
            assert(a != b ==> ea.index != eb.index);
            assert forall|k: int| 0 <= k < self.dense@.len() implies (#[trigger] self.dense@[k]).index < self.sparse@.len() by {
                if k != a && k != b {
                    assert(self.dense@[k] == s0.dense@[k]);
                }
            }
            assert forall|k: int| 0 <= k < self.dense@.len() implies self.sparse@[(#[trigger] self.dense@[k]).index as int] == k by {
                if k != a && k != b {
                    s0.lemma_slot(k);
                    assert(s0.dense@[k].index != ea.index);
                    assert(s0.dense@[k].index != eb.index);
                }
            }
            assert forall|i: int| #[trigger] self.entry(i) == s0.entry(i) by {
                if i == ea.index {
                } else if i == eb.index {
                } else {
                    if self.slot(i) is Some {
                        let k = self.sparse@[i] as int;
                        assert(k != a && k != b);
                    }
                    if s0.slot(i) is Some {
                        let k = s0.sparse@[i] as int;
                        assert(k != a && k != b);
                    }
                }
            }
        }
    }

    /// Removes `entity`'s component and hands it back.
    ///
    /// A component of the inserted section leaves it: the last inserted component takes its
    /// place and the inserted section is one shorter. A component that then lies in the
    /// inserted or modified sections leaves them the same way: the last component of the
    /// modified section takes its place and the modified section is one shorter. Last, the
    /// last component of the storage takes the place of the one removed.
    pub fn remove(&mut self, entity: EntityId) -> (r: Option<T>)
        requires
            old(self).consistent(),
        ensures
            final(self).consistent(),
            r == old(self).get_spec(entity),
            r is Some ==> final(self).entry(entity.index as int) is None,
            forall|j: int| j != entity.index ==> #[trigger] final(self).entry(j) == old(self).entry(j),
            r is None ==> *final(self) == *old(self),
            r is Some ==> {
                let d = old(self).slot(entity.index as int)->0;
                let ins = old(self).inserted_len();
                let d2 = if d < ins { ins - 1 } else { d };
                let ins2 = if d < ins { ins - 1 } else { ins };
                &&& final(self).inserted_len() == ins2
                &&& final(self).modified_len() == (if d2 < ins2 + old(self).modified_len() { old(self).modified_len() - 1 } else { old(self).modified_len() })
                &&& (old(self).pack is NoPack <==> final(self).pack is NoPack)
            },
    {
        if !self.contains(entity) {
            return None;
        }
        let ghost s0 = *old(self);
        let ghost i = entity.index as int;
        let mut d = self.sparse[entity.uindex()];
        let mut pack = Pack::NoPack;
        std::mem::swap(&mut pack, &mut self.pack);
        let mut ins: usize = 0;
        let mut modif: usize = 0;
        let mut deleted = Vec::new();
        let mut removed = Vec::new();
        let mut is_update = false;
        match pack {
            Pack::Update(p) => {
                ins = p.inserted;
                modif = p.modified;
                deleted = p.deleted;
                removed = p.removed;
                is_update = true;
            },
            Pack::NoPack => {},
        }
        assert(is_update ==> ins + modif <= s0.dense@.len() && s0.pack == Pack::Update(
            crate::sparse_set::window::UpdatePack { inserted: ins, modified: modif, deleted, removed }));
        assert(!is_update ==> s0.pack is NoPack);
        let ghost s_np = *self;
        assert(s_np.consistent());
        assert forall|j: int| #[trigger] s_np.entry(j) == s0.entry(j) by {}
        let n = self.dense.len();
        if is_update {
            assert(ins + modif <= n);
            if d < ins {
                ins = ins - 1;
                self.swap_positions(d, ins);
                d = ins;
            }
            assert(self.dense@.len() == n);
            if d < ins + modif {
                modif = modif - 1;
                self.swap_positions(d, ins + modif);
                d = ins + modif;
            }
        }
        let ghost s1 = *self;
        proof {
            assert forall|j: int| #[trigger] s1.entry(j) == s0.entry(j) by {
                assert(s_np.entry(j) == s0.entry(j));
            }
            assert(s1.dense@[d as int] == entity);
        }
        self.swap_positions(d, n - 1);
        let ghost s2 = *self;
        proof {
            assert forall|j: int| #[trigger] s2.entry(j) == s0.entry(j) by {
                assert(s1.entry(j) == s0.entry(j));
            }
            assert(s2.dense@.last() == entity);
            s2.lemma_slot(n - 1);
        }
        self.dense.pop();
        let v = self.data.pop().unwrap();
        if is_update {
            self.pack = Pack::Update(crate::sparse_set::window::UpdatePack { inserted: ins, modified: modif, deleted, removed });
        }
        proof {
            assert forall|k: int| 0 <= k < self.dense@.len() implies self.sparse@[(#[trigger] self.dense@[k]).index as int] == k by {
                assert(self.dense@[k] == s2.dense@[k]);
            }
            assert forall|j: int| j != i implies #[trigger] self.entry(j) == s0.entry(j) by {
                assert(s2.entry(j) == s0.entry(j));
                if s2.slot(j) is Some {
                    assert(s2.sparse@[j] != n - 1);
                }
            }
        }
        Some(v)
    }
}

} // verus!
