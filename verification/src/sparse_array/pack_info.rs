//! How a packed storage keeps the components of its pack at the front.
use crate::sparse_set::sort::{is_permutation, rearranged};
use crate::type_id::TypeId;
use vstd::prelude::*;

verus! {

/// A pack whose types are all owned by the storages it spans: the components of the
/// first `len` entities are packed.
#[derive(Debug)]
pub struct TightPack {
    pub types: Vec<TypeId>,
    pub len: usize,
}

impl TightPack {
    /// A pack of `types`, empty.
    pub fn new(types: Vec<TypeId>) -> (p: TightPack)
        ensures
            p.types == types,
            p.len == 0,
    {
        TightPack { types, len: 0 }
    }

    /// Whether an entity's types fit this pack; see [`check_types`].
    pub fn check_types(&self, components: &[TypeId], additional: &[TypeId]) -> (r: (bool, bool))
        ensures
            r.0 == all_present(self.types@, components@, additional@),
            r.1 == all_owned(self.types@, components@),
    {
        check_types(self.types.as_slice(), components, additional)
    }
}

/// A pack with types owned by the storages it spans and types it only reads.
#[derive(Debug)]
pub struct LoosePack {
    pub tight_types: Vec<TypeId>,
    pub loose_types: Vec<TypeId>,
    pub len: usize,
}

impl LoosePack {
    /// A pack of `tight_types` and `loose_types`, empty.
    pub fn new(tight_types: Vec<TypeId>, loose_types: Vec<TypeId>) -> (p: LoosePack)
        ensures
            p.tight_types == tight_types,
            p.loose_types == loose_types,
            p.len == 0,
    {
        LoosePack { tight_types, loose_types, len: 0 }
    }

    /// Whether an entity's types fit this pack, its owned and read types together, put in
    /// increasing order; see [`check_types`].
    pub fn check_types(&self, components: &[TypeId], additional: &[TypeId]) -> (r: (bool, bool))
        ensures
            exists|p: Seq<TypeId>| #![trigger rearranged(p, self.tight_types@ + self.loose_types@)] {
                &&& rearranged(p, self.tight_types@ + self.loose_types@)
                &&& sorted(p)
                &&& r.0 == all_present(p, components@, additional@)
                &&& r.1 == all_owned(p, components@)
            },
    {
        let ghost all = self.tight_types@ + self.loose_types@;
        let mut ids: Vec<u64> = Vec::new();
        let mut k: usize = 0;
        while k < self.tight_types.len()
            invariant
                k <= self.tight_types@.len(),
                ids@.len() == k,
                forall|j: int| 0 <= j < k ==> #[trigger] ids@[j] == all[j].0,
                all == self.tight_types@ + self.loose_types@,
            decreases self.tight_types@.len() - k,
        {
            ids.push(self.tight_types[k].0);
            k += 1;
        }
        let mut k: usize = 0;
        while k < self.loose_types.len()
            invariant
                k <= self.loose_types@.len(),
                ids@.len() == self.tight_types@.len() + k,
                forall|j: int| 0 <= j < ids@.len() ==> #[trigger] ids@[j] == all[j].0,
                all == self.tight_types@ + self.loose_types@,
            decreases self.loose_types@.len() - k,
        {
            ids.push(self.loose_types[k].0);
            k += 1;
        }
        let ghost unsorted = ids@;
        sort_ids(&mut ids);
        let mut self_types: Vec<TypeId> = Vec::new();
        let mut k: usize = 0;
        while k < ids.len()
            invariant
                k <= ids@.len(),
                self_types@.len() == k,
                forall|j: int| 0 <= j < k ==> #[trigger] self_types@[j] == TypeId(ids@[j]),
            decreases ids@.len() - k,
        {
            self_types.push(TypeId(ids[k]));
            k += 1;
        }
        proof {
            let s = choose|s: Seq<usize>| #![trigger is_permutation(s, unsorted.len() as int)]
                is_permutation(s, unsorted.len() as int) && ids@.len() == unsorted.len()
                && forall|j: int| 0 <= j < ids@.len() ==> #[trigger] ids@[j] == unsorted[s[j] as int];
            let p = self_types@;
            assert(unsorted.len() == all.len());
            assert(is_permutation(s, all.len() as int));
            assert forall|j: int| 0 <= j < p.len() implies #[trigger] p[j] == all[s[j] as int] by {
                assert(ids@[j] == unsorted[s[j] as int]);
                assert(unsorted[s[j] as int] == all[s[j] as int].0);
            }
            assert(rearranged(p, all));
            assert forall|i: int, j: int| 0 <= i <= j < p.len() implies p[i].0 <= p[j].0 by {
                assert(ids@[i] <= ids@[j]);
            }
        }
        check_types(self_types.as_slice(), components, additional)
    }
}

/// How a storage is packed.
#[derive(Debug)]
pub enum PackInfo {
    Tight(TightPack),
    Loose(LoosePack),
    NoPack,
}

impl PackInfo {
    /// Number of entities at the front of the storage that are packed.
    pub open spec fn pack_len(&self) -> int {
        match self {
            PackInfo::Tight(p) => p.len as int,
            PackInfo::Loose(p) => p.len as int,
            PackInfo::NoPack => 0,
        }
    }

    /// Same kind of pack over the same types; only the number of packed entities may differ.
    pub open spec fn same_kind(&self, other: &PackInfo) -> bool {
        match (self, other) {
            (PackInfo::Tight(p), PackInfo::Tight(q)) => p.types == q.types,
            (PackInfo::Loose(p), PackInfo::Loose(q)) => p.tight_types == q.tight_types && p.loose_types == q.loose_types,
            (PackInfo::NoPack, PackInfo::NoPack) => true,
            _ => false,
        }
    }

    /// Number of packed entities.
    pub fn len(&self) -> (n: usize)
        ensures
            n == self.pack_len(),
    {
        match self {
            PackInfo::Tight(p) => p.len,
            PackInfo::Loose(p) => p.len,
            PackInfo::NoPack => 0,
        }
    }

    /// One entity fewer is packed.
    pub fn shrink(&mut self)
        requires
            old(self).pack_len() > 0,
        ensures
            final(self).pack_len() == old(self).pack_len() - 1,
            final(self).same_kind(old(self)),
    {
        match self {
            PackInfo::Tight(p) => p.len = p.len - 1,
            PackInfo::Loose(p) => p.len = p.len - 1,
            PackInfo::NoPack => {},
        }
    }

    /// One entity more is packed, for a tight pack.
    pub fn grow(&mut self)
        requires
            *old(self) is Tight,
            old(self).pack_len() < usize::MAX,
        ensures
            final(self).pack_len() == old(self).pack_len() + 1,
            final(self).same_kind(old(self)),
    {
        match self {
            PackInfo::Tight(p) => p.len = p.len + 1,
            _ => {},
        }
    }
}

impl Default for PackInfo {
    /// No pack.
    fn default() -> (p: PackInfo)
        ensures
            p is NoPack,
    {
        PackInfo::NoPack
    }
}

/// Sorts `ids` in increasing order.
///
/// Calls `slice::sort_unstable`; std documents that the slice comes back sorted, its
/// elements rearranged.
#[verifier::external_body]
fn sort_ids(ids: &mut Vec<u64>)
    ensures
        forall|i: int, j: int| 0 <= i <= j < final(ids)@.len() ==> final(ids)@[i] <= final(ids)@[j],
        rearranged(final(ids)@, old(ids)@),
{
    ids.sort_unstable();
}

/// `s` is in order, equal values allowed.
pub open spec fn sorted(s: Seq<TypeId>) -> bool {
    forall|i: int, j: int| 0 <= i <= j < s.len() ==> s[i].0 <= s[j].0
}

/// `s` is in order, with no value twice.
pub open spec fn strictly_sorted(s: Seq<TypeId>) -> bool {
    forall|i: int, j: int| 0 <= i < j < s.len() ==> s[i].0 < s[j].0
}

/// Every type of the pack `p` is among the types an entity has (`c`) or is about to get (`a`).
pub open spec fn all_present(p: Seq<TypeId>, c: Seq<TypeId>, a: Seq<TypeId>) -> bool {
    forall|k: int| 0 <= k < p.len() ==> c.contains(#[trigger] p[k]) || a.contains(p[k])
}

/// Every type of the pack `p` is among the types an entity has.
pub open spec fn all_owned(p: Seq<TypeId>, c: Seq<TypeId>) -> bool {
    forall|k: int| 0 <= k < p.len() ==> c.contains(#[trigger] p[k])
}

/// A pack with one type more fits when the rest fits and the entity has or gets that type.
proof fn lemma_present_push(p: Seq<TypeId>, t: TypeId, c: Seq<TypeId>, a: Seq<TypeId>)
    ensures
        all_present(p.push(t), c, a) == (all_present(p, c, a) && (c.contains(t) || a.contains(t))),
        all_owned(p.push(t), c) == (all_owned(p, c) && c.contains(t)),
{
    let q = p.push(t);
    assert(q[p.len() as int] == t);
    if all_present(q, c, a) {
        assert forall|k: int| 0 <= k < p.len() implies c.contains(#[trigger] p[k]) || a.contains(p[k]) by {
            assert(q[k] == p[k]);
        }
    }
    if all_present(p, c, a) && (c.contains(t) || a.contains(t)) {
        assert forall|k: int| 0 <= k < q.len() implies c.contains(#[trigger] q[k]) || a.contains(q[k]) by {
            if k < p.len() {
                assert(q[k] == p[k]);
            }
        }
    }
    if all_owned(q, c) {
        assert forall|k: int| 0 <= k < p.len() implies c.contains(#[trigger] p[k]) by {
            assert(q[k] == p[k]);
        }
    }
    if all_owned(p, c) && c.contains(t) {
        assert forall|k: int| 0 <= k < q.len() implies c.contains(#[trigger] q[k]) by {
            if k < p.len() {
                assert(q[k] == p[k]);
            }
        }
    }
}

/// Returns `true` if `ids` holds `id`.
fn holds(ids: &[TypeId], id: TypeId) -> (b: bool)
    ensures
        b == ids@.contains(id),
{
    let mut k: usize = 0;
    while k < ids.len()
        invariant
            k <= ids@.len(),
            forall|j: int| 0 <= j < k ==> ids@[j] != id,
        decreases ids@.len() - k,
    {
        if ids[k].0 == id.0 {
            assert(ids@[k as int] == id);
            return true;
        }
        k += 1;
    }
    false
}

/// Whether an entity's types fit the pack `self_types`: the first result is `true` when
/// every type of the pack is among the types the entity has (`components`) or may get
/// (`additional`), the second when every type of the pack is among `components`.
pub fn check_types(self_types: &[TypeId], components: &[TypeId], additional: &[TypeId]) -> (r: (bool, bool))
    ensures
        r.0 == all_present(self_types@, components@, additional@),
        r.1 == all_owned(self_types@, components@),
{
    let mut present = true;
    let mut owned = true;
    let mut k: usize = 0;
    while k < self_types.len()
        invariant
            k <= self_types@.len(),
            present == all_present(self_types@.subrange(0, k as int), components@, additional@),
            owned == all_owned(self_types@.subrange(0, k as int), components@),
        decreases self_types@.len() - k,
    {
        let t = self_types[k];
        let in_components = holds(components, t);
        let in_additional = holds(additional, t);
        let ghost before = self_types@.subrange(0, k as int);
        let ghost after = self_types@.subrange(0, k + 1);
        proof {
            assert(after =~= before.push(t));
            lemma_present_push(before, t, components@, additional@);
        }
        present = present && (in_components || in_additional);
        owned = owned && in_components;
        k += 1;
    }
    proof {
        assert(self_types@.subrange(0, self_types@.len() as int) =~= self_types@);
    }
    (present, owned)
}

} // verus!
