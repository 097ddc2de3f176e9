//! Moving the *inserted* section of an update packed window to the *neutral* section.
use crate::entity_id::EntityId;
use crate::error::NotUpdatePack;
use crate::sparse_array::swap_at;
use crate::sparse_set::sort::{is_permutation, rearranged};
use crate::sparse_set::window::{Pack, PackedStorage, WindowMut};
use vstd::arithmetic::div_mod::{lemma_fundamental_div_mod, lemma_fundamental_div_mod_converse_mod};
use vstd::prelude::*;

verus! {

/// `w` after its *inserted* section, the first `ins` elements, moved behind the *modified*
/// section, the next `m`: the modified elements come first, rotated right by `ins % m`, then
/// the inserted ones in their order, then the rest. With no inserted or no modified section
/// nothing moves.
pub open spec fn inserted_cleared<X>(w: Seq<X>, ins: int, m: int) -> Seq<X> {
    if m == 0 || ins == 0 {
        w
    } else {
        let r = ins % m;
        w.subrange(ins + m - r, ins + m) + w.subrange(ins, ins + m - r) + w.subrange(0, ins)
            + w.subrange(ins + m, w.len() as int)
    }
}

/// `sparse` after the position of each entity of `w` from `lo` to `hi`, shifted by `offset`,
/// was written in turn at the entity's index.
pub open spec fn reindexed(sparse: Seq<usize>, w: Seq<EntityId>, lo: int, hi: int, offset: int) -> Seq<usize>
    decreases hi - lo,
{
    if hi <= lo {
        sparse
    } else {
        reindexed(sparse, w, lo, hi - 1, offset).update(w[hi - 1].index as int, (hi - 1 + offset) as usize)
    }
}

/// Element `q` of `w` once `ins` inserted elements before `m` modified ones were moved.
spec fn moved_at<X>(w: Seq<X>, ins: int, m: int, q: int) -> X {
    if q < m {
        w[ins + (q - ins) % m]
    } else if q < m + ins {
        w[q - m]
    } else {
        w[q]
    }
}

spec fn moved<X>(w: Seq<X>, ins: int, m: int) -> Seq<X> {
    Seq::new(w.len(), |q: int| moved_at(w, ins, m, q))
}

/// The remainder of `x + 1` follows that of `x`.
proof fn lemma_mod_succ(x: int, m: int)
    requires
        m > 0,
    ensures
        x % m == m - 1 ==> (x + 1) % m == 0,
        x % m != m - 1 ==> (x + 1) % m == x % m + 1,
        0 <= x % m < m,
{
    lemma_fundamental_div_mod(x, m);
    let k = x / m;
    let r = x % m;
    assert(0 <= r < m) by {
        vstd::arithmetic::div_mod::lemma_mod_bound(x, m);
    }
    if r == m - 1 {
        assert(x + 1 == (k + 1) * m + 0) by (nonlinear_arith)
            requires
                x == m * k + r,
                r == m - 1,
        ;
        lemma_fundamental_div_mod_converse_mod(x + 1, m, k + 1, 0);
    } else {
        assert(x + 1 == k * m + (r + 1)) by (nonlinear_arith)
            requires
                x == m * k + r,
        ;
        lemma_fundamental_div_mod_converse_mod(x + 1, m, k, r + 1);
    }
}

/// The remainder of `q - ins`, for `q` below `m`, from that of `ins`.
proof fn lemma_shift_mod(q: int, ins: int, m: int)
    requires
        m > 0,
        0 <= q < m,
    ensures
        0 <= ins % m < m,
        q >= ins % m ==> (q - ins) % m == q - ins % m,
        q < ins % m ==> (q - ins) % m == q - ins % m + m,
{
    lemma_fundamental_div_mod(ins, m);
    vstd::arithmetic::div_mod::lemma_mod_bound(ins, m);
    let k = ins / m;
    let r = ins % m;
    if q >= r {
        assert(q - ins == (-k) * m + (q - r)) by (nonlinear_arith)
            requires
                ins == m * k + r,
        ;
        lemma_fundamental_div_mod_converse_mod(q - ins, m, -k, q - r);
    } else {
        assert(q - ins == (-k - 1) * m + (q - r + m)) by (nonlinear_arith)
            requires
                ins == m * k + r,
        ;
        lemma_fundamental_div_mod_converse_mod(q - ins, m, -k - 1, q - r + m);
    }
}

/// Moving no inserted element changes nothing.
proof fn lemma_moved_none<X>(w: Seq<X>, m: int)
    requires
        m > 0,
    ensures
        moved(w, 0, m) =~= w,
{
    assert forall|q: int| 0 <= q < w.len() implies #[trigger] moved(w, 0, m)[q] == w[q] by {
        if q < m {
            lemma_shift_mod(q, 0, m);
        }
    }
}

/// Exchanging the last inserted element with the last modified one leaves one inserted
/// element fewer to move, and the same outcome.
proof fn lemma_moved_step<X>(t: Seq<X>, j: int, m: int)
    requires
        m > 0,
        1 <= j,
        j + m <= t.len(),
    ensures
        moved(t, j, m) =~= moved(t.update(j - 1, t[j + m - 1]).update(j + m - 1, t[j - 1]), j - 1, m),
{
    let u = t.update(j - 1, t[j + m - 1]).update(j + m - 1, t[j - 1]);
    assert forall|q: int| 0 <= q < t.len() implies #[trigger] moved(t, j, m)[q] == moved(u, j - 1, m)[q] by {
        if q < m {
            lemma_mod_succ(q - j, m);
            assert(q - (j - 1) == q - j + 1);
        }
    }
}

/// The moved elements, told position by position, are the rotation of the contract.
proof fn lemma_moved_is_cleared<X>(w: Seq<X>, ins: int, m: int)
    requires
        m > 0,
        0 <= ins,
        ins > 0 ==> ins + m <= w.len(),
    ensures
        moved(w, ins, m) =~= inserted_cleared(w, ins, m),
{
    if ins == 0 {
        lemma_moved_none(w, m);
        return;
    }
    let c = inserted_cleared(w, ins, m);
    let r = ins % m;
    lemma_shift_mod(0, ins, m);
    assert(c.len() == w.len());
    assert forall|q: int| 0 <= q < w.len() implies #[trigger] moved(w, ins, m)[q] == c[q] by {
        if q < m {
            lemma_shift_mod(q, ins, m);
        }
    }
}

/// Clearing the *inserted* section moves components without losing or repeating any: the
/// window holds the same components as before, each once.
pub proof fn law_clear_inserted_keeps_components<X>(w: Seq<X>, ins: int, m: int)
    requires
        0 <= ins,
        0 <= m,
        ins > 0 && m > 0 ==> ins + m <= w.len(),
        w.len() <= usize::MAX,
    ensures
        rearranged(inserted_cleared(w, ins, m), w),
{
    let c = inserted_cleared(w, ins, m);
    let n = w.len();
    if m == 0 || ins == 0 {
        let s = Seq::new(n, |q: int| q as usize);
        assert(is_permutation(s, n as int));
        assert forall|k: int| 0 <= k < c.len() implies #[trigger] c[k] == w[s[k] as int] by {}
    } else {
        lemma_shift_mod(0, ins, m);
        let r = ins % m;
        let s = Seq::new(n, |q: int| (if q < r {
            ins + m - r + q
        } else if q < m {
            ins + q - r
        } else if q < m + ins {
            q - m
        } else {
            q
        }) as usize);
        assert forall|k: int| 0 <= k < n implies #[trigger] s[k] < n by {}
        assert forall|a: int, b: int| 0 <= a < b < n implies s[a] != s[b] by {}
        assert(is_permutation(s, n as int));
        assert(c.len() == n);
        assert forall|k: int| 0 <= k < c.len() implies #[trigger] c[k] == w[s[k] as int] by {}
    }
}

/// Exchanges the components, with their entities, at dense positions `a` and `b`.
fn swap_positions<T>(storage: &mut PackedStorage<T>, a: usize, b: usize)
    requires
        old(storage).wf(),
        a < old(storage).dense@.len(),
        b < old(storage).dense@.len(),
    ensures
        final(storage).wf(),
        final(storage).sparse == old(storage).sparse,
        final(storage).pack == old(storage).pack,
        final(storage).dense@ == old(storage).dense@.update(a as int, old(storage).dense@[b as int]).update(b as int, old(storage).dense@[a as int]),
        final(storage).data@ == old(storage).data@.update(a as int, old(storage).data@[b as int]).update(b as int, old(storage).data@[a as int]),
{
    swap_at(&mut storage.dense, a, b);
    swap_at(&mut storage.data, a, b);
}

/// `after` is `before` once the *inserted* section of the window over the dense positions
/// `st..en` was cleared, with `r` returned.
pub open spec fn cleared_inserted<T>(before: PackedStorage<T>, after: PackedStorage<T>, st: int, en: int,
    r: Result<(), NotUpdatePack>) -> bool {
    match before.pack {
        Pack::Update(p) => {
            let w = before.dense@.subrange(st, en);
            let d = before.data@.subrange(st, en);
            let w1 = inserted_cleared(w, p.inserted as int, p.modified as int);
            &&& r is Ok
            &&& after.pack matches Pack::Update(q) && q.inserted == 0 && q.modified == p.modified
                && q.deleted == p.deleted && q.removed == p.removed
            &&& after.dense@ == before.dense@.subrange(0, st) + w1 + before.dense@.subrange(en, before.dense@.len() as int)
            &&& after.data@ == before.data@.subrange(0, st) + inserted_cleared(d, p.inserted as int, p.modified as int)
                + before.data@.subrange(en, before.data@.len() as int)
            &&& after.sparse@ == (if p.modified == 0 {
                before.sparse@
            } else {
                reindexed(before.sparse@, w1, if p.modified >= p.inserted { p.modified - p.inserted } else { 0 },
                    p.modified + p.inserted, 0)
            })
        },
        Pack::NoPack => r is Err && after == before,
    }
}

/// What [`WindowMut::try_clear_inserted`] does, for the window over the dense positions
/// `st..en`.
fn clear_inserted_range<T>(storage: &mut PackedStorage<T>, st: usize, en: usize) -> (r: Result<(), NotUpdatePack>)
    requires
        old(storage).wf(),
        st <= en <= old(storage).dense@.len(),
        match old(storage).pack {
            Pack::Update(p) => p.modified > 0 && p.inserted > 0 ==> p.inserted + p.modified <= en - st,
            Pack::NoPack => true,
        },
    ensures
        final(storage).wf(),
        cleared_inserted(*old(storage), *final(storage), st as int, en as int, r),
{
    let ghost s0 = *storage;
    let (ins, m) = match &storage.pack {
        Pack::Update(p) => (p.inserted, p.modified),
        Pack::NoPack => {
            return Err(NotUpdatePack);
        },
    };
    let ghost w0 = s0.dense@.subrange(st as int, en as int);
    let ghost d0 = s0.data@.subrange(st as int, en as int);
    let ghost dlen = s0.dense@.len() as int;
    proof {
        assert(s0.dense@ =~= s0.dense@.subrange(0, st as int) + w0 + s0.dense@.subrange(en as int, dlen));
        assert(s0.data@ =~= s0.data@.subrange(0, st as int) + d0 + s0.data@.subrange(en as int, dlen));
    }
    if m == 0 {
        if let Pack::Update(p) = &mut storage.pack {
            p.inserted = 0;
        }
        return Ok(());
    }
    let len = en - st;
    let mut j = ins;
    while j > 0
        invariant
            storage.wf(),
            st <= en <= storage.dense@.len(),
            len == en - st,
            m > 0,
            ins > 0 ==> ins + m <= len,
            j <= ins,
            storage.sparse == s0.sparse,
            storage.pack == s0.pack,
            storage.dense@.len() == dlen,
            dlen == s0.dense@.len(),
            storage.dense@.subrange(0, st as int) == s0.dense@.subrange(0, st as int),
            storage.data@.subrange(0, st as int) == s0.data@.subrange(0, st as int),
            storage.dense@.subrange(en as int, dlen) == s0.dense@.subrange(en as int, dlen),
            storage.data@.subrange(en as int, dlen) == s0.data@.subrange(en as int, dlen),
            moved(storage.dense@.subrange(st as int, en as int), j as int, m as int) == moved(w0, ins as int, m as int),
            moved(storage.data@.subrange(st as int, en as int), j as int, m as int) == moved(d0, ins as int, m as int),
        decreases j,
    {
        let ghost wd = storage.dense@.subrange(st as int, en as int);
        let ghost wt = storage.data@.subrange(st as int, en as int);
        let new_end = if j + m - 1 < len { j + m - 1 } else { len };
        swap_positions(storage, st + new_end, st + j - 1);
        proof {
            lemma_moved_step(wd, j as int, m as int);
            lemma_moved_step(wt, j as int, m as int);
            assert(storage.dense@.subrange(st as int, en as int) =~= wd.update(j - 1, wd[j + m - 1]).update(j + m - 1, wd[j - 1]));
            assert(storage.data@.subrange(st as int, en as int) =~= wt.update(j - 1, wt[j + m - 1]).update(j + m - 1, wt[j - 1]));
            assert(storage.dense@.subrange(0, st as int) =~= s0.dense@.subrange(0, st as int));
            assert(storage.data@.subrange(0, st as int) =~= s0.data@.subrange(0, st as int));
            assert(storage.dense@.subrange(en as int, dlen) =~= s0.dense@.subrange(en as int, dlen));
            assert(storage.data@.subrange(en as int, dlen) =~= s0.data@.subrange(en as int, dlen));
        }
        j -= 1;
    }
    let ghost w1 = storage.dense@.subrange(st as int, en as int);
    proof {
        lemma_moved_none(w1, m as int);
        lemma_moved_none(storage.data@.subrange(st as int, en as int), m as int);
        lemma_moved_is_cleared(w0, ins as int, m as int);
        lemma_moved_is_cleared(d0, ins as int, m as int);
        assert(storage.dense@ =~= s0.dense@.subrange(0, st as int) + w1 + s0.dense@.subrange(en as int, dlen));
        assert(storage.data@ =~= s0.data@.subrange(0, st as int) + storage.data@.subrange(st as int, en as int)
            + s0.data@.subrange(en as int, dlen));
    }
    let lo = if m >= ins { m - ins } else { 0 };
    let hi = if ins > 0 { m + ins } else { m };
    let mut i = lo;
    while i < hi
        invariant
            storage.wf(),
            st <= en <= storage.dense@.len(),
            lo <= i <= hi,
            ins > 0 ==> hi <= en - st,
            ins == 0 ==> lo == hi,
            hi == m + ins,
            storage.dense@.subrange(st as int, en as int) == w1,
            storage.dense@ == s0.dense@.subrange(0, st as int) + w1 + s0.dense@.subrange(en as int, dlen),
            storage.data@ == s0.data@.subrange(0, st as int) + inserted_cleared(d0, ins as int, m as int)
                + s0.data@.subrange(en as int, dlen),
            storage.pack == s0.pack,
            storage.sparse@ == reindexed(s0.sparse@, w1, lo as int, i as int, 0),
        decreases hi - i,
    {
        let e = storage.dense[st + i];
        assert(e == w1[i as int]);
        let ghost before = storage.sparse@;
        storage.sparse.set(e.index as usize, i);
        assert(storage.sparse@ == before.update(w1[i as int].index as int, i));
        i += 1;
    }
    if let Pack::Update(p) = &mut storage.pack {
        p.inserted = 0;
    }
    Ok(())
}

impl<'a, T> WindowMut<'a, T> {
    /// Moves the components of the *inserted* section of an update packed storage behind
    /// those of the *modified* section, which then come first, and empties the *inserted*
    /// section. Positions are the window's; the sparse list is given the window position of
    /// each entity from the larger of 0 and *modified* minus *inserted* up to their sum.
    pub fn try_clear_inserted(&mut self) -> (r: Result<(), NotUpdatePack>)
        requires
            old(self).wf(),
            match old(self).store().pack {
                Pack::Update(p) => p.modified > 0 && p.inserted > 0 ==> p.inserted + p.modified <= old(self).len_spec(),
                Pack::NoPack => true,
            },
        ensures
            *final(final(self).storage) == *final(old(self).storage),
            final(self).wf(),
            final(self).start == old(self).start,
            final(self).end == old(self).end,
            cleared_inserted(old(self).store(), final(self).store(), old(self).start as int, old(self).end as int, r),
    {
        clear_inserted_range(self.storage, self.start, self.end)
    }

    /// Moves the components of the *inserted* section of an update packed storage behind
    /// those of the *modified* section; see [`WindowMut::try_clear_inserted`].
    pub fn clear_inserted(&mut self)
        requires
            old(self).wf(),
            old(self).store().pack is Update,
            match old(self).store().pack {
                Pack::Update(p) => p.modified > 0 && p.inserted > 0 ==> p.inserted + p.modified <= old(self).len_spec(),
                Pack::NoPack => true,
            },
        ensures
            *final(final(self).storage) == *final(old(self).storage),
            final(self).wf(),
            cleared_inserted(old(self).store(), final(self).store(), old(self).start as int, old(self).end as int, Ok(())),
    {
        let _ = self.try_clear_inserted();
    }
}

} // verus!
