//! Putting the components of a window in a given order.
use crate::entity_id::EntityId;
use crate::sparse_array::swap_at;
use crate::sparse_set::sort::{is_permutation, permuted, rearranged};
use crate::sparse_set::window::{PackedStorage, WindowMut};
use crate::sparse_set::window_clear::reindexed;
use vstd::prelude::*;

verus! {

/// The positions `start..start + n`, in order.
pub open spec fn range_seq(start: usize, n: usize) -> Seq<usize> {
    Seq::new(n as nat, |k: int| (start + k) as usize)
}

/// `after` is `before` with the components of the window over the dense positions `st..en`
/// put in another order, each with its entity, and the sparse list given the window position
/// of each of them, shifted by `offset`; the rest is unchanged.
pub open spec fn window_reordered<T>(before: PackedStorage<T>, after: PackedStorage<T>, st: usize, en: usize, offset: usize) -> bool {
    exists|t: Seq<usize>| #![trigger is_permutation(t, en - st)]
        is_permutation(t, en - st) && window_reordered_by(before, after, st, en, offset, t)
}

/// `after` is `before` with the window over the dense positions `st..en` put in the order
/// `t`, and the sparse list given their window positions shifted by `offset`.
pub open spec fn window_reordered_by<T>(before: PackedStorage<T>, after: PackedStorage<T>, st: usize, en: usize, offset: usize,
    t: Seq<usize>) -> bool {
    let n = en - st;
    let w = before.dense@.subrange(st as int, en as int);
    let d = before.data@.subrange(st as int, en as int);
    &&& after.dense@ == before.dense@.subrange(0, st as int) + permuted(w, t)
        + before.dense@.subrange(en as int, before.dense@.len() as int)
    &&& after.data@ == before.data@.subrange(0, st as int) + permuted(d, t)
        + before.data@.subrange(en as int, before.data@.len() as int)
    &&& after.sparse@ == reindexed(before.sparse@, permuted(w, t), 0, n, offset as int)
    &&& after.pack == before.pack
}

/// The components of the window over the dense positions `st..en` of `s`.
pub open spec fn window_data<T>(s: PackedStorage<T>, st: usize, en: usize) -> Seq<T> {
    s.data@.subrange(st as int, en as int)
}

/// Putting a window in the order `t` of its positions puts its components in the order of
/// the dense positions `positions`, the same shifted by the window's start.
pub proof fn lemma_window_order<T>(before: PackedStorage<T>, after: PackedStorage<T>, st: usize, en: usize, offset: usize,
    t: Seq<usize>, positions: Seq<usize>)
    requires
        st <= en <= before.data@.len(),
        t.len() == en - st,
        positions.len() == t.len(),
        forall|k: int| 0 <= k < t.len() ==> #[trigger] t[k] < t.len() && t[k] + st == positions[k],
        window_reordered_by(before, after, st, en, offset, t),
    ensures
        window_data(after, st, en) =~= permuted(before.data@, positions),
{
}

/// The positions `start..start + n`, in order.
pub(crate) fn range_positions(start: usize, n: usize) -> (v: Vec<usize>)
    requires
        start + n <= usize::MAX,
    ensures
        v@ == range_seq(start, n),
{
    let mut v: Vec<usize> = Vec::new();
    let mut k: usize = 0;
    while k < n
        invariant
            k <= n,
            start + n <= usize::MAX,
            v@ == range_seq(start, k),
        decreases n - k,
    {
        v.push(start + k);
        k += 1;
        assert(v@ =~= range_seq(start, k));
    }
    v
}

/// The window positions of `positions`, a rearrangement of the dense positions
/// `start..start + n`.
pub(crate) fn relative_order(positions: &Vec<usize>, start: usize, n: usize) -> (t: Vec<usize>)
    requires
        rearranged(positions@, range_seq(start, n)),
        start + n <= usize::MAX,
    ensures
        is_permutation(t@, n as int),
        forall|k: int| 0 <= k < n ==> #[trigger] t@[k] + start == positions@[k],
{
    let ghost id = range_seq(start, n);
    let ghost s = choose|s: Seq<usize>| #![trigger is_permutation(s, id.len() as int)]
        is_permutation(s, id.len() as int) && positions@.len() == id.len()
        && forall|k: int| 0 <= k < positions@.len() ==> #[trigger] positions@[k] == id[s[k] as int];
    let mut t: Vec<usize> = Vec::new();
    let mut k: usize = 0;
    while k < n
        invariant
            k <= n,
            positions@.len() == n,
            is_permutation(s, n as int),
            forall|j: int| 0 <= j < n ==> #[trigger] positions@[j] == id[s[j] as int],
            id == range_seq(start, n),
            start + n <= usize::MAX,
            t@.len() == k,
            forall|j: int| 0 <= j < k ==> #[trigger] t@[j] == s[j],
        decreases n - k,
    {
        assert(positions@[k as int] == start + s[k as int]);
        t.push(positions[k] - start);
        k += 1;
    }
    proof {
        assert(t@ =~= s);
    }
    t
}

/// Reorders the elements `st..st + t.len()` of `a` and of `b` so that the element `k` of
/// that range is the one that was at `t[k]` of it.
fn reorder_range<A, B>(a: &mut Vec<A>, b: &mut Vec<B>, st: usize, t: &Vec<usize>)
    requires
        is_permutation(t@, t@.len() as int),
        st + t@.len() <= old(a)@.len(),
        old(a)@.len() == old(b)@.len(),
    ensures
        final(a)@ == old(a)@.subrange(0, st as int) + permuted(old(a)@.subrange(st as int, st + t@.len()), t@)
            + old(a)@.subrange(st + t@.len(), old(a)@.len() as int),
        final(b)@ == old(b)@.subrange(0, st as int) + permuted(old(b)@.subrange(st as int, st + t@.len()), t@)
            + old(b)@.subrange(st + t@.len(), old(b)@.len() as int),
{
    let ghost a0 = a@;
    let ghost b0 = b@;
    let n = t.len();
    let alen = a.len();
    let mut at = range_positions(0, n);
    let mut loc = range_positions(0, n);
    let mut i: usize = 0;
    while i < n
        invariant
            i <= n,
            n == t@.len(),
            st + n <= a0.len(),
            a0.len() == b0.len(),
            a0.len() == alen,
            is_permutation(t@, n as int),
            a@.len() == a0.len(),
            b@.len() == b0.len(),
            at@.len() == n,
            loc@.len() == n,
            forall|q: int| 0 <= q < n ==> #[trigger] at@[q] < n && loc@[at@[q] as int] == q,
            forall|p: int| 0 <= p < n ==> #[trigger] loc@[p] < n && at@[loc@[p] as int] == p,
            forall|j: int| 0 <= j < i ==> #[trigger] at@[j] == t@[j],
            forall|q: int| 0 <= q < n ==> #[trigger] a@[st + q] == a0[st + at@[q]],
            forall|q: int| 0 <= q < n ==> #[trigger] b@[st + q] == b0[st + at@[q]],
            forall|q: int| 0 <= q < st || st + n <= q < a0.len() ==> #[trigger] a@[q] == a0[q],
            forall|q: int| 0 <= q < st || st + n <= q < b0.len() ==> #[trigger] b@[q] == b0[q],
        decreases n - i,
    {
        let target = t[i];
        let p = loc[target];
        let x = at[i];
        proof {
            if p < i {
                assert(at@[p as int] == t@[p as int]);
                assert(t@[p as int] == t@[i as int]);
            }
        }
        let ghost ap = a@;
        let ghost bp = b@;
        swap_at(a, st + i, st + p);
        swap_at(b, st + i, st + p);
        let ghost at0 = at@;
        let ghost loc0 = loc@;
        at.set(i, target);
        at.set(p, x);
        loc.set(target, i);
        loc.set(x, p);
        proof {
            assert(at0[p as int] == target);
            assert(loc0[x as int] == i);
            assert forall|q: int| 0 <= q < n implies #[trigger] at@[q] < n && loc@[at@[q] as int] == q by {
                if q != i && q != p {
                    assert(at@[q] == at0[q]);
                    assert(at0[q] != target && at0[q] != x);
                }
            }
            assert forall|y: int| 0 <= y < n implies #[trigger] loc@[y] < n && at@[loc@[y] as int] == y by {
                if y != target && y != x {
                    assert(loc@[y] == loc0[y]);
                    assert(loc0[y] != i && loc0[y] != p);
                }
            }
            assert forall|q: int| 0 <= q < n implies #[trigger] a@[st + q] == a0[st + at@[q]] by {
                if q != i && q != p {
                    assert(a@[st + q] == ap[st + q]);
                }
            }
            assert forall|q: int| 0 <= q < n implies #[trigger] b@[st + q] == b0[st + at@[q]] by {
                if q != i && q != p {
                    assert(b@[st + q] == bp[st + q]);
                }
            }
        }
        i += 1;
    }
    proof {
        let wa = a0.subrange(st as int, st + n);
        let wb = b0.subrange(st as int, st + n);
        assert forall|q: int| 0 <= q < a0.len() implies #[trigger] a@[q] == (a0.subrange(0, st as int) + permuted(wa, t@)
            + a0.subrange(st + n, a0.len() as int))[q] by {
            if st <= q < st + n {
                assert(a@[st + (q - st)] == a0[st + at@[q - st]]);
            }
        }
        assert forall|q: int| 0 <= q < b0.len() implies #[trigger] b@[q] == (b0.subrange(0, st as int) + permuted(wb, t@)
            + b0.subrange(st + n, b0.len() as int))[q] by {
            if st <= q < st + n {
                assert(b@[st + (q - st)] == b0[st + at@[q - st]]);
            }
        }
        assert(a@ =~= a0.subrange(0, st as int) + permuted(wa, t@) + a0.subrange(st + n, a0.len() as int));
        assert(b@ =~= b0.subrange(0, st as int) + permuted(wb, t@) + b0.subrange(st + n, b0.len() as int));
    }
}

/// Puts the components of the window over the dense positions `st..en` in the order `t`, and
/// gives the sparse list their window positions shifted by `offset`.
pub(crate) fn apply_window_order<T>(storage: &mut PackedStorage<T>, st: usize, en: usize, offset: usize, t: &Vec<usize>)
    requires
        old(storage).wf(),
        st <= en <= old(storage).dense@.len(),
        is_permutation(t@, en - st),
        en - st + offset <= usize::MAX,
    ensures
        final(storage).wf(),
        window_reordered(*old(storage), *final(storage), st, en, offset),
        window_reordered_by(*old(storage), *final(storage), st, en, offset, t@),
{
    let ghost s0 = *storage;
    reorder_range(&mut storage.dense, &mut storage.data, st, t);
    let ghost w1 = storage.dense@.subrange(st as int, en as int);
    proof {
        let w = s0.dense@.subrange(st as int, en as int);
        assert(w1 =~= permuted(w, t@));
        assert forall|k: int| 0 <= k < storage.dense@.len() implies (#[trigger] storage.dense@[k]).index < storage.sparse@.len() by {
            if st <= k < en {
                assert(storage.dense@[k] == w1[k - st]);
                assert(w1[k - st] == w[t@[k - st] as int]);
                assert(w[t@[k - st] as int] == s0.dense@[st + t@[k - st]]);
            } else {
                assert(storage.dense@[k] == s0.dense@[k]);
            }
        }
    }
    let n = en - st;
    let mut i: usize = 0;
    while i < n
        invariant
            i <= n,
            n == en - st,
            n + offset <= usize::MAX,
            st <= en <= storage.dense@.len(),
            storage.wf(),
            storage.dense@.subrange(st as int, en as int) == w1,
            storage.dense@ == s0.dense@.subrange(0, st as int) + w1 + s0.dense@.subrange(en as int, s0.dense@.len() as int),
            storage.data@ == s0.data@.subrange(0, st as int) + permuted(s0.data@.subrange(st as int, en as int), t@)
                + s0.data@.subrange(en as int, s0.data@.len() as int),
            storage.pack == s0.pack,
            storage.sparse@ == reindexed(s0.sparse@, w1, 0, i as int, offset as int),
        decreases n - i,
    {
        let e = storage.dense[st + i];
        assert(e == w1[i as int]);
        let ghost before = storage.sparse@;
        storage.sparse.set(e.index as usize, i + offset);
        assert(storage.sparse@ == before.update(w1[i as int].index as int, (i + offset) as usize));
        i += 1;
    }
    proof {
        assert(is_permutation(t@, n as int));
    }
}

impl<'a, T> WindowMut<'a, T> {
    /// The dense positions of this window, in order.
    pub(crate) fn dense_positions(&self) -> (v: Vec<usize>)
        requires
            self.wf(),
        ensures
            v@ == range_seq(self.start, (self.end - self.start) as usize),
    {
        range_positions(self.start, self.end - self.start)
    }
}

} // verus!
