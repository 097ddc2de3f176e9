//! Turns a workload into batches of systems.
use crate::scheduler::deduped::DedupedUniqueIds;
use crate::scheduler::info::{Conflict, Mutability, TypeInfo, same_type_info};
use crate::scheduler::label::{any_label_in, labels_contain, labels_intersect, Label, LabelView};
use crate::scheduler::system::RunCondition;
use vstd::prelude::*;

verus! {

/// A system of the workload being ordered.
pub struct ToBePlacedSystem {
    /// Index of the system in the scheduler's list of systems.
    pub index: usize,
    pub display_name: Label,
    pub borrow_constraints: Vec<TypeInfo>,
    pub tags: Vec<Label>,
    pub before_all: Vec<Label>,
    pub after_all: Vec<Label>,
    /// Unique ids of the systems this system must run before.
    pub hard_before: Vec<usize>,
    pub require_in_workload: Vec<Label>,
    pub require_before: Vec<Label>,
    pub require_after: Vec<Label>,
    pub run_if: Option<RunCondition>,
}

/// The two borrows cannot be held by systems running in parallel.
pub open spec fn borrow_conflict(a: TypeInfo, b: TypeInfo) -> bool {
    ||| (!a.thread_safe && !b.thread_safe)
    ||| (a.storage_id == b.storage_id && (a.mutability == Mutability::Exclusive || b.mutability == Mutability::Exclusive))
    ||| a.storage_id.0 == 0
    ||| b.storage_id.0 == 0
}

/// Systems with these borrows cannot run in parallel.
pub open spec fn borrows_conflict(x: Seq<TypeInfo>, y: Seq<TypeInfo>) -> bool {
    exists|p: int, q: int| 0 <= p < x.len() && 0 <= q < y.len() && #[trigger] borrow_conflict(x[p], y[q])
}

/// A system with these borrows must run alone on the main thread.
pub open spec fn is_single(x: Seq<TypeInfo>) -> bool {
    exists|p: int| 0 <= p < x.len() && (!(#[trigger] x[p]).thread_safe || x[p].storage_id.0 == 0)
}

/// Two systems that must run alone cannot share a batch.
pub proof fn lemma_singles_conflict(x: Seq<TypeInfo>, y: Seq<TypeInfo>)
    requires
        is_single(x),
        is_single(y),
    ensures
        borrows_conflict(x, y),
{
    let p = choose|p: int| 0 <= p < x.len() && (!(#[trigger] x[p]).thread_safe || x[p].storage_id.0 == 0);
    let q = choose|q: int| 0 <= q < y.len() && (!(#[trigger] y[q]).thread_safe || y[q].storage_id.0 == 0);
    assert(borrow_conflict(x[p], y[q]));
}

/// The conflict between two systems is symmetric.
pub proof fn lemma_conflict_symmetric(x: Seq<TypeInfo>, y: Seq<TypeInfo>)
    requires
        borrows_conflict(x, y),
    ensures
        borrows_conflict(y, x),
{
    let (p, q) = choose|p: int, q: int| 0 <= p < x.len() && 0 <= q < y.len() && #[trigger] borrow_conflict(x[p], y[q]);
    assert(borrow_conflict(y[q], x[p]));
}

/// Why the system at `tested_index` borrowing `tested` cannot run beside a
/// system borrowing `other`, if it cannot.
pub fn check_conflict(tested: &Vec<TypeInfo>, tested_index: usize, other: &Vec<TypeInfo>) -> (c: Option<Conflict>)
    ensures
        c is None <==> !borrows_conflict(tested@, other@),
        match c {
            Some(Conflict::OtherNotSendSync { system, type_info }) => system == tested_index
                && exists|p: int| 0 <= p < tested@.len() && same_type_info(type_info, tested@[p]) && !tested@[p].thread_safe,
            Some(Conflict::Borrow { type_info, other_system, other_type_info }) => other_system == tested_index
                && type_info is Some
                && exists|p: int, q: int| 0 <= p < tested@.len() && 0 <= q < other@.len()
                    && same_type_info(other_type_info, tested@[p]) && same_type_info(type_info->0, other@[q])
                    && borrow_conflict(tested@[p], other@[q]),
            Some(Conflict::NotSendSync(_)) => false,
            None => true,
        },
{
    let mut p: usize = 0;
    while p < tested.len()
        invariant
            p <= tested@.len(),
            forall|a: int, b: int| 0 <= a < p && 0 <= b < other@.len() ==> !borrow_conflict(tested@[a], other@[b]),
        decreases tested@.len() - p,
    {
        let mut q: usize = 0;
        while q < other.len()
            invariant
                p < tested@.len(),
                q <= other@.len(),
                forall|a: int, b: int| 0 <= a < p && 0 <= b < other@.len() ==> !borrow_conflict(tested@[a], other@[b]),
                forall|b: int| 0 <= b < q ==> !borrow_conflict(tested@[p as int], other@[b]),
            decreases other@.len() - q,
        {
            let other_type_info = &tested[p];
            let type_info = &other[q];
            if !type_info.thread_safe && !other_type_info.thread_safe {
                assert(borrow_conflict(tested@[p as int], other@[q as int]));
                return Some(Conflict::OtherNotSendSync { system: tested_index, type_info: other_type_info.duplicate() });
            }
            let identical_storage = type_info.storage_id == other_type_info.storage_id;
            let either_storage_exclusive = type_info.mutability == Mutability::Exclusive
                || other_type_info.mutability == Mutability::Exclusive;
            if (identical_storage && either_storage_exclusive) || type_info.storage_id.is_all_storages()
                || other_type_info.storage_id.is_all_storages() {
                assert(borrow_conflict(tested@[p as int], other@[q as int]));
                return Some(Conflict::Borrow {
                    type_info: Some(type_info.duplicate()),
                    other_system: tested_index,
                    other_type_info: other_type_info.duplicate(),
                });
            }
            q += 1;
        }
        p += 1;
    }
    None
}

/// The system opted out of the implicit ordering.
pub open spec fn opted_out(s: ToBePlacedSystem) -> bool {
    s.before_all@.len() > 0 || s.after_all@.len() > 0
}

/// Last system before position `j`, taking part in the implicit ordering,
/// whose borrows conflict with those of system `i`.
pub open spec fn implicit_hard_from(ss: Seq<ToBePlacedSystem>, i: int, j: int) -> Option<int>
    decreases j,
{
    if j <= 0 {
        None
    } else if !opted_out(ss[j - 1]) && borrows_conflict(ss[j - 1].borrow_constraints@, ss[i].borrow_constraints@) {
        Some(j - 1)
    } else {
        implicit_hard_from(ss, i, j - 1)
    }
}

/// The system that system `i` must follow in both orders because their borrows conflict.
pub open spec fn implicit_hard_pred(ss: Seq<ToBePlacedSystem>, i: int) -> Option<int> {
    if opted_out(ss[i]) {
        None
    } else {
        implicit_hard_from(ss, i, i)
    }
}

/// Last system before position `j` taking part in the implicit ordering.
pub open spec fn implicit_soft_from(ss: Seq<ToBePlacedSystem>, j: int) -> Option<int>
    decreases j,
{
    if j <= 0 {
        None
    } else if !opted_out(ss[j - 1]) {
        Some(j - 1)
    } else {
        implicit_soft_from(ss, j - 1)
    }
}

/// The system that system `i` must follow in the sequential order.
pub open spec fn implicit_soft_pred(ss: Seq<ToBePlacedSystem>, i: int) -> Option<int> {
    if opted_out(ss[i]) {
        None
    } else {
        implicit_soft_from(ss, i)
    }
}

/// Some barrier stands between position `j` and position `k`.
pub open spec fn barrier_edge(barriers: Seq<usize>, k: int, j: int) -> bool {
    exists|b: int| 0 <= b < barriers.len() && j < #[trigger] barriers[b] <= k
}

/// System `i` asked to run before all systems tagged like `k`.
pub open spec fn before_all_edge(ss: Seq<ToBePlacedSystem>, i: int, k: int) -> bool {
    0 <= i < ss.len() && 0 <= k < ss.len() && i != k && labels_intersect(ss[k].tags@, ss[i].before_all@)
}

/// System `k` asked to run after all systems tagged like `j`.
pub open spec fn after_all_edge(ss: Seq<ToBePlacedSystem>, k: int, j: int) -> bool {
    0 <= j < ss.len() && 0 <= k < ss.len() && j != k && labels_intersect(ss[k].after_all@, ss[j].tags@)
}

/// The tags of system `j` name one of the unique ids `ids`.
pub open spec fn tags_name_unique(tags: Seq<Label>, ids: Seq<usize>) -> bool {
    exists|u: int| 0 <= u < ids.len() && labels_contain(tags, LabelView::Unique(#[trigger] ids[u]))
}

/// First system from position `j` on, other than `i`, whose tags name one of
/// the unique ids system `i` must run before.
pub open spec fn before_target_from(ss: Seq<ToBePlacedSystem>, i: int, j: int) -> Option<int>
    decreases ss.len() - j,
{
    if j >= ss.len() || j < 0 || i < 0 || i >= ss.len() {
        None
    } else if j != i && tags_name_unique(ss[j].tags@, ss[i].hard_before@) {
        Some(j)
    } else {
        before_target_from(ss, i, j + 1)
    }
}

/// System `j` must run after system `i` in both orders.
pub open spec fn hard_edge(ss: Seq<ToBePlacedSystem>, barriers: Seq<usize>, k: int, j: int) -> bool {
    ||| barrier_edge(barriers, k, j)
    ||| implicit_hard_pred(ss, k) == Some(j)
    ||| before_all_edge(ss, j, k)
    ||| after_all_edge(ss, k, j)
    ||| before_target_from(ss, j, 0) == Some(k)
}

/// System `k` must run after system `j` in the sequential order.
pub open spec fn soft_edge(ss: Seq<ToBePlacedSystem>, k: int, j: int) -> bool {
    implicit_soft_pred(ss, k) == Some(j)
}

/// All lists of constraints are well formed and name positions of the workload.
pub open spec fn constraints_wf(sets: Seq<DedupedUniqueIds>, n: int) -> bool {
    &&& sets.len() == n
    &&& forall|k: int| 0 <= k < n ==> (#[trigger] sets[k]).wf()
    &&& forall|k: int, x: usize| #![trigger sets[k].has(x)] 0 <= k < n && sets[k].has(x) ==> x < n
}

/// Adds the constraints of the barriers: systems after a barrier run after all systems before it.
pub fn propagate_barriers(hard: &mut Vec<DedupedUniqueIds>, barriers: &Vec<usize>)
    requires
        constraints_wf(old(hard)@, old(hard)@.len() as int),
        forall|b: int| 0 <= b < barriers@.len() ==> barriers@[b] <= old(hard)@.len(),
    ensures
        constraints_wf(final(hard)@, old(hard)@.len() as int),
        forall|k: int, x: usize| #![trigger final(hard)@[k].has(x)] 0 <= k < old(hard)@.len() ==> (final(hard)@[k].has(x)
            <==> (old(hard)@[k].has(x) || barrier_edge(barriers@, k, x as int))),
{
    let n = hard.len();
    let mut b: usize = 0;
    while b < barriers.len()
        invariant
            n == hard@.len(),
            n == old(hard)@.len(),
            b <= barriers@.len(),
            forall|c: int| 0 <= c < barriers@.len() ==> barriers@[c] <= n,
            constraints_wf(hard@, n as int),
            forall|k: int, x: usize| #![trigger hard@[k].has(x)] 0 <= k < n ==> (hard@[k].has(x)
                <==> (old(hard)@[k].has(x) || barrier_edge(barriers@.subrange(0, b as int), k, x as int))),
        decreases barriers@.len() - b,
    {
        let index = barriers[b];
        let mut k: usize = index;
        while k < n
            invariant
                n == hard@.len(),
                n == old(hard)@.len(),
                b < barriers@.len(),
                index == barriers@[b as int],
                index <= k <= n,
                constraints_wf(hard@, n as int),
                forall|kk: int, x: usize| #![trigger hard@[kk].has(x)] 0 <= kk < n ==> (hard@[kk].has(x)
                    <==> (old(hard)@[kk].has(x) || barrier_edge(barriers@.subrange(0, b as int), kk, x as int)
                        || (index <= kk < k && x < index))),
            decreases n - k,
        {
            let mut i: usize = 0;
            while i < index
                invariant
                    n == hard@.len(),
                    n == old(hard)@.len(),
                    index <= k < n,
                    i <= index,
                    constraints_wf(hard@, n as int),
                    forall|kk: int, x: usize| #![trigger hard@[kk].has(x)] 0 <= kk < n ==> (hard@[kk].has(x)
                        <==> (old(hard)@[kk].has(x) || barrier_edge(barriers@.subrange(0, b as int), kk, x as int)
                            || (index <= kk < k && x < index) || (kk == k && x < i))),
                decreases index - i,
            {
                hard[k].add(i);
                i += 1;
            }
            k += 1;
        }
        proof {
            let bs = barriers@.subrange(0, b + 1);
            assert forall|kk: int, x: usize| #![trigger hard@[kk].has(x)] 0 <= kk < n implies (hard@[kk].has(x)
                <==> (old(hard)@[kk].has(x) || barrier_edge(bs, kk, x as int))) by {
                if barrier_edge(bs, kk, x as int) {
                    let c = choose|c: int| 0 <= c < bs.len() && x < #[trigger] bs[c] <= kk;
                    if c < b {
                        assert(barriers@.subrange(0, b as int)[c] == bs[c]);
                    }
                }
                if barrier_edge(barriers@.subrange(0, b as int), kk, x as int) {
                    let c = choose|c: int| 0 <= c < b && x < #[trigger] barriers@.subrange(0, b as int)[c] <= kk;
                    assert(bs[c] == barriers@.subrange(0, b as int)[c]);
                }
                if index <= kk && x < index {
                    assert(bs[b as int] == index);
                }
            }
        }
        b += 1;
    }
    assert(barriers@.subrange(0, barriers@.len() as int) =~= barriers@);
}


fn is_opted_out(s: &ToBePlacedSystem) -> (b: bool)
    ensures
        b == opted_out(*s),
{
    s.before_all.len() > 0 || s.after_all.len() > 0
}

/// Finds the system that system `i` must follow because their borrows conflict.
fn find_implicit_hard(ss: &Vec<ToBePlacedSystem>, i: usize) -> (r: Option<(usize, Conflict)>)
    requires
        i < ss@.len(),
    ensures
        match r {
            Some((j, _)) => implicit_hard_from(ss@, i as int, i as int) == Some(j as int),
            None => implicit_hard_from(ss@, i as int, i as int) is None,
        },
{
    let mut j: usize = i;
    while j > 0
        invariant
            j <= i < ss@.len(),
            implicit_hard_from(ss@, i as int, i as int) == implicit_hard_from(ss@, i as int, j as int),
        decreases j,
    {
        let c = j - 1;
        if !is_opted_out(&ss[c]) {
            if let Some(conflict) = check_conflict(&ss[c].borrow_constraints, ss[c].index, &ss[i].borrow_constraints) {
                return Some((c, conflict));
            }
        }
        j = c;
    }
    None
}

/// Finds the system that system `i` must follow in the sequential order.
fn find_implicit_soft(ss: &Vec<ToBePlacedSystem>, i: usize) -> (r: Option<usize>)
    requires
        i < ss@.len(),
    ensures
        match r {
            Some(j) => implicit_soft_from(ss@, i as int) == Some(j as int),
            None => implicit_soft_from(ss@, i as int) is None,
        },
{
    let mut j: usize = i;
    while j > 0
        invariant
            j <= i < ss@.len(),
            implicit_soft_from(ss@, i as int) == implicit_soft_from(ss@, j as int),
        decreases j,
    {
        let c = j - 1;
        if !is_opted_out(&ss[c]) {
            return Some(c);
        }
        j = c;
    }
    None
}

proof fn lemma_implicit_hard_below(ss: Seq<ToBePlacedSystem>, i: int, j: int)
    requires
        0 <= j,
    ensures
        implicit_hard_from(ss, i, j) matches Some(x) ==> 0 <= x < j,
    decreases j,
{
    if j > 0 {
        lemma_implicit_hard_below(ss, i, j - 1);
    }
}

proof fn lemma_implicit_soft_below(ss: Seq<ToBePlacedSystem>, j: int)
    requires
        0 <= j,
    ensures
        implicit_soft_from(ss, j) matches Some(x) ==> 0 <= x < j,
    decreases j,
{
    if j > 0 {
        lemma_implicit_soft_below(ss, j - 1);
    }
}

/// Systems taking part in the implicit ordering follow the last earlier such
/// system whose borrows conflict with theirs.
pub fn propagate_implicit_hard_ordering(
    ss: &Vec<ToBePlacedSystem>,
    hard: &mut Vec<DedupedUniqueIds>,
    conflicts: &mut Vec<Option<Conflict>>,
)
    requires
        constraints_wf(old(hard)@, ss@.len() as int),
        old(conflicts)@.len() == ss@.len(),
    ensures
        constraints_wf(final(hard)@, ss@.len() as int),
        final(conflicts)@.len() == ss@.len(),
        forall|k: int, x: usize| #![trigger final(hard)@[k].has(x)] 0 <= k < ss@.len() ==> (final(hard)@[k].has(x)
            <==> (old(hard)@[k].has(x) || implicit_hard_pred(ss@, k) == Some(x as int))),
        forall|k: int| 0 <= k < ss@.len() ==> (implicit_hard_pred(ss@, k) is Some ==> (#[trigger] final(conflicts)@[k]) is Some),
        forall|k: int| 0 <= k < ss@.len() ==> (implicit_hard_pred(ss@, k) is None ==> (#[trigger] final(conflicts)@[k]) == old(conflicts)@[k]),
{
    let n = ss.len();
    let mut i: usize = 0;
    while i < n
        invariant
            n == ss@.len(),
            i <= n,
            constraints_wf(hard@, n as int),
            conflicts@.len() == n,
            forall|k: int, x: usize| #![trigger hard@[k].has(x)] 0 <= k < n ==> (hard@[k].has(x)
                <==> (old(hard)@[k].has(x) || (k < i && implicit_hard_pred(ss@, k) == Some(x as int)))),
            forall|k: int| 0 <= k < i ==> (implicit_hard_pred(ss@, k) is Some ==> (#[trigger] conflicts@[k]) is Some),
            forall|k: int| 0 <= k < n ==> (!(k < i && implicit_hard_pred(ss@, k) is Some) ==> (#[trigger] conflicts@[k]) == old(conflicts)@[k]),
        decreases n - i,
    {
        if !is_opted_out(&ss[i]) {
            if let Some((j, conflict)) = find_implicit_hard(ss, i) {
                proof {
                    lemma_implicit_hard_below(ss@, i as int, i as int);
                }
                hard[i].add(j);
                conflicts.set(i, Some(conflict));
            }
        }
        i += 1;
    }
}

/// Systems taking part in the implicit ordering follow the last earlier such
/// system in the sequential order.
pub fn propagate_implicit_soft_ordering(ss: &Vec<ToBePlacedSystem>, soft: &mut Vec<DedupedUniqueIds>)
    requires
        constraints_wf(old(soft)@, ss@.len() as int),
    ensures
        constraints_wf(final(soft)@, ss@.len() as int),
        forall|k: int, x: usize| #![trigger final(soft)@[k].has(x)] 0 <= k < ss@.len() ==> (final(soft)@[k].has(x)
            <==> (old(soft)@[k].has(x) || implicit_soft_pred(ss@, k) == Some(x as int))),
{
    let n = ss.len();
    let mut i: usize = 0;
    while i < n
        invariant
            n == ss@.len(),
            i <= n,
            constraints_wf(soft@, n as int),
            forall|k: int, x: usize| #![trigger soft@[k].has(x)] 0 <= k < n ==> (soft@[k].has(x)
                <==> (old(soft)@[k].has(x) || (k < i && implicit_soft_pred(ss@, k) == Some(x as int)))),
        decreases n - i,
    {
        if !is_opted_out(&ss[i]) {
            if let Some(j) = find_implicit_soft(ss, i) {
                proof {
                    lemma_implicit_soft_below(ss@, i as int);
                }
                soft[i].add(j);
            }
        }
        i += 1;
    }
}

/// A system placed before all systems of a label makes them follow it.
pub fn map_before_all_to_after(ss: &Vec<ToBePlacedSystem>, hard: &mut Vec<DedupedUniqueIds>)
    requires
        constraints_wf(old(hard)@, ss@.len() as int),
    ensures
        constraints_wf(final(hard)@, ss@.len() as int),
        forall|k: int, x: usize| #![trigger final(hard)@[k].has(x)] 0 <= k < ss@.len() ==> (final(hard)@[k].has(x)
            <==> (old(hard)@[k].has(x) || before_all_edge(ss@, x as int, k))),
{
    let n = ss.len();
    let mut i: usize = 0;
    while i < n
        invariant
            n == ss@.len(),
            i <= n,
            constraints_wf(hard@, n as int),
            forall|k: int, x: usize| #![trigger hard@[k].has(x)] 0 <= k < n ==> (hard@[k].has(x)
                <==> (old(hard)@[k].has(x) || (x < i && before_all_edge(ss@, x as int, k)))),
        decreases n - i,
    {
        let mut j: usize = 0;
        while j < n
            invariant
                n == ss@.len(),
                i < n,
                j <= n,
                constraints_wf(hard@, n as int),
                forall|k: int, x: usize| #![trigger hard@[k].has(x)] 0 <= k < n ==> (hard@[k].has(x)
                    <==> (old(hard)@[k].has(x) || (x < i && before_all_edge(ss@, x as int, k))
                        || (x == i && k < j && before_all_edge(ss@, x as int, k)))),
            decreases n - j,
        {
            if i != j && any_label_in(&ss[j].tags, &ss[i].before_all) {
                hard[j].add(i);
            }
            j += 1;
        }
        i += 1;
    }
}

/// A system placed after all systems of a label follows them.
pub fn map_after_all_to_after(ss: &Vec<ToBePlacedSystem>, hard: &mut Vec<DedupedUniqueIds>)
    requires
        constraints_wf(old(hard)@, ss@.len() as int),
    ensures
        constraints_wf(final(hard)@, ss@.len() as int),
        forall|k: int, x: usize| #![trigger final(hard)@[k].has(x)] 0 <= k < ss@.len() ==> (final(hard)@[k].has(x)
            <==> (old(hard)@[k].has(x) || after_all_edge(ss@, k, x as int))),
{
    let n = ss.len();
    let mut i: usize = 0;
    while i < n
        invariant
            n == ss@.len(),
            i <= n,
            constraints_wf(hard@, n as int),
            forall|k: int, x: usize| #![trigger hard@[k].has(x)] 0 <= k < n ==> (hard@[k].has(x)
                <==> (old(hard)@[k].has(x) || (k < i && after_all_edge(ss@, k, x as int)))),
        decreases n - i,
    {
        let mut j: usize = 0;
        while j < n
            invariant
                n == ss@.len(),
                i < n,
                j <= n,
                constraints_wf(hard@, n as int),
                forall|k: int, x: usize| #![trigger hard@[k].has(x)] 0 <= k < n ==> (hard@[k].has(x)
                    <==> (old(hard)@[k].has(x) || (k < i && after_all_edge(ss@, k, x as int))
                        || (k == i && x < j && after_all_edge(ss@, k, x as int)))),
            decreases n - j,
        {
            if i != j && any_label_in(&ss[i].after_all, &ss[j].tags) {
                hard[i].add(j);
            }
            j += 1;
        }
        i += 1;
    }
}

fn names_unique(tags: &Vec<Label>, ids: &Vec<usize>) -> (b: bool)
    ensures
        b == tags_name_unique(tags@, ids@),
{
    let mut u: usize = 0;
    while u < ids.len()
        invariant
            u <= ids@.len(),
            forall|v: int| 0 <= v < u ==> !labels_contain(tags@, LabelView::Unique(#[trigger] ids@[v])),
        decreases ids@.len() - u,
    {
        let l = Label::Unique(ids[u]);
        if crate::scheduler::label::contains_label(tags, &l) {
            return true;
        }
        u += 1;
    }
    false
}

proof fn lemma_before_target_in_range(ss: Seq<ToBePlacedSystem>, i: int, j: int)
    ensures
        before_target_from(ss, i, j) matches Some(t) ==> 0 <= j <= t < ss.len() && t != i,
    decreases ss.len() - j,
{
    if 0 <= j < ss.len() {
        lemma_before_target_in_range(ss, i, j + 1);
    }
}

fn find_before_target(ss: &Vec<ToBePlacedSystem>, i: usize) -> (r: Option<usize>)
    requires
        i < ss@.len(),
    ensures
        match r {
            Some(t) => before_target_from(ss@, i as int, 0) == Some(t as int),
            None => before_target_from(ss@, i as int, 0) is None,
        },
{
    let n = ss.len();
    let mut j: usize = 0;
    while j < n
        invariant
            n == ss@.len(),
            i < n,
            j <= n,
            before_target_from(ss@, i as int, 0) == before_target_from(ss@, i as int, j as int),
        decreases n - j,
    {
        if i != j && names_unique(&ss[j].tags, &ss[i].hard_before) {
            return Some(j);
        }
        j += 1;
    }
    None
}

/// A system that must run before a given occurrence makes the first system
/// tagged with it follow.
pub fn map_before_to_after(ss: &Vec<ToBePlacedSystem>, hard: &mut Vec<DedupedUniqueIds>)
    requires
        constraints_wf(old(hard)@, ss@.len() as int),
    ensures
        constraints_wf(final(hard)@, ss@.len() as int),
        forall|k: int, x: usize| #![trigger final(hard)@[k].has(x)] 0 <= k < ss@.len() ==> (final(hard)@[k].has(x)
            <==> (old(hard)@[k].has(x) || before_target_from(ss@, x as int, 0) == Some(k))),
{
    let n = ss.len();
    let mut i: usize = 0;
    while i < n
        invariant
            n == ss@.len(),
            i <= n,
            constraints_wf(hard@, n as int),
            forall|k: int, x: usize| #![trigger hard@[k].has(x)] 0 <= k < n ==> (hard@[k].has(x)
                <==> (old(hard)@[k].has(x) || (x < i && before_target_from(ss@, x as int, 0) == Some(k)))),
        decreases n - i,
    {
        let target = find_before_target(ss, i);
        proof {
            lemma_before_target_in_range(ss@, i as int, 0);
        }
        if let Some(t) = target {
            hard[t].add(i);
        }
        i += 1;
    }
}

} // verus!
