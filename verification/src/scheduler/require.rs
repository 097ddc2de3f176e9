//! Checks that the systems a system requires are present in the workload.
use crate::error::AddWorkload;
use crate::scheduler::create_workload::{constraints_wf, ToBePlacedSystem};
use crate::scheduler::deduped::DedupedUniqueIds;
use crate::scheduler::label::{clone_labels, contains_label, label_views, labels_contain, Label, LabelView};
use vstd::prelude::*;

verus! {

/// Some system of `group` carries the label `l`.
pub open spec fn covered(ss: Seq<ToBePlacedSystem>, group: Seq<bool>, l: LabelView) -> bool {
    exists|s: int| 0 <= s < ss.len() && s < group.len() && group[s] && labels_contain(#[trigger] ss[s].tags@, l)
}

/// The labels of `req` that no system of `group` carries, in order.
pub open spec fn missing_from(req: Seq<Label>, ss: Seq<ToBePlacedSystem>, group: Seq<bool>) -> Seq<LabelView>
    decreases req.len(),
{
    if req.len() == 0 {
        Seq::empty()
    } else {
        let rest = missing_from(req.drop_last(), ss, group);
        if covered(ss, group, req.last()@) {
            rest
        } else {
            rest.push(req.last()@)
        }
    }
}

fn is_covered(ss: &Vec<ToBePlacedSystem>, group: &Vec<bool>, l: &Label) -> (b: bool)
    ensures
        b == covered(ss@, group@, l@),
{
    let mut s: usize = 0;
    while s < ss.len()
        invariant
            s <= ss@.len(),
            forall|t: int| 0 <= t < s && t < group@.len() && group@[t] ==> !labels_contain(#[trigger] ss@[t].tags@, l@),
        decreases ss@.len() - s,
    {
        if s < group.len() && group[s] && contains_label(&ss[s].tags, l) {
            return true;
        }
        s += 1;
    }
    false
}

/// The labels of `req` that no system of `group` carries.
fn missing_labels(req: &Vec<Label>, ss: &Vec<ToBePlacedSystem>, group: &Vec<bool>) -> (r: Vec<Label>)
    ensures
        label_views(r@) == missing_from(req@, ss@, group@),
{
    let mut r: Vec<Label> = Vec::new();
    let mut i: usize = 0;
    while i < req.len()
        invariant
            i <= req@.len(),
            label_views(r@) == missing_from(req@.subrange(0, i as int), ss@, group@),
        decreases req@.len() - i,
    {
        assert(req@.subrange(0, i + 1).drop_last() =~= req@.subrange(0, i as int));
        assert(req@.subrange(0, i + 1).last() == req@[i as int]);
        if !is_covered(ss, group, &req[i]) {
            let ghost before = r@;
            r.push(req[i].dyn_clone());
            assert(label_views(r@) =~= label_views(before).push(req@[i as int]@));
        }
        i += 1;
    }
    assert(req@.subrange(0, req@.len() as int) =~= req@);
    r
}

/// Adjacency lists over `n` systems.
pub open spec fn adj_wf(adj: Seq<Vec<usize>>, n: int) -> bool {
    &&& adj.len() == n
    &&& forall|a: int, k: int| 0 <= a < n && 0 <= k < adj[a]@.len() ==> #[trigger] adj[a]@[k] < n
}

/// `b` occurs in `l`.
pub open spec fn lists(l: Seq<usize>, b: int) -> bool {
    exists|i: int| 0 <= i < l.len() && #[trigger] l[i] as int == b
}

/// `adj` has an edge from `a` to `b`.
pub open spec fn edge(adj: Seq<Vec<usize>>, a: int, b: int) -> bool {
    lists(adj[a]@, b)
}

/// The relation given by adjacency lists: `a` has an edge to `b`.
pub open spec fn adj_rel(adj: Seq<Vec<usize>>) -> spec_fn(int, int) -> bool {
    |a: int, b: int| 0 <= a < adj.len() && edge(adj, a, b)
}

/// Step `i` of the walk `p` follows an edge of `e`.
pub open spec fn step(e: spec_fn(int, int) -> bool, p: Seq<int>, i: int) -> bool {
    e(p[i], p[i + 1])
}

/// `p` is a walk over `e` that starts with an edge out of `a` and ends in `b`.
pub open spec fn walk(e: spec_fn(int, int) -> bool, a: int, b: int, p: Seq<int>) -> bool {
    &&& p.len() > 0
    &&& p.last() == b
    &&& e(a, p[0])
    &&& forall|i: int| 0 <= i < p.len() - 1 ==> #[trigger] step(e, p, i)
}

/// `b` can be reached from `a` over `e` in one step or more.
pub open spec fn reach(e: spec_fn(int, int) -> bool, a: int, b: int) -> bool {
    exists|p: Seq<int>| walk(e, a, b, p)
}

proof fn lemma_reach_one(e: spec_fn(int, int) -> bool, a: int, b: int)
    requires
        e(a, b),
    ensures
        reach(e, a, b),
{
    assert(walk(e, a, b, seq![b]));
}

proof fn lemma_reach_extend(e: spec_fn(int, int) -> bool, a: int, m: int, b: int)
    requires
        reach(e, a, m),
        e(m, b),
    ensures
        reach(e, a, b),
{
    let p = choose|p: Seq<int>| walk(e, a, m, p);
    let q = p.push(b);
    assert forall|i: int| 0 <= i < q.len() - 1 implies #[trigger] step(e, q, i) by {
        if i < p.len() - 1 {
            assert(step(e, p, i));
        }
    }
    assert(walk(e, a, b, q));
}

proof fn lemma_reach_closed(adj: Seq<Vec<usize>>, a: int, visited: Seq<bool>, b: int, p: Seq<int>)
    requires
        visited.len() == adj.len(),
        adj_wf(adj, adj.len() as int),
        0 <= a < adj.len(),
        forall|j: int| edge(adj, a, j) ==> visited[j],
        forall|m: int, j: int| 0 <= m < adj.len() && visited[m] && #[trigger] edge(adj, m, j) ==> visited[j],
        walk(adj_rel(adj), a, b, p),
    ensures
        0 <= b < adj.len(),
        visited[b],
    decreases p.len(),
{
    let e = adj_rel(adj);
    if p.len() == 1 {
        let i = choose|i: int| 0 <= i < adj[a]@.len() && #[trigger] adj[a]@[i] as int == b;
        assert(adj[a]@[i] < adj.len());
    } else {
        let q = p.drop_last();
        let m = q.last();
        assert forall|i: int| 0 <= i < q.len() - 1 implies #[trigger] step(e, q, i) by {
            assert(step(e, p, i));
        }
        lemma_reach_closed(adj, a, visited, m, q);
        assert(step(e, p, p.len() - 2));
        assert(edge(adj, m, b));
        let i = choose|i: int| 0 <= i < adj[m]@.len() && #[trigger] adj[m]@[i] as int == b;
        assert(adj[m]@[i] < adj.len());
    }
}

/// The state of the search from `start`: `work` lists each visited system once, and only
/// systems reachable from `start` are visited.
spec fn search_inv(adj: Seq<Vec<usize>>, start: int, visited: Seq<bool>, work: Seq<usize>) -> bool {
    let n = adj.len();
    &&& adj_wf(adj, n as int)
    &&& 0 <= start < n
    &&& visited.len() == n
    &&& work.len() <= n
    &&& forall|j: int| 0 <= j < work.len() ==> (#[trigger] work[j]) < n && visited[work[j] as int]
    &&& forall|j1: int, j2: int| 0 <= j1 < j2 < work.len() ==> work[j1] != work[j2]
    &&& forall|b: int| 0 <= b < n && visited[b] ==> reach(adj_rel(adj), start, b)
    &&& forall|b: int| 0 <= b < n && visited[b] ==> exists|j: int| 0 <= j < work.len() && work[j] as int == b
}

/// Marks the successors of `m` and queues those seen for the first time.
fn visit_successors(adj: &Vec<Vec<usize>>, start: usize, m: usize, visited: &mut Vec<bool>, work: &mut Vec<usize>)
    requires
        search_inv(adj@, start as int, old(visited)@, old(work)@),
        m < adj@.len(),
        m == start || old(visited)@[m as int],
    ensures
        search_inv(adj@, start as int, final(visited)@, final(work)@),
        final(work)@.len() >= old(work)@.len(),
        final(work)@.subrange(0, old(work)@.len() as int) == old(work)@,
        forall|b: int| 0 <= b < adj@.len() && old(visited)@[b] ==> final(visited)@[b],
        forall|q: int| edge(adj@, m as int, q) ==> final(visited)@[q],
{
    let ghost n = adj@.len();
    let ghost work0 = work@;
    let ghost visited0 = visited@;
    let mut k: usize = 0;
    while k < adj[m].len()
        invariant
            n == adj@.len(),
            m < n,
            m == start || visited@[m as int],
            search_inv(adj@, start as int, visited@, work@),
            k <= adj@[m as int]@.len(),
            work@.len() >= work0.len(),
            work@.subrange(0, work0.len() as int) == work0,
            forall|b: int| 0 <= b < n && visited0[b] ==> visited@[b],
            forall|q: int| 0 <= q < k ==> visited@[adj@[m as int]@[q] as int],
        decreases adj@[m as int]@.len() - k,
    {
        let b = adj[m][k];
        assert(adj@[m as int]@[k as int] < n);
        if !visited[b] {
            proof {
                assert(edge(adj@, m as int, b as int));
                if m == start {
                    lemma_reach_one(adj_rel(adj@), start as int, b as int);
                } else {
                    lemma_reach_extend(adj_rel(adj@), start as int, m as int, b as int);
                }
                lemma_work_bound(work@, n as int, b as int, visited@);
            }
            let ghost before = work@;
            let ghost vbefore = visited@;
            visited.set(b, true);
            work.push(b);
            proof {
                assert(work@[work@.len() - 1] == b);
                assert forall|j1: int, j2: int| 0 <= j1 < j2 < work@.len() implies work@[j1] != work@[j2] by {
                    if j2 == work@.len() - 1 {
                        assert(before[j1] < n && vbefore[before[j1] as int]);
                    }
                }
                assert forall|x: int| 0 <= x < n && visited@[x] implies exists|j: int| 0 <= j < work@.len() && work@[j] as int == x by {
                    if x == b as int {
                        assert(work@[work@.len() - 1] as int == x);
                    } else {
                        let j = choose|j: int| 0 <= j < before.len() && before[j] as int == x;
                        assert(work@[j] == before[j]);
                    }
                }
                assert(work@.subrange(0, work0.len() as int) =~= before.subrange(0, work0.len() as int));
            }
        }
        k += 1;
    }
    proof {
        assert forall|q: int| edge(adj@, m as int, q) implies visited@[q] by {
            let i = choose|i: int| 0 <= i < adj@[m as int]@.len() && #[trigger] adj@[m as int]@[i] as int == q;
        }
    }
}

/// The systems reachable from `start` in one step or more.
pub fn closure(adj: &Vec<Vec<usize>>, start: usize) -> (visited: Vec<bool>)
    requires
        adj_wf(adj@, adj@.len() as int),
        start < adj@.len(),
    ensures
        visited@.len() == adj@.len(),
        forall|b: int| 0 <= b < adj@.len() ==> (visited@[b] <==> reach(adj_rel(adj@), start as int, b)),
{
    let n = adj.len();
    let mut visited: Vec<bool> = Vec::new();
    let mut i: usize = 0;
    while i < n
        invariant
            i <= n,
            visited@.len() == i,
            forall|j: int| 0 <= j < i ==> !visited@[j],
        decreases n - i,
    {
        visited.push(false);
        i += 1;
    }
    let mut work: Vec<usize> = Vec::new();
    visit_successors(adj, start, start, &mut visited, &mut work);
    let mut head: usize = 0;
    while head < work.len()
        invariant
            n == adj@.len(),
            search_inv(adj@, start as int, visited@, work@),
            head <= work@.len(),
            forall|q: int| edge(adj@, start as int, q) ==> visited@[q],
            forall|j: int, q: int| 0 <= j < head && #[trigger] edge(adj@, work@[j] as int, q) ==> visited@[q],
        decreases n - head,
    {
        let m = work[head];
        let ghost w0 = work@;
        let ghost v0 = visited@;
        visit_successors(adj, start, m, &mut visited, &mut work);
        proof {
            assert forall|j: int, q: int| 0 <= j < head + 1 && #[trigger] edge(adj@, work@[j] as int, q) implies visited@[q] by {
                assert(work@[j] == work@.subrange(0, w0.len() as int)[j]);
                assert(work@[j] == w0[j]);
                if j < head {
                    assert(edge(adj@, w0[j] as int, q));
                    assert(v0[q]);
                }
            }
        }
        head += 1;
    }
    proof {
        assert forall|mm: int, j: int| 0 <= mm < n && visited@[mm] && #[trigger] edge(adj@, mm, j) implies visited@[j] by {
            let w = choose|w: int| 0 <= w < work@.len() && work@[w] as int == mm;
            assert(edge(adj@, work@[w] as int, j));
        }
        assert forall|b: int| 0 <= b < n && reach(adj_rel(adj@), start as int, b) implies visited@[b] by {
            let p = choose|p: Seq<int>| walk(adj_rel(adj@), start as int, b, p);
            lemma_reach_closed(adj@, start as int, visited@, b, p);
        }
    }
    visited
}

proof fn lemma_work_bound(work: Seq<usize>, n: int, b: int, visited: Seq<bool>)
    requires
        0 <= b < n,
        visited.len() == n,
        !visited[b],
        forall|j: int| 0 <= j < work.len() ==> (#[trigger] work[j]) < n && visited[work[j] as int],
        forall|j1: int, j2: int| 0 <= j1 < j2 < work.len() ==> work[j1] != work[j2],
    ensures
        work.len() < n,
{
    let wi = work.map_values(|x: usize| x as int);
    assert forall|p: int, q: int| 0 <= p < wi.len() && 0 <= q < wi.len() && p != q implies wi[p] != wi[q] by {
        if p < q {
            assert(work[p] != work[q]);
        } else {
            assert(work[q] != work[p]);
        }
    }
    wi.unique_seq_to_set();
    let range = vstd::set_lib::set_int_range(0, n).remove(b);
    vstd::set_lib::lemma_int_range(0, n);
    assert forall|x: int| wi.to_set().contains(x) implies range.contains(x) by {
        let p = choose|p: int| 0 <= p < wi.len() && wi[p] == x;
        assert(work[p] < n);
        assert(visited[work[p] as int]);
    }
    vstd::set_lib::lemma_len_subset(wi.to_set(), range);
}

/// System `a` must run after system `b`.
pub open spec fn runs_after(hard: Seq<DedupedUniqueIds>) -> spec_fn(int, int) -> bool {
    |a: int, b: int| 0 <= a < hard.len() && 0 <= b < hard.len() && hard[a].has(b as usize)
}

/// System `b`, another than `a`, must run after system `a`.
pub open spec fn runs_before(hard: Seq<DedupedUniqueIds>) -> spec_fn(int, int) -> bool {
    |a: int, b: int| 0 <= a < hard.len() && 0 <= b < hard.len() && a != b && hard[b].has(a as usize)
}

/// The three lists of labels a system can require.
pub enum Requirement {
    InWorkload,
    Before,
    After,
}

/// The labels `s` requires of the given kind.
pub open spec fn required(s: ToBePlacedSystem, kind: Requirement) -> Seq<Label> {
    match kind {
        Requirement::InWorkload => s.require_in_workload@,
        Requirement::Before => s.require_before@,
        Requirement::After => s.require_after@,
    }
}

/// The systems whose tags can meet the requirements of system `i`: every system of
/// the workload; the systems that run before it; or the systems that run after it.
pub open spec fn candidates(n: int, hard: Seq<DedupedUniqueIds>, kind: Requirement, i: int) -> Seq<bool> {
    match kind {
        Requirement::InWorkload => Seq::new(n as nat, |b: int| true),
        Requirement::Before => Seq::new(n as nat, |b: int| reach(runs_after(hard), i, b)),
        Requirement::After => Seq::new(n as nat, |b: int| reach(runs_before(hard), i, b)),
    }
}

/// The labels required by system `i` that no candidate carries.
pub open spec fn missing(ss: Seq<ToBePlacedSystem>, hard: Seq<DedupedUniqueIds>, kind: Requirement, i: int) -> Seq<LabelView> {
    missing_from(required(ss[i], kind), ss, candidates(ss.len() as int, hard, kind, i))
}

/// Adjacency lists of the systems each system runs after.
fn after_lists(hard: &Vec<DedupedUniqueIds>) -> (adj: Vec<Vec<usize>>)
    requires
        constraints_wf(hard@, hard@.len() as int),
    ensures
        adj_wf(adj@, hard@.len() as int),
        adj_rel(adj@) == runs_after(hard@),
{
    let n = hard.len();
    let mut adj: Vec<Vec<usize>> = Vec::new();
    let mut k: usize = 0;
    while k < n
        invariant
            k <= n,
            n == hard@.len(),
            constraints_wf(hard@, n as int),
            adj@.len() == k,
            forall|a: int| 0 <= a < k ==> (#[trigger] adj@[a])@ == hard@[a].0@,
        decreases n - k,
    {
        let l = hard[k].0.clone();
        assert(l@ =~= hard@[k as int].0@);
        adj.push(l);
        k += 1;
    }
    proof {
        assert forall|a: int, q: int| 0 <= a < n && 0 <= q < adj@[a]@.len() implies #[trigger] adj@[a]@[q] < n by {
            assert(hard@[a].has(adj@[a]@[q]));
        }
        assert forall|a: int, b: int| #![trigger edge(adj@, a, b)] adj_rel(adj@)(a, b) == runs_after(hard@)(a, b) by {
            if adj_rel(adj@)(a, b) {
                let q = choose|q: int| 0 <= q < adj@[a]@.len() && #[trigger] adj@[a]@[q] as int == b;
                assert(hard@[a].has(adj@[a]@[q]));
                assert(b as usize == adj@[a]@[q]);
            }
            if runs_after(hard@)(a, b) {
                let q = choose|q: int| 0 <= q < hard@[a].0@.len() && hard@[a].0@[q] == b as usize;
                assert(adj@[a]@[q] as int == b);
            }
        }
        assert(adj_rel(adj@) =~= runs_after(hard@));
    }
    adj
}

/// Adjacency lists of the other systems that run after each system.
fn before_lists(hard: &Vec<DedupedUniqueIds>) -> (adj: Vec<Vec<usize>>)
    requires
        constraints_wf(hard@, hard@.len() as int),
    ensures
        adj_wf(adj@, hard@.len() as int),
        adj_rel(adj@) == runs_before(hard@),
{
    let n = hard.len();
    let mut adj: Vec<Vec<usize>> = Vec::new();
    let mut a: usize = 0;
    while a < n
        invariant
            a <= n,
            n == hard@.len(),
            constraints_wf(hard@, n as int),
            adj@.len() == a,
            forall|x: int, q: int| 0 <= x < a && 0 <= q < adj@[x]@.len() ==> #[trigger] adj@[x]@[q] < n,
            forall|x: int, b: int| #![trigger edge(adj@, x, b)] 0 <= x < a ==> (edge(adj@, x, b) <==> runs_before(hard@)(x, b)),
        decreases n - a,
    {
        let mut l: Vec<usize> = Vec::new();
        let mut j: usize = 0;
        while j < n
            invariant
                j <= n,
                a < n,
                n == hard@.len(),
                constraints_wf(hard@, n as int),
                forall|q: int| 0 <= q < l@.len() ==> #[trigger] l@[q] < j,
                forall|b: int| #[trigger] lists(l@, b) <==> (0 <= b < j && runs_before(hard@)(a as int, b)),
            decreases n - j,
        {
            if j != a && hard[j].contains(a) {
                let ghost l0 = l@;
                l.push(j);
                proof {
                    assert forall|b: int| #[trigger] lists(l@, b) <==> (0 <= b < j + 1 && runs_before(hard@)(a as int, b)) by {
                        assert(lists(l0, b) <==> (0 <= b < j && runs_before(hard@)(a as int, b)));
                        if b == j as int {
                            assert(l@[l@.len() - 1] as int == b);
                        }
                        if lists(l0, b) {
                            let q = choose|q: int| 0 <= q < l0.len() && #[trigger] l0[q] as int == b;
                            assert(l@[q] as int == b);
                        }
                        if lists(l@, b) && b != j as int {
                            let q = choose|q: int| 0 <= q < l@.len() && #[trigger] l@[q] as int == b;
                            assert(q < l0.len());
                            assert(l0[q] as int == b);
                        }
                    }
                }
            } else {
                proof {
                    assert forall|b: int| #[trigger] lists(l@, b) <==> (0 <= b < j + 1 && runs_before(hard@)(a as int, b)) by {
                        assert(lists(l@, b) <==> (0 <= b < j && runs_before(hard@)(a as int, b)));
                    }
                }
            }
            j += 1;
        }
        let ghost before = adj@;
        adj.push(l);
        proof {
            assert forall|x: int, b: int| #![trigger edge(adj@, x, b)] 0 <= x < a + 1 implies (edge(adj@, x, b) <==> runs_before(hard@)(x, b)) by {
                if x < a {
                    assert(adj@[x] == before[x]);
                    assert(edge(before, x, b) <==> runs_before(hard@)(x, b));
                } else {
                    assert(adj@[x]@ == l@);
                    assert(lists(l@, b) <==> (0 <= b < n && runs_before(hard@)(a as int, b)));
                }
            }
        }
        a += 1;
    }
    proof {
        assert forall|x: int, b: int| #![trigger edge(adj@, x, b)] adj_rel(adj@)(x, b) == runs_before(hard@)(x, b) by {
            if 0 <= x < n {
                assert(edge(adj@, x, b) <==> runs_before(hard@)(x, b));
            }
        }
        assert(adj_rel(adj@) =~= runs_before(hard@));
    }
    adj
}

/// The candidates for the requirements of system `i`, computed.
fn candidates_of(n: usize, adj: &Vec<Vec<usize>>, hard: &Vec<DedupedUniqueIds>, kind: &Requirement, i: usize) -> (c: Vec<bool>)
    requires
        i < n,
        *kind != Requirement::InWorkload ==> {
            &&& hard@.len() == n
            &&& constraints_wf(hard@, n as int)
            &&& adj_wf(adj@, n as int)
            &&& *kind == Requirement::Before ==> adj_rel(adj@) == runs_after(hard@)
            &&& *kind == Requirement::After ==> adj_rel(adj@) == runs_before(hard@)
        },
    ensures
        c@ == candidates(n as int, hard@, *kind, i as int),
{
    match kind {
        Requirement::InWorkload => {
            let mut c: Vec<bool> = Vec::new();
            let mut k: usize = 0;
            while k < n
                invariant
                    k <= n,
                    c@.len() == k,
                    forall|j: int| 0 <= j < k ==> c@[j],
                decreases n - k,
            {
                c.push(true);
                k += 1;
            }
            assert(c@ =~= candidates(n as int, hard@, *kind, i as int));
            c
        },
        Requirement::Before => {
            let c = closure(adj, i);
            assert(c@ =~= candidates(n as int, hard@, *kind, i as int));
            c
        },
        Requirement::After => {
            let c = closure(adj, i);
            assert(c@ =~= candidates(n as int, hard@, *kind, i as int));
            c
        },
    }
}

/// Finds the first system with a requirement of `kind` that no candidate meets.
fn first_unmet(ss: &Vec<ToBePlacedSystem>, hard: &Vec<DedupedUniqueIds>, kind: Requirement) -> (r: Option<(usize, Vec<Label>)>)
    requires
        kind != Requirement::InWorkload ==> constraints_wf(hard@, ss@.len() as int),
    ensures
        match r {
            None => forall|i: int| 0 <= i < ss@.len() ==> #[trigger] missing(ss@, hard@, kind, i).len() == 0,
            Some((i, labels)) => {
                &&& i < ss@.len()
                &&& forall|j: int| 0 <= j < i ==> #[trigger] missing(ss@, hard@, kind, j).len() == 0
                &&& missing(ss@, hard@, kind, i as int).len() > 0
                &&& label_views(labels@) == missing(ss@, hard@, kind, i as int)
            },
        },
{
    let n = ss.len();
    let adj = match kind {
        Requirement::InWorkload => Vec::new(),
        Requirement::Before => after_lists(hard),
        Requirement::After => before_lists(hard),
    };
    let mut i: usize = 0;
    while i < n
        invariant
            i <= n,
            n == ss@.len(),
            kind != Requirement::InWorkload ==> {
                &&& hard@.len() == n
                &&& constraints_wf(hard@, n as int)
                &&& adj_wf(adj@, n as int)
                &&& kind == Requirement::Before ==> adj_rel(adj@) == runs_after(hard@)
                &&& kind == Requirement::After ==> adj_rel(adj@) == runs_before(hard@)
            },
            forall|j: int| 0 <= j < i ==> #[trigger] missing(ss@, hard@, kind, j).len() == 0,
        decreases n - i,
    {
        let c = candidates_of(n, &adj, hard, &kind, i);
        let req = match kind {
            Requirement::InWorkload => &ss[i].require_in_workload,
            Requirement::Before => &ss[i].require_before,
            Requirement::After => &ss[i].require_after,
        };
        let labels = missing_labels(req, ss, &c);
        if labels.len() > 0 {
            return Some((i, labels));
        }
        i += 1;
    }
    None
}

/// Checks that the labels each system requires in the workload are carried by some
/// system of the workload; otherwise names the first system that misses some.
pub fn check_require_in_workload(ss: &Vec<ToBePlacedSystem>) -> (r: Result<(), AddWorkload>)
    ensures
        match r {
            Ok(()) => forall|i: int| 0 <= i < ss@.len() ==> #[trigger] missing(ss@, seq![], Requirement::InWorkload, i).len() == 0,
            Err(AddWorkload::MissingInWorkload(name, labels)) => exists|i: int| {
                &&& 0 <= i < ss@.len()
                &&& forall|j: int| 0 <= j < i ==> #[trigger] missing(ss@, seq![], Requirement::InWorkload, j).len() == 0
                &&& missing(ss@, seq![], Requirement::InWorkload, i).len() > 0
                &&& name@ == ss@[i].display_name@
                &&& label_views(labels@) == missing(ss@, seq![], Requirement::InWorkload, i)
            },
            Err(_) => false,
        },
{
    let none: Vec<DedupedUniqueIds> = Vec::new();
    assert(none@ =~= seq![]);
    match first_unmet(ss, &none, Requirement::InWorkload) {
        None => Ok(()),
        Some((i, labels)) => Err(AddWorkload::MissingInWorkload(ss[i].display_name.dyn_clone(), labels)),
    }
}

/// Checks that the labels each system requires before it are carried by systems it
/// runs after, directly or through others; otherwise names the first system that
/// misses some.
pub fn check_require_before(ss: &Vec<ToBePlacedSystem>, hard: &Vec<DedupedUniqueIds>) -> (r: Result<(), AddWorkload>)
    requires
        constraints_wf(hard@, ss@.len() as int),
    ensures
        match r {
            Ok(()) => forall|i: int| 0 <= i < ss@.len() ==> #[trigger] missing(ss@, hard@, Requirement::Before, i).len() == 0,
            Err(AddWorkload::MissingBefore(name, labels)) => exists|i: int| {
                &&& 0 <= i < ss@.len()
                &&& forall|j: int| 0 <= j < i ==> #[trigger] missing(ss@, hard@, Requirement::Before, j).len() == 0
                &&& missing(ss@, hard@, Requirement::Before, i).len() > 0
                &&& name@ == ss@[i].display_name@
                &&& label_views(labels@) == missing(ss@, hard@, Requirement::Before, i)
            },
            Err(_) => false,
        },
{
    match first_unmet(ss, hard, Requirement::Before) {
        None => Ok(()),
        Some((i, labels)) => Err(AddWorkload::MissingBefore(ss[i].display_name.dyn_clone(), labels)),
    }
}

/// Checks that the labels each system requires after it are carried by systems that
/// run after it, directly or through others; otherwise names the first system that
/// misses some.
pub fn check_require_after(ss: &Vec<ToBePlacedSystem>, hard: &Vec<DedupedUniqueIds>) -> (r: Result<(), AddWorkload>)
    requires
        constraints_wf(hard@, ss@.len() as int),
    ensures
        match r {
            Ok(()) => forall|i: int| 0 <= i < ss@.len() ==> #[trigger] missing(ss@, hard@, Requirement::After, i).len() == 0,
            Err(AddWorkload::MissingAfter(name, labels)) => exists|i: int| {
                &&& 0 <= i < ss@.len()
                &&& forall|j: int| 0 <= j < i ==> #[trigger] missing(ss@, hard@, Requirement::After, j).len() == 0
                &&& missing(ss@, hard@, Requirement::After, i).len() > 0
                &&& name@ == ss@[i].display_name@
                &&& label_views(labels@) == missing(ss@, hard@, Requirement::After, i)
            },
            Err(_) => false,
        },
{
    match first_unmet(ss, hard, Requirement::After) {
        None => Ok(()),
        Some((i, labels)) => Err(AddWorkload::MissingAfter(ss[i].display_name.dyn_clone(), labels)),
    }
}

} // verus!
