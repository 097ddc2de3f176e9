//! Orders the systems of a workload with Kahn's algorithm.
use crate::error::{AddWorkload, ImpossibleRequirements};
use crate::scheduler::batches::{Batches, NO_RUN_IF};
use crate::scheduler::create_workload::{
    borrow_conflict, borrows_conflict, check_conflict, constraints_wf, is_single, lemma_conflict_symmetric,
    lemma_singles_conflict, ToBePlacedSystem,
};
use crate::scheduler::deduped::DedupedUniqueIds;
use crate::scheduler::info::{duplicate_type_infos, same_type_info, BatchInfo, Conflict, SystemInfo, TypeInfo};
use crate::scheduler::label::{clone_labels, label_views, Label, LabelView};
use vstd::prelude::*;

verus! {

/// Every id of `d` names a placed system.
pub open spec fn all_placed(d: DedupedUniqueIds, placed: Seq<bool>) -> bool {
    forall|x: usize| #[trigger] d.has(x) ==> x < placed.len() && placed[x as int]
}

/// Every id of `d` names a system placed in an earlier round.
pub open spec fn all_placed_before(d: DedupedUniqueIds, placed: Seq<bool>, round_of: Seq<usize>, round: usize) -> bool {
    forall|x: usize| #[trigger] d.has(x) ==> x < placed.len() && placed[x as int] && round_of[x as int] < round
}

/// System `k` may be queued: in `strict` mode its hard constraints must be met
/// by earlier rounds, otherwise by any placed system.
pub open spec fn ready(
    hard: Seq<DedupedUniqueIds>,
    soft: Seq<DedupedUniqueIds>,
    k: int,
    placed: Seq<bool>,
    round_of: Seq<usize>,
    strict: bool,
    round: usize,
) -> bool {
    &&& all_placed(soft[k], placed)
    &&& if strict { all_placed_before(hard[k], placed, round_of, round) } else { all_placed(hard[k], placed) }
}

fn ids_ready(
    d: &DedupedUniqueIds,
    placed: &Vec<bool>,
    round_of: &Vec<usize>,
    strict: bool,
    round: usize,
) -> (b: bool)
    requires
        round_of@.len() == placed@.len(),
        forall|x: usize| #[trigger] d.has(x) ==> x < placed@.len(),
    ensures
        b == if strict { all_placed_before(*d, placed@, round_of@, round) } else { all_placed(*d, placed@) },
{
    let mut i: usize = 0;
    while i < d.0.len()
        invariant
            i <= d.0@.len(),
            round_of@.len() == placed@.len(),
            forall|x: usize| #[trigger] d.has(x) ==> x < placed@.len(),
            forall|j: int| 0 <= j < i ==> placed@[d.0@[j] as int] && (strict ==> round_of@[d.0@[j] as int] < round),
        decreases d.0@.len() - i,
    {
        let x = d.0[i];
        assert(d.has(x));
        if !placed[x] || (strict && round_of[x] >= round) {
            return false;
        }
        i += 1;
    }
    proof {
        assert forall|x: usize| #[trigger] d.has(x) implies x < placed@.len() && placed@[x as int]
            && (strict ==> round_of@[x as int] < round) by {
            let j = choose|j: int| 0 <= j < d.0@.len() && d.0@[j] == x;
        }
    }
    true
}

/// The queue holds distinct positions, exactly those flagged as queued.
pub open spec fn queue_wf(queue: Seq<usize>, queued: Seq<bool>, n: int) -> bool {
    &&& queued.len() == n
    &&& queue.len() <= n
    &&& forall|p: int| 0 <= p < queue.len() ==> (#[trigger] queue[p]) < n && queued[queue[p] as int]
    &&& forall|p: int, q: int| 0 <= p < q < queue.len() ==> queue[p] != queue[q]
    &&& forall|k: int| 0 <= k < n && #[trigger] queued[k] ==> exists|p: int| 0 <= p < queue.len() && queue[p] == k
}

proof fn lemma_queue_len(queue: Seq<usize>, queued: Seq<bool>, n: int)
    requires
        queued.len() == n,
        forall|p: int| 0 <= p < queue.len() ==> (#[trigger] queue[p]) < n,
        forall|p: int, q: int| 0 <= p < q < queue.len() ==> queue[p] != queue[q],
    ensures
        queue.len() <= n,
{
    let qi = queue.map_values(|x: usize| x as int);
    assert forall|p: int, q: int| 0 <= p < qi.len() && 0 <= q < qi.len() && p != q implies qi[p] != qi[q] by {
        if p < q {
            assert(queue[p] != queue[q]);
        } else {
            assert(queue[q] != queue[p]);
        }
    }
    assert(qi.no_duplicates());
    qi.unique_seq_to_set();
    let range = vstd::set_lib::set_int_range(0, n);
    vstd::set_lib::lemma_int_range(0, n);
    assert forall|x: int| qi.to_set().contains(x) implies range.contains(x) by {
        let p = choose|p: int| 0 <= p < qi.len() && qi[p] == x;
        assert(queue[p] < n);
    }
    vstd::set_lib::lemma_len_subset(qi.to_set(), range);
}

/// Appends to the queue, in position order, every system not queued yet that is ready.
fn enqueue_ready(
    hard: &Vec<DedupedUniqueIds>,
    soft: &Vec<DedupedUniqueIds>,
    placed: &Vec<bool>,
    round_of: &Vec<usize>,
    strict: bool,
    round: usize,
    queued: &mut Vec<bool>,
    queue: &mut Vec<usize>,
)
    requires
        constraints_wf(hard@, placed@.len() as int),
        constraints_wf(soft@, placed@.len() as int),
        round_of@.len() == placed@.len(),
        queue_wf(old(queue)@, old(queued)@, placed@.len() as int),
    ensures
        queue_wf(final(queue)@, final(queued)@, placed@.len() as int),
        final(queue)@.len() >= old(queue)@.len(),
        final(queue)@.subrange(0, old(queue)@.len() as int) == old(queue)@,
        forall|k: int| 0 <= k < placed@.len() ==> (#[trigger] final(queued)@[k]
            <==> (old(queued)@[k] || ready(hard@, soft@, k, placed@, round_of@, strict, round))),
        forall|p: int| old(queue)@.len() <= p < final(queue)@.len() ==>
            !old(queued)@[final(queue)@[p] as int] && ready(hard@, soft@, final(queue)@[p] as int, placed@, round_of@, strict, round),
        forall|p: int, q: int| old(queue)@.len() <= p < q < final(queue)@.len() ==> final(queue)@[p] < final(queue)@[q],
{
    let n = placed.len();
    let ghost q0 = queue@;
    let mut k: usize = 0;
    while k < n
        invariant
            n == placed@.len(),
            k <= n,
            constraints_wf(hard@, n as int),
            constraints_wf(soft@, n as int),
            round_of@.len() == n,
            queue_wf(queue@, queued@, n as int),
            queue@.len() >= q0.len(),
            queue@.subrange(0, q0.len() as int) == q0,
            q0 == old(queue)@,
            forall|j: int| 0 <= j < n ==> (#[trigger] queued@[j]
                <==> (old(queued)@[j] || (j < k && ready(hard@, soft@, j, placed@, round_of@, strict, round)))),
            forall|p: int| q0.len() <= p < queue@.len() ==>
                !old(queued)@[queue@[p] as int] && ready(hard@, soft@, queue@[p] as int, placed@, round_of@, strict, round),
            forall|p: int| q0.len() <= p < queue@.len() ==> queue@[p] < k,
            forall|p: int, q: int| q0.len() <= p < q < queue@.len() ==> queue@[p] < queue@[q],
        decreases n - k,
    {
        if !queued[k] {
            let h = ids_ready(&hard[k], placed, round_of, strict, round);
            let s = ids_ready(&soft[k], placed, round_of, false, round);
            if h && s {
                proof {
                    lemma_queue_len(queue@.push(k), queued@.update(k as int, true), n as int);
                }
                let ghost oq = queue@;
                let ghost oqd = queued@;
                queue.push(k);
                queued.set(k, true);
                proof {
                    let qq = queue@;
                    assert forall|j: int| 0 <= j < n && #[trigger] queued@[j] implies exists|p: int| 0 <= p < qq.len() && qq[p] == j by {
                        if j != k {
                            assert(oqd[j]);
                            let p = choose|p: int| 0 <= p < oq.len() && oq[p] == j;
                            assert(qq[p] == oq[p]);
                        } else {
                            assert(qq[qq.len() - 1] == j);
                        }
                    }
                    assert(queue@.subrange(0, q0.len() as int) =~= q0);
                }
            }
        }
        k += 1;
    }
}


/// Both lists describe the same borrows.
pub open spec fn same_infos(a: Seq<TypeInfo>, b: Seq<TypeInfo>) -> bool {
    a.len() == b.len() && forall|i: int| 0 <= i < a.len() ==> same_type_info(#[trigger] a[i], b[i])
}

proof fn lemma_same_infos_conflict(x: Seq<TypeInfo>, a: Seq<TypeInfo>, b: Seq<TypeInfo>)
    requires
        same_infos(a, b),
    ensures
        borrows_conflict(x, a) == borrows_conflict(x, b),
{
    if borrows_conflict(x, a) {
        let (p, q) = choose|p: int, q: int| 0 <= p < x.len() && 0 <= q < a.len() && #[trigger] borrow_conflict(x[p], a[q]);
        assert(same_type_info(a[q], b[q]));
        assert(borrow_conflict(x[p], b[q]));
    }
    if borrows_conflict(x, b) {
        let (p, q) = choose|p: int, q: int| 0 <= p < x.len() && 0 <= q < b.len() && #[trigger] borrow_conflict(x[p], b[q]);
        assert(same_type_info(a[q], b[q]));
        assert(borrow_conflict(x[p], a[q]));
    }
}

fn is_single_system(borrows: &Vec<TypeInfo>) -> (b: bool)
    ensures
        b == is_single(borrows@),
{
    let mut p: usize = 0;
    while p < borrows.len()
        invariant
            p <= borrows@.len(),
            forall|q: int| 0 <= q < p ==> !(!(#[trigger] borrows@[q]).thread_safe || borrows@[q].storage_id.0 == 0),
        decreases borrows@.len() - p,
    {
        if !borrows[p].thread_safe || borrows[p].storage_id.is_all_storages() {
            assert(!borrows@[p as int].thread_safe || borrows@[p as int].storage_id.0 == 0);
            return true;
        }
        p += 1;
    }
    false
}

/// Why a system borrowing `tested` cannot join the batch, if it cannot.
fn check_can_go_in_parallel_batch(batch_info: &BatchInfo, tested: &Vec<TypeInfo>, tested_index: usize) -> (c: Option<Conflict>)
    ensures
        c is None <==> ((batch_info.systems.0 matches Some(si) ==> !borrows_conflict(tested@, si.borrow@))
            && forall|i: int| 0 <= i < batch_info.systems.1@.len() ==> !borrows_conflict(tested@, (#[trigger] batch_info.systems.1@[i]).borrow@)),
{
    if let Some(single_system_info) = &batch_info.systems.0 {
        if let Some(conflict) = check_conflict(tested, tested_index, &single_system_info.borrow) {
            return Some(conflict);
        }
    }
    let mut i: usize = 0;
    while i < batch_info.systems.1.len()
        invariant
            i <= batch_info.systems.1@.len(),
            forall|j: int| 0 <= j < i ==> !borrows_conflict(tested@, (#[trigger] batch_info.systems.1@[j]).borrow@),
        decreases batch_info.systems.1@.len() - i,
    {
        if let Some(conflict) = check_conflict(tested, tested_index, &batch_info.systems.1[i].borrow) {
            return Some(conflict);
        }
        i += 1;
    }
    None
}

/// `x` comes before `k` in `order`.
pub open spec fn precedes(order: Seq<usize>, x: usize, k: usize) -> bool {
    exists|p: int, q: int| 0 <= p < q < order.len() && order[p] == x && order[q] == k
}

/// The placement of the systems meets every constraint.
pub open spec fn schedule_ok(
    ss: Seq<ToBePlacedSystem>,
    hard: Seq<DedupedUniqueIds>,
    soft: Seq<DedupedUniqueIds>,
    order: Seq<usize>,
    batch_of: Seq<usize>,
) -> bool {
    let n = ss.len();
    &&& order.len() == n
    &&& batch_of.len() == n
    &&& forall|p: int| 0 <= p < n ==> (#[trigger] order[p]) < n
    &&& forall|p: int, q: int| 0 <= p < q < n ==> order[p] != order[q]
    &&& forall|p: int, q: int| 0 <= p < q < n ==> batch_of[order[p] as int] <= batch_of[order[q] as int]
    &&& forall|k: int, x: usize| 0 <= k < n && #[trigger] hard[k].has(x) ==>
            precedes(order, x, k as usize) && batch_of[x as int] < batch_of[k]
    &&& forall|k: int, x: usize| 0 <= k < n && #[trigger] soft[k].has(x) ==> precedes(order, x, k as usize)
    &&& forall|x: int, y: int| 0 <= x < n && 0 <= y < n && x != y && batch_of[x] == batch_of[y] ==>
            !borrows_conflict(ss[x].borrow_constraints@, ss[y].borrow_constraints@)
}

/// The systems left unplaced each wait on another unplaced system: their constraints form a cycle.
pub open spec fn stuck(
    hard: Seq<DedupedUniqueIds>,
    soft: Seq<DedupedUniqueIds>,
    placed: Seq<bool>,
) -> bool {
    &&& exists|k: int| 0 <= k < placed.len() && !placed[k]
    &&& forall|k: int| 0 <= k < placed.len() && !placed[k] ==>
            exists|x: usize| #[trigger] waits_on(hard, soft, k, x) && x < placed.len() && !placed[x as int]
}

/// System `k` must follow system `x`.
pub open spec fn waits_on(hard: Seq<DedupedUniqueIds>, soft: Seq<DedupedUniqueIds>, k: int, x: usize) -> bool {
    hard[k].has(x) || soft[k].has(x)
}

/// Runs of systems in the sequential order with their run conditions.
#[verifier::opaque]
pub open spec fn sequential_ok(ss: Seq<ToBePlacedSystem>, order: Seq<usize>, b: Batches) -> bool {
    &&& b.sequential@.len() == order.len()
    &&& b.sequential_run_if@.len() == order.len()
    &&& forall|p: int| 0 <= p < order.len() ==> #[trigger] b.sequential@[p] == ss[order[p] as int].index
    &&& forall|p: int| 0 <= p < order.len() ==> match ss[order[p] as int].run_if {
            None => #[trigger] b.sequential_run_if@[p] == NO_RUN_IF,
            Some(c) => b.sequential_run_if@[p] < b.systems_run_if@.len() && b.systems_run_if@[b.sequential_run_if@[p] as int] == c,
        }
}


/// The last batch holds exactly the placed systems of batch `l`.
#[verifier::opaque]
pub open spec fn last_batch_ok(
    ss: Seq<ToBePlacedSystem>,
    info: BatchInfo,
    placed: Seq<bool>,
    batch_of: Seq<usize>,
    l: usize,
    msingle: Option<usize>,
    mlist: Seq<usize>,
) -> bool {
    &&& info.systems.0 is Some <==> msingle is Some
    &&& (msingle matches Some(m) ==> m < ss.len() && placed[m as int] && batch_of[m as int] == l
            && is_single(ss[m as int].borrow_constraints@)
            && same_infos(info.systems.0->0.borrow@, ss[m as int].borrow_constraints@))
    &&& info.systems.1@.len() == mlist.len()
    &&& forall|i: int| 0 <= i < mlist.len() ==> (#[trigger] mlist[i]) < ss.len() && placed[mlist[i] as int]
            && batch_of[mlist[i] as int] == l
            && same_infos(info.systems.1@[i].borrow@, ss[mlist[i] as int].borrow_constraints@)
    &&& forall|y: int| 0 <= y < ss.len() && placed[y] && batch_of[y] == l ==>
            (msingle == Some(y as usize) || exists|i: int| 0 <= i < mlist.len() && mlist[i] == y)
}

/// The run condition index `r` points at the condition of system `s`, or says it has none.
pub open spec fn run_if_at(s: ToBePlacedSystem, b: Batches, r: usize) -> bool {
    match s.run_if {
        None => r == NO_RUN_IF,
        Some(c) => r < b.systems_run_if@.len() && b.systems_run_if@[r as int] == c,
    }
}

/// `si` describes system `s`.
pub open spec fn member_info(si: SystemInfo, s: ToBePlacedSystem) -> bool {
    same_infos(si.borrow@, s.borrow_constraints@) && si.name@ == s.display_name@
}

/// Parallel batch `l`, its run conditions and its information hold the systems `mem`: an
/// optional system that runs alone and the systems beside it, which are exactly the placed
/// systems of batch `l`.
pub open spec fn batch_ok(
    ss: Seq<ToBePlacedSystem>,
    placed: Seq<bool>,
    batch_of: Seq<usize>,
    b: Batches,
    info: BatchInfo,
    mem: (Option<usize>, Seq<usize>),
    l: int,
) -> bool {
    let ps = b.parallel@[l].0;
    let pl = b.parallel@[l].1@;
    let rs = b.parallel_run_if@[l].0;
    let rl = b.parallel_run_if@[l].1@;
    &&& (mem.0 is Some <==> ps is Some)
    &&& (mem.0 is Some <==> info.systems.0 is Some)
    &&& (mem.0 matches Some(m) ==> m < ss.len() && placed[m as int] && batch_of[m as int] == l
            && is_single(ss[m as int].borrow_constraints@) && ps == Some(ss[m as int].index)
            && run_if_at(ss[m as int], b, rs) && member_info(info.systems.0->0, ss[m as int]))
    &&& pl.len() == mem.1.len()
    &&& rl.len() == mem.1.len()
    &&& info.systems.1@.len() == mem.1.len()
    &&& forall|j: int| 0 <= j < mem.1.len() ==> (#[trigger] mem.1[j]) < ss.len() && placed[mem.1[j] as int]
            && batch_of[mem.1[j] as int] == l && !is_single(ss[mem.1[j] as int].borrow_constraints@)
            && pl[j] == ss[mem.1[j] as int].index && run_if_at(ss[mem.1[j] as int], b, rl[j])
            && member_info(info.systems.1@[j], ss[mem.1[j] as int])
    &&& forall|y: int| 0 <= y < ss.len() && placed[y] && batch_of[y] == l ==>
            (mem.0 == Some(y as usize) || exists|j: int| 0 <= j < mem.1.len() && mem.1[j] == y)
}

/// Every one of `n` systems placed.
pub open spec fn all_placed_flags(n: nat) -> Seq<bool> {
    Seq::new(n, |i: int| true)
}

/// The systems `ml` come in the order of `order`.
pub open spec fn members_in_order(order: Seq<usize>, ml: Seq<usize>) -> bool {
    forall|j1: int, j2: int| 0 <= j1 < j2 < ml.len() ==> #[trigger] precedes(order, ml[j1], ml[j2])
}

/// The parallel batches stored in `b` and their information `infos` hold exactly the
/// systems of each batch, as `batch_of` places them.
pub open spec fn parallel_batches(ss: Seq<ToBePlacedSystem>, order: Seq<usize>, batch_of: Seq<usize>, infos: Seq<BatchInfo>, b: Batches) -> bool {
    &&& b.parallel@.len() == infos.len()
    &&& b.parallel_run_if@.len() == infos.len()
    &&& exists|members: Seq<(Option<usize>, Seq<usize>)>| #![trigger members.len()] members.len() == infos.len()
        && (forall|l: int| 0 <= l < infos.len() ==> #[trigger] batch_ok(ss, all_placed_flags(ss.len()), batch_of, b, infos[l], members[l], l))
        && (forall|l: int| 0 <= l < infos.len() ==> #[trigger] members_in_order(order, members[l].1))
}

/// System `k`, in round `r`, waits on a system of the round before through a hard
/// constraint or on one of the same round through a soft constraint, unless `r` is the
/// first round.
pub open spec fn tight(hard: Seq<DedupedUniqueIds>, soft: Seq<DedupedUniqueIds>, round_of: Seq<usize>, k: int, r: int) -> bool {
    ||| r == 0
    ||| exists|x: usize| #[trigger] hard[k].has(x) && round_of[x as int] + 1 == r
    ||| exists|y: usize| #[trigger] soft[k].has(y) && round_of[y as int] == r
}

/// System `k` runs in the first round after those of the systems it must follow and no
/// earlier than those of the systems it follows softly.
pub open spec fn rank_fits(hard: Seq<DedupedUniqueIds>, soft: Seq<DedupedUniqueIds>, round_of: Seq<usize>, k: int) -> bool {
    &&& forall|x: usize| #[trigger] hard[k].has(x) ==> round_of[x as int] < round_of[k]
    &&& forall|y: usize| #[trigger] soft[k].has(y) ==> round_of[y as int] <= round_of[k]
    &&& tight(hard, soft, round_of, k, round_of[k] as int)
}

/// The rounds of the `n` systems are the earliest their constraints allow.
pub open spec fn rounds_ranked(hard: Seq<DedupedUniqueIds>, soft: Seq<DedupedUniqueIds>, round_of: Seq<usize>, n: int) -> bool {
    &&& round_of.len() == n
    &&& forall|k: int| 0 <= k < n ==> #[trigger] rank_fits(hard, soft, round_of, k)
}

/// The system at position `p` of `order` opens a new batch: it starts a new round, or its
/// borrows clash with a system of the batch of the system before it.
pub open spec fn opens_batch_at(ss: Seq<ToBePlacedSystem>, order: Seq<usize>, bs: Seq<usize>, rs: Seq<usize>, p: int) -> bool {
    ||| rs[p] != rs[p - 1]
    ||| exists|q: int| 0 <= q < p && bs[q] == bs[p - 1]
            && #[trigger] borrows_conflict(ss[order[p] as int].borrow_constraints@, ss[order[q] as int].borrow_constraints@)
}

/// The first `h` systems of `order`, with batches `bs` and rounds `rs`, were packed in
/// order: the first in batch 0, each next one in the batch of the one before unless it
/// opens a new batch; rounds never go back.
pub open spec fn greedy_prefix(ss: Seq<ToBePlacedSystem>, order: Seq<usize>, bs: Seq<usize>, rs: Seq<usize>, h: int) -> bool {
    &&& h > 0 ==> bs[0] == 0
    &&& forall|p: int| #![trigger opens_batch_at(ss, order, bs, rs, p)] 0 < p < h ==> bs[p] == bs[p - 1] + (if opens_batch_at(ss, order, bs, rs, p) { 1int } else { 0int })
    &&& forall|p: int, q: int| 0 <= p < q < h ==> rs[p] <= rs[q]
}

/// The values of `f` taken in the order of `order`.
pub open spec fn along(order: Seq<usize>, f: Seq<usize>) -> Seq<usize> {
    Seq::new(order.len(), |p: int| f[order[p] as int])
}

/// System `a` is taken before system `b`: it was queued earlier, or at the same time with a
/// smaller position.
pub open spec fn comes_first(e: Seq<int>, a: int, b: int) -> bool {
    e[a] < e[b] || (e[a] == e[b] && a < b)
}

/// System `k`, queued once `e[k]` systems were taken, was queued as soon as it could be:
/// at the start, right after a system it waits on, or when a round of rank lower than
/// `rk` ended.
pub open spec fn queued_on_time(hard: Seq<DedupedUniqueIds>, soft: Seq<DedupedUniqueIds>, order: Seq<usize>, e: Seq<int>, round_of: Seq<usize>, k: int, rk: int) -> bool {
    ||| e[k] == 0
    ||| exists|x: usize| #[trigger] waits_on(hard, soft, k, x) && order[e[k] - 1] == x
    ||| round_of[order[e[k] - 1] as int] < rk
}

/// `order` takes the systems first come, first served: each system is queued, at `e`, once
/// the systems it waits on and those of earlier rounds are taken, and no later; systems
/// queued at the same time are taken by position.
pub open spec fn taken_in_order(hard: Seq<DedupedUniqueIds>, soft: Seq<DedupedUniqueIds>, order: Seq<usize>, round_of: Seq<usize>, e: Seq<int>) -> bool {
    let n = order.len() as int;
    &&& forall|p: int, r: int| #![trigger order[p], order[r]] 0 <= p < r < n ==> comes_first(e, order[p] as int, order[r] as int)
    &&& forall|p: int, x: usize| 0 <= p < n && #[trigger] waits_on(hard, soft, order[p] as int, x) ==>
            exists|r: int| 0 <= r < e[order[p] as int] && order[r] == x
    &&& forall|p: int| 0 <= p < n ==> 0 <= #[trigger] e[order[p] as int] <= p
    &&& forall|p: int, r: int| #![trigger order[p], order[r]] 0 <= p < n && e[order[p] as int] <= r < n ==>
            round_of[order[r] as int] >= round_of[order[p] as int]
    &&& forall|p: int| 0 <= p < n ==> #[trigger] queued_on_time(hard, soft, order, e, round_of, order[p] as int, round_of[order[p] as int] as int)
}

proof fn lemma_some_unqueued(queue: Seq<usize>, queued: Seq<bool>, n: int)
    requires
        queue_wf(queue, queued, n),
        queue.len() < n,
    ensures
        exists|k: int| 0 <= k < n && !queued[k],
{
    if forall|k: int| 0 <= k < n ==> queued[k] {
        let qi = queue.map_values(|x: usize| x as int);
        let range = vstd::set_lib::set_int_range(0, n);
        vstd::set_lib::lemma_int_range(0, n);
        assert forall|x: int| range.contains(x) implies qi.to_set().contains(x) by {
            assert(queued[x]);
            let p = choose|p: int| 0 <= p < queue.len() && queue[p] == x;
            assert(qi[p] == x);
        }
        vstd::set_lib::lemma_len_subset(range, qi.to_set());
        qi.lemma_cardinality_of_set();
        assert(false);
    }
}

/// Builds the information of a system being placed.
fn system_info(s: &ToBePlacedSystem, hard: &DedupedUniqueIds, conflict: &Option<Conflict>) -> (si: SystemInfo)
    ensures
        same_infos(si.borrow@, s.borrow_constraints@),
        si.name@ == s.display_name@,
        si.after@ == hard.0@,
        si.unique_id == s.index,
{
    let b = duplicate_type_infos(&s.borrow_constraints);
    let c = match conflict {
        Some(c) => Some(c.duplicate()),
        None => None,
    };
    SystemInfo {
        name: s.display_name.dyn_clone(),
        borrow: b,
        conflict: c,
        after: hard.duplicate().0,
        after_all: clone_labels(&s.after_all),
        before_all: clone_labels(&s.before_all),
        unique_id: s.index,
    }
}

/// State of the placement of the systems.
pub struct OrderState {
    pub queued: Vec<bool>,
    pub placed: Vec<bool>,
    pub round_of: Vec<usize>,
    pub batch_of: Vec<usize>,
    pub queue: Vec<usize>,
    pub head: usize,
    pub round: usize,
    pub infos: Vec<BatchInfo>,
    pub rsb: Ghost<usize>,
    pub msingle: Ghost<Option<usize>>,
    pub mlist: Ghost<Seq<usize>>,
    pub members: Ghost<Seq<(Option<usize>, Seq<usize>)>>,
    /// Batch of each placed system, in the order of placement.
    pub bseq: Ghost<Seq<usize>>,
    /// Round of each placed system, in the order of placement.
    pub rseq: Ghost<Seq<usize>>,
    /// For each queued system, how many systems were placed when it was queued.
    pub enq: Ghost<Seq<int>>,
}

impl OrderState {
    pub open spec fn inv_basic(&self, ss: Seq<ToBePlacedSystem>, hard: Seq<DedupedUniqueIds>, soft: Seq<DedupedUniqueIds>, conflicts: Seq<Option<Conflict>>, batches: Batches) -> bool {
        let n = ss.len();
        &&& n > 0
        &&& constraints_wf(hard, n as int)
        &&& constraints_wf(soft, n as int)
        &&& conflicts.len() == n
        &&& self.placed@.len() == n
        &&& self.round_of@.len() == n
        &&& self.batch_of@.len() == n
        &&& queue_wf(self.queue@, self.queued@, n as int)
        &&& self.head <= self.queue@.len()
        &&& self.round <= self.queue@.len()
        &&& self.infos@.len() >= 1
        &&& batches.parallel@.len() == self.infos@.len()
        &&& batches.parallel_run_if@.len() == self.infos@.len()
        &&& self.rsb@ < self.infos@.len()
    }

    #[verifier::opaque]
    pub open spec fn inv_placed(&self, n: int) -> bool {
        forall|k: int| 0 <= k < n ==> (self.placed@[k] <==> exists|p: int| 0 <= p < self.head && self.queue@[p] == k)
    }

    #[verifier::opaque]
    pub open spec fn inv_rounds(&self, n: int) -> bool {
        forall|y: int| 0 <= y < n && self.placed@[y] ==> self.round_of@[y] <= self.round && self.batch_of@[y] < self.infos@.len()
            && (self.round_of@[y] < self.round ==> self.batch_of@[y] < self.rsb@)
            && (self.round_of@[y] == self.round ==> self.batch_of@[y] >= self.rsb@)
    }

    #[verifier::opaque]
    pub open spec fn inv_monotone(&self) -> bool {
        forall|p: int, q: int| 0 <= p < q < self.head ==> self.batch_of@[self.queue@[p] as int] <= self.batch_of@[self.queue@[q] as int]
    }

    #[verifier::opaque]
    pub open spec fn inv_queued(&self, hard: Seq<DedupedUniqueIds>, soft: Seq<DedupedUniqueIds>) -> bool {
        forall|p: int| self.head <= p < self.queue@.len() ==> all_placed_before(hard[self.queue@[p] as int], self.placed@, self.round_of@, self.round)
            && all_placed(soft[self.queue@[p] as int], self.placed@)
    }

    #[verifier::opaque]
    pub open spec fn inv_done(&self, hard: Seq<DedupedUniqueIds>, soft: Seq<DedupedUniqueIds>) -> bool {
        &&& forall|p: int, x: usize| 0 <= p < self.head && #[trigger] hard[self.queue@[p] as int].has(x) ==>
                (exists|q: int| 0 <= q < p && self.queue@[q] == x) && self.batch_of@[x as int] < self.batch_of@[self.queue@[p] as int]
        &&& forall|p: int, x: usize| 0 <= p < self.head && #[trigger] soft[self.queue@[p] as int].has(x) ==>
                (exists|q: int| 0 <= q < p && self.queue@[q] == x)
    }

    #[verifier::opaque]
    pub open spec fn inv_no_conflict(&self, ss: Seq<ToBePlacedSystem>) -> bool {
        forall|x: int, y: int| 0 <= x < ss.len() && 0 <= y < ss.len() && x != y && self.placed@[x] && self.placed@[y]
            && self.batch_of@[x] == self.batch_of@[y] ==> !borrows_conflict(ss[x].borrow_constraints@, ss[y].borrow_constraints@)
    }

    #[verifier::opaque]
    pub open spec fn inv_parallel(&self, ss: Seq<ToBePlacedSystem>, batches: Batches) -> bool {
        &&& self.members@.len() == self.infos@.len()
        &&& self.members@.last() == (self.msingle@, self.mlist@)
        &&& forall|l: int| 0 <= l < self.infos@.len() ==>
                #[trigger] batch_ok(ss, self.placed@, self.batch_of@, batches, self.infos@[l], self.members@[l], l)
        &&& forall|l: int| 0 <= l < self.infos@.len() ==> #[trigger] members_in_order(self.queue@, self.members@[l].1)
    }

    #[verifier::opaque]
    pub open spec fn inv_pack(&self, ss: Seq<ToBePlacedSystem>) -> bool {
        let h = self.head as int;
        &&& self.bseq@.len() == h
        &&& self.rseq@.len() == h
        &&& forall|p: int| 0 <= p < h ==> #[trigger] self.bseq@[p] == self.batch_of@[self.queue@[p] as int]
                && self.rseq@[p] == self.round_of@[self.queue@[p] as int]
        &&& greedy_prefix(ss, self.queue@, self.bseq@, self.rseq@, h)
        &&& (h == 0 ==> self.infos@.len() == 1 && self.round == 0)
        &&& (h > 0 ==> self.bseq@[h - 1] + (if self.rseq@[h - 1] < self.round { 1int } else { 0int }) == self.infos@.len() - 1)
        &&& (h > 0 ==> self.rseq@[h - 1] <= self.round)
        &&& (h > 0 && self.rseq@[h - 1] < self.round ==> self.rsb@ == self.infos@.len() - 1 && h < self.queue@.len())
    }

    #[verifier::opaque]
    pub open spec fn inv_rank(&self, hard: Seq<DedupedUniqueIds>, soft: Seq<DedupedUniqueIds>, n: int) -> bool {
        &&& forall|p: int| 0 <= p < self.head ==> #[trigger] rank_fits(hard, soft, self.round_of@, self.queue@[p] as int)
        &&& forall|p: int| self.head <= p < self.queue@.len() ==> #[trigger] tight(hard, soft, self.round_of@, self.queue@[p] as int, self.round as int)
        &&& forall|k: int| 0 <= k < n && !self.queued@[k] ==> !#[trigger] ready(hard, soft, k, self.placed@, self.round_of@, true, self.round)
    }

    /// The round system `k` runs in: its own once placed, the current one before.
    pub open spec fn round_at(&self, k: int) -> int {
        if self.placed@[k] { self.round_of@[k] as int } else { self.round as int }
    }

    #[verifier::opaque]
    pub open spec fn inv_fifo(&self, hard: Seq<DedupedUniqueIds>, soft: Seq<DedupedUniqueIds>) -> bool {
        let q = self.queue@;
        let e = self.enq@;
        &&& e.len() == self.queued@.len()
        &&& forall|p: int, r: int| #![trigger q[p], q[r]] 0 <= p < r < q.len() ==> comes_first(e, q[p] as int, q[r] as int)
        &&& forall|p: int, x: usize| 0 <= p < q.len() && #[trigger] waits_on(hard, soft, q[p] as int, x) ==>
                exists|r: int| 0 <= r < e[q[p] as int] && q[r] == x
        &&& forall|p: int| 0 <= p < q.len() ==> 0 <= #[trigger] e[q[p] as int] <= p && e[q[p] as int] <= self.head
        &&& forall|p: int, r: int| #![trigger q[p], q[r]] 0 <= p < q.len() && e[q[p] as int] <= r < self.head ==>
                self.round_of@[q[r] as int] >= self.round_at(q[p] as int)
        &&& forall|p: int| 0 <= p < q.len() ==> #[trigger] queued_on_time(hard, soft, q, e, self.round_of@, q[p] as int, self.round_at(q[p] as int))
    }

    pub open spec fn inv(
        &self,
        ss: Seq<ToBePlacedSystem>,
        hard: Seq<DedupedUniqueIds>,
        soft: Seq<DedupedUniqueIds>,
        conflicts: Seq<Option<Conflict>>,
        batches: Batches,
    ) -> bool {
        &&& self.inv_basic(ss, hard, soft, conflicts, batches)
        &&& self.inv_placed(ss.len() as int)
        &&& self.inv_rounds(ss.len() as int)
        &&& self.inv_monotone()
        &&& self.inv_queued(hard, soft)
        &&& self.inv_done(hard, soft)
        &&& self.inv_no_conflict(ss)
        &&& last_batch_ok(ss, self.infos@[self.infos@.len() - 1], self.placed@, self.batch_of@, (self.infos@.len() - 1) as usize, self.msingle@, self.mlist@)
        &&& sequential_ok(ss, self.queue@.subrange(0, self.head as int), batches)
        &&& self.inv_parallel(ss, batches)
    }
}

/// `t` is `o` after placing system `s` in batch `l`.
pub open spec fn placed_step(o: OrderState, t: OrderState, s: usize, l: usize, n: int) -> bool {
    &&& o.head < o.queue@.len()
    &&& o.queue@[o.head as int] == s
    &&& s < n
    &&& t.head == o.head + 1
    &&& t.queue@.len() >= o.queue@.len()
    &&& forall|p: int| 0 <= p < o.queue@.len() ==> #[trigger] t.queue@[p] == o.queue@[p]
    &&& t.placed@ == o.placed@.update(s as int, true)
    &&& t.round_of@ == o.round_of@.update(s as int, o.round)
    &&& t.batch_of@ == o.batch_of@.update(s as int, l)
    &&& t.round == o.round
    &&& t.rsb@ == o.rsb@
    &&& (l == o.infos@.len() - 1 || l == o.infos@.len())
    &&& t.infos@.len() == l + 1
}

proof fn lemma_place_placed(o: OrderState, t: OrderState, s: usize, l: usize, n: int)
    requires
        placed_step(o, t, s, l, n),
        o.inv_placed(n),
        o.placed@.len() == n,
    ensures
        t.inv_placed(n),
{
    reveal(OrderState::inv_placed);
    assert forall|k: int| 0 <= k < n implies (t.placed@[k] <==> exists|p: int| 0 <= p < t.head && t.queue@[p] == k) by {
        if k == s {
            assert(t.queue@[o.head as int] == s);
        } else {
            assert(t.placed@[k] == o.placed@[k]);
            if o.placed@[k] {
                let p = choose|p: int| 0 <= p < o.head && o.queue@[p] == k;
                assert(t.queue@[p] == k);
            }
            if exists|p: int| 0 <= p < t.head && t.queue@[p] == k {
                let p = choose|p: int| 0 <= p < t.head && t.queue@[p] == k;
                assert(p != o.head);
                assert(o.queue@[p] == k);
            }
        }
    }
}

proof fn lemma_place_rounds(o: OrderState, t: OrderState, s: usize, l: usize, n: int)
    requires
        placed_step(o, t, s, l, n),
        o.inv_rounds(n),
        o.rsb@ < o.infos@.len(),
        o.placed@.len() == n,
        o.round_of@.len() == n,
        o.batch_of@.len() == n,
    ensures
        t.inv_rounds(n),
{
    reveal(OrderState::inv_rounds);
    assert forall|y: int| 0 <= y < n && t.placed@[y] implies t.round_of@[y] <= t.round && t.batch_of@[y] < t.infos@.len()
        && (t.round_of@[y] < t.round ==> t.batch_of@[y] < t.rsb@)
        && (t.round_of@[y] == t.round ==> t.batch_of@[y] >= t.rsb@) by {
        if y != s {
            assert(o.placed@[y]);
        }
    }
}

proof fn lemma_place_monotone(o: OrderState, t: OrderState, s: usize, l: usize, n: int)
    requires
        placed_step(o, t, s, l, n),
        o.inv_monotone(),
        o.inv_placed(n),
        o.inv_rounds(n),
        queue_wf(o.queue@, o.queued@, n),
        o.placed@.len() == n,
        o.batch_of@.len() == n,
    ensures
        t.inv_monotone(),
{
    reveal(OrderState::inv_monotone);
    reveal(OrderState::inv_placed);
    reveal(OrderState::inv_rounds);
    assert(!o.placed@[s as int]) by {
        if o.placed@[s as int] {
            let p = choose|p: int| 0 <= p < o.head && o.queue@[p] == s;
            assert(o.queue@[p] == o.queue@[o.head as int]);
        }
    }
    assert forall|p: int, q: int| 0 <= p < q < t.head implies t.batch_of@[t.queue@[p] as int] <= t.batch_of@[t.queue@[q] as int] by {
        let y = o.queue@[p] as int;
        assert(t.queue@[p] == o.queue@[p]);
        assert(o.placed@[y]);
        assert(y != s);
        if q == o.head {
            assert(t.queue@[q] == s);
        } else {
            assert(t.queue@[q] == o.queue@[q]);
            let z = o.queue@[q] as int;
            assert(o.placed@[z]);
            assert(z != s);
        }
    }
}

proof fn lemma_place_queued(
    o: OrderState,
    t: OrderState,
    s: usize,
    l: usize,
    n: int,
    hard: Seq<DedupedUniqueIds>,
    soft: Seq<DedupedUniqueIds>,
)
    requires
        placed_step(o, t, s, l, n),
        o.inv_queued(hard, soft),
        o.inv_placed(n),
        queue_wf(o.queue@, o.queued@, n),
        o.placed@.len() == n,
        o.round_of@.len() == n,
        forall|p: int| o.queue@.len() <= p < t.queue@.len() ==>
            ready(hard, soft, t.queue@[p] as int, t.placed@, t.round_of@, true, t.round),
    ensures
        t.inv_queued(hard, soft),
{
    reveal(OrderState::inv_queued);
    reveal(OrderState::inv_placed);
    assert(!o.placed@[s as int]) by {
        if o.placed@[s as int] {
            let p = choose|p: int| 0 <= p < o.head && o.queue@[p] == s;
            assert(o.queue@[p] == o.queue@[o.head as int]);
        }
    }
    assert forall|p: int| t.head <= p < t.queue@.len() implies all_placed_before(hard[t.queue@[p] as int], t.placed@, t.round_of@, t.round)
        && all_placed(soft[t.queue@[p] as int], t.placed@) by {
        if p < o.queue@.len() {
            let k = o.queue@[p] as int;
            assert(t.queue@[p] == o.queue@[p]);
            assert(all_placed_before(hard[k], o.placed@, o.round_of@, o.round));
            assert(all_placed(soft[k], o.placed@));
            assert forall|x: usize| #[trigger] hard[k].has(x) implies x < t.placed@.len() && t.placed@[x as int] && t.round_of@[x as int] < t.round by {
                assert(o.placed@[x as int]);
                if x == s {
                    assert(false);
                }
            }
            assert forall|x: usize| #[trigger] soft[k].has(x) implies x < t.placed@.len() && t.placed@[x as int] by {
                assert(o.placed@[x as int]);
            }
        } else {
            assert(ready(hard, soft, t.queue@[p] as int, t.placed@, t.round_of@, true, t.round));
        }
    }
}

proof fn lemma_place_done(
    o: OrderState,
    t: OrderState,
    s: usize,
    l: usize,
    n: int,
    hard: Seq<DedupedUniqueIds>,
    soft: Seq<DedupedUniqueIds>,
)
    requires
        placed_step(o, t, s, l, n),
        o.inv_done(hard, soft),
        o.inv_queued(hard, soft),
        o.inv_placed(n),
        o.inv_rounds(n),
        queue_wf(o.queue@, o.queued@, n),
        o.rsb@ < o.infos@.len(),
        o.placed@.len() == n,
        o.round_of@.len() == n,
        o.batch_of@.len() == n,
        constraints_wf(hard, n),
        constraints_wf(soft, n),
    ensures
        t.inv_done(hard, soft),
{
    reveal(OrderState::inv_done);
    reveal(OrderState::inv_queued);
    reveal(OrderState::inv_placed);
    reveal(OrderState::inv_rounds);
    assert(!o.placed@[s as int]) by {
        if o.placed@[s as int] {
            let p = choose|p: int| 0 <= p < o.head && o.queue@[p] == s;
            assert(o.queue@[p] == o.queue@[o.head as int]);
        }
    }
    assert forall|p: int, x: usize| 0 <= p < t.head && #[trigger] hard[t.queue@[p] as int].has(x) implies
        (exists|q: int| 0 <= q < p && t.queue@[q] == x) && t.batch_of@[x as int] < t.batch_of@[t.queue@[p] as int] by {
        if p < o.head {
            assert(t.queue@[p] == o.queue@[p]);
            assert(hard[o.queue@[p] as int].has(x));
            let q = choose|q: int| 0 <= q < p && o.queue@[q] == x;
            assert(t.queue@[q] == x);
            let y = o.queue@[p] as int;
            assert(o.placed@[y]);
            assert(o.placed@[x as int]);
        } else {
            assert(t.queue@[p] == s);
            assert(all_placed_before(hard[s as int], o.placed@, o.round_of@, o.round));
            assert(o.placed@[x as int]);
            let q = choose|q: int| 0 <= q < o.head && o.queue@[q] == x;
            assert(t.queue@[q] == x);
            assert(x != s);
        }
    }
    assert forall|p: int, x: usize| 0 <= p < t.head && #[trigger] soft[t.queue@[p] as int].has(x) implies
        (exists|q: int| 0 <= q < p && t.queue@[q] == x) by {
        if p < o.head {
            assert(t.queue@[p] == o.queue@[p]);
            assert(soft[o.queue@[p] as int].has(x));
            let q = choose|q: int| 0 <= q < p && o.queue@[q] == x;
            assert(t.queue@[q] == x);
        } else {
            assert(t.queue@[p] == s);
            assert(all_placed(soft[s as int], o.placed@));
            assert(o.placed@[x as int]);
            let q = choose|q: int| 0 <= q < o.head && o.queue@[q] == x;
            assert(t.queue@[q] == x);
        }
    }
}

proof fn lemma_place_batch(
    o: OrderState,
    t: OrderState,
    s: usize,
    l: usize,
    n: int,
    ss: Seq<ToBePlacedSystem>,
    single: bool,
    si: SystemInfo,
    prev_single: Option<SystemInfo>,
    prev_list: Seq<SystemInfo>,
    pm_single: Option<usize>,
    pm_list: Seq<usize>,
)
    requires
        placed_step(o, t, s, l, n),
        ss.len() == n,
        o.inv_no_conflict(ss),
        o.inv_rounds(n),
        o.inv_placed(n),
        queue_wf(o.queue@, o.queued@, n),
        o.placed@.len() == n,
        o.batch_of@.len() == n,
        o.infos@.len() >= 1,
        last_batch_ok(ss, o.infos@[o.infos@.len() - 1], o.placed@, o.batch_of@, (o.infos@.len() - 1) as usize, o.msingle@, o.mlist@),
        l == o.infos@.len() - 1 ==> {
            &&& (o.infos@[l as int].systems.0 matches Some(m) ==> !borrows_conflict(ss[s as int].borrow_constraints@, m.borrow@))
            &&& forall|i: int| 0 <= i < o.infos@[l as int].systems.1@.len() ==>
                !borrows_conflict(ss[s as int].borrow_constraints@, (#[trigger] o.infos@[l as int].systems.1@[i]).borrow@)
        },
        single == is_single(ss[s as int].borrow_constraints@),
        same_infos(si.borrow@, ss[s as int].borrow_constraints@),
        l == o.infos@.len() - 1 ==> prev_single == o.infos@[l as int].systems.0 && prev_list == o.infos@[l as int].systems.1@
            && pm_single == o.msingle@ && pm_list == o.mlist@,
        l == o.infos@.len() ==> prev_single is None && prev_list.len() == 0 && pm_single is None && pm_list.len() == 0,
        single ==> t.infos@[l as int].systems.0 == Some(si) && t.infos@[l as int].systems.1@ == prev_list
            && t.msingle@ == Some(s) && t.mlist@ == pm_list,
        !single ==> t.infos@[l as int].systems.0 == prev_single && t.infos@[l as int].systems.1@ == prev_list.push(si)
            && t.msingle@ == pm_single && t.mlist@ == pm_list.push(s),
    ensures
        t.inv_no_conflict(ss),
        last_batch_ok(ss, t.infos@[t.infos@.len() - 1], t.placed@, t.batch_of@, (t.infos@.len() - 1) as usize, t.msingle@, t.mlist@),
        single && l == o.infos@.len() - 1 ==> o.msingle@ is None,
{
    reveal(OrderState::inv_no_conflict);
    reveal(OrderState::inv_rounds);
    reveal(OrderState::inv_placed);
    reveal(last_batch_ok);
    assert(!o.placed@[s as int]) by {
        if o.placed@[s as int] {
            let p = choose|p: int| 0 <= p < o.head && o.queue@[p] == s;
            assert(o.queue@[p] == o.queue@[o.head as int]);
        }
    }
    // Every system already in batch `l` is compatible with `s`.
    assert forall|y: int| 0 <= y < n && o.placed@[y] && o.batch_of@[y] == l implies
        !borrows_conflict(ss[s as int].borrow_constraints@, ss[y].borrow_constraints@) by {
        assert(o.batch_of@[y] < o.infos@.len());
        assert(l == o.infos@.len() - 1);
        let info = o.infos@[l as int];
        if o.msingle@ == Some(y as usize) {
            lemma_same_infos_conflict(ss[s as int].borrow_constraints@, info.systems.0->0.borrow@, ss[y].borrow_constraints@);
        } else {
            let i = choose|i: int| 0 <= i < o.mlist@.len() && o.mlist@[i] == y;
            assert(same_infos(info.systems.1@[i].borrow@, ss[y].borrow_constraints@));
            lemma_same_infos_conflict(ss[s as int].borrow_constraints@, info.systems.1@[i].borrow@, ss[y].borrow_constraints@);
        }
    }
    assert forall|x: int, y: int| 0 <= x < n && 0 <= y < n && x != y && t.placed@[x] && t.placed@[y]
        && t.batch_of@[x] == t.batch_of@[y] implies !borrows_conflict(ss[x].borrow_constraints@, ss[y].borrow_constraints@) by {
        if x == s {
            assert(o.placed@[y]);
        } else if y == s {
            assert(o.placed@[x]);
            assert(!borrows_conflict(ss[s as int].borrow_constraints@, ss[x].borrow_constraints@));
            if borrows_conflict(ss[x].borrow_constraints@, ss[y].borrow_constraints@) {
                lemma_conflict_symmetric(ss[x].borrow_constraints@, ss[y].borrow_constraints@);
            }
        } else {
            assert(o.placed@[x] && o.placed@[y]);
        }
    }
    if single && l == o.infos@.len() - 1 && o.msingle@ is Some {
        let m = o.msingle@->0;
        lemma_singles_conflict(ss[s as int].borrow_constraints@, ss[m as int].borrow_constraints@);
        lemma_same_infos_conflict(ss[s as int].borrow_constraints@, o.infos@[l as int].systems.0->0.borrow@, ss[m as int].borrow_constraints@);
        assert(false);
    }
    let info = t.infos@[l as int];
    assert forall|y: int| 0 <= y < n && t.placed@[y] && t.batch_of@[y] == l implies
        (t.msingle@ == Some(y as usize) || exists|i: int| 0 <= i < t.mlist@.len() && t.mlist@[i] == y) by {
        if y == s {
            if !single {
                assert(t.mlist@[t.mlist@.len() - 1] == s);
            }
        } else {
            assert(o.placed@[y]);
            assert(o.batch_of@[y] < o.infos@.len());
            assert(l == o.infos@.len() - 1);
            if o.msingle@ == Some(y as usize) {
            } else {
                let i = choose|i: int| 0 <= i < o.mlist@.len() && o.mlist@[i] == y;
                assert(t.mlist@[i] == y);
            }
        }
    }
    assert forall|i: int| 0 <= i < t.mlist@.len() implies (#[trigger] t.mlist@[i]) < ss.len() && t.placed@[t.mlist@[i] as int]
        && t.batch_of@[t.mlist@[i] as int] == l
        && same_infos(info.systems.1@[i].borrow@, ss[t.mlist@[i] as int].borrow_constraints@) by {
        if l == o.infos@.len() - 1 && i < o.mlist@.len() {
            assert(t.mlist@[i] == o.mlist@[i]);
            assert(o.mlist@[i] != s);
        }
    }
}

/// Placing system `s` in batch `l` adds it to that batch and leaves the others as they were.
#[verifier::rlimit(60)]
proof fn lemma_place_parallel(
    o: OrderState,
    t: OrderState,
    s: usize,
    l: usize,
    n: int,
    ss: Seq<ToBePlacedSystem>,
    ob: Batches,
    b: Batches,
    single: bool,
    si: SystemInfo,
    ri: usize,
    prev_single: Option<SystemInfo>,
    prev_list: Seq<SystemInfo>,
    pm_single: Option<usize>,
    pm_list: Seq<usize>,
    pp_single: Option<usize>,
    pp_list: Seq<usize>,
    pr_single: usize,
    pr_list: Seq<usize>,
)
    requires
        placed_step(o, t, s, l, n),
        ss.len() == n,
        o.inv_parallel(ss, ob),
        o.inv_rounds(n),
        o.inv_placed(n),
        queue_wf(o.queue@, o.queued@, n),
        o.placed@.len() == n,
        o.batch_of@.len() == n,
        o.infos@.len() >= 1,
        ob.parallel@.len() == o.infos@.len(),
        ob.parallel_run_if@.len() == o.infos@.len(),
        b.parallel@.len() == l + 1,
        b.parallel_run_if@.len() == l + 1,
        t.members@.len() == l + 1,
        t.members@[l as int] == (t.msingle@, t.mlist@),
        forall|l2: int| 0 <= l2 < l ==> t.infos@[l2] == o.infos@[l2] && b.parallel@[l2] == ob.parallel@[l2]
            && b.parallel_run_if@[l2] == ob.parallel_run_if@[l2] && #[trigger] t.members@[l2] == o.members@[l2],
        b.systems_run_if@.len() >= ob.systems_run_if@.len(),
        forall|p: int| 0 <= p < ob.systems_run_if@.len() ==> b.systems_run_if@[p] == ob.systems_run_if@[p],
        run_if_at(ss[s as int], b, ri),
        single == is_single(ss[s as int].borrow_constraints@),
        member_info(si, ss[s as int]),
        single && l == o.infos@.len() - 1 ==> o.msingle@ is None,
        l == o.infos@.len() - 1 ==> prev_single == o.infos@[l as int].systems.0 && prev_list == o.infos@[l as int].systems.1@
            && pm_single == o.msingle@ && pm_list == o.mlist@
            && pp_single == ob.parallel@[l as int].0 && pp_list == ob.parallel@[l as int].1@
            && pr_single == ob.parallel_run_if@[l as int].0 && pr_list == ob.parallel_run_if@[l as int].1@,
        l == o.infos@.len() ==> prev_single is None && prev_list.len() == 0 && pm_single is None && pm_list.len() == 0
            && pp_single is None && pp_list.len() == 0 && pr_list.len() == 0,
        single ==> t.infos@[l as int].systems.0 == Some(si) && t.infos@[l as int].systems.1@ == prev_list
            && t.msingle@ == Some(s) && t.mlist@ == pm_list
            && b.parallel@[l as int].0 == Some(ss[s as int].index) && b.parallel@[l as int].1@ == pp_list
            && b.parallel_run_if@[l as int].0 == ri && b.parallel_run_if@[l as int].1@ == pr_list,
        !single ==> t.infos@[l as int].systems.0 == prev_single && t.infos@[l as int].systems.1@ == prev_list.push(si)
            && t.msingle@ == pm_single && t.mlist@ == pm_list.push(s)
            && b.parallel@[l as int].0 == pp_single && b.parallel@[l as int].1@ == pp_list.push(ss[s as int].index)
            && b.parallel_run_if@[l as int].0 == pr_single && b.parallel_run_if@[l as int].1@ == pr_list.push(ri),
    ensures
        t.inv_parallel(ss, b),
{
    reveal(OrderState::inv_parallel);
    reveal(OrderState::inv_rounds);
    reveal(OrderState::inv_placed);
    assert(!o.placed@[s as int]) by {
        if o.placed@[s as int] {
            let p = choose|p: int| 0 <= p < o.head && o.queue@[p] == s;
            assert(o.queue@[p] == o.queue@[o.head as int]);
        }
    }
    assert forall|r: int| 0 <= r < ob.systems_run_if@.len() implies #[trigger] b.systems_run_if@[r] == ob.systems_run_if@[r] by {}
    assert forall|l2: int| 0 <= l2 < t.infos@.len() implies
        #[trigger] batch_ok(ss, t.placed@, t.batch_of@, b, t.infos@[l2], t.members@[l2], l2) by {
        if l2 < l {
            assert(t.members@[l2] == o.members@[l2]);
            assert(batch_ok(ss, o.placed@, o.batch_of@, ob, o.infos@[l2], o.members@[l2], l2));
            let mem = o.members@[l2];
            assert forall|y: int| 0 <= y < ss.len() && t.placed@[y] && t.batch_of@[y] == l2 implies
                (mem.0 == Some(y as usize) || exists|j: int| 0 <= j < mem.1.len() && mem.1[j] == y) by {
                assert(y != s);
                assert(o.placed@[y] && o.batch_of@[y] == l2);
            }
            assert forall|j: int| 0 <= j < mem.1.len() implies (#[trigger] mem.1[j]) < ss.len() && t.placed@[mem.1[j] as int]
                && t.batch_of@[mem.1[j] as int] == l2 && !is_single(ss[mem.1[j] as int].borrow_constraints@)
                && b.parallel@[l2].1@[j] == ss[mem.1[j] as int].index && run_if_at(ss[mem.1[j] as int], b, b.parallel_run_if@[l2].1@[j])
                && member_info(t.infos@[l2].systems.1@[j], ss[mem.1[j] as int]) by {
                assert(o.placed@[mem.1[j] as int]);
            }
        } else {
            assert(l2 == l);
            let mem = t.members@[l2];
            if l == o.infos@.len() - 1 {
                assert(batch_ok(ss, o.placed@, o.batch_of@, ob, o.infos@[l2], o.members@[l2], l2));
                assert(o.members@[l2] == (o.msingle@, o.mlist@));
            }
            assert forall|y: int| 0 <= y < ss.len() && t.placed@[y] && t.batch_of@[y] == l2 implies
                (mem.0 == Some(y as usize) || exists|j: int| 0 <= j < mem.1.len() && mem.1[j] == y) by {
                if y == s {
                    if !single {
                        assert(mem.1[mem.1.len() - 1] == s);
                    }
                } else {
                    assert(o.placed@[y] && o.batch_of@[y] == l2);
                    assert(l == o.infos@.len() - 1);
                    if pm_single == Some(y as usize) {
                    } else {
                        let j = choose|j: int| 0 <= j < pm_list.len() && pm_list[j] == y;
                        assert(mem.1[j] == y);
                    }
                }
            }
            assert forall|j: int| 0 <= j < mem.1.len() implies (#[trigger] mem.1[j]) < ss.len() && t.placed@[mem.1[j] as int]
                && t.batch_of@[mem.1[j] as int] == l2 && !is_single(ss[mem.1[j] as int].borrow_constraints@)
                && b.parallel@[l2].1@[j] == ss[mem.1[j] as int].index && run_if_at(ss[mem.1[j] as int], b, b.parallel_run_if@[l2].1@[j])
                && member_info(t.infos@[l2].systems.1@[j], ss[mem.1[j] as int]) by {
                if j < pm_list.len() {
                    assert(mem.1[j] == pm_list[j]);
                    assert(o.placed@[pm_list[j] as int]);
                }
            }
            if let Some(m) = mem.0 {
                if m != s {
                    assert(o.placed@[m as int]);
                }
            }
        }
    }
    assert forall|l2: int| 0 <= l2 < t.infos@.len() implies #[trigger] members_in_order(t.queue@, t.members@[l2].1) by {
        let ml = t.members@[l2].1;
        assert forall|j1: int, j2: int| 0 <= j1 < j2 < ml.len() implies #[trigger] precedes(t.queue@, ml[j1], ml[j2]) by {
            if l2 < l || (l2 == l && j2 < pm_list.len()) {
                let om = if l2 < l { o.members@[l2].1 } else { pm_list };
                if l2 == l {
                    assert(l == o.infos@.len() - 1);
                    assert(o.members@[l2] == (o.msingle@, o.mlist@));
                    assert(ml[j1] == pm_list[j1] && ml[j2] == pm_list[j2]);
                }
                assert(members_in_order(o.queue@, om));
                assert(precedes(o.queue@, om[j1], om[j2]));
                let (p, q) = choose|p: int, q: int| 0 <= p < q < o.queue@.len() && o.queue@[p] == om[j1] && o.queue@[q] == om[j2];
                assert(t.queue@[p] == o.queue@[p] && t.queue@[q] == o.queue@[q]);
            } else {
                assert(!single);
                assert(ml[j2] == s);
                assert(ml[j1] == pm_list[j1]);
                let y = pm_list[j1];
                if l == o.infos@.len() - 1 {
                    assert(batch_ok(ss, o.placed@, o.batch_of@, ob, o.infos@[l as int], o.members@[l as int], l as int));
                    assert(o.members@[l as int] == (o.msingle@, o.mlist@));
                }
                assert(o.placed@[y as int]);
                let p = choose|p: int| 0 <= p < o.head && o.queue@[p] == y;
                assert(t.queue@[p] == y && t.queue@[o.head as int] == s);
            }
        }
    }
}

/// Placing system `s` in batch `l` extends the packing: `l` is the latest batch unless `s`
/// clashes with it or starts a round.
#[verifier::rlimit(100)]
#[verifier::spinoff_prover]
proof fn lemma_place_pack(o: OrderState, t: OrderState, s: usize, l: usize, n: int, ss: Seq<ToBePlacedSystem>, clash: bool)
    requires
        placed_step(o, t, s, l, n),
        ss.len() == n,
        o.inv_pack(ss),
        o.inv_rounds(n),
        o.inv_placed(n),
        queue_wf(o.queue@, o.queued@, n),
        o.placed@.len() == n,
        o.batch_of@.len() == n,
        o.round_of@.len() == n,
        o.infos@.len() >= 1,
        clash == exists|y: int| 0 <= y < n && o.placed@[y] && o.batch_of@[y] == o.infos@.len() - 1
            && #[trigger] borrows_conflict(ss[s as int].borrow_constraints@, ss[y].borrow_constraints@),
        l == (if clash { o.infos@.len() as int } else { o.infos@.len() - 1 }),
        t.bseq@ == o.bseq@.push(l),
        t.rseq@ == o.rseq@.push(o.round),
    ensures
        t.inv_pack(ss),
{
    reveal(OrderState::inv_pack);
    let h = o.head as int;
    assert(!o.placed@[s as int]) by {
        reveal(OrderState::inv_placed);
        if o.placed@[s as int] {
            let p = choose|p: int| 0 <= p < o.head && o.queue@[p] == s;
            assert(o.queue@[p] == o.queue@[o.head as int]);
        }
    }
    assert forall|y: int| 0 <= y < n implies (#[trigger] o.placed@[y] <==> exists|p: int| 0 <= p < h && o.queue@[p] == y) by {
        reveal(OrderState::inv_placed);
    }
    assert forall|y: int| 0 <= y < n && #[trigger] o.placed@[y] && o.round_of@[y] < o.round implies o.batch_of@[y] < o.rsb@ by {
        reveal(OrderState::inv_rounds);
    }
    assert forall|p: int| 0 <= p < h implies #[trigger] o.bseq@[p] == o.batch_of@[o.queue@[p] as int]
        && o.rseq@[p] == o.round_of@[o.queue@[p] as int] && o.queue@[p] < n by {}
    lemma_pack_last(ss, o.queue@, o.bseq@, o.rseq@, h, n, o.round, o.infos@.len() as int, o.rsb@ as int,
        o.placed@, o.batch_of@, o.round_of@, s, clash, l);
    assert forall|p: int| 0 <= p < h + 1 implies #[trigger] t.bseq@[p] == t.batch_of@[t.queue@[p] as int]
        && t.rseq@[p] == t.round_of@[t.queue@[p] as int] by {
        assert(t.queue@[p] == o.queue@[p]);
        if p < h {
            assert(o.queue@[p] != o.queue@[h]);
            assert(t.bseq@[p] == o.bseq@[p] && t.rseq@[p] == o.rseq@[p]);
            assert(o.bseq@[p] == o.batch_of@[o.queue@[p] as int] && o.rseq@[p] == o.round_of@[o.queue@[p] as int]);
            assert(t.batch_of@[o.queue@[p] as int] == o.batch_of@[o.queue@[p] as int]);
            assert(t.round_of@[o.queue@[p] as int] == o.round_of@[o.queue@[p] as int]);
        } else {
            assert(t.queue@[p] == s);
            assert(t.bseq@[p] == l);
            assert(t.batch_of@[s as int] == l);
            assert(t.round_of@[s as int] == o.round);
        }
    }
    lemma_greedy_extend(ss, o.queue@, o.bseq@, o.rseq@, t.queue@, t.bseq@, t.rseq@, h);
}

/// The batch chosen for the system at position `h` follows the packing rule.
#[verifier::rlimit(60)]
proof fn lemma_pack_last(
    ss: Seq<ToBePlacedSystem>,
    q: Seq<usize>,
    bs: Seq<usize>,
    rs: Seq<usize>,
    h: int,
    n: int,
    round: usize,
    nb: int,
    rsb: int,
    placed: Seq<bool>,
    batch_of: Seq<usize>,
    round_of: Seq<usize>,
    s: usize,
    clash: bool,
    l: usize,
)
    requires
        0 <= h < q.len(),
        q[h] == s,
        bs.len() == h,
        rs.len() == h,
        placed.len() == n,
        batch_of.len() == n,
        round_of.len() == n,
        forall|p: int| 0 <= p < h ==> #[trigger] bs[p] == batch_of[q[p] as int] && rs[p] == round_of[q[p] as int] && q[p] < n,
        forall|p1: int, p2: int| 0 <= p1 < p2 < h ==> rs[p1] <= rs[p2],
        h == 0 ==> nb == 1,
        h > 0 ==> bs[h - 1] + (if rs[h - 1] < round { 1int } else { 0int }) == nb - 1,
        h > 0 ==> rs[h - 1] <= round,
        h > 0 && rs[h - 1] < round ==> rsb == nb - 1,
        forall|y: int| 0 <= y < n ==> (#[trigger] placed[y] <==> exists|p: int| 0 <= p < h && q[p] == y),
        forall|y: int| 0 <= y < n && #[trigger] placed[y] && round_of[y] < round ==> batch_of[y] < rsb,
        clash == exists|y: int| 0 <= y < n && placed[y] && batch_of[y] == nb - 1
            && #[trigger] borrows_conflict(ss[s as int].borrow_constraints@, ss[y].borrow_constraints@),
        l == (if clash { nb } else { nb - 1 }),
    ensures
        h == 0 ==> l == 0,
        h > 0 ==> l == bs[h - 1] + (if opens_batch_at(ss, q, bs.push(l), rs.push(round), h) { 1int } else { 0int }),
{
    let bs1 = bs.push(l);
    let rs1 = rs.push(round);
    if h > 0 {
        if rs[h - 1] < round {
            if clash {
                let y = choose|y: int| 0 <= y < n && placed[y] && batch_of[y] == nb - 1
                    && #[trigger] borrows_conflict(ss[s as int].borrow_constraints@, ss[y].borrow_constraints@);
                let p = choose|p: int| 0 <= p < h && q[p] == y;
                assert(bs[p] == batch_of[q[p] as int]);
                if p < h - 1 {
                    assert(rs[p] <= rs[h - 1]);
                }
                assert(false);
            }
            assert(rs1[h] != rs1[h - 1]);
        } else {
            if clash {
                let y = choose|y: int| 0 <= y < n && placed[y] && batch_of[y] == nb - 1
                    && #[trigger] borrows_conflict(ss[s as int].borrow_constraints@, ss[y].borrow_constraints@);
                let p = choose|p: int| 0 <= p < h && q[p] == y;
                assert(bs[p] == batch_of[q[p] as int]);
                assert(bs1[p] == bs1[h - 1]);
                assert(borrows_conflict(ss[q[h] as int].borrow_constraints@, ss[q[p] as int].borrow_constraints@));
            } else {
                if opens_batch_at(ss, q, bs1, rs1, h) {
                    let p = choose|p: int| 0 <= p < h && bs1[p] == bs1[h - 1]
                        && #[trigger] borrows_conflict(ss[q[h] as int].borrow_constraints@, ss[q[p] as int].borrow_constraints@);
                    let y = q[p] as int;
                    assert(bs[p] == batch_of[y]);
                    assert(placed[y]);
                    assert(false);
                }
            }
        }
    } else {
        if clash {
            let y = choose|y: int| 0 <= y < n && placed[y] && batch_of[y] == nb - 1
                && #[trigger] borrows_conflict(ss[s as int].borrow_constraints@, ss[y].borrow_constraints@);
            assert(false);
        }
    }
}

/// A packed prefix stays packed when one more system is added according to the rule.
proof fn lemma_greedy_extend(
    ss: Seq<ToBePlacedSystem>,
    q0: Seq<usize>,
    bs0: Seq<usize>,
    rs0: Seq<usize>,
    q1: Seq<usize>,
    bs1: Seq<usize>,
    rs1: Seq<usize>,
    h: int,
)
    requires
        h >= 0,
        greedy_prefix(ss, q0, bs0, rs0, h),
        bs0.len() == h,
        rs0.len() == h,
        bs1.len() == h + 1,
        rs1.len() == h + 1,
        q1.len() > h,
        q0.len() >= h,
        forall|p: int| 0 <= p < h ==> bs1[p] == bs0[p] && rs1[p] == rs0[p] && q1[p] == q0[p],
        h == 0 ==> bs1[0] == 0,
        h > 0 ==> bs1[h] == bs1[h - 1] + (if opens_batch_at(ss, q1, bs1, rs1, h) { 1int } else { 0int }),
        h > 0 ==> rs1[h - 1] <= rs1[h],
    ensures
        greedy_prefix(ss, q1, bs1, rs1, h + 1),
{
    assert forall|p: int| #![trigger opens_batch_at(ss, q1, bs1, rs1, p)] 0 < p < h + 1 implies bs1[p] == bs1[p - 1]
        + (if opens_batch_at(ss, q1, bs1, rs1, p) { 1int } else { 0int }) by {
        if p < h {
            assert(bs0[p] == bs0[p - 1] + (if opens_batch_at(ss, q0, bs0, rs0, p) { 1int } else { 0int }));
            if opens_batch_at(ss, q0, bs0, rs0, p) && rs0[p] == rs0[p - 1] {
                let q = choose|q: int| 0 <= q < p && bs0[q] == bs0[p - 1]
                    && #[trigger] borrows_conflict(ss[q0[p] as int].borrow_constraints@, ss[q0[q] as int].borrow_constraints@);
                assert(bs1[q] == bs0[q] && q1[q] == q0[q]);
            }
            if opens_batch_at(ss, q1, bs1, rs1, p) && rs1[p] == rs1[p - 1] {
                let q = choose|q: int| 0 <= q < p && bs1[q] == bs1[p - 1]
                    && #[trigger] borrows_conflict(ss[q1[p] as int].borrow_constraints@, ss[q1[q] as int].borrow_constraints@);
                assert(bs1[q] == bs0[q] && q1[q] == q0[q]);
            }
        }
    }
    assert forall|p: int, q: int| 0 <= p < q < h + 1 implies rs1[p] <= rs1[q] by {
        if q < h {
            assert(rs0[p] <= rs0[q]);
        } else if p < h - 1 {
            assert(rs0[p] <= rs0[h - 1]);
        }
    }
}

/// Placing system `s` keeps the queue first come, first served: the systems it unblocks are
/// queued after every system queued before.
#[verifier::rlimit(80)]
proof fn lemma_place_fifo(o: OrderState, t: OrderState, s: usize, l: usize, n: int, hard: Seq<DedupedUniqueIds>, soft: Seq<DedupedUniqueIds>)
    requires
        placed_step(o, t, s, l, n),
        o.inv_fifo(hard, soft),
        o.inv_rank(hard, soft, n),
        o.inv_placed(n),
        o.inv_rounds(n),
        queue_wf(o.queue@, o.queued@, n),
        queue_wf(t.queue@, t.queued@, n),
        constraints_wf(hard, n),
        constraints_wf(soft, n),
        o.placed@.len() == n,
        o.round_of@.len() == n,
        o.enq@.len() == n,
        forall|k: int| 0 <= k < n ==> (#[trigger] t.queued@[k] <==> (o.queued@[k] || ready(hard, soft, k, t.placed@, t.round_of@, true, t.round))),
        forall|p: int| o.queue@.len() <= p < t.queue@.len() ==>
            !o.queued@[t.queue@[p] as int] && ready(hard, soft, t.queue@[p] as int, t.placed@, t.round_of@, true, t.round),
        forall|p: int, q: int| o.queue@.len() <= p < q < t.queue@.len() ==> t.queue@[p] < t.queue@[q],
        t.enq@ == Seq::new(n as nat, |i: int| if !o.queued@[i] && t.queued@[i] { o.head + 1 } else { o.enq@[i] }),
    ensures
        t.inv_fifo(hard, soft),
{
    reveal(OrderState::inv_fifo);
    reveal(OrderState::inv_rank);
    reveal(OrderState::inv_placed);
    reveal(OrderState::inv_rounds);
    let h = o.head as int;
    let oq = o.queue@;
    let tq = t.queue@;
    let ol = oq.len() as int;
    assert(!o.placed@[s as int]) by {
        if o.placed@[s as int] {
            let p = choose|p: int| 0 <= p < o.head && oq[p] == s;
            assert(oq[p] == oq[h]);
        }
    }
    assert forall|p: int| 0 <= p < ol implies #[trigger] t.enq@[tq[p] as int] == o.enq@[oq[p] as int] && tq[p] == oq[p] && o.queued@[oq[p] as int] by {
        assert(tq[p] == oq[p]);
    }
    assert forall|p: int| ol <= p < tq.len() implies #[trigger] t.enq@[tq[p] as int] == h + 1 by {
        assert(tq[p] < n);
    }
    assert forall|k: int| 0 <= k < n implies #[trigger] t.round_at(k) == (if k == s { o.round as int } else { o.round_at(k) }) by {}
    assert forall|p: int, r: int| #![trigger tq[p], tq[r]] 0 <= p < r < tq.len() implies comes_first(t.enq@, tq[p] as int, tq[r] as int) by {
        if r < ol {
            assert(comes_first(o.enq@, oq[p] as int, oq[r] as int));
        } else if p < ol {
            assert(o.enq@[oq[p] as int] <= h);
        }
    }
    assert forall|p: int, x: usize| 0 <= p < tq.len() && #[trigger] waits_on(hard, soft, tq[p] as int, x) implies
        exists|r: int| 0 <= r < t.enq@[tq[p] as int] && tq[r] == x by {
        if p < ol {
            assert(waits_on(hard, soft, oq[p] as int, x));
            let r = choose|r: int| 0 <= r < o.enq@[oq[p] as int] && oq[r] == x;
            assert(tq[r] == x);
        } else {
            let k = tq[p] as int;
            assert(ready(hard, soft, k, t.placed@, t.round_of@, true, t.round));
            assert(t.placed@[x as int]);
            if x == s {
                assert(tq[h] == x);
            } else {
                assert(o.placed@[x as int]);
                let r = choose|r: int| 0 <= r < o.head && oq[r] == x;
                assert(tq[r] == x);
            }
        }
    }
    assert forall|p: int| 0 <= p < tq.len() implies 0 <= #[trigger] t.enq@[tq[p] as int] <= p && t.enq@[tq[p] as int] <= t.head by {
        if p < ol {
            assert(0 <= o.enq@[oq[p] as int] <= p && o.enq@[oq[p] as int] <= o.head);
        }
    }
    assert forall|p: int, r: int| #![trigger tq[p], tq[r]] 0 <= p < tq.len() && t.enq@[tq[p] as int] <= r < t.head implies
        t.round_of@[tq[r] as int] >= t.round_at(tq[p] as int) by {
        if p < ol {
            let k = oq[p] as int;
            if r < h {
                assert(o.round_of@[oq[r] as int] >= o.round_at(k));
                assert(oq[r] != oq[h]);
                assert(tq[r] == oq[r]);
                if k == s {
                    assert(o.round_at(k) == o.round);
                } else {
                    assert(t.round_at(k) == o.round_at(k));
                }
            } else {
                assert(r == h);
                assert(tq[r] == s);
                if k != s && o.placed@[k] {
                    assert(o.round_of@[k] <= o.round);
                }
            }
        }
    }
    assert forall|p: int| 0 <= p < tq.len() implies #[trigger] queued_on_time(hard, soft, tq, t.enq@, t.round_of@, tq[p] as int, t.round_at(tq[p] as int)) by {
        let k = tq[p] as int;
        if p < ol {
            assert(queued_on_time(hard, soft, oq, o.enq@, o.round_of@, k, o.round_at(k)));
            let e = o.enq@[k];
            if e != 0 {
                assert(e - 1 < h);
                assert(tq[e - 1] == oq[e - 1]);
                assert(oq[e - 1] != oq[h]);
                if exists|x: usize| #[trigger] waits_on(hard, soft, k, x) && oq[e - 1] == x {
                    let x = choose|x: usize| #[trigger] waits_on(hard, soft, k, x) && oq[e - 1] == x;
                    assert(waits_on(hard, soft, k, x) && tq[e - 1] == x);
                } else {
                    if k == s {
                        assert(o.round_at(k) == o.round);
                    } else {
                        assert(t.round_at(k) == o.round_at(k));
                    }
                }
            }
        } else {
            assert(!o.queued@[k]);
            assert(!ready(hard, soft, k, o.placed@, o.round_of@, true, o.round));
            assert(t.enq@[k] == h + 1);
            assert(tq[h] == s);
            if !all_placed(soft[k], o.placed@) {
                let y = choose|y: usize| soft[k].has(y) && !(y < o.placed@.len() && o.placed@[y as int]);
                assert(t.placed@[y as int]);
                assert(y == s);
                assert(waits_on(hard, soft, k, y) && tq[t.enq@[k] - 1] == y);
            } else {
                let x = choose|x: usize| hard[k].has(x) && !(x < o.placed@.len() && o.placed@[x as int] && o.round_of@[x as int] < o.round);
                assert(t.placed@[x as int] && t.round_of@[x as int] < t.round);
                assert(false);
            }
        }
    }
}

/// Placing system `s` keeps the rounds ranked: `s` and the systems it unblocks are ranked
/// by what they wait on.
#[verifier::rlimit(60)]
proof fn lemma_place_rank(o: OrderState, t: OrderState, s: usize, l: usize, n: int, hard: Seq<DedupedUniqueIds>, soft: Seq<DedupedUniqueIds>)
    requires
        placed_step(o, t, s, l, n),
        o.inv_rank(hard, soft, n),
        o.inv_queued(hard, soft),
        o.inv_placed(n),
        o.inv_rounds(n),
        o.inv_done(hard, soft),
        queue_wf(o.queue@, o.queued@, n),
        constraints_wf(hard, n),
        constraints_wf(soft, n),
        o.placed@.len() == n,
        o.round_of@.len() == n,
        forall|k: int| 0 <= k < n ==> (#[trigger] t.queued@[k] <==> (o.queued@[k] || ready(hard, soft, k, t.placed@, t.round_of@, true, t.round))),
        forall|p: int| o.queue@.len() <= p < t.queue@.len() ==>
            !o.queued@[t.queue@[p] as int] && ready(hard, soft, t.queue@[p] as int, t.placed@, t.round_of@, true, t.round),
        t.queued@.len() == n,
        queue_wf(t.queue@, t.queued@, n),
    ensures
        t.inv_rank(hard, soft, n),
{
    reveal(OrderState::inv_rank);
    reveal(OrderState::inv_queued);
    reveal(OrderState::inv_placed);
    reveal(OrderState::inv_rounds);
    reveal(OrderState::inv_done);
    let h = o.head as int;
    assert(!o.placed@[s as int]) by {
        if o.placed@[s as int] {
            let p = choose|p: int| 0 <= p < o.head && o.queue@[p] == s;
            assert(o.queue@[p] == o.queue@[o.head as int]);
        }
    }
    assert forall|p: int| 0 <= p < t.head implies #[trigger] rank_fits(hard, soft, t.round_of@, t.queue@[p] as int) by {
        let k = t.queue@[p] as int;
        assert(t.queue@[p] == o.queue@[p]);
        if p < h {
            assert(rank_fits(hard, soft, o.round_of@, k));
            assert(k != s) by {
                assert(o.queue@[p] != o.queue@[h]);
            }
            assert forall|x: usize| #[trigger] hard[k].has(x) implies t.round_of@[x as int] == o.round_of@[x as int] by {
                assert(hard[o.queue@[p] as int].has(x));
                let q = choose|q: int| 0 <= q < p && o.queue@[q] == x;
                assert(o.queue@[q] != o.queue@[h]);
            }
            assert forall|y: usize| #[trigger] soft[k].has(y) implies t.round_of@[y as int] == o.round_of@[y as int] by {
                assert(soft[o.queue@[p] as int].has(y));
                let q = choose|q: int| 0 <= q < p && o.queue@[q] == y;
                assert(o.queue@[q] != o.queue@[h]);
            }
            if o.round_of@[k] != 0 {
                if exists|x: usize| #[trigger] hard[k].has(x) && o.round_of@[x as int] + 1 == o.round_of@[k] {
                    let x = choose|x: usize| #[trigger] hard[k].has(x) && o.round_of@[x as int] + 1 == o.round_of@[k];
                    assert(t.round_of@[x as int] == o.round_of@[x as int]);
                } else {
                    let y = choose|y: usize| #[trigger] soft[k].has(y) && o.round_of@[y as int] == o.round_of@[k];
                    assert(t.round_of@[y as int] == o.round_of@[y as int]);
                }
            }
        } else {
            assert(k == s);
            assert(all_placed_before(hard[k], o.placed@, o.round_of@, o.round));
            assert(all_placed(soft[k], o.placed@));
            assert(tight(hard, soft, o.round_of@, k, o.round as int));
            assert forall|x: usize| #[trigger] hard[k].has(x) implies t.round_of@[x as int] < t.round_of@[k] by {
                assert(o.placed@[x as int]);
            }
            assert forall|y: usize| #[trigger] soft[k].has(y) implies t.round_of@[y as int] <= t.round_of@[k] by {
                assert(o.placed@[y as int]);
            }
            if o.round != 0 {
                if exists|x: usize| #[trigger] hard[k].has(x) && o.round_of@[x as int] + 1 == o.round {
                    let x = choose|x: usize| #[trigger] hard[k].has(x) && o.round_of@[x as int] + 1 == o.round;
                    assert(o.placed@[x as int]);
                    assert(t.round_of@[x as int] == o.round_of@[x as int]);
                } else {
                    let y = choose|y: usize| #[trigger] soft[k].has(y) && o.round_of@[y as int] == o.round;
                    assert(o.placed@[y as int]);
                    assert(t.round_of@[y as int] == o.round_of@[y as int]);
                }
            }
        }
    }
    assert forall|p: int| t.head <= p < t.queue@.len() implies #[trigger] tight(hard, soft, t.round_of@, t.queue@[p] as int, t.round as int) by {
        let k = t.queue@[p] as int;
        if p < o.queue@.len() {
            assert(t.queue@[p] == o.queue@[p]);
            assert(tight(hard, soft, o.round_of@, k, o.round as int));
            assert(all_placed_before(hard[k], o.placed@, o.round_of@, o.round));
            assert(all_placed(soft[k], o.placed@));
            if o.round != 0 {
                if exists|x: usize| #[trigger] hard[k].has(x) && o.round_of@[x as int] + 1 == o.round {
                    let x = choose|x: usize| #[trigger] hard[k].has(x) && o.round_of@[x as int] + 1 == o.round;
                    assert(o.placed@[x as int]);
                    assert(t.round_of@[x as int] == o.round_of@[x as int]);
                } else {
                    let y = choose|y: usize| #[trigger] soft[k].has(y) && o.round_of@[y as int] == o.round;
                    assert(o.placed@[y as int]);
                    assert(t.round_of@[y as int] == o.round_of@[y as int]);
                }
            }
        } else {
            assert(!o.queued@[k]);
            assert(ready(hard, soft, k, t.placed@, t.round_of@, true, t.round));
            assert(!ready(hard, soft, k, o.placed@, o.round_of@, true, o.round));
            if !all_placed(soft[k], o.placed@) {
                let y = choose|y: usize| soft[k].has(y) && !(y < o.placed@.len() && o.placed@[y as int]);
                assert(t.placed@[y as int]);
                assert(y == s);
                assert(soft[k].has(y) && t.round_of@[y as int] == t.round);
            } else {
                let x = choose|x: usize| hard[k].has(x) && !(x < o.placed@.len() && o.placed@[x as int] && o.round_of@[x as int] < o.round);
                assert(t.placed@[x as int] && t.round_of@[x as int] < t.round);
                if x == s {
                    assert(false);
                } else {
                    assert(false);
                }
            }
        }
    }
}

/// The latest batch clashes with system `s` exactly when one of its placed systems does.
proof fn lemma_clash(o: OrderState, ss: Seq<ToBePlacedSystem>, s: usize, last: usize)
    requires
        last == o.infos@.len() - 1,
        o.infos@.len() >= 1,
        s < ss.len(),
        ss.len() <= usize::MAX,
        o.placed@.len() == ss.len(),
        o.batch_of@.len() == ss.len(),
        last_batch_ok(ss, o.infos@[last as int], o.placed@, o.batch_of@, last, o.msingle@, o.mlist@),
    ensures
        (exists|y: int| 0 <= y < ss.len() && o.placed@[y] && o.batch_of@[y] == o.infos@.len() - 1
            && #[trigger] borrows_conflict(ss[s as int].borrow_constraints@, ss[y].borrow_constraints@))
        <==> !((o.infos@[last as int].systems.0 matches Some(si) ==> !borrows_conflict(ss[s as int].borrow_constraints@, si.borrow@))
            && forall|i: int| 0 <= i < o.infos@[last as int].systems.1@.len() ==>
                !borrows_conflict(ss[s as int].borrow_constraints@, (#[trigger] o.infos@[last as int].systems.1@[i]).borrow@)),
{
    reveal(last_batch_ok);
    let info = o.infos@[last as int];
    let x = ss[s as int].borrow_constraints@;
    if exists|y: int| 0 <= y < ss.len() && o.placed@[y] && o.batch_of@[y] == o.infos@.len() - 1
        && #[trigger] borrows_conflict(x, ss[y].borrow_constraints@) {
        let y = choose|y: int| 0 <= y < ss.len() && o.placed@[y] && o.batch_of@[y] == o.infos@.len() - 1
            && #[trigger] borrows_conflict(x, ss[y].borrow_constraints@);
        if o.msingle@ == Some(y as usize) {
            let m = o.msingle@->0;
            assert(m as int == y);
            lemma_same_infos_conflict(x, info.systems.0->0.borrow@, ss[m as int].borrow_constraints@);
        } else {
            let i = choose|i: int| 0 <= i < o.mlist@.len() && o.mlist@[i] == y;
            lemma_same_infos_conflict(x, info.systems.1@[i].borrow@, ss[y].borrow_constraints@);
            assert(borrows_conflict(x, info.systems.1@[i].borrow@));
        }
    }
    if info.systems.0 is Some {
        let si = info.systems.0->0;
        if borrows_conflict(x, si.borrow@) {
            let m = o.msingle@->0;
            lemma_same_infos_conflict(x, si.borrow@, ss[m as int].borrow_constraints@);
            assert(borrows_conflict(x, ss[m as int].borrow_constraints@));
        }
    }
    assert forall|i: int| 0 <= i < info.systems.1@.len() && borrows_conflict(x, (#[trigger] info.systems.1@[i]).borrow@)
        implies exists|y: int| 0 <= y < ss.len() && o.placed@[y] && o.batch_of@[y] == o.infos@.len() - 1
            && #[trigger] borrows_conflict(x, ss[y].borrow_constraints@) by {
        let y = o.mlist@[i] as int;
        lemma_same_infos_conflict(x, info.systems.1@[i].borrow@, ss[y].borrow_constraints@);
        assert(borrows_conflict(x, ss[y].borrow_constraints@));
    }
}

/// Places the next queued system and queues the systems it unblocks.
fn place_next(
    st: &mut OrderState,
    ss: &Vec<ToBePlacedSystem>,
    hard: &Vec<DedupedUniqueIds>,
    soft: &Vec<DedupedUniqueIds>,
    conflicts: &Vec<Option<Conflict>>,
    batches: &mut Batches,
)
    requires
        old(st).inv(ss@, hard@, soft@, conflicts@, *old(batches)),
        old(st).inv_pack(ss@),
        old(st).inv_rank(hard@, soft@, ss@.len() as int),
        old(st).inv_fifo(hard@, soft@),
        old(st).head < old(st).queue@.len(),
    ensures
        final(st).inv(ss@, hard@, soft@, conflicts@, *final(batches)),
        final(st).inv_pack(ss@),
        final(st).inv_rank(hard@, soft@, ss@.len() as int),
        final(st).inv_fifo(hard@, soft@),
        final(st).head == old(st).head + 1,
        final(st).queue@.len() >= old(st).queue@.len(),
        final(st).round == old(st).round,
        final(batches).workload_run_if == old(batches).workload_run_if,
{
    let ghost o = *st;
    let ghost ob = *batches;
    assert(st.members@.len() == st.infos@.len()) by {
        reveal(OrderState::inv_parallel);
    }
    let s = st.queue[st.head];
    let qlen = st.queue.len();
    assert(st.head < qlen);
    st.head += 1;
    batches.sequential.push(ss[s].index);

    let last = st.infos.len() - 1;
    let conflict = check_can_go_in_parallel_batch(&st.infos[last], &ss[s].borrow_constraints, ss[s].index);
    let nss = ss.len();
    proof {
        lemma_clash(o, ss@, s, last);
    }
    let ghost clash = conflict is Some;
    if conflict.is_some() {
        batches.parallel.push((None, Vec::new()));
        batches.parallel_run_if.push((NO_RUN_IF, Vec::new()));
        st.infos.push(BatchInfo::new());
        st.msingle = Ghost(None);
        st.mlist = Ghost(Seq::empty());
        st.members = Ghost(st.members@.push((None, Seq::empty())));
    }
    let l = st.infos.len() - 1;
    assert(l == o.infos@.len() - 1 ==> st.infos@[l as int] == o.infos@[l as int] && st.msingle@ == o.msingle@ && st.mlist@ == o.mlist@
        && conflict is None);
    assert(l == o.infos@.len() ==> st.infos@[l as int].systems.0 is None && st.infos@[l as int].systems.1@.len() == 0
        && st.msingle@ is None && st.mlist@.len() == 0);
    assert(o.infos@.len() >= 1);
    let single = is_single_system(&ss[s].borrow_constraints);
    let si = system_info(&ss[s], &hard[s], &conflicts[s]);
    let ghost gsi = si;

    let run_if_index = match &ss[s].run_if {
        Some(c) => {
            batches.systems_run_if.push(c.duplicate());
            batches.systems_run_if.len() - 1
        },
        None => NO_RUN_IF,
    };
    batches.sequential_run_if.push(run_if_index);

    let ghost prev_single = st.infos@[l as int].systems.0;
    let ghost prev_list = st.infos@[l as int].systems.1@;
    let ghost pm_single = st.msingle@;
    let ghost pm_list = st.mlist@;
    let ghost pp_single = batches.parallel@[l as int].0;
    let ghost pp_list = batches.parallel@[l as int].1@;
    let ghost pr_single = batches.parallel_run_if@[l as int].0;
    let ghost pr_list = batches.parallel_run_if@[l as int].1@;
    let ghost mid_infos = st.infos@;
    let ghost mid_par = batches.parallel@;
    let ghost mid_run = batches.parallel_run_if@;
    let ghost mid_members = st.members@;
    let mut info = st.infos.pop().unwrap();
    let (p_single, mut p_list) = batches.parallel.pop().unwrap();
    let (r_single, mut r_list) = batches.parallel_run_if.pop().unwrap();
    if single {
        info.systems.0 = Some(si);
        batches.parallel.push((Some(ss[s].index), p_list));
        batches.parallel_run_if.push((run_if_index, r_list));
        st.msingle = Ghost(Some(s));
    } else {
        info.systems.1.push(si);
        p_list.push(ss[s].index);
        r_list.push(run_if_index);
        batches.parallel.push((p_single, p_list));
        batches.parallel_run_if.push((r_single, r_list));
        st.mlist = Ghost(st.mlist@.push(s));
    }
    st.infos.push(info);
    assert(st.infos@[l as int] == info);
    assert(st.infos@.len() == l + 1);
    st.members = Ghost(st.members@.update(l as int, (st.msingle@, st.mlist@)));
    assert(forall|l2: int| 0 <= l2 < l ==> st.infos@[l2] == mid_infos[l2] && batches.parallel@[l2] == mid_par[l2]
        && batches.parallel_run_if@[l2] == mid_run[l2] && st.members@[l2] == mid_members[l2]);

    st.bseq = Ghost(st.bseq@.push(l));
    st.rseq = Ghost(st.rseq@.push(st.round));
    st.placed.set(s, true);
    st.round_of.set(s, st.round);
    st.batch_of.set(s, l);

    let ghost before_enqueue = st.queued@;
    enqueue_ready(hard, soft, &st.placed, &st.round_of, true, st.round, &mut st.queued, &mut st.queue);
    let ghost nn = ss@.len();
    let ghost hh = o.head as int;
    st.enq = Ghost(Seq::new(nn, |i: int| if !o.queued@[i] && st.queued@[i] { hh + 1 } else { o.enq@[i] }));
    proof {
        let t = *st;
        let n = ss@.len() as int;
        assert forall|p: int| 0 <= p < o.queue@.len() implies #[trigger] t.queue@[p] == o.queue@[p] by {
            assert(t.queue@.subrange(0, o.queue@.len() as int)[p] == t.queue@[p]);
        }
        assert(placed_step(o, t, s, l, n));
        lemma_place_placed(o, t, s, l, n);
        lemma_place_rounds(o, t, s, l, n);
        lemma_place_monotone(o, t, s, l, n);
        lemma_place_queued(o, t, s, l, n, hard@, soft@);
        lemma_place_done(o, t, s, l, n, hard@, soft@);
        lemma_place_batch(o, t, s, l, n, ss@, single, gsi, prev_single, prev_list, pm_single, pm_list);
        lemma_place_pack(o, t, s, l, n, ss@, clash);
        lemma_place_rank(o, t, s, l, n, hard@, soft@);
        assert(o.enq@.len() == n) by {
            reveal(OrderState::inv_fifo);
        }
        lemma_place_fifo(o, t, s, l, n, hard@, soft@);
        lemma_place_parallel(o, t, s, l, n, ss@, ob, *batches, single, gsi, run_if_index, prev_single, prev_list,
            pm_single, pm_list, pp_single, pp_list, pr_single, pr_list);
        lemma_place_sequential(o, t, s, ss@, ob, *batches);
    }
}

proof fn lemma_place_sequential(o: OrderState, t: OrderState, s: usize, ss: Seq<ToBePlacedSystem>, ob: Batches, b: Batches)
    requires
        o.head < o.queue@.len(),
        o.queue@[o.head as int] == s,
        t.head == o.head + 1,
        forall|p: int| 0 <= p < o.queue@.len() ==> #[trigger] t.queue@[p] == o.queue@[p],
        t.queue@.len() >= o.queue@.len(),
        sequential_ok(ss, o.queue@.subrange(0, o.head as int), ob),
        b.sequential@ == ob.sequential@.push(ss[s as int].index),
        b.sequential_run_if@.len() == ob.sequential_run_if@.len() + 1,
        forall|p: int| 0 <= p < ob.sequential_run_if@.len() ==> b.sequential_run_if@[p] == ob.sequential_run_if@[p],
        b.systems_run_if@.len() >= ob.systems_run_if@.len(),
        forall|p: int| 0 <= p < ob.systems_run_if@.len() ==> b.systems_run_if@[p] == ob.systems_run_if@[p],
        match ss[s as int].run_if {
            None => b.sequential_run_if@[ob.sequential_run_if@.len() as int] == NO_RUN_IF,
            Some(c) => b.sequential_run_if@[ob.sequential_run_if@.len() as int] < b.systems_run_if@.len()
                && b.systems_run_if@[b.sequential_run_if@[ob.sequential_run_if@.len() as int] as int] == c,
        },
    ensures
        sequential_ok(ss, t.queue@.subrange(0, t.head as int), b),
{
    reveal(sequential_ok);
    let order = t.queue@.subrange(0, t.head as int);
    let old_order = o.queue@.subrange(0, o.head as int);
    assert forall|p: int| 0 <= p < order.len() implies #[trigger] b.sequential@[p] == ss[order[p] as int].index by {
        if p < o.head {
            assert(order[p] == old_order[p]);
        }
    }
    assert forall|p: int| 0 <= p < order.len() implies match ss[order[p] as int].run_if {
            None => #[trigger] b.sequential_run_if@[p] == NO_RUN_IF,
            Some(c) => b.sequential_run_if@[p] < b.systems_run_if@.len() && b.systems_run_if@[b.sequential_run_if@[p] as int] == c,
        } by {
        if p < o.head {
            assert(order[p] == old_order[p]);
        }
    }
}

proof fn lemma_new_round(
    o: OrderState,
    t: OrderState,
    ss: Seq<ToBePlacedSystem>,
    hard: Seq<DedupedUniqueIds>,
    soft: Seq<DedupedUniqueIds>,
    conflicts: Seq<Option<Conflict>>,
    ob: Batches,
    b: Batches,
)
    requires
        o.inv(ss, hard, soft, conflicts, ob),
        o.head == o.queue@.len(),
        t.queue@.len() > o.queue@.len(),
        forall|p: int| 0 <= p < o.queue@.len() ==> #[trigger] t.queue@[p] == o.queue@[p],
        queue_wf(t.queue@, t.queued@, ss.len() as int),
        forall|p: int| o.queue@.len() <= p < t.queue@.len() ==>
            ready(hard, soft, t.queue@[p] as int, o.placed@, o.round_of@, false, o.round),
        t.head == o.head,
        t.placed == o.placed,
        t.round_of == o.round_of,
        t.batch_of == o.batch_of,
        t.round == o.round + 1,
        t.infos@.len() == o.infos@.len() + 1,
        t.infos@[t.infos@.len() - 1].systems.0 is None,
        t.infos@[t.infos@.len() - 1].systems.1@.len() == 0,
        t.rsb@ == o.infos@.len(),
        t.msingle@ is None,
        t.mlist@.len() == 0,
        b.parallel@.len() == t.infos@.len(),
        b.parallel_run_if@.len() == t.infos@.len(),
        b.sequential == ob.sequential,
        b.sequential_run_if == ob.sequential_run_if,
        b.systems_run_if == ob.systems_run_if,
        t.members@ == o.members@.push((None, Seq::<usize>::empty())),
        forall|l: int| 0 <= l < o.infos@.len() ==> t.infos@[l] == o.infos@[l] && b.parallel@[l] == ob.parallel@[l]
            && b.parallel_run_if@[l] == ob.parallel_run_if@[l],
        b.parallel@.last().0 is None,
        b.parallel@.last().1@.len() == 0,
        b.parallel_run_if@.last().1@.len() == 0,
    ensures
        t.inv(ss, hard, soft, conflicts, b),
{
    lemma_new_round_parallel(o, t, ss, ob, b);
    reveal(OrderState::inv_placed);
    reveal(OrderState::inv_rounds);
    reveal(OrderState::inv_monotone);
    reveal(OrderState::inv_queued);
    reveal(OrderState::inv_done);
    reveal(OrderState::inv_no_conflict);
    reveal(last_batch_ok);
    reveal(sequential_ok);
    let n = ss.len() as int;
    assert(t.inv_basic(ss, hard, soft, conflicts, b));
    assert forall|k: int| 0 <= k < n implies (t.placed@[k] <==> exists|p: int| 0 <= p < t.head && t.queue@[p] == k) by {
        if t.placed@[k] {
            let p = choose|p: int| 0 <= p < o.head && o.queue@[p] == k;
            assert(t.queue@[p] == k);
        }
        if exists|p: int| 0 <= p < t.head && t.queue@[p] == k {
            let p = choose|p: int| 0 <= p < t.head && t.queue@[p] == k;
            assert(o.queue@[p] == k);
        }
    }
    assert(t.inv_placed(n));
    assert forall|y: int| 0 <= y < n && t.placed@[y] implies t.round_of@[y] <= t.round && t.batch_of@[y] < t.infos@.len()
        && (t.round_of@[y] < t.round ==> t.batch_of@[y] < t.rsb@)
        && (t.round_of@[y] == t.round ==> t.batch_of@[y] >= t.rsb@) by {
        assert(o.placed@[y]);
    }
    assert(t.inv_rounds(n));
    assert(t.inv_monotone());
    assert forall|p: int| t.head <= p < t.queue@.len() implies all_placed_before(hard[t.queue@[p] as int], t.placed@, t.round_of@, t.round)
        && all_placed(soft[t.queue@[p] as int], t.placed@) by {
        let k = t.queue@[p] as int;
        assert(ready(hard, soft, k, o.placed@, o.round_of@, false, o.round));
        assert forall|x: usize| #[trigger] hard[k].has(x) implies x < t.placed@.len() && t.placed@[x as int] && t.round_of@[x as int] < t.round by {
            assert(o.placed@[x as int]);
        }
    }
    assert(t.inv_queued(hard, soft));
    assert forall|p: int, x: usize| 0 <= p < t.head && #[trigger] hard[t.queue@[p] as int].has(x) implies
        (exists|q: int| 0 <= q < p && t.queue@[q] == x) && t.batch_of@[x as int] < t.batch_of@[t.queue@[p] as int] by {
        assert(t.queue@[p] == o.queue@[p]);
        assert(hard[o.queue@[p] as int].has(x));
        let q = choose|q: int| 0 <= q < p && o.queue@[q] == x;
        assert(t.queue@[q] == x);
    }
    assert forall|p: int, x: usize| 0 <= p < t.head && #[trigger] soft[t.queue@[p] as int].has(x) implies
        (exists|q: int| 0 <= q < p && t.queue@[q] == x) by {
        assert(t.queue@[p] == o.queue@[p]);
        assert(soft[o.queue@[p] as int].has(x));
        let q = choose|q: int| 0 <= q < p && o.queue@[q] == x;
        assert(t.queue@[q] == x);
    }
    assert(t.inv_done(hard, soft));
    assert(t.inv_no_conflict(ss));
    assert forall|y: int| 0 <= y < n && t.placed@[y] && t.batch_of@[y] == (t.infos@.len() - 1) as usize implies
        (t.msingle@ == Some(y as usize) || exists|i: int| 0 <= i < t.mlist@.len() && t.mlist@[i] == y) by {
        assert(o.placed@[y]);
    }
    assert(last_batch_ok(ss, t.infos@[t.infos@.len() - 1], t.placed@, t.batch_of@, (t.infos@.len() - 1) as usize, t.msingle@, t.mlist@));
    assert(t.queue@.subrange(0, t.head as int) =~= o.queue@.subrange(0, o.head as int));
}

/// A new round opens an empty batch and leaves the others as they were.
proof fn lemma_new_round_parallel(o: OrderState, t: OrderState, ss: Seq<ToBePlacedSystem>, ob: Batches, b: Batches)
    requires
        o.inv_parallel(ss, ob),
        o.inv_rounds(ss.len() as int),
        o.placed@.len() == ss.len(),
        t.placed == o.placed,
        t.batch_of == o.batch_of,
        t.infos@.len() == o.infos@.len() + 1,
        t.infos@[t.infos@.len() - 1].systems.0 is None,
        t.infos@[t.infos@.len() - 1].systems.1@.len() == 0,
        t.msingle@ is None,
        t.mlist@.len() == 0,
        b.parallel@.len() == t.infos@.len(),
        b.parallel_run_if@.len() == t.infos@.len(),
        b.systems_run_if == ob.systems_run_if,
        t.members@ == o.members@.push((None, Seq::<usize>::empty())),
        forall|l: int| 0 <= l < o.infos@.len() ==> t.infos@[l] == o.infos@[l] && b.parallel@[l] == ob.parallel@[l]
            && b.parallel_run_if@[l] == ob.parallel_run_if@[l],
        b.parallel@.last().0 is None,
        b.parallel@.last().1@.len() == 0,
        b.parallel_run_if@.last().1@.len() == 0,
        t.queue@.len() >= o.queue@.len(),
        forall|p: int| 0 <= p < o.queue@.len() ==> #[trigger] t.queue@[p] == o.queue@[p],
    ensures
        t.inv_parallel(ss, b),
{
    reveal(OrderState::inv_parallel);
    reveal(OrderState::inv_rounds);
    assert(t.mlist@ =~= Seq::<usize>::empty());
    assert forall|l: int| 0 <= l < t.infos@.len() implies
        #[trigger] batch_ok(ss, t.placed@, t.batch_of@, b, t.infos@[l], t.members@[l], l) by {
        if l < o.infos@.len() {
            assert(t.members@[l] == o.members@[l]);
            assert(batch_ok(ss, o.placed@, o.batch_of@, ob, o.infos@[l], o.members@[l], l));
        } else {
            assert forall|y: int| 0 <= y < ss.len() && t.placed@[y] implies t.batch_of@[y] != l by {
                assert(o.placed@[y]);
            }
        }
    }
    assert forall|l: int| 0 <= l < t.infos@.len() implies #[trigger] members_in_order(t.queue@, t.members@[l].1) by {
        if l < o.infos@.len() {
            let ml = t.members@[l].1;
            assert(t.members@[l] == o.members@[l]);
            assert(members_in_order(o.queue@, ml));
            assert forall|j1: int, j2: int| 0 <= j1 < j2 < ml.len() implies #[trigger] precedes(t.queue@, ml[j1], ml[j2]) by {
                assert(precedes(o.queue@, ml[j1], ml[j2]));
                let (p, q) = choose|p: int, q: int| 0 <= p < q < o.queue@.len() && o.queue@[p] == ml[j1] && o.queue@[q] == ml[j2];
                assert(t.queue@[p] == o.queue@[p] && t.queue@[q] == o.queue@[q]);
            }
        }
    }
}

proof fn lemma_inv_frame(
    o: OrderState,
    t: OrderState,
    ss: Seq<ToBePlacedSystem>,
    hard: Seq<DedupedUniqueIds>,
    soft: Seq<DedupedUniqueIds>,
    conflicts: Seq<Option<Conflict>>,
    b: Batches,
)
    requires
        o.inv(ss, hard, soft, conflicts, b),
        t.queue@ == o.queue@,
        t.queued@ == o.queued@,
        t.placed@ == o.placed@,
        t.round_of@ == o.round_of@,
        t.batch_of@ == o.batch_of@,
        t.infos@ == o.infos@,
        t.head == o.head,
        t.round == o.round,
        t.rsb == o.rsb,
        t.msingle == o.msingle,
        t.mlist == o.mlist,
        t.members == o.members,
    ensures
        t.inv(ss, hard, soft, conflicts, b),
{
    reveal(OrderState::inv_parallel);
    reveal(OrderState::inv_placed);
    reveal(OrderState::inv_rounds);
    reveal(OrderState::inv_monotone);
    reveal(OrderState::inv_queued);
    reveal(OrderState::inv_done);
    reveal(OrderState::inv_no_conflict);
}

/// A packed prefix stays packed when the queue changes past it.
proof fn lemma_greedy_same(ss: Seq<ToBePlacedSystem>, q0: Seq<usize>, q1: Seq<usize>, bs: Seq<usize>, rs: Seq<usize>, h: int)
    requires
        greedy_prefix(ss, q0, bs, rs, h),
        q0.len() >= h,
        q1.len() >= h,
        forall|p: int| 0 <= p < h ==> q1[p] == q0[p],
    ensures
        greedy_prefix(ss, q1, bs, rs, h),
{
    assert forall|p: int| #![trigger opens_batch_at(ss, q1, bs, rs, p)] 0 < p < h implies
        opens_batch_at(ss, q1, bs, rs, p) == opens_batch_at(ss, q0, bs, rs, p) by {
        if opens_batch_at(ss, q0, bs, rs, p) && rs[p] == rs[p - 1] {
            let q = choose|q: int| 0 <= q < p && bs[q] == bs[p - 1]
                && #[trigger] borrows_conflict(ss[q0[p] as int].borrow_constraints@, ss[q0[q] as int].borrow_constraints@);
            assert(q1[q] == q0[q] && q1[p] == q0[p]);
        }
        if opens_batch_at(ss, q1, bs, rs, p) && rs[p] == rs[p - 1] {
            let q = choose|q: int| 0 <= q < p && bs[q] == bs[p - 1]
                && #[trigger] borrows_conflict(ss[q1[p] as int].borrow_constraints@, ss[q1[q] as int].borrow_constraints@);
            assert(q1[q] == q0[q] && q1[p] == q0[p]);
        }
    }
}

/// A new round opens a new batch, and the systems it queues are ranked in it.
#[verifier::rlimit(60)]
proof fn lemma_new_round_rank_pack(o: OrderState, t: OrderState, ss: Seq<ToBePlacedSystem>, hard: Seq<DedupedUniqueIds>, soft: Seq<DedupedUniqueIds>, n: int)
    requires
        ss.len() == n,
        o.inv_pack(ss),
        o.inv_rank(hard, soft, n),
        o.inv_rounds(n),
        o.inv_placed(n),
        o.head == o.queue@.len(),
        t.queue@.len() > o.queue@.len(),
        forall|p: int| 0 <= p < o.queue@.len() ==> #[trigger] t.queue@[p] == o.queue@[p],
        queue_wf(t.queue@, t.queued@, n),
        forall|p: int| o.queue@.len() <= p < t.queue@.len() ==>
            !o.queued@[t.queue@[p] as int] && ready(hard, soft, t.queue@[p] as int, o.placed@, o.round_of@, false, o.round),
        forall|k: int| 0 <= k < n ==> (#[trigger] t.queued@[k] <==> (o.queued@[k] || ready(hard, soft, k, o.placed@, o.round_of@, false, o.round))),
        t.head == o.head,
        t.placed == o.placed,
        t.round_of == o.round_of,
        t.batch_of == o.batch_of,
        t.round == o.round + 1,
        t.infos@.len() == o.infos@.len() + 1,
        t.rsb@ == o.infos@.len(),
        t.bseq == o.bseq,
        t.rseq == o.rseq,
        constraints_wf(hard, n),
        constraints_wf(soft, n),
        o.placed@.len() == n,
        o.round_of@.len() == n,
    ensures
        t.inv_pack(ss),
        t.inv_rank(hard, soft, n),
{
    reveal(OrderState::inv_pack);
    reveal(OrderState::inv_rank);
    let h = o.head as int;
    let k0 = t.queue@[o.queue@.len() as int] as int;
    assert(!o.queued@[k0]);
    assert(!ready(hard, soft, k0, o.placed@, o.round_of@, true, o.round));
    if h == 0 {
        assert forall|x: usize| #[trigger] hard[k0].has(x) implies false by {
            reveal(OrderState::inv_placed);
            assert(o.placed@[x as int]);
        }
        assert forall|y: usize| #[trigger] soft[k0].has(y) implies false by {
            reveal(OrderState::inv_placed);
            assert(o.placed@[y as int]);
        }
        assert(false);
    }
    assert(o.rseq@[h - 1] == o.round);
    lemma_greedy_same(ss, o.queue@, t.queue@, o.bseq@, o.rseq@, h);
    assert forall|p: int| 0 <= p < t.head implies #[trigger] rank_fits(hard, soft, t.round_of@, t.queue@[p] as int) by {
        assert(t.queue@[p] == o.queue@[p]);
    }
    assert forall|p: int| t.head <= p < t.queue@.len() implies #[trigger] tight(hard, soft, t.round_of@, t.queue@[p] as int, t.round as int) by {
        let k = t.queue@[p] as int;
        assert(ready(hard, soft, k, o.placed@, o.round_of@, false, o.round));
        assert(!ready(hard, soft, k, o.placed@, o.round_of@, true, o.round));
        let x = choose|x: usize| hard[k].has(x) && !(x < o.placed@.len() && o.placed@[x as int] && o.round_of@[x as int] < o.round);
        assert(o.placed@[x as int]);
        assert(o.round_of@[x as int] <= o.round) by {
            reveal(OrderState::inv_rounds);
        }
        assert(hard[k].has(x) && t.round_of@[x as int] + 1 == t.round);
    }
    assert forall|k: int| 0 <= k < n && !t.queued@[k] implies !#[trigger] ready(hard, soft, k, t.placed@, t.round_of@, true, t.round) by {
        assert(!ready(hard, soft, k, o.placed@, o.round_of@, false, o.round));
    }
}

/// A new round queues the systems it unblocks after every system queued before.
#[verifier::rlimit(60)]
proof fn lemma_new_round_fifo(o: OrderState, t: OrderState, n: int, hard: Seq<DedupedUniqueIds>, soft: Seq<DedupedUniqueIds>)
    requires
        o.inv_fifo(hard, soft),
        o.inv_placed(n),
        o.inv_rounds(n),
        o.head == o.queue@.len(),
        queue_wf(o.queue@, o.queued@, n),
        queue_wf(t.queue@, t.queued@, n),
        t.queue@.len() > o.queue@.len(),
        forall|p: int| 0 <= p < o.queue@.len() ==> #[trigger] t.queue@[p] == o.queue@[p],
        forall|p: int| o.queue@.len() <= p < t.queue@.len() ==>
            !o.queued@[t.queue@[p] as int] && ready(hard, soft, t.queue@[p] as int, o.placed@, o.round_of@, false, o.round),
        forall|p: int, q: int| o.queue@.len() <= p < q < t.queue@.len() ==> t.queue@[p] < t.queue@[q],
        forall|k: int| 0 <= k < n ==> (#[trigger] t.queued@[k] <==> (o.queued@[k] || ready(hard, soft, k, o.placed@, o.round_of@, false, o.round))),
        t.enq@ == Seq::new(n as nat, |i: int| if !o.queued@[i] && t.queued@[i] { o.head as int } else { o.enq@[i] }),
        o.enq@.len() == n,
        t.head == o.head,
        t.placed == o.placed,
        t.round_of == o.round_of,
        t.round == o.round + 1,
        o.placed@.len() == n,
        o.round_of@.len() == n,
        constraints_wf(hard, n),
        constraints_wf(soft, n),
    ensures
        t.inv_fifo(hard, soft),
{
    reveal(OrderState::inv_fifo);
    reveal(OrderState::inv_placed);
    reveal(OrderState::inv_rounds);
    let h = o.head as int;
    let oq = o.queue@;
    let tq = t.queue@;
    assert forall|p: int| 0 <= p < h implies #[trigger] t.enq@[tq[p] as int] == o.enq@[oq[p] as int] && tq[p] == oq[p]
        && o.placed@[oq[p] as int] by {
        assert(tq[p] == oq[p]);
        assert(exists|r: int| 0 <= r < o.head && oq[r] == oq[p]);
    }
    assert forall|p: int| h <= p < tq.len() implies #[trigger] t.enq@[tq[p] as int] == h by {
        assert(tq[p] < n);
    }
    assert forall|p: int, r: int| #![trigger tq[p], tq[r]] 0 <= p < r < tq.len() implies comes_first(t.enq@, tq[p] as int, tq[r] as int) by {
        if r < h {
            assert(comes_first(o.enq@, oq[p] as int, oq[r] as int));
        } else if p < h {
            assert(o.enq@[oq[p] as int] <= p);
        }
    }
    assert forall|p: int, x: usize| 0 <= p < tq.len() && #[trigger] waits_on(hard, soft, tq[p] as int, x) implies
        exists|r: int| 0 <= r < t.enq@[tq[p] as int] && tq[r] == x by {
        if p < h {
            assert(waits_on(hard, soft, oq[p] as int, x));
            let r = choose|r: int| 0 <= r < o.enq@[oq[p] as int] && oq[r] == x;
            assert(tq[r] == x);
        } else {
            let k = tq[p] as int;
            assert(ready(hard, soft, k, o.placed@, o.round_of@, false, o.round));
            assert(o.placed@[x as int]);
            let r = choose|r: int| 0 <= r < o.head && oq[r] == x;
            assert(tq[r] == x);
        }
    }
    assert forall|p: int| 0 <= p < tq.len() implies 0 <= #[trigger] t.enq@[tq[p] as int] <= p && t.enq@[tq[p] as int] <= t.head by {
        if p < h {
            assert(0 <= o.enq@[oq[p] as int] <= p && o.enq@[oq[p] as int] <= o.head);
        }
    }
    assert forall|p: int, r: int| #![trigger tq[p], tq[r]] 0 <= p < tq.len() && t.enq@[tq[p] as int] <= r < t.head implies
        t.round_of@[tq[r] as int] >= t.round_at(tq[p] as int) by {
        assert(p < h);
        assert(o.round_of@[oq[r] as int] >= o.round_at(oq[p] as int));
        assert(tq[r] == oq[r]);
    }
    assert forall|p: int| 0 <= p < tq.len() implies #[trigger] queued_on_time(hard, soft, tq, t.enq@, t.round_of@, tq[p] as int, t.round_at(tq[p] as int)) by {
        let k = tq[p] as int;
        if p < h {
            assert(queued_on_time(hard, soft, oq, o.enq@, o.round_of@, k, o.round_at(k)));
            let e = o.enq@[k];
            if e != 0 {
                assert(tq[e - 1] == oq[e - 1]);
                if exists|x: usize| #[trigger] waits_on(hard, soft, k, x) && oq[e - 1] == x {
                    let x = choose|x: usize| #[trigger] waits_on(hard, soft, k, x) && oq[e - 1] == x;
                    assert(waits_on(hard, soft, k, x) && tq[e - 1] == x);
                }
            }
        } else {
            if h > 0 {
                assert(tq[h - 1] == oq[h - 1]);
                assert(o.placed@[oq[h - 1] as int]);
                assert(o.round_of@[oq[h - 1] as int] <= o.round);
                assert(!t.placed@[k]) by {
                    assert(!o.queued@[k]);
                    if o.placed@[k] {
                        let r = choose|r: int| 0 <= r < o.head && oq[r] == k;
                        assert(o.queued@[oq[r] as int]);
                    }
                }
            }
        }
    }
}

/// Ends a round: queues the systems whose constraints are all met. Returns
/// `false` when none could be queued, else opens the batch of a new round.
fn end_round(
    st: &mut OrderState,
    ss: &Vec<ToBePlacedSystem>,
    hard: &Vec<DedupedUniqueIds>,
    soft: &Vec<DedupedUniqueIds>,
    conflicts: &Vec<Option<Conflict>>,
    batches: &mut Batches,
) -> (cont: bool)
    requires
        old(st).inv(ss@, hard@, soft@, conflicts@, *old(batches)),
        old(st).inv_pack(ss@),
        old(st).inv_rank(hard@, soft@, ss@.len() as int),
        old(st).inv_fifo(hard@, soft@),
        old(st).head == old(st).queue@.len(),
    ensures
        final(st).inv(ss@, hard@, soft@, conflicts@, *final(batches)),
        final(st).inv_pack(ss@),
        final(st).inv_rank(hard@, soft@, ss@.len() as int),
        final(st).inv_fifo(hard@, soft@),
        final(batches).workload_run_if == old(batches).workload_run_if,
        !cont ==> final(st).head == final(st).queue@.len(),
        !cont ==> forall|k: int| 0 <= k < ss@.len() && !final(st).queued@[k] ==>
            !#[trigger] ready(hard@, soft@, k, final(st).placed@, final(st).round_of@, false, final(st).round),
        cont ==> final(st).queue@.len() > old(st).queue@.len(),
{
    let ghost o = *st;
    let ghost ob = *batches;
    enqueue_ready(hard, soft, &st.placed, &st.round_of, false, st.round, &mut st.queued, &mut st.queue);
    proof {
        assert forall|p: int| 0 <= p < o.queue@.len() implies #[trigger] st.queue@[p] == o.queue@[p] by {
            assert(st.queue@.subrange(0, o.queue@.len() as int)[p] == st.queue@[p]);
        }
    }
    if st.head == st.queue.len() {
        proof {
            assert(st.queue@ =~= o.queue@);
            assert forall|k: int| 0 <= k < ss@.len() implies st.queued@[k] == o.queued@[k] by {
                if st.queued@[k] {
                    let p = choose|p: int| 0 <= p < st.queue@.len() && st.queue@[p] == k;
                    assert(o.queue@[p] == k);
                }
            }
            assert(st.queued@ =~= o.queued@);
            lemma_inv_frame(o, *st, ss@, hard@, soft@, conflicts@, *batches);
            assert(st.inv_pack(ss@)) by {
                reveal(OrderState::inv_pack);
            }
            assert(st.inv_rank(hard@, soft@, ss@.len() as int)) by {
                reveal(OrderState::inv_rank);
            }
            assert(st.inv_fifo(hard@, soft@)) by {
                reveal(OrderState::inv_fifo);
            }
        }
        return false;
    }
    batches.parallel.push((None, Vec::new()));
    batches.parallel_run_if.push((NO_RUN_IF, Vec::new()));
    st.infos.push(BatchInfo::new());
    let qlen = st.queue.len();
    assert(st.round <= o.queue@.len() < qlen);
    st.round += 1;
    let nl = st.infos.len();
    st.rsb = Ghost((nl - 1) as usize);
    st.msingle = Ghost(None);
    st.mlist = Ghost(Seq::empty());
    st.members = Ghost(st.members@.push((None, Seq::empty())));
    let ghost nn = ss@.len();
    let ghost hh = o.head as int;
    st.enq = Ghost(Seq::new(nn, |i: int| if !o.queued@[i] && st.queued@[i] { hh } else { o.enq@[i] }));
    proof {
        assert(o.enq@.len() == nn) by {
            reveal(OrderState::inv_fifo);
        }
        lemma_new_round_fifo(o, *st, nn as int, hard@, soft@);
        lemma_new_round(o, *st, ss@, hard@, soft@, conflicts@, ob, *batches);
        lemma_new_round_rank_pack(o, *st, ss@, hard@, soft@, ss@.len() as int);
    }
    true
}

#[verifier::rlimit(50)]
proof fn lemma_stuck(
    hard: Seq<DedupedUniqueIds>,
    soft: Seq<DedupedUniqueIds>,
    placed: Seq<bool>,
    round_of: Seq<usize>,
    round: usize,
    fin: Seq<bool>,
)
    requires
        placed.len() == fin.len(),
        constraints_wf(hard, fin.len() as int),
        constraints_wf(soft, fin.len() as int),
        forall|k: int| 0 <= k < fin.len() ==> (placed[k] <==> fin[k]),
        forall|k: int| 0 <= k < fin.len() && !fin[k] ==> !#[trigger] ready(hard, soft, k, placed, round_of, false, round),
        exists|k: int| 0 <= k < fin.len() && !fin[k],
    ensures
        stuck(hard, soft, fin),
{
    let n = fin.len();
    assert forall|k: int| 0 <= k < n && !fin[k] implies
        exists|x: usize| #[trigger] waits_on(hard, soft, k, x) && x < n && !fin[x as int] by {
        let x = lemma_stuck_one(hard, soft, placed, round_of, round, fin, k);
    }
}

proof fn lemma_stuck_one(
    hard: Seq<DedupedUniqueIds>,
    soft: Seq<DedupedUniqueIds>,
    placed: Seq<bool>,
    round_of: Seq<usize>,
    round: usize,
    fin: Seq<bool>,
    k: int,
) -> (x: usize)
    requires
        placed.len() == fin.len(),
        constraints_wf(hard, fin.len() as int),
        constraints_wf(soft, fin.len() as int),
        forall|j: int| 0 <= j < fin.len() ==> (placed[j] <==> fin[j]),
        0 <= k < fin.len(),
        !ready(hard, soft, k, placed, round_of, false, round),
    ensures
        waits_on(hard, soft, k, x) && x < fin.len() && !fin[x as int],
{
    let n = fin.len();
    if !all_placed(soft[k], placed) {
        let x = choose|x: usize| soft[k].has(x) && !(x < n && placed[x as int]);
        assert(x < n);
        assert(placed[x as int] == fin[x as int]);
        x
    } else {
        let x = choose|x: usize| hard[k].has(x) && !(x < n && placed[x as int]);
        assert(x < n);
        assert(placed[x as int] == fin[x as int]);
        x
    }
}

/// The placed systems can be ranked so that each waits only on placed systems of a lower
/// rank.
pub open spec fn placed_in_order(hard: Seq<DedupedUniqueIds>, soft: Seq<DedupedUniqueIds>, placed: Seq<bool>, rank: Seq<nat>) -> bool {
    &&& rank.len() == placed.len()
    &&& forall|k: int, x: usize| 0 <= k < placed.len() && placed[k] && #[trigger] waits_on(hard, soft, k, x)
            ==> x < placed.len() && placed[x as int] && rank[x as int] < rank[k]
}

/// When the placed systems are ranked, every set of systems each waiting on another of the
/// set lies among the unplaced systems: the unplaced ones are the largest such set.
pub proof fn law_unplaced_hold_every_cycle(
    hard: Seq<DedupedUniqueIds>,
    soft: Seq<DedupedUniqueIds>,
    placed: Seq<bool>,
    rank: Seq<nat>,
    waiting: Seq<bool>,
)
    requires
        placed_in_order(hard, soft, placed, rank),
        waiting.len() == placed.len(),
        forall|k: int| 0 <= k < waiting.len() && waiting[k] ==>
            exists|x: usize| #[trigger] waits_on(hard, soft, k, x) && x < waiting.len() && waiting[x as int],
    ensures
        forall|k: int| 0 <= k < waiting.len() && waiting[k] ==> !placed[k],
{
    assert forall|k: int| 0 <= k < waiting.len() && waiting[k] implies !placed[k] by {
        lemma_no_placed_waiting(hard, soft, placed, rank, waiting, k);
    }
}

proof fn lemma_no_placed_waiting(
    hard: Seq<DedupedUniqueIds>,
    soft: Seq<DedupedUniqueIds>,
    placed: Seq<bool>,
    rank: Seq<nat>,
    waiting: Seq<bool>,
    k: int,
)
    requires
        placed_in_order(hard, soft, placed, rank),
        waiting.len() == placed.len(),
        forall|k: int| 0 <= k < waiting.len() && waiting[k] ==>
            exists|x: usize| #[trigger] waits_on(hard, soft, k, x) && x < waiting.len() && waiting[x as int],
        0 <= k < waiting.len(),
    ensures
        !(waiting[k] && placed[k]),
    decreases rank[k],
{
    if waiting[k] && placed[k] {
        let x = choose|x: usize| #[trigger] waits_on(hard, soft, k, x) && x < waiting.len() && waiting[x as int];
        lemma_no_placed_waiting(hard, soft, placed, rank, waiting, x as int);
    }
}

/// The systems placed so far, ranked by their position in the queue.
proof fn lemma_placed_ranked(
    st: OrderState,
    ss: Seq<ToBePlacedSystem>,
    hard: Seq<DedupedUniqueIds>,
    soft: Seq<DedupedUniqueIds>,
    conflicts: Seq<Option<Conflict>>,
    batches: Batches,
) -> (rank: Seq<nat>)
    requires
        st.inv(ss, hard, soft, conflicts, batches),
        st.head == st.queue@.len(),
    ensures
        placed_in_order(hard, soft, st.queued@, rank),
{
    reveal(OrderState::inv_placed);
    reveal(OrderState::inv_done);
    let n = ss.len() as int;
    let q = st.queue@;
    let rank = Seq::new(n as nat, |k: int| (choose|p: int| 0 <= p < q.len() && q[p] == k) as nat);
    assert forall|k: int| 0 <= k < n && st.queued@[k] implies exists|p: int| 0 <= p < q.len() && q[p] == k by {}
    assert forall|k: int, x: usize| 0 <= k < n && st.queued@[k] && #[trigger] waits_on(hard, soft, k, x)
        implies x < n && st.queued@[x as int] && rank[x as int] < rank[k] by {
        let p = choose|p: int| 0 <= p < q.len() && q[p] == k;
        assert(rank[k] == p);
        if hard[q[p] as int].has(x) {
            let r = choose|r: int| 0 <= r < p && q[r] == x;
            assert(q[r] < n && st.queued@[q[r] as int]);
            let r2 = choose|r2: int| 0 <= r2 < q.len() && q[r2] == x as int;
            assert(r2 == r);
        } else {
            assert(soft[q[p] as int].has(x));
            let r = choose|r: int| 0 <= r < p && q[r] == x;
            assert(q[r] < n && st.queued@[q[r] as int]);
            let r2 = choose|r2: int| 0 <= r2 < q.len() && q[r2] == x as int;
            assert(r2 == r);
        }
    }
    rank
}

/// The names of the systems among the first `k` that are not placed, in order.
pub open spec fn unplaced_names(ss: Seq<ToBePlacedSystem>, placed: Seq<bool>, k: int) -> Seq<LabelView>
    decreases k,
{
    if k <= 0 {
        Seq::empty()
    } else if !placed[k - 1] {
        unplaced_names(ss, placed, k - 1).push(ss[k - 1].display_name@)
    } else {
        unplaced_names(ss, placed, k - 1)
    }
}

/// Names of the systems left unplaced.
#[verifier::rlimit(100)]
#[verifier::spinoff_prover]
fn cycle_names(
    st: &OrderState,
    ss: &Vec<ToBePlacedSystem>,
    hard: &Vec<DedupedUniqueIds>,
    soft: &Vec<DedupedUniqueIds>,
) -> (names: Vec<Label>)
    requires
        st.placed@.len() == ss@.len(),
        st.round_of@.len() == ss@.len(),
        queue_wf(st.queue@, st.queued@, ss@.len() as int),
        st.queue@.len() < ss@.len(),
        constraints_wf(hard@, ss@.len() as int),
        constraints_wf(soft@, ss@.len() as int),
        forall|k: int| 0 <= k < ss@.len() ==> (st.placed@[k] <==> st.queued@[k]),
        forall|k: int| 0 <= k < ss@.len() && !st.queued@[k] ==>
            !#[trigger] ready(hard@, soft@, k, st.placed@, st.round_of@, false, st.round),
    ensures
        stuck(hard@, soft@, st.queued@),
        names@.len() > 0,
        label_views(names@) == unplaced_names(ss@, st.queued@, ss@.len() as int),
{
    let n = ss.len();
    let ghost fin = st.queued@;
    proof {
        lemma_some_unqueued(st.queue@, st.queued@, n as int);
        lemma_stuck(hard@, soft@, st.placed@, st.round_of@, st.round, fin);
    }
    let mut names: Vec<Label> = Vec::new();
    let mut k: usize = 0;
    let mut first: usize = n;
    while k < n
        invariant
            n == ss@.len(),
            st.queued@ == fin,
            fin.len() == n,
            k <= n,
            first <= n,
            first < n <==> names@.len() > 0,
            first < n ==> !fin[first as int] && first < k,
            label_views(names@) == unplaced_names(ss@, fin, k as int),
            forall|j: int| 0 <= j < k && !fin[j] ==> first < n,
        decreases n - k,
    {
        if !st.queued[k] {
            let ghost before = names@;
            names.push(ss[k].display_name.dyn_clone());
            if first == n {
                first = k;
            }
            assert(label_views(names@) =~= label_views(before).push(ss@[k as int].display_name@));
        }
        k += 1;
    }
    proof {
        let kk = choose|kk: int| 0 <= kk < n && !fin[kk];
        assert(first < n);
    }
    names
}

proof fn lemma_finish(
    st: &OrderState,
    ss: Seq<ToBePlacedSystem>,
    hard: Seq<DedupedUniqueIds>,
    soft: Seq<DedupedUniqueIds>,
    conflicts: Seq<Option<Conflict>>,
    batches: Batches,
)
    requires
        st.inv(ss, hard, soft, conflicts, batches),
        st.head == st.queue@.len(),
        st.queue@.len() == ss.len(),
    ensures
        schedule_ok(ss, hard, soft, st.queue@, st.batch_of@),
        sequential_ok(ss, st.queue@, batches),
        forall|x: int| 0 <= x < ss.len() ==> (#[trigger] st.batch_of@[x]) < st.infos@.len(),
        parallel_batches(ss, st.queue@, st.batch_of@, st.infos@, batches),
{
    reveal(OrderState::inv_placed);
    reveal(OrderState::inv_rounds);
    reveal(OrderState::inv_monotone);
    reveal(OrderState::inv_done);
    reveal(OrderState::inv_no_conflict);
    reveal(sequential_ok);
    let n = ss.len();
    let queue = st.queue@;
    assert(queue.subrange(0, n as int) =~= queue);
    assert forall|k: int| 0 <= k < n implies st.placed@[k] by {
        lemma_all_queued(queue, st.queued@, n as int, k);
        let p = choose|p: int| 0 <= p < n && queue[p] == k;
        assert(exists|p: int| 0 <= p < st.head && queue[p] == k);
    }
    assert forall|x: int| 0 <= x < n implies (#[trigger] st.batch_of@[x]) < st.infos@.len() by {
        assert(st.placed@[x]);
    }
    assert(st.placed@ =~= all_placed_flags(n)) by {
        assert forall|k: int| 0 <= k < n implies st.placed@[k] == all_placed_flags(n)[k] by {}
    }
    reveal(OrderState::inv_parallel);
    let members = st.members@;
    assert(forall|l: int| 0 <= l < st.infos@.len() ==> #[trigger] batch_ok(ss, all_placed_flags(n), st.batch_of@, batches, st.infos@[l], members[l], l));
    assert(forall|l: int| 0 <= l < st.infos@.len() ==> #[trigger] members_in_order(st.queue@, members[l].1));
    assert(members.len() == st.infos@.len());
    assert forall|k: int, x: usize| 0 <= k < n && #[trigger] hard[k].has(x) implies
        precedes(queue, x, k as usize) && st.batch_of@[x as int] < st.batch_of@[k] by {
        lemma_all_queued(queue, st.queued@, n as int, k);
        let p = choose|p: int| 0 <= p < n && queue[p] == k;
        assert(hard[queue[p] as int].has(x));
        let q = choose|q: int| 0 <= q < p && queue[q] == x;
    }
    assert forall|k: int, x: usize| 0 <= k < n && #[trigger] soft[k].has(x) implies precedes(queue, x, k as usize) by {
        lemma_all_queued(queue, st.queued@, n as int, k);
        let p = choose|p: int| 0 <= p < n && queue[p] == k;
        assert(soft[queue[p] as int].has(x));
        let q = choose|q: int| 0 <= q < p && queue[q] == x;
    }
}

/// Once every system is placed, the rounds are ranked and the packing holds for the whole
/// order.
proof fn lemma_finish_pack(st: OrderState, ss: Seq<ToBePlacedSystem>, hard: Seq<DedupedUniqueIds>, soft: Seq<DedupedUniqueIds>, n: int)
    requires
        ss.len() == n,
        st.inv_pack(ss),
        st.inv_rank(hard, soft, n),
        st.head == st.queue@.len(),
        st.queue@.len() == n,
        queue_wf(st.queue@, st.queued@, n),
        st.round_of@.len() == n,
    ensures
        rounds_ranked(hard, soft, st.round_of@, n),
        greedy_prefix(ss, st.queue@, along(st.queue@, st.batch_of@), along(st.queue@, st.round_of@), n),
{
    reveal(OrderState::inv_pack);
    reveal(OrderState::inv_rank);
    let q = st.queue@;
    assert forall|k: int| 0 <= k < n implies #[trigger] rank_fits(hard, soft, st.round_of@, k) by {
        lemma_all_queued(q, st.queued@, n, k);
        let p = choose|p: int| 0 <= p < n && q[p] == k;
        assert(rank_fits(hard, soft, st.round_of@, q[p] as int));
    }
    assert forall|p: int| 0 <= p < n implies st.bseq@[p] == along(q, st.batch_of@)[p] && st.rseq@[p] == along(q, st.round_of@)[p] by {
        assert(st.bseq@[p] == st.batch_of@[q[p] as int]);
    }
    assert(st.bseq@ =~= along(q, st.batch_of@));
    assert(st.rseq@ =~= along(q, st.round_of@));
}

/// Once every system is placed, the queue tells how each was taken.
proof fn lemma_finish_fifo(st: OrderState, hard: Seq<DedupedUniqueIds>, soft: Seq<DedupedUniqueIds>, n: int)
    requires
        st.inv_fifo(hard, soft),
        st.inv_placed(n),
        st.head == st.queue@.len(),
        st.queue@.len() == n,
        queue_wf(st.queue@, st.queued@, n),
        st.placed@.len() == n,
    ensures
        taken_in_order(hard, soft, st.queue@, st.round_of@, st.enq@),
{
    reveal(OrderState::inv_fifo);
    reveal(OrderState::inv_placed);
    let q = st.queue@;
    assert forall|k: int| 0 <= k < n implies #[trigger] st.round_at(k) == st.round_of@[k] as int by {
        lemma_all_queued(q, st.queued@, n, k);
        let p = choose|p: int| 0 <= p < n && q[p] == k;
        assert(exists|p2: int| 0 <= p2 < st.head && q[p2] == k);
    }
    assert forall|p: int, r: int| #![trigger q[p], q[r]] 0 <= p < n && st.enq@[q[p] as int] <= r < n implies
        st.round_of@[q[r] as int] >= st.round_of@[q[p] as int] by {
        assert(st.round_at(q[p] as int) == st.round_of@[q[p] as int]);
    }
    assert forall|p: int| 0 <= p < n implies #[trigger] queued_on_time(hard, soft, q, st.enq@, st.round_of@, q[p] as int, st.round_of@[q[p] as int] as int) by {
        assert(st.round_at(q[p] as int) == st.round_of@[q[p] as int]);
        assert(queued_on_time(hard, soft, q, st.enq@, st.round_of@, q[p] as int, st.round_at(q[p] as int)));
    }
}

proof fn lemma_all_queued(queue: Seq<usize>, queued: Seq<bool>, n: int, k: int)
    requires
        queue_wf(queue, queued, n),
        queue.len() == n,
        0 <= k < n,
    ensures
        exists|p: int| 0 <= p < n && queue[p] == k,
{
    if !queued[k] {
        let qi = queue.map_values(|x: usize| x as int);
        assert forall|p: int, q: int| 0 <= p < qi.len() && 0 <= q < qi.len() && p != q implies qi[p] != qi[q] by {
            if p < q {
                assert(queue[p] != queue[q]);
            } else {
                assert(queue[q] != queue[p]);
            }
        }
        qi.unique_seq_to_set();
        let range = vstd::set_lib::set_int_range(0, n);
        vstd::set_lib::lemma_int_range(0, n);
        assert forall|x: int| qi.to_set().contains(x) implies range.remove(k).contains(x) by {
            let p = choose|p: int| 0 <= p < qi.len() && qi[p] == x;
            assert(queue[p] < n);
            assert(queued[queue[p] as int]);
        }
        vstd::set_lib::lemma_len_subset(qi.to_set(), range.remove(k));
        assert(false);
    }
}

/// Places the systems in batches with Kahn's algorithm.
///
/// A system is queued once the systems it must follow are placed: those of
/// its hard constraints in an earlier round, those of its soft constraints at
/// any time. Queued systems are placed in order, each in the latest batch
/// unless its borrows conflict with a system there. Each round opens a new batch.
pub fn order_systems(
    ss: &Vec<ToBePlacedSystem>,
    hard: &Vec<DedupedUniqueIds>,
    soft: &Vec<DedupedUniqueIds>,
    conflicts: &Vec<Option<Conflict>>,
    batches: &mut Batches,
) -> (r: Result<(Vec<BatchInfo>, Vec<usize>, Vec<usize>), AddWorkload>)
    requires
        constraints_wf(hard@, ss@.len() as int),
        constraints_wf(soft@, ss@.len() as int),
        conflicts@.len() == ss@.len(),
        old(batches).parallel@.len() == 0,
        old(batches).parallel_run_if@.len() == 0,
        old(batches).sequential@.len() == 0,
        old(batches).sequential_run_if@.len() == 0,
        old(batches).systems_run_if@.len() == 0,
    ensures
        final(batches).workload_run_if == old(batches).workload_run_if,
        match r {
            Ok((infos, order, batch_of)) => {
                &&& schedule_ok(ss@, hard@, soft@, order@, batch_of@)
                &&& sequential_ok(ss@, order@, *final(batches))
                &&& final(batches).parallel@.len() == infos@.len()
                &&& final(batches).parallel_run_if@.len() == infos@.len()
                &&& forall|x: int| 0 <= x < ss@.len() ==> (#[trigger] batch_of@[x]) < infos@.len()
                &&& parallel_batches(ss@, order@, batch_of@, infos@, *final(batches))
                &&& exists|round_of: Seq<usize>, e: Seq<int>| rounds_ranked(hard@, soft@, round_of, ss@.len() as int)
                    && greedy_prefix(ss@, order@, along(order@, batch_of@), along(order@, round_of), ss@.len() as int)
                    && taken_in_order(hard@, soft@, order@, round_of, e)
            },
            Err(AddWorkload::ImpossibleRequirements(ImpossibleRequirements::Cycle(names))) => {
                exists|placed: Seq<bool>, rank: Seq<nat>| placed.len() == ss@.len() && stuck(hard@, soft@, placed)
                    && placed_in_order(hard@, soft@, placed, rank)
                    && names@.len() > 0
                    && label_views(names@) == unplaced_names(ss@, placed, ss@.len() as int)
            },
            Err(_) => false,
        },
{
    let n = ss.len();
    if n == 0 {
        proof {
            reveal(sequential_ok);
            let members = Seq::<(Option<usize>, Seq<usize>)>::empty();
            let e = Seq::<BatchInfo>::empty();
            assert(forall|l: int| 0 <= l < e.len() ==> #[trigger] batch_ok(ss@, all_placed_flags(ss@.len()), Seq::<usize>::empty(), *batches, e[l], members[l], l));
            assert(members.len() == e.len());
            assert(parallel_batches(ss@, Seq::<usize>::empty(), Seq::<usize>::empty(), e, *batches));
            let r0 = Seq::<usize>::empty();
            assert(rounds_ranked(hard@, soft@, r0, 0));
            assert(greedy_prefix(ss@, Seq::<usize>::empty(), along(Seq::<usize>::empty(), Seq::<usize>::empty()), along(Seq::<usize>::empty(), r0), 0));
            assert(taken_in_order(hard@, soft@, Seq::<usize>::empty(), r0, Seq::<int>::empty()));
        }
        return Ok((Vec::new(), Vec::new(), Vec::new()));
    }
    let mut queued: Vec<bool> = Vec::new();
    let mut placed: Vec<bool> = Vec::new();
    let mut round_of: Vec<usize> = Vec::new();
    let mut batch_of: Vec<usize> = Vec::new();
    let mut k: usize = 0;
    while k < n
        invariant
            k <= n,
            queued@.len() == k && placed@.len() == k && round_of@.len() == k && batch_of@.len() == k,
            forall|j: int| 0 <= j < k ==> !queued@[j] && !placed@[j],
        decreases n - k,
    {
        queued.push(false);
        placed.push(false);
        round_of.push(0);
        batch_of.push(0);
        k += 1;
    }
    let mut st = OrderState {
        queued,
        placed,
        round_of,
        batch_of,
        queue: Vec::new(),
        head: 0,
        round: 0,
        infos: Vec::new(),
        rsb: Ghost(0),
        msingle: Ghost(None),
        mlist: Ghost(Seq::empty()),
        members: Ghost(Seq::<(Option<usize>, Seq<usize>)>::empty().push((None, Seq::<usize>::empty()))),
        bseq: Ghost(Seq::empty()),
        rseq: Ghost(Seq::empty()),
        enq: Ghost(Seq::new(n as nat, |i: int| 0int)),
    };
    enqueue_ready(hard, soft, &st.placed, &st.round_of, false, st.round, &mut st.queued, &mut st.queue);

    st.infos.push(BatchInfo::new());
    batches.parallel.push((None, Vec::new()));
    batches.parallel_run_if.push((NO_RUN_IF, Vec::new()));
    proof {
        assert forall|p: int| 0 <= p < st.queue@.len() implies all_placed_before(hard@[st.queue@[p] as int], st.placed@, st.round_of@, st.round) by {
            let k = st.queue@[p] as int;
            assert(ready(hard@, soft@, k, st.placed@, st.round_of@, false, st.round));
            assert forall|x: usize| #[trigger] hard@[k].has(x) implies x < st.placed@.len() && st.placed@[x as int] && st.round_of@[x as int] < st.round by {
                assert(x < n);
                assert(!st.placed@[x as int]);
            }
        }
        reveal(OrderState::inv_placed);
        reveal(OrderState::inv_rounds);
        reveal(OrderState::inv_monotone);
        reveal(OrderState::inv_queued);
        reveal(OrderState::inv_done);
        reveal(OrderState::inv_no_conflict);
        reveal(OrderState::inv_parallel);
        reveal(last_batch_ok);
        reveal(sequential_ok);
        assert(batch_ok(ss@, st.placed@, st.batch_of@, *batches, st.infos@[0], st.members@[0], 0));
        assert(st.inv_parallel(ss@, *batches));
        assert(st.queue@.subrange(0, 0) =~= Seq::<usize>::empty());
        assert(n > 0);
        assert(constraints_wf(hard@, n as int));
        assert(st.placed@.len() == n);
        assert(queue_wf(st.queue@, st.queued@, n as int));
        assert(st.round <= st.queue@.len());
        assert(st.infos@.len() >= 1);
        assert(batches.parallel@.len() == st.infos@.len());
        assert(st.rsb@ < st.infos@.len());
        assert(st.inv_basic(ss@, hard@, soft@, conflicts@, *batches));
        assert(st.inv_placed(ss@.len() as int));
        assert(st.inv_rounds(ss@.len() as int));
        assert(st.inv_monotone());
        assert(st.inv_queued(hard@, soft@));
        assert(st.inv_done(hard@, soft@));
        assert(st.inv_no_conflict(ss@));
        assert(last_batch_ok(ss@, st.infos@[st.infos@.len() - 1], st.placed@, st.batch_of@, (st.infos@.len() - 1) as usize, st.msingle@, st.mlist@));
        assert(sequential_ok(ss@, st.queue@.subrange(0, st.head as int), *batches));
    }
    assert(st.inv_pack(ss@)) by {
        reveal(OrderState::inv_pack);
    }
    assert(st.inv_rank(hard@, soft@, n as int)) by {
        reveal(OrderState::inv_rank);
        assert forall|k: int| 0 <= k < n && !st.queued@[k] implies !#[trigger] ready(hard@, soft@, k, st.placed@, st.round_of@, true, st.round) by {
            assert(!ready(hard@, soft@, k, st.placed@, st.round_of@, false, st.round));
        }
    }
    assert(st.inv_fifo(hard@, soft@)) by {
        reveal(OrderState::inv_fifo);
        let q = st.queue@;
        assert forall|p: int, x: usize| 0 <= p < q.len() && #[trigger] waits_on(hard@, soft@, q[p] as int, x) implies
            exists|r: int| 0 <= r < st.enq@[q[p] as int] && q[r] == x by {
            assert(ready(hard@, soft@, q[p] as int, st.placed@, st.round_of@, false, st.round));
            assert(x < n);
            assert(!st.placed@[x as int]);
        }
        assert forall|p: int, r: int| #![trigger q[p], q[r]] 0 <= p < r < q.len() implies comes_first(st.enq@, q[p] as int, q[r] as int) by {
            assert(q[p] < n && q[r] < n);
        }
        assert forall|p: int| 0 <= p < q.len() implies 0 <= #[trigger] st.enq@[q[p] as int] <= p && st.enq@[q[p] as int] <= st.head by {
            assert(q[p] < n);
        }
        assert forall|p: int| 0 <= p < q.len() implies #[trigger] queued_on_time(hard@, soft@, q, st.enq@, st.round_of@, q[p] as int, st.round_at(q[p] as int)) by {
            assert(q[p] < n);
        }
    }

    loop
        invariant
            n == ss@.len(),
            st.inv(ss@, hard@, soft@, conflicts@, *batches),
            st.inv_pack(ss@),
            st.inv_rank(hard@, soft@, n as int),
            st.inv_fifo(hard@, soft@),
            batches.workload_run_if == old(batches).workload_run_if,
        ensures
            st.inv(ss@, hard@, soft@, conflicts@, *batches),
            st.inv_pack(ss@),
            st.inv_rank(hard@, soft@, n as int),
            st.inv_fifo(hard@, soft@),
            batches.workload_run_if == old(batches).workload_run_if,
            st.head == st.queue@.len(),
            forall|k: int| 0 <= k < n && !st.queued@[k] ==> !#[trigger] ready(hard@, soft@, k, st.placed@, st.round_of@, false, st.round),
        decreases n - st.queue@.len(),
    {
        let ghost q0 = st.queue@.len();
        while st.head < st.queue.len()
            invariant
                n == ss@.len(),
                st.queue@.len() >= q0,
                st.inv(ss@, hard@, soft@, conflicts@, *batches),
                st.inv_pack(ss@),
                st.inv_rank(hard@, soft@, n as int),
                st.inv_fifo(hard@, soft@),
                batches.workload_run_if == old(batches).workload_run_if,
            decreases n - st.head,
        {
            place_next(&mut st, ss, hard, soft, conflicts, batches);
        }
        if !end_round(&mut st, ss, hard, soft, conflicts, batches) {
            break;
        }
    }

    if st.queue.len() < n {
        let names = cycle_names(&st, ss, hard, soft);
        proof {
            let rank = lemma_placed_ranked(st, ss@, hard@, soft@, conflicts@, *batches);
            assert(st.queued@.len() == ss@.len());
        }
        return Err(AddWorkload::ImpossibleRequirements(ImpossibleRequirements::Cycle(names)));
    }
    let ghost fin_batches = *batches;
    proof {
        lemma_finish(&st, ss@, hard@, soft@, conflicts@, fin_batches);
        lemma_finish_pack(st, ss@, hard@, soft@, n as int);
        lemma_finish_fifo(st, hard@, soft@, n as int);
    }
    Ok((st.infos, st.queue, st.batch_of))
}

} // verus!
