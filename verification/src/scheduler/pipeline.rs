//! From a workload to stored batches: registers the systems, checks the requirements,
//! gathers the ordering constraints and orders the systems.
use crate::error::{AddWorkload, ImpossibleRequirements};
use crate::scheduler::batches::Batches;
use crate::scheduler::create_workload::{
    constraints_wf, hard_edge, map_after_all_to_after, map_before_all_to_after, map_before_to_after,
    propagate_barriers, propagate_implicit_hard_ordering, propagate_implicit_soft_ordering, soft_edge,
    ToBePlacedSystem,
};
use crate::scheduler::deduped::DedupedUniqueIds;
use crate::scheduler::info::{BatchInfo, Conflict, WorkloadInfo};
use crate::scheduler::label::{label_views, Label, LabelView};
use crate::scheduler::order::{along, greedy_prefix, order_systems, parallel_batches, placed_in_order, rounds_ranked, schedule_ok, sequential_ok, stuck, taken_in_order, unplaced_names};
use crate::scheduler::require::{check_require_after, check_require_before, check_require_in_workload, missing, Requirement};
use crate::scheduler::system::{RunCondition, RunFacts, WorkloadSystem};
use crate::scheduler::workload::Workload;
use crate::scheduler::{workload_index, Scheduler};
use crate::type_id::TypeId;
use vstd::prelude::*;

verus! {

/// `t` is the system `s` as it takes part in the ordering: tagged with its unique id.
pub open spec fn placed_from(s: WorkloadSystem, t: ToBePlacedSystem) -> bool {
    &&& t.display_name == s.display_name
    &&& t.borrow_constraints == s.borrow_constraints
    &&& t.tags@ == s.tags@.push(Label::Unique(s.unique_id))
    &&& t.before_all == s.before_all
    &&& t.after_all == s.after_all
    &&& t.hard_before == s.before
    &&& t.require_in_workload == s.require_in_workload
    &&& t.require_before == s.require_before
    &&& t.require_after == s.require_after
    &&& t.run_if == s.run_if
}

/// `ss` are the `systems` as they take part in the ordering, each pointing at its type in `ids`.
pub open spec fn placed_systems(systems: Seq<WorkloadSystem>, ids: Seq<TypeId>, ss: Seq<ToBePlacedSystem>) -> bool {
    &&& ss.len() == systems.len()
    &&& forall|k: int| 0 <= k < systems.len() ==> #[trigger] placed_from(systems[k], ss[k])
    &&& forall|k: int| 0 <= k < systems.len() ==> (#[trigger] ss[k]).index < ids.len() && ids[ss[k].index as int] == systems[k].type_id
}

/// The storages whose tracking the `systems` need, in order.
pub open spec fn all_tracking(systems: Seq<WorkloadSystem>) -> Seq<TypeId>
    decreases systems.len(),
{
    if systems.len() == 0 {
        Seq::empty()
    } else {
        all_tracking(systems.drop_last()) + systems.last().tracking_to_enable@
    }
}

/// The types of `ids` followed by those of `systems` not among them yet, in order of first occurrence.
pub open spec fn extend_ids(ids: Seq<TypeId>, systems: Seq<WorkloadSystem>) -> Seq<TypeId>
    decreases systems.len(),
{
    if systems.len() == 0 {
        ids
    } else {
        let prev = extend_ids(ids, systems.drop_last());
        if prev.contains(systems.last().type_id) {
            prev
        } else {
            prev.push(systems.last().type_id)
        }
    }
}

/// The names `names` of the types `ids`, followed by the name of the first system of each type
/// of `systems` not among `ids` yet, in order of first occurrence.
pub open spec fn extend_names(ids: Seq<TypeId>, names: Seq<LabelView>, systems: Seq<WorkloadSystem>) -> Seq<LabelView>
    decreases systems.len(),
{
    if systems.len() == 0 {
        names
    } else {
        let prev = extend_names(ids, names, systems.drop_last());
        if extend_ids(ids, systems.drop_last()).contains(systems.last().type_id) {
            prev
        } else {
            prev.push(systems.last().display_name@)
        }
    }
}

/// `new` extends the systems of `old` with those of `systems` seen for the first time, in order.
pub open spec fn registered(old: Scheduler, new: Scheduler, systems: Seq<WorkloadSystem>) -> bool {
    &&& new.wf()
    &&& new.workloads == old.workloads
    &&& new.workloads_info == old.workloads_info
    &&& new.default == old.default
    &&& new.system_ids@ == extend_ids(old.system_ids@, systems)
    &&& label_views(new.system_names@) == extend_names(old.system_ids@, label_views(old.system_names@), systems)
}

/// Position of `t` in `ids`.
fn find_system(ids: &Vec<TypeId>, t: TypeId) -> (r: Option<usize>)
    ensures
        r matches Some(i) ==> i < ids@.len() && ids@[i as int] == t,
        r is None ==> forall|j: int| 0 <= j < ids@.len() ==> ids@[j] != t,
{
    let mut i: usize = 0;
    while i < ids.len()
        invariant
            i <= ids@.len(),
            forall|j: int| 0 <= j < i ==> ids@[j] != t,
        decreases ids@.len() - i,
    {
        if ids[i] == t {
            return Some(i);
        }
        i += 1;
    }
    None
}

/// Registers the systems in the scheduler, each type once, and returns them as they take
/// part in the ordering. The storages whose tracking they need are added to `tracking`.
pub fn insert_systems_in_scheduler(
    systems: Vec<WorkloadSystem>,
    sched: &mut Scheduler,
    tracking: &mut Vec<TypeId>,
) -> (ss: Vec<ToBePlacedSystem>)
    requires
        old(sched).wf(),
    ensures
        registered(*old(sched), *final(sched), systems@),
        placed_systems(systems@, final(sched).system_ids@, ss@),
        final(tracking)@ == old(tracking)@ + all_tracking(systems@),
{
    let ghost all = systems@;
    let ghost s0 = *old(sched);
    let mut rest = systems;
    let total = rest.len();
    let mut ss: Vec<ToBePlacedSystem> = Vec::new();
    let mut i: usize = 0;
    assert(all.subrange(0, 0) =~= Seq::<WorkloadSystem>::empty());
    assert(tracking@ =~= old(tracking)@ + all_tracking(all.subrange(0, 0)));
    while rest.len() > 0
        invariant
            i + rest@.len() == all.len(),
            all.len() == total,
            rest@ == all.subrange(i as int, all.len() as int),
            registered(s0, *sched, all.subrange(0, i as int)),
            placed_systems(all.subrange(0, i as int), sched.system_ids@, ss@),
            tracking@ == old(tracking)@ + all_tracking(all.subrange(0, i as int)),
        decreases rest@.len(),
    {
        let s = rest.remove(0);
        assert(s == all[i as int]);
        let ghost pre = all.subrange(0, i as int);
        let ghost next = all.subrange(0, i + 1);
        assert(next.drop_last() =~= pre);
        let ghost sched0 = *sched;
        let ghost ss0 = ss@;
        let index = match find_system(&sched.system_ids, s.type_id) {
            Some(index) => {
                assert(sched.system_ids@[index as int] == s.type_id);
                index
            },
            None => {
                assert(!sched.system_ids@.contains(s.type_id));
                let name = s.display_name.dyn_clone();
                sched.system_ids.push(s.type_id);
                sched.system_names.push(name);
                assert(label_views(sched.system_names@) =~= label_views(sched0.system_names@).push(s.display_name@));
                sched.system_ids.len() - 1
            },
        };
        let ghost tr0 = tracking@;
        let mut moved_tracking = s.tracking_to_enable;
        tracking.append(&mut moved_tracking);
        let mut tags = s.tags;
        tags.push(Label::Unique(s.unique_id));
        let t = ToBePlacedSystem {
            index,
            display_name: s.display_name,
            borrow_constraints: s.borrow_constraints,
            tags,
            before_all: s.before_all,
            after_all: s.after_all,
            hard_before: s.before,
            require_in_workload: s.require_in_workload,
            require_before: s.require_before,
            require_after: s.require_after,
            run_if: s.run_if,
        };
        ss.push(t);
        proof {
            assert(placed_from(all[i as int], ss@[i as int]));
            assert forall|k: int| 0 <= k < next.len() implies #[trigger] placed_from(next[k], ss@[k]) by {
                if k < i {
                    assert(ss@[k] == ss0[k]);
                    assert(next[k] == pre[k]);
                }
            }
            assert forall|k: int| 0 <= k < next.len() implies (#[trigger] ss@[k]).index < sched.system_ids@.len()
                && sched.system_ids@[ss@[k].index as int] == next[k].type_id by {
                if k < i {
                    assert(ss@[k] == ss0[k]);
                    assert(next[k] == pre[k]);
                    assert(sched.system_ids@[ss@[k].index as int] == sched0.system_ids@[ss@[k].index as int]);
                }
            }
            assert forall|a: int, b: int| 0 <= a < b < sched.system_ids@.len() implies sched.system_ids@[a] != sched.system_ids@[b] by {
                if b == sched0.system_ids@.len() {
                    assert(sched.system_ids@[a] == sched0.system_ids@[a]);
                }
            }
            assert(all_tracking(next) == all_tracking(pre) + all[i as int].tracking_to_enable@);
            assert(tracking@ =~= old(tracking)@ + all_tracking(next));
            assert(rest@ =~= all.subrange(i + 1, all.len() as int));
        }
        i += 1;
    }
    assert(all.subrange(0, i as int) =~= all);
    ss
}

/// Lists of constraints, all empty, for `n` systems.
fn no_constraints(n: usize) -> (sets: Vec<DedupedUniqueIds>)
    ensures
        constraints_wf(sets@, n as int),
        forall|k: int, x: usize| 0 <= k < n ==> !(#[trigger] sets@[k].has(x)),
{
    let mut sets: Vec<DedupedUniqueIds> = Vec::new();
    let mut k: usize = 0;
    while k < n
        invariant
            k <= n,
            sets@.len() == k,
            forall|j: int| 0 <= j < k ==> (#[trigger] sets@[j]).wf() && sets@[j].0@.len() == 0,
        decreases n - k,
    {
        sets.push(DedupedUniqueIds::new());
        k += 1;
    }
    sets
}

/// The first system whose requirements of `kind` are not met.
pub open spec fn first_unmet(ss: Seq<ToBePlacedSystem>, hard: Seq<DedupedUniqueIds>, kind: Requirement, i: int) -> bool {
    &&& 0 <= i < ss.len()
    &&& forall|j: int| 0 <= j < i ==> #[trigger] missing(ss, hard, kind, j).len() == 0
    &&& missing(ss, hard, kind, i).len() > 0
}

/// Every requirement of `kind` is met.
pub open spec fn all_met(ss: Seq<ToBePlacedSystem>, hard: Seq<DedupedUniqueIds>, kind: Requirement) -> bool {
    forall|i: int| 0 <= i < ss.len() ==> #[trigger] missing(ss, hard, kind, i).len() == 0
}

/// `hard` and `soft` hold exactly the constraints of the systems `ss` and the `barriers`.
pub open spec fn constraints_of(ss: Seq<ToBePlacedSystem>, barriers: Seq<usize>, hard: Seq<DedupedUniqueIds>, soft: Seq<DedupedUniqueIds>) -> bool {
    &&& constraints_wf(hard, ss.len() as int)
    &&& constraints_wf(soft, ss.len() as int)
    &&& forall|k: int, x: usize| #![trigger hard[k].has(x)] 0 <= k < ss.len() ==> (hard[k].has(x) <==> hard_edge(ss, barriers, k, x as int))
    &&& forall|k: int, x: usize| #![trigger soft[k].has(x)] 0 <= k < ss.len() ==> (soft[k].has(x) <==> soft_edge(ss, k, x as int))
}

/// The barriers of the workload lie inside its list of systems.
pub open spec fn barriers_wf(w: Workload) -> bool {
    forall|k: int| 0 <= k < w.barriers@.len() ==> #[trigger] w.barriers@[k] <= w.systems@.len()
}

/// The requirements in the workload do not depend on the ordering constraints.
proof fn lemma_in_workload_any(ss: Seq<ToBePlacedSystem>, hard: Seq<DedupedUniqueIds>)
    ensures
        forall|i: int| #[trigger] missing(ss, hard, Requirement::InWorkload, i) == missing(ss, seq![], Requirement::InWorkload, i),
{
    assert forall|i: int| #[trigger] missing(ss, hard, Requirement::InWorkload, i) == missing(ss, seq![], Requirement::InWorkload, i) by {
        assert(crate::scheduler::require::candidates(ss.len() as int, hard, Requirement::InWorkload, i)
            =~= crate::scheduler::require::candidates(ss.len() as int, seq![], Requirement::InWorkload, i));
    }
}

/// `batches_info` and the batches `b` are what ordering the systems `ss` with `barriers` gives.
pub open spec fn ordered_ok(ss: Seq<ToBePlacedSystem>, barriers: Seq<usize>, run_if: Option<RunCondition>, batches_info: Seq<BatchInfo>, b: Batches) -> bool {
    exists|hard: Seq<DedupedUniqueIds>, soft: Seq<DedupedUniqueIds>, order: Seq<usize>, batch_of: Seq<usize>| {
        &&& constraints_of(ss, barriers, hard, soft)
        &&& all_met(ss, hard, Requirement::InWorkload)
        &&& all_met(ss, hard, Requirement::Before)
        &&& all_met(ss, hard, Requirement::After)
        &&& schedule_ok(ss, hard, soft, order, batch_of)
        &&& sequential_ok(ss, order, b)
        &&& b.workload_run_if == run_if
        &&& b.sequential_run_if@.len() == b.sequential@.len()
        &&& batches_info.len() == b.parallel@.len()
        &&& forall|x: int| 0 <= x < ss.len() ==> (#[trigger] batch_of[x]) < batches_info.len()
        &&& parallel_batches(ss, order, batch_of, batches_info, b)
        &&& exists|round_of: Seq<usize>, e: Seq<int>| rounds_ranked(hard, soft, round_of, ss.len() as int)
            && greedy_prefix(ss, order, along(order, batch_of), along(order, round_of), ss.len() as int)
            && taken_in_order(hard, soft, order, round_of, e)
    }
}

/// `e` is the error that ordering the systems `ss` with `barriers` gives.
pub open spec fn ordered_err(ss: Seq<ToBePlacedSystem>, barriers: Seq<usize>, e: AddWorkload) -> bool {
    match e {
        AddWorkload::MissingInWorkload(name, labels) => exists|i: int| {
            &&& first_unmet(ss, seq![], Requirement::InWorkload, i)
            &&& name@ == ss[i].display_name@
            &&& label_views(labels@) == missing(ss, seq![], Requirement::InWorkload, i)
        },
        AddWorkload::MissingBefore(name, labels) => exists|hard: Seq<DedupedUniqueIds>, soft: Seq<DedupedUniqueIds>, i: int| {
            &&& constraints_of(ss, barriers, hard, soft)
            &&& all_met(ss, hard, Requirement::InWorkload)
            &&& first_unmet(ss, hard, Requirement::Before, i)
            &&& name@ == ss[i].display_name@
            &&& label_views(labels@) == missing(ss, hard, Requirement::Before, i)
        },
        AddWorkload::MissingAfter(name, labels) => exists|hard: Seq<DedupedUniqueIds>, soft: Seq<DedupedUniqueIds>, i: int| {
            &&& constraints_of(ss, barriers, hard, soft)
            &&& all_met(ss, hard, Requirement::InWorkload)
            &&& all_met(ss, hard, Requirement::Before)
            &&& first_unmet(ss, hard, Requirement::After, i)
            &&& name@ == ss[i].display_name@
            &&& label_views(labels@) == missing(ss, hard, Requirement::After, i)
        },
        AddWorkload::ImpossibleRequirements(ImpossibleRequirements::Cycle(names)) => exists|hard: Seq<DedupedUniqueIds>, soft: Seq<DedupedUniqueIds>, placed: Seq<bool>, rank: Seq<nat>| {
            &&& constraints_of(ss, barriers, hard, soft)
            &&& all_met(ss, hard, Requirement::InWorkload)
            &&& all_met(ss, hard, Requirement::Before)
            &&& all_met(ss, hard, Requirement::After)
            &&& placed.len() == ss.len()
            &&& stuck(hard, soft, placed)
            &&& placed_in_order(hard, soft, placed, rank)
            &&& names@.len() > 0
            &&& label_views(names@) == unplaced_names(ss, placed, ss.len() as int)
        },
        _ => false,
    }
}

/// `info` and the batches `b` are what ordering the systems of `w`, registered as `ids`, gives.
#[verifier::opaque]
pub open spec fn workload_ok(w: Workload, ids: Seq<TypeId>, info: WorkloadInfo, b: Batches) -> bool {
    &&& info.name@ == w.name@
    &&& exists|ss: Seq<ToBePlacedSystem>| placed_systems(w.systems@, ids, ss) && ordered_ok(ss, w.barriers@, w.run_if, info.batches_info@, b)
}

/// `e` is the error that ordering the systems of `w`, registered as `ids`, gives.
#[verifier::opaque]
pub open spec fn workload_err(w: Workload, ids: Seq<TypeId>, e: AddWorkload) -> bool {
    exists|ss: Seq<ToBePlacedSystem>| placed_systems(w.systems@, ids, ss) && ordered_err(ss, w.barriers@, e)
}

/// Orders the systems of `builder` and stores the batches in the scheduler under the
/// workload's name. The first workload stored becomes the default one.
#[verifier::rlimit(60)]
pub fn create_workload(builder: Workload, sched: &mut Scheduler, tracking: &mut Vec<TypeId>) -> (r: Result<WorkloadInfo, AddWorkload>)
    requires
        old(sched).wf(),
        barriers_wf(builder),
    ensures
        final(sched).wf(),
        workload_index(old(sched).workloads@, builder.name@) is Some <==> r == Err::<WorkloadInfo, AddWorkload>(AddWorkload::AlreadyExists),
        r is Err ==> final(sched).workloads == old(sched).workloads && final(sched).default == old(sched).default,
        final(sched).workloads_info == old(sched).workloads_info,
        r == Err::<WorkloadInfo, AddWorkload>(AddWorkload::AlreadyExists) ==> final(tracking)@ == old(tracking)@,
        r != Err::<WorkloadInfo, AddWorkload>(AddWorkload::AlreadyExists) ==> final(tracking)@ == old(tracking)@ + all_tracking(builder.systems@),
        r is Ok ==> final(sched).workloads@.len() == old(sched).workloads@.len() + 1
            && final(sched).workloads@.subrange(0, old(sched).workloads@.len() as int) == old(sched).workloads@
            && final(sched).workloads@.last().0@ == builder.name@
            && (old(sched).workloads@.len() == 0 ==> final(sched).default@ == builder.name@)
            && (old(sched).workloads@.len() > 0 ==> final(sched).default == old(sched).default),
        r == Err::<WorkloadInfo, AddWorkload>(AddWorkload::AlreadyExists) ==> *final(sched) == *old(sched),
        r != Err::<WorkloadInfo, AddWorkload>(AddWorkload::AlreadyExists) ==> {
            &&& final(sched).system_ids@ == extend_ids(old(sched).system_ids@, builder.systems@)
            &&& label_views(final(sched).system_names@) == extend_names(old(sched).system_ids@, label_views(old(sched).system_names@), builder.systems@)
        },
        match r {
            Ok(info) => workload_ok(builder, final(sched).system_ids@, info, final(sched).workloads@.last().1),
            Err(e) => e == AddWorkload::AlreadyExists || workload_err(builder, final(sched).system_ids@, e),
        },
{
    if sched.find_workload(&builder.name).is_some() {
        return Err(AddWorkload::AlreadyExists);
    }
    let ghost w = builder;
    let Workload { name, tags: _, systems, run_if, before_all: _, after_all: _, overwritten_name: _, require_before: _, require_after: _, barriers } = builder;
    let ss = insert_systems_in_scheduler(systems, sched, tracking);
    let (batches_info, batches) = match order_placed(ss, barriers, run_if) {
        Ok(r) => r,
        Err(err) => {
            assert(workload_err(w, sched.system_ids@, err)) by {
                reveal(workload_err);
            }
            return Err(err);
        },
    };
    let info = WorkloadInfo { name: name.dyn_clone(), batches_info };
    assert(workload_ok(w, sched.system_ids@, info, batches)) by {
        reveal(workload_ok);
    }
    if sched.workloads.len() == 0 {
        sched.default = name.dyn_clone();
    }
    let ghost before = sched.workloads@;
    sched.workloads.push((name, batches));
    assert(sched.workloads@.subrange(0, before.len() as int) =~= before);
    Ok(info)
}

/// Checks the requirements of the systems `ss`, gathers their ordering constraints and
/// orders them.
#[verifier::rlimit(40)]
fn order_placed(ss: Vec<ToBePlacedSystem>, barriers: Vec<usize>, run_if: Option<RunCondition>) -> (r: Result<(Vec<BatchInfo>, Batches), AddWorkload>)
    requires
        forall|k: int| 0 <= k < barriers@.len() ==> #[trigger] barriers@[k] <= ss@.len(),
    ensures
        match r {
            Ok((infos, b)) => ordered_ok(ss@, barriers@, run_if, infos@, b),
            Err(e) => ordered_err(ss@, barriers@, e),
        },
{
    match check_require_in_workload(&ss) {
        Ok(()) => {},
        Err(err) => {
            assert(ordered_err(ss@, barriers@, err));
            return Err(err);
        },
    }
    let n = ss.len();
    let mut hard = no_constraints(n);
    let mut soft = no_constraints(n);
    let mut conflicts: Vec<Option<Conflict>> = Vec::new();
    let mut k: usize = 0;
    while k < n
        invariant
            k <= n,
            conflicts@.len() == k,
        decreases n - k,
    {
        conflicts.push(None);
        k += 1;
    }
    let ghost h0 = hard@;
    propagate_barriers(&mut hard, &barriers);
    let ghost h1 = hard@;
    propagate_implicit_hard_ordering(&ss, &mut hard, &mut conflicts);
    let ghost h2 = hard@;
    propagate_implicit_soft_ordering(&ss, &mut soft);
    map_before_all_to_after(&ss, &mut hard);
    let ghost h3 = hard@;
    map_after_all_to_after(&ss, &mut hard);
    let ghost h4 = hard@;
    map_before_to_after(&ss, &mut hard);
    proof {
        assert forall|k: int, x: usize| #![trigger hard@[k].has(x)] 0 <= k < ss@.len() implies (hard@[k].has(x) <==> hard_edge(ss@, barriers@, k, x as int)) by {
            assert(h4[k].has(x) <==> (h3[k].has(x) || crate::scheduler::create_workload::after_all_edge(ss@, k, x as int)));
            assert(h3[k].has(x) <==> (h2[k].has(x) || crate::scheduler::create_workload::before_all_edge(ss@, x as int, k)));
            assert(h2[k].has(x) <==> (h1[k].has(x) || crate::scheduler::create_workload::implicit_hard_pred(ss@, k) == Some(x as int)));
            assert(h1[k].has(x) <==> (h0[k].has(x) || crate::scheduler::create_workload::barrier_edge(barriers@, k, x as int)));
            assert(!h0[k].has(x));
        }
        assert(constraints_of(ss@, barriers@, hard@, soft@));
    }
    proof {
        lemma_in_workload_any(ss@, hard@);
    }
    match check_require_before(&ss, &hard) {
        Ok(()) => {},
        Err(err) => {
            proof {
                if err is MissingBefore {
                    let name = err->MissingBefore_0;
                    let labels = err->MissingBefore_1;
                    let i = choose|i: int| {
                        &&& 0 <= i < ss@.len()
                        &&& forall|j: int| 0 <= j < i ==> #[trigger] missing(ss@, hard@, Requirement::Before, j).len() == 0
                        &&& missing(ss@, hard@, Requirement::Before, i).len() > 0
                        &&& name@ == ss@[i].display_name@
                        &&& label_views(labels@) == missing(ss@, hard@, Requirement::Before, i)
                    };
                    assert(first_unmet(ss@, hard@, Requirement::Before, i));
                }
            }
            assert(ordered_err(ss@, barriers@, err));
            return Err(err);
        },
    }
    match check_require_after(&ss, &hard) {
        Ok(()) => {},
        Err(err) => {
            proof {
                if err is MissingAfter {
                    let name = err->MissingAfter_0;
                    let labels = err->MissingAfter_1;
                    let i = choose|i: int| {
                        &&& 0 <= i < ss@.len()
                        &&& forall|j: int| 0 <= j < i ==> #[trigger] missing(ss@, hard@, Requirement::After, j).len() == 0
                        &&& missing(ss@, hard@, Requirement::After, i).len() > 0
                        &&& name@ == ss@[i].display_name@
                        &&& label_views(labels@) == missing(ss@, hard@, Requirement::After, i)
                    };
                    assert(first_unmet(ss@, hard@, Requirement::After, i));
                }
            }
            assert(ordered_err(ss@, barriers@, err));
            return Err(err);
        },
    }
    let mut batches = Batches::new();
    batches.workload_run_if = run_if;
    let (batches_info, order, batch_of) = match order_systems(&ss, &hard, &soft, &conflicts, &mut batches) {
        Ok(r) => r,
        Err(err) => {
            assert(ordered_err(ss@, barriers@, err));
            return Err(err);
        },
    };
    proof {
        reveal(sequential_ok);
    }
    Ok((batches_info, batches))
}

/// A workload built on its own, outside of any world.
pub struct ScheduledWorkload {
    pub name: Label,
    /// Type of each system.
    pub system_ids: Vec<TypeId>,
    /// Name of each system.
    pub system_names: Vec<Label>,
    /// Storages whose tracking the systems need.
    pub tracking_to_enable: Vec<TypeId>,
    pub batches: Batches,
}

impl ScheduledWorkload {
    /// The systems that run, in order, in a world described by `facts`.
    pub fn run_with_world(&self, facts: &RunFacts) -> (r: Vec<usize>)
        requires
            self.batches.sequential_run_if@.len() == self.batches.sequential@.len(),
        ensures
            self.batches.workload_run_if matches Some(c) && !c.holds(facts.storages@, facts.custom@) ==> r@.len() == 0,
            !(self.batches.workload_run_if matches Some(c) && !c.holds(facts.storages@, facts.custom@))
                ==> r@ == self.batches.systems_to_run_spec(*facts, self.batches.sequential@.len() as int),
    {
        self.batches.systems_to_run(facts)
    }

    /// The storages whose tracking has to be enabled for this workload.
    pub fn apply_tracking(&self) -> (r: Vec<TypeId>)
        ensures
            r@ == self.tracking_to_enable@,
    {
        let mut r: Vec<TypeId> = Vec::new();
        let mut i: usize = 0;
        while i < self.tracking_to_enable.len()
            invariant
                i <= self.tracking_to_enable@.len(),
                r@ == self.tracking_to_enable@.subrange(0, i as int),
            decreases self.tracking_to_enable@.len() - i,
        {
            r.push(self.tracking_to_enable[i]);
            assert(r@ =~= self.tracking_to_enable@.subrange(0, i + 1));
            i += 1;
        }
        assert(self.tracking_to_enable@.subrange(0, i as int) =~= self.tracking_to_enable@);
        r
    }
}

impl Workload {
    /// Orders the workload's systems and stores it in the scheduler, with its information.
    /// Returns the storages whose tracking the systems need.
    pub fn add_to_world(self, sched: &mut Scheduler) -> (r: Result<Vec<TypeId>, AddWorkload>)
        requires
            old(sched).wf(),
            barriers_wf(self),
        ensures
            final(sched).wf(),
            workload_index(old(sched).workloads@, self.name@) is Some <==> r == Err::<Vec<TypeId>, AddWorkload>(AddWorkload::AlreadyExists),
            r == Err::<Vec<TypeId>, AddWorkload>(AddWorkload::AlreadyExists) ==> *final(sched) == *old(sched),
            r != Err::<Vec<TypeId>, AddWorkload>(AddWorkload::AlreadyExists) ==> {
                &&& final(sched).system_ids@ == extend_ids(old(sched).system_ids@, self.systems@)
                &&& label_views(final(sched).system_names@) == extend_names(old(sched).system_ids@, label_views(old(sched).system_names@), self.systems@)
            },
            r is Err ==> final(sched).workloads == old(sched).workloads && final(sched).workloads_info == old(sched).workloads_info
                && final(sched).default == old(sched).default,
            r matches Err(e) ==> e == AddWorkload::AlreadyExists || workload_err(self, final(sched).system_ids@, e),
            r is Ok ==> {
                &&& final(sched).workloads@.len() == old(sched).workloads@.len() + 1
                &&& final(sched).workloads@.subrange(0, old(sched).workloads@.len() as int) == old(sched).workloads@
                &&& final(sched).workloads@.last().0@ == self.name@
                &&& final(sched).workloads_info@.len() == old(sched).workloads_info@.len() + 1
                &&& final(sched).workloads_info@.subrange(0, old(sched).workloads_info@.len() as int) == old(sched).workloads_info@
                &&& final(sched).workloads_info@.last().0@ == self.name@
                &&& (old(sched).workloads@.len() == 0 ==> final(sched).default@ == self.name@)
                &&& (old(sched).workloads@.len() > 0 ==> final(sched).default == old(sched).default)
                &&& workload_ok(self, final(sched).system_ids@, final(sched).workloads_info@.last().1, final(sched).workloads@.last().1)
            },
            r matches Ok(t) ==> t@ == all_tracking(self.systems@),
    {
        let name = self.name.dyn_clone();
        let mut tracking: Vec<TypeId> = Vec::new();
        let info = create_workload(self, sched, &mut tracking);
        match info {
            Ok(info) => {
                let ghost before = sched.workloads_info@;
                sched.workloads_info.push((name, info));
                assert(sched.workloads_info@.subrange(0, before.len() as int) =~= before);
                assert(tracking@ =~= all_tracking(self.systems@));
                Ok(tracking)
            },
            Err(err) => Err(err),
        }
    }

    /// Orders the workload's systems on their own.
    pub fn build(self) -> (r: Result<(ScheduledWorkload, WorkloadInfo), AddWorkload>)
        requires
            barriers_wf(self),
        ensures
            r matches Err(e) ==> workload_err(self, extend_ids(Seq::empty(), self.systems@), e),
            r matches Ok((sw, info)) ==> {
                &&& sw.name@ == self.name@
                &&& sw.system_ids@ == extend_ids(Seq::empty(), self.systems@)
                &&& label_views(sw.system_names@) == extend_names(Seq::empty(), Seq::empty(), self.systems@)
                &&& sw.tracking_to_enable@ == all_tracking(self.systems@)
                &&& workload_ok(self, sw.system_ids@, info, sw.batches)
            },
    {
        let name = self.name.dyn_clone();
        let mut sched = Scheduler::new();
        assert(label_views(sched.system_names@) =~= Seq::<LabelView>::empty());
        assert(sched.system_ids@ =~= Seq::<TypeId>::empty());
        let mut tracking: Vec<TypeId> = Vec::new();
        let info = create_workload(self, &mut sched, &mut tracking);
        match info {
            Ok(info) => {
                let last = sched.workloads.len() - 1;
                let (_, batches) = sched.workloads.remove(last);
                assert(tracking@ =~= all_tracking(self.systems@));
                Ok((ScheduledWorkload { name, system_ids: sched.system_ids, system_names: sched.system_names, tracking_to_enable: tracking, batches }, info))
            },
            Err(err) => Err(err),
        }
    }
}

} // verus!
