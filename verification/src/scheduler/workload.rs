//! Building workloads: collections of systems with ordering constraints.
use crate::scheduler::label::{label_views, labels_contain, Label, LabelView};
use crate::scheduler::system::{add_deduped, RunCondition, WorkloadSystem};
use crate::error::UniquePresence;
use crate::scheduler::info::same_type_info;
use crate::type_id::TypeId;
use vstd::utf8::encode_utf8;
use vstd::prelude::*;

verus! {

/// Keeps information to create a workload.
///
/// A workload is a collection of systems. They execute as much in parallel as possible,
/// first to last when they cannot be parallelized.
pub struct Workload {
    pub name: Label,
    pub tags: Vec<Label>,
    pub systems: Vec<WorkloadSystem>,
    pub run_if: Option<RunCondition>,
    pub before_all: Vec<Label>,
    pub after_all: Vec<Label>,
    pub overwritten_name: bool,
    pub require_before: Vec<Label>,
    pub require_after: Vec<Label>,
    /// Positions in `systems` where parallelism stops.
    pub barriers: Vec<usize>,
}

/// `s` with its unique id replaced by `id`.
pub open spec fn with_id(s: WorkloadSystem, id: usize) -> WorkloadSystem {
    WorkloadSystem { unique_id: id, ..s }
}

/// `t` is `s` with its unique id moved by `by`.
pub open spec fn shifted(s: Seq<WorkloadSystem>, t: Seq<WorkloadSystem>, by: int) -> bool {
    &&& t.len() == s.len()
    &&& forall|k: int| 0 <= k < s.len() ==> #[trigger] t[k] == with_id(s[k], (s[k].unique_id + by) as usize)
}

/// Unique ids of `s` can all be moved by `by`.
pub open spec fn can_shift(s: Seq<WorkloadSystem>, by: int) -> bool {
    forall|k: int| 0 <= k < s.len() ==> #[trigger] s[k].unique_id + by <= usize::MAX
}

/// The two workloads agree on everything but their systems.
pub open spec fn same_but_systems(a: Workload, b: Workload) -> bool {
    &&& a.name == b.name
    &&& a.tags == b.tags
    &&& a.run_if == b.run_if
    &&& a.before_all == b.before_all
    &&& a.after_all == b.after_all
    &&& a.overwritten_name == b.overwritten_name
    &&& a.require_before == b.require_before
    &&& a.require_after == b.require_after
    &&& a.barriers == b.barriers
}

/// `labels` followed by those of `more` not already present, in order.
pub open spec fn dedup_extend(labels: Seq<LabelView>, more: Seq<LabelView>) -> Seq<LabelView>
    decreases more.len(),
{
    if more.len() == 0 {
        labels
    } else {
        let l = dedup_extend(labels, more.drop_last());
        if l.contains(more.last()) {
            l
        } else {
            l.push(more.last())
        }
    }
}

/// The condition of a system once its workload's condition is propagated into it.
pub open spec fn combined_run_if(system: Option<RunCondition>, workload: Option<RunCondition>) -> Option<RunCondition> {
    match (system, workload) {
        (None, None) => None,
        (None, Some(w)) => Some(w),
        (Some(s), None) => Some(s),
        (Some(s), Some(w)) => Some(RunCondition::And(Box::new(w), Box::new(s))),
    }
}

/// `t` is `s` once the conditions and labels of `w` are propagated into it.
pub open spec fn propagated(s: WorkloadSystem, w: Workload, t: WorkloadSystem) -> bool {
    &&& t.type_id == s.type_id
    &&& t.display_name == s.display_name
    &&& t.borrow_constraints == s.borrow_constraints
    &&& t.tracking_to_enable == s.tracking_to_enable
    &&& t.require_in_workload == s.require_in_workload
    &&& t.before == s.before
    &&& t.unique_id == s.unique_id
    &&& t.run_if == combined_run_if(s.run_if, w.run_if)
    &&& label_views(t.tags@) == label_views(s.tags@) + label_views(w.tags@)
    &&& label_views(t.before_all@) == dedup_extend(label_views(s.before_all@), label_views(w.before_all@))
    &&& label_views(t.after_all@) == dedup_extend(label_views(s.after_all@), label_views(w.after_all@))
    &&& label_views(t.require_before@) == dedup_extend(label_views(s.require_before@), label_views(w.require_before@))
    &&& label_views(t.require_after@) == dedup_extend(label_views(s.require_after@), label_views(w.require_after@))
}

/// Appends the labels of `more` missing from `labels`.
fn extend_deduped(labels: &mut Vec<Label>, more: &Vec<Label>)
    ensures
        label_views(final(labels)@) == dedup_extend(label_views(old(labels)@), label_views(more@)),
{
    let mut i: usize = 0;
    while i < more.len()
        invariant
            i <= more@.len(),
            label_views(labels@) == dedup_extend(label_views(old(labels)@), label_views(more@.subrange(0, i as int))),
        decreases more@.len() - i,
    {
        let ghost before = labels@;
        let ghost prefix = label_views(more@.subrange(0, i + 1));
        assert(prefix.drop_last() =~= label_views(more@.subrange(0, i as int)));
        assert(prefix.last() == more@[i as int]@);
        let added = add_deduped(labels, more[i].dyn_clone());
        proof {
            if added {
                assert(!label_views(before).contains(more@[i as int]@)) by {
                    if label_views(before).contains(more@[i as int]@) {
                        let k = choose|k: int| 0 <= k < label_views(before).len() && label_views(before)[k] == more@[i as int]@;
                        assert(before[k]@ == more@[i as int]@);
                    }
                }
                assert(label_views(labels@) =~= label_views(before).push(more@[i as int]@));
            } else {
                let k = choose|k: int| 0 <= k < before.len() && #[trigger] before[k]@ == more@[i as int]@;
                assert(label_views(before)[k] == more@[i as int]@);
                assert(label_views(labels@) =~= label_views(before));
            }
        }
        i += 1;
    }
    assert(more@.subrange(0, more@.len() as int) =~= more@);
}

/// Appends copies of `more` to `labels`.
fn extend_cloned(labels: &mut Vec<Label>, more: &Vec<Label>)
    ensures
        label_views(final(labels)@) == label_views(old(labels)@) + label_views(more@),
{
    let mut i: usize = 0;
    while i < more.len()
        invariant
            i <= more@.len(),
            label_views(labels@) == label_views(old(labels)@) + label_views(more@.subrange(0, i as int)),
        decreases more@.len() - i,
    {
        let ghost before = labels@;
        labels.push(more[i].dyn_clone());
        assert(label_views(labels@) =~= label_views(before).push(more@[i as int]@));
        assert(label_views(more@.subrange(0, i + 1)) =~= label_views(more@.subrange(0, i as int)).push(more@[i as int]@));
        i += 1;
    }
    assert(more@.subrange(0, more@.len() as int) =~= more@);
}

fn duplicate_run_if(c: &Option<RunCondition>) -> (r: Option<RunCondition>)
    ensures
        r == *c,
{
    match c {
        None => None,
        Some(c) => Some(c.duplicate()),
    }
}

impl Workload {
    /// Creates a new empty workload named `label`.
    pub fn new(label: Label) -> (w: Workload)
        ensures
            w.name@ == label@,
            label_views(w.tags@) == seq![label@],
            w.systems@.len() == 0,
            w.run_if is None,
            w.before_all@.len() == 0,
            w.after_all@.len() == 0,
            w.overwritten_name,
            w.require_before@.len() == 0,
            w.require_after@.len() == 0,
            w.barriers@.len() == 0,
    {
        let name = label.dyn_clone();
        let mut tags: Vec<Label> = Vec::new();
        tags.push(label);
        assert(label_views(tags@) =~= seq![name@]);
        Workload {
            name,
            tags,
            systems: Vec::new(),
            run_if: None,
            before_all: Vec::new(),
            after_all: Vec::new(),
            overwritten_name: true,
            require_before: Vec::new(),
            require_after: Vec::new(),
            barriers: Vec::new(),
        }
    }

    /// A workload of a single system, named by `id` since it has no name of its own.
    pub fn from_system(system: WorkloadSystem, id: u64) -> (w: Workload)
        ensures
            w.name@ == LabelView::Type(id),
            label_views(w.tags@) == seq![LabelView::Type(id)],
            w.systems@ == seq![system],
            w.run_if is None,
            w.before_all@.len() == 0,
            w.after_all@.len() == 0,
            !w.overwritten_name,
            w.require_before@.len() == 0,
            w.require_after@.len() == 0,
            w.barriers@.len() == 0,
    {
        let mut w = Workload::new(Label::of_type(crate::type_id::TypeId(id)));
        w.overwritten_name = false;
        w.systems.push(system);
        w
    }

    /// Moves all systems of `other` into this workload, leaving `other` without systems.
    pub fn append(self, other: &mut Workload) -> (w: Workload)
        requires
            can_shift(old(other).systems@, self.systems@.len() as int),
        ensures
            same_but_systems(w, self),
            w.systems@.len() == self.systems@.len() + old(other).systems@.len(),
            w.systems@.subrange(0, self.systems@.len() as int) == self.systems@,
            shifted(old(other).systems@, w.systems@.subrange(self.systems@.len() as int, w.systems@.len() as int), self.systems@.len() as int),
            same_but_systems(*final(other), *old(other)),
            final(other).systems@.len() == 0,
    {
        let mut w = self;
        let len = w.systems.len();
        let mut moved: Vec<WorkloadSystem> = Vec::new();
        std::mem::swap(&mut moved, &mut other.systems);
        let ghost taken = moved@;
        let total = moved.len();
        let mut i: usize = 0;
        while moved.len() > 0
            invariant
                i + moved@.len() == taken.len(),
                taken.len() == total,
                moved@ == taken.subrange(i as int, taken.len() as int),
                can_shift(taken, len as int),
                w.systems@.len() == len + i,
                w.systems@.subrange(0, len as int) == self.systems@,
                shifted(taken.subrange(0, i as int), w.systems@.subrange(len as int, w.systems@.len() as int), len as int),
                same_but_systems(w, self),
                len == self.systems@.len(),
            decreases moved@.len(),
        {
            let mut s = moved.remove(0);
            assert(s == taken[i as int]);
            s.unique_id = s.unique_id + len;
            let ghost before = w.systems@;
            w.systems.push(s);
            proof {
                assert(w.systems@.subrange(0, len as int) =~= before.subrange(0, len as int));
                let t = w.systems@.subrange(len as int, w.systems@.len() as int);
                let p = taken.subrange(0, i + 1);
                assert forall|k: int| 0 <= k < p.len() implies #[trigger] t[k] == with_id(p[k], (p[k].unique_id + len) as usize) by {
                    if k < i {
                        assert(t[k] == before.subrange(len as int, before.len() as int)[k]);
                        assert(p[k] == taken.subrange(0, i as int)[k]);
                    }
                }
                assert(moved@ =~= taken.subrange(i + 1, taken.len() as int));
            }
            i += 1;
        }
        assert(taken.subrange(0, i as int) =~= taken);
        w
    }

    /// Propagates the conditions and labels of this workload into its systems and clears them.
    fn propagate(&mut self)
        ensures
            final(self).name == old(self).name,
            final(self).overwritten_name == old(self).overwritten_name,
            final(self).barriers == old(self).barriers,
            final(self).run_if is None,
            final(self).tags@.len() == 0,
            final(self).before_all@.len() == 0,
            final(self).after_all@.len() == 0,
            final(self).require_before@.len() == 0,
            final(self).require_after@.len() == 0,
            final(self).systems@.len() == old(self).systems@.len(),
            forall|k: int| 0 <= k < old(self).systems@.len() ==> propagated(old(self).systems@[k], *old(self), #[trigger] final(self).systems@[k]),
    {
        let mut moved: Vec<WorkloadSystem> = Vec::new();
        std::mem::swap(&mut moved, &mut self.systems);
        let ghost taken = moved@;
        let ghost w0 = *old(self);
        let total = moved.len();
        let mut i: usize = 0;
        while moved.len() > 0
            invariant
                i + moved@.len() == taken.len(),
                taken.len() == total,
                taken == w0.systems@,
                moved@ == taken.subrange(i as int, taken.len() as int),
                self.systems@.len() == i,
                forall|k: int| 0 <= k < i ==> propagated(taken[k], w0, #[trigger] self.systems@[k]),
                self.name == w0.name,
                self.tags == w0.tags,
                self.run_if == w0.run_if,
                self.before_all == w0.before_all,
                self.after_all == w0.after_all,
                self.require_before == w0.require_before,
                self.require_after == w0.require_after,
                self.overwritten_name == w0.overwritten_name,
                self.barriers == w0.barriers,
            decreases moved@.len(),
        {
            let mut s = moved.remove(0);
            assert(s == taken[i as int]);
            let ghost s0 = s;
            let system_run_if = s.run_if.take();
            s.run_if = match (system_run_if, duplicate_run_if(&self.run_if)) {
                (None, None) => None,
                (None, Some(w)) => Some(w),
                (Some(c), None) => Some(c),
                (Some(c), Some(w)) => Some(RunCondition::And(Box::new(w), Box::new(c))),
            };
            extend_cloned(&mut s.tags, &self.tags);
            extend_deduped(&mut s.before_all, &self.before_all);
            extend_deduped(&mut s.after_all, &self.after_all);
            extend_deduped(&mut s.require_before, &self.require_before);
            extend_deduped(&mut s.require_after, &self.require_after);
            assert(propagated(s0, w0, s));
            self.systems.push(s);
            assert(moved@ =~= taken.subrange(i + 1, taken.len() as int));
            i += 1;
        }
        self.run_if = None;
        self.tags = Vec::new();
        self.before_all = Vec::new();
        self.after_all = Vec::new();
        self.require_before = Vec::new();
        self.require_after = Vec::new();
    }

    /// Propagates the information of both workloads into their systems, then moves the
    /// systems of `other`, and its barriers, after those of this workload.
    pub fn merge(self, other: Workload) -> (w: Workload)
        requires
            can_shift(other.systems@, self.systems@.len() as int),
            forall|k: int| 0 <= k < other.barriers@.len() ==> #[trigger] other.barriers@[k] + self.systems@.len() <= usize::MAX,
        ensures
            w.name == self.name,
            w.overwritten_name == self.overwritten_name,
            w.run_if is None,
            w.tags@.len() == 0,
            w.before_all@.len() == 0,
            w.after_all@.len() == 0,
            w.require_before@.len() == 0,
            w.require_after@.len() == 0,
            w.systems@.len() == self.systems@.len() + other.systems@.len(),
            forall|k: int| 0 <= k < self.systems@.len() ==> propagated(self.systems@[k], self, #[trigger] w.systems@[k]),
            forall|k: int| 0 <= k < other.systems@.len() ==> {
                let t = #[trigger] w.systems@[self.systems@.len() + k];
                &&& t.unique_id == other.systems@[k].unique_id + self.systems@.len()
                &&& propagated(other.systems@[k], other, with_id(t, other.systems@[k].unique_id))
            },
            w.barriers@.len() == self.barriers@.len() + other.barriers@.len(),
            w.barriers@.subrange(0, self.barriers@.len() as int) == self.barriers@,
            forall|k: int| 0 <= k < other.barriers@.len() ==> #[trigger] w.barriers@[self.barriers@.len() + k] == other.barriers@[k] + self.systems@.len(),
    {
        let mut a = self;
        let mut b = other;
        a.propagate();
        b.propagate();
        let len = a.systems.len();
        let ghost b0 = b.barriers@;
        let mut k: usize = 0;
        while k < b.barriers.len()
            invariant
                k <= b0.len(),
                b0 == other.barriers@,
                len == self.systems@.len(),
                forall|j: int| 0 <= j < other.barriers@.len() ==> #[trigger] other.barriers@[j] + self.systems@.len() <= usize::MAX,
                a.barriers@.len() == self.barriers@.len() + k,
                a.barriers@.subrange(0, self.barriers@.len() as int) == self.barriers@,
                forall|j: int| 0 <= j < k ==> #[trigger] a.barriers@[self.barriers@.len() + j] == b0[j] + len,
                a.name == self.name,
                a.overwritten_name == self.overwritten_name,
                a.run_if is None,
                a.tags@.len() == 0,
                a.before_all@.len() == 0,
                a.after_all@.len() == 0,
                a.require_before@.len() == 0,
                a.require_after@.len() == 0,
                a.systems@.len() == len,
                forall|j: int| 0 <= j < len ==> propagated(self.systems@[j], self, #[trigger] a.systems@[j]),
                b.barriers@ == b0,
            decreases b0.len() - k,
        {
            let ghost before = a.barriers@;
            a.barriers.push(b.barriers[k] + len);
            assert(a.barriers@.subrange(0, self.barriers@.len() as int) =~= before.subrange(0, self.barriers@.len() as int));
            k += 1;
        }
        let ghost bs = b.systems@;
        proof {
            assert forall|j: int| 0 <= j < bs.len() implies #[trigger] bs[j].unique_id + len <= usize::MAX by {
                assert(propagated(other.systems@[j], other, bs[j]));
            }
        }
        let w = a.append(&mut b);
        proof {
            assert forall|j: int| 0 <= j < other.systems@.len() implies {
                let t = #[trigger] w.systems@[self.systems@.len() + j];
                &&& t.unique_id == other.systems@[j].unique_id + self.systems@.len()
                &&& propagated(other.systems@[j], other, with_id(t, other.systems@[j].unique_id))
            } by {
                let tail = w.systems@.subrange(len as int, w.systems@.len() as int);
                assert(tail[j] == w.systems@[len + j]);
                assert(propagated(other.systems@[j], other, bs[j]));
                assert(with_id(tail[j], other.systems@[j].unique_id) == bs[j]);
            }
            assert forall|j: int| 0 <= j < self.systems@.len() implies propagated(self.systems@[j], self, #[trigger] w.systems@[j]) by {
                assert(w.systems@[j] == w.systems@.subrange(0, len as int)[j]);
            }
        }
        w
    }

    /// Same as [`Workload::merge`].
    pub fn with_workload(self, other: Workload) -> (w: Workload)
        requires
            can_shift(other.systems@, self.systems@.len() as int),
            forall|k: int| 0 <= k < other.barriers@.len() ==> #[trigger] other.barriers@[k] + self.systems@.len() <= usize::MAX,
        ensures
            w.name == self.name,
            w.systems@.len() == self.systems@.len() + other.systems@.len(),
            forall|k: int| 0 <= k < self.systems@.len() ==> propagated(self.systems@[k], self, #[trigger] w.systems@[k]),
            forall|k: int| 0 <= k < other.systems@.len() ==> {
                let t = #[trigger] w.systems@[self.systems@.len() + k];
                &&& t.unique_id == other.systems@[k].unique_id + self.systems@.len()
                &&& propagated(other.systems@[k], other, with_id(t, other.systems@[k].unique_id))
            },
            w.barriers@.len() == self.barriers@.len() + other.barriers@.len(),
            w.barriers@.subrange(0, self.barriers@.len() as int) == self.barriers@,
            forall|k: int| 0 <= k < other.barriers@.len() ==> #[trigger] w.barriers@[self.barriers@.len() + k] == other.barriers@[k] + self.systems@.len(),
    {
        self.merge(other)
    }

    /// Adds a system to the workload; its unique id moves by the number of systems already there.
    pub fn with_system(self, system: WorkloadSystem) -> (w: Workload)
        requires
            system.unique_id + self.systems@.len() <= usize::MAX,
        ensures
            same_but_systems(w, self),
            w.systems@ == self.systems@.push(with_id(system, (system.unique_id + self.systems@.len()) as usize)),
    {
        let mut w = self;
        let mut system = system;
        system.unique_id = system.unique_id + w.systems.len();
        w.systems.push(system);
        w
    }

    /// Adds a fallible system to the workload, as [`Workload::with_system`] does.
    pub fn with_try_system(self, system: WorkloadSystem) -> (w: Workload)
        requires
            system.unique_id + self.systems@.len() <= usize::MAX,
        ensures
            same_but_systems(w, self),
            w.systems@ == self.systems@.push(with_id(system, (system.unique_id + self.systems@.len()) as usize)),
    {
        self.with_system(system)
    }

    /// Stops parallelism between the systems before and after this point.
    pub fn with_barrier(self) -> (w: Workload)
        ensures
            w.barriers@ == self.barriers@.push(self.systems@.len() as usize),
            w.systems == self.systems,
            w.name == self.name,
            w.tags == self.tags,
            w.run_if == self.run_if,
            w.before_all == self.before_all,
            w.after_all == self.after_all,
    {
        let mut w = self;
        let len = w.systems.len();
        w.barriers.push(len);
        w
    }

    /// Only runs the workload if `condition` holds, beside any earlier condition.
    pub fn run_if(self, condition: RunCondition) -> (w: Workload)
        ensures
            w == (Workload { run_if: Some(match self.run_if {
                Some(prev) => RunCondition::And(Box::new(prev), Box::new(condition)),
                None => condition,
            }), ..self }),
    {
        let mut w = self;
        let prev = w.run_if.take();
        w.run_if = match prev {
            Some(prev) => Some(RunCondition::And(Box::new(prev), Box::new(condition))),
            None => Some(condition),
        };
        w
    }

    /// Skips the workload if `condition` holds, beside any earlier condition.
    pub fn skip_if(self, condition: RunCondition) -> (w: Workload)
        ensures
            w == (Workload { run_if: Some(match self.run_if {
                Some(prev) => RunCondition::And(Box::new(prev), Box::new(RunCondition::Not(Box::new(condition)))),
                None => RunCondition::Not(Box::new(condition)),
            }), ..self }),
    {
        self.run_if(condition.not())
    }

    /// Only runs the workload if the storage `storage_id` is empty or missing.
    pub fn run_if_storage_empty_by_id(self, storage_id: crate::type_id::TypeId) -> (w: Workload)
        ensures
            w == (Workload { run_if: Some(match self.run_if {
                Some(prev) => RunCondition::And(Box::new(prev), Box::new(RunCondition::StorageEmpty(storage_id))),
                None => RunCondition::StorageEmpty(storage_id),
            }), ..self }),
    {
        self.run_if(RunCondition::StorageEmpty(storage_id))
    }

    /// Only runs the workload if the component storage `storage_id` is empty or missing.
    pub fn run_if_storage_empty(self, storage_id: crate::type_id::TypeId) -> (w: Workload)
        ensures
            w == (Workload { run_if: Some(match self.run_if {
                Some(prev) => RunCondition::And(Box::new(prev), Box::new(RunCondition::StorageEmpty(storage_id))),
                None => RunCondition::StorageEmpty(storage_id),
            }), ..self }),
    {
        self.run_if_storage_empty_by_id(storage_id)
    }

    /// Only runs the workload if the unique storage `storage_id` is missing.
    pub fn run_if_missing_unique(self, storage_id: crate::type_id::TypeId) -> (w: Workload)
        ensures
            w == (Workload { run_if: Some(match self.run_if {
                Some(prev) => RunCondition::And(Box::new(prev), Box::new(RunCondition::StorageEmpty(storage_id))),
                None => RunCondition::StorageEmpty(storage_id),
            }), ..self }),
    {
        self.run_if_storage_empty_by_id(storage_id)
    }

    /// Skips the workload if the storage `storage_id` is empty or missing.
    pub fn skip_if_storage_empty_by_id(self, storage_id: crate::type_id::TypeId) -> (w: Workload)
        ensures
            w == (Workload { run_if: Some(match self.run_if {
                Some(prev) => RunCondition::And(Box::new(prev), Box::new(RunCondition::Not(Box::new(RunCondition::StorageEmpty(storage_id))))),
                None => RunCondition::Not(Box::new(RunCondition::StorageEmpty(storage_id))),
            }), ..self }),
    {
        self.skip_if(RunCondition::StorageEmpty(storage_id))
    }

    /// Skips the workload if the component storage `storage_id` is empty or missing.
    pub fn skip_if_storage_empty(self, storage_id: crate::type_id::TypeId) -> (w: Workload)
        ensures
            w == (Workload { run_if: Some(match self.run_if {
                Some(prev) => RunCondition::And(Box::new(prev), Box::new(RunCondition::Not(Box::new(RunCondition::StorageEmpty(storage_id))))),
                None => RunCondition::Not(Box::new(RunCondition::StorageEmpty(storage_id))),
            }), ..self }),
    {
        self.skip_if_storage_empty_by_id(storage_id)
    }

    /// Skips the workload if the unique storage `storage_id` is missing.
    pub fn skip_if_missing_unique(self, storage_id: crate::type_id::TypeId) -> (w: Workload)
        ensures
            w == (Workload { run_if: Some(match self.run_if {
                Some(prev) => RunCondition::And(Box::new(prev), Box::new(RunCondition::Not(Box::new(RunCondition::StorageEmpty(storage_id))))),
                None => RunCondition::Not(Box::new(RunCondition::StorageEmpty(storage_id))),
            }), ..self }),
    {
        self.skip_if_storage_empty_by_id(storage_id)
    }

    /// Places all systems of this workload before every system or workload labelled `other`.
    pub fn before_all(self, other: Label) -> (w: Workload)
        ensures
            labels_contain(self.before_all@, other@) ==> w.before_all@ == self.before_all@,
            !labels_contain(self.before_all@, other@) ==> w.before_all@ == self.before_all@.push(other),
            w == (Workload { before_all: w.before_all, ..self }),
    {
        let mut w = self;
        add_deduped(&mut w.before_all, other);
        w
    }

    /// Places all systems of this workload after every system or workload labelled `other`.
    pub fn after_all(self, other: Label) -> (w: Workload)
        ensures
            labels_contain(self.after_all@, other@) ==> w.after_all@ == self.after_all@,
            !labels_contain(self.after_all@, other@) ==> w.after_all@ == self.after_all@.push(other),
            w == (Workload { after_all: w.after_all, ..self }),
    {
        let mut w = self;
        add_deduped(&mut w.after_all, other);
        w
    }

    /// Changes the name of this workload, and tags it with the new name.
    pub fn rename(self, name: Label) -> (w: Workload)
        ensures
            w.name@ == name@,
            w.overwritten_name,
            label_views(w.tags@) == label_views(self.tags@).push(name@),
            w == (Workload { name: w.name, overwritten_name: true, tags: w.tags, ..self }),
    {
        let mut w = self;
        let copy = name.dyn_clone();
        w.name = name;
        w.overwritten_name = true;
        let ghost before = w.tags@;
        w.tags.push(copy);
        assert(label_views(w.tags@) =~= label_views(before).push(copy@));
        w
    }

    /// Adds a tag to this workload.
    pub fn tag(self, tag: Label) -> (w: Workload)
        ensures
            w.tags@ == self.tags@.push(tag),
            w == (Workload { tags: w.tags, ..self }),
    {
        let mut w = self;
        w.tags.push(tag);
        w
    }

    /// Each system's unique id is its position, and barriers lie inside the list of systems.
    pub open spec fn ids_wf(&self) -> bool {
        &&& forall|k: int| 0 <= k < self.systems@.len() ==> (#[trigger] self.systems@[k]).unique_id == k
        &&& forall|k: int| 0 <= k < self.barriers@.len() ==> #[trigger] self.barriers@[k] <= self.systems@.len()
    }

    /// A workload, named by `id`, holding the systems of `workloads` one after the other, each
    /// with the information of its workload propagated into it.
    pub fn from_workloads(workloads: Vec<Workload>, id: u64) -> (w: Workload)
        requires
            forall|i: int| 0 <= i < workloads@.len() ==> (#[trigger] workloads@[i]).ids_wf(),
            total_systems(workloads@) <= usize::MAX,
        ensures
            w.name@ == LabelView::Type(id),
            !w.overwritten_name,
            w.ids_wf(),
            w.systems@.len() == total_systems(workloads@),
            workloads@.len() > 0 ==> no_modifiers(w),
            workloads@.len() == 0 ==> label_views(w.tags@) == seq![LabelView::Type(id)] && w.run_if is None
                && w.before_all@.len() == 0 && w.after_all@.len() == 0 && w.require_before@.len() == 0 && w.require_after@.len() == 0,
            forall|i: int, k: int| 0 <= i < workloads@.len() && 0 <= k < workloads@[i].systems@.len() ==> {
                let t = w.systems@[offset(workloads@, i) + k];
                &&& t.unique_id == offset(workloads@, i) + k
                &&& propagated(#[trigger] workloads@[i].systems@[k], workloads@[i], with_id(t, workloads@[i].systems@[k].unique_id))
            },
            w.barriers@ == all_barriers(workloads@),
    {
        let mut w = Workload::new(Label::of_type(crate::type_id::TypeId(id)));
        w.overwritten_name = false;
        let ghost all = workloads@;
        let mut rest = workloads;
        let mut i: usize = 0;
        let total = rest.len();
        while rest.len() > 0
            invariant
                i + rest@.len() == all.len(),
                total == all.len(),
                rest@ == all.subrange(i as int, all.len() as int),
                forall|j: int| 0 <= j < all.len() ==> (#[trigger] all[j]).ids_wf(),
                total_systems(all) <= usize::MAX,
                w.ids_wf(),
                w.systems@.len() == total_systems(all.subrange(0, i as int)),
                w.name@ == LabelView::Type(id),
                !w.overwritten_name,
                i > 0 ==> no_modifiers(w),
                i == 0 ==> label_views(w.tags@) == seq![LabelView::Type(id)] && w.run_if is None && w.before_all@.len() == 0
                    && w.after_all@.len() == 0 && w.require_before@.len() == 0 && w.require_after@.len() == 0 && w.systems@.len() == 0,
                forall|j: int, k: int| 0 <= j < i && 0 <= k < all[j].systems@.len() ==> {
                    let t = w.systems@[offset(all, j) + k];
                    &&& t.unique_id == offset(all, j) + k
                    &&& propagated(#[trigger] all[j].systems@[k], all[j], with_id(t, all[j].systems@[k].unique_id))
                },
                w.barriers@ == all_barriers(all.subrange(0, i as int)),
            decreases rest@.len(),
        {
            let next = rest.remove(0);
            let ghost w0 = w;
            proof {
                assert(next == all[i as int]);
                lemma_total_prefix(all, i as int);
                assert(all.subrange(0, i + 1).drop_last() =~= all.subrange(0, i as int));
                assert(all.subrange(0, i + 1).last() == all[i as int]);
                assert forall|k: int| 0 <= k < next.systems@.len() implies #[trigger] next.systems@[k].unique_id + w.systems@.len() <= usize::MAX by {}
            }
            w = merge_wf(w, next);
            proof {
                assert forall|j: int, k: int| 0 <= j < i + 1 && 0 <= k < all[j].systems@.len() implies {
                    let t = w.systems@[offset(all, j) + k];
                    &&& t.unique_id == offset(all, j) + k
                    &&& propagated(#[trigger] all[j].systems@[k], all[j], with_id(t, all[j].systems@[k].unique_id))
                } by {
                    lemma_offset_bound(all, j, k);
                    if j < i {
                        lemma_offset_bound_prefix(all, j, k, i as int);
                        let p = offset(all, j) + k;
                        assert(propagated(w0.systems@[p], w0, w.systems@[p]));
                        lemma_repropagated(all[j].systems@[k], all[j], w0.systems@[p], w0, w.systems@[p], all[j].systems@[k].unique_id);
                    } else {
                        assert(offset(all, j) == w0.systems@.len());
                        assert(all[j].systems@[k].unique_id == k);
                    }
                }
                assert(all.subrange(0, i + 1).drop_last() =~= all.subrange(0, i as int));
                assert(w.barriers@ =~= all_barriers(all.subrange(0, i + 1)));
            }
            assert(rest@ =~= all.subrange(i + 1, all.len() as int));
            i += 1;
        }
        assert(all.subrange(0, i as int) =~= all);
        w
    }
}

/// Number of systems of all `workloads`.
pub open spec fn total_systems(workloads: Seq<Workload>) -> int
    decreases workloads.len(),
{
    if workloads.len() == 0 {
        0
    } else {
        total_systems(workloads.drop_last()) + workloads.last().systems@.len()
    }
}

proof fn lemma_total_prefix(workloads: Seq<Workload>, i: int)
    requires
        0 <= i < workloads.len(),
    ensures
        total_systems(workloads.subrange(0, i + 1)) == total_systems(workloads.subrange(0, i)) + workloads[i].systems@.len(),
        total_systems(workloads.subrange(0, i + 1)) <= total_systems(workloads),
    decreases workloads.len(),
{
    assert(workloads.subrange(0, i + 1).drop_last() =~= workloads.subrange(0, i));
    if i + 1 < workloads.len() {
        lemma_total_prefix(workloads.drop_last(), i);
        assert(workloads.drop_last().subrange(0, i + 1) =~= workloads.subrange(0, i + 1));
        assert(workloads.drop_last().subrange(0, i) =~= workloads.subrange(0, i));
        lemma_total_monotone(workloads);
    } else {
        assert(workloads.subrange(0, i + 1) =~= workloads);
    }
}

/// A system of the `j`-th workload lies among the systems of the first `j + 1`.
proof fn lemma_offset_bound(workloads: Seq<Workload>, j: int, k: int)
    requires
        0 <= j < workloads.len(),
        0 <= k < workloads[j].systems@.len(),
    ensures
        offset(workloads, j) + k < total_systems(workloads.subrange(0, j + 1)),
        offset(workloads, j) >= 0,
{
    lemma_total_prefix(workloads, j);
    lemma_total_nonneg(workloads.subrange(0, j));
}

/// ... and so among those of the first `i`, for `j < i`.
proof fn lemma_offset_bound_prefix(workloads: Seq<Workload>, j: int, k: int, i: int)
    requires
        0 <= j < i <= workloads.len(),
        0 <= k < workloads[j].systems@.len(),
    ensures
        offset(workloads, j) + k < total_systems(workloads.subrange(0, i)),
    decreases i - j,
{
    lemma_offset_bound(workloads, j, k);
    if j + 1 < i {
        lemma_total_prefix(workloads, i - 1);
        lemma_offset_bound_prefix(workloads, j, k, i - 1);
    }
}

proof fn lemma_total_nonneg(workloads: Seq<Workload>)
    ensures
        total_systems(workloads) >= 0,
    decreases workloads.len(),
{
    if workloads.len() > 0 {
        lemma_total_nonneg(workloads.drop_last());
    }
}

proof fn lemma_total_monotone(workloads: Seq<Workload>)
    requires
        workloads.len() > 0,
    ensures
        total_systems(workloads.drop_last()) <= total_systems(workloads),
{
}

/// Merges two workloads whose ids are positions; the result's ids are positions too.
fn merge_wf(a: Workload, b: Workload) -> (w: Workload)
    requires
        a.ids_wf(),
        b.ids_wf(),
        a.systems@.len() + b.systems@.len() <= usize::MAX,
    ensures
        w.ids_wf(),
        w.name == a.name,
        w.overwritten_name == a.overwritten_name,
        w.systems@.len() == a.systems@.len() + b.systems@.len(),
        no_modifiers(w),
        forall|k: int| 0 <= k < a.systems@.len() ==> propagated(a.systems@[k], a, #[trigger] w.systems@[k]),
        forall|k: int| 0 <= k < b.systems@.len() ==> {
            let t = #[trigger] w.systems@[a.systems@.len() + k];
            &&& t.unique_id == b.systems@[k].unique_id + a.systems@.len()
            &&& propagated(b.systems@[k], b, with_id(t, b.systems@[k].unique_id))
        },
        w.barriers@ == a.barriers@ + shift_all(b.barriers@, a.systems@.len() as int),
{
    proof {
        assert forall|k: int| 0 <= k < b.systems@.len() implies #[trigger] b.systems@[k].unique_id + a.systems@.len() <= usize::MAX by {}
        assert forall|k: int| 0 <= k < b.barriers@.len() implies #[trigger] b.barriers@[k] + a.systems@.len() <= usize::MAX by {}
    }
    let w = a.merge(b);
    proof {
        assert forall|k: int| 0 <= k < w.systems@.len() implies (#[trigger] w.systems@[k]).unique_id == k by {
            if k < a.systems@.len() {
                assert(propagated(a.systems@[k], a, w.systems@[k]));
            } else {
                let j = k - a.systems@.len();
                assert(w.systems@[a.systems@.len() + j].unique_id == b.systems@[j].unique_id + a.systems@.len());
            }
        }
        assert forall|k: int| 0 <= k < w.barriers@.len() implies #[trigger] w.barriers@[k] <= w.systems@.len() by {
            if k < a.barriers@.len() {
                assert(w.barriers@[k] == w.barriers@.subrange(0, a.barriers@.len() as int)[k]);
            } else {
                let j = k - a.barriers@.len();
                assert(w.barriers@[a.barriers@.len() + j] == b.barriers@[j] + a.systems@.len());
            }
        }
        assert forall|k: int| 0 <= k < w.barriers@.len() implies w.barriers@[k] == (a.barriers@ + shift_all(b.barriers@, a.systems@.len() as int))[k] by {
            if k < a.barriers@.len() {
                assert(w.barriers@[k] == w.barriers@.subrange(0, a.barriers@.len() as int)[k]);
            } else {
                let j = k - a.barriers@.len();
                assert(w.barriers@[a.barriers@.len() + j] == b.barriers@[j] + a.systems@.len());
            }
        }
        assert(w.barriers@ =~= a.barriers@ + shift_all(b.barriers@, a.systems@.len() as int));
    }
    w
}

/// `barriers` moved by `by`.
pub open spec fn shift_all(barriers: Seq<usize>, by: int) -> Seq<usize> {
    barriers.map_values(|b: usize| (b + by) as usize)
}

/// The workload adds no condition and no label to its systems.
pub open spec fn no_modifiers(w: Workload) -> bool {
    &&& w.run_if is None
    &&& w.tags@.len() == 0
    &&& w.before_all@.len() == 0
    &&& w.after_all@.len() == 0
    &&& w.require_before@.len() == 0
    &&& w.require_after@.len() == 0
}

/// Number of systems of the workloads before the `i`-th.
pub open spec fn offset(workloads: Seq<Workload>, i: int) -> int {
    total_systems(workloads.subrange(0, i))
}

/// The barriers of `workloads` one after the other, each moved by the systems before it.
pub open spec fn all_barriers(workloads: Seq<Workload>) -> Seq<usize>
    decreases workloads.len(),
{
    if workloads.len() == 0 {
        Seq::empty()
    } else {
        all_barriers(workloads.drop_last()) + shift_all(workloads.last().barriers@, total_systems(workloads.drop_last()))
    }
}

/// Propagating a workload that adds nothing keeps what was propagated before.
proof fn lemma_repropagated(s: WorkloadSystem, w: Workload, t: WorkloadSystem, e: Workload, t2: WorkloadSystem, id: usize)
    requires
        propagated(s, w, with_id(t, id)),
        no_modifiers(e),
        propagated(t, e, t2),
    ensures
        propagated(s, w, with_id(t2, id)),
{
    assert(label_views(e.tags@) =~= Seq::<crate::scheduler::label::LabelView>::empty());
    assert(label_views(t2.tags@) =~= label_views(t.tags@));
    assert(label_views(e.before_all@) =~= Seq::<crate::scheduler::label::LabelView>::empty());
    assert(label_views(e.after_all@) =~= Seq::<crate::scheduler::label::LabelView>::empty());
    assert(label_views(e.require_before@) =~= Seq::<crate::scheduler::label::LabelView>::empty());
    assert(label_views(e.require_after@) =~= Seq::<crate::scheduler::label::LabelView>::empty());
}

impl Workload {
    /// A workload, named by `id`, whose workloads run one after the other: each is tagged
    /// with a sequential label made from its name and placed before all systems tagged with
    /// the label of the next one. No two of their systems may be of the same type.
    pub fn from_sequential_workloads(workloads: Vec<Workload>, id: u64) -> (w: Workload)
        requires
            distinct_system_types(workloads@),
            forall|i: int| 0 <= i < workloads@.len() ==> (#[trigger] workloads@[i]).ids_wf(),
            forall|i: int| 0 <= i < workloads@.len() ==> ((#[trigger] workloads@[i]).name@ is Type || workloads@[i].name@ is Name),
            total_systems(workloads@) <= usize::MAX,
        ensures
            w.name@ == LabelView::Type(id),
            w.ids_wf(),
            w.systems@.len() == total_systems(workloads@),
            exists|marked: Seq<Workload>| #![trigger sequenced(workloads@, marked)] sequenced(workloads@, marked) && {
                &&& forall|i: int, k: int| 0 <= i < marked.len() && 0 <= k < marked[i].systems@.len() ==> {
                    let t = w.systems@[offset(marked, i) + k];
                    &&& t.unique_id == offset(marked, i) + k
                    &&& propagated(#[trigger] marked[i].systems@[k], marked[i], with_id(t, marked[i].systems@[k].unique_id))
                }
                &&& w.barriers@ == all_barriers(marked)
                &&& marked.len() > 0 ==> no_modifiers(w)
            },
    {
        let n = workloads.len();
        let mut tags: Vec<Label> = Vec::new();
        let mut k: usize = 0;
        while k < n
            invariant
                k <= n,
                n == workloads@.len(),
                tags@.len() == k,
                forall|i: int| 0 <= i < workloads@.len() ==> ((#[trigger] workloads@[i]).name@ is Type || workloads@[i].name@ is Name),
                forall|j: int| 0 <= j < k ==> (#[trigger] tags@[j])@ == sequential_label(workloads@[j].name@),
            decreases n - k,
        {
            let ghost nm = workloads@[k as int].name@;
            assert(nm is Type || nm is Name);
            match workloads[k].name.sequential() {
                Some(t) => tags.push(t),
                None => tags.push(Label::Unique(0)),
            }
            k += 1;
        }
        let ghost all = workloads@;
        let mut rest = workloads;
        let mut marked: Vec<Workload> = Vec::new();
        let mut i: usize = 0;
        while rest.len() > 0
            invariant
                i + rest@.len() == n,
                n == all.len(),
                tags@.len() == n,
                forall|j: int| 0 <= j < n ==> (#[trigger] tags@[j])@ == sequential_label(all[j].name@),
                rest@ == all.subrange(i as int, n as int),
                forall|j: int| 0 <= j < all.len() ==> (#[trigger] all[j]).ids_wf(),
                marked@.len() == i,
                forall|j: int| 0 <= j < i ==> (#[trigger] marked@[j]).ids_wf() && marked@[j].systems@.len() == all[j].systems@.len(),
                forall|j: int| 0 <= j < i ==> sequenced_at(all, #[trigger] marked@[j], j),
            decreases rest@.len(),
        {
            let w = rest.remove(0);
            assert(w == all[i as int]);
            let ghost w0 = w;
            let mut w = w.tag(tags[i].dyn_clone());
            proof {
                assert(label_views(w.tags@) =~= label_views(w0.tags@).push(sequential_label(w0.name@)));
            }
            let ghost w1 = w;
            if i + 1 < n {
                w = w.before_all(tags[i + 1].dyn_clone());
                proof {
                    if !labels_contain(w1.before_all@, sequential_label(all[i + 1].name@)) {
                        assert(label_views(w.before_all@) =~= label_views(w1.before_all@).push(sequential_label(all[i + 1].name@)));
                    }
                }
            }
            marked.push(w);
            assert(rest@ =~= all.subrange(i + 1, n as int));
            i += 1;
        }
        proof {
            lemma_same_totals(marked@, all);
            assert(sequenced(all, marked@));
        }
        Workload::from_workloads(marked, id)
    }
}

/// No two systems of `workloads` are of the same type.
pub open spec fn distinct_system_types(workloads: Seq<Workload>) -> bool {
    forall|i1: int, k1: int, i2: int, k2: int|
        0 <= i1 < workloads.len() && 0 <= k1 < workloads[i1].systems@.len() && 0 <= i2 < workloads.len()
        && 0 <= k2 < workloads[i2].systems@.len() && (i1 != i2 || k1 != k2)
        ==> (#[trigger] workloads[i1].systems@[k1]).type_id != (#[trigger] workloads[i2].systems@[k2]).type_id
}

/// `m` is the system `s` of a workload made sequential, when `next` is the type of the
/// system that follows it, if one does: it is placed before all systems tagged with the
/// sequential label of that type.
pub open spec fn sequenced_system(s: WorkloadSystem, m: WorkloadSystem, next: Option<TypeId>) -> bool {
    &&& m == (WorkloadSystem { before_all: m.before_all, ..s })
    &&& match next {
        Some(t) => if labels_contain(s.before_all@, LabelView::Sequential(t.0)) {
            m.before_all@ == s.before_all@
        } else {
            m.before_all@ == s.before_all@.push(Label::Sequential(t))
        },
        None => m.before_all@ == s.before_all@,
    }
}

impl Workload {
    /// Makes the systems of this workload run one after the other, in their order: each is
    /// placed before all systems tagged with the sequential label of the next one's type. No
    /// two of its systems may be of the same type.
    pub fn into_sequential_workload(self) -> (w: Workload)
        requires
            distinct_system_types(seq![self]),
        ensures
            w == (Workload { systems: w.systems, ..self }),
            w.systems@.len() == self.systems@.len(),
            forall|k: int| 0 <= k < self.systems@.len() ==> sequenced_system(self.systems@[k], #[trigger] w.systems@[k],
                if k + 1 < self.systems@.len() { Some(self.systems@[k + 1].type_id) } else { None }),
    {
        let ghost s0 = self;
        let mut w = self;
        let mut systems: Vec<WorkloadSystem> = Vec::new();
        std::mem::swap(&mut systems, &mut w.systems);
        let n = systems.len();
        let mut index: usize = 0;
        while index < n
            invariant
                index <= n,
                n == s0.systems@.len(),
                systems@.len() == n,
                forall|k: int| 0 <= k < index ==> sequenced_system(s0.systems@[k], #[trigger] systems@[k],
                    if k + 1 < n { Some(s0.systems@[k + 1].type_id) } else { None }),
                forall|k: int| index <= k < n ==> #[trigger] systems@[k] == s0.systems@[k],
            decreases n - index,
        {
            if index + 1 < n {
                let next = systems[index + 1].type_id;
                let ghost before = systems@[index as int];
                let ghost labels0 = before.before_all@;
                add_deduped(&mut systems[index].before_all, Label::Sequential(next));
                proof {
                    let m = systems@[index as int];
                    assert(m == (WorkloadSystem { before_all: m.before_all, ..before }));
                    if labels_contain(labels0, LabelView::Sequential(next.0)) {
                        assert(m.before_all@ == labels0);
                    }
                }
            }
            index += 1;
        }
        std::mem::swap(&mut systems, &mut w.systems);
        w
    }
}

/// The label that orders the members of a sequential workload after the one named `name`.
pub open spec fn sequential_label(name: LabelView) -> LabelView {
    match name {
        LabelView::Type(t) => LabelView::Sequential(t),
        LabelView::Name(s) => LabelView::SequentialName(s),
        _ => LabelView::Unique(0),
    }
}

/// `m` is the `i`-th of `all`, tagged with its sequential label and placed before all
/// systems tagged with the sequential label of the next one, if any.
pub open spec fn sequenced_at(all: Seq<Workload>, m: Workload, i: int) -> bool {
    let w = all[i];
    &&& m == (Workload { tags: m.tags, before_all: m.before_all, ..w })
    &&& label_views(m.tags@) == label_views(w.tags@).push(sequential_label(w.name@))
    &&& i + 1 < all.len() && !labels_contain(w.before_all@, sequential_label(all[i + 1].name@))
        ==> label_views(m.before_all@) == label_views(w.before_all@).push(sequential_label(all[i + 1].name@))
    &&& !(i + 1 < all.len() && !labels_contain(w.before_all@, sequential_label(all[i + 1].name@)))
        ==> m.before_all@ == w.before_all@
}

/// Each of `marked` is the workload of `all` at its position, made sequential.
pub open spec fn sequenced(all: Seq<Workload>, marked: Seq<Workload>) -> bool {
    &&& marked.len() == all.len()
    &&& forall|i: int| 0 <= i < all.len() ==> sequenced_at(all, #[trigger] marked[i], i)
}

proof fn lemma_same_totals(a: Seq<Workload>, b: Seq<Workload>)
    requires
        a.len() == b.len(),
        forall|j: int| 0 <= j < a.len() ==> (#[trigger] a[j]).systems@.len() == b[j].systems@.len(),
    ensures
        total_systems(a) == total_systems(b),
    decreases a.len(),
{
    if a.len() > 0 {
        lemma_same_totals(a.drop_last(), b.drop_last());
    }
}

/// The UTF-8 bytes of `prefix` begin those of `name`.
pub open spec fn name_starts_with(name: Seq<char>, prefix: Seq<char>) -> bool {
    let b = encode_utf8(name);
    let p = encode_utf8(prefix);
    p.len() <= b.len() && b.subrange(0, p.len() as int) == p
}

/// Returns `true` if `name` starts with `prefix`.
fn starts_with(name: &str, prefix: &str) -> (b: bool)
    ensures
        b == name_starts_with(name@, prefix@),
{
    let bytes = name.as_bytes();
    let pre = prefix.as_bytes();
    if pre.len() > bytes.len() {
        return false;
    }
    let mut k: usize = 0;
    while k < pre.len()
        invariant
            k <= pre@.len() <= bytes@.len(),
            bytes@ == encode_utf8(name@),
            pre@ == encode_utf8(prefix@),
            forall|j: int| 0 <= j < k ==> bytes@[j] == pre@[j],
        decreases pre@.len() - k,
    {
        if bytes[k] != pre[k] {
            assert(bytes@.subrange(0, pre@.len() as int)[k as int] != pre@[k as int]);
            return false;
        }
        k += 1;
    }
    assert(bytes@.subrange(0, pre@.len() as int) =~= pre@);
    true
}

/// The borrow `t` of system `s` is of a unique storage, by its name, that `present` lacks.
pub open spec fn missing_unique(w: Workload, unique_name: Seq<char>, present: Seq<TypeId>, s: int, t: int) -> bool {
    let info = w.systems@[s].borrow_constraints@[t];
    name_starts_with(info.name@, unique_name) && !present.contains(info.storage_id)
}

impl Workload {
    /// Succeeds when every unique storage that the workload's systems borrow, told by a type
    /// name starting with `unique_name`, is among `present`; otherwise returns the first
    /// borrow of a missing one.
    pub fn are_all_uniques_present_in_world(&self, unique_name: &str, present: &Vec<TypeId>) -> (r: Result<(), UniquePresence>)
        ensures
            r is Ok <==> forall|s: int, t: int| 0 <= s < self.systems@.len() && 0 <= t < self.systems@[s].borrow_constraints@.len()
                ==> !#[trigger] missing_unique(*self, unique_name@, present@, s, t),
            r matches Err(e) ==> exists|s: int, t: int| {
                &&& 0 <= s < self.systems@.len() && 0 <= t < self.systems@[s].borrow_constraints@.len()
                &&& #[trigger] missing_unique(*self, unique_name@, present@, s, t)
                &&& e matches UniquePresence::Unique(info) && same_type_info(info, self.systems@[s].borrow_constraints@[t])
                &&& forall|s2: int, t2: int| 0 <= s2 <= s && 0 <= t2 < self.systems@[s2].borrow_constraints@.len()
                    && (s2 < s || t2 < t) ==> !#[trigger] missing_unique(*self, unique_name@, present@, s2, t2)
            },
    {
        let mut s: usize = 0;
        while s < self.systems.len()
            invariant
                s <= self.systems@.len(),
                forall|s2: int, t: int| 0 <= s2 < s && 0 <= t < self.systems@[s2].borrow_constraints@.len()
                    ==> !#[trigger] missing_unique(*self, unique_name@, present@, s2, t),
            decreases self.systems@.len() - s,
        {
            let mut t: usize = 0;
            while t < self.systems[s].borrow_constraints.len()
                invariant
                    s < self.systems@.len(),
                    t <= self.systems@[s as int].borrow_constraints@.len(),
                    forall|s2: int, t2: int| 0 <= s2 < s && 0 <= t2 < self.systems@[s2].borrow_constraints@.len()
                        ==> !#[trigger] missing_unique(*self, unique_name@, present@, s2, t2),
                    forall|t2: int| 0 <= t2 < t ==> !#[trigger] missing_unique(*self, unique_name@, present@, s as int, t2),
                decreases self.systems@[s as int].borrow_constraints@.len() - t,
            {
                let info = &self.systems[s].borrow_constraints[t];
                if starts_with(info.name.as_str(), unique_name) && !contains_type(present, info.storage_id) {
                    assert(missing_unique(*self, unique_name@, present@, s as int, t as int));
                    return Err(UniquePresence::Unique(info.duplicate()));
                }
                t += 1;
            }
            s += 1;
        }
        Ok(())
    }
}

/// Returns `true` if `ids` holds `id`.
fn contains_type(ids: &Vec<crate::type_id::TypeId>, id: crate::type_id::TypeId) -> (b: bool)
    ensures
        b == ids@.contains(id),
{
    let mut k: usize = 0;
    while k < ids.len()
        invariant
            k <= ids@.len(),
            forall|j: int| 0 <= j < k ==> ids@[j] != id,
        decreases ids@.len() - k,
    {
        if ids[k] == id {
            assert(ids@[k as int] == id);
            return true;
        }
        k += 1;
    }
    false
}

} // verus!
