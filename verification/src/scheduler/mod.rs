//! Workloads and how their systems are ordered.
pub mod batches;
pub mod builder;
pub mod pipeline;
pub mod create_workload;
pub mod deduped;
pub mod info;
pub mod label;
pub mod order;
pub mod require;
pub mod system;
pub mod workload;

use crate::error::{RunWorkload, SetDefaultWorkload};
use crate::scheduler::batches::Batches;
use crate::scheduler::info::WorkloadInfo;
use crate::scheduler::label::{Label, LabelView};
use crate::type_id::TypeId;
use vstd::prelude::*;

verus! {

/// Position of the first workload named `name`.
pub open spec fn workload_index(workloads: Seq<(Label, Batches)>, name: LabelView) -> Option<int>
    decreases workloads.len(),
{
    if workloads.len() == 0 {
        None
    } else {
        match workload_index(workloads.drop_last(), name) {
            Some(i) => Some(i),
            None => if workloads.last().0@ == name { Some(workloads.len() - 1) } else { None },
        }
    }
}

/// The systems and workloads known to a world.
///
/// Systems are stored in a list to find if a system was already added; a workload lists
/// indexes into it.
pub struct Scheduler {
    /// Type of each system.
    pub system_ids: Vec<TypeId>,
    /// Name of each system.
    pub system_names: Vec<Label>,
    /// Workloads by name.
    pub workloads: Vec<(Label, Batches)>,
    /// Information about the workloads, by name.
    pub workloads_info: Vec<(Label, WorkloadInfo)>,
    /// Name of the workload run by default.
    pub default: Label,
}

impl Scheduler {
    /// Each system is listed once, with its name.
    pub open spec fn wf(&self) -> bool {
        &&& self.system_names@.len() == self.system_ids@.len()
        &&& forall|i: int, j: int| 0 <= i < j < self.system_ids@.len() ==> self.system_ids@[i] != self.system_ids@[j]
    }

    /// A scheduler without systems or workloads; the default name is empty.
    pub fn new() -> (s: Scheduler)
        ensures
            s.wf(),
            s.system_ids@.len() == 0,
            s.workloads@.len() == 0,
            s.workloads_info@.len() == 0,
            s.default@ == LabelView::Name(Seq::empty()),
    {
        let default = Label::Name(String::new());
        Scheduler {
            system_ids: Vec::new(),
            system_names: Vec::new(),
            workloads: Vec::new(),
            workloads_info: Vec::new(),
            default,
        }
    }

    /// Position of the workload named `name`.
    pub fn find_workload(&self, name: &Label) -> (r: Option<usize>)
        ensures
            r matches Some(i) ==> workload_index(self.workloads@, name@) == Some(i as int),
            r is None ==> workload_index(self.workloads@, name@) is None,
    {
        let mut i: usize = 0;
        while i < self.workloads.len()
            invariant
                i <= self.workloads@.len(),
                workload_index(self.workloads@.subrange(0, i as int), name@) is None,
            decreases self.workloads@.len() - i,
        {
            assert(self.workloads@.subrange(0, i + 1).drop_last() =~= self.workloads@.subrange(0, i as int));
            if self.workloads[i].0.dyn_eq(name) {
                proof {
                    lemma_index_prefix(self.workloads@, i + 1, name@);
                }
                return Some(i);
            }
            i += 1;
        }
        assert(self.workloads@.subrange(0, i as int) =~= self.workloads@);
        None
    }

    /// Makes the workload named `label` the default one.
    pub fn set_default(&mut self, label: Label) -> (r: Result<(), SetDefaultWorkload>)
        ensures
            r is Ok <==> workload_index(old(self).workloads@, label@) is Some,
            r is Ok ==> final(self).default == label,
            r is Err ==> final(self).default == old(self).default,
            final(self).workloads == old(self).workloads,
            final(self).system_ids == old(self).system_ids,
            final(self).system_names == old(self).system_names,
            final(self).workloads_info == old(self).workloads_info,
    {
        if self.find_workload(&label).is_some() {
            self.default = label;
            Ok(())
        } else {
            Err(SetDefaultWorkload::MissingWorkload)
        }
    }

    /// The batches of the workload named `name`.
    pub fn workload(&self, name: &Label) -> (r: Result<&Batches, RunWorkload>)
        ensures
            match workload_index(self.workloads@, name@) {
                Some(i) => r == Ok::<&Batches, RunWorkload>(&self.workloads@[i].1),
                None => r == Err::<&Batches, RunWorkload>(RunWorkload::MissingWorkload),
            },
    {
        match self.find_workload(name) {
            Some(i) => {
                proof {
                    lemma_index_bound(self.workloads@, name@);
                }
                Ok(&self.workloads[i].1)
            },
            None => Err(RunWorkload::MissingWorkload),
        }
    }

    /// Returns `true` if a workload is named `name`.
    pub fn contains_workload(&self, name: &Label) -> (b: bool)
        ensures
            b == workload_index(self.workloads@, name@) is Some,
    {
        self.find_workload(name).is_some()
    }

    /// Returns `true` if no workload is stored.
    pub fn is_empty(&self) -> (b: bool)
        ensures
            b == (self.workloads@.len() == 0),
    {
        self.workloads.len() == 0
    }

    /// Renames the workload named `old_name`, and the default name with it.
    pub fn rename(&mut self, old_name: &Label, new_name: Label)
        ensures
            final(self).system_ids == old(self).system_ids,
            final(self).system_names == old(self).system_names,
            final(self).workloads_info == old(self).workloads_info,
            match workload_index(old(self).workloads@, old_name@) {
                None => *final(self) == *old(self),
                Some(i) => {
                    &&& final(self).workloads@.len() == old(self).workloads@.len()
                    &&& final(self).workloads@.last().0@ == new_name@
                    &&& final(self).workloads@.last().1 == old(self).workloads@[i].1
                    &&& forall|j: int| 0 <= j < i ==> #[trigger] final(self).workloads@[j] == old(self).workloads@[j]
                    &&& forall|j: int| i < j < old(self).workloads@.len() ==> #[trigger] final(self).workloads@[j - 1] == old(self).workloads@[j]
                    &&& (old(self).default@ == old_name@ ==> final(self).default@ == new_name@)
                    &&& (old(self).default@ != old_name@ ==> final(self).default == old(self).default)
                },
            },
    {
        if let Some(i) = self.find_workload(old_name) {
            proof {
                lemma_index_bound(self.workloads@, old_name@);
            }
            let (_, batches) = self.workloads.remove(i);
            if self.default.dyn_eq(old_name) {
                self.default = new_name.dyn_clone();
            }
            self.workloads.push((new_name, batches));
        }
    }
}

proof fn lemma_index_prefix(ws: Seq<(Label, Batches)>, k: int, name: LabelView)
    requires
        0 < k <= ws.len(),
        workload_index(ws.subrange(0, k - 1), name) is None,
        ws[k - 1].0@ == name,
    ensures
        workload_index(ws, name) == Some(k - 1),
    decreases ws.len(),
{
    if k == ws.len() {
        assert(ws.drop_last() =~= ws.subrange(0, k - 1));
    } else {
        assert(ws.drop_last().subrange(0, k - 1) =~= ws.subrange(0, k - 1));
        lemma_index_prefix(ws.drop_last(), k, name);
    }
}

/// A found position lies inside the list and names the workload.
pub proof fn lemma_index_bound(ws: Seq<(Label, Batches)>, name: LabelView)
    ensures
        workload_index(ws, name) matches Some(i) ==> 0 <= i < ws.len() && ws[i].0@ == name,
        workload_index(ws, name) is None ==> forall|j: int| 0 <= j < ws.len() ==> #[trigger] ws[j].0@ != name,
    decreases ws.len(),
{
    if ws.len() > 0 {
        lemma_index_bound(ws.drop_last(), name);
        if workload_index(ws.drop_last(), name) is None {
            assert forall|j: int| 0 <= j < ws.len() - 1 implies #[trigger] ws[j].0@ != name by {
                assert(ws.drop_last()[j] == ws[j]);
            }
        } else {
            let i = workload_index(ws.drop_last(), name)->0;
            assert(ws.drop_last()[i] == ws[i]);
        }
    }
}

} // verus!
