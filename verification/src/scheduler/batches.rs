use crate::scheduler::system::{RunCondition, RunFacts};
use vstd::prelude::*;

verus! {

/// Marks a system without run condition in the run condition lists.
pub const NO_RUN_IF: usize = usize::MAX;

/// How a workload runs: systems are indexes into the scheduler's list of systems.
pub struct Batches {
    /// Batches of systems that run in parallel: an optional system that must
    /// run alone and the systems that can run beside each other.
    pub parallel: Vec<(Option<usize>, Vec<usize>)>,
    /// Index into `systems_run_if` of each system of `parallel`.
    pub parallel_run_if: Vec<(usize, Vec<usize>)>,
    /// The systems in the order they run without parallelism.
    pub sequential: Vec<usize>,
    /// Index into `systems_run_if` of each system of `sequential`.
    pub sequential_run_if: Vec<usize>,
    /// Condition for the whole workload to run.
    pub workload_run_if: Option<RunCondition>,
    /// Conditions of the systems.
    pub systems_run_if: Vec<RunCondition>,
}

impl Batches {
    /// Batches of an empty workload.
    pub fn new() -> (b: Batches)
        ensures
            b.parallel@.len() == 0,
            b.parallel_run_if@.len() == 0,
            b.sequential@.len() == 0,
            b.sequential_run_if@.len() == 0,
            b.workload_run_if is None,
            b.systems_run_if@.len() == 0,
    {
        Batches {
            parallel: Vec::new(),
            parallel_run_if: Vec::new(),
            sequential: Vec::new(),
            sequential_run_if: Vec::new(),
            workload_run_if: None,
            systems_run_if: Vec::new(),
        }
    }

    /// Whether the `k`-th system of the sequential order runs.
    pub open spec fn runs_at(&self, k: int, facts: RunFacts) -> bool {
        let r = self.sequential_run_if@[k];
        r == NO_RUN_IF || (r < self.systems_run_if@.len() && self.systems_run_if@[r as int].holds(facts.storages@, facts.custom@))
    }

    /// Systems that run, in order, given the state of the world.
    pub open spec fn systems_to_run_spec(&self, facts: RunFacts, k: int) -> Seq<usize>
        decreases k,
    {
        if k <= 0 {
            Seq::empty()
        } else if self.runs_at(k - 1, facts) {
            self.systems_to_run_spec(facts, k - 1).push(self.sequential@[k - 1])
        } else {
            self.systems_to_run_spec(facts, k - 1)
        }
    }

    /// The systems that run, in order, when the workload runs sequentially in
    /// a world described by `facts`.
    ///
    /// Nothing runs when the workload's condition does not hold. A system runs
    /// when it has no condition or its condition holds.
    pub fn systems_to_run(&self, facts: &RunFacts) -> (r: Vec<usize>)
        requires
            self.sequential_run_if@.len() == self.sequential@.len(),
        ensures
            match self.workload_run_if {
                Some(c) => if c.holds(facts.storages@, facts.custom@) {
                    r@ == self.systems_to_run_spec(*facts, self.sequential@.len() as int)
                } else {
                    r@.len() == 0
                },
                None => r@ == self.systems_to_run_spec(*facts, self.sequential@.len() as int),
            },
    {
        let mut r: Vec<usize> = Vec::new();
        if let Some(c) = &self.workload_run_if {
            if !c.evaluate(facts) {
                return r;
            }
        }
        let mut k: usize = 0;
        while k < self.sequential.len()
            invariant
                k <= self.sequential@.len(),
                self.sequential_run_if@.len() == self.sequential@.len(),
                r@ == self.systems_to_run_spec(*facts, k as int),
            decreases self.sequential@.len() - k,
        {
            let run_if = self.sequential_run_if[k];
            let runs = if run_if == NO_RUN_IF {
                true
            } else if run_if < self.systems_run_if.len() {
                self.systems_run_if[run_if].evaluate(facts)
            } else {
                false
            };
            if runs {
                r.push(self.sequential[k]);
            }
            k += 1;
        }
        r
    }
}

} // verus!
