use crate::error::InvalidSystem;
use crate::scheduler::info::{Mutability, TypeInfo};
use crate::scheduler::label::{contains_label, labels_contain, Label, LabelView};
use crate::type_id::TypeId;
use vstd::prelude::*;

verus! {

/// State of a storage when a run condition is evaluated.
#[derive(Clone, Copy, Debug, PartialEq, Eq, Structural)]
pub enum StorageState {
    /// The storage is not in the world.
    Missing,
    /// The storage is present and holds no component.
    Empty,
    /// The storage is present and holds components.
    NonEmpty,
    /// The storage could not be borrowed.
    Borrowed,
}

/// What the world looks like when run conditions are evaluated: the state of
/// storages and the outcome of custom conditions.
pub struct RunFacts {
    pub storages: Vec<(TypeId, StorageState)>,
    pub custom: Vec<(u64, bool)>,
}

/// State recorded for `storage_id`, `Missing` when none is.
pub open spec fn storage_state_spec(facts: Seq<(TypeId, StorageState)>, storage_id: TypeId) -> StorageState
    decreases facts.len(),
{
    if facts.len() == 0 {
        StorageState::Missing
    } else if facts[0].0 == storage_id {
        facts[0].1
    } else {
        storage_state_spec(facts.drop_first(), storage_id)
    }
}

/// Outcome recorded for custom condition `id`, `false` when none is.
pub open spec fn custom_outcome_spec(facts: Seq<(u64, bool)>, id: u64) -> bool
    decreases facts.len(),
{
    if facts.len() == 0 {
        false
    } else if facts[0].0 == id {
        facts[0].1
    } else {
        custom_outcome_spec(facts.drop_first(), id)
    }
}

/// Condition deciding whether a system or a workload runs.
#[derive(Debug, PartialEq)]
pub enum RunCondition {
    /// A condition computed outside, identified by a number.
    Custom(u64),
    /// The storage is empty or missing.
    ///
    /// A storage that cannot be borrowed is assumed not to be empty.
    StorageEmpty(TypeId),
    /// The negation of a condition.
    Not(Box<RunCondition>),
    /// Both conditions hold.
    And(Box<RunCondition>, Box<RunCondition>),
}

impl RunCondition {
    pub open spec fn holds(self, storages: Seq<(TypeId, StorageState)>, custom: Seq<(u64, bool)>) -> bool
        decreases self,
    {
        match self {
            RunCondition::Custom(id) => custom_outcome_spec(custom, id),
            RunCondition::StorageEmpty(storage_id) => match storage_state_spec(storages, storage_id) {
                StorageState::Missing => true,
                StorageState::Empty => true,
                StorageState::NonEmpty => false,
                StorageState::Borrowed => false,
            },
            RunCondition::Not(c) => !c.holds(storages, custom),
            RunCondition::And(a, b) => a.holds(storages, custom) && b.holds(storages, custom),
        }
    }

    /// Evaluates the condition against `facts`.
    pub fn evaluate(&self, facts: &RunFacts) -> (b: bool)
        ensures
            b == self.holds(facts.storages@, facts.custom@),
        decreases self,
    {
        match self {
            RunCondition::Custom(id) => custom_outcome(&facts.custom, *id),
            RunCondition::StorageEmpty(storage_id) => match storage_state(&facts.storages, *storage_id) {
                StorageState::Missing => true,
                StorageState::Empty => true,
                StorageState::NonEmpty => false,
                StorageState::Borrowed => false,
            },
            RunCondition::Not(c) => !c.evaluate(facts),
            RunCondition::And(a, b) => a.evaluate(facts) && b.evaluate(facts),
        }
    }

    /// Returns a copy of this condition.
    pub fn duplicate(&self) -> (c: RunCondition)
        ensures
            c == *self,
        decreases self,
    {
        match self {
            RunCondition::Custom(id) => RunCondition::Custom(*id),
            RunCondition::StorageEmpty(s) => RunCondition::StorageEmpty(*s),
            RunCondition::Not(c) => RunCondition::Not(Box::new(c.duplicate())),
            RunCondition::And(a, b) => RunCondition::And(Box::new(a.duplicate()), Box::new(b.duplicate())),
        }
    }

    /// The negation of this condition.
    pub fn not(self) -> (c: RunCondition)
        ensures
            c == RunCondition::Not(Box::new(self)),
    {
        RunCondition::Not(Box::new(self))
    }
}

/// An `And` of two conditions holds exactly when both hold, and a `Not`
/// holds exactly when its condition does not.
pub proof fn law_run_condition_connectives(
    a: RunCondition,
    b: RunCondition,
    storages: Seq<(TypeId, StorageState)>,
    custom: Seq<(u64, bool)>,
)
    ensures
        RunCondition::And(Box::new(a), Box::new(b)).holds(storages, custom) == (a.holds(storages, custom)
            && b.holds(storages, custom)),
        RunCondition::Not(Box::new(a)).holds(storages, custom) == !a.holds(storages, custom),
{
}

/// A storage counts as empty exactly when the world finds it missing or
/// without components, a borrowed storage never does, and a custom condition
/// holds exactly when its recorded outcome is `true`.
pub proof fn law_leaf_conditions(
    storage_id: TypeId,
    custom_id: u64,
    storages: Seq<(TypeId, StorageState)>,
    custom: Seq<(u64, bool)>,
)
    ensures
        RunCondition::StorageEmpty(storage_id).holds(storages, custom) == (storage_state_spec(storages, storage_id)
            == StorageState::Missing || storage_state_spec(storages, storage_id) == StorageState::Empty),
        RunCondition::Custom(custom_id).holds(storages, custom) == custom_outcome_spec(custom, custom_id),
{
}

/// The state of a storage is the one its first record gives.
pub proof fn law_storage_state_first_record(facts: Seq<(TypeId, StorageState)>, storage_id: TypeId, k: int)
    requires
        0 <= k < facts.len(),
        facts[k].0 == storage_id,
        forall|j: int| 0 <= j < k ==> facts[j].0 != storage_id,
    ensures
        storage_state_spec(facts, storage_id) == facts[k].1,
    decreases k,
{
    if k > 0 {
        law_storage_state_first_record(facts.drop_first(), storage_id, k - 1);
    }
}

/// A storage with no record is missing.
pub proof fn law_storage_state_unrecorded(facts: Seq<(TypeId, StorageState)>, storage_id: TypeId)
    requires
        forall|j: int| 0 <= j < facts.len() ==> facts[j].0 != storage_id,
    ensures
        storage_state_spec(facts, storage_id) == StorageState::Missing,
    decreases facts.len(),
{
    if facts.len() > 0 {
        law_storage_state_unrecorded(facts.drop_first(), storage_id);
    }
}

/// The outcome of a custom condition is the one its first record gives.
pub proof fn law_custom_outcome_first_record(facts: Seq<(u64, bool)>, id: u64, k: int)
    requires
        0 <= k < facts.len(),
        facts[k].0 == id,
        forall|j: int| 0 <= j < k ==> facts[j].0 != id,
    ensures
        custom_outcome_spec(facts, id) == facts[k].1,
    decreases k,
{
    if k > 0 {
        law_custom_outcome_first_record(facts.drop_first(), id, k - 1);
    }
}

/// A custom condition with no record does not hold.
pub proof fn law_custom_outcome_unrecorded(facts: Seq<(u64, bool)>, id: u64)
    requires
        forall|j: int| 0 <= j < facts.len() ==> facts[j].0 != id,
    ensures
        !custom_outcome_spec(facts, id),
    decreases facts.len(),
{
    if facts.len() > 0 {
        law_custom_outcome_unrecorded(facts.drop_first(), id);
    }
}

fn storage_state(facts: &Vec<(TypeId, StorageState)>, storage_id: TypeId) -> (s: StorageState)
    ensures
        s == storage_state_spec(facts@, storage_id),
{
    let mut i: usize = 0;
    assert(facts@.subrange(0, facts@.len() as int) =~= facts@);
    while i < facts.len()
        invariant
            i <= facts.len(),
            storage_state_spec(facts@, storage_id) == storage_state_spec(facts@.subrange(i as int, facts@.len() as int), storage_id),
        decreases facts.len() - i,
    {
        assert(facts@.subrange(i as int, facts@.len() as int).drop_first() =~= facts@.subrange(i + 1, facts@.len() as int));
        if facts[i].0 == storage_id {
            return facts[i].1;
        }
        i += 1;
    }
    StorageState::Missing
}

fn custom_outcome(facts: &Vec<(u64, bool)>, id: u64) -> (b: bool)
    ensures
        b == custom_outcome_spec(facts@, id),
{
    let mut i: usize = 0;
    assert(facts@.subrange(0, facts@.len() as int) =~= facts@);
    while i < facts.len()
        invariant
            i <= facts.len(),
            custom_outcome_spec(facts@, id) == custom_outcome_spec(facts@.subrange(i as int, facts@.len() as int), id),
        decreases facts.len() - i,
    {
        assert(facts@.subrange(i as int, facts@.len() as int).drop_first() =~= facts@.subrange(i + 1, facts@.len() as int));
        if facts[i].0 == id {
            return facts[i].1;
        }
        i += 1;
    }
    false
}

/// Adds `label` to `labels` unless an equal label is there. Returns `true` if it was added.
pub fn add_deduped(labels: &mut Vec<Label>, label: Label) -> (added: bool)
    ensures
        added == !labels_contain(old(labels)@, label@),
        labels_contain(final(labels)@, label@),
        added ==> final(labels)@ == old(labels)@.push(label),
        !added ==> final(labels)@ == old(labels)@,
{
    if contains_label(labels, &label) {
        false
    } else {
        let ghost l = label@;
        labels.push(label);
        assert(labels@[labels@.len() - 1]@ == l);
        true
    }
}

/// Two borrows of one system that cannot stand together.
pub open spec fn invalid_pair(a: TypeInfo, b: TypeInfo) -> bool {
    a.storage_id == b.storage_id && (a.mutability == Mutability::Exclusive || b.mutability == Mutability::Exclusive)
}

/// All storages are borrowed exclusively beside other borrows.
pub open spec fn all_storages_beside_others(bs: Seq<TypeInfo>) -> bool {
    bs.len() > 1 && exists|k: int| 0 <= k < bs.len() && bs[k].storage_id.0 == 0 && bs[k].mutability == Mutability::Exclusive
}

/// The borrows of one system can stand together.
pub open spec fn valid_borrows(bs: Seq<TypeInfo>) -> bool {
    &&& !all_storages_beside_others(bs)
    &&& forall|x: int, y: int| 0 <= x < y < bs.len() ==> !invalid_pair(#[trigger] bs[x], #[trigger] bs[y])
}

/// The borrows at `a` and `b` cannot stand together, and they are the first such pair, in
/// the order of `a` and then of `b`.
pub open spec fn first_invalid_pair(bs: Seq<TypeInfo>, a: int, b: int) -> bool {
    &&& 0 <= a < b < bs.len()
    &&& invalid_pair(bs[a], bs[b])
    &&& forall|x: int, y: int| 0 <= x < y < bs.len() && (x < a || (x == a && y < b)) ==> !invalid_pair(#[trigger] bs[x], #[trigger] bs[y])
}

/// Self contained system that may be inserted into a workload.
pub struct WorkloadSystem {
    pub type_id: TypeId,
    pub display_name: Label,
    /// The storages the system borrows.
    pub borrow_constraints: Vec<TypeInfo>,
    /// The storages whose tracking the system needs enabled.
    pub tracking_to_enable: Vec<TypeId>,
    pub run_if: Option<RunCondition>,
    pub tags: Vec<Label>,
    pub before_all: Vec<Label>,
    pub after_all: Vec<Label>,
    pub require_in_workload: Vec<Label>,
    pub require_before: Vec<Label>,
    pub require_after: Vec<Label>,
    /// Occurrences of systems, by unique id, that this system must run before.
    pub before: Vec<usize>,
    /// Position of this occurrence inside its workload.
    pub unique_id: usize,
}

impl WorkloadSystem {
    /// A system of type `type_id` borrowing `borrow_constraints`.
    ///
    /// Fails when the system borrows all storages exclusively beside other
    /// storages, or borrows one storage twice with at least one exclusive borrow.
    pub fn new(type_id: TypeId, borrow_constraints: Vec<TypeInfo>) -> (r: Result<WorkloadSystem, InvalidSystem>)
        ensures
            match r {
                Ok(s) => {
                    &&& s.type_id == type_id
                    &&& s.display_name@ == LabelView::Type(type_id.0)
                    &&& s.borrow_constraints@ == borrow_constraints@
                    &&& s.tags@.len() == 1 && s.tags@[0]@ == LabelView::Type(type_id.0)
                    &&& s.run_if is None
                    &&& s.before_all@.len() == 0 && s.after_all@.len() == 0
                    &&& s.require_in_workload@.len() == 0
                    &&& s.require_before@.len() == 0 && s.require_after@.len() == 0
                    &&& s.before@.len() == 0 && s.tracking_to_enable@.len() == 0
                    &&& s.unique_id == 0
                    &&& !(borrow_constraints@.len() > 1 && exists|k: int| 0 <= k < borrow_constraints@.len()
                        && borrow_constraints@[k].storage_id.0 == 0 && borrow_constraints@[k].mutability == Mutability::Exclusive)
                    &&& forall|a: int, b: int| 0 <= a < b < borrow_constraints@.len() ==> !invalid_pair(borrow_constraints@[a], borrow_constraints@[b])
                },
                Err(InvalidSystem::AllStorages) => all_storages_beside_others(borrow_constraints@),
                Err(InvalidSystem::MultipleViewsMut) => !all_storages_beside_others(borrow_constraints@)
                    && exists|a: int, b: int| first_invalid_pair(borrow_constraints@, a, b)
                        && borrow_constraints@[a].mutability == Mutability::Exclusive
                        && borrow_constraints@[b].mutability == Mutability::Exclusive,
                Err(InvalidSystem::MultipleViews) => !all_storages_beside_others(borrow_constraints@)
                    && exists|a: int, b: int| first_invalid_pair(borrow_constraints@, a, b)
                        && !(borrow_constraints@[a].mutability == Mutability::Exclusive
                        && borrow_constraints@[b].mutability == Mutability::Exclusive),
            },
    {
        let n = borrow_constraints.len();
        if n > 1 {
            let mut k: usize = 0;
            while k < n
                invariant
                    k <= n,
                    n > 1,
                    n == borrow_constraints@.len(),
                    forall|j: int| 0 <= j < k ==> !(borrow_constraints@[j].storage_id.0 == 0 && borrow_constraints@[j].mutability == Mutability::Exclusive),
                decreases n - k,
            {
                if borrow_constraints[k].storage_id.0 == 0 && borrow_constraints[k].mutability == Mutability::Exclusive {
                    assert(borrow_constraints@[k as int].storage_id.0 == 0 && borrow_constraints@[k as int].mutability == Mutability::Exclusive);
                    return Err(InvalidSystem::AllStorages);
                }
                k += 1;
            }
            let mut a: usize = 0;
            while a < n
                invariant
                    a <= n,
                    n == borrow_constraints@.len(),
                    forall|x: int, y: int| 0 <= x < a && x < y < n ==> !invalid_pair(borrow_constraints@[x], borrow_constraints@[y]),
                    forall|j: int| 0 <= j < n ==> !(borrow_constraints@[j].storage_id.0 == 0 && borrow_constraints@[j].mutability == Mutability::Exclusive),
                decreases n - a,
            {
                let mut b: usize = a + 1;
                while b < n
                    invariant
                        a < n,
                        a + 1 <= b <= n,
                        n == borrow_constraints@.len(),
                        forall|x: int, y: int| 0 <= x < a && x < y < n ==> !invalid_pair(borrow_constraints@[x], borrow_constraints@[y]),
                            forall|j: int| 0 <= j < n ==> !(borrow_constraints@[j].storage_id.0 == 0 && borrow_constraints@[j].mutability == Mutability::Exclusive),
                        forall|y: int| a < y < b ==> !invalid_pair(borrow_constraints@[a as int], borrow_constraints@[y]),
                    decreases n - b,
                {
                    if borrow_constraints[a].storage_id == borrow_constraints[b].storage_id {
                        assert(borrow_constraints@[a as int].storage_id == borrow_constraints@[b as int].storage_id);
                        match (borrow_constraints[a].mutability, borrow_constraints[b].mutability) {
                            (Mutability::Exclusive, Mutability::Exclusive) => {
                                assert(invalid_pair(borrow_constraints@[a as int], borrow_constraints@[b as int]));
                                assert(first_invalid_pair(borrow_constraints@, a as int, b as int));
                                assert(!all_storages_beside_others(borrow_constraints@));
                                return Err(InvalidSystem::MultipleViewsMut);
                            },
                            (Mutability::Shared, Mutability::Shared) => {},
                            _ => {
                                assert(invalid_pair(borrow_constraints@[a as int], borrow_constraints@[b as int]));
                                assert(first_invalid_pair(borrow_constraints@, a as int, b as int));
                                assert(!all_storages_beside_others(borrow_constraints@));
                                return Err(InvalidSystem::MultipleViews);
                            },
                        }
                    }
                    b += 1;
                }
                a += 1;
            }
        }
        let mut tags: Vec<Label> = Vec::new();
        tags.push(Label::of_type(type_id));
        Ok(WorkloadSystem {
            type_id,
            display_name: Label::of_type(type_id),
            borrow_constraints,
            tracking_to_enable: Vec::new(),
            run_if: None,
            tags,
            before_all: Vec::new(),
            after_all: Vec::new(),
            require_in_workload: Vec::new(),
            require_before: Vec::new(),
            require_after: Vec::new(),
            before: Vec::new(),
            unique_id: 0,
        })
    }

    /// The label of this system.
    pub fn label(&self) -> (l: Label)
        ensures
            l@ == LabelView::Type(self.type_id.0),
    {
        Label::of_type(self.type_id)
    }

    /// Only run the system if the condition holds.
    pub fn run_if(self, condition: RunCondition) -> (s: WorkloadSystem)
        ensures
            s.run_if == Some(condition),
            s.tags == self.tags,
            s.before_all == self.before_all,
            s.after_all == self.after_all,
            s.borrow_constraints == self.borrow_constraints,
            s.unique_id == self.unique_id,
            s.type_id == self.type_id,
    {
        let mut sys = self;
        sys.run_if = Some(condition);
        sys
    }

    /// Do not run the system if the condition holds.
    pub fn skip_if(self, condition: RunCondition) -> (s: WorkloadSystem)
        ensures
            s.run_if == Some(RunCondition::Not(Box::new(condition))),
            s.tags == self.tags,
            s.unique_id == self.unique_id,
            s.type_id == self.type_id,
    {
        self.run_if(condition.not())
    }

    /// Only run the system if the storage `storage_id` is empty or missing.
    pub fn run_if_storage_empty_by_id(self, storage_id: TypeId) -> (s: WorkloadSystem)
        ensures
            s.run_if == Some(RunCondition::StorageEmpty(storage_id)),
            s.tags == self.tags,
            s.unique_id == self.unique_id,
    {
        self.run_if(RunCondition::StorageEmpty(storage_id))
    }

    /// Do not run the system if the storage `storage_id` is empty or missing.
    pub fn skip_if_storage_empty_by_id(self, storage_id: TypeId) -> (s: WorkloadSystem)
        ensures
            s.run_if == Some(RunCondition::Not(Box::new(RunCondition::StorageEmpty(storage_id)))),
            s.tags == self.tags,
            s.unique_id == self.unique_id,
    {
        self.skip_if(RunCondition::StorageEmpty(storage_id))
    }

    /// Do not run the system if the component storage `storage_id` is empty or missing.
    pub fn skip_if_storage_empty(self, storage_id: TypeId) -> (s: WorkloadSystem)
        ensures
            s.run_if == Some(RunCondition::Not(Box::new(RunCondition::StorageEmpty(storage_id)))),
            s.tags == self.tags,
            s.unique_id == self.unique_id,
    {
        self.skip_if_storage_empty_by_id(storage_id)
    }

    /// Do not run the system if the unique storage `storage_id` is missing.
    pub fn skip_if_missing_unique(self, storage_id: TypeId) -> (s: WorkloadSystem)
        ensures
            s.run_if == Some(RunCondition::Not(Box::new(RunCondition::StorageEmpty(storage_id)))),
            s.tags == self.tags,
            s.unique_id == self.unique_id,
    {
        self.skip_if_storage_empty_by_id(storage_id)
    }

    /// Place this system before every system or workload labelled `other`.
    pub fn before_all(self, other: Label) -> (s: WorkloadSystem)
        ensures
            labels_contain(s.before_all@, other@),
            labels_contain(self.before_all@, other@) ==> s.before_all@ == self.before_all@,
            !labels_contain(self.before_all@, other@) ==> s.before_all@ == self.before_all@.push(other),
            s.after_all == self.after_all,
            s.tags == self.tags,
            s.unique_id == self.unique_id,
            s.type_id == self.type_id,
    {
        let mut sys = self;
        add_deduped(&mut sys.before_all, other);
        sys
    }

    /// Place this system after every system or workload labelled `other`.
    pub fn after_all(self, other: Label) -> (s: WorkloadSystem)
        ensures
            labels_contain(s.after_all@, other@),
            labels_contain(self.after_all@, other@) ==> s.after_all@ == self.after_all@,
            !labels_contain(self.after_all@, other@) ==> s.after_all@ == self.after_all@.push(other),
            s.before_all == self.before_all,
            s.tags == self.tags,
            s.unique_id == self.unique_id,
            s.type_id == self.type_id,
    {
        let mut sys = self;
        add_deduped(&mut sys.after_all, other);
        sys
    }

    /// Name used in errors and information.
    pub fn display_name(self, name: Label) -> (s: WorkloadSystem)
        ensures
            s.display_name == name,
            s.tags == self.tags,
            s.unique_id == self.unique_id,
    {
        let mut sys = self;
        sys.display_name = name;
        sys
    }

    /// Adds a tag to this system.
    pub fn tag(self, tag: Label) -> (s: WorkloadSystem)
        ensures
            s.tags@ == self.tags@.push(tag),
            s.before_all == self.before_all,
            s.after_all == self.after_all,
            s.unique_id == self.unique_id,
            s.type_id == self.type_id,
    {
        let mut sys = self;
        sys.tags.push(tag);
        sys
    }

    /// Requires a system or workload labelled `other` in the workload.
    pub fn require_in_workload(self, other: Label) -> (s: WorkloadSystem)
        ensures
            labels_contain(self.require_in_workload@, other@) ==> s.require_in_workload@ == self.require_in_workload@,
            !labels_contain(self.require_in_workload@, other@) ==> s.require_in_workload@ == self.require_in_workload@.push(other),
            s.tags == self.tags,
            s.unique_id == self.unique_id,
    {
        let mut sys = self;
        add_deduped(&mut sys.require_in_workload, other);
        sys
    }

    /// Requires a system or workload labelled `other` to run before this one.
    pub fn require_before(self, other: Label) -> (s: WorkloadSystem)
        ensures
            labels_contain(self.require_before@, other@) ==> s.require_before@ == self.require_before@,
            !labels_contain(self.require_before@, other@) ==> s.require_before@ == self.require_before@.push(other),
            s.tags == self.tags,
            s.unique_id == self.unique_id,
    {
        let mut sys = self;
        add_deduped(&mut sys.require_before, other);
        sys
    }

    /// Requires a system or workload labelled `other` to run after this one.
    pub fn require_after(self, other: Label) -> (s: WorkloadSystem)
        ensures
            labels_contain(self.require_after@, other@) ==> s.require_after@ == self.require_after@,
            !labels_contain(self.require_after@, other@) ==> s.require_after@ == self.require_after@.push(other),
            s.tags == self.tags,
            s.unique_id == self.unique_id,
    {
        let mut sys = self;
        add_deduped(&mut sys.require_after, other);
        sys
    }
}

} // verus!
