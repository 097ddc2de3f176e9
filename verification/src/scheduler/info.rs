//! Types describing how a workload was split into batches.
use crate::scheduler::label::Label;
use crate::type_id::TypeId;
use vstd::prelude::*;

verus! {

/// How a storage is borrowed.
#[derive(Clone, Copy, Debug, PartialEq, Eq, Structural)]
pub enum Mutability {
    Shared,
    Exclusive,
}

/// A storage borrowed by a system.
#[derive(Debug, PartialEq)]
pub struct TypeInfo {
    pub name: String,
    pub mutability: Mutability,
    pub storage_id: TypeId,
    pub thread_safe: bool,
}

/// Both type infos describe the same borrow.
pub open spec fn same_type_info(a: TypeInfo, b: TypeInfo) -> bool {
    &&& a.name@ == b.name@
    &&& a.mutability == b.mutability
    &&& a.storage_id == b.storage_id
    &&& a.thread_safe == b.thread_safe
}

impl TypeInfo {
    /// A borrow of the storage `storage_id`.
    pub fn new(name: &str, mutability: Mutability, storage_id: TypeId, thread_safe: bool) -> (t: TypeInfo)
        ensures
            t.name@ == name@,
            t.mutability == mutability,
            t.storage_id == storage_id,
            t.thread_safe == thread_safe,
    {
        TypeInfo { name: name.to_owned(), mutability, storage_id, thread_safe }
    }

    /// Returns a copy of this type info.
    pub fn duplicate(&self) -> (t: TypeInfo)
        ensures
            same_type_info(t, *self),
    {
        TypeInfo {
            name: self.name.clone(),
            mutability: self.mutability,
            storage_id: self.storage_id,
            thread_safe: self.thread_safe,
        }
    }
}

/// Copies a list of type infos.
pub fn duplicate_type_infos(infos: &Vec<TypeInfo>) -> (r: Vec<TypeInfo>)
    ensures
        r@.len() == infos@.len(),
        forall|k: int| 0 <= k < infos@.len() ==> same_type_info(#[trigger] r@[k], infos@[k]),
{
    let mut r: Vec<TypeInfo> = Vec::new();
    let mut i: usize = 0;
    while i < infos.len()
        invariant
            i <= infos.len(),
            r@.len() == i,
            forall|k: int| 0 <= k < i ==> same_type_info(#[trigger] r@[k], infos@[k]),
        decreases infos.len() - i,
    {
        r.push(infos[i].duplicate());
        i += 1;
    }
    r
}

/// Identifies a system.
#[derive(Debug, PartialEq)]
pub struct SystemId {
    pub name: Label,
    pub type_id: TypeId,
}

/// Explains why a system could not be part of the previous batch.
#[derive(Debug, PartialEq)]
#[allow(inconsistent_fields)]
pub enum Conflict {
    /// The two borrows cannot be held at the same time.
    Borrow { type_info: Option<TypeInfo>, other_system: usize, other_type_info: TypeInfo },
    /// A `!Send` or `!Sync` type prevents any parallelism.
    NotSendSync(TypeInfo),
    /// Another system's `!Send` or `!Sync` type prevents any parallelism.
    OtherNotSendSync { system: usize, type_info: TypeInfo },
}

impl Conflict {
    /// Returns a copy of this conflict.
    pub fn duplicate(&self) -> (c: Conflict)
        ensures
            match (*self, c) {
                (Conflict::Borrow { type_info: a, other_system: s, other_type_info: o },
                 Conflict::Borrow { type_info: a2, other_system: s2, other_type_info: o2 }) =>
                    s == s2 && same_type_info(o, o2) && (a is Some <==> a2 is Some)
                    && (a is Some ==> same_type_info(a->0, a2->0)),
                (Conflict::NotSendSync(t), Conflict::NotSendSync(t2)) => same_type_info(t, t2),
                (Conflict::OtherNotSendSync { system: s, type_info: t },
                 Conflict::OtherNotSendSync { system: s2, type_info: t2 }) => s == s2 && same_type_info(t, t2),
                _ => false,
            },
    {
        match self {
            Conflict::Borrow { type_info, other_system, other_type_info } => Conflict::Borrow {
                type_info: match type_info {
                    Some(t) => Some(t.duplicate()),
                    None => None,
                },
                other_system: *other_system,
                other_type_info: other_type_info.duplicate(),
            },
            Conflict::NotSendSync(t) => Conflict::NotSendSync(t.duplicate()),
            Conflict::OtherNotSendSync { system, type_info } => Conflict::OtherNotSendSync {
                system: *system,
                type_info: type_info.duplicate(),
            },
        }
    }
}

/// Information about a system placed in a batch.
#[derive(Debug, PartialEq)]
pub struct SystemInfo {
    pub name: Label,
    pub borrow: Vec<TypeInfo>,
    pub conflict: Option<Conflict>,
    pub after: Vec<usize>,
    pub after_all: Vec<Label>,
    pub before_all: Vec<Label>,
    pub unique_id: usize,
}

/// Systems that can run in parallel: an optional system that must run alone
/// on the main thread and the systems that run beside it.
#[derive(Debug, PartialEq)]
pub struct BatchInfo {
    pub systems: (Option<SystemInfo>, Vec<SystemInfo>),
}

impl BatchInfo {
    /// An empty batch.
    pub fn new() -> (b: BatchInfo)
        ensures
            b.systems.0 is None,
            b.systems.1@.len() == 0,
    {
        BatchInfo { systems: (None, Vec::new()) }
    }

    /// Number of systems in the batch.
    pub fn len(&self) -> (n: usize)
        requires
            self.systems.1@.len() < usize::MAX,
        ensures
            n == self.systems.1@.len() + if self.systems.0 is Some { 1int } else { 0int },
    {
        match &self.systems.0 {
            Some(_) => self.systems.1.len() + 1,
            None => self.systems.1.len(),
        }
    }

    /// The `i`-th system of the batch, the single system coming first.
    pub fn system(&self, i: usize) -> (s: Option<&SystemInfo>)
        ensures
            match self.systems.0 {
                Some(single) => if i == 0 {
                    s == Some(&single)
                } else if i - 1 < self.systems.1@.len() {
                    s == Some(&self.systems.1@[i - 1])
                } else {
                    s is None
                },
                None => if i < self.systems.1@.len() {
                    s == Some(&self.systems.1@[i as int])
                } else {
                    s is None
                },
            },
    {
        match &self.systems.0 {
            Some(single) => {
                if i == 0 {
                    Some(single)
                } else if i - 1 < self.systems.1.len() {
                    Some(&self.systems.1[i - 1])
                } else {
                    None
                }
            },
            None => {
                if i < self.systems.1.len() {
                    Some(&self.systems.1[i])
                } else {
                    None
                }
            },
        }
    }
}

/// Information about a workload: its name and its batches.
#[derive(Debug, PartialEq)]
pub struct WorkloadInfo {
    pub name: Label,
    pub batches_info: Vec<BatchInfo>,
}

} // verus!
