//! Errors returned by the library.
use crate::scheduler::info::TypeInfo;
use crate::scheduler::label::Label;
use crate::tracking::Tracking;
use vstd::prelude::*;

verus! {

/// Why a storage could not be borrowed.
#[derive(Debug, PartialEq, Eq, Clone, Copy, Structural)]
pub enum GetStorage {
    /// The borrow asks for a kind of tracking that the storage does not do.
    TrackingNotEnabled { tracking: Tracking },
}

/// Why a workload cannot run in a world.
#[derive(Debug, PartialEq)]
pub enum UniquePresence {
    /// The world's storages could not be borrowed.
    AllStorages,
    /// A system borrows this unique storage, which the world lacks.
    Unique(TypeInfo),
}

/// Why a system could not be made.
#[derive(Debug, PartialEq, Eq, Clone, Copy, Structural)]
pub enum InvalidSystem {
    /// All storages are borrowed exclusively beside other storages.
    AllStorages,
    /// A storage is borrowed twice, once exclusively.
    MultipleViews,
    /// A storage is borrowed exclusively twice.
    MultipleViewsMut,
}

/// Why a workload's requirements cannot be met.
#[derive(Debug, PartialEq)]
pub enum ImpossibleRequirements {
    /// These systems wait on each other.
    Cycle(Vec<Label>),
}

/// Why a workload could not be added.
#[derive(Debug, PartialEq)]
pub enum AddWorkload {
    /// A workload with the same name is already present.
    AlreadyExists,
    /// A nested workload is not present.
    UnknownWorkload(Label, Label),
    /// The ordering constraints cannot all be met.
    ImpossibleRequirements(ImpossibleRequirements),
    /// The system requires labels missing from the workload.
    MissingInWorkload(Label, Vec<Label>),
    /// The system requires labels missing before it.
    MissingBefore(Label, Vec<Label>),
    /// The system requires labels missing after it.
    MissingAfter(Label, Vec<Label>),
}

/// Why the default workload could not be changed.
#[derive(Debug, PartialEq, Eq, Clone, Copy, Structural)]
pub enum SetDefaultWorkload {
    /// No workload has this name.
    MissingWorkload,
}

/// Why a workload could not be run.
#[derive(Debug, PartialEq, Eq, Clone, Copy, Structural)]
pub enum RunWorkload {
    /// No workload has this name.
    MissingWorkload,
}

/// Why a section of an update packed window could not be had.
#[derive(Debug, PartialEq, Eq, Clone, Copy, Structural)]
pub enum UpdateWindow {
    /// The section does not lie inside the window.
    OutOfBounds,
    /// The storage is not update packed.
    NotUpdatePacked,
}

/// Why a window could not be sorted.
#[derive(Debug, PartialEq, Eq, Clone, Copy, Structural)]
pub enum Sort {
    /// The storage is packed; only storages without packing can be sorted through a window.
    MissingPackStorage,
}

/// The storage is not update packed.
#[derive(Debug, PartialEq, Eq, Clone, Copy, Structural)]
pub struct NotUpdatePack;

/// A range does not lie inside what it is taken from.
#[derive(Debug, PartialEq, Eq, Clone, Copy, Structural)]
pub enum NotInbound {
    /// The range does not lie inside the window.
    Window,
}

} // verus!
