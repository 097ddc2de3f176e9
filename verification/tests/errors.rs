use shipyard::entity_id::EntityId;
use shipyard::error::{AddWorkload, InvalidSystem, NotInbound, RunWorkload, SetDefaultWorkload, UpdateWindow};
use shipyard::scheduler::builder::{BuilderScheduler, BuilderSystem};
use shipyard::scheduler::info::{Mutability, TypeInfo};
use shipyard::scheduler::label::Label;
use shipyard::scheduler::system::WorkloadSystem;
use shipyard::scheduler::workload::Workload;
use shipyard::scheduler::Scheduler;
use shipyard::serde_setup::{DeError, TwoFields};
use shipyard::sparse_set::set::SparseSet;
use shipyard::sparse_set::window::{Pack, PackedStorage, UpdatePack};
use shipyard::type_id::TypeId;

fn shared(storage: u64) -> TypeInfo {
    TypeInfo::new("", Mutability::Shared, TypeId(storage), true)
}

fn exclusive(storage: u64) -> TypeInfo {
    TypeInfo::new("", Mutability::Exclusive, TypeId(storage), true)
}

#[test]
fn invalid_systems_are_refused() {
    assert_eq!(
        WorkloadSystem::new(TypeId(1), vec![exclusive(0), shared(5)]).err(),
        Some(InvalidSystem::AllStorages)
    );
    assert_eq!(WorkloadSystem::new(TypeId(1), vec![shared(5), exclusive(5)]).err(), Some(InvalidSystem::MultipleViews));
    assert_eq!(
        WorkloadSystem::new(TypeId(1), vec![exclusive(5), exclusive(5)]).err(),
        Some(InvalidSystem::MultipleViewsMut)
    );
    assert!(WorkloadSystem::new(TypeId(1), vec![shared(5), shared(5)]).is_ok());
}

#[test]
fn scheduler_refuses_a_second_workload_of_the_same_name() {
    let mut sched = Scheduler::new();
    let system = || WorkloadSystem::new(TypeId(1), vec![shared(5)]).unwrap();
    let tracking = Workload::from_system(system(), 10).rename(Label::named("w")).add_to_world(&mut sched);
    assert!(tracking.is_ok());
    let again = Workload::from_system(system(), 11).rename(Label::named("w")).add_to_world(&mut sched);
    assert_eq!(again, Err(AddWorkload::AlreadyExists));
    assert!(sched.contains_workload(&Label::named("w")));
}

#[test]
fn scheduler_reports_missing_workloads() {
    let mut sched = Scheduler::new();
    assert_eq!(sched.set_default(Label::named("nothing")), Err(SetDefaultWorkload::MissingWorkload));
    assert_eq!(sched.workload(&Label::named("nothing")).err(), Some(RunWorkload::MissingWorkload));
    let system = WorkloadSystem::new(TypeId(1), vec![]).unwrap();
    Workload::from_system(system, 10).rename(Label::named("w")).add_to_world(&mut sched).unwrap();
    assert_eq!(sched.set_default(Label::named("w")), Ok(()));
    assert!(sched.workload(&Label::named("w")).is_ok());
}

#[test]
fn builder_reports_an_unknown_nested_workload() {
    let mut sched = BuilderScheduler::new();
    let mut builder = Workload::builder("outer".to_string());
    builder
        .with_system(BuilderSystem { type_id: TypeId(1), name: "system1".to_string(), borrow: vec![] })
        .with_workload("inner".to_string());
    assert_eq!(
        builder.add_to_world(&mut sched).err(),
        Some(AddWorkload::UnknownWorkload(Label::Name("outer".to_string()), Label::Name("inner".to_string())))
    );
    assert!(sched.workloads.is_empty());
}

fn storage(pack: Pack<u32>) -> PackedStorage<u32> {
    PackedStorage {
        sparse: vec![0, 1, 2],
        dense: (0..3).map(|i| EntityId::new_from_parts(i, 0)).collect(),
        data: vec![0, 1, 2],
        pack,
    }
}

#[test]
fn window_sections_need_an_update_pack_inside_the_window() {
    let plain = storage(Pack::NoPack);
    assert_eq!(plain.as_window().try_inserted().err(), Some(UpdateWindow::NotUpdatePacked));
    let packed = storage(Pack::Update(UpdatePack { inserted: 2, modified: 1, deleted: vec![], removed: vec![] }));
    let whole = packed.as_window();
    assert_eq!(whole.try_inserted().map(|w| w.len()).ok(), Some(2));
    let part = whole.as_window(1, 3);
    assert_eq!(part.try_inserted().err(), Some(UpdateWindow::OutOfBounds));
}

#[test]
fn sub_windows_must_lie_inside() {
    let plain = storage(Pack::NoPack);
    let whole = plain.as_window();
    assert_eq!(whole.try_as_window(1, 4).err(), Some(NotInbound::Window));
    assert_eq!(whole.try_as_window(1, 3).map(|w| w.len()).ok(), Some(2));
}

#[test]
fn deserialized_parts_must_agree() {
    let fields = TwoFields { first: Some(vec![EntityId::new(1), EntityId::new(1)]), second: Some(vec![1u32, 2]) };
    assert!(matches!(SparseSet::from_fields(fields), Err(DeError::InconsistentParts)));
    let fields = TwoFields { first: Some(vec![EntityId::new(1)]), second: Some(vec![1u32, 2]) };
    assert!(matches!(SparseSet::from_fields(fields), Err(DeError::InconsistentParts)));
}
