use shipyard::scheduler::info::{Mutability, TypeInfo};
use shipyard::scheduler::label::Label;
use shipyard::scheduler::system::WorkloadSystem;
use shipyard::scheduler::workload::Workload;
use shipyard::scheduler::Scheduler;
use shipyard::type_id::TypeId;

const USIZE: u64 = 100;
const U32: u64 = 101;
const U16: u64 = 102;
const NOT_SEND: u64 = 103;
const UNIQUE_USIZE: u64 = 200;

fn sys(id: u64, borrows: Vec<TypeInfo>) -> WorkloadSystem {
    WorkloadSystem::new(TypeId(id), borrows).unwrap()
}

fn view(storage: u64) -> TypeInfo {
    TypeInfo::new("", Mutability::Shared, TypeId(storage), true)
}

fn view_mut(storage: u64) -> TypeInfo {
    TypeInfo::new("", Mutability::Exclusive, TypeId(storage), true)
}

fn all_storages_mut() -> TypeInfo {
    TypeInfo::new("AllStorages", Mutability::Exclusive, TypeId(0), true)
}

fn named(name: &str) -> Label {
    Label::named(name)
}

fn batches(sched: &Scheduler, name: &str) -> (Vec<(Option<usize>, Vec<usize>)>, Vec<usize>) {
    let i = sched.find_workload(&named(name)).unwrap();
    let b = &sched.workloads[i].1;
    (b.parallel.clone(), b.sequential.clone())
}

fn add(workload: Workload) -> Scheduler {
    let mut sched = Scheduler::new();
    workload.add_to_world(&mut sched).unwrap();
    sched
}

#[test]
fn workload_single_immutable() {
    let sched = add(Workload::new(named("System1")).with_system(sys(1, vec![view(USIZE)])));
    assert_eq!(sched.system_ids.len(), 1);
    assert_eq!(sched.workloads.len(), 1);
    assert_eq!(batches(&sched, "System1"), (vec![(None, vec![0])], vec![0]));
    assert!(sched.default == named("System1"));
}

#[test]
fn workload_single_mutable() {
    let sched = add(Workload::new(named("System1")).with_system(sys(1, vec![view_mut(USIZE)])));
    assert_eq!(sched.system_ids.len(), 1);
    assert_eq!(sched.workloads.len(), 1);
    assert_eq!(batches(&sched, "System1"), (vec![(None, vec![0])], vec![0]));
    assert!(sched.default == named("System1"));
}

#[test]
fn workload_multiple_immutable() {
    let sched = add(
        Workload::new(named("Systems")).with_system(sys(1, vec![view(USIZE)])).with_system(sys(2, vec![view(USIZE)])),
    );
    assert_eq!(sched.system_ids.len(), 2);
    assert_eq!(sched.workloads.len(), 1);
    assert_eq!(batches(&sched, "Systems"), (vec![(None, vec![0, 1])], vec![0, 1]));
    assert!(sched.default == named("Systems"));
}

#[test]
fn workload_multiple_mutable() {
    let sched = add(
        Workload::new(named("Systems"))
            .with_system(sys(1, vec![view_mut(USIZE)]))
            .with_system(sys(2, vec![view_mut(USIZE)])),
    );
    assert_eq!(sched.system_ids.len(), 2);
    assert_eq!(sched.workloads.len(), 1);
    assert_eq!(batches(&sched, "Systems"), (vec![(None, vec![0]), (None, vec![1])], vec![0, 1]));
    assert!(sched.default == named("Systems"));
}

#[test]
fn workload_multiple_mixed() {
    let sched = add(
        Workload::new(named("Systems")).with_system(sys(1, vec![view_mut(USIZE)])).with_system(sys(2, vec![view(USIZE)])),
    );
    assert_eq!(sched.system_ids.len(), 2);
    assert_eq!(sched.workloads.len(), 1);
    assert_eq!(batches(&sched, "Systems"), (vec![(None, vec![0]), (None, vec![1])], vec![0, 1]));
    assert!(sched.default == named("Systems"));

    let sched = add(
        Workload::new(named("Systems")).with_system(sys(2, vec![view(USIZE)])).with_system(sys(1, vec![view_mut(USIZE)])),
    );
    assert_eq!(sched.system_ids.len(), 2);
    assert_eq!(sched.workloads.len(), 1);
    assert_eq!(batches(&sched, "Systems"), (vec![(None, vec![0]), (None, vec![1])], vec![0, 1]));
    assert!(sched.default == named("Systems"));
}

#[test]
fn workload_append_optimizes_batches() {
    let mut group_a = Workload::new(named("Group A"))
        .with_system(sys(1, vec![view(USIZE), view_mut(U32)]))
        .with_system(sys(2, vec![view(USIZE), view_mut(U32)]));
    let mut group_b = Workload::new(named("Group B")).with_system(sys(3, vec![view(USIZE)]));

    let sched = add(Workload::new(named("Combined")).append(&mut group_a).append(&mut group_b));
    assert_eq!(sched.system_ids.len(), 3);
    assert_eq!(sched.workloads.len(), 1);
    assert_eq!(batches(&sched, "Combined"), (vec![(None, vec![0]), (None, vec![1, 2])], vec![0, 1, 2]));
    assert!(sched.default == named("Combined"));
}

#[test]
fn workload_all_storages() {
    let system1 = || sys(1, vec![view(USIZE)]);
    let system2 = || sys(2, vec![all_storages_mut()]);

    let sched = add(Workload::new(named("Systems")).with_system(system2()));
    assert_eq!(sched.system_ids.len(), 1);
    assert_eq!(sched.workloads.len(), 1);
    assert_eq!(batches(&sched, "Systems"), (vec![(Some(0), vec![])], vec![0]));
    assert!(sched.default == named("Systems"));

    let sched = add(Workload::new(named("Systems")).with_system(system2()).with_system(system2()));
    assert_eq!(sched.system_ids.len(), 1);
    assert_eq!(sched.workloads.len(), 1);
    assert_eq!(batches(&sched, "Systems"), (vec![(Some(0), vec![]), (Some(0), vec![])], vec![0, 0]));
    assert!(sched.default == named("Systems"));

    let sched = add(Workload::new(named("Systems")).with_system(system1()).with_system(system2()));
    assert_eq!(sched.system_ids.len(), 2);
    assert_eq!(sched.workloads.len(), 1);
    assert_eq!(batches(&sched, "Systems"), (vec![(None, vec![0]), (Some(1), vec![])], vec![0, 1]));
    assert!(sched.default == named("Systems"));

    let sched = add(Workload::new(named("Systems")).with_system(system2()).with_system(system1()));
    assert_eq!(sched.system_ids.len(), 2);
    assert_eq!(sched.workloads.len(), 1);
    assert_eq!(batches(&sched, "Systems"), (vec![(Some(0), vec![]), (None, vec![1])], vec![0, 1]));
    assert!(sched.default == named("Systems"));
}

#[test]
fn workload_non_send() {
    let not_send_view = || TypeInfo::new("NonSend<View<NotSend>>", Mutability::Shared, TypeId(NOT_SEND), true);
    let not_send_view_mut = || TypeInfo::new("NonSend<ViewMut<NotSend>>", Mutability::Exclusive, TypeId(NOT_SEND), false);
    let sys1 = || sys(1, vec![not_send_view()]);
    let sys2 = || sys(2, vec![not_send_view_mut()]);
    let sys3 = || sys(3, vec![view(USIZE)]);
    let sys4 = || sys(4, vec![view_mut(USIZE)]);

    let sched = add(Workload::new(named("Test")).with_system(sys1()).with_system(sys1()));
    assert_eq!(sched.system_ids.len(), 1);
    assert_eq!(sched.workloads.len(), 1);
    assert_eq!(batches(&sched, "Test"), (vec![(None, vec![0, 0])], vec![0, 0]));
    assert!(sched.default == named("Test"));
    assert!(sched.workloads_info[0].1.batches_info[0].systems.1[0].conflict.is_none());

    let sched = add(Workload::new(named("Test")).with_system(sys1()).with_system(sys2()));
    assert_eq!(sched.system_ids.len(), 2);
    assert_eq!(batches(&sched, "Test"), (vec![(None, vec![0]), (Some(1), vec![])], vec![0, 1]));
    assert!(sched.default == named("Test"));

    let sched = add(Workload::new(named("Test")).with_system(sys2()).with_system(sys1()));
    assert_eq!(sched.system_ids.len(), 2);
    assert_eq!(batches(&sched, "Test"), (vec![(Some(0), vec![]), (None, vec![1])], vec![0, 1]));
    assert!(sched.default == named("Test"));

    let sched = add(Workload::new(named("Test")).with_system(sys1()).with_system(sys3()));
    assert_eq!(sched.system_ids.len(), 2);
    assert_eq!(batches(&sched, "Test"), (vec![(None, vec![0, 1])], vec![0, 1]));
    assert!(sched.default == named("Test"));
    assert!(sched.workloads_info[0].1.batches_info[0].systems.1[0].conflict.is_none());

    let sched = add(Workload::new(named("Test")).with_system(sys1()).with_system(sys4()));
    assert_eq!(sched.system_ids.len(), 2);
    assert_eq!(batches(&sched, "Test"), (vec![(None, vec![0, 1])], vec![0, 1]));
    assert!(sched.default == named("Test"));
}

#[test]
fn workload_unique_and_non_unique() {
    let sched = add(
        Workload::new(named("Systems"))
            .with_system(sys(1, vec![view_mut(USIZE)]))
            .with_system(sys(2, vec![view_mut(UNIQUE_USIZE)])),
    );
    assert_eq!(sched.system_ids.len(), 2);
    assert_eq!(sched.workloads.len(), 1);
    assert_eq!(batches(&sched, "Systems"), (vec![(None, vec![0, 1])], vec![0, 1]));
    assert!(sched.default == named("Systems"));
}

#[test]
fn workload_empty_workload() {
    let sched = add(Workload::new(named("Systems")));
    assert_eq!(sched.system_ids.len(), 0);
    assert_eq!(sched.workloads.len(), 1);
    assert_eq!(batches(&sched, "Systems"), (vec![], vec![]));
    assert!(sched.default == named("Systems"));
}

#[test]
fn workload_append_ensures_multiple_batches_can_be_optimized_over() {
    let mut group_a = Workload::new(named("Group A"))
        .with_system(sys(1, vec![view_mut(USIZE), view_mut(U32)]))
        .with_system(sys(2, vec![view(USIZE), view_mut(U32)]));
    let mut group_b = Workload::new(named("Group B")).with_system(sys(3, vec![view(USIZE)]));
    let mut group_c = Workload::new(named("Group C")).with_system(sys(4, vec![view(U16)]));

    let sched = add(
        Workload::new(named("Combined")).append(&mut group_a).append(&mut group_b).append(&mut group_c),
    );
    assert_eq!(sched.system_ids.len(), 4);
    assert_eq!(sched.workloads.len(), 1);
    assert_eq!(batches(&sched, "Combined"), (vec![(None, vec![0]), (None, vec![1, 2, 3])], vec![0, 1, 2, 3]));
    assert!(sched.default == named("Combined"));
}
