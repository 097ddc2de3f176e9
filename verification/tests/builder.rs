use shipyard::scheduler::builder::{BuilderScheduler, BuilderSystem, WorkloadBuilder};
use shipyard::scheduler::info::{Conflict, Mutability, TypeInfo};
use shipyard::scheduler::workload::Workload;
use shipyard::type_id::TypeId;

const USIZE: u64 = 10;
const U32: u64 = 11;
const U16: u64 = 12;
const NOT_SEND: u64 = 13;
const UNIQUE_USIZE: u64 = 14;
const ALL_STORAGES: u64 = 0;

fn view(storage: u64) -> TypeInfo {
    TypeInfo::new("", Mutability::Shared, TypeId(storage), true)
}

fn view_mut(storage: u64) -> TypeInfo {
    TypeInfo::new("", Mutability::Exclusive, TypeId(storage), true)
}

fn sys(id: u64, borrow: Vec<TypeInfo>) -> BuilderSystem {
    BuilderSystem { type_id: TypeId(id), name: format!("system{}", id), borrow }
}

fn batches(sched: &BuilderScheduler, name: &str) -> Option<(Vec<Vec<usize>>, Vec<usize>)> {
    sched
        .workloads
        .iter()
        .find(|(n, _)| n == name)
        .map(|(_, b)| (b.parallel.clone(), b.sequential.clone()))
}

fn builder(name: &str) -> WorkloadBuilder {
    Workload::builder(name.to_string())
}

#[test]
fn builder_single_immutable() {
    let mut sched = BuilderScheduler::new();
    builder("System1").with_system(sys(1, vec![view(USIZE)])).add_to_world(&mut sched).unwrap();

    assert_eq!(sched.system_ids.len(), 1);
    assert_eq!(sched.workloads.len(), 1);
    assert_eq!(batches(&sched, "System1"), Some((vec![vec![0]], vec![0])));
    assert_eq!(sched.default, "System1");
}

#[test]
fn builder_single_mutable() {
    let mut sched = BuilderScheduler::new();
    builder("System1").with_system(sys(1, vec![view_mut(USIZE)])).add_to_world(&mut sched).unwrap();

    assert_eq!(sched.system_ids.len(), 1);
    assert_eq!(sched.workloads.len(), 1);
    assert_eq!(batches(&sched, "System1"), Some((vec![vec![0]], vec![0])));
    assert_eq!(sched.default, "System1");
}

#[test]
fn builder_multiple_immutable() {
    let mut sched = BuilderScheduler::new();
    builder("Systems")
        .with_system(sys(1, vec![view(USIZE)]))
        .with_system(sys(2, vec![view(USIZE)]))
        .add_to_world(&mut sched)
        .unwrap();

    assert_eq!(sched.system_ids.len(), 2);
    assert_eq!(sched.workloads.len(), 1);
    assert_eq!(batches(&sched, "Systems"), Some((vec![vec![0, 1]], vec![0, 1])));
    assert_eq!(sched.default, "Systems");
}

#[test]
fn builder_multiple_mutable() {
    let mut sched = BuilderScheduler::new();
    builder("Systems")
        .with_system(sys(1, vec![view_mut(USIZE)]))
        .with_system(sys(2, vec![view_mut(USIZE)]))
        .add_to_world(&mut sched)
        .unwrap();

    assert_eq!(sched.system_ids.len(), 2);
    assert_eq!(sched.workloads.len(), 1);
    assert_eq!(batches(&sched, "Systems"), Some((vec![vec![0], vec![1]], vec![0, 1])));
    assert_eq!(sched.default, "Systems");
}

#[test]
fn builder_multiple_mixed() {
    let mut sched = BuilderScheduler::new();
    builder("Systems")
        .with_system(sys(1, vec![view_mut(USIZE)]))
        .with_system(sys(2, vec![view(USIZE)]))
        .add_to_world(&mut sched)
        .unwrap();

    assert_eq!(sched.system_ids.len(), 2);
    assert_eq!(sched.workloads.len(), 1);
    assert_eq!(batches(&sched, "Systems"), Some((vec![vec![0], vec![1]], vec![0, 1])));
    assert_eq!(sched.default, "Systems");

    let mut sched = BuilderScheduler::new();
    builder("Systems")
        .with_system(sys(2, vec![view(USIZE)]))
        .with_system(sys(1, vec![view_mut(USIZE)]))
        .add_to_world(&mut sched)
        .unwrap();

    assert_eq!(sched.system_ids.len(), 2);
    assert_eq!(sched.workloads.len(), 1);
    assert_eq!(batches(&sched, "Systems"), Some((vec![vec![0], vec![1]], vec![0, 1])));
    assert_eq!(sched.default, "Systems");
}

#[test]
fn builder_append_optimizes_batches() {
    let mut sched = BuilderScheduler::new();

    let mut group_a = builder("Group A");
    group_a
        .with_system(sys(1, vec![view(USIZE), view_mut(U32)]))
        .with_system(sys(2, vec![view(USIZE), view_mut(U32)]));

    let mut group_b = builder("Group B");
    group_b.with_system(sys(3, vec![view(USIZE)]));

    builder("Combined").append(&mut group_a).append(&mut group_b).add_to_world(&mut sched).unwrap();

    assert_eq!(sched.system_ids.len(), 3);
    assert_eq!(sched.workloads.len(), 1);
    assert_eq!(batches(&sched, "Combined"), Some((vec![vec![0, 2], vec![1]], vec![0, 1, 2])));
    assert_eq!(sched.default, "Combined");
}

#[test]
fn builder_all_storages() {
    let system1 = || sys(1, vec![view(USIZE)]);
    let system2 = || sys(2, vec![view_mut(ALL_STORAGES)]);

    let mut sched = BuilderScheduler::new();
    builder("Systems").with_system(system2()).add_to_world(&mut sched).unwrap();
    assert_eq!(sched.system_ids.len(), 1);
    assert_eq!(sched.workloads.len(), 1);
    assert_eq!(batches(&sched, "Systems"), Some((vec![vec![0]], vec![0])));
    assert_eq!(sched.default, "Systems");

    let mut sched = BuilderScheduler::new();
    builder("Systems").with_system(system2()).with_system(system2()).add_to_world(&mut sched).unwrap();
    assert_eq!(sched.system_ids.len(), 1);
    assert_eq!(sched.workloads.len(), 1);
    assert_eq!(batches(&sched, "Systems"), Some((vec![vec![0], vec![0]], vec![0, 0])));
    assert_eq!(sched.default, "Systems");

    let mut sched = BuilderScheduler::new();
    builder("Systems").with_system(system1()).with_system(system2()).add_to_world(&mut sched).unwrap();
    assert_eq!(sched.system_ids.len(), 2);
    assert_eq!(sched.workloads.len(), 1);
    assert_eq!(batches(&sched, "Systems"), Some((vec![vec![0], vec![1]], vec![0, 1])));
    assert_eq!(sched.default, "Systems");

    let mut sched = BuilderScheduler::new();
    builder("Systems").with_system(system2()).with_system(system1()).add_to_world(&mut sched).unwrap();
    assert_eq!(sched.system_ids.len(), 2);
    assert_eq!(sched.workloads.len(), 1);
    assert_eq!(batches(&sched, "Systems"), Some((vec![vec![0], vec![1]], vec![0, 1])));
    assert_eq!(sched.default, "Systems");
}

#[test]
fn builder_non_send() {
    let not_send = |mutability| TypeInfo::new("", mutability, TypeId(NOT_SEND), false);
    let sys1 = || sys(1, vec![not_send(Mutability::Shared)]);
    let sys2 = || sys(2, vec![not_send(Mutability::Exclusive)]);
    let sys3 = || sys(3, vec![view(USIZE)]);
    let sys4 = || sys(4, vec![view_mut(USIZE)]);

    let mut sched = BuilderScheduler::new();
    let info = builder("Test").with_system(sys1()).with_system(sys1()).add_to_world(&mut sched).unwrap();
    assert_eq!(sched.system_ids.len(), 1);
    assert_eq!(sched.workloads.len(), 1);
    assert_eq!(batches(&sched, "Test"), Some((vec![vec![0], vec![0]], vec![0, 0])));
    assert_eq!(sched.default, "Test");
    assert!(info.batch_info[0].systems[0].conflict.is_none());

    let mut sched = BuilderScheduler::new();
    builder("Test").with_system(sys1()).with_system(sys2()).add_to_world(&mut sched).unwrap();
    assert_eq!(sched.system_ids.len(), 2);
    assert_eq!(batches(&sched, "Test"), Some((vec![vec![0], vec![1]], vec![0, 1])));
    assert_eq!(sched.default, "Test");

    let mut sched = BuilderScheduler::new();
    builder("Test").with_system(sys2()).with_system(sys1()).add_to_world(&mut sched).unwrap();
    assert_eq!(sched.system_ids.len(), 2);
    assert_eq!(batches(&sched, "Test"), Some((vec![vec![0], vec![1]], vec![0, 1])));
    assert_eq!(sched.default, "Test");

    let mut sched = BuilderScheduler::new();
    let info = builder("Test").with_system(sys1()).with_system(sys3()).add_to_world(&mut sched).unwrap();
    assert_eq!(sched.system_ids.len(), 2);
    assert_eq!(batches(&sched, "Test"), Some((vec![vec![0], vec![1]], vec![0, 1])));
    assert_eq!(sched.default, "Test");
    assert!(info.batch_info[0].systems[0].conflict.is_none());

    let mut sched = BuilderScheduler::new();
    builder("Test").with_system(sys1()).with_system(sys4()).add_to_world(&mut sched).unwrap();
    assert_eq!(sched.system_ids.len(), 2);
    assert_eq!(batches(&sched, "Test"), Some((vec![vec![0], vec![1]], vec![0, 1])));
    assert_eq!(sched.default, "Test");
}

#[test]
fn builder_unique_and_non_unique() {
    let mut sched = BuilderScheduler::new();
    builder("Systems")
        .with_system(sys(1, vec![view_mut(USIZE)]))
        .with_system(sys(2, vec![view_mut(UNIQUE_USIZE)]))
        .add_to_world(&mut sched)
        .unwrap();

    assert_eq!(sched.system_ids.len(), 2);
    assert_eq!(sched.workloads.len(), 1);
    assert_eq!(batches(&sched, "Systems"), Some((vec![vec![0, 1]], vec![0, 1])));
    assert_eq!(sched.default, "Systems");
}

#[test]
fn builder_empty_workload() {
    let mut sched = BuilderScheduler::new();
    builder("Systems").add_to_world(&mut sched).unwrap();

    assert_eq!(sched.system_ids.len(), 0);
    assert_eq!(sched.workloads.len(), 1);
    assert_eq!(batches(&sched, "Systems"), Some((vec![], vec![])));
    assert_eq!(sched.default, "Systems");
}

#[test]
fn builder_append_ensures_multiple_batches_can_be_optimized_over() {
    let mut sched = BuilderScheduler::new();

    let mut group_a = builder("Group A");
    group_a
        .with_system(sys(1, vec![view_mut(USIZE), view_mut(U32)]))
        .with_system(sys(2, vec![view(USIZE), view_mut(U32)]));
    let mut group_b = builder("Group B");
    group_b.with_system(sys(3, vec![view(USIZE)]));
    let mut group_c = builder("Group C");
    group_c.with_system(sys(4, vec![view(U16)]));

    builder("Combined")
        .append(&mut group_a)
        .append(&mut group_b)
        .append(&mut group_c)
        .add_to_world(&mut sched)
        .unwrap();

    assert_eq!(sched.system_ids.len(), 4);
    assert_eq!(sched.workloads.len(), 1);
    assert_eq!(batches(&sched, "Combined"), Some((vec![vec![0, 3], vec![1, 2]], vec![0, 1, 2, 3])));
    assert_eq!(sched.default, "Combined");
}

#[test]
fn workload_flattening() {
    let sys1 = || sys(1, vec![view(U32)]);
    let sys2 = || sys(2, vec![view_mut(U32)]);

    let mut sched = BuilderScheduler::new();

    builder("1")
        .with_system(sys1())
        .with_system(sys2())
        .with_system(sys1())
        .add_to_world(&mut sched)
        .unwrap();

    let debug_info = builder("2")
        .with_workload("1".to_string())
        .with_system(sys1())
        .with_workload("1".to_string())
        .add_to_world(&mut sched)
        .unwrap();

    assert_eq!(sched.system_ids.len(), 2);
    assert_eq!(debug_info.batch_info.len(), 5);
}

#[test]
fn empty_workload_flattening() {
    let mut sched = BuilderScheduler::new();

    builder("1").add_to_world(&mut sched).unwrap();

    let debug_info = builder("2").with_workload("1".to_string()).add_to_world(&mut sched).unwrap();

    assert_eq!(sched.system_ids.len(), 0);
    assert_eq!(debug_info.batch_info.len(), 0);
}

#[test]
fn builder_rejects_a_present_name_and_a_missing_workload() {
    let mut sched = BuilderScheduler::new();
    builder("A").with_system(sys(1, vec![view(USIZE)])).add_to_world(&mut sched).unwrap();

    let mut again = builder("A");
    again.with_system(sys(2, vec![]));
    assert!(again.add_to_world(&mut sched).is_err());
    assert_eq!(again.name, "A");
    assert_eq!(again.systems.len(), 1);

    let mut nested = builder("B");
    nested.with_system(sys(3, vec![])).with_workload("missing".to_string());
    assert!(nested.add_to_world(&mut sched).is_err());
    assert_eq!(sched.system_ids.len(), 1);
    assert_eq!(sched.workloads.len(), 1);
    assert_eq!(sched.default, "A");
}

#[test]
fn builder_records_conflicts() {
    let mut sched = BuilderScheduler::new();
    let info = builder("W")
        .with_system(sys(1, vec![view_mut(USIZE)]))
        .with_system(sys(2, vec![view(USIZE)]))
        .add_to_world(&mut sched)
        .unwrap();
    assert_eq!(info.name, "W");
    assert_eq!(info.batch_info.len(), 2);
    match &info.batch_info[1].systems[0].conflict {
        Some(Conflict::Borrow { other_system, .. }) => assert_eq!(*other_system, 0),
        other => panic!("unexpected conflict {:?}", other),
    }
}
