use shipyard::error::{AddWorkload, ImpossibleRequirements, UniquePresence};
use shipyard::scheduler::info::{Conflict, Mutability, SystemInfo, TypeInfo};
use shipyard::scheduler::label::Label;
use shipyard::scheduler::system::{RunFacts, StorageState, WorkloadSystem};
use shipyard::scheduler::workload::Workload;
use shipyard::scheduler::Scheduler;
use shipyard::type_id::TypeId;

const USIZE: u64 = 100;
const U32: u64 = 101;
const UNIQUE_USIZE: u64 = 200;
const UNIQUE_U32: u64 = 201;

fn sys(id: u64) -> WorkloadSystem {
    WorkloadSystem::new(TypeId(id), vec![]).unwrap()
}

fn sys_with(id: u64, borrows: Vec<TypeInfo>) -> WorkloadSystem {
    WorkloadSystem::new(TypeId(id), borrows).unwrap()
}

fn label(id: u64) -> Label {
    Label::of_type(TypeId(id))
}

fn named(name: &str) -> Label {
    Label::named(name)
}

fn view(storage: u64, name: &str) -> TypeInfo {
    TypeInfo::new(name, Mutability::Shared, TypeId(storage), true)
}

fn view_mut(storage: u64, name: &str) -> TypeInfo {
    TypeInfo::new(name, Mutability::Exclusive, TypeId(storage), true)
}

fn all_storages_mut() -> TypeInfo {
    TypeInfo::new("AllStorages", Mutability::Exclusive, TypeId(0), true)
}

fn empty_world() -> RunFacts {
    RunFacts { storages: vec![], custom: vec![] }
}

fn run_default(sched: &Scheduler, facts: &RunFacts) -> Vec<usize> {
    let i = sched.find_workload(&sched.default).unwrap();
    sched.workloads[i].1.systems_to_run(facts)
}

#[test]
fn skip_if_missing_storage() {
    let world = empty_world();

    let ran = Workload::new(named("test"))
        .skip_if_storage_empty(TypeId(USIZE))
        .with_system(sys(1))
        .build()
        .unwrap()
        .0
        .run_with_world(&world);
    assert!(ran.is_empty());

    let mut sched = Scheduler::new();
    Workload::new(named("test"))
        .skip_if_storage_empty(TypeId(USIZE))
        .with_system(sys(1))
        .add_to_world(&mut sched)
        .unwrap();

    assert!(run_default(&sched, &world).is_empty());
}

#[test]
fn system_skip_if_missing_storage() {
    let world = empty_world();

    let ran = Workload::new(named("test"))
        .with_system(sys(1).skip_if_storage_empty(TypeId(USIZE)))
        .build()
        .unwrap()
        .0
        .run_with_world(&world);
    assert!(ran.is_empty());

    let mut sched = Scheduler::new();
    Workload::new(named("test"))
        .with_system(sys(1).skip_if_storage_empty(TypeId(USIZE)))
        .add_to_world(&mut sched)
        .unwrap();

    assert!(run_default(&sched, &world).is_empty());
}

#[test]
fn skip_if_empty_storage() {
    // a component was added then removed: the storage exists and is empty
    let world = RunFacts { storages: vec![(TypeId(USIZE), StorageState::Empty)], custom: vec![] };

    let ran = Workload::new(named("test"))
        .skip_if_storage_empty(TypeId(USIZE))
        .with_system(sys(1))
        .build()
        .unwrap()
        .0
        .run_with_world(&world);
    assert!(ran.is_empty());

    let mut sched = Scheduler::new();
    Workload::new(named("test"))
        .skip_if_storage_empty(TypeId(USIZE))
        .with_system(sys(1))
        .add_to_world(&mut sched)
        .unwrap();

    assert!(run_default(&sched, &world).is_empty());
}

#[test]
fn system_skip_if_empty_storage() {
    let world = RunFacts { storages: vec![(TypeId(USIZE), StorageState::Empty)], custom: vec![] };

    let ran = Workload::new(named("test"))
        .with_system(sys(1).skip_if_storage_empty(TypeId(USIZE)))
        .build()
        .unwrap()
        .0
        .run_with_world(&world);
    assert!(ran.is_empty());

    let mut sched = Scheduler::new();
    Workload::new(named("test"))
        .with_system(sys(1).skip_if_storage_empty(TypeId(USIZE)))
        .add_to_world(&mut sched)
        .unwrap();

    assert!(run_default(&sched, &world).is_empty());
}

#[test]
fn workload_merge_skip_if() {
    // the unique `Usize(0)` is in the world, the unique `U32` is not
    let world = RunFacts { storages: vec![(TypeId(UNIQUE_USIZE), StorageState::NonEmpty)], custom: vec![] };
    let mut sched = Scheduler::new();

    let panicking = Workload::from_system(sys(1), 1001).skip_if_missing_unique(TypeId(UNIQUE_U32));
    let incrementing = Workload::from_system(sys_with(2, vec![view_mut(UNIQUE_USIZE, "Usize")]), 1002);
    Workload::from_workloads(vec![panicking, incrementing], 1000)
        .add_to_world(&mut sched)
        .unwrap();

    let mut unique = 0;
    for system in run_default(&sched, &world) {
        if sched.system_ids[system] == TypeId(1) {
            panic!();
        }
        if sched.system_ids[system] == TypeId(2) {
            unique += 1;
        }
    }

    assert_eq!(unique, 1);
}

#[test]
fn before_after() {
    let (a, b, c, d) = (1, 2, 3, 4);

    let (workload, _) = Workload::new(named(""))
        .with_system(sys(d).after_all(label(b)))
        .with_system(sys(c).after_all(label(b)))
        .with_system(sys(b).after_all(label(a)))
        .with_system(sys(a))
        .build()
        .unwrap();

    let batches = &workload.batches;
    assert_eq!(batches.sequential, &[3, 2, 0, 1]);
    assert_eq!(batches.parallel, &[(None, vec![3]), (None, vec![2]), (None, vec![0, 1])]);

    let (workload, _) = Workload::new(named(""))
        .with_system(sys(a))
        .with_system(sys(b).after_all(label(a)))
        .with_system(sys(c).after_all(label(b)))
        .build()
        .unwrap();

    let batches = &workload.batches;
    assert_eq!(batches.sequential, &[0, 1, 2]);
    assert_eq!(batches.parallel, &[(None, vec![0]), (None, vec![1]), (None, vec![2])]);

    let (workload, _) = Workload::new(named(""))
        .with_system(sys(b).after_all(label(a)))
        .with_system(sys(a))
        .with_system(sys(c).after_all(label(b)))
        .build()
        .unwrap();

    let batches = &workload.batches;
    assert_eq!(batches.sequential, &[1, 0, 2]);
    assert_eq!(batches.parallel, &[(None, vec![1]), (None, vec![0]), (None, vec![2])]);
}

#[test]
fn before_after_no_anchor() {
    let (a, b) = (1, 2);

    let (workload, _) = Workload::new(named(""))
        .with_system(sys(a).before_all(label(b)))
        .with_system(sys(b).after_all(label(a)))
        .build()
        .unwrap();

    let batches = &workload.batches;
    assert_eq!(batches.sequential, &[0, 1]);
    assert_eq!(batches.parallel, &[(None, vec![0]), (None, vec![1])]);

    let (workload, _) = Workload::new(named(""))
        .with_system(sys(b).after_all(label(a)))
        .with_system(sys(a).before_all(label(b)))
        .build()
        .unwrap();

    let batches = &workload.batches;
    assert_eq!(batches.sequential, &[1, 0]);
    assert_eq!(batches.parallel, &[(None, vec![1]), (None, vec![0])]);
}

#[test]
fn before_after_missing_system() {
    let (a, b) = (1, 2);

    let (workload, _) = Workload::new(named(""))
        .with_system(sys(a).before_all(label(b)))
        .build()
        .unwrap();

    let batches = &workload.batches;
    assert_eq!(batches.sequential, &[0]);
    assert_eq!(batches.parallel, &[(None, vec![0])]);
}

#[test]
fn before_after_absent_system() {
    let (a, b, c) = (1, 2, 3);

    let (workload, _) = Workload::new(named(""))
        .with_system(sys(a))
        .with_system(sys(c).after_all(label(b)))
        .build()
        .unwrap();

    let batches = &workload.batches;
    assert!(batches.sequential == [0, 1] || batches.sequential == [1, 0]);
    assert_eq!(batches.parallel, &[(None, vec![0, 1])]);
}

#[test]
fn before_after_system_label() {
    let (a, b, c) = (1, 2, 3);

    let (workload, _) = Workload::new(named(""))
        .with_system(sys(a).tag(named("a")))
        .with_system(
            sys(b)
                .tag(named("b"))
                .before_all(named("a"))
                .require_after(named("a"))
                .require_before(named("c")),
        )
        .with_system(sys(c).tag(named("c")).before_all(named("b")).require_after(named("b")))
        .build()
        .unwrap();

    let batches = &workload.batches;
    assert_eq!(batches.sequential, &[2, 1, 0]);
    assert_eq!(batches.parallel, &[(None, vec![2]), (None, vec![1]), (None, vec![0])]);

    let (workload, _) = Workload::new(named(""))
        .with_system(sys(c).tag(named("c")).after_all(named("b")))
        .with_system(sys(b).tag(named("b")).after_all(named("a")))
        .with_system(sys(a).tag(named("a")))
        .build()
        .unwrap();

    let batches = &workload.batches;
    assert_eq!(batches.sequential, &[2, 1, 0]);
    assert_eq!(batches.parallel, &[(None, vec![2]), (None, vec![1]), (None, vec![0])]);
}

#[test]
fn after_all_single_system() {
    let (workload, _) = Workload::new(named(""))
        .with_system(sys(1).tag(named("this")))
        .with_system(sys_with(2, vec![all_storages_mut()]).after_all(named("this")))
        .with_system(sys_with(3, vec![view(USIZE, "Usize")]).after_all(named("this")))
        .build()
        .unwrap();

    let batches = &workload.batches;

    assert_eq!(batches.parallel, vec![(None, vec![0]), (Some(1), vec![]), (None, vec![2])]);
    assert_eq!(batches.sequential, vec![0, 1, 2]);
    assert!(batches.workload_run_if.is_none());
}

#[test]
fn sequential_workload() {
    let (sys0, sys1, sys2) = (1, 2, 3);
    let workload1 = Workload::from_sequential_workloads(
        vec![
            Workload::from_system(sys(sys0), 1001),
            Workload::from_system(sys(sys1), 1002),
            Workload::from_system(sys(sys2), 1003),
        ],
        1000,
    );

    let (workload, _) = workload1.rename(named("")).build().unwrap();

    let batches = &workload.batches;
    assert_eq!(batches.sequential, &[0, 1, 2]);
    assert_eq!(batches.parallel, &[(None, vec![0]), (None, vec![1]), (None, vec![2])]);
}

#[test]
fn before_after_borrow_conflict() {
    let sys0 = || sys_with(1, vec![view(U32, "U32")]);
    let sys1 = sys_with(2, vec![all_storages_mut()]).before_all(named("not present"));

    let (workload, _) = Workload::from_workloads(
        vec![
            Workload::from_system(sys0(), 1001),
            Workload::from_system(sys1, 1002),
            Workload::from_system(sys0(), 1003),
        ],
        1000,
    )
    .rename(named(""))
    .build()
    .unwrap();

    let batches = &workload.batches;
    assert_eq!(batches.parallel, &[(None, vec![0]), (Some(1), Vec::new()), (None, vec![0])]);
    assert_eq!(batches.sequential, &[0, 1, 0]);
}

#[test]
fn barrier() {
    let workload = Workload::new(named(""))
        .with_system(sys(1))
        .with_system(sys(2))
        .with_barrier()
        .with_system(sys(3))
        .with_system(sys(4))
        .with_barrier()
        .with_system(sys(5))
        .with_system(sys(6))
        .build()
        .unwrap();

    assert_eq!(workload.1.batches_info.len(), 3);

    let workload = Workload::new(named(""))
        .with_barrier()
        .with_system(sys(1))
        .with_system(sys(2))
        .build()
        .unwrap();

    assert_eq!(workload.1.batches_info.len(), 1);

    let workload = Workload::new(named(""))
        .with_system(sys(1))
        .with_system(sys(2))
        .with_barrier()
        .build()
        .unwrap();

    assert_eq!(workload.1.batches_info.len(), 1);
}

#[test]
fn with_system_return_type() {
    // a system returning a value is a system like any other
    Workload::new(named("")).with_system(sys(1)).build().unwrap();
}

#[test]
fn cycle_detection_after_all() {
    let (sys_a, sys_b) = (1, 2);
    let workload_cycle = Workload::from_workloads(
        vec![
            Workload::from_system(sys(sys_a).after_all(label(sys_b)), 1001),
            Workload::from_system(sys(sys_b).after_all(label(sys_a)), 1002),
        ],
        1000,
    );

    let result = workload_cycle.build();

    assert!(matches!(
        result,
        Err(AddWorkload::ImpossibleRequirements(ImpossibleRequirements::Cycle(_)))
    ));
}

#[test]
fn cycle_detection_before_after_all() {
    let (sys_a, sys_b, sys_c) = (1, 2, 3);
    let workload_cycle = Workload::from_workloads(
        vec![
            Workload::from_system(sys(sys_a), 1001),
            Workload::from_system(sys(sys_b), 1002),
            Workload::from_system(sys(sys_c).before_all(label(sys_a)).after_all(label(sys_b)), 1003),
        ],
        1000,
    );

    let result = workload_cycle.build();

    assert!(matches!(result, Err(AddWorkload::ImpossibleRequirements(_))));
}

#[test]
fn cycle_barrier() {
    let (sys_a, sys_b) = (1, 2);

    let result = Workload::new(named(""))
        .with_system(sys(sys_a))
        .with_barrier()
        .with_system(sys(sys_b).before_all(label(sys_a)))
        .build();

    assert!(matches!(
        result,
        Err(AddWorkload::ImpossibleRequirements(ImpossibleRequirements::Cycle(_)))
    ));
}

#[test]
fn complex_ordering() {
    let (sys_a, sys_b, sys_c, sys_d) = (1, 2, 3, 4);

    let (workload, _) = Workload::new(named(""))
        .with_system(sys(sys_a))
        .with_system(sys(sys_b))
        .with_system(sys(sys_c).after_all(label(sys_a)).before_all(label(sys_b)))
        .with_barrier()
        .with_system(sys(sys_d))
        .build()
        .unwrap();

    let batches = &workload.batches;
    assert_eq!(
        batches.parallel,
        &[(None, vec![0]), (None, vec![2]), (None, vec![1]), (None, vec![3])]
    );
    assert_eq!(batches.sequential, &[0, 2, 1, 3]);
}

#[test]
fn require_in_workload() {
    let (sys_a, sys_b, sys_c) = (1, 2, 3);

    Workload::new(named(""))
        .with_system(sys(sys_a).require_in_workload(label(sys_b)))
        .with_system(sys(sys_b))
        .build()
        .unwrap();
    Workload::new(named(""))
        .with_system(sys(sys_a))
        .with_system(sys(sys_b).require_in_workload(label(sys_a)))
        .build()
        .unwrap();

    let result = Workload::new(named(""))
        .with_system(sys(sys_c))
        .with_system(sys(sys_a).require_in_workload(label(sys_b)))
        .with_system(sys(sys_c))
        .build();

    assert_eq!(
        result.err(),
        Some(AddWorkload::MissingInWorkload(label(sys_a), vec![label(sys_b)]))
    );
}

#[test]
fn require_before() {
    let (sys_a, sys_b) = (1, 2);

    Workload::new(named(""))
        .with_system(sys(sys_a).after_all(label(sys_b)).require_before(label(sys_b)))
        .with_system(sys(sys_b))
        .build()
        .unwrap();
    Workload::new(named(""))
        .with_system(sys(sys_a))
        .with_system(sys(sys_b).after_all(label(sys_a)).require_before(label(sys_a)))
        .build()
        .unwrap();
    Workload::new(named(""))
        .with_system(sys(sys_a))
        .with_barrier()
        .with_system(sys(sys_b).require_before(label(sys_a)))
        .build()
        .unwrap();
    Workload::new(named(""))
        .with_system(sys_with(3, vec![all_storages_mut()]).tag(named("sys_a")))
        .with_system(sys_with(4, vec![all_storages_mut()]).require_before(named("sys_a")))
        .build()
        .unwrap();

    // These systems don't conflict and would run in parallel
    let result = Workload::new(named(""))
        .with_system(sys(sys_a))
        .with_system(sys(sys_b).require_before(label(sys_a)))
        .build();

    assert_eq!(
        result.err(),
        Some(AddWorkload::MissingBefore(label(sys_b), vec![label(sys_a)]))
    );
}

#[test]
fn require_after() {
    let (sys_a, sys_b) = (1, 2);

    Workload::new(named(""))
        .with_system(sys(sys_a))
        .with_system(sys(sys_b).before_all(label(sys_a)).require_after(label(sys_a)))
        .build()
        .unwrap();
    Workload::new(named(""))
        .with_system(sys(sys_a).before_all(label(sys_b)).require_after(label(sys_b)))
        .with_system(sys(sys_b))
        .build()
        .unwrap();
    Workload::new(named(""))
        .with_system(sys(sys_a).require_after(label(sys_b)))
        .with_barrier()
        .with_system(sys(sys_b))
        .build()
        .unwrap();
    Workload::new(named(""))
        .with_system(sys_with(3, vec![all_storages_mut()]).require_after(named("sys_a")))
        .with_system(sys_with(4, vec![all_storages_mut()]).tag(named("sys_a")))
        .build()
        .unwrap();

    // These systems don't conflict and would run in parallel
    let result = Workload::new(named(""))
        .with_system(sys(sys_a).require_after(label(sys_b)))
        .with_system(sys(sys_b))
        .build();

    assert_eq!(
        result.err(),
        Some(AddWorkload::MissingAfter(label(sys_a), vec![label(sys_b)]))
    );
}

#[test]
fn before_all() {
    let (sys_a, sys_b) = (1, 2);

    let (_, info) = Workload::new(named("workload 1"))
        .with_system(sys(sys_a))
        .with_system(sys(sys_b).before_all(label(sys_a)))
        .build()
        .unwrap();

    assert_eq!(info.name, named("workload 1"));
    assert_eq!(info.batches_info.len(), 2);

    assert_eq!(
        info.batches_info[0].system(0),
        Some(&SystemInfo {
            name: label(sys_b),
            borrow: vec![],
            conflict: None,
            after: vec![],
            after_all: vec![],
            before_all: vec![label(sys_a)],
            unique_id: 1
        })
    );
    assert_eq!(info.batches_info[0].system(1), None);

    assert_eq!(
        info.batches_info[1].system(0),
        Some(&SystemInfo {
            name: label(sys_a),
            borrow: vec![],
            conflict: None,
            after: vec![1],
            after_all: vec![],
            before_all: vec![],
            unique_id: 0
        })
    );
    assert_eq!(info.batches_info[1].system(1), None);
}

#[test]
fn after_all() {
    let (sys_a, sys_b) = (1, 2);

    let (_, info) = Workload::new(named("workload 1"))
        .with_system(sys(sys_a).after_all(label(sys_b)))
        .with_system(sys(sys_b))
        .build()
        .unwrap();

    assert_eq!(info.name, named("workload 1"));
    assert_eq!(info.batches_info.len(), 2);

    assert_eq!(
        info.batches_info[0].system(0),
        Some(&SystemInfo {
            name: label(sys_b),
            borrow: vec![],
            conflict: None,
            after: vec![],
            after_all: vec![],
            before_all: vec![],
            unique_id: 1
        })
    );
    assert_eq!(info.batches_info[0].system(1), None);

    assert_eq!(
        info.batches_info[1].system(0),
        Some(&SystemInfo {
            name: label(sys_a),
            borrow: vec![],
            conflict: None,
            after: vec![1],
            after_all: vec![label(sys_b)],
            before_all: vec![],
            unique_id: 0
        })
    );
    assert_eq!(info.batches_info[1].system(1), None);
}

#[test]
fn borrow() {
    let usize_view = || view(USIZE, "SparseSet<Usize>");
    let usize_view_mut = || view_mut(USIZE, "SparseSet<Usize>");
    let u32_view = || view(U32, "SparseSet<U32>");
    let (sys_a, sys_b, sys_c, sys_d) = (1, 2, 3, 4);

    let (_, info) = Workload::new(named(""))
        .with_system(sys_with(sys_a, vec![usize_view(), u32_view()]))
        .with_system(sys_with(sys_b, vec![usize_view_mut(), u32_view()]))
        .with_system(sys_with(sys_c, vec![usize_view()]))
        .with_system(sys_with(sys_d, vec![usize_view()]))
        .build()
        .unwrap();

    assert_eq!(
        info.batches_info[0].system(0),
        Some(&SystemInfo {
            name: label(sys_a),
            borrow: vec![usize_view(), u32_view()],
            conflict: None,
            after: vec![],
            after_all: vec![],
            before_all: vec![],
            unique_id: 0
        })
    );

    assert_eq!(
        info.batches_info[1].system(0),
        Some(&SystemInfo {
            name: label(sys_b),
            borrow: vec![usize_view_mut(), u32_view()],
            conflict: Some(Conflict::Borrow {
                type_info: Some(usize_view_mut()),
                other_system: 0,
                other_type_info: usize_view(),
            }),
            after: vec![0],
            after_all: vec![],
            before_all: vec![],
            unique_id: 1
        })
    );

    assert_eq!(
        info.batches_info[2].system(0),
        Some(&SystemInfo {
            name: label(sys_c),
            borrow: vec![usize_view()],
            conflict: Some(Conflict::Borrow {
                type_info: Some(usize_view()),
                other_system: 1,
                other_type_info: usize_view_mut(),
            }),
            after: vec![1],
            after_all: vec![],
            before_all: vec![],
            unique_id: 2
        })
    );
    assert_eq!(
        info.batches_info[2].system(1),
        Some(&SystemInfo {
            name: label(sys_d),
            borrow: vec![usize_view()],
            conflict: Some(Conflict::Borrow {
                type_info: Some(usize_view()),
                other_system: 1,
                other_type_info: usize_view_mut(),
            }),
            after: vec![1],
            after_all: vec![],
            before_all: vec![],
            unique_id: 3
        })
    );
}

#[test]
fn sequential_systems_of_one_workload_run_in_order() {
    let workload = Workload::from_workloads(
        vec![
            Workload::from_system(sys_with(1, vec![view(USIZE, "Usize")]), 1001),
            Workload::from_system(sys_with(2, vec![view(USIZE, "Usize")]), 1002),
            Workload::from_system(sys_with(3, vec![view(USIZE, "Usize")]), 1003),
        ],
        1000,
    )
    .into_sequential_workload();

    assert_eq!(workload.systems[0].before_all, vec![Label::Sequential(TypeId(2))]);
    assert_eq!(workload.systems[1].before_all, vec![Label::Sequential(TypeId(3))]);
    assert!(workload.systems[2].before_all.is_empty());

    let (workload, _) = workload.rename(named("")).build().unwrap();
    let batches = &workload.batches;
    assert_eq!(batches.sequential, &[0, 1, 2]);
}

#[test]
fn uniques_must_be_present_in_the_world() {
    let unique_view = TypeInfo::new("shipyard::UniqueStorage<usize>", Mutability::Shared, TypeId(UNIQUE_USIZE), true);
    let workload = Workload::from_workloads(
        vec![
            Workload::from_system(sys_with(1, vec![view(USIZE, "shipyard::SparseSet<usize>")]), 1001),
            Workload::from_system(sys_with(2, vec![unique_view.duplicate()]), 1002),
        ],
        1000,
    );
    assert_eq!(
        workload.are_all_uniques_present_in_world("shipyard::UniqueStorage", &vec![TypeId(USIZE)]),
        Err(UniquePresence::Unique(unique_view))
    );
    assert_eq!(
        workload.are_all_uniques_present_in_world("shipyard::UniqueStorage", &vec![TypeId(UNIQUE_USIZE)]),
        Ok(())
    );
}

#[test]
fn cycle_names_every_unplaced_system() {
    let result = Workload::new(named(""))
        .with_system(sys(3))
        .with_system(sys(1).after_all(label(2)))
        .with_system(sys(2).after_all(label(1)))
        .with_system(sys(4).after_all(label(1)))
        .build();
    match result {
        Err(AddWorkload::ImpossibleRequirements(ImpossibleRequirements::Cycle(names))) => {
            assert_eq!(names, vec![label(1), label(2), label(4)]);
        }
        _ => panic!("expected a cycle"),
    }
}
