//! Building a workload system by system: each system joins the earliest batch it can
//! run in without conflicting with a batch after it.
use crate::error::AddWorkload;
use crate::scheduler::info::{Conflict, Mutability, TypeInfo};
use crate::scheduler::label::{Label, LabelView};
use crate::scheduler::workload::Workload;
use crate::scheduler::system::valid_borrows;
use crate::type_id::{TypeId, ALL_STORAGES_ID};
use vstd::prelude::*;

verus! {

/// Mathematical value of a [`TypeInfo`]: name, mutability, storage and thread safety.
pub type TypeInfoView = (Seq<char>, Mutability, TypeId, bool);

/// The value of a type info.
pub open spec fn tv(t: TypeInfo) -> TypeInfoView {
    (t.name@, t.mutability, t.storage_id, t.thread_safe)
}

/// The values of a list of type infos.
pub open spec fn tvs(ts: Seq<TypeInfo>) -> Seq<TypeInfoView> {
    ts.map_values(|t: TypeInfo| tv(t))
}

/// Mathematical value of a [`Conflict`].
pub enum ConflictView {
    Borrow { type_info: Option<TypeInfoView>, other_system: usize, other_type_info: TypeInfoView },
    NotSendSync(TypeInfoView),
    OtherNotSendSync { system: usize, type_info: TypeInfoView },
}

/// The value of a conflict.
pub open spec fn cv(c: Conflict) -> ConflictView {
    match c {
        Conflict::Borrow { type_info, other_system, other_type_info } => ConflictView::Borrow {
            type_info: match type_info {
                Some(t) => Some(tv(t)),
                None => None,
            },
            other_system,
            other_type_info: tv(other_type_info),
        },
        Conflict::NotSendSync(t) => ConflictView::NotSendSync(tv(t)),
        Conflict::OtherNotSendSync { system, type_info } => ConflictView::OtherNotSendSync { system, type_info: tv(type_info) },
    }
}

/// The value of an optional conflict.
pub open spec fn ocv(c: Option<Conflict>) -> Option<ConflictView> {
    match c {
        Some(c) => Some(cv(c)),
        None => None,
    }
}

/// Information about a system placed in a batch by a [`WorkloadBuilder`].
#[derive(Debug)]
pub struct BuilderSystemInfo {
    pub name: String,
    pub type_id: TypeId,
    pub borrow: Vec<TypeInfo>,
    pub conflict: Option<Conflict>,
}

/// Mathematical value of a [`BuilderSystemInfo`].
pub struct SystemInfoView {
    pub name: Seq<char>,
    pub type_id: TypeId,
    pub borrow: Seq<TypeInfoView>,
    pub conflict: Option<ConflictView>,
}

/// The value of a system info.
pub open spec fn siv(s: BuilderSystemInfo) -> SystemInfoView {
    SystemInfoView { name: s.name@, type_id: s.type_id, borrow: tvs(s.borrow@), conflict: ocv(s.conflict) }
}

/// Systems that run in parallel.
#[derive(Debug)]
pub struct BuilderBatchInfo {
    pub systems: Vec<BuilderSystemInfo>,
}

/// The value of a batch.
pub open spec fn biv(b: BuilderBatchInfo) -> Seq<SystemInfoView> {
    b.systems@.map_values(|s: BuilderSystemInfo| siv(s))
}

/// The values of a list of batches.
pub open spec fn bivs(bs: Seq<BuilderBatchInfo>) -> Seq<Seq<SystemInfoView>> {
    bs.map_values(|b: BuilderBatchInfo| biv(b))
}

/// How a built workload was split into batches.
#[derive(Debug)]
pub struct BuilderWorkloadInfo {
    pub name: String,
    pub batch_info: Vec<BuilderBatchInfo>,
}

/// A system waiting to be batched: its type, name, index among the scheduler's systems
/// and borrows.
pub struct CollectedView {
    pub type_id: TypeId,
    pub name: Seq<char>,
    pub index: usize,
    pub borrow: Seq<TypeInfoView>,
}

/// Holding `t` while another system holds `o` is a borrow conflict: one of them is
/// exclusive over the same storage, or one of them is the storage of all storages.
pub open spec fn borrow_clash(t: TypeInfoView, o: TypeInfoView) -> bool {
    ||| t.2.0 == ALL_STORAGES_ID
    ||| o.2.0 == ALL_STORAGES_ID
    ||| t.2 == o.2 && (t.1 == Mutability::Exclusive || o.1 == Mutability::Exclusive)
}

/// `t` cannot run beside a system holding `o`: `o` is not thread safe, or they clash.
pub open spec fn clashes(t: TypeInfoView, o: TypeInfoView) -> bool {
    !o.3 || borrow_clash(t, o)
}

/// The conflict between a system holding `t` and the system `other` holding `o`.
pub open spec fn conflict_between(t: TypeInfoView, other: usize, o: TypeInfoView) -> ConflictView {
    if !o.3 {
        ConflictView::OtherNotSendSync { system: other, type_info: o }
    } else {
        ConflictView::Borrow { type_info: Some(t), other_system: other, other_type_info: o }
    }
}

/// First position from `b` in `borrow` that clashes with `o`.
pub open spec fn first_b(o: TypeInfoView, borrow: Seq<TypeInfoView>, b: int) -> Option<int>
    decreases borrow.len() - b,
{
    if b < 0 || b >= borrow.len() {
        None
    } else if clashes(borrow[b], o) {
        Some(b)
    } else {
        first_b(o, borrow, b + 1)
    }
}

/// First pair, from position `a` of `others`, of a borrow there and one of `borrow` that
/// clash.
pub open spec fn first_a(others: Seq<TypeInfoView>, borrow: Seq<TypeInfoView>, a: int) -> Option<(int, int)>
    decreases others.len() - a,
{
    if a < 0 || a >= others.len() {
        None
    } else {
        match first_b(others[a], borrow, 0) {
            Some(b) => Some((a, b)),
            None => first_a(others, borrow, a + 1),
        }
    }
}

/// First system, from position `j` of `batch`, with a borrow that clashes with `borrow`,
/// with the two borrows.
pub open spec fn first_j(batch: Seq<SystemInfoView>, borrow: Seq<TypeInfoView>, j: int) -> Option<(int, int, int)>
    decreases batch.len() - j,
{
    if j < 0 || j >= batch.len() {
        None
    } else {
        match first_a(batch[j].borrow, borrow, 0) {
            Some((a, b)) => Some((j, a, b)),
            None => first_j(batch, borrow, j + 1),
        }
    }
}

/// The first conflict of a system holding `borrow` with the batch `batch`, whose systems
/// have the indexes `indexes`.
pub open spec fn batch_conflict(batch: Seq<SystemInfoView>, indexes: Seq<usize>, borrow: Seq<TypeInfoView>) -> Option<ConflictView> {
    match first_j(batch, borrow, 0) {
        Some((j, a, b)) => Some(conflict_between(borrow[b], indexes[j], batch[j].borrow[a])),
        None => None,
    }
}

/// Where a system holding `borrow` goes among the first `i` batches: after the last one
/// it conflicts with, with that conflict; the first batch when there is none.
pub open spec fn placement(infos: Seq<Seq<SystemInfoView>>, parallel: Seq<Seq<usize>>, borrow: Seq<TypeInfoView>, i: int) -> (int, Option<ConflictView>)
    decreases i,
{
    if i <= 0 {
        (0, None)
    } else {
        match batch_conflict(infos[i - 1], parallel[i - 1], borrow) {
            Some(c) => (i, Some(c)),
            None => placement(infos, parallel, borrow, i - 1),
        }
    }
}

/// First borrow of `borrow`, from position `k`, that is not thread safe.
pub open spec fn first_unsafe(borrow: Seq<TypeInfoView>, k: int) -> Option<int>
    decreases borrow.len() - k,
{
    if k < 0 || k >= borrow.len() {
        None
    } else if !borrow[k].3 {
        Some(k)
    } else {
        first_unsafe(borrow, k + 1)
    }
}

/// Batches, by system index and by system information, after placing `s`.
pub open spec fn step(state: (Seq<Seq<usize>>, Seq<Seq<SystemInfoView>>), s: CollectedView) -> (Seq<Seq<usize>>, Seq<Seq<SystemInfoView>>) {
    let (parallel, infos) = state;
    match first_unsafe(s.borrow, 0) {
        Some(k) => {
            let conflict = if parallel.len() == 0 { None } else { Some(ConflictView::NotSendSync(s.borrow[k])) };
            let info = SystemInfoView { name: s.name, type_id: s.type_id, borrow: seq![s.borrow[k]], conflict };
            (parallel.push(seq![s.index]), infos.push(seq![info]))
        },
        None => {
            let (valid, conflict) = placement(infos, parallel, s.borrow, parallel.len() as int);
            let info = SystemInfoView { name: s.name, type_id: s.type_id, borrow: s.borrow, conflict };
            if valid < parallel.len() {
                (parallel.update(valid, parallel[valid].push(s.index)), infos.update(valid, infos[valid].push(info)))
            } else {
                (parallel.push(seq![s.index]), infos.push(seq![info]))
            }
        },
    }
}

/// Batches of the systems `systems`, placed one after the other.
pub open spec fn batched(systems: Seq<CollectedView>) -> (Seq<Seq<usize>>, Seq<Seq<SystemInfoView>>)
    decreases systems.len(),
{
    if systems.len() == 0 {
        (Seq::empty(), Seq::empty())
    } else {
        step(batched(systems.drop_last()), systems.last())
    }
}

/// The values of lists of system indexes.
pub open spec fn pv(p: Seq<Vec<usize>>) -> Seq<Seq<usize>> {
    p.map_values(|v: Vec<usize>| v@)
}

/// Batches by system index and by information line up, system for system.
pub open spec fn aligned(parallel: Seq<Vec<usize>>, infos: Seq<BuilderBatchInfo>) -> bool {
    &&& parallel.len() == infos.len()
    &&& forall|i: int| 0 <= i < parallel.len() ==> (#[trigger] parallel[i])@.len() == infos[i].systems@.len()
}

/// A system waiting to be batched.
pub struct CollectedSystem {
    pub type_id: TypeId,
    pub name: String,
    pub index: usize,
    pub borrow: Vec<TypeInfo>,
}

/// The value of a system waiting to be batched.
pub open spec fn colv(c: CollectedSystem) -> CollectedView {
    CollectedView { type_id: c.type_id, name: c.name@, index: c.index, borrow: tvs(c.borrow@) }
}

/// A list of one element.
fn single<T>(x: T) -> (v: Vec<T>)
    ensures
        v@ == seq![x],
{
    let mut v = Vec::new();
    v.push(x);
    v
}

/// Position of the first borrow that is not thread safe.
fn find_unsafe(borrow: &Vec<TypeInfo>) -> (r: Option<usize>)
    ensures
        r matches Some(k) ==> k < borrow@.len() && first_unsafe(tvs(borrow@), 0) == Some(k as int),
        r is None ==> first_unsafe(tvs(borrow@), 0) is None,
{
    let ghost bs = tvs(borrow@);
    let mut k: usize = 0;
    while k < borrow.len()
        invariant
            k <= borrow@.len(),
            bs == tvs(borrow@),
            first_unsafe(bs, 0) == first_unsafe(bs, k as int),
        decreases borrow@.len() - k,
    {
        if !borrow[k].thread_safe {
            return Some(k);
        }
        k += 1;
    }
    None
}

/// Returns `true` if a system holding `t` cannot run beside one holding `o`.
fn clash(t: &TypeInfo, o: &TypeInfo) -> (b: bool)
    ensures
        b == clashes(tv(*t), tv(*o)),
{
    !o.thread_safe || t.storage_id.is_all_storages() || o.storage_id.is_all_storages()
        || (t.storage_id == o.storage_id && (t.mutability == Mutability::Exclusive || o.mutability == Mutability::Exclusive))
}

/// The first conflict of a system holding `borrow` with the batch `batch`, whose systems
/// have the indexes `indexes`.
fn find_batch_conflict(batch: &Vec<BuilderSystemInfo>, indexes: &Vec<usize>, borrow: &Vec<TypeInfo>) -> (r: Option<Conflict>)
    requires
        batch@.len() == indexes@.len(),
    ensures
        ocv(r) == batch_conflict(batch@.map_values(|s: BuilderSystemInfo| siv(s)), indexes@, tvs(borrow@)),
{
    let ghost bv = batch@.map_values(|s: BuilderSystemInfo| siv(s));
    let ghost bs = tvs(borrow@);
    let mut j: usize = 0;
    while j < batch.len()
        invariant
            j <= batch@.len(),
            batch@.len() == indexes@.len(),
            bv == batch@.map_values(|s: BuilderSystemInfo| siv(s)),
            bs == tvs(borrow@),
            first_j(bv, bs, 0) == first_j(bv, bs, j as int),
        decreases batch@.len() - j,
    {
        let others = &batch[j].borrow;
        let ghost os = tvs(others@);
        assert(bv[j as int].borrow == os);
        let mut a: usize = 0;
        while a < others.len()
            invariant
                a <= others@.len(),
                j < batch@.len(),
                batch@.len() == indexes@.len(),
                others == &batch@[j as int].borrow,
                bv == batch@.map_values(|s: BuilderSystemInfo| siv(s)),
                bs == tvs(borrow@),
                os == tvs(others@),
                bv[j as int].borrow == os,
                first_j(bv, bs, 0) == first_j(bv, bs, j as int),
                first_a(os, bs, 0) == first_a(os, bs, a as int),
            decreases others@.len() - a,
        {
            let o = &others[a];
            let mut b: usize = 0;
            while b < borrow.len()
                invariant
                    b <= borrow@.len(),
                    a < others@.len(),
                    j < batch@.len(),
                    batch@.len() == indexes@.len(),
                    others == &batch@[j as int].borrow,
                    o == &others@[a as int],
                    bv == batch@.map_values(|s: BuilderSystemInfo| siv(s)),
                    bs == tvs(borrow@),
                    os == tvs(others@),
                    bv[j as int].borrow == os,
                    first_j(bv, bs, 0) == first_j(bv, bs, j as int),
                    first_a(os, bs, 0) == first_a(os, bs, a as int),
                    first_b(os[a as int], bs, 0) == first_b(os[a as int], bs, b as int),
                decreases borrow@.len() - b,
            {
                let t = &borrow[b];
                if clash(t, o) {
                    let other = indexes[j];
                    let c = if !o.thread_safe {
                        Conflict::OtherNotSendSync { system: other, type_info: o.duplicate() }
                    } else {
                        Conflict::Borrow { type_info: Some(t.duplicate()), other_system: other, other_type_info: o.duplicate() }
                    };
                    proof {
                        assert(first_b(os[a as int], bs, b as int) == Some(b as int));
                        assert(first_a(os, bs, a as int) == Some((a as int, b as int)));
                        assert(first_j(bv, bs, j as int) == Some((j as int, a as int, b as int)));
                    }
                    return Some(c);
                }
                b += 1;
            }
            a += 1;
        }
        j += 1;
    }
    None
}

/// Where a system holding `borrow` goes: the batch after the last one it conflicts with,
/// with that conflict.
fn find_placement(infos: &Vec<BuilderBatchInfo>, parallel: &Vec<Vec<usize>>, borrow: &Vec<TypeInfo>) -> (r: (usize, Option<Conflict>))
    requires
        aligned(parallel@, infos@),
    ensures
        (r.0 as int, ocv(r.1)) == placement(bivs(infos@), pv(parallel@), tvs(borrow@), parallel@.len() as int),
{
    let ghost iv = bivs(infos@);
    let ghost ps = pv(parallel@);
    let ghost bs = tvs(borrow@);
    let mut i = parallel.len();
    while i > 0
        invariant
            i <= parallel@.len(),
            aligned(parallel@, infos@),
            iv == bivs(infos@),
            ps == pv(parallel@),
            bs == tvs(borrow@),
            placement(iv, ps, bs, parallel@.len() as int) == placement(iv, ps, bs, i as int),
        decreases i,
    {
        let c = find_batch_conflict(&infos[i - 1].systems, &parallel[i - 1], borrow);
        proof {
            assert(iv[i - 1] == infos@[i - 1].systems@.map_values(|s: BuilderSystemInfo| siv(s)));
            assert(ps[i - 1] == parallel@[i - 1]@);
        }
        match c {
            Some(c) => {
                return (i, Some(c));
            },
            None => {
                i -= 1;
            },
        }
    }
    (0, None)
}

/// A copy of the borrows `borrow`.
fn copy_borrows(borrow: &Vec<TypeInfo>) -> (r: Vec<TypeInfo>)
    ensures
        tvs(r@) == tvs(borrow@),
{
    let r = crate::scheduler::info::duplicate_type_infos(borrow);
    proof {
        assert(tvs(r@) =~= tvs(borrow@));
    }
    r
}

/// Places `s` in the batches, in place.
fn place_system(parallel: &mut Vec<Vec<usize>>, infos: &mut Vec<BuilderBatchInfo>, s: CollectedSystem)
    requires
        aligned(old(parallel)@, old(infos)@),
    ensures
        aligned(final(parallel)@, final(infos)@),
        (pv(final(parallel)@), bivs(final(infos)@)) == step((pv(old(parallel)@), bivs(old(infos)@)), colv(s)),
{
    let ghost p0 = pv(parallel@);
    let ghost i0 = bivs(infos@);
    let ghost sv = colv(s);
    let CollectedSystem { type_id, name, index, borrow } = s;
    match find_unsafe(&borrow) {
        Some(k) => {
            let conflict = if parallel.len() == 0 { None } else { Some(Conflict::NotSendSync(borrow[k].duplicate())) };
            let info = BuilderSystemInfo { name, type_id, borrow: single(borrow[k].duplicate()), conflict };
            let ghost iv = siv(info);
            parallel.push(single(index));
            infos.push(BuilderBatchInfo { systems: single(info) });
            proof {
                assert(iv.borrow =~= seq![sv.borrow[k as int]]);
                assert(sv.borrow[k as int] == tv(borrow@[k as int]));
                assert(p0.len() == old(parallel)@.len());
                assert(iv.conflict == (if p0.len() == 0 { None } else { Some(ConflictView::NotSendSync(sv.borrow[k as int])) }));
                assert(first_unsafe(sv.borrow, 0) == Some(k as int));
                assert(iv.name == sv.name);
                assert(iv.type_id == sv.type_id);
                assert(step((p0, i0), sv) == (p0.push(seq![index]), i0.push(seq![iv])));
                assert(pv(parallel@) =~= p0.push(seq![index]));
                assert(biv(infos@.last()) =~= seq![iv]);
                assert(bivs(infos@) =~= i0.push(seq![iv]));
                assert forall|i: int| 0 <= i < parallel@.len() implies (#[trigger] parallel@[i])@.len() == infos@[i].systems@.len() by {
                    if i < parallel@.len() - 1 {
                        assert(parallel@[i] == old(parallel)@[i]);
                    }
                }
            }
        },
        None => {
            let (valid, conflict) = find_placement(infos, parallel, &borrow);
            let info = BuilderSystemInfo { name, type_id, borrow, conflict };
            let ghost iv = siv(info);
            if valid < parallel.len() {
                parallel[valid].push(index);
                infos[valid].systems.push(info);
                proof {
                    assert(pv(parallel@) =~= p0.update(valid as int, p0[valid as int].push(index)));
                    assert(biv(infos@[valid as int]) =~= i0[valid as int].push(iv));
                    assert(bivs(infos@) =~= i0.update(valid as int, i0[valid as int].push(iv)));
                    assert forall|i: int| 0 <= i < parallel@.len() implies (#[trigger] parallel@[i])@.len() == infos@[i].systems@.len() by {
                        if i != valid {
                            assert(parallel@[i] == old(parallel)@[i]);
                        }
                    }
                }
            } else {
                parallel.push(single(index));
                infos.push(BuilderBatchInfo { systems: single(info) });
                proof {
                    assert(pv(parallel@) =~= p0.push(seq![index]));
                    assert(biv(infos@.last()) =~= seq![iv]);
                    assert(bivs(infos@) =~= i0.push(seq![iv]));
                    assert forall|i: int| 0 <= i < parallel@.len() implies (#[trigger] parallel@[i])@.len() == infos@[i].systems@.len() by {
                        if i < parallel@.len() - 1 {
                            assert(parallel@[i] == old(parallel)@[i]);
                        }
                    }
                }
            }
        },
    }
}

/// A system handed to a [`WorkloadBuilder`]: its type, name and borrows.
#[derive(Debug)]
pub struct BuilderSystem {
    pub type_id: TypeId,
    pub name: String,
    pub borrow: Vec<TypeInfo>,
}

/// What a workload is built from: a system, or all the systems of a workload already
/// added, by name.
#[derive(Debug)]
pub enum WorkUnit {
    System(BuilderSystem),
    Workload(String),
}

/// Mathematical value of a [`WorkUnit`].
pub enum UnitView {
    System { type_id: TypeId, name: Seq<char>, borrow: Seq<TypeInfoView> },
    Workload(Seq<char>),
}

/// The value of a work unit.
pub open spec fn uv(u: WorkUnit) -> UnitView {
    match u {
        WorkUnit::System(s) => UnitView::System { type_id: s.type_id, name: s.name@, borrow: tvs(s.borrow@) },
        WorkUnit::Workload(w) => UnitView::Workload(w@),
    }
}

/// The values of a list of work units.
pub open spec fn uvs(us: Seq<WorkUnit>) -> Seq<UnitView> {
    us.map_values(|u: WorkUnit| uv(u))
}

/// The batches of a workload: by batch, and in the order they run one by one.
#[derive(Debug)]
pub struct BuilderBatches {
    pub parallel: Vec<Vec<usize>>,
    pub sequential: Vec<usize>,
}

/// The systems and workloads a [`WorkloadBuilder`] adds to.
#[derive(Debug)]
pub struct BuilderScheduler {
    /// Type of each system; a type is listed once.
    pub system_ids: Vec<TypeId>,
    /// Name of each system.
    pub system_names: Vec<String>,
    /// Borrows of each system.
    pub system_borrows: Vec<Vec<TypeInfo>>,
    /// Workloads, by name.
    pub workloads: Vec<(String, BuilderBatches)>,
    /// Name of the workload run by default.
    pub default: String,
}

/// Mathematical value of the systems of a scheduler.
pub struct RegistryView {
    pub ids: Seq<TypeId>,
    pub names: Seq<Seq<char>>,
    pub borrows: Seq<Seq<TypeInfoView>>,
}

/// The workloads of a scheduler: name and systems in order.
pub open spec fn wsv(ws: Seq<(String, BuilderBatches)>) -> Seq<(Seq<char>, Seq<usize>)> {
    ws.map_values(|w: (String, BuilderBatches)| (w.0@, w.1.sequential@))
}

impl BuilderScheduler {
    /// The systems of this scheduler.
    pub open spec fn regv(&self) -> RegistryView {
        RegistryView {
            ids: self.system_ids@,
            names: self.system_names@.map_values(|n: String| n@),
            borrows: self.system_borrows@.map_values(|b: Vec<TypeInfo>| tvs(b@)),
        }
    }

    /// Each system is listed once with its name and borrows, and workloads list systems
    /// that exist.
    pub open spec fn wf(&self) -> bool {
        &&& self.system_names@.len() == self.system_ids@.len()
        &&& self.system_borrows@.len() == self.system_ids@.len()
        &&& forall|i: int, j: int| 0 <= i < j < self.system_ids@.len() ==> self.system_ids@[i] != self.system_ids@[j]
        &&& forall|w: int, k: int| 0 <= w < self.workloads@.len() && 0 <= k < self.workloads@[w].1.sequential@.len()
            ==> #[trigger] self.workloads@[w].1.sequential@[k] < self.system_ids@.len()
    }

    /// A scheduler with no system and no workload.
    pub fn new() -> (s: BuilderScheduler)
        ensures
            s.wf(),
            s.system_ids@.len() == 0,
            s.workloads@.len() == 0,
            s.default@.len() == 0,
    {
        BuilderScheduler {
            system_ids: Vec::new(),
            system_names: Vec::new(),
            system_borrows: Vec::new(),
            workloads: Vec::new(),
            default: String::new(),
        }
    }
}

/// First position from `i` of the type `t` in `ids`.
pub open spec fn id_pos(ids: Seq<TypeId>, t: TypeId, i: int) -> Option<int>
    decreases ids.len() - i,
{
    if i < 0 || i >= ids.len() {
        None
    } else if ids[i] == t {
        Some(i)
    } else {
        id_pos(ids, t, i + 1)
    }
}

/// First position from `i` of the workload named `name`.
pub open spec fn ws_pos(ws: Seq<(Seq<char>, Seq<usize>)>, name: Seq<char>, i: int) -> Option<int>
    decreases ws.len() - i,
{
    if i < 0 || i >= ws.len() {
        None
    } else if ws[i].0 == name {
        Some(i)
    } else {
        ws_pos(ws, name, i + 1)
    }
}

/// The systems after registering those of `units` that are new.
pub open spec fn registered(r: RegistryView, units: Seq<UnitView>) -> RegistryView
    decreases units.len(),
{
    if units.len() == 0 {
        r
    } else {
        let prev = registered(r, units.drop_last());
        match units.last() {
            UnitView::System { type_id, name, borrow } => if id_pos(prev.ids, type_id, 0) is Some {
                prev
            } else {
                RegistryView { ids: prev.ids.push(type_id), names: prev.names.push(name), borrows: prev.borrows.push(borrow) }
            },
            UnitView::Workload(_) => prev,
        }
    }
}

/// The systems `indexes` of a registry, waiting to be batched.
pub open spec fn expand(indexes: Seq<usize>, r: RegistryView) -> Seq<CollectedView> {
    Seq::new(indexes.len(), |k: int| CollectedView {
        type_id: r.ids[indexes[k] as int],
        name: r.names[indexes[k] as int],
        index: indexes[k],
        borrow: r.borrows[indexes[k] as int],
    })
}

/// The systems of the work units `units`, in order, as registered from `r`, a nested
/// workload standing for its systems.
pub open spec fn collected(r: RegistryView, units: Seq<UnitView>, ws: Seq<(Seq<char>, Seq<usize>)>) -> Seq<CollectedView>
    decreases units.len(),
{
    if units.len() == 0 {
        Seq::empty()
    } else {
        let now = registered(r, units);
        let more = match units.last() {
            UnitView::System { type_id, name, borrow } => seq![CollectedView {
                type_id,
                name,
                index: match id_pos(now.ids, type_id, 0) {
                    Some(p) => p as usize,
                    None => 0,
                },
                borrow,
            }],
            UnitView::Workload(w) => match ws_pos(ws, w, 0) {
                Some(p) => expand(ws[p].1, now),
                None => Seq::empty(),
            },
        };
        collected(r, units.drop_last(), ws) + more
    }
}

/// Position of the system of type `type_id`.
fn find_system(ids: &Vec<TypeId>, type_id: TypeId) -> (r: Option<usize>)
    ensures
        r matches Some(p) ==> id_pos(ids@, type_id, 0) == Some(p as int) && p < ids@.len(),
        r is None ==> id_pos(ids@, type_id, 0) is None,
{
    let mut i: usize = 0;
    while i < ids.len()
        invariant
            i <= ids@.len(),
            id_pos(ids@, type_id, 0) == id_pos(ids@, type_id, i as int),
        decreases ids@.len() - i,
    {
        if ids[i] == type_id {
            return Some(i);
        }
        i += 1;
    }
    None
}

/// Position of the workload named `name`.
fn find_named(ws: &Vec<(String, BuilderBatches)>, name: &String) -> (r: Option<usize>)
    ensures
        r matches Some(p) ==> ws_pos(wsv(ws@), name@, 0) == Some(p as int) && p < ws@.len(),
        r is None ==> ws_pos(wsv(ws@), name@, 0) is None,
{
    let ghost v = wsv(ws@);
    let mut i: usize = 0;
    while i < ws.len()
        invariant
            i <= ws@.len(),
            v == wsv(ws@),
            ws_pos(v, name@, 0) == ws_pos(v, name@, i as int),
        decreases ws@.len() - i,
    {
        if ws[i].0 == *name {
            return Some(i);
        }
        i += 1;
    }
    None
}

/// Registers the new systems of `units` in `sched` and lists the systems of `units`, a
/// nested workload standing for its systems.
fn register_and_collect(sched: &mut BuilderScheduler, units: &Vec<WorkUnit>) -> (c: Vec<CollectedSystem>)
    requires
        old(sched).wf(),
        old(sched).system_ids@.len() + units@.len() < usize::MAX,
    ensures
        final(sched).wf(),
        final(sched).regv() == registered(old(sched).regv(), uvs(units@)),
        final(sched).workloads == old(sched).workloads,
        final(sched).default == old(sched).default,
        c@.map_values(|x: CollectedSystem| colv(x)) == collected(old(sched).regv(), uvs(units@), wsv(old(sched).workloads@)),
        forall|k: int| 0 <= k < c@.len() ==> (#[trigger] c@[k]).index < final(sched).system_ids@.len(),
{
    let ghost r0 = sched.regv();
    let ghost us = uvs(units@);
    let ghost ws = wsv(sched.workloads@);
    let mut c: Vec<CollectedSystem> = Vec::new();
    let mut k: usize = 0;
    while k < units.len()
        invariant
            k <= units@.len(),
            sched.wf(),
            us == uvs(units@),
            ws == wsv(sched.workloads@),
            sched.workloads == old(sched).workloads,
            sched.default == old(sched).default,
            r0 == old(sched).regv(),
            sched.system_ids@.len() <= old(sched).system_ids@.len() + k,
            old(sched).system_ids@.len() + units@.len() < usize::MAX,
            sched.regv() == registered(r0, us.subrange(0, k as int)),
            c@.map_values(|x: CollectedSystem| colv(x)) == collected(r0, us.subrange(0, k as int), ws),
            forall|m: int| 0 <= m < c@.len() ==> (#[trigger] c@[m]).index < sched.system_ids@.len(),
        decreases units@.len() - k,
    {
        let ghost pre = us.subrange(0, k as int);
        let ghost cur = us.subrange(0, k + 1);
        let ghost c0 = c@.map_values(|x: CollectedSystem| colv(x));
        assert(cur.drop_last() =~= pre);
        assert(cur.last() == uv(units@[k as int]));
        match &units[k] {
            WorkUnit::System(s) => {
                let index = match find_system(&sched.system_ids, s.type_id) {
                    Some(p) => {
                        proof {
                            assert(registered(r0, cur) == registered(r0, pre));
                        }
                        p
                    },
                    None => {
                        let ghost rv = sched.regv();
                        proof {
                            assert forall|m: int| 0 <= m < rv.ids.len() implies rv.ids[m] != s.type_id by {
                                lemma_id_pos_none(rv.ids, s.type_id, 0, m);
                            }
                        }
                        sched.system_ids.push(s.type_id);
                        sched.system_names.push(s.name.clone());
                        sched.system_borrows.push(copy_borrows(&s.borrow));
                        proof {
                            assert(sched.regv().ids =~= rv.ids.push(s.type_id));
                            assert(sched.regv().names =~= rv.names.push(s.name@));
                            assert(sched.regv().borrows =~= rv.borrows.push(tvs(s.borrow@)));
                            assert forall|w: int, m: int| 0 <= w < sched.workloads@.len() && 0 <= m < sched.workloads@[w].1.sequential@.len()
                                implies #[trigger] sched.workloads@[w].1.sequential@[m] < sched.system_ids@.len() by {
                                assert(old(sched).workloads@[w].1.sequential@[m] < rv.ids.len());
                            }
                        }
                        sched.system_ids.len() - 1
                    },
                };
                proof {
                    assert(id_pos(sched.system_ids@, s.type_id, 0) == Some(index as int)) by {
                        if id_pos(registered(r0, pre).ids, s.type_id, 0) is None {
                            let ids = sched.system_ids@;
                            assert forall|m: int| 0 <= m < index implies ids[m] != s.type_id by {
                                lemma_id_pos_none(registered(r0, pre).ids, s.type_id, 0, m);
                            }
                            lemma_id_pos_first(ids, s.type_id, index as int);
                        }
                    }
                }
                c.push(CollectedSystem { type_id: s.type_id, name: s.name.clone(), index, borrow: copy_borrows(&s.borrow) });
                proof {
                    assert(c@.map_values(|x: CollectedSystem| colv(x)) =~= c0 + collected(r0, cur, ws).subrange(c0.len() as int, collected(r0, cur, ws).len() as int));
                    assert(c@.map_values(|x: CollectedSystem| colv(x)) =~= collected(r0, cur, ws));
                }
            },
            WorkUnit::Workload(name) => {
                proof {
                    assert(registered(r0, cur) == registered(r0, pre));
                }
                match find_named(&sched.workloads, name) {
                    Some(p) => {
                        let seq = &sched.workloads[p].1.sequential;
                        let ghost base = c@.map_values(|x: CollectedSystem| colv(x));
                        let ghost ex = expand(ws[p as int].1, sched.regv());
                        assert(ws[p as int].1 == seq@);
                        let mut m: usize = 0;
                        while m < seq.len()
                            invariant
                                m <= seq@.len(),
                                sched.wf(),
                                p < sched.workloads@.len(),
                                seq == &sched.workloads@[p as int].1.sequential,
                                ex == expand(seq@, sched.regv()),
                                c@.map_values(|x: CollectedSystem| colv(x)) == base + ex.subrange(0, m as int),
                                forall|q: int| 0 <= q < c@.len() ==> (#[trigger] c@[q]).index < sched.system_ids@.len(),
                            decreases seq@.len() - m,
                        {
                            let idx = seq[m];
                            assert(sched.workloads@[p as int].1.sequential@[m as int] < sched.system_ids@.len());
                            let item = CollectedSystem {
                                type_id: sched.system_ids[idx],
                                name: sched.system_names[idx].clone(),
                                index: idx,
                                borrow: copy_borrows(&sched.system_borrows[idx]),
                            };
                            let ghost before = c@.map_values(|x: CollectedSystem| colv(x));
                            c.push(item);
                            proof {
                                assert(colv(item) == ex[m as int]);
                                assert(c@.map_values(|x: CollectedSystem| colv(x)) =~= before.push(colv(item)));
                                assert(ex.subrange(0, m + 1) =~= ex.subrange(0, m as int).push(ex[m as int]));
                            }
                            m += 1;
                        }
                        proof {
                            assert(ex.subrange(0, m as int) =~= ex);
                        }
                    },
                    None => {},
                }
                proof {
                    assert(c@.map_values(|x: CollectedSystem| colv(x)) =~= collected(r0, cur, ws));
                }
            },
        }
        k += 1;
    }
    proof {
        assert(us.subrange(0, k as int) =~= us);
    }
    c
}

/// Batches of the systems `cs`: a lone system keeps all its borrows in its information.
pub open spec fn expected_batches(cs: Seq<CollectedView>) -> (Seq<Seq<usize>>, Seq<Seq<SystemInfoView>>) {
    if cs.len() == 1 {
        (seq![seq![cs[0].index]], seq![seq![SystemInfoView { name: cs[0].name, type_id: cs[0].type_id, borrow: cs[0].borrow, conflict: None }]])
    } else {
        batched(cs)
    }
}

/// The system indexes of `cs`, in order.
pub open spec fn indexes_of(cs: Seq<CollectedView>) -> Seq<usize> {
    cs.map_values(|c: CollectedView| c.index)
}

/// First work unit from `k` that nests a workload missing from `ws`, by name.
pub open spec fn unknown_from(us: Seq<UnitView>, ws: Seq<(Seq<char>, Seq<usize>)>, k: int) -> Option<Seq<char>>
    decreases us.len() - k,
{
    if k < 0 || k >= us.len() {
        None
    } else {
        match us[k] {
            UnitView::Workload(w) => if ws_pos(ws, w, 0) is None { Some(w) } else { unknown_from(us, ws, k + 1) },
            _ => unknown_from(us, ws, k + 1),
        }
    }
}

/// A copy of a system waiting to be batched.
fn copy_collected(c: &CollectedSystem) -> (r: CollectedSystem)
    ensures
        colv(r) == colv(*c),
{
    CollectedSystem { type_id: c.type_id, name: c.name.clone(), index: c.index, borrow: copy_borrows(&c.borrow) }
}

/// Batches the systems `cs`, in order: by batch, by information, and one by one.
fn batch_all(cs: &Vec<CollectedSystem>) -> (r: (Vec<Vec<usize>>, Vec<BuilderBatchInfo>, Vec<usize>))
    ensures
        (pv(r.0@), bivs(r.1@)) == expected_batches(cs@.map_values(|x: CollectedSystem| colv(x))),
        r.2@ == indexes_of(cs@.map_values(|x: CollectedSystem| colv(x))),
{
    let ghost cv_ = cs@.map_values(|x: CollectedSystem| colv(x));
    let mut parallel: Vec<Vec<usize>> = Vec::new();
    let mut infos: Vec<BuilderBatchInfo> = Vec::new();
    let mut sequential: Vec<usize> = Vec::new();
    if cs.len() == 1 {
        let c = copy_collected(&cs[0]);
        let CollectedSystem { type_id, name, index, borrow } = c;
        parallel.push(single(index));
        sequential.push(index);
        let info = BuilderSystemInfo { name, type_id, borrow, conflict: None };
        let ghost iv = siv(info);
        infos.push(BuilderBatchInfo { systems: single(info) });
        proof {
            assert(cv_[0] == colv(cs@[0]));
            assert(pv(parallel@) =~= seq![seq![cv_[0].index]]);
            assert(biv(infos@[0]) =~= seq![iv]);
            assert(bivs(infos@) =~= seq![seq![iv]]);
            assert(sequential@ =~= indexes_of(cv_));
        }
        return (parallel, infos, sequential);
    }
    let mut k: usize = 0;
    while k < cs.len()
        invariant
            k <= cs@.len(),
            cs@.len() != 1,
            cv_ == cs@.map_values(|x: CollectedSystem| colv(x)),
            aligned(parallel@, infos@),
            (pv(parallel@), bivs(infos@)) == batched(cv_.subrange(0, k as int)),
            sequential@ == indexes_of(cv_.subrange(0, k as int)),
        decreases cs@.len() - k,
    {
        let c = copy_collected(&cs[k]);
        let index = c.index;
        proof {
            assert(cv_.subrange(0, k + 1).drop_last() =~= cv_.subrange(0, k as int));
            assert(cv_.subrange(0, k + 1).last() == colv(c));
        }
        place_system(&mut parallel, &mut infos, c);
        sequential.push(index);
        proof {
            assert(indexes_of(cv_.subrange(0, k + 1)) =~= indexes_of(cv_.subrange(0, k as int)).push(index));
        }
        k += 1;
    }
    proof {
        assert(cv_.subrange(0, k as int) =~= cv_);
    }
    (parallel, infos, sequential)
}

/// Keeps what is needed to build a workload: its name and what it is made of, in order.
#[derive(Debug)]
pub struct WorkloadBuilder {
    pub systems: Vec<WorkUnit>,
    pub name: String,
}

impl Workload {
    /// A new builder of the workload `name`, with nothing in it yet.
    pub fn builder(name: String) -> (b: WorkloadBuilder)
        ensures
            b.name == name,
            b.systems@.len() == 0,
    {
        WorkloadBuilder::new(name)
    }
}

impl WorkloadBuilder {
    /// A new builder of the workload `name`, with nothing in it yet.
    pub fn new(name: String) -> (b: WorkloadBuilder)
        ensures
            b.name == name,
            b.systems@.len() == 0,
    {
        WorkloadBuilder { systems: Vec::new(), name }
    }

    /// Adds a system to the workload being built. Its borrows have to be able to stand
    /// together.
    pub fn with_system(&mut self, system: BuilderSystem) -> (r: &mut WorkloadBuilder)
        requires
            valid_borrows(system.borrow@),
        ensures
            r.name == old(self).name,
            r.systems@ == old(self).systems@.push(WorkUnit::System(system)),
            *final(self) == *final(r),
    {
        self.systems.push(WorkUnit::System(system));
        self
    }

    /// Adds all the systems of the workload `workload`, which must be present in the
    /// scheduler when this one is added to it.
    pub fn with_workload(&mut self, workload: String) -> (r: &mut WorkloadBuilder)
        ensures
            r.name == old(self).name,
            r.systems@ == old(self).systems@.push(WorkUnit::Workload(workload)),
            *final(self) == *final(r),
    {
        self.systems.push(WorkUnit::Workload(workload));
        self
    }

    /// Moves all that `other` is made of into this builder, leaving `other` empty.
    pub fn append(&mut self, other: &mut WorkloadBuilder) -> (r: &mut WorkloadBuilder)
        ensures
            r.name == old(self).name,
            r.systems@ == old(self).systems@ + old(other).systems@,
            *final(self) == *final(r),
            final(other).name == old(other).name,
            final(other).systems@.len() == 0,
    {
        self.systems.append(&mut other.systems);
        self
    }

    /// Position of the first unit nesting a workload missing from `ws`.
    fn find_unknown(&self, ws: &Vec<(String, BuilderBatches)>) -> (r: Option<usize>)
        ensures
            r matches Some(k) ==> k < self.systems@.len() && (self.systems@[k as int] matches WorkUnit::Workload(w)
                && unknown_from(uvs(self.systems@), wsv(ws@), 0) == Some(w@)),
            r is None ==> unknown_from(uvs(self.systems@), wsv(ws@), 0) is None,
    {
        let ghost us = uvs(self.systems@);
        let ghost wv = wsv(ws@);
        let mut k: usize = 0;
        while k < self.systems.len()
            invariant
                k <= self.systems@.len(),
                us == uvs(self.systems@),
                wv == wsv(ws@),
                unknown_from(us, wv, 0) == unknown_from(us, wv, k as int),
            decreases self.systems@.len() - k,
        {
            match &self.systems[k] {
                WorkUnit::Workload(w) => {
                    if find_named(ws, w).is_none() {
                        return Some(k);
                    }
                },
                _ => {},
            }
            k += 1;
        }
        None
    }

    /// Builds the workload and stores it in `sched`, with how it was split in batches.
    ///
    /// Each system joins the earliest batch it can share without conflicting with a batch
    /// after it; a system holding a borrow that is not thread safe gets a batch of its own.
    /// The first workload added becomes the default one. Fails, leaving `sched` as it was,
    /// when a workload of the same name is present or when a nested workload is missing.
    pub fn add_to_world(&mut self, sched: &mut BuilderScheduler) -> (r: Result<BuilderWorkloadInfo, AddWorkload>)
        requires
            old(sched).wf(),
            old(sched).system_ids@.len() + old(self).systems@.len() < usize::MAX,
        ensures
            final(sched).wf(),
            ({
                let ws = wsv(old(sched).workloads@);
                let us = uvs(old(self).systems@);
                let name = old(self).name@;
                if ws_pos(ws, name, 0) is Some {
                    &&& r matches Err(AddWorkload::AlreadyExists)
                    &&& *final(sched) == *old(sched)
                    &&& *final(self) == *old(self)
                } else if unknown_from(us, ws, 0) is Some {
                    &&& r matches Err(AddWorkload::UnknownWorkload(a, b))
                    &&& a@ == LabelView::Name(name)
                    &&& b@ == LabelView::Name(unknown_from(us, ws, 0)->0)
                    &&& *final(sched) == *old(sched)
                    &&& final(self).systems == old(self).systems
                    &&& final(self).name@.len() == 0
                } else {
                    let cs = collected(old(sched).regv(), us, ws);
                    let (parallel, infos) = expected_batches(cs);
                    &&& r matches Ok(info)
                    &&& info.name@ == name
                    &&& bivs(info.batch_info@) == infos
                    &&& final(sched).regv() == registered(old(sched).regv(), us)
                    &&& final(sched).workloads@.len() == old(sched).workloads@.len() + 1
                    &&& forall|i: int| 0 <= i < old(sched).workloads@.len() ==> #[trigger] final(sched).workloads@[i] == old(sched).workloads@[i]
                    &&& final(sched).workloads@.last().0@ == name
                    &&& pv(final(sched).workloads@.last().1.parallel@) == parallel
                    &&& final(sched).workloads@.last().1.sequential@ == indexes_of(cs)
                    &&& final(sched).default@ == (if old(sched).workloads@.len() == 0 { name } else { old(sched).default@ })
                    &&& final(self).systems@.len() == 0
                    &&& final(self).name@.len() == 0
                }
            }),
    {
        if find_named(&sched.workloads, &self.name).is_some() {
            return Err(AddWorkload::AlreadyExists);
        }
        if let Some(k) = self.find_unknown(&sched.workloads) {
            let missing = match &self.systems[k] {
                WorkUnit::Workload(w) => w.clone(),
                _ => String::new(),
            };
            let mut name = String::new();
            std::mem::swap(&mut name, &mut self.name);
            return Err(AddWorkload::UnknownWorkload(Label::Name(name), Label::Name(missing)));
        }
        let ghost ws0 = sched.workloads@;
        let ghost us = uvs(self.systems@);
        let collected_systems = register_and_collect(sched, &self.systems);
        let (parallel, infos, sequential) = batch_all(&collected_systems);
        if sched.workloads.len() == 0 {
            sched.default = self.name.clone();
        }
        let ghost before = sched.workloads@;
        sched.workloads.push((self.name.clone(), BuilderBatches { parallel, sequential }));
        proof {
            assert forall|w: int, m: int| 0 <= w < sched.workloads@.len() && 0 <= m < sched.workloads@[w].1.sequential@.len()
                implies #[trigger] sched.workloads@[w].1.sequential@[m] < sched.system_ids@.len() by {
                if w < before.len() {
                    assert(sched.workloads@[w] == before[w]);
                } else {
                    assert(sched.workloads@[w].1.sequential@[m] == collected_systems@[m].index);
                }
            }
        }
        self.systems = Vec::new();
        let mut name = String::new();
        std::mem::swap(&mut name, &mut self.name);
        Ok(BuilderWorkloadInfo { name, batch_info: infos })
    }
}

/// No borrow of `b` clashes with a borrow of `o`: a system holding `b` can run beside
/// one holding `o`.
pub open spec fn no_clash(b: Seq<TypeInfoView>, o: Seq<TypeInfoView>) -> bool {
    forall|x: int, y: int| 0 <= x < b.len() && 0 <= y < o.len() ==> !clashes(#[trigger] b[x], #[trigger] o[y])
}

/// In each batch, no system clashes with one placed in the batch before it.
pub open spec fn batches_conflict_free(infos: Seq<Seq<SystemInfoView>>) -> bool {
    forall|b: int, j: int, k: int| 0 <= b < infos.len() && 0 <= j < k < infos[b].len()
        ==> no_clash(#[trigger] infos[b][k].borrow, #[trigger] infos[b][j].borrow)
}

proof fn lemma_first_b_none(o: TypeInfoView, borrow: Seq<TypeInfoView>, b: int)
    requires
        0 <= b,
        first_b(o, borrow, b) is None,
    ensures
        forall|k: int| b <= k < borrow.len() ==> !clashes(#[trigger] borrow[k], o),
    decreases borrow.len() - b,
{
    if b < borrow.len() {
        lemma_first_b_none(o, borrow, b + 1);
    }
}

proof fn lemma_first_a_none(others: Seq<TypeInfoView>, borrow: Seq<TypeInfoView>, a: int)
    requires
        0 <= a,
        first_a(others, borrow, a) is None,
    ensures
        forall|x: int| a <= x < others.len() ==> #[trigger] first_b(others[x], borrow, 0) is None,
    decreases others.len() - a,
{
    if a < others.len() {
        lemma_first_a_none(others, borrow, a + 1);
    }
}

proof fn lemma_first_j_none(batch: Seq<SystemInfoView>, borrow: Seq<TypeInfoView>, j: int)
    requires
        0 <= j,
        first_j(batch, borrow, j) is None,
    ensures
        forall|x: int| j <= x < batch.len() ==> #[trigger] first_a(batch[x].borrow, borrow, 0) is None,
    decreases batch.len() - j,
{
    if j < batch.len() {
        lemma_first_j_none(batch, borrow, j + 1);
    }
}

/// A system holding `borrow` has no conflict with a batch exactly when no borrow of its
/// clashes with one of the batch.
proof fn lemma_no_batch_conflict(batch: Seq<SystemInfoView>, indexes: Seq<usize>, borrow: Seq<TypeInfoView>)
    requires
        batch_conflict(batch, indexes, borrow) is None,
    ensures
        forall|j: int| 0 <= j < batch.len() ==> no_clash(borrow, #[trigger] batch[j].borrow),
{
    lemma_first_j_none(batch, borrow, 0);
    assert forall|j: int| 0 <= j < batch.len() implies no_clash(borrow, #[trigger] batch[j].borrow) by {
        let o = batch[j].borrow;
        lemma_first_a_none(o, borrow, 0);
        assert forall|x: int, y: int| 0 <= x < borrow.len() && 0 <= y < o.len() implies !clashes(#[trigger] borrow[x], #[trigger] o[y]) by {
            assert(first_b(o[y], borrow, 0) is None);
            lemma_first_b_none(o[y], borrow, 0);
        }
    }
}

/// The batch a system is placed in, when it is not a new one, has no conflict with it.
proof fn lemma_placement(infos: Seq<Seq<SystemInfoView>>, parallel: Seq<Seq<usize>>, borrow: Seq<TypeInfoView>, i: int)
    requires
        0 <= i,
    ensures
        0 <= placement(infos, parallel, borrow, i).0 <= i,
        placement(infos, parallel, borrow, i).0 < i
            ==> batch_conflict(infos[placement(infos, parallel, borrow, i).0], parallel[placement(infos, parallel, borrow, i).0], borrow) is None,
    decreases i,
{
    if i > 0 {
        lemma_placement(infos, parallel, borrow, i - 1);
    }
}

/// Systems that share a batch can run beside each other: in each batch built by placing
/// systems one after the other, no system's borrows clash with those of a system placed in
/// that batch before it.
pub proof fn law_batches_conflict_free(systems: Seq<CollectedView>)
    ensures
        batches_conflict_free(batched(systems).1),
        batched(systems).0.len() == batched(systems).1.len(),
    decreases systems.len(),
{
    if systems.len() > 0 {
        let prev = batched(systems.drop_last());
        law_batches_conflict_free(systems.drop_last());
        let (parallel, infos) = prev;
        let s = systems.last();
        let next = step(prev, s);
        match first_unsafe(s.borrow, 0) {
            Some(k) => {
                assert forall|b: int, j: int, m: int| 0 <= b < next.1.len() && 0 <= j < m < next.1[b].len()
                    implies no_clash(#[trigger] next.1[b][m].borrow, #[trigger] next.1[b][j].borrow) by {
                    if b < infos.len() {
                        assert(next.1[b] == infos[b]);
                    }
                }
            },
            None => {
                let (valid, conflict) = placement(infos, parallel, s.borrow, parallel.len() as int);
                lemma_placement(infos, parallel, s.borrow, parallel.len() as int);
                let info = SystemInfoView { name: s.name, type_id: s.type_id, borrow: s.borrow, conflict };
                if valid < parallel.len() {
                    lemma_no_batch_conflict(infos[valid], parallel[valid], s.borrow);
                    assert forall|b: int, j: int, m: int| 0 <= b < next.1.len() && 0 <= j < m < next.1[b].len()
                        implies no_clash(#[trigger] next.1[b][m].borrow, #[trigger] next.1[b][j].borrow) by {
                        if b != valid {
                            assert(next.1[b] == infos[b]);
                        } else if m < infos[b].len() {
                            assert(next.1[b][m] == infos[b][m]);
                            assert(next.1[b][j] == infos[b][j]);
                        } else {
                            assert(next.1[b][m] == info);
                            assert(next.1[b][j] == infos[b][j]);
                        }
                    }
                } else {
                    assert forall|b: int, j: int, m: int| 0 <= b < next.1.len() && 0 <= j < m < next.1[b].len()
                        implies no_clash(#[trigger] next.1[b][m].borrow, #[trigger] next.1[b][j].borrow) by {
                        if b < infos.len() {
                            assert(next.1[b] == infos[b]);
                        }
                    }
                }
            },
        }
    }
}

/// `id_pos` found nothing from `i`: no position from `i` holds `t`.
proof fn lemma_id_pos_none(ids: Seq<TypeId>, t: TypeId, i: int, m: int)
    requires
        0 <= i <= m < ids.len(),
        id_pos(ids, t, i) is None,
    ensures
        ids[m] != t,
    decreases m - i,
{
    if i < m {
        lemma_id_pos_none(ids, t, i + 1, m);
    }
}

/// A position holding `t` with none before it is the first.
proof fn lemma_id_pos_first(ids: Seq<TypeId>, t: TypeId, p: int)
    requires
        0 <= p < ids.len(),
        ids[p] == t,
        forall|m: int| 0 <= m < p ==> ids[m] != t,
    ensures
        id_pos(ids, t, 0) == Some(p),
{
    lemma_id_pos_from(ids, t, 0, p);
}

proof fn lemma_id_pos_from(ids: Seq<TypeId>, t: TypeId, i: int, p: int)
    requires
        0 <= i <= p < ids.len(),
        ids[p] == t,
        forall|m: int| i <= m < p ==> ids[m] != t,
    ensures
        id_pos(ids, t, i) == Some(p),
    decreases p - i,
{
    if i < p {
        lemma_id_pos_from(ids, t, i + 1, p);
    }
}

} // verus!
