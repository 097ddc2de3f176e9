//! Windows: views over a range of a packed storage.
use crate::entity_id::EntityId;
use crate::error::{NotInbound, NotUpdatePack, UpdateWindow};
use vstd::prelude::*;

verus! {

/// Update packing: the storage keeps its inserted components first, then the modified
/// ones, and records what was deleted and removed.
pub struct UpdatePack<T> {
    pub inserted: usize,
    pub modified: usize,
    pub deleted: Vec<(EntityId, T)>,
    pub removed: Vec<EntityId>,
}

/// How a storage is packed.
pub enum Pack<T> {
    Update(UpdatePack<T>),
    NoPack,
}

/// A storage whose components are kept in a dense list, found by entity index.
pub struct PackedStorage<T> {
    /// Dense index of each entity index; `usize::MAX` where there is none.
    pub sparse: Vec<usize>,
    pub dense: Vec<EntityId>,
    pub data: Vec<T>,
    pub pack: Pack<T>,
}

impl<T> PackedStorage<T> {
    /// The dense and data lists agree in length, and the sparse list reaches every entity.
    pub open spec fn wf(&self) -> bool {
        &&& self.data@.len() == self.dense@.len()
        &&& forall|k: int| 0 <= k < self.dense@.len() ==> (#[trigger] self.dense@[k]).index < self.sparse@.len()
    }

    /// Dense index recorded for `entity`'s index, if the sparse list reaches it.
    pub open spec fn sparse_index(&self, entity: EntityId) -> Option<usize> {
        if (entity.index as int) < self.sparse@.len() {
            Some(self.sparse@[entity.index as int])
        } else {
            None
        }
    }

    fn get_sparse_index(&self, entity: EntityId) -> (r: Option<usize>)
        ensures
            r == self.sparse_index(entity),
    {
        let i = entity.uindex();
        if i < self.sparse.len() {
            Some(self.sparse[i])
        } else {
            None
        }
    }

    /// A window over the whole storage.
    pub fn as_window(&self) -> (w: Window<'_, T>)
        requires
            self.wf(),
        ensures
            w.wf(),
            *w.storage == *self,
            w.start == 0,
            w.end == self.dense@.len(),
            w.offset == 0,
    {
        Window { storage: self, start: 0, end: self.dense.len(), offset: 0 }
    }

    /// A mutable window over the whole storage.
    pub fn as_window_mut(&mut self) -> (w: WindowMut<'_, T>)
        requires
            old(self).wf(),
        ensures
            w.wf(),
            w.store() == *old(self),
            w.start == 0,
            w.end == old(self).dense@.len(),
            w.offset == 0,
    {
        let end = self.dense.len();
        WindowMut { storage: self, start: 0, end, offset: 0 }
    }
}

/// The elements of `v` from `start` to `end`.
fn subslice<T>(v: &Vec<T>, start: usize, end: usize) -> (s: &[T])
    requires
        start <= end <= v@.len(),
    ensures
        s@ == v@.subrange(start as int, end as int),
{
    vstd::slice::slice_subrange(v.as_slice(), start, end)
}

/// Shared view over the dense positions `start..end` of a storage.
pub struct Window<'a, T> {
    pub storage: &'a PackedStorage<T>,
    pub start: usize,
    pub end: usize,
    /// Position of the window as its storage's packing sees it.
    pub offset: usize,
}

/// Mutable view over the dense positions `start..end` of a storage.
pub struct WindowMut<'a, T> {
    pub storage: &'a mut PackedStorage<T>,
    pub start: usize,
    pub end: usize,
    /// Position of the window as its storage's packing sees it.
    pub offset: usize,
}

/// Position, in a window of `len` components at `offset` over `dense` from `start`, of the
/// component of `entity` when the sparse list gives `dense_index`.
pub open spec fn owned_index(dense: Seq<EntityId>, start: int, len: int, offset: int, sparse_index: Option<usize>, entity: EntityId) -> Option<usize> {
    match sparse_index {
        Some(di) => if di != usize::MAX && offset <= di < offset + len && dense[start + di - offset] == entity {
            Some((di - offset) as usize)
        } else {
            None
        },
        None => None,
    }
}

/// Finds the component of `entity` in a window.
fn find_owned<T>(storage: &PackedStorage<T>, start: usize, end: usize, offset: usize, entity: EntityId) -> (r: Option<usize>)
    requires
        start <= end <= storage.dense@.len(),
    ensures
        r == owned_index(storage.dense@, start as int, end - start, offset as int, storage.sparse_index(entity), entity),
{
    match storage.get_sparse_index(entity) {
        Some(di) => {
            if di != usize::MAX && di >= offset && di - offset < end - start && storage.dense[start + (di - offset)] == entity {
                Some(di - offset)
            } else {
                None
            }
        },
        None => None,
    }
}

/// A window finds a component for an entity only at a position that holds
/// exactly that entity, index and generation alike.
pub proof fn law_window_index_of_sound<'a, T>(w: Window<'a, T>, entity: EntityId)
    requires
        w.wf(),
    ensures
        owned_index(w.storage.dense@, w.start as int, w.len_spec(), w.offset as int, w.storage.sparse_index(entity), entity) matches Some(i)
            ==> i < w.len_spec() && w.storage.dense@[w.start + i] == entity,
{
}

/// In a storage whose sparse list points back at each dense position, a
/// window placed where its storage's packing sees it finds every entity it
/// holds, at the entity's own position.
pub proof fn law_window_index_of_complete<'a, T>(w: Window<'a, T>, entity: EntityId, i: int)
    requires
        w.wf(),
        w.storage.consistent(),
        w.start == w.offset,
        0 <= i < w.len_spec(),
        w.storage.dense@[w.start + i] == entity,
    ensures
        owned_index(w.storage.dense@, w.start as int, w.len_spec(), w.offset as int, w.storage.sparse_index(entity), entity)
            == Some(i as usize),
{
    assert(w.storage.sparse@[(w.storage.dense@[w.start + i]).index as int] == w.start + i);
}

impl<'a, T> Window<'a, T> {
    /// The storage seen through this window.
    pub open spec fn store(&self) -> PackedStorage<T> {
        *self.storage
    }

    /// The window lies inside its storage.
    pub open spec fn wf(&self) -> bool {
        &&& self.storage.wf()
        &&& self.start <= self.end <= self.storage.dense@.len()
    }

    pub open spec fn len_spec(&self) -> int {
        self.end - self.start
    }

    /// Returns the length of the window.
    pub fn len(&self) -> (n: usize)
        requires
            self.wf(),
        ensures
            n == self.len_spec(),
    {
        self.end - self.start
    }

    /// Returns `true` if the window's length is 0.
    pub fn is_empty(&self) -> (b: bool)
        requires
            self.wf(),
        ensures
            b == (self.len_spec() == 0),
    {
        self.end == self.start
    }

    /// Position of `entity`'s component in this window, if the window holds it.
    pub fn index_of_owned(&self, entity: EntityId) -> (r: Option<usize>)
        requires
            self.wf(),
        ensures
            r == owned_index(self.storage.dense@, self.start as int, self.len_spec(), self.offset as int, self.storage.sparse_index(entity), entity),
            r matches Some(i) ==> i < self.len_spec() && self.storage.dense@[self.start + i] == entity,
    {
        proof {
            law_window_index_of_sound(*self, entity);
        }
        find_owned(self.storage, self.start, self.end, self.offset, entity)
    }

    /// Position of `entity`'s component in this window, if the window holds it.
    pub fn index_of(&self, entity: EntityId) -> (r: Option<usize>)
        requires
            self.wf(),
        ensures
            r == owned_index(self.storage.dense@, self.start as int, self.len_spec(), self.offset as int, self.storage.sparse_index(entity), entity),
            r matches Some(i) ==> i < self.len_spec() && self.storage.dense@[self.start + i] == entity,
    {
        self.index_of_owned(entity)
    }

    /// Returns `true` if the window holds `entity`'s component.
    pub fn contains(&self, entity: EntityId) -> (b: bool)
        requires
            self.wf(),
        ensures
            b == owned_index(self.storage.dense@, self.start as int, self.len_spec(), self.offset as int, self.storage.sparse_index(entity), entity) is Some,
            b ==> self.storage.dense@.subrange(self.start as int, self.end as int).contains(entity),
    {
        let r = self.index_of(entity);
        proof {
            if let Some(i) = r {
                assert(self.storage.dense@.subrange(self.start as int, self.end as int)[i as int] == entity);
            }
        }
        r.is_some()
    }

    /// The entity at `index` of the window.
    pub fn try_id_at(&self, index: usize) -> (r: Option<EntityId>)
        requires
            self.wf(),
        ensures
            r == (if index < self.len_spec() { Some(self.storage.dense@[self.start + index]) } else { None::<EntityId> }),
    {
        if index < self.end - self.start {
            Some(self.storage.dense[self.start + index])
        } else {
            None
        }
    }

    /// The entity at `index` of the window.
    pub fn id_at(&self, index: usize) -> (e: EntityId)
        requires
            self.wf(),
            index < self.len_spec(),
        ensures
            e == self.storage.dense@[self.start + index],
    {
        self.storage.dense[self.start + index]
    }

    /// The components of the window.
    pub fn as_slice(&self) -> (s: &[T])
        requires
            self.wf(),
        ensures
            s@ == self.storage.data@.subrange(self.start as int, self.end as int),
    {
        subslice(&self.storage.data, self.start, self.end)
    }

    /// The *inserted* section of an update packed window.
    pub fn try_inserted(&self) -> (r: Result<Window<'a, T>, UpdateWindow>)
        requires
            self.wf(),
        ensures
            match self.storage.pack {
                Pack::Update(p) => if self.offset == 0 && self.len_spec() >= p.inserted {
                    r matches Ok(w) && w.wf() && w.storage == self.storage && w.start == self.start
                        && w.end == self.start + p.inserted && w.offset == 0
                } else {
                    r == Err::<Window<'a, T>, UpdateWindow>(UpdateWindow::OutOfBounds)
                },
                Pack::NoPack => r == Err::<Window<'a, T>, UpdateWindow>(UpdateWindow::NotUpdatePacked),
            },
    {
        match &self.storage.pack {
            Pack::Update(p) => {
                if self.offset == 0 && self.end - self.start >= p.inserted {
                    Ok(Window { storage: self.storage, start: self.start, end: self.start + p.inserted, offset: 0 })
                } else {
                    Err(UpdateWindow::OutOfBounds)
                }
            },
            Pack::NoPack => Err(UpdateWindow::NotUpdatePacked),
        }
    }

    /// The *inserted* section of an update packed window.
    pub fn inserted(&self) -> (w: Window<'a, T>)
        requires
            self.wf(),
            self.storage.pack matches Pack::Update(p) && self.offset == 0 && self.len_spec() >= p.inserted,
        ensures
            w.wf(),
            w.storage == self.storage,
            w.start == self.start,
            w.end == self.start + self.storage.pack->Update_0.inserted,
            w.offset == 0,
    {
        match self.try_inserted() {
            Ok(w) => w,
            Err(_) => Window { storage: self.storage, start: self.start, end: self.start, offset: 0 },
        }
    }

    /// The *modified* section of an update packed window.
    pub fn try_modified(&self) -> (r: Result<Window<'a, T>, UpdateWindow>)
        requires
            self.wf(),
            self.storage.pack is Update && self.offset <= self.storage.pack->Update_0.inserted
                && self.len_spec() >= self.storage.pack->Update_0.modified
                ==> self.storage.pack->Update_0.inserted + self.storage.pack->Update_0.modified - self.offset <= self.len_spec(),
        ensures
            match self.storage.pack {
                Pack::Update(p) => if self.offset <= p.inserted && self.len_spec() >= p.modified {
                    r matches Ok(w) && w.wf() && w.storage == self.storage
                        && w.start == self.start + p.inserted - self.offset
                        && w.end == self.start + p.inserted + p.modified - self.offset
                        && w.offset == p.inserted - self.offset
                } else {
                    r == Err::<Window<'a, T>, UpdateWindow>(UpdateWindow::OutOfBounds)
                },
                Pack::NoPack => r == Err::<Window<'a, T>, UpdateWindow>(UpdateWindow::NotUpdatePacked),
            },
    {
        match &self.storage.pack {
            Pack::Update(p) => {
                if self.offset <= p.inserted && self.end - self.start >= p.modified {
                    let a = p.inserted - self.offset;
                    Ok(Window { storage: self.storage, start: self.start + a, end: self.start + a + p.modified, offset: a })
                } else {
                    Err(UpdateWindow::OutOfBounds)
                }
            },
            Pack::NoPack => Err(UpdateWindow::NotUpdatePacked),
        }
    }

    /// The *modified* section of an update packed window.
    pub fn modified(&self) -> (w: Window<'a, T>)
        requires
            self.wf(),
            self.storage.pack matches Pack::Update(p) && self.offset <= p.inserted && self.len_spec() >= p.modified
                && p.inserted + p.modified - self.offset <= self.len_spec(),
        ensures
            w.wf(),
            w.storage == self.storage,
            w.start == self.start + self.storage.pack->Update_0.inserted - self.offset,
            w.end == self.start + self.storage.pack->Update_0.inserted + self.storage.pack->Update_0.modified - self.offset,
    {
        match self.try_modified() {
            Ok(w) => w,
            Err(_) => Window { storage: self.storage, start: self.start, end: self.start, offset: 0 },
        }
    }

    /// The *inserted* and *modified* sections of an update packed window.
    pub fn try_inserted_or_modified(&self) -> (r: Result<Window<'a, T>, UpdateWindow>)
        requires
            self.wf(),
        ensures
            match self.storage.pack {
                Pack::Update(p) => if self.offset == 0 && self.len_spec() >= p.inserted + p.modified {
                    r matches Ok(w) && w.wf() && w.storage == self.storage && w.start == self.start
                        && w.end == self.start + p.inserted + p.modified && w.offset == 0
                } else {
                    r == Err::<Window<'a, T>, UpdateWindow>(UpdateWindow::OutOfBounds)
                },
                Pack::NoPack => r == Err::<Window<'a, T>, UpdateWindow>(UpdateWindow::NotUpdatePacked),
            },
    {
        match &self.storage.pack {
            Pack::Update(p) => {
                if self.offset == 0 && p.inserted <= self.end - self.start && p.modified <= self.end - self.start - p.inserted {
                    Ok(Window { storage: self.storage, start: self.start, end: self.start + p.inserted + p.modified, offset: 0 })
                } else {
                    Err(UpdateWindow::OutOfBounds)
                }
            },
            Pack::NoPack => Err(UpdateWindow::NotUpdatePacked),
        }
    }

    /// The *inserted* and *modified* sections of an update packed window.
    pub fn inserted_or_modified(&self) -> (w: Window<'a, T>)
        requires
            self.wf(),
            self.storage.pack matches Pack::Update(p) && self.offset == 0 && self.len_spec() >= p.inserted + p.modified,
        ensures
            w.wf(),
            w.storage == self.storage,
            w.start == self.start,
            w.end == self.start + self.storage.pack->Update_0.inserted + self.storage.pack->Update_0.modified,
    {
        match self.try_inserted_or_modified() {
            Ok(w) => w,
            Err(_) => Window { storage: self.storage, start: self.start, end: self.start, offset: 0 },
        }
    }

    /// The *deleted* components of an update packed storage.
    pub fn try_deleted(&self) -> (r: Result<&'a Vec<(EntityId, T)>, NotUpdatePack>)
        ensures
            match self.storage.pack {
                Pack::Update(p) => r matches Ok(d) && d@ == p.deleted@,
                Pack::NoPack => r is Err,
            },
    {
        match &self.storage.pack {
            Pack::Update(p) => Ok(&p.deleted),
            Pack::NoPack => Err(NotUpdatePack),
        }
    }

    /// The *deleted* components of an update packed storage.
    pub fn deleted(&self) -> (d: &'a Vec<(EntityId, T)>)
        requires
            self.storage.pack is Update,
        ensures
            d@ == self.storage.pack->Update_0.deleted@,
    {
        match &self.storage.pack {
            Pack::Update(p) => &p.deleted,
            Pack::NoPack => vstd::pervasive::unreached(),
        }
    }

    /// The entities of the *removed* components of an update packed storage.
    pub fn try_removed(&self) -> (r: Result<&'a Vec<EntityId>, NotUpdatePack>)
        ensures
            match self.storage.pack {
                Pack::Update(p) => r matches Ok(d) && d@ == p.removed@,
                Pack::NoPack => r is Err,
            },
    {
        match &self.storage.pack {
            Pack::Update(p) => Ok(&p.removed),
            Pack::NoPack => Err(NotUpdatePack),
        }
    }

    /// The entities of the *removed* components of an update packed storage.
    pub fn removed(&self) -> (d: &'a Vec<EntityId>)
        requires
            self.storage.pack is Update,
        ensures
            d@ == self.storage.pack->Update_0.removed@,
    {
        match &self.storage.pack {
            Pack::Update(p) => &p.removed,
            Pack::NoPack => vstd::pervasive::unreached(),
        }
    }

    /// A window over the positions `start..end` of this one.
    pub fn try_as_window(&self, start: usize, end: usize) -> (r: Result<Window<'a, T>, NotInbound>)
        requires
            self.wf(),
            end <= self.len_spec() ==> start <= end,
            end <= self.len_spec() ==> start + self.offset <= usize::MAX,
        ensures
            end <= self.len_spec() ==> (r matches Ok(w) && w.wf() && w.storage == self.storage
                && w.start == self.start + start && w.end == self.start + end && w.offset == start + self.offset),
            end > self.len_spec() ==> r == Err::<Window<'a, T>, NotInbound>(NotInbound::Window),
    {
        if end <= self.end - self.start {
            Ok(Window { storage: self.storage, start: self.start + start, end: self.start + end, offset: start + self.offset })
        } else {
            Err(NotInbound::Window)
        }
    }

    /// A window over the positions `start..end` of this one.
    pub fn as_window(&self, start: usize, end: usize) -> (w: Window<'a, T>)
        requires
            self.wf(),
            start <= end <= self.len_spec(),
            start + self.offset <= usize::MAX,
        ensures
            w.wf(),
            w.storage == self.storage,
            w.start == self.start + start,
            w.end == self.start + end,
            w.offset == start + self.offset,
    {
        Window { storage: self.storage, start: self.start + start, end: self.start + end, offset: start + self.offset }
    }
}


/// Both storages agree but for the packing.
pub open spec fn same_but_pack<T>(a: PackedStorage<T>, b: PackedStorage<T>) -> bool {
    &&& a.sparse == b.sparse
    &&& a.dense == b.dense
    &&& a.data == b.data
}

impl<'a, T> WindowMut<'a, T> {
    /// The window lies inside its storage.
    pub open spec fn wf(&self) -> bool {
        &&& self.store().wf()
        &&& self.start <= self.end <= self.store().dense@.len()
    }

    pub open spec fn len_spec(&self) -> int {
        self.end - self.start
    }

    /// The storage seen through this window.
    pub open spec fn store(&self) -> PackedStorage<T> {
        *self.storage
    }

    /// Returns the length of the window.
    pub fn len(&self) -> (n: usize)
        requires
            self.wf(),
        ensures
            n == self.len_spec(),
    {
        self.end - self.start
    }

    /// Returns `true` if the window's length is 0.
    pub fn is_empty(&self) -> (b: bool)
        requires
            self.wf(),
        ensures
            b == (self.len_spec() == 0),
    {
        self.end == self.start
    }

    /// Position of `entity`'s component in this window, if the window holds it.
    pub fn index_of(&self, entity: EntityId) -> (r: Option<usize>)
        requires
            self.wf(),
        ensures
            r == owned_index(self.store().dense@, self.start as int, self.len_spec(), self.offset as int, self.store().sparse_index(entity), entity),
            r matches Some(i) ==> i < self.len_spec() && self.store().dense@[self.start + i] == entity,
    {
        find_owned(self.storage, self.start, self.end, self.offset, entity)
    }

    /// Returns `true` if the window holds `entity`'s component.
    pub fn contains(&self, entity: EntityId) -> (b: bool)
        requires
            self.wf(),
        ensures
            b == owned_index(self.store().dense@, self.start as int, self.len_spec(), self.offset as int, self.store().sparse_index(entity), entity) is Some,
            b ==> self.store().dense@.subrange(self.start as int, self.end as int).contains(entity),
    {
        let r = self.index_of(entity);
        proof {
            if let Some(i) = r {
                assert(self.store().dense@.subrange(self.start as int, self.end as int)[i as int] == entity);
            }
        }
        r.is_some()
    }

    /// The entity at `index` of the window.
    pub fn try_id_at(&self, index: usize) -> (r: Option<EntityId>)
        requires
            self.wf(),
        ensures
            r == (if index < self.len_spec() { Some(self.store().dense@[self.start + index]) } else { None::<EntityId> }),
    {
        if index < self.end - self.start {
            Some(self.storage.dense[self.start + index])
        } else {
            None
        }
    }

    /// The entity at `index` of the window.
    pub fn id_at(&self, index: usize) -> (e: EntityId)
        requires
            self.wf(),
            index < self.len_spec(),
        ensures
            e == self.store().dense@[self.start + index],
    {
        self.storage.dense[self.start + index]
    }

    /// The components of the window.
    pub fn as_slice(&self) -> (s: &[T])
        requires
            self.wf(),
        ensures
            s@ == self.store().data@.subrange(self.start as int, self.end as int),
    {
        subslice(&self.storage.data, self.start, self.end)
    }

    /// A shared view of this window.
    fn as_shared(&self) -> (w: Window<'_, T>)
        requires
            self.wf(),
        ensures
            w.wf(),
            w.store() == self.store(),
            w.start == self.start,
            w.end == self.end,
            w.offset == self.offset,
    {
        Window { storage: &*self.storage, start: self.start, end: self.end, offset: self.offset }
    }

    /// The *inserted* section of an update packed window.
    pub fn try_inserted(&self) -> (r: Result<Window<'_, T>, UpdateWindow>)
        requires
            self.wf(),
        ensures
            match self.store().pack {
                Pack::Update(p) => if self.offset == 0 && self.len_spec() >= p.inserted {
                    r matches Ok(w) && w.wf() && w.store() == self.store() && w.start == self.start
                        && w.end == self.start + p.inserted && w.offset == 0
                } else {
                    r == Err::<Window<'_, T>, UpdateWindow>(UpdateWindow::OutOfBounds)
                },
                Pack::NoPack => r == Err::<Window<'_, T>, UpdateWindow>(UpdateWindow::NotUpdatePacked),
            },
    {
        let w = self.as_shared();
        w.try_inserted()
    }

    /// The *inserted* section of an update packed window.
    pub fn inserted(&self) -> (w: Window<'_, T>)
        requires
            self.wf(),
            self.store().pack matches Pack::Update(p) && self.offset == 0 && self.len_spec() >= p.inserted,
        ensures
            w.wf(),
            w.store() == self.store(),
            w.start == self.start,
            w.end == self.start + self.store().pack->Update_0.inserted,
    {
        let w = self.as_shared();
        w.inserted()
    }

    /// The *modified* section of an update packed window.
    pub fn try_modified(&self) -> (r: Result<Window<'_, T>, UpdateWindow>)
        requires
            self.wf(),
            self.store().pack is Update && self.offset <= self.store().pack->Update_0.inserted
                && self.len_spec() >= self.store().pack->Update_0.modified
                ==> self.store().pack->Update_0.inserted + self.store().pack->Update_0.modified - self.offset <= self.len_spec(),
        ensures
            match self.store().pack {
                Pack::Update(p) => if self.offset <= p.inserted && self.len_spec() >= p.modified {
                    r matches Ok(w) && w.wf() && w.store() == self.store()
                        && w.start == self.start + p.inserted - self.offset
                        && w.end == self.start + p.inserted + p.modified - self.offset
                } else {
                    r == Err::<Window<'_, T>, UpdateWindow>(UpdateWindow::OutOfBounds)
                },
                Pack::NoPack => r == Err::<Window<'_, T>, UpdateWindow>(UpdateWindow::NotUpdatePacked),
            },
    {
        let w = self.as_shared();
        w.try_modified()
    }

    /// The *modified* section of an update packed window.
    pub fn modified(&self) -> (w: Window<'_, T>)
        requires
            self.wf(),
            self.store().pack matches Pack::Update(p) && self.offset <= p.inserted && self.len_spec() >= p.modified
                && p.inserted + p.modified - self.offset <= self.len_spec(),
        ensures
            w.wf(),
            w.store() == self.store(),
            w.start == self.start + self.store().pack->Update_0.inserted - self.offset,
            w.end == self.start + self.store().pack->Update_0.inserted + self.store().pack->Update_0.modified - self.offset,
    {
        let w = self.as_shared();
        w.modified()
    }

    /// The *inserted* and *modified* sections of an update packed window.
    pub fn try_inserted_or_modified(&self) -> (r: Result<Window<'_, T>, UpdateWindow>)
        requires
            self.wf(),
        ensures
            match self.store().pack {
                Pack::Update(p) => if self.offset == 0 && self.len_spec() >= p.inserted + p.modified {
                    r matches Ok(w) && w.wf() && w.store() == self.store() && w.start == self.start
                        && w.end == self.start + p.inserted + p.modified && w.offset == 0
                } else {
                    r == Err::<Window<'_, T>, UpdateWindow>(UpdateWindow::OutOfBounds)
                },
                Pack::NoPack => r == Err::<Window<'_, T>, UpdateWindow>(UpdateWindow::NotUpdatePacked),
            },
    {
        let w = self.as_shared();
        w.try_inserted_or_modified()
    }

    /// The *inserted* and *modified* sections of an update packed window.
    pub fn inserted_or_modified(&self) -> (w: Window<'_, T>)
        requires
            self.wf(),
            self.store().pack matches Pack::Update(p) && self.offset == 0 && self.len_spec() >= p.inserted + p.modified,
        ensures
            w.wf(),
            w.store() == self.store(),
            w.start == self.start,
            w.end == self.start + self.store().pack->Update_0.inserted + self.store().pack->Update_0.modified,
    {
        let w = self.as_shared();
        w.inserted_or_modified()
    }

    /// The *inserted* section of an update packed window, mutably.
    pub fn try_inserted_mut(&mut self) -> (r: Result<WindowMut<'_, T>, UpdateWindow>)
        requires
            old(self).wf(),
        ensures
            final(self).start == old(self).start && final(self).end == old(self).end && final(self).offset == old(self).offset,
            match old(self).store().pack {
                Pack::Update(p) => if old(self).offset == 0 && old(self).len_spec() >= p.inserted {
                    r matches Ok(w) && w.wf() && w.store() == old(self).store() && w.start == old(self).start
                        && w.end == old(self).start + p.inserted && w.offset == 0
                } else {
                    r == Err::<WindowMut<'_, T>, UpdateWindow>(UpdateWindow::OutOfBounds)
                },
                Pack::NoPack => r == Err::<WindowMut<'_, T>, UpdateWindow>(UpdateWindow::NotUpdatePacked),
            },
    {
        let (ok, inserted) = match &self.storage.pack {
            Pack::Update(p) => (self.offset == 0 && self.end - self.start >= p.inserted, p.inserted),
            Pack::NoPack => {
                return Err(UpdateWindow::NotUpdatePacked);
            },
        };
        if ok {
            let start = self.start;
            Ok(WindowMut { storage: &mut *self.storage, start, end: start + inserted, offset: 0 })
        } else {
            Err(UpdateWindow::OutOfBounds)
        }
    }

    /// The *inserted* section of an update packed window, mutably.
    pub fn inserted_mut(&mut self) -> (w: WindowMut<'_, T>)
        requires
            old(self).wf(),
            old(self).store().pack matches Pack::Update(p) && old(self).offset == 0 && old(self).len_spec() >= p.inserted,
        ensures
            w.wf(),
            w.store() == old(self).store(),
            w.start == old(self).start,
            w.end == old(self).start + old(self).store().pack->Update_0.inserted,
    {
        let inserted = match &self.storage.pack {
            Pack::Update(p) => p.inserted,
            Pack::NoPack => 0,
        };
        let start = self.start;
        WindowMut { storage: &mut *self.storage, start, end: start + inserted, offset: 0 }
    }

    /// The *modified* section of an update packed window, mutably.
    pub fn try_modified_mut(&mut self) -> (r: Result<WindowMut<'_, T>, UpdateWindow>)
        requires
            old(self).wf(),
            old(self).store().pack is Update && old(self).offset <= old(self).store().pack->Update_0.inserted
                && old(self).len_spec() >= old(self).store().pack->Update_0.modified
                ==> old(self).store().pack->Update_0.inserted + old(self).store().pack->Update_0.modified - old(self).offset <= old(self).len_spec(),
        ensures
            match old(self).store().pack {
                Pack::Update(p) => if old(self).offset <= p.inserted && old(self).len_spec() >= p.modified {
                    r matches Ok(w) && w.wf() && w.store() == old(self).store()
                        && w.start == old(self).start + p.inserted - old(self).offset
                        && w.end == old(self).start + p.inserted + p.modified - old(self).offset
                        && w.offset == p.inserted - old(self).offset
                } else {
                    r == Err::<WindowMut<'_, T>, UpdateWindow>(UpdateWindow::OutOfBounds)
                },
                Pack::NoPack => r == Err::<WindowMut<'_, T>, UpdateWindow>(UpdateWindow::NotUpdatePacked),
            },
    {
        let (ok, inserted, modified) = match &self.storage.pack {
            Pack::Update(p) => (self.offset <= p.inserted && self.end - self.start >= p.modified, p.inserted, p.modified),
            Pack::NoPack => {
                return Err(UpdateWindow::NotUpdatePacked);
            },
        };
        if ok {
            let a = inserted - self.offset;
            let start = self.start;
            Ok(WindowMut { storage: &mut *self.storage, start: start + a, end: start + a + modified, offset: a })
        } else {
            Err(UpdateWindow::OutOfBounds)
        }
    }

    /// The *modified* section of an update packed window, mutably.
    pub fn modified_mut(&mut self) -> (w: WindowMut<'_, T>)
        requires
            old(self).wf(),
            old(self).store().pack matches Pack::Update(p) && old(self).offset <= p.inserted && old(self).len_spec() >= p.modified
                && p.inserted + p.modified - old(self).offset <= old(self).len_spec(),
        ensures
            w.wf(),
            w.store() == old(self).store(),
            w.start == old(self).start + old(self).store().pack->Update_0.inserted - old(self).offset,
            w.end == old(self).start + old(self).store().pack->Update_0.inserted + old(self).store().pack->Update_0.modified - old(self).offset,
    {
        let (inserted, modified) = match &self.storage.pack {
            Pack::Update(p) => (p.inserted, p.modified),
            Pack::NoPack => (0, 0),
        };
        let a = inserted - self.offset;
        let start = self.start;
        WindowMut { storage: &mut *self.storage, start: start + a, end: start + a + modified, offset: a }
    }

    /// The *inserted* and *modified* sections of an update packed window, mutably.
    pub fn try_inserted_or_modified_mut(&mut self) -> (r: Result<WindowMut<'_, T>, UpdateWindow>)
        requires
            old(self).wf(),
        ensures
            match old(self).store().pack {
                Pack::Update(p) => if old(self).offset == 0 && old(self).len_spec() >= p.inserted + p.modified {
                    r matches Ok(w) && w.wf() && w.store() == old(self).store() && w.start == old(self).start
                        && w.end == old(self).start + p.inserted + p.modified && w.offset == 0
                } else {
                    r == Err::<WindowMut<'_, T>, UpdateWindow>(UpdateWindow::OutOfBounds)
                },
                Pack::NoPack => r == Err::<WindowMut<'_, T>, UpdateWindow>(UpdateWindow::NotUpdatePacked),
            },
    {
        let (ok, n) = match &self.storage.pack {
            Pack::Update(p) => {
                let ok = self.offset == 0 && p.inserted <= self.end - self.start && p.modified <= self.end - self.start - p.inserted;
                (ok, if ok { p.inserted + p.modified } else { 0 })
            },
            Pack::NoPack => {
                return Err(UpdateWindow::NotUpdatePacked);
            },
        };
        if ok {
            let start = self.start;
            Ok(WindowMut { storage: &mut *self.storage, start, end: start + n, offset: 0 })
        } else {
            Err(UpdateWindow::OutOfBounds)
        }
    }

    /// The *inserted* and *modified* sections of an update packed window, mutably.
    pub fn inserted_or_modified_mut(&mut self) -> (w: WindowMut<'_, T>)
        requires
            old(self).wf(),
            old(self).store().pack matches Pack::Update(p) && old(self).offset == 0 && old(self).len_spec() >= p.inserted + p.modified,
        ensures
            w.wf(),
            w.store() == old(self).store(),
            w.start == old(self).start,
            w.end == old(self).start + old(self).store().pack->Update_0.inserted + old(self).store().pack->Update_0.modified,
    {
        let n = match &self.storage.pack {
            Pack::Update(p) => p.inserted + p.modified,
            Pack::NoPack => 0,
        };
        let start = self.start;
        WindowMut { storage: &mut *self.storage, start, end: start + n, offset: 0 }
    }

    /// The *deleted* components of an update packed storage.
    pub fn try_deleted(&self) -> (r: Result<&Vec<(EntityId, T)>, NotUpdatePack>)
        ensures
            match self.store().pack {
                Pack::Update(p) => r matches Ok(d) && d@ == p.deleted@,
                Pack::NoPack => r is Err,
            },
    {
        match &self.storage.pack {
            Pack::Update(p) => Ok(&p.deleted),
            Pack::NoPack => Err(NotUpdatePack),
        }
    }

    /// The *deleted* components of an update packed storage.
    pub fn deleted(&self) -> (d: &Vec<(EntityId, T)>)
        requires
            self.store().pack is Update,
        ensures
            d@ == self.store().pack->Update_0.deleted@,
    {
        match &self.storage.pack {
            Pack::Update(p) => &p.deleted,
            Pack::NoPack => vstd::pervasive::unreached(),
        }
    }

    /// The entities of the *removed* components of an update packed storage.
    pub fn try_removed(&self) -> (r: Result<&Vec<EntityId>, NotUpdatePack>)
        ensures
            match self.store().pack {
                Pack::Update(p) => r matches Ok(d) && d@ == p.removed@,
                Pack::NoPack => r is Err,
            },
    {
        match &self.storage.pack {
            Pack::Update(p) => Ok(&p.removed),
            Pack::NoPack => Err(NotUpdatePack),
        }
    }

    /// The entities of the *removed* components of an update packed storage.
    pub fn removed(&self) -> (d: &Vec<EntityId>)
        requires
            self.store().pack is Update,
        ensures
            d@ == self.store().pack->Update_0.removed@,
    {
        match &self.storage.pack {
            Pack::Update(p) => &p.removed,
            Pack::NoPack => vstd::pervasive::unreached(),
        }
    }

    /// Takes the *deleted* components of an update packed storage, leaving none.
    pub fn try_take_deleted(&mut self) -> (r: Result<Vec<(EntityId, T)>, NotUpdatePack>)
        ensures
            final(self).start == old(self).start && final(self).end == old(self).end && final(self).offset == old(self).offset,
            *final(final(self).storage) == *final(old(self).storage),
            same_but_pack(final(self).store(), old(self).store()),
            match old(self).store().pack {
                Pack::Update(p) => {
                    &&& r matches Ok(d) && d@ == p.deleted@
                    &&& final(self).store().pack matches Pack::Update(q) && q.deleted@.len() == 0 && q.removed == p.removed
                        && q.inserted == p.inserted && q.modified == p.modified
                },
                Pack::NoPack => r is Err && final(self).store().pack is NoPack,
            },
    {
        match &mut self.storage.pack {
            Pack::Update(p) => {
                let mut d: Vec<(EntityId, T)> = Vec::new();
                std::mem::swap(&mut d, &mut p.deleted);
                Ok(d)
            },
            Pack::NoPack => Err(NotUpdatePack),
        }
    }

    /// Takes the *deleted* components of an update packed storage, leaving none.
    pub fn take_deleted(&mut self) -> (d: Vec<(EntityId, T)>)
        requires
            old(self).store().pack is Update,
        ensures
            d@ == old(self).store().pack->Update_0.deleted@,
            *final(final(self).storage) == *final(old(self).storage),
            same_but_pack(final(self).store(), old(self).store()),
            final(self).store().pack is Update && final(self).store().pack->Update_0.deleted@.len() == 0,
    {
        match self.try_take_deleted() {
            Ok(d) => d,
            Err(_) => Vec::new(),
        }
    }

    /// Takes the entities of the *removed* components of an update packed storage, leaving none.
    pub fn try_take_removed(&mut self) -> (r: Result<Vec<EntityId>, NotUpdatePack>)
        ensures
            final(self).start == old(self).start && final(self).end == old(self).end && final(self).offset == old(self).offset,
            *final(final(self).storage) == *final(old(self).storage),
            same_but_pack(final(self).store(), old(self).store()),
            match old(self).store().pack {
                Pack::Update(p) => {
                    &&& r matches Ok(d) && d@ == p.removed@
                    &&& final(self).store().pack matches Pack::Update(q) && q.removed@.len() == 0 && q.deleted == p.deleted
                        && q.inserted == p.inserted && q.modified == p.modified
                },
                Pack::NoPack => r is Err && final(self).store().pack is NoPack,
            },
    {
        match &mut self.storage.pack {
            Pack::Update(p) => {
                let mut d: Vec<EntityId> = Vec::new();
                std::mem::swap(&mut d, &mut p.removed);
                Ok(d)
            },
            Pack::NoPack => Err(NotUpdatePack),
        }
    }

    /// Takes the entities of the *removed* components of an update packed storage, leaving none.
    pub fn take_removed(&mut self) -> (d: Vec<EntityId>)
        requires
            old(self).store().pack is Update,
        ensures
            d@ == old(self).store().pack->Update_0.removed@,
            *final(final(self).storage) == *final(old(self).storage),
            same_but_pack(final(self).store(), old(self).store()),
            final(self).store().pack is Update && final(self).store().pack->Update_0.removed@.len() == 0,
    {
        match self.try_take_removed() {
            Ok(d) => d,
            Err(_) => Vec::new(),
        }
    }

    /// Moves the components of the *modified* section to the *neutral* section.
    pub fn try_clear_modified(&mut self) -> (r: Result<(), NotUpdatePack>)
        ensures
            *final(final(self).storage) == *final(old(self).storage),
            same_but_pack(final(self).store(), old(self).store()),
            match old(self).store().pack {
                Pack::Update(p) => {
                    &&& r is Ok
                    &&& final(self).store().pack matches Pack::Update(q) && q.modified == 0 && q.inserted == p.inserted
                        && q.deleted == p.deleted && q.removed == p.removed
                },
                Pack::NoPack => r is Err && final(self).store().pack is NoPack,
            },
    {
        match &mut self.storage.pack {
            Pack::Update(p) => {
                p.modified = 0;
                Ok(())
            },
            Pack::NoPack => Err(NotUpdatePack),
        }
    }

    /// Moves the components of the *modified* section to the *neutral* section.
    pub fn clear_modified(&mut self)
        requires
            old(self).store().pack is Update,
        ensures
            *final(final(self).storage) == *final(old(self).storage),
            same_but_pack(final(self).store(), old(self).store()),
            final(self).store().pack is Update && final(self).store().pack->Update_0.modified == 0,
            final(self).store().pack->Update_0.inserted == old(self).store().pack->Update_0.inserted,
    {
        let _ = self.try_clear_modified();
    }

    /// Moves the components of the *inserted* and *modified* sections to the *neutral* section.
    pub fn try_clear_inserted_and_modified(&mut self) -> (r: Result<(), NotUpdatePack>)
        ensures
            *final(final(self).storage) == *final(old(self).storage),
            same_but_pack(final(self).store(), old(self).store()),
            match old(self).store().pack {
                Pack::Update(p) => {
                    &&& r is Ok
                    &&& final(self).store().pack matches Pack::Update(q) && q.modified == 0 && q.inserted == 0
                        && q.deleted == p.deleted && q.removed == p.removed
                },
                Pack::NoPack => r is Err && final(self).store().pack is NoPack,
            },
    {
        match &mut self.storage.pack {
            Pack::Update(p) => {
                p.inserted = 0;
                p.modified = 0;
                Ok(())
            },
            Pack::NoPack => Err(NotUpdatePack),
        }
    }

    /// Moves the components of the *inserted* and *modified* sections to the *neutral* section.
    pub fn clear_inserted_and_modified(&mut self)
        requires
            old(self).store().pack is Update,
        ensures
            *final(final(self).storage) == *final(old(self).storage),
            same_but_pack(final(self).store(), old(self).store()),
            final(self).store().pack is Update,
            final(self).store().pack->Update_0.modified == 0,
            final(self).store().pack->Update_0.inserted == 0,
    {
        let _ = self.try_clear_inserted_and_modified();
    }

    /// A window over the positions `start..end` of this one.
    pub fn try_as_window(&self, start: usize, end: usize) -> (r: Result<Window<'_, T>, NotInbound>)
        requires
            self.wf(),
            end <= self.len_spec() ==> start <= end,
            end <= self.len_spec() ==> start + self.offset <= usize::MAX,
        ensures
            end <= self.len_spec() ==> (r matches Ok(w) && w.wf() && w.store() == self.store()
                && w.start == self.start + start && w.end == self.start + end && w.offset == start + self.offset),
            end > self.len_spec() ==> r == Err::<Window<'_, T>, NotInbound>(NotInbound::Window),
    {
        let w = self.as_shared();
        w.try_as_window(start, end)
    }

    /// A window over the positions `start..end` of this one.
    pub fn as_window(&self, start: usize, end: usize) -> (w: Window<'_, T>)
        requires
            self.wf(),
            start <= end <= self.len_spec(),
            start + self.offset <= usize::MAX,
        ensures
            w.wf(),
            w.store() == self.store(),
            w.start == self.start + start,
            w.end == self.start + end,
            w.offset == start + self.offset,
    {
        let w = self.as_shared();
        w.as_window(start, end)
    }

    /// A mutable window over the positions `start..end` of this one.
    pub fn try_as_window_mut(&mut self, start: usize, end: usize) -> (r: Result<WindowMut<'_, T>, NotInbound>)
        requires
            old(self).wf(),
            end <= old(self).len_spec() ==> start <= end,
            end <= old(self).len_spec() ==> start + old(self).offset <= usize::MAX,
        ensures
            end <= old(self).len_spec() ==> (r matches Ok(w) && w.wf() && w.store() == old(self).store()
                && w.start == old(self).start + start && w.end == old(self).start + end && w.offset == start + old(self).offset),
            end > old(self).len_spec() ==> r == Err::<WindowMut<'_, T>, NotInbound>(NotInbound::Window),
    {
        if end <= self.end - self.start {
            let s = self.start;
            let o = self.offset;
            Ok(WindowMut { storage: &mut *self.storage, start: s + start, end: s + end, offset: start + o })
        } else {
            Err(NotInbound::Window)
        }
    }

    /// A mutable window over the positions `start..end` of this one.
    pub fn as_window_mut(&mut self, start: usize, end: usize) -> (w: WindowMut<'_, T>)
        requires
            old(self).wf(),
            start <= end <= old(self).len_spec(),
            start + old(self).offset <= usize::MAX,
        ensures
            w.wf(),
            w.store() == old(self).store(),
            w.start == old(self).start + start,
            w.end == old(self).start + end,
            w.offset == start + old(self).offset,
    {
        let s = self.start;
        let o = self.offset;
        WindowMut { storage: &mut *self.storage, start: s + start, end: s + end, offset: start + o }
    }
}
} // verus!
