use vstd::prelude::*;

verus! {

/// Generation reserved for dead entities.
pub const DEAD_GEN: u16 = 0xffff;

/// Number of entities covered by one page of the sparse array.
pub const BUCKET_SIZE: usize = 32;

/// Handle to an entity: an index and a generation.
///
/// The generation lets a recycled index be told apart from the entity that
/// used it before.
#[derive(Clone, Copy, Debug, PartialEq, Eq, Structural, Hash)]
pub struct EntityId {
    pub index: u32,
    pub gen: u16,
}

impl EntityId {
    /// Entity of index `index` and generation 0.
    pub fn new(index: u32) -> (id: EntityId)
        ensures
            id.index == index,
            id.gen == 0,
    {
        EntityId { index, gen: 0 }
    }

    /// Entity of index `index` and generation `gen`.
    pub fn new_from_parts(index: u32, gen: u16) -> (id: EntityId)
        ensures
            id.index == index,
            id.gen == gen,
    {
        EntityId { index, gen }
    }

    /// Entity of index `index` and generation `gen`.
    pub fn new_from_index_and_gen(index: u32, gen: u16) -> (id: EntityId)
        ensures
            id.index == index,
            id.gen == gen,
    {
        EntityId { index, gen }
    }

    /// The entity of index 0 and generation 0.
    pub fn zero() -> (id: EntityId)
        ensures
            id.index == 0,
            id.gen == 0,
    {
        EntityId { index: 0, gen: 0 }
    }

    /// The dead entity: it never owns a component.
    pub fn dead() -> (id: EntityId)
        ensures
            id.index == u32::MAX,
            id.gen == DEAD_GEN,
            id.is_dead_spec(),
    {
        EntityId { index: u32::MAX, gen: DEAD_GEN }
    }

    pub open spec fn is_dead_spec(self) -> bool {
        self.gen == DEAD_GEN
    }

    /// Returns `true` if this is a dead entity.
    pub fn is_dead(&self) -> (b: bool)
        ensures
            b == self.is_dead_spec(),
    {
        self.gen == DEAD_GEN
    }

    /// The index part of the entity.
    pub fn index(&self) -> (i: u32)
        ensures
            i == self.index,
    {
        self.index
    }

    /// The index part of the entity, as a `usize`.
    pub fn uindex(&self) -> (i: usize)
        ensures
            i == self.index,
    {
        self.index as usize
    }

    /// The generation part of the entity.
    pub fn gen(&self) -> (g: u16)
        ensures
            g == self.gen,
    {
        self.gen
    }

    pub open spec fn bucket_spec(self) -> int {
        (self.index as int) / (BUCKET_SIZE as int)
    }

    pub open spec fn bucket_index_spec(self) -> int {
        (self.index as int) % (BUCKET_SIZE as int)
    }

    /// Page of the sparse array that holds this entity.
    pub fn bucket(&self) -> (b: usize)
        ensures
            b == self.bucket_spec(),
    {
        (self.index as usize) / BUCKET_SIZE
    }

    /// Slot of this entity within its page.
    pub fn bucket_index(&self) -> (b: usize)
        ensures
            b == self.bucket_index_spec(),
            b < BUCKET_SIZE,
    {
        (self.index as usize) % BUCKET_SIZE
    }

    /// Replaces the index, keeps the generation.
    pub fn set_index(&mut self, index: u32)
        ensures
            final(self).index == index,
            final(self).gen == old(self).gen,
    {
        self.index = index;
    }

    /// Copies `other`'s generation.
    pub fn copy_gen(&mut self, other: EntityId)
        ensures
            final(self).index == old(self).index,
            final(self).gen == other.gen,
    {
        self.gen = other.gen;
    }

    /// Copies `other`'s index.
    pub fn copy_index(&mut self, other: EntityId)
        ensures
            final(self).index == other.index,
            final(self).gen == old(self).gen,
    {
        self.index = other.index;
    }

    /// Copies `other`'s index and generation.
    pub fn copy_index_gen(&mut self, other: EntityId)
        ensures
            *final(self) == other,
    {
        self.index = other.index;
        self.gen = other.gen;
    }
}

} // verus!
