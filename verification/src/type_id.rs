use vstd::prelude::*;

verus! {

/// Identifier of a type, such as the type of a storage.
///
/// The value `0` is reserved for the storage holding all other storages.
#[derive(Clone, Copy, Debug, PartialEq, Eq, Structural, Hash, PartialOrd, Ord)]
pub struct TypeId(pub u64);

/// Raw value reserved for the storage of all storages.
pub const ALL_STORAGES_ID: u64 = 0;

impl TypeId {
    /// Identifier of the storage holding all other storages.
    pub fn all_storages() -> (t: TypeId)
        ensures
            t.0 == ALL_STORAGES_ID,
    {
        TypeId(ALL_STORAGES_ID)
    }

    /// Returns `true` if this identifies the storage of all storages.
    pub fn is_all_storages(&self) -> (b: bool)
        ensures
            b == (self.0 == ALL_STORAGES_ID),
    {
        self.0 == ALL_STORAGES_ID
    }
}

} // verus!
