//! How worlds and storages are serialized, and the decisions taken while reading a
//! serialized structure of two fields back.
use crate::entity_id::EntityId;
use crate::sparse_set::deser::well_listed;
use crate::sparse_set::set::SparseSet;
use vstd::prelude::*;
use vstd::string::StringSliceAdditionalSpecFns;

verus! {

/// What to do with an entity that already exists when deserializing:
/// - `AsNew` gives its components a new entity,
/// - `Merge` only adds the components it does not have,
/// - `Replace` deletes its components and adds the deserialized ones,
/// - `Skip` leaves it as it is.
#[derive(Clone, Copy, Debug, PartialEq, Eq, Structural)]
pub enum ExistingEntities {
    AsNew,
    Merge,
    Replace,
    Skip,
}

/// Which shared components are (de)serialized: for all storages, for none, or as each
/// storage's configuration says.
#[derive(Clone, Copy, Debug, PartialEq, Eq, Structural)]
pub enum WithShared {
    All,
    Nothing,
    PerStorage,
}

/// How a world is serialized.
#[derive(Clone, Copy, Debug, PartialEq, Eq, Structural)]
pub struct GlobalSerConfig {
    pub same_binary: bool,
    pub with_entities: bool,
    pub with_shared: WithShared,
}

impl Default for GlobalSerConfig {
    /// Same binary, with entities, shared components as each storage says.
    fn default() -> (c: GlobalSerConfig)
        ensures
            c.same_binary && c.with_entities && c.with_shared == WithShared::PerStorage,
    {
        GlobalSerConfig { same_binary: true, with_entities: true, with_shared: WithShared::PerStorage }
    }
}

/// How a world is deserialized.
#[derive(Clone, Copy, Debug, PartialEq, Eq, Structural)]
pub struct GlobalDeConfig {
    pub existing_entities: ExistingEntities,
    pub with_shared: WithShared,
}

impl Default for GlobalDeConfig {
    /// Existing entities get new ones; shared components as each storage says.
    fn default() -> (c: GlobalDeConfig)
        ensures
            c.existing_entities == ExistingEntities::AsNew && c.with_shared == WithShared::PerStorage,
    {
        GlobalDeConfig { existing_entities: ExistingEntities::AsNew, with_shared: WithShared::PerStorage }
    }
}

/// Name a storage is serialized under.
#[derive(Debug)]
pub struct Identifier(pub String);

impl Identifier {
    /// The identifier `identifier`.
    pub fn new(identifier: String) -> (i: Identifier)
        ensures
            i.0 == identifier,
    {
        Identifier(identifier)
    }
}

/// How a storage is serialized.
#[derive(Debug)]
pub struct SerConfig {
    pub identifier: Option<Identifier>,
    pub with_shared: bool,
}

impl Default for SerConfig {
    /// No identifier, no shared components.
    fn default() -> (c: SerConfig)
        ensures
            c.identifier is None && !c.with_shared,
    {
        SerConfig { identifier: None, with_shared: false }
    }
}

/// What a serialized world says of itself.
#[derive(Clone, Copy, Debug, PartialEq, Eq, Structural)]
pub struct SerInfos {
    pub same_binary: bool,
    pub with_entities: bool,
}

/// One of the two fields of a serialized structure.
#[derive(Clone, Copy, Debug, PartialEq, Eq, Structural)]
pub enum Field {
    First,
    Second,
}

/// Why a serialized structure could not be read back.
#[derive(Debug, PartialEq)]
pub enum DeError {
    /// A field index other than 0 and 1.
    InvalidIndex(u64),
    /// A field name that is neither of the two.
    UnknownField(String),
    /// Field bytes that are neither of the two names.
    InvalidBytes(Vec<u8>),
    /// A field given twice.
    DuplicateField(String),
    /// A field never given.
    MissingField(String),
    /// A sequence that ends before the element at this index.
    InvalidLength(usize),
    /// Entities and components that do not make a storage.
    InconsistentParts,
}

/// The field at `value`: 0 for the first, 1 for the second.
pub fn field_from_index(value: u64) -> (r: Result<Field, DeError>)
    ensures
        value == 0 ==> r == Ok::<Field, DeError>(Field::First),
        value == 1 ==> r == Ok::<Field, DeError>(Field::Second),
        value > 1 ==> r == Err::<Field, DeError>(DeError::InvalidIndex(value)),
{
    if value == 0 {
        Ok(Field::First)
    } else if value == 1 {
        Ok(Field::Second)
    } else {
        Err(DeError::InvalidIndex(value))
    }
}

/// The field named `value`, of the fields `first` and `second`.
pub fn field_from_str(value: &str, first: &str, second: &str) -> (r: Result<Field, DeError>)
    ensures
        value@ == first@ ==> r == Ok::<Field, DeError>(Field::First),
        value@ != first@ && value@ == second@ ==> r == Ok::<Field, DeError>(Field::Second),
        value@ != first@ && value@ != second@ ==> (r matches Err(DeError::UnknownField(s)) && s@ == value@),
{
    let v = value.to_owned();
    if v == first.to_owned() {
        Ok(Field::First)
    } else if v == second.to_owned() {
        Ok(Field::Second)
    } else {
        Err(DeError::UnknownField(v))
    }
}

/// Returns `true` if `a` and `b` hold the same bytes.
fn same_bytes(a: &[u8], b: &[u8]) -> (r: bool)
    ensures
        r == (a@ == b@),
{
    if a.len() != b.len() {
        return false;
    }
    let mut i: usize = 0;
    while i < a.len()
        invariant
            i <= a@.len(),
            a@.len() == b@.len(),
            forall|k: int| 0 <= k < i ==> a@[k] == b@[k],
        decreases a@.len() - i,
    {
        if a[i] != b[i] {
            return false;
        }
        i += 1;
    }
    assert(a@ =~= b@);
    true
}

/// The field whose name has the bytes `value`, of the fields `first` and `second`.
pub fn field_from_bytes(value: &[u8], first: &str, second: &str) -> (r: Result<Field, DeError>)
    ensures
        value@ == first.spec_bytes() ==> r == Ok::<Field, DeError>(Field::First),
        value@ != first.spec_bytes() && value@ == second.spec_bytes() ==> r == Ok::<Field, DeError>(Field::Second),
        value@ != first.spec_bytes() && value@ != second.spec_bytes() ==> (r matches Err(DeError::InvalidBytes(b)) && b@ == value@),
{
    if same_bytes(value, first.as_bytes()) {
        Ok(Field::First)
    } else if same_bytes(value, second.as_bytes()) {
        Ok(Field::Second)
    } else {
        Err(DeError::InvalidBytes(vstd::slice::slice_to_vec(value)))
    }
}

/// The element at `index` of a sequence, if the sequence did not end before it.
pub fn element<A>(e: Option<A>, index: usize) -> (r: Result<A, DeError>)
    ensures
        match e {
            Some(a) => r == Ok::<A, DeError>(a),
            None => r == Err::<A, DeError>(DeError::InvalidLength(index)),
        },
{
    match e {
        Some(a) => Ok(a),
        None => Err(DeError::InvalidLength(index)),
    }
}

/// The two fields of a structure read from a map, as far as they were given.
pub struct TwoFields<A, B> {
    pub first: Option<A>,
    pub second: Option<B>,
}

impl<A, B> TwoFields<A, B> {
    /// No field given yet.
    pub fn new() -> (t: TwoFields<A, B>)
        ensures
            t.first is None && t.second is None,
    {
        TwoFields { first: None, second: None }
    }

    /// Whether `key` can be read now: an error naming it when it was already given.
    pub fn check_key(&self, key: Field, first: &str, second: &str) -> (r: Result<(), DeError>)
        ensures
            key == Field::First && self.first is Some ==> (r matches Err(DeError::DuplicateField(n)) && n@ == first@),
            key == Field::Second && self.second is Some ==> (r matches Err(DeError::DuplicateField(n)) && n@ == second@),
            key == Field::First && self.first is None ==> r is Ok,
            key == Field::Second && self.second is None ==> r is Ok,
    {
        match key {
            Field::First => if self.first.is_some() { Err(DeError::DuplicateField(first.to_owned())) } else { Ok(()) },
            Field::Second => if self.second.is_some() { Err(DeError::DuplicateField(second.to_owned())) } else { Ok(()) },
        }
    }

    /// Records the first field.
    pub fn set_first(&mut self, a: A)
        ensures
            final(self).first == Some(a),
            final(self).second == old(self).second,
    {
        self.first = Some(a);
    }

    /// Records the second field.
    pub fn set_second(&mut self, b: B)
        ensures
            final(self).first == old(self).first,
            final(self).second == Some(b),
    {
        self.second = Some(b);
    }

    /// Both fields, or an error naming the first one missing, as `first_name` or
    /// `second_name`.
    pub fn finish(self, first_name: &str, second_name: &str) -> (r: Result<(A, B), DeError>)
        ensures
            match (self.first, self.second) {
                (Some(a), Some(b)) => r == Ok::<(A, B), DeError>((a, b)),
                (None, _) => r matches Err(DeError::MissingField(n)) && n@ == first_name@,
                (Some(_), None) => r matches Err(DeError::MissingField(n)) && n@ == second_name@,
            },
    {
        match (self.first, self.second) {
            (Some(a), Some(b)) => Ok((a, b)),
            (None, _) => Err(DeError::MissingField(first_name.to_owned())),
            (Some(_), None) => Err(DeError::MissingField(second_name.to_owned())),
        }
    }
}

impl SerInfos {
    /// The field named `value`: `same_binary` or `with_entities`.
    pub fn field_from_str(value: &str) -> (r: Result<Field, DeError>)
        ensures
            value@ == "same_binary"@ ==> r == Ok::<Field, DeError>(Field::First),
            value@ != "same_binary"@ && value@ == "with_entities"@ ==> r == Ok::<Field, DeError>(Field::Second),
            value@ != "same_binary"@ && value@ != "with_entities"@ ==> (r matches Err(DeError::UnknownField(s)) && s@ == value@),
    {
        field_from_str(value, "same_binary", "with_entities")
    }

    /// The field whose name has the bytes `value`.
    pub fn field_from_bytes(value: &[u8]) -> (r: Result<Field, DeError>)
        ensures
            value@ == "same_binary".spec_bytes() ==> r == Ok::<Field, DeError>(Field::First),
            value@ != "same_binary".spec_bytes() && value@ == "with_entities".spec_bytes() ==> r == Ok::<Field, DeError>(Field::Second),
            value@ != "same_binary".spec_bytes() && value@ != "with_entities".spec_bytes() ==> (r matches Err(DeError::InvalidBytes(b)) && b@ == value@),
    {
        field_from_bytes(value, "same_binary", "with_entities")
    }

    /// Whether `key` can be read now from a map.
    pub fn check_key(fields: &TwoFields<bool, bool>, key: Field) -> (r: Result<(), DeError>)
        ensures
            key == Field::First && fields.first is Some ==> (r matches Err(DeError::DuplicateField(n)) && n@ == "same_binary"@),
            key == Field::Second && fields.second is Some ==> (r matches Err(DeError::DuplicateField(n)) && n@ == "with_entities"@),
            key == Field::First && fields.first is None ==> r is Ok,
            key == Field::Second && fields.second is None ==> r is Ok,
    {
        fields.check_key(key, "same_binary", "with_entities")
    }

    /// The infos read from a map, or the first field missing.
    pub fn from_fields(fields: TwoFields<bool, bool>) -> (r: Result<SerInfos, DeError>)
        ensures
            match (fields.first, fields.second) {
                (Some(a), Some(b)) => r == Ok::<SerInfos, DeError>(SerInfos { same_binary: a, with_entities: b }),
                (None, _) => r matches Err(DeError::MissingField(n)) && n@ == "same_binary"@,
                (Some(_), None) => r matches Err(DeError::MissingField(n)) && n@ == "with_entities"@,
            },
    {
        match fields.finish("same_binary", "with_entities") {
            Ok((same_binary, with_entities)) => Ok(SerInfos { same_binary, with_entities }),
            Err(e) => Err(e),
        }
    }

    /// The infos read from a sequence of two elements, or where it ended too soon.
    pub fn from_elements(first: Option<bool>, second: Option<bool>) -> (r: Result<SerInfos, DeError>)
        ensures
            match (first, second) {
                (Some(a), Some(b)) => r == Ok::<SerInfos, DeError>(SerInfos { same_binary: a, with_entities: b }),
                (None, _) => r == Err::<SerInfos, DeError>(DeError::InvalidLength(0)),
                (Some(_), None) => r == Err::<SerInfos, DeError>(DeError::InvalidLength(1)),
            },
    {
        let same_binary = match element(first, 0) {
            Ok(a) => a,
            Err(e) => return Err(e),
        };
        let with_entities = match element(second, 1) {
            Ok(b) => b,
            Err(e) => return Err(e),
        };
        Ok(SerInfos { same_binary, with_entities })
    }
}

/// The storage made of the entities `dense` and the components `data`, or why they do not
/// make one.
fn storage_from_parts<T>(dense: Vec<EntityId>, data: Vec<T>) -> (r: Result<SparseSet<T>, DeError>)
    ensures
        r is Ok <==> dense@.len() == data@.len() && well_listed(dense@) && dense@.len() < u32::MAX,
        r matches Ok(s) ==> s.wf() && s.unclassified_bucket.dense@ == dense@ && s.unclassified_bucket.data@ == data@,
        r is Err ==> r == Err::<SparseSet<T>, DeError>(DeError::InconsistentParts),
{
    match SparseSet::from_parts(dense, data) {
        Some(s) => Ok(s),
        None => Err(DeError::InconsistentParts),
    }
}

impl<T> SparseSet<T> {
    /// The field named `value`: `ids` or `data`.
    pub fn field_from_str(value: &str) -> (r: Result<Field, DeError>)
        ensures
            value@ == "ids"@ ==> r == Ok::<Field, DeError>(Field::First),
            value@ != "ids"@ && value@ == "data"@ ==> r == Ok::<Field, DeError>(Field::Second),
            value@ != "ids"@ && value@ != "data"@ ==> (r matches Err(DeError::UnknownField(s)) && s@ == value@),
    {
        field_from_str(value, "ids", "data")
    }

    /// The field whose name has the bytes `value`.
    pub fn field_from_bytes(value: &[u8]) -> (r: Result<Field, DeError>)
        ensures
            value@ == "ids".spec_bytes() ==> r == Ok::<Field, DeError>(Field::First),
            value@ != "ids".spec_bytes() && value@ == "data".spec_bytes() ==> r == Ok::<Field, DeError>(Field::Second),
            value@ != "ids".spec_bytes() && value@ != "data".spec_bytes() ==> (r matches Err(DeError::InvalidBytes(b)) && b@ == value@),
    {
        field_from_bytes(value, "ids", "data")
    }

    /// Whether `key` can be read now from a map.
    pub fn check_key(fields: &TwoFields<Vec<EntityId>, Vec<T>>, key: Field) -> (r: Result<(), DeError>)
        ensures
            key == Field::First && fields.first is Some ==> (r matches Err(DeError::DuplicateField(n)) && n@ == "ids"@),
            key == Field::Second && fields.second is Some ==> (r matches Err(DeError::DuplicateField(n)) && n@ == "data"@),
            key == Field::First && fields.first is None ==> r is Ok,
            key == Field::Second && fields.second is None ==> r is Ok,
    {
        fields.check_key(key, "ids", "data")
    }

    /// The storage read from a map: the entities, then the components; a missing list is
    /// reported, the entities under the name `dense`.
    pub fn from_fields(fields: TwoFields<Vec<EntityId>, Vec<T>>) -> (r: Result<SparseSet<T>, DeError>)
        ensures
            match (fields.first, fields.second) {
                (Some(d), Some(v)) => {
                    &&& (r is Ok <==> d@.len() == v@.len() && well_listed(d@) && d@.len() < u32::MAX)
                    &&& r matches Ok(s) ==> s.wf() && s.unclassified_bucket.dense@ == d@ && s.unclassified_bucket.data@ == v@
                    &&& r is Err ==> r == Err::<SparseSet<T>, DeError>(DeError::InconsistentParts)
                },
                (None, _) => r matches Err(DeError::MissingField(n)) && n@ == "dense"@,
                (Some(_), None) => r matches Err(DeError::MissingField(n)) && n@ == "data"@,
            },
    {
        match fields.finish("dense", "data") {
            Ok((dense, data)) => storage_from_parts(dense, data),
            Err(e) => Err(e),
        }
    }

    /// The storage read from a sequence of two elements, or where it ended too soon.
    pub fn from_elements(first: Option<Vec<EntityId>>, second: Option<Vec<T>>) -> (r: Result<SparseSet<T>, DeError>)
        ensures
            match (first, second) {
                (Some(d), Some(v)) => {
                    &&& (r is Ok <==> d@.len() == v@.len() && well_listed(d@) && d@.len() < u32::MAX)
                    &&& r matches Ok(s) ==> s.wf() && s.unclassified_bucket.dense@ == d@ && s.unclassified_bucket.data@ == v@
                    &&& r is Err ==> r == Err::<SparseSet<T>, DeError>(DeError::InconsistentParts)
                },
                (None, _) => r == Err::<SparseSet<T>, DeError>(DeError::InvalidLength(0)),
                (Some(_), None) => r == Err::<SparseSet<T>, DeError>(DeError::InvalidLength(1)),
            },
    {
        let dense = match element(first, 0) {
            Ok(d) => d,
            Err(e) => return Err(e),
        };
        let data = match element(second, 1) {
            Ok(v) => v,
            Err(e) => return Err(e),
        };
        storage_from_parts(dense, data)
    }
}

} // verus!
