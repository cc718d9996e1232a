//! Entities: the unit of instantiation.
//!
//! All data belongs to an instance of some entity type. An id has no order and is reused
//! once its instance is gone; the generation number keeps a reference that outlived its
//! instance from meaning the next one.
use crate::value::Value;
use vstd::prelude::*;

verus! {

#[derive(Clone, Copy, Debug, PartialEq, Eq, Structural, Hash, PartialOrd, Ord)]
pub struct EntityTypeId(pub u32);

#[derive(Clone, Copy, Debug, PartialEq, Eq, Structural, Hash, PartialOrd, Ord)]
pub struct FieldId(pub u32);

/// An instance: its type, its id, and the generation of the id's current holder.
#[derive(Clone, Copy, Debug, PartialEq, Eq, Structural, Hash)]
pub struct InstanceId {
    pub ty: EntityTypeId,
    pub id: u32,
    pub generation: u64,
}

/// One field of one instance: the grain of writing, subscribing and routing.
#[derive(Clone, Copy, Debug, PartialEq, Eq, Structural, Hash)]
pub struct CellAddr {
    pub inst: InstanceId,
    pub field: FieldId,
}

/// The declaration of a field.
pub struct FieldDef {
    pub name: String,
    /// The runtime keeps a reverse table for such a field and nulls it when its target dies.
    pub is_ref: bool,
    pub default: Value,
}

impl FieldDef {
    pub fn new(name: &str, default: Value) -> (r: FieldDef)
        ensures
            r.name@ == name@,
            !r.is_ref,
            r.default == default,
    {
        FieldDef { name: name.to_owned(), is_ref: false, default }
    }

    pub fn reference(name: &str) -> (r: FieldDef)
        ensures
            r.name@ == name@,
            r.is_ref,
            r.default == Value::Null,
    {
        FieldDef { name: name.to_owned(), is_ref: true, default: Value::Null }
    }
}

impl Clone for FieldDef {
    fn clone(&self) -> (r: FieldDef)
        ensures
            r.name@ == self.name@,
            r.is_ref == self.is_ref,
            r.default@ == self.default@,
    {
        FieldDef { name: self.name.clone(), is_ref: self.is_ref, default: self.default.clone() }
    }
}

/// The schema of an entity type, fixed at registration.
pub struct EntityType {
    pub name: String,
    /// `fields[0]` is the built-in `_alive`, which registration puts there.
    pub fields: Vec<FieldDef>,
    /// A singleton type has exactly the instance 0.
    pub singleton: bool,
}

/// The number of the built-in field `_alive` of every type.
pub const FIELD_ALIVE: u32 = 0;

}
