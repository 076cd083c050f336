//! The record model: the fixed-shape unit of storage.

use vstd::prelude::*;

verus! {

/// The mathematical value of a [`Row`]: its key, name and age with the name
/// abstracted to a sequence of characters.
pub struct RowV {
    pub id: u32,
    pub name: Seq<char>,
    pub age: u8,
}

/// A single record: a unique key `id`, a `name` and an `age`.
///
/// Rows are immutable once created; an update is modelled as a delete
/// followed by an insert at the caller's level, never as a mutation here.
#[derive(Debug)]
pub struct Row {
    /// Unique key of the record.
    pub id: u32,
    /// Name payload.
    pub name: String,
    /// Age payload.
    pub age: u8,
}

impl View for Row {
    type V = RowV;

    open spec fn view(&self) -> RowV {
        RowV { id: self.id, name: self.name@, age: self.age }
    }
}

impl Row {
    /// Creates a row from already-validated field values.
    pub fn new(id: u32, name: String, age: u8) -> (r: Row)
        ensures
            r@ == (RowV { id, name: name@, age }),
    {
        Row { id, name, age }
    }
}

impl Clone for Row {
    fn clone(&self) -> (r: Row)
        ensures
            r == *self,
    {
        Row { id: self.id, name: self.name.clone(), age: self.age }
    }
}

impl PartialEq for Row {
    fn eq(&self, other: &Row) -> (r: bool) {
        self.id == other.id && self.age == other.age && self.name == other.name
    }
}

impl vstd::std_specs::cmp::PartialEqSpecImpl for Row {
    open spec fn obeys_eq_spec() -> bool {
        true
    }

    open spec fn eq_spec(&self, other: &Row) -> bool {
        self@ == other@
    }
}

} // verus!
