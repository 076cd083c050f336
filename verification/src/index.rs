//! The position index: a map from record key to the record's offset in the
//! live record collection.
//!
//! The index is never authoritative: it is rebuilt from the collection
//! whenever offsets shift, and [`spec_rebuild`] is exactly the mapping such a
//! rebuild produces - each key to the offset of its last occurrence.

use vstd::prelude::*;
use std::collections::HashMap;
use crate::errors::DbError;
use crate::model::{Row, RowV};
use crate::storage::rows_view;

verus! {

broadcast use vstd::std_specs::hash::group_hash_axioms;

/// The mapping a scan of `rows` produces: every key to the offset of its
/// last occurrence.
pub open spec fn spec_rebuild(rows: Seq<RowV>) -> Map<u32, usize>
    decreases rows.len(),
{
    if rows.len() == 0 {
        Map::empty()
    } else {
        spec_rebuild(rows.drop_last()).insert(rows.last().id, (rows.len() - 1) as usize)
    }
}

/// The index `m` agrees with `rows`: every mapped key sits at its mapped
/// offset, and every row's key is mapped.
pub open spec fn index_consistent(m: Map<u32, usize>, rows: Seq<RowV>) -> bool {
    &&& forall|id: u32| #[trigger] m.contains_key(id) ==> m[id] < rows.len() && rows[m[id] as int].id
        == id
    &&& forall|i: int| 0 <= i < rows.len() ==> m.contains_key(#[trigger] rows[i].id)
}

/// A rebuilt index agrees with the rows it was built from. Offsets are
/// machine words, so this speaks of collections a vector can hold.
pub proof fn lemma_rebuild_consistent(rows: Seq<RowV>)
    requires
        rows.len() <= usize::MAX as nat,
    ensures
        index_consistent(spec_rebuild(rows), rows),
    decreases rows.len(),
{
    if rows.len() > 0 {
        lemma_rebuild_consistent(rows.drop_last());
        let prev = spec_rebuild(rows.drop_last());
        let m = spec_rebuild(rows);
        assert forall|id: u32| #[trigger] m.contains_key(id) implies m[id] < rows.len()
            && rows[m[id] as int].id == id by {
            if id != rows.last().id {
                assert(prev.contains_key(id) && prev[id] == m[id]);
                assert(rows.drop_last()[m[id] as int] == rows[m[id] as int]);
            } else {
                assert(m[id] == (rows.len() - 1) as usize);
            }
        }
        assert forall|i: int| 0 <= i < rows.len() implies m.contains_key(
            #[trigger] rows[i].id,
        ) by {
            if i < rows.len() - 1 {
                assert(rows.drop_last()[i] == rows[i]);
                assert(prev.contains_key(rows[i].id));
            }
        }
    }
}

/// A key is in the rebuilt index exactly when some row carries it.
pub proof fn lemma_rebuild_domain(rows: Seq<RowV>, id: u32)
    requires
        rows.len() <= usize::MAX as nat,
    ensures
        spec_rebuild(rows).contains_key(id) <==> exists|i: int|
            0 <= i < rows.len() && rows[i].id == id,
{
    lemma_rebuild_consistent(rows);
    if spec_rebuild(rows).contains_key(id) {
        let p = spec_rebuild(rows)[id];
        assert(rows[p as int].id == id);
    }
}

/// The key-to-offset index over the live record collection.
pub struct IdIndex {
    row_map: HashMap<u32, usize>,
}

impl View for IdIndex {
    type V = Map<u32, usize>;

    closed spec fn view(&self) -> Map<u32, usize> {
        self.row_map@
    }
}

impl IdIndex {
    /// An empty index.
    pub fn new() -> (r: IdIndex)
        ensures
            r@ == Map::<u32, usize>::empty(),
    {
        IdIndex { row_map: HashMap::new() }
    }

    /// Maps `id` to `position`; refuses a key that is already mapped, which
    /// is how the store's uniqueness rule is enforced at this layer.
    pub fn insert(&mut self, id: u32, position: usize) -> (r: Result<(), DbError>)
        ensures
            match r {
                Ok(()) => !old(self)@.contains_key(id) && final(self)@ == old(self)@.insert(
                    id,
                    position,
                ),
                Err(e) => old(self)@.contains_key(id) && *final(self) == *old(self) && (e matches
                DbError::DuplicateIdError(d) && d == id),
            },
    {
        if self.row_map.contains_key(&id) {
            Err(DbError::DuplicateIdError(id))
        } else {
            self.row_map.insert(id, position);
            Ok(())
        }
    }

    /// Unmaps `id`; absence is not an error.
    pub fn remove(&mut self, id: u32)
        ensures
            final(self)@ == old(self)@.remove(id),
    {
        self.row_map.remove(&id);
    }

    /// The offset mapped for `id`, if any.
    pub fn get(&self, id: u32) -> (r: Option<usize>)
        ensures
            match r {
                Some(p) => self@.contains_key(id) && self@[id] == p,
                None => !self@.contains_key(id),
            },
    {
        match self.row_map.get(&id) {
            Some(p) => Some(*p),
            None => None,
        }
    }

    /// Drops every mapping.
    pub fn clear(&mut self)
        ensures
            final(self)@ == Map::<u32, usize>::empty(),
    {
        self.row_map = HashMap::new();
    }

    /// Builds the index a single scan of `rows` produces, mapping each key
    /// to the offset of its last occurrence.
    pub fn rebuild(rows: &Vec<Row>) -> (r: IdIndex)
        ensures
            r@ == spec_rebuild(rows_view(rows@)),
    {
        let mut row_map: HashMap<u32, usize> = HashMap::new();
        let mut i: usize = 0;
        while i < rows.len()
            invariant
                i <= rows.len(),
                row_map@ == spec_rebuild(rows_view(rows@.take(i as int))),
            decreases rows.len() - i,
        {
            let ghost pre = rows_view(rows@.take(i as int));
            let ghost cur = rows_view(rows@.take(i as int + 1));
            proof {
                assert(cur.drop_last() =~= pre);
                assert(cur.last() == rows@[i as int]@);
            }
            row_map.insert(rows[i].id, i);
            i = i + 1;
        }
        proof {
            assert(rows@.take(rows@.len() as int) =~= rows@);
        }
        IdIndex { row_map }
    }
}

} // verus!
