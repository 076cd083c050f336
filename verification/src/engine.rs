//! The engine: the live record collection, its position index, and the
//! models of the two persisted files, kept consistent under every operation.
//!
//! The engine never opens a file. Each mutating operation returns the
//! journal line (or snapshot text) that the caller must persist, and the
//! ghost models `snap` and `journal` track what the files then hold;
//! [`Database::in_sync`] says the live collection is exactly what reopening
//! those files would rebuild.

use vstd::prelude::*;
use crate::errors::DbError;
use crate::index::{index_consistent, lemma_rebuild_consistent, lemma_rebuild_domain, spec_rebuild,
    IdIndex};
use crate::model::{Row, RowV};
use crate::storage::{
    decode_line, decode_snapshot, encode_delete_line, encode_insert_line,
    lemma_decode_of_encode_delete, lemma_decode_of_encode_insert, lemma_remove_all_single,
    lines_view, replay, replay_lines, rows_view, snapshot_decode,
    snapshot_encode, spec_encode_delete, spec_encode_insert, spec_encode_snapshot, LogEntryV,
};

verus! {

/// Compaction is suggested every time the live row count reaches a multiple
/// of this interval.
pub const COMPACT_INTERVAL: usize = 50000;

/// Relies on chrono's `Utc::now(...).timestamp()` for the wall-clock second
/// that tags each journalled insert. Nothing can be promised of a clock
/// reading; replay never depends on it.
#[verifier::external_body]
fn now_timestamp() -> i64 {
    chrono::Utc::now().timestamp()
}

/// What a snapshot file's text denotes at startup: its rows when present
/// and well-formed, otherwise nothing.
pub open spec fn snap_of_text(text: Option<Seq<char>>) -> Seq<RowV> {
    match text {
        Some(t) => match decode_snapshot(t) {
            Some(rows) => rows,
            None => Seq::empty(),
        },
        None => Seq::empty(),
    }
}

/// The state reopening a store rebuilds: the snapshot's rows followed by
/// the journal's replay.
pub open spec fn spec_open(text: Option<Seq<char>>, lines: Seq<Seq<char>>) -> Seq<RowV> {
    snap_of_text(text) + replay_lines(lines)
}

/// The record store: live rows, their position index, and the models of the
/// snapshot and journal files.
pub struct Database {
    rows: Vec<Row>,
    index: IdIndex,
    snap: Ghost<Seq<RowV>>,
    journal: Ghost<Seq<Seq<char>>>,
}

impl Database {
    /// The live record collection, as values.
    pub closed spec fn rows_v(self) -> Seq<RowV> {
        rows_view(self.rows@)
    }

    /// The key-to-offset index.
    pub closed spec fn index_v(self) -> Map<u32, usize> {
        self.index@
    }

    /// The rows the snapshot file holds.
    pub closed spec fn snap_v(self) -> Seq<RowV> {
        self.snap@
    }

    /// The lines the journal file holds.
    pub closed spec fn journal_v(self) -> Seq<Seq<char>> {
        self.journal@
    }

    /// Well-formed: the index is exactly what a rebuild of the live
    /// collection produces.
    pub closed spec fn wf(self) -> bool {
        &&& self.index@ == spec_rebuild(self.rows_v())
        &&& self.rows@.len() <= usize::MAX as nat
    }

    /// No two live records share a key.
    pub open spec fn unique_ids(self) -> bool {
        forall|i: int, j: int|
            0 <= i < j < self.rows_v().len() ==> #[trigger] self.rows_v()[i].id
                != #[trigger] self.rows_v()[j].id
    }

    /// The live collection is exactly what reopening the persisted files
    /// would rebuild.
    pub open spec fn in_sync(self) -> bool {
        self.rows_v() == self.snap_v() + replay_lines(self.journal_v())
    }

    /// Some live record holds this key.
    pub open spec fn has_id(self, id: u32) -> bool {
        exists|i: int| 0 <= i < self.rows_v().len() && #[trigger] self.rows_v()[i].id == id
    }

    /// A fresh, empty store over empty files.
    pub fn new() -> (db: Database)
        ensures
            db.wf(),
            db.unique_ids(),
            db.in_sync(),
            db.rows_v() == Seq::<RowV>::empty(),
            db.snap_v() == Seq::<RowV>::empty(),
            db.journal_v() == Seq::<Seq<char>>::empty(),
    {
        let db = Database {
            rows: Vec::new(),
            index: IdIndex::new(),
            snap: Ghost(Seq::empty()),
            journal: Ghost(Seq::empty()),
        };
        proof {
            assert(db.rows_v() =~= Seq::<RowV>::empty());
            assert(spec_rebuild(db.rows_v()) =~= Map::<u32, usize>::empty());
            assert(db.snap_v() + replay_lines(db.journal_v()) =~= Seq::<RowV>::empty());
        }
        db
    }

    /// Opens a store from persisted state: the snapshot file's text if one
    /// exists, and the journal file's lines. A missing or malformed
    /// snapshot contributes nothing; the journal is replayed after it.
    pub fn load_from_disk(snapshot_text: Option<&String>, journal_lines: &Vec<String>) -> (db:
        Database)
        ensures
            db.wf(),
            db.snap_v() == snap_of_text(
                match snapshot_text {
                    Some(t) => Some(t@),
                    None => None,
                },
            ),
            db.journal_v() == lines_view(journal_lines@),
            db.rows_v() == spec_open(
                match snapshot_text {
                    Some(t) => Some(t@),
                    None => None,
                },
                lines_view(journal_lines@),
            ),
            db.in_sync(),
    {
        let mut rows: Vec<Row> = match snapshot_text {
            Some(t) => match snapshot_decode(t.as_str()) {
                Some(r) => r,
                None => Vec::new(),
            },
            None => Vec::new(),
        };
        let ghost snap_rows = rows_view(rows@);
        proof {
            match snapshot_text {
                Some(t) => {},
                None => {
                    assert(snap_rows =~= Seq::<RowV>::empty());
                },
            }
        }
        let mut log_rows = replay(journal_lines);
        let ghost replayed = rows_view(log_rows@);
        rows.append(&mut log_rows);
        proof {
            assert(rows_view(rows@) =~= snap_rows + replayed);
        }
        let index = IdIndex::rebuild(&rows);
        proof {
            vstd::std_specs::vec::axiom_spec_len(&rows);
        }
        let db = Database {
            rows,
            index,
            snap: Ghost(snap_rows),
            journal: Ghost(lines_view(journal_lines@)),
        };
        proof {
            assert(db.rows_v() =~= db.snap_v() + replay_lines(db.journal_v()));
        }
        db
    }

    /// Inserts a new record.
    ///
    /// On success the returned line must be appended to the journal file:
    /// the ghost journal model already includes it. A key that is already
    /// live is refused and nothing - live set, index, journal - changes.
    pub fn insert(&mut self, id: u32, name: String, age: u8) -> (r: Result<String, DbError>)
        requires
            old(self).wf(),
        ensures
            final(self).wf(),
            final(self).snap_v() == old(self).snap_v(),
            match r {
                Ok(line) => {
                    &&& !old(self).has_id(id)
                    &&& final(self).rows_v() == old(self).rows_v().push(
                        RowV { id, name: name@, age },
                    )
                    &&& final(self).journal_v() == old(self).journal_v().push(line@)
                    &&& (exists|ts: i64|
                        line@ == spec_encode_insert(RowV { id, name: name@, age }, ts))
                    &&& (decode_line(line@) matches Some(LogEntryV::Insert { row, .. })
                        && row == (RowV { id, name: name@, age }))
                    &&& (old(self).unique_ids() ==> final(self).unique_ids())
                    &&& (old(self).in_sync() ==> final(self).in_sync())
                },
                Err(e) => {
                    &&& (e matches DbError::DuplicateIdError(d) && d == id)
                    &&& old(self).has_id(id)
                    &&& *final(self) == *old(self)
                },
            },
    {
        proof {
            lemma_rebuild_domain(self.rows_v(), id);
        }
        match self.index.get(id) {
            Some(_) => Err(DbError::DuplicateIdError(id)),
            None => {
                let ghost namev = name@;
                let ghost oldrows = self.rows_v();
                let ghost oldj = self.journal@;
                let ts = now_timestamp();
                let row = Row::new(id, name, age);
                let ghost rowv = row@;
                let line = encode_insert_line(&row, ts);
                let pos = self.rows.len();
                self.rows.push(row);
                match self.index.insert(id, pos) {
                    Ok(()) => {},
                    Err(_) => {
                        proof {
                            assert(false);
                        }
                    },
                }
                self.journal = Ghost(oldj.push(line@));
                proof {
                    vstd::std_specs::vec::axiom_spec_len(&self.rows);
                    assert(self.rows_v() =~= oldrows.push(rowv));
                    assert(self.rows_v().drop_last() =~= oldrows);
                    assert(spec_rebuild(self.rows_v()) == spec_rebuild(oldrows).insert(id, pos));
                    lemma_decode_of_encode_insert(rowv, ts);
                    if old(self).unique_ids() {
                        assert forall|i: int, j: int|
                            0 <= i < j < self.rows_v().len() implies #[trigger] self.rows_v()[i].id
                            != #[trigger] self.rows_v()[j].id by {
                            if j < self.rows_v().len() - 1 {
                                assert(oldrows[i].id != oldrows[j].id);
                            } else {
                                assert(self.rows_v()[j] == rowv);
                                assert(oldrows[i].id != id);
                            }
                        }
                    }
                    if old(self).in_sync() {
                        let newj = self.journal@;
                        assert(newj.drop_last() =~= oldj);
                        assert(decode_line(newj.last()) == Some(
                            LogEntryV::Insert { row: rowv, timestamp: ts },
                        ));
                        assert(replay_lines(newj) == replay_lines(oldj).push(rowv));
                        assert(self.snap_v() + replay_lines(newj) =~= (self.snap_v()
                            + replay_lines(oldj)).push(rowv));
                    }
                }
                Ok(line)
            },
        }
    }

    /// Deletes the record with this key, if it is live.
    ///
    /// Returns the journal line the caller must append; the whole index is
    /// rebuilt because removal shifts every later offset. An absent key
    /// changes nothing at all and is not an error.
    pub fn delete_by_id(&mut self, id: u32) -> (r: Option<String>)
        requires
            old(self).wf(),
        ensures
            final(self).wf(),
            final(self).snap_v() == old(self).snap_v(),
            match r {
                None => !old(self).has_id(id) && *final(self) == *old(self),
                Some(line) => {
                    &&& old(self).has_id(id)
                    &&& line@ == spec_encode_delete(id)
                    &&& old(self).index_v().contains_key(id)
                    &&& final(self).rows_v() == old(self).rows_v().remove(
                        old(self).index_v()[id] as int,
                    )
                    &&& final(self).journal_v() == old(self).journal_v().push(line@)
                    &&& (old(self).unique_ids() ==> final(self).unique_ids())
                    &&& (old(self).unique_ids() && old(self).in_sync() && (forall|k: int|
                        0 <= k < old(self).snap_v().len() ==> #[trigger] old(self).snap_v()[k].id
                            != id) ==> final(self).in_sync())
                },
            },
    {
        proof {
            lemma_rebuild_domain(self.rows_v(), id);
            lemma_rebuild_consistent(self.rows_v());
        }
        match self.index.get(id) {
            None => None,
            Some(pos) => {
                let ghost oldrows = self.rows_v();
                let ghost oldj = self.journal@;
                let line = encode_delete_line(id);
                self.index.remove(id);
                self.rows.remove(pos);
                let index = IdIndex::rebuild(&self.rows);
                self.index = index;
                self.journal = Ghost(oldj.push(line@));
                proof {
                    vstd::std_specs::vec::axiom_spec_len(&self.rows);
                    assert(self.rows_v() =~= oldrows.remove(pos as int));
                    assert(oldrows[pos as int].id == id);
                    let newrows = self.rows_v();
                    if old(self).unique_ids() {
                        assert forall|i: int, j: int|
                            0 <= i < j < newrows.len() implies #[trigger] newrows[i].id
                            != #[trigger] newrows[j].id by {
                            let i0 = if i < pos {
                                i
                            } else {
                                i + 1
                            };
                            let j0 = if j < pos {
                                j
                            } else {
                                j + 1
                            };
                            assert(newrows[i] == oldrows[i0]);
                            assert(newrows[j] == oldrows[j0]);
                            assert(oldrows[i0].id != oldrows[j0].id);
                        }
                        let snap = self.snap_v();
                        if old(self).in_sync() && (forall|k: int|
                            0 <= k < snap.len() ==> #[trigger] snap[k].id != id) {
                            let replayed = replay_lines(oldj);
                            assert(oldrows == snap + replayed);
                            // The deleted row sits in the replayed suffix:
                            // nothing in the snapshot carries its key.
                            assert(pos >= snap.len()) by {
                                if (pos as int) < snap.len() {
                                    assert(oldrows[pos as int] == snap[pos as int]);
                                }
                            }
                            let p = pos - snap.len();
                            assert(replayed[p] == oldrows[pos as int]);
                            assert forall|k: int|
                                0 <= k < replayed.len() && k != p implies #[trigger] replayed[k].id
                                != id by {
                                assert(replayed[k] == oldrows[k + snap.len()]);
                                if k < p {
                                    assert(oldrows[k + snap.len()].id != oldrows[pos as int].id);
                                } else {
                                    assert(oldrows[pos as int].id != oldrows[k + snap.len()].id);
                                }
                            }
                            lemma_remove_all_single(replayed, id, p);
                            let newj = self.journal@;
                            assert(newj.drop_last() =~= oldj);
                            lemma_decode_of_encode_delete(id);
                            assert(replay_lines(newj) == crate::storage::remove_all_id(
                                replayed,
                                id,
                            ));
                            assert(snap + replayed.remove(p) =~= oldrows.remove(pos as int));
                        }
                    }
                }
                Some(line)
            },
        }
    }

    /// The record with this key, if live: a copy of the row the index
    /// points at. Under unique keys it is the only row with that key.
    pub fn select_by_id(&self, id: u32) -> (r: Option<Row>)
        requires
            self.wf(),
        ensures
            match r {
                Some(row) => {
                    &&& self.has_id(id)
                    &&& row@.id == id
                    &&& self.index_v().contains_key(id)
                    &&& row@ == self.rows_v()[self.index_v()[id] as int]
                    &&& (self.unique_ids() ==> forall|i: int|
                        0 <= i < self.rows_v().len() && #[trigger] self.rows_v()[i].id == id
                            ==> self.rows_v()[i] == row@)
                },
                None => !self.has_id(id),
            },
    {
        proof {
            lemma_rebuild_domain(self.rows_v(), id);
            lemma_rebuild_consistent(self.rows_v());
        }
        match self.index.get(id) {
            Some(pos) => {
                let row = self.rows[pos].clone();
                proof {
                    let p = self.index_v()[id] as int;
                    if self.unique_ids() {
                        assert forall|i: int|
                            0 <= i < self.rows_v().len() && #[trigger] self.rows_v()[i].id
                                == id implies self.rows_v()[i] == row@ by {
                            if i != p {
                                if i < p {
                                    assert(self.rows_v()[i].id != self.rows_v()[p].id);
                                } else {
                                    assert(self.rows_v()[p].id != self.rows_v()[i].id);
                                }
                            }
                        }
                    }
                }
                Some(row)
            },
            None => None,
        }
    }

    /// The whole live record collection, in order.
    pub fn select_all(&self) -> (r: &Vec<Row>)
        ensures
            rows_view(r@) == self.rows_v(),
    {
        &self.rows
    }

    /// The index offset for this key, if any: the position of its row in
    /// the live collection.
    pub fn get_index_position(&self, id: u32) -> (r: Option<usize>)
        requires
            self.wf(),
        ensures
            match r {
                Some(p) => p < self.rows_v().len() && self.rows_v()[p as int].id == id,
                None => !self.has_id(id),
            },
    {
        proof {
            lemma_rebuild_domain(self.rows_v(), id);
            lemma_rebuild_consistent(self.rows_v());
        }
        self.index.get(id)
    }

    /// Whether the periodic compaction policy fires: the live row count has
    /// reached an exact multiple of [`COMPACT_INTERVAL`].
    pub fn should_compact(&self) -> (r: bool)
        ensures
            r == (self.rows_v().len() >= COMPACT_INTERVAL && self.rows_v().len() as int
                % (COMPACT_INTERVAL as int) == 0),
    {
        self.rows.len() >= COMPACT_INTERVAL && self.rows.len() % COMPACT_INTERVAL == 0
    }

    /// Checkpoints the store: returns the snapshot text of the live
    /// collection.
    ///
    /// The caller must write that text durably (write to a temporary file,
    /// sync, atomically rename) and only then truncate the journal file, in
    /// that order; the ghost models already reflect both. Decoding the
    /// returned text gives back exactly the live rows.
    pub fn compact(&mut self) -> (text: String)
        requires
            old(self).wf(),
        ensures
            final(self).wf(),
            final(self).rows_v() == old(self).rows_v(),
            final(self).index_v() == old(self).index_v(),
            text@ == spec_encode_snapshot(old(self).rows_v()),
            decode_snapshot(text@) == Some(old(self).rows_v()),
            final(self).snap_v() == old(self).rows_v(),
            final(self).journal_v() == Seq::<Seq<char>>::empty(),
            final(self).in_sync(),
            old(self).unique_ids() ==> final(self).unique_ids(),
    {
        let text = snapshot_encode(&self.rows);
        self.snap = Ghost(rows_view(self.rows@));
        self.journal = Ghost(Seq::empty());
        proof {
            crate::storage::lemma_snapshot_round_trip(self.rows_v());
            assert(self.snap_v() + replay_lines(self.journal_v()) =~= self.rows_v());
        }
        text
    }

    /// Clears the store: no live rows, an empty index, an empty journal.
    ///
    /// The caller must truncate the journal file. The snapshot file, if one
    /// was ever written, is left as it is, so the store is only in sync
    /// with its files afterwards when no snapshot exists.
    pub fn reset_db(&mut self)
        ensures
            final(self).wf(),
            final(self).unique_ids(),
            final(self).rows_v() == Seq::<RowV>::empty(),
            final(self).index_v() == Map::<u32, usize>::empty(),
            final(self).journal_v() == Seq::<Seq<char>>::empty(),
            final(self).snap_v() == old(self).snap_v(),
            old(self).snap_v().len() == 0 ==> final(self).in_sync(),
    {
        self.rows = Vec::new();
        self.index.clear();
        self.journal = Ghost(Seq::empty());
        proof {
            assert(self.rows_v() =~= Seq::<RowV>::empty());
            assert(spec_rebuild(self.rows_v()) =~= Map::<u32, usize>::empty());
            if self.snap_v().len() == 0 {
                assert(self.snap_v() + replay_lines(self.journal_v()) =~= Seq::<RowV>::empty());
            }
        }
    }
}

/// The index always agrees with the live collection: every live key's
/// offset points at its row, and a key is mapped exactly when it is live.
pub proof fn lemma_index_consistency(db: Database)
    requires
        db.wf(),
    ensures
        index_consistent(db.index_v(), db.rows_v()),
        forall|id: u32| #[trigger] db.index_v().contains_key(id) <==> db.has_id(id),
{
    lemma_rebuild_consistent(db.rows_v());
    assert forall|id: u32| #[trigger] db.index_v().contains_key(id) <==> db.has_id(id) by {
        lemma_rebuild_domain(db.rows_v(), id);
    }
}

/// Durability round trip: a well-formed store in sync with its files can be
/// closed and reopened - loading a snapshot text that decodes to its
/// snapshot model together with its journal lines rebuilds exactly its live
/// rows.
pub proof fn lemma_durability_round_trip(db: Database, text: Option<Seq<char>>)
    requires
        db.wf(),
        db.in_sync(),
        snap_of_text(text) == db.snap_v(),
    ensures
        spec_open(text, db.journal_v()) == db.rows_v(),
{
}

} // verus!
