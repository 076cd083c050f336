use mini_db::engine::Database;
use mini_db::errors::DbError;
use mini_db::model::Row;
use mini_db::storage;
use mini_db::storage::LogEntry;

#[test]
// Exact journal line text for an insert with a fixed timestamp
fn insert_line_exact_text() {
    let row = Row::new(1, "Alice".into(), 30);
    let line = storage::encode_insert_line(&row, 1234);
    assert_eq!(line, "i,1234,1,30,5,Alice;");

    let row = Row::new(7, "Bob".into(), 25);
    let line = storage::encode_insert_line(&row, -7);
    assert_eq!(line, "i,-7,7,25,3,Bob;");
}

#[test]
// Exact journal line text for a delete
fn delete_line_exact_text() {
    let mut db = Database::new();
    db.insert(42, "x".into(), 1).unwrap();
    let line = db.delete_by_id(42).unwrap();
    assert_eq!(line, "d,42;");
}

#[test]
// Journal lines decode back to the entry they were written for
fn journal_line_round_trip() {
    let row = Row::new(9, "Carol".into(), 77);
    let line = storage::encode_insert_line(&row, 55);
    match storage::decode_entry(&line) {
        Some(LogEntry::Insert { row: r, timestamp }) => {
            assert_eq!(r, row);
            assert_eq!(timestamp, 55);
        },
        _ => panic!("insert line should decode as an insert"),
    }

    let line = storage::encode_delete_line(123);
    match storage::decode_entry(&line) {
        Some(LogEntry::Delete { id }) => assert_eq!(id, 123),
        _ => panic!("delete line should decode as a delete"),
    }
}

#[test]
// Names with separators, escapes and line breaks survive the journal
fn awkward_names_round_trip() {
    let names = ["with,commas", "semi;colon", "back\\slash", "line\nbreak", "cr\rhere", "", "id="];
    let mut journal: Vec<String> = Vec::new();
    let mut db = Database::new();
    for (i, name) in names.iter().enumerate() {
        let line = db.insert(i as u32, name.to_string(), 10).unwrap();
        assert!(!line.contains('\n'), "journal line must stay on one line");
        assert!(!line.contains('\r'), "journal line must stay on one line");
        journal.push(line);
    }

    let reopened = Database::load_from_disk(None, &journal);
    for (i, name) in names.iter().enumerate() {
        let row = reopened.select_by_id(i as u32).unwrap();
        assert_eq!(row.name, *name);
    }
}

#[test]
// A torn final line - any strict prefix of a real write - has no effect
fn torn_tail_is_ignored() -> Result<(), DbError> {
    let mut journal: Vec<String> = Vec::new();
    {
        let mut db = Database::new();
        journal.push(db.insert(1, "Alice".into(), 30)?);
        journal.push(db.insert(2, "Bob".into(), 25)?);
    }

    // A crash mid-append leaves a prefix of the next line.
    let full = storage::encode_insert_line(&Row::new(3, "Mallory".into(), 99), 777);
    for cut in 0..full.len() {
        let mut torn = journal.clone();
        torn.push(full[..cut].to_string());
        let db = Database::load_from_disk(None, &torn);
        let rows = db.select_all();
        assert_eq!(rows.len(), 2, "torn tail (cut {}) must not add a row", cut);
        assert!(db.select_by_id(3).is_none());
    }

    // The same holds for a torn delete line.
    let full = storage::encode_delete_line(1);
    for cut in 0..full.len() {
        let mut torn = journal.clone();
        torn.push(full[..cut].to_string());
        let db = Database::load_from_disk(None, &torn);
        assert_eq!(db.select_all().len(), 2, "torn delete (cut {}) must not delete", cut);
    }

    Ok(())
}

#[test]
// A corrupt line in the middle is skipped; entries around it survive
fn corrupt_middle_line_is_skipped() -> Result<(), DbError> {
    let mut journal: Vec<String> = Vec::new();
    {
        let mut db = Database::new();
        journal.push(db.insert(1, "Alice".into(), 30)?);
        journal.push(db.insert(2, "Bob".into(), 25)?);
    }
    journal.insert(1, "garbage that is no entry".to_string());

    let db = Database::load_from_disk(None, &journal);
    assert_eq!(db.select_all().len(), 2);
    assert!(db.select_by_id(1).is_some());
    assert!(db.select_by_id(2).is_some());

    Ok(())
}

#[test]
// Snapshot text is exact and decodes back to the same rows
fn snapshot_exact_text_and_round_trip() {
    let rows = vec![Row::new(1, "Alice".into(), 30), Row::new(2, "Bob".into(), 25)];
    let text = storage::snapshot_encode(&rows);
    assert_eq!(text, "r,1,30,5,Alice\nr,2,25,3,Bob\n");

    let back = storage::snapshot_decode(&text).unwrap();
    assert_eq!(back, rows);

    assert_eq!(storage::snapshot_encode(&Vec::new()), "");
    assert_eq!(storage::snapshot_decode("").unwrap(), Vec::<Row>::new());
    assert!(storage::snapshot_decode("not a snapshot").is_none());
}

#[test]
// The example scenario: two inserts, one delete, close, reopen
fn example_scenario_survives_reopen() -> Result<(), DbError> {
    let mut journal: Vec<String> = Vec::new();
    {
        let mut db = Database::new();
        journal.push(db.insert(1, "Alice".into(), 30)?);
        journal.push(db.insert(2, "Bob".into(), 25)?);
        journal.push(db.delete_by_id(1).unwrap());
    }

    let db = Database::load_from_disk(None, &journal);
    assert_eq!(db.select_all(), &vec![Row { id: 2, name: "Bob".into(), age: 25 }]);
    assert_eq!(db.select_by_id(1), None);
    assert_eq!(db.select_by_id(2), Some(Row { id: 2, name: "Bob".into(), age: 25 }));

    Ok(())
}

#[test]
// Compaction: the snapshot alone carries the full state, and the journal
// afterwards holds only what came after the checkpoint
fn compaction_bounds_journal() -> Result<(), DbError> {
    const NUM: u32 = 50_000;

    let mut db = Database::new();
    for i in 1..=NUM {
        db.insert(i, format!("User{}", i), (i % 100) as u8)?;
    }
    assert!(db.should_compact(), "the policy fires at an exact multiple");

    let snapshot = db.compact();

    // The journal was truncated; only post-checkpoint lines remain.
    let mut journal: Vec<String> = Vec::new();
    journal.push(db.insert(NUM + 1, "late".into(), 5)?);

    let reopened = Database::load_from_disk(Some(&snapshot), &journal);
    let rows = reopened.select_all();
    assert_eq!(rows.len(), (NUM + 1) as usize);
    assert_eq!(
        reopened.select_by_id(17),
        Some(Row { id: 17, name: "User17".into(), age: 17 })
    );
    assert_eq!(
        reopened.select_by_id(NUM + 1),
        Some(Row { id: NUM + 1, name: "late".into(), age: 5 })
    );

    Ok(())
}

#[test]
// The compaction policy only fires at exact multiples of the interval
fn should_compact_policy() -> Result<(), DbError> {
    let mut db = Database::new();
    assert!(!db.should_compact());
    db.insert(1, "a".into(), 1)?;
    assert!(!db.should_compact());
    Ok(())
}

#[test]
// Replay applies inserts and deletes in journal order
fn replay_folds_in_order() {
    let lines = vec![
        storage::encode_insert_line(&Row::new(1, "a".into(), 1), 0),
        storage::encode_insert_line(&Row::new(2, "b".into(), 2), 0),
        storage::encode_delete_line(1),
        storage::encode_insert_line(&Row::new(1, "c".into(), 3), 0),
    ];
    let rows = storage::replay(&lines);
    assert_eq!(rows, vec![Row::new(2, "b".into(), 2), Row::new(1, "c".into(), 3)]);
}
