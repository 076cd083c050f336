//! Integration tests for edge cases in the record store.
//!
//! These tests verify critical functionality including:
//! - Log replay and persistence across store restarts
//! - Index correctness after rebuilding from logs
//! - Index updates on insert and delete operations
//! - Performance measurement for common operations

use mini_db::engine::Database;
use mini_db::errors::DbError;
use std::time::Instant;

/// Tests that a large number of log entries can be successfully replayed after restart.
#[test]
fn large_log_replay_completes() -> Result<(), DbError> {
    const NUM_ENTRIES: u32 = 10_000;
    const AGE_RANGE: u32 = 50;
    const BASE_AGE: u8 = 20;

    let mut journal: Vec<String> = Vec::new();

    {
        let mut db = Database::new();
        for i in 1..=NUM_ENTRIES {
            let age = BASE_AGE + (i % AGE_RANGE) as u8;
            journal.push(db.insert(i, format!("User{}", i), age)?);
        }
    }

    let db = Database::load_from_disk(None, &journal);
    let rows = db.select_all();

    assert_eq!(
        rows.len(),
        NUM_ENTRIES as usize,
        "Expected {} rows after replay, found {}",
        NUM_ENTRIES,
        rows.len()
    );

    Ok(())
}

/// Tests that the index is correctly rebuilt after a store restart.
#[test]
fn index_rebuild_correctness() -> Result<(), DbError> {
    let test_data = vec![
        (1, "Alice", 30),
        (2, "Bob", 25),
        (3, "Charlie", 35),
        (4, "Diana", 28),
        (5, "Eve", 32),
    ];

    let mut journal: Vec<String> = Vec::new();

    {
        let mut db = Database::new();
        for &(id, name, age) in &test_data {
            journal.push(db.insert(id, name.to_string(), age)?);
        }
    }

    // Reopening triggers an index rebuild from the replayed log.
    let db = Database::load_from_disk(None, &journal);

    for &(id, expected_name, expected_age) in &test_data {
        let row = db
            .select_by_id(id)
            .expect(&format!("Row with id {} should exist after restart", id));

        assert_eq!(row.id, id, "ID mismatch for entry {}", id);
        assert_eq!(row.name, expected_name, "Name mismatch for entry {}", id);
        assert_eq!(row.age, expected_age, "Age mismatch for entry {}", id);
    }

    Ok(())
}

/// Tests that the index is properly updated when a row is deleted.
#[test]
fn index_update_on_delete() -> Result<(), DbError> {
    const TEST_ID: u32 = 100;

    let mut db = Database::new();

    db.insert(TEST_ID, "Test User".to_string(), 25)?;

    assert!(
        db.get_index_position(TEST_ID).is_some(),
        "Index should contain id {} after insert",
        TEST_ID
    );

    db.delete_by_id(TEST_ID);

    assert!(
        db.get_index_position(TEST_ID).is_none(),
        "Index should not contain id {} after delete",
        TEST_ID
    );

    assert!(
        db.select_by_id(TEST_ID).is_none(),
        "select_by_id should return None for deleted row with id {}",
        TEST_ID
    );

    Ok(())
}

/// Tests that the index is properly updated when a new row is inserted.
#[test]
fn index_update_on_insert() -> Result<(), DbError> {
    const TEST_ID: u32 = 42;
    const TEST_NAME: &str = "New User";
    const TEST_AGE: u8 = 30;

    let mut db = Database::new();

    db.insert(TEST_ID, TEST_NAME.to_string(), TEST_AGE)?;

    assert!(
        db.get_index_position(TEST_ID).is_some(),
        "Index should contain id {} after insert",
        TEST_ID
    );

    let row = db
        .select_by_id(TEST_ID)
        .expect(&format!("select_by_id should return Some for inserted row with id {}", TEST_ID));

    assert_eq!(row.id, TEST_ID, "Retrieved row has incorrect ID");
    assert_eq!(row.name, TEST_NAME, "Retrieved row has incorrect name");
    assert_eq!(row.age, TEST_AGE, "Retrieved row has incorrect age");

    Ok(())
}

/// Tests that deleting from the middle keeps every remaining offset right.
#[test]
fn index_consistent_after_middle_delete() -> Result<(), DbError> {
    let mut db = Database::new();
    for i in 1..=5u32 {
        db.insert(i, format!("User{}", i), 20)?;
    }

    db.delete_by_id(3);

    let rows = db.select_all().clone();
    assert_eq!(rows.len(), 4);
    for (offset, row) in rows.iter().enumerate() {
        assert_eq!(
            db.get_index_position(row.id),
            Some(offset),
            "Index should map id {} to its shifted offset",
            row.id
        );
    }
    assert_eq!(db.get_index_position(3), None);

    Ok(())
}

/// Performance measurement for insert and select operations.
///
/// Results are printed to stdout; run with `--nocapture` to see them.
#[test]
fn timing_insert_and_select() -> Result<(), DbError> {
    const NUM_INSERTS: u32 = 10_000;
    const NUM_SELECTS: u32 = 1_000;
    const AGE_RANGE: u32 = 50;
    const BASE_AGE: u8 = 20;

    let mut db = Database::new();

    let insert_start = Instant::now();
    for i in 1..=NUM_INSERTS {
        let age = BASE_AGE + (i % AGE_RANGE) as u8;
        db.insert(i, format!("User{}", i), age)?;
    }
    let insert_duration = insert_start.elapsed();

    let select_start = Instant::now();
    for i in 1..=NUM_SELECTS {
        let _ = db.select_by_id(i);
    }
    let select_duration = select_start.elapsed();

    println!("\n=== Performance Metrics ===");
    println!("{} inserts: {:?}", NUM_INSERTS, insert_duration);
    println!("Average per insert: {:?}", insert_duration / NUM_INSERTS);
    println!("{} selects: {:?}", NUM_SELECTS, select_duration);
    println!("Average per select: {:?}", select_duration / NUM_SELECTS);
    println!("===========================\n");

    Ok(())
}
