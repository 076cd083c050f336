use mini_db::errors::DbError;
use mini_db::index::IdIndex;
use mini_db::model::Row;

#[test]
fn index_insert_get_remove() {
    let mut idx = IdIndex::new();
    assert_eq!(idx.get(5), None);

    idx.insert(5, 0).unwrap();
    idx.insert(9, 1).unwrap();
    assert_eq!(idx.get(5), Some(0));
    assert_eq!(idx.get(9), Some(1));

    let err = idx.insert(5, 7);
    assert!(matches!(err, Err(DbError::DuplicateIdError(5))));
    assert_eq!(idx.get(5), Some(0), "a refused insert must not change the mapping");

    idx.remove(5);
    assert_eq!(idx.get(5), None);
    // Absence is not an error.
    idx.remove(5);
    assert_eq!(idx.get(9), Some(1));
}

#[test]
fn index_clear_empties() {
    let mut idx = IdIndex::new();
    idx.insert(1, 0).unwrap();
    idx.insert(2, 1).unwrap();
    idx.clear();
    assert_eq!(idx.get(1), None);
    assert_eq!(idx.get(2), None);
}

#[test]
fn index_rebuild_maps_every_row() {
    let rows = vec![
        Row::new(10, "a".into(), 1),
        Row::new(20, "b".into(), 2),
        Row::new(30, "c".into(), 3),
    ];
    let idx = IdIndex::rebuild(&rows);
    assert_eq!(idx.get(10), Some(0));
    assert_eq!(idx.get(20), Some(1));
    assert_eq!(idx.get(30), Some(2));
    assert_eq!(idx.get(40), None);
}

#[test]
fn index_rebuild_keeps_last_offset_for_equal_keys() {
    // Rebuild itself is total: with equal keys the later offset wins.
    let rows = vec![
        Row::new(10, "a".into(), 1),
        Row::new(10, "b".into(), 2),
    ];
    let idx = IdIndex::rebuild(&rows);
    assert_eq!(idx.get(10), Some(1));
}

#[test]
fn largest_key_and_age_round_trip() -> Result<(), DbError> {
    let mut db = mini_db::engine::Database::new();
    let mut journal: Vec<String> = Vec::new();
    journal.push(db.insert(u32::MAX, "edge".into(), u8::MAX)?);

    let reopened = mini_db::engine::Database::load_from_disk(None, &journal);
    let row = reopened.select_by_id(u32::MAX).unwrap();
    assert_eq!(row.age, u8::MAX);
    assert_eq!(row.name, "edge");

    Ok(())
}
