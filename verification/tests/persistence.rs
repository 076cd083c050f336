use mini_db::engine::Database;
use mini_db::errors::DbError;
use mini_db::model::Row;

#[test]
// Inserts rows collecting the journal, drops the store, reopens from the
// journal and fetches the rows to test persistence
fn test_persistance_across_sessions() -> Result<(), DbError> {
    let mut journal: Vec<String> = Vec::new();

    {
        let mut db = Database::new();

        journal.push(db.insert(1, "Alice".into(), 20)?);
        journal.push(db.insert(2, "Bob".into(), 30)?);
        journal.push(db.insert(3, "John".into(), 40)?);
    }

    let db = Database::load_from_disk(None, &journal);
    let rows = db.select_all();

    assert_eq!(rows.len(), 3);

    let mut actual = rows.clone();

    let mut expected = vec![
        Row { id: 1, name: "Alice".into(), age: 20 },
        Row { id: 2, name: "Bob".into(), age: 30 },
        Row { id: 3, name: "John".into(), age: 40 },
    ];

    actual.sort_by_key(|row| row.id);
    expected.sort_by_key(|row| row.id);

    assert_eq!(actual, expected);

    Ok(())
}
