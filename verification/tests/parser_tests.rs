use mini_db::errors::DbError;
use mini_db::parser;

#[test]
fn parse_insert_command_valid() -> Result<(), DbError> {
    let input = "insert 1 alice 20";
    let cmd = parser::parse_command(&input)?;

    assert_eq!(cmd, parser::Command::Insert { id: 1, name: "alice".into(), age: 20 });

    Ok(())
}

#[test]
fn parse_select_command_valid() -> Result<(), DbError> {
    let input = "select";
    let cmd = parser::parse_command(&input)?;

    assert_eq!(cmd, parser::Command::Select);

    Ok(())
}

#[test]
fn parse_select_where_command_valid() -> Result<(), DbError> {
    let input = "select where id=5";
    let cmd = parser::parse_command(&input)?;

    assert_eq!(cmd, parser::Command::SelectById { id: 5 });

    Ok(())
}

#[test]
fn parse_delete_command_valid() -> Result<(), DbError> {
    let input = "delete where id=5";
    let cmd = parser::parse_command(&input)?;

    assert_eq!(cmd, parser::Command::DeleteById { id: 5 });

    Ok(())
}

#[test]
fn parse_invalid_missing_id() -> Result<(), DbError> {
    let input = "select where";
    let cmd = parser::parse_command(&input);

    assert!(matches!(cmd, Err(DbError::InvalidCommandError)));

    Ok(())
}

#[test]
fn parse_invalid_non_number_id() -> Result<(), DbError> {
    let input = "delete where id=abc";
    let cmd = parser::parse_command(&input);

    assert!(matches!(cmd, Err(DbError::ParseError(_))));

    Ok(())
}

#[test]
fn parse_is_case_insensitive_and_trims() -> Result<(), DbError> {
    let cmd = parser::parse_command("  INSERT 7 Carol 41  ")?;
    assert_eq!(cmd, parser::Command::Insert { id: 7, name: "carol".into(), age: 41 });

    let cmd = parser::parse_command("ExIt")?;
    assert_eq!(cmd, parser::Command::Exit);

    let cmd = parser::parse_command("HELP")?;
    assert_eq!(cmd, parser::Command::Help);

    let cmd = parser::parse_command("reset")?;
    assert_eq!(cmd, parser::Command::Reset);

    Ok(())
}

#[test]
fn parse_exec_batch_command() -> Result<(), DbError> {
    let cmd = parser::parse_command("exec batch ops.txt")?;
    assert_eq!(cmd, parser::Command::ExecBatch { path: "ops.txt".into() });

    Ok(())
}

#[test]
fn parse_rejects_out_of_range_numbers() {
    assert!(matches!(
        mini_db::parser::parse_command("insert 4294967296 bob 20"),
        Err(DbError::ParseError(_))
    ));
    assert!(matches!(
        mini_db::parser::parse_command("insert 1 bob 256"),
        Err(DbError::ParseError(_))
    ));
    assert!(matches!(
        mini_db::parser::parse_command("insert 4294967295 bob 255"),
        Ok(mini_db::parser::Command::Insert { id: 4294967295, age: 255, .. })
    ));
}

#[test]
fn parse_empty_line_is_invalid() {
    assert!(matches!(
        mini_db::parser::parse_command("   "),
        Err(DbError::InvalidCommandError)
    ));
    assert!(matches!(
        mini_db::parser::parse_command(""),
        Err(DbError::InvalidCommandError)
    ));
}
