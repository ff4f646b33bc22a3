use sqliter::cli::{
    do_meta_command, parse_insert, prepare_statement, ExecuteError, PrepareError, Statement,
};
use sqliter::db::{Row, Table};

#[test]
fn parse_insert_basic() {
    let (id, username, email) = parse_insert("insert 1 alice alice@x.com").unwrap();
    assert_eq!(id, 1);
    assert_eq!(username, "alice");
    assert_eq!(email, "alice@x.com");
}

#[test]
fn parse_insert_email_runs_to_end_of_line() {
    // the last capture takes everything that remains, spaces included
    let (id, username, email) = parse_insert("insert 2 bob bob at x dot com").unwrap();
    assert_eq!(id, 2);
    assert_eq!(username, "bob");
    assert_eq!(email, "bob at x dot com");
}

#[test]
fn parse_insert_id_bounds() {
    let (id, _, _) = parse_insert("insert 4294967295 a b").unwrap();
    assert_eq!(id, u32::MAX);
    assert!(matches!(parse_insert("insert 4294967296 a b"), Err(PrepareError::Syntax)));
    let (id, _, _) = parse_insert("insert 007 a b").unwrap();
    assert_eq!(id, 7);
}

#[test]
fn parse_insert_syntax_errors() {
    assert!(matches!(parse_insert("insert"), Err(PrepareError::Syntax)));
    assert!(matches!(parse_insert("insert "), Err(PrepareError::Syntax)));
    assert!(matches!(parse_insert("insert 1"), Err(PrepareError::Syntax)));
    assert!(matches!(parse_insert("insert 1 alice"), Err(PrepareError::Syntax)));
    assert!(matches!(parse_insert("insert x alice a@b"), Err(PrepareError::Syntax)));
    assert!(matches!(parse_insert("insertx 1 a b"), Err(PrepareError::Syntax)));
    assert!(matches!(parse_insert("select"), Err(PrepareError::Syntax)));
}

#[test]
fn prepare_statement_insert() {
    match prepare_statement("insert 1 alice alice@x.com") {
        Ok(Statement::Insert(Row { id, username, email })) => {
            assert_eq!(id, 1);
            assert_eq!(username, "alice");
            assert_eq!(email, "alice@x.com");
        },
        other => panic!("expected an insert, got {:?}", other.is_ok()),
    }
}

#[test]
fn prepare_statement_rejects_long_fields() {
    let long_name = "x".repeat(33);
    let line = format!("insert 1 {} a@b.c", long_name);
    assert!(matches!(prepare_statement(&line), Err(PrepareError::StringLength)));
    let long_mail = "m".repeat(257);
    let line = format!("insert 1 alice {}", long_mail);
    assert!(matches!(prepare_statement(&line), Err(PrepareError::StringLength)));
    // exactly at the bounds is accepted
    let name32 = "n".repeat(32);
    let mail256 = "m".repeat(256);
    let line = format!("insert 1 {} {}", name32, mail256);
    assert!(prepare_statement(&line).is_ok());
}

#[test]
fn prepare_statement_select_and_unrecognized() {
    assert!(matches!(prepare_statement("select"), Ok(Statement::Select)));
    assert!(matches!(prepare_statement("select everything"), Ok(Statement::Select)));
    assert!(matches!(prepare_statement("delete 1"), Err(PrepareError::Unrecognized)));
    assert!(matches!(prepare_statement(""), Err(PrepareError::Unrecognized)));
}

#[test]
fn meta_commands() {
    assert_eq!(do_meta_command(".exit"), Ok(Some(0)));
    assert_eq!(do_meta_command(".help"), Ok(None));
    assert_eq!(do_meta_command(".quit"), Err(ExecuteError::UnrecognizedMetaCommand));
    assert_eq!(do_meta_command("insert"), Err(ExecuteError::UnrecognizedMetaCommand));
}

#[test]
fn render_row_line() {
    let r = Row { id: 1, username: "alice".to_string(), email: "alice@x.com".to_string() };
    assert_eq!(r.render(), "Row 1, Username: alice, Email: alice@x.com");
    let r = Row { id: 0, username: "a".to_string(), email: "b".to_string() };
    assert_eq!(r.render(), "Row 0, Username: a, Email: b");
    let r = Row { id: 4294967295, username: "u".to_string(), email: "e".to_string() };
    assert_eq!(r.render(), "Row 4294967295, Username: u, Email: e");
}

#[test]
fn end_to_end_insert_and_select() {
    let mut table = Table::new(0).unwrap();
    for line in ["insert 1 alice alice@x.com", "insert 2 bob bob@x.com"] {
        match prepare_statement(line).unwrap() {
            Statement::Insert(row) => table.insert_row(row).unwrap(),
            Statement::Select => panic!("not a select"),
        }
    }
    assert_eq!(table.num_rows, 2);
    let mut lines: Vec<String> = Vec::new();
    for n in 0..table.num_rows {
        lines.push(table.read_row(n).unwrap().render());
    }
    assert_eq!(
        lines,
        vec![
            "Row 1, Username: alice, Email: alice@x.com".to_string(),
            "Row 2, Username: bob, Email: bob@x.com".to_string(),
        ]
    );
}
