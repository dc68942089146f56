use panda::cmd::PandaCmd;
use panda::plan::{parse_statements, query_mentions_granted_by, Node, ParsedStatement, QueryPlan};

#[test]
fn create_table_is_planned_and_lowered() {
    let stmts = parse_statements("CREATE TABLE t (a INT, b TEXT)").unwrap();
    assert_eq!(stmts.len(), 1);
    let stmt = stmts.into_iter().next().unwrap();
    assert!(stmt.is_create_table());
    let plan = QueryPlan::plan(stmt);
    match &plan.root {
        Node::CreateTable { table } => {
            assert_eq!(table.name.to_string(), "t");
            assert_eq!(table.columns.len(), 2);
        }
    }
    match plan.lower() {
        PandaCmd::CreateTable { table } => assert_eq!(table.columns[1].name.value, "b"),
    }
}

#[test]
fn statements_keep_their_order() {
    let stmts = parse_statements("SELECT 1; CREATE TABLE u (x INT)").unwrap();
    assert_eq!(stmts.len(), 2);
    assert!(!stmts[0].is_create_table());
    assert!(matches!(stmts[0], ParsedStatement::Other(_)));
    assert!(stmts[1].is_create_table());
}

#[test]
fn each_create_table_keeps_its_own_name_and_columns() {
    let stmts = parse_statements("CREATE TABLE a (x INT); CREATE TABLE b (y INT, z TEXT)").unwrap();
    assert_eq!(stmts.len(), 2);
    match &stmts[0] {
        ParsedStatement::CreateTable { name, columns } => {
            assert_eq!(name.to_string(), "a");
            assert_eq!(columns.len(), 1);
            assert_eq!(columns[0].name.value, "x");
        }
        _ => panic!("the first statement is a CREATE TABLE"),
    }
    match &stmts[1] {
        ParsedStatement::CreateTable { name, columns } => {
            assert_eq!(name.to_string(), "b");
            assert_eq!(columns.len(), 2);
            assert_eq!(columns[1].name.value, "z");
        }
        _ => panic!("the second statement is a CREATE TABLE"),
    }
}

#[test]
fn bad_sql_is_refused() {
    assert!(parse_statements("CREATE TABLE (").is_err());
}

#[test]
fn classification_keeps_order_and_other_statements() {
    let dialect = sqlparser::dialect::PostgreSqlDialect {};
    let raw = sqlparser::parser::Parser::parse_sql(&dialect, "SELECT 1; CREATE TABLE v (y INT); SELECT 2").unwrap();
    let expected_first = raw[0].clone();
    let out = panda::plan::classify_statements(raw);
    assert_eq!(out.len(), 3);
    match &out[0] {
        ParsedStatement::Other(s) => assert_eq!(*s, expected_first),
        _ => panic!("a SELECT is not a CREATE TABLE"),
    }
    assert!(out[1].is_create_table());
    assert!(!out[2].is_create_table());
}

#[test]
fn texts_that_name_granted_by_are_recognised() {
    assert!(query_mentions_granted_by("GRANT SELECT ON t TO u GRANTED BY"));
    assert!(query_mentions_granted_by("REVOKE SELECT ON t FROM u granted\n  by"));
    assert!(query_mentions_granted_by("select 'Granted' from t order by a"));
    assert!(!query_mentions_granted_by("by granted"));
    assert!(!query_mentions_granted_by("CREATE TABLE t (a INT, granted_at INT)"));
    assert!(!query_mentions_granted_by("CREATE TABLE t (a INT)"));
    assert!(!query_mentions_granted_by("grantedb"));
    assert!(!query_mentions_granted_by("grant"));
}

#[test]
fn a_column_named_granted_at_is_parsed() {
    let stmts = parse_statements("CREATE TABLE t (granted_at INT)").unwrap();
    assert_eq!(stmts.len(), 1);
    assert!(stmts[0].is_create_table());
}
