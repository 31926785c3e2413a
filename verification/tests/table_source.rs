use rusqlite::Connection;
use zqlite_rs::json::{json_eq, JsonMap, JsonNumber, JsonValue};
use zqlite_rs::query_builder::ColumnType;
use zqlite_rs::source::{Change, FetchConstraint, FetchRequest, FetchStart, Row, SourceChange};
use zqlite_rs::table_source::{RustTableSource, TableSourceError};

fn num(i: i64) -> JsonValue {
    JsonValue::Number(JsonNumber::from_i64(i))
}

fn text(s: &str) -> JsonValue {
    JsonValue::String(s.to_string())
}

/// A database in shared memory, named after the test; the connection that
/// made it keeps it alive and reads from it.
fn setup_test_db(name: &str) -> (String, Connection) {
    let path = format!("file:{}?mode=memory&cache=shared", name);
    let conn = Connection::open(&path).expect("open");
    conn.execute_batch(
        "CREATE TABLE users (
             id TEXT PRIMARY KEY,
             name TEXT,
             age INTEGER
         );
         INSERT INTO users VALUES ('1', 'Alice', 30);
         INSERT INTO users VALUES ('2', 'Bob', 25);
         INSERT INTO users VALUES ('3', 'Carol', 35);",
    )
    .expect("setup");
    (path, conn)
}

fn make_source(path: &str) -> RustTableSource {
    let ct = vec![
        ("id".into(), ColumnType::String),
        ("name".into(), ColumnType::String),
        ("age".into(), ColumnType::Number),
    ];
    RustTableSource::new(path, "users".into(), vec!["id".into(), "name".into(), "age".into()], ct, vec!["id".into()])
        .unwrap()
}

fn make_row(pairs: Vec<(&str, JsonValue)>) -> Row {
    let mut m = JsonMap::new();
    for (k, v) in pairs {
        m.insert(k.to_string(), v);
    }
    m
}

fn field<'a>(r: &'a Row, k: &str) -> &'a JsonValue {
    r.get(k).unwrap()
}

fn by_id(order: &str) -> Option<Vec<(String, String)>> {
    Some(vec![("id".into(), order.into())])
}

#[test]
fn test_table_source_basic_fetch() {
    let (path, db) = setup_test_db("ts_basic_fetch");
    let mut src = make_source(&path);
    let cid = src.connect(by_id("asc"), None, None);
    let nodes = src.fetch(&db, cid, &FetchRequest::default()).unwrap();
    assert_eq!(nodes.len(), 3);
    assert!(json_eq(field(&nodes[0].row, "name"), &text("Alice")));
    assert!(json_eq(field(&nodes[1].row, "name"), &text("Bob")));
    assert!(json_eq(field(&nodes[2].row, "name"), &text("Carol")));
}

#[test]
fn test_table_source_fetch_with_constraint() {
    let (path, db) = setup_test_db("ts_fetch_constraint");
    let mut src = make_source(&path);
    let cid = src.connect(None, None, None);
    let req = FetchRequest {
        constraint: Some(FetchConstraint { key: "id".into(), value: text("2") }),
        start: None,
        reverse: false,
    };
    let nodes = src.fetch(&db, cid, &req).unwrap();
    assert_eq!(nodes.len(), 1);
    assert!(json_eq(field(&nodes[0].row, "name"), &text("Bob")));
}

#[test]
fn test_table_source_fetch_with_ordering() {
    let (path, db) = setup_test_db("ts_fetch_ordering");
    let mut src = make_source(&path);
    let cid = src.connect(Some(vec![("age".into(), "asc".into())]), None, None);
    let nodes = src.fetch(&db, cid, &FetchRequest::default()).unwrap();
    assert!(json_eq(field(&nodes[0].row, "age"), &num(25)));
    assert!(json_eq(field(&nodes[1].row, "age"), &num(30)));
    assert!(json_eq(field(&nodes[2].row, "age"), &num(35)));

    let cid2 = src.connect(Some(vec![("age".into(), "desc".into())]), None, None);
    let nodes = src.fetch(&db, cid2, &FetchRequest::default()).unwrap();
    assert!(json_eq(field(&nodes[0].row, "age"), &num(35)));
    assert!(json_eq(field(&nodes[2].row, "age"), &num(25)));
}

#[test]
fn test_table_source_fetch_reverse() {
    let (path, db) = setup_test_db("ts_fetch_reverse");
    let mut src = make_source(&path);
    let cid = src.connect(by_id("asc"), None, None);
    let req = FetchRequest { constraint: None, start: None, reverse: true };
    let nodes = src.fetch(&db, cid, &req).unwrap();
    assert!(json_eq(field(&nodes[0].row, "id"), &text("3")));
    assert!(json_eq(field(&nodes[2].row, "id"), &text("1")));
}

#[test]
fn test_table_source_fetch_with_start() {
    let (path, db) = setup_test_db("ts_fetch_start");
    let mut src = make_source(&path);
    let cid = src.connect(by_id("asc"), None, None);

    let start_row = make_row(vec![("id", text("1"))]);
    let req = FetchRequest {
        constraint: None,
        start: Some(FetchStart { row: start_row, basis: "after".into() }),
        reverse: false,
    };
    let nodes = src.fetch(&db, cid, &req).unwrap();
    assert_eq!(nodes.len(), 2);
    assert!(json_eq(field(&nodes[0].row, "id"), &text("2")));
    assert!(json_eq(field(&nodes[1].row, "id"), &text("3")));
}

#[test]
fn test_table_source_multiple_connections() {
    let (path, db) = setup_test_db("ts_multiple_connections");
    let mut src = make_source(&path);

    let c1 = src.connect(Some(vec![("name".into(), "asc".into())]), None, None);
    let c2 = src.connect(Some(vec![("age".into(), "desc".into())]), None, None);

    let n1 = src.fetch(&db, c1, &FetchRequest::default()).unwrap();
    let n2 = src.fetch(&db, c2, &FetchRequest::default()).unwrap();

    assert!(json_eq(field(&n1[0].row, "name"), &text("Alice")));
    assert!(json_eq(field(&n1[2].row, "name"), &text("Carol")));

    assert!(json_eq(field(&n2[0].row, "age"), &num(35)));
    assert!(json_eq(field(&n2[2].row, "age"), &num(25)));
}

#[test]
fn test_invalid_connection() {
    let (path, db) = setup_test_db("ts_invalid_connection");
    let src = make_source(&path);
    let result = src.fetch(&db, 99, &FetchRequest::default());
    assert!(result.is_err());
    match result.err().unwrap() {
        TableSourceError::InvalidConnection(99) => {},
        other => panic!("expected InvalidConnection, got {:?}", other),
    }
}

#[test]
fn test_push_add() {
    let (path, db) = setup_test_db("ts_push_add");
    let mut src = make_source(&path);
    let cid = src.connect(by_id("asc"), None, None);

    let row = make_row(vec![("id", text("4")), ("name", text("Dave")), ("age", num(40))]);
    let results = src.push(SourceChange::Add(row)).unwrap();

    assert_eq!(results.len(), 1);
    assert_eq!(results[0].len(), 1);
    match &results[0][0] {
        Change::Add(node) => assert!(json_eq(field(&node.row, "name"), &text("Dave"))),
        _ => panic!("expected Add"),
    }

    // Written to the database.
    let nodes = src.fetch(&db, cid, &FetchRequest::default()).unwrap();
    assert_eq!(nodes.len(), 4);
    assert!(json_eq(field(&nodes[3].row, "name"), &text("Dave")));
}

#[test]
fn test_push_remove() {
    let (path, db) = setup_test_db("ts_push_remove");
    let mut src = make_source(&path);
    let cid = src.connect(by_id("asc"), None, None);

    let row = make_row(vec![("id", text("2")), ("name", text("Bob")), ("age", num(25))]);
    let results = src.push(SourceChange::Remove(row)).unwrap();

    assert_eq!(results.len(), 1);
    assert_eq!(results[0].len(), 1);
    match &results[0][0] {
        Change::Remove(node) => assert!(json_eq(field(&node.row, "name"), &text("Bob"))),
        _ => panic!("expected Remove"),
    }

    // Deleted from the database.
    let nodes = src.fetch(&db, cid, &FetchRequest::default()).unwrap();
    assert_eq!(nodes.len(), 2);
    assert!(nodes.iter().all(|n| !json_eq(field(&n.row, "id"), &text("2"))));
}

#[test]
fn test_push_edit() {
    let (path, db) = setup_test_db("ts_push_edit");
    let mut src = make_source(&path);
    let cid = src.connect(by_id("asc"), None, None);

    let old_row = make_row(vec![("id", text("1")), ("name", text("Alice")), ("age", num(30))]);
    let new_row = make_row(vec![("id", text("1")), ("name", text("Alicia")), ("age", num(31))]);
    let results = src.push(SourceChange::Edit { row: new_row, old_row }).unwrap();

    assert_eq!(results.len(), 1);
    assert_eq!(results[0].len(), 1);
    match &results[0][0] {
        Change::Edit { node, old_node } => {
            assert!(json_eq(field(&node.row, "name"), &text("Alicia")));
            assert!(json_eq(field(&old_node.row, "name"), &text("Alice")));
        },
        _ => panic!("expected Edit"),
    }

    // Updated in the database.
    let nodes = src.fetch(&db, cid, &FetchRequest::default()).unwrap();
    let alice = nodes.iter().find(|n| json_eq(field(&n.row, "id"), &text("1"))).unwrap();
    assert!(json_eq(field(&alice.row, "name"), &text("Alicia")));
    assert!(json_eq(field(&alice.row, "age"), &num(31)));
}

#[test]
fn test_push_split_edit() {
    let (path, db) = setup_test_db("ts_push_split_edit");
    let mut src = make_source(&path);
    let cid = src.connect(by_id("asc"), None, Some(vec!["name".to_string()]));

    let old_row = make_row(vec![("id", text("1")), ("name", text("Alice")), ("age", num(30))]);
    let new_row = make_row(vec![("id", text("1")), ("name", text("Alicia")), ("age", num(31))]);
    let results = src.push(SourceChange::Edit { row: new_row, old_row }).unwrap();

    // A split edit gives a remove and an add.
    assert_eq!(results[0].len(), 2);
    match &results[0][0] {
        Change::Remove(node) => assert!(json_eq(field(&node.row, "name"), &text("Alice"))),
        _ => panic!("expected Remove"),
    }
    match &results[0][1] {
        Change::Add(node) => assert!(json_eq(field(&node.row, "name"), &text("Alicia"))),
        _ => panic!("expected Add"),
    }

    let nodes = src.fetch(&db, cid, &FetchRequest::default()).unwrap();
    assert_eq!(nodes.len(), 3);
    let updated = nodes.iter().find(|n| json_eq(field(&n.row, "id"), &text("1"))).unwrap();
    assert!(json_eq(field(&updated.row, "name"), &text("Alicia")));
}

#[test]
fn test_push_add_then_fetch() {
    let (path, db) = setup_test_db("ts_push_add_then_fetch");
    let mut src = make_source(&path);
    let cid = src.connect(Some(vec![("age".into(), "asc".into())]), None, None);

    let row = make_row(vec![("id", text("4")), ("name", text("Dave")), ("age", num(10))]);
    src.push(SourceChange::Add(row)).unwrap();

    let nodes = src.fetch(&db, cid, &FetchRequest::default()).unwrap();
    assert_eq!(nodes.len(), 4);
    // Dave, aged 10, comes first in ascending order.
    assert!(json_eq(field(&nodes[0].row, "name"), &text("Dave")));
}

#[test]
fn test_push_epoch_increments() {
    let (path, _db) = setup_test_db("ts_push_epoch");
    let mut src = make_source(&path);
    let cid = src.connect(by_id("asc"), None, None);

    assert_eq!(src.push_epoch(), 0);

    let row1 = make_row(vec![("id", text("4")), ("name", text("Dave")), ("age", num(40))]);
    src.push(SourceChange::Add(row1)).unwrap();
    assert_eq!(src.push_epoch(), 1);
    assert_eq!(src.connection(cid).unwrap().last_pushed_epoch, 1);

    let row2 = make_row(vec![("id", text("5")), ("name", text("Eve")), ("age", num(28))]);
    src.push(SourceChange::Add(row2)).unwrap();
    assert_eq!(src.push_epoch(), 2);
    assert_eq!(src.connection(cid).unwrap().last_pushed_epoch, 2);
}

#[test]
fn test_push_multiple_connections() {
    let (path, _db) = setup_test_db("ts_push_multiple");
    let mut src = make_source(&path);
    let _c1 = src.connect(by_id("asc"), None, None);
    let _c2 = src.connect(Some(vec![("age".into(), "desc".into())]), None, None);

    let row = make_row(vec![("id", text("4")), ("name", text("Dave")), ("age", num(40))]);
    let results = src.push(SourceChange::Add(row)).unwrap();

    assert_eq!(results.len(), 2);
    assert_eq!(results[0].len(), 1);
    assert_eq!(results[1].len(), 1);
    match (&results[0][0], &results[1][0]) {
        (Change::Add(n1), Change::Add(n2)) => {
            assert!(json_eq(field(&n1.row, "name"), &text("Dave")));
            assert!(json_eq(field(&n2.row, "name"), &text("Dave")));
        },
        _ => panic!("expected Add changes for both connections"),
    }
}

#[test]
#[should_panic(expected = "push Add: row already exists")]
fn test_push_add_duplicate_panics() {
    let (path, _db) = setup_test_db("ts_push_add_duplicate");
    let mut src = make_source(&path);
    src.connect(by_id("asc"), None, None);

    let row = make_row(vec![("id", text("1")), ("name", text("Alice")), ("age", num(30))]);
    match src.push(SourceChange::Add(row)) {
        Err(TableSourceError::InvalidPush(m)) => panic!("{}", m),
        other => assert!(other.is_ok()),
    }
}

#[test]
#[should_panic(expected = "push Remove: row does not exist")]
fn test_push_remove_missing_panics() {
    let (path, _db) = setup_test_db("ts_push_remove_missing");
    let mut src = make_source(&path);
    src.connect(by_id("asc"), None, None);

    let row = make_row(vec![("id", text("99")), ("name", text("Nobody")), ("age", num(0))]);
    match src.push(SourceChange::Remove(row)) {
        Err(TableSourceError::InvalidPush(m)) => panic!("{}", m),
        other => assert!(other.is_ok()),
    }
}

#[test]
fn test_push_edit_pk_change() {
    let (path, db) = setup_test_db("ts_push_edit_pk_change");
    let mut src = make_source(&path);
    let cid = src.connect(by_id("asc"), None, None);

    let old_row = make_row(vec![("id", text("1")), ("name", text("Alice")), ("age", num(30))]);
    let new_row = make_row(vec![("id", text("10")), ("name", text("Alice")), ("age", num(30))]);
    src.push(SourceChange::Edit { row: new_row, old_row }).unwrap();

    let nodes = src.fetch(&db, cid, &FetchRequest::default()).unwrap();
    assert_eq!(nodes.len(), 3);
    assert!(nodes.iter().any(|n| json_eq(field(&n.row, "id"), &text("10"))));
    assert!(nodes.iter().all(|n| !json_eq(field(&n.row, "id"), &text("1"))));
}

#[test]
fn test_push_no_split_when_key_unchanged() {
    let (path, _db) = setup_test_db("ts_push_no_split");
    let mut src = make_source(&path);
    src.connect(by_id("asc"), None, Some(vec!["name".to_string()]));

    // An edit that leaves the name alone is not split.
    let old_row = make_row(vec![("id", text("1")), ("name", text("Alice")), ("age", num(30))]);
    let new_row = make_row(vec![("id", text("1")), ("name", text("Alice")), ("age", num(31))]);
    let results = src.push(SourceChange::Edit { row: new_row, old_row }).unwrap();

    assert_eq!(results[0].len(), 1);
    match &results[0][0] {
        Change::Edit { .. } => {},
        _ => panic!("expected Edit"),
    }
}

// An edit of a row the table lacks is refused.
#[test]
fn push_edit_of_missing_row_is_refused() {
    let (path, _db) = setup_test_db("ts_push_edit_missing");
    let mut src = make_source(&path);
    src.connect(by_id("asc"), None, None);
    let old_row = make_row(vec![("id", text("77")), ("name", text("X")), ("age", num(1))]);
    let new_row = make_row(vec![("id", text("77")), ("name", text("Y")), ("age", num(1))]);
    match src.push(SourceChange::Edit { row: new_row, old_row }) {
        Err(TableSourceError::InvalidPush(m)) => assert!(m.starts_with("push Edit")),
        _ => panic!("expected a refused push"),
    }
}

// The text of each kind of table source error.
#[test]
fn table_source_error_messages() {
    assert_eq!(TableSourceError::Sqlite("no such table: x".to_string()).message(), "sqlite error: no such table: x");
    assert_eq!(TableSourceError::InvalidConnection(99).message(), "invalid connection id: 99");
    assert_eq!(TableSourceError::InvalidPush("push Add: row already exists in DB".to_string()).message(), "push Add: row already exists in DB");
}
