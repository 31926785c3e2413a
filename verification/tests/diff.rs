use rusqlite::Connection;
use zqlite_rs::diff::{
    base64_encode, from_sqlite_types, get_row, get_rows, read_changelog_entries, read_diff, ColumnSpec,
    DiffError, TableAndZqlSpec, TableSpec, ZqlSpec,
};
use zqlite_rs::json::{json_eq, make_obj1, JsonMap, JsonNumber, JsonValue};

fn num(i: i64) -> JsonValue {
    JsonValue::Number(JsonNumber::from_i64(i))
}

fn text(s: &str) -> JsonValue {
    JsonValue::String(s.to_string())
}

fn create_test_db() -> Connection {
    let conn = Connection::open_in_memory().unwrap();
    conn.execute_batch(
        r#"
        CREATE TABLE "_zero.changeLog2" (
            stateVersion TEXT,
            "table" TEXT,
            rowKey TEXT,
            op TEXT,
            pos INTEGER
        );
        CREATE TABLE users (
            id TEXT PRIMARY KEY,
            name TEXT,
            active INTEGER
        );
        "#,
    )
    .unwrap();
    conn
}

fn users_table_spec() -> TableSpec {
    TableSpec {
        name: "users".to_string(),
        columns: vec!["id".to_string(), "name".to_string(), "active".to_string()],
        primary_key: vec!["id".to_string()],
        unique_keys: vec![vec!["id".to_string()]],
        min_row_version: None,
    }
}

fn column(t: &str) -> ColumnSpec {
    ColumnSpec { col_type: t.to_string() }
}

fn users_zql_spec() -> ZqlSpec {
    ZqlSpec {
        columns: vec![
            ("id".to_string(), column("string")),
            ("name".to_string(), column("string")),
            ("active".to_string(), column("boolean")),
        ],
    }
}

fn syncable_tables() -> Vec<(String, TableAndZqlSpec)> {
    vec![("users".to_string(), TableAndZqlSpec { table_spec: users_table_spec(), zql_spec: users_zql_spec() })]
}

fn all_table_names() -> Vec<String> {
    vec!["users".to_string()]
}

#[test]
fn test_read_changelog_entries() {
    let conn = create_test_db();
    conn.execute_batch(
        r#"
        INSERT INTO "_zero.changeLog2" VALUES ('02', 'users', '"u1"', 's', 0);
        INSERT INTO "_zero.changeLog2" VALUES ('02', 'users', '"u2"', 's', 1);
        INSERT INTO "_zero.changeLog2" VALUES ('03', 'users', '"u3"', 'd', 0);
        "#,
    )
    .unwrap();

    let entries = read_changelog_entries(&conn, "01").ok().unwrap();
    assert_eq!(entries.len(), 3);
    assert_eq!(entries[0].1, "users");
    assert_eq!(entries[2].3, "d");
}

#[test]
fn test_get_row() {
    let conn = create_test_db();
    conn.execute("INSERT INTO users VALUES ('u1', 'Alice', 1)", []).unwrap();

    let spec = users_table_spec();
    let row_key = text("u1");
    let row = get_row(&conn, &spec, &row_key).ok().unwrap();
    assert!(row.is_some());
    let row = row.unwrap();
    assert!(json_eq(row.get("name").unwrap(), &text("Alice")));
}

#[test]
fn test_get_row_missing() {
    let conn = create_test_db();
    let spec = users_table_spec();
    let row_key = text("nonexistent");
    let row = get_row(&conn, &spec, &row_key).ok().unwrap();
    assert!(row.is_none());
}

#[test]
fn test_get_rows_null_filter() {
    let conn = create_test_db();
    conn.execute("INSERT INTO users VALUES ('u1', 'Alice', 1)", []).unwrap();

    let spec = users_table_spec();
    // A unique key with a null column value is left out.
    let mut row = JsonMap::new();
    row.insert("id".to_string(), JsonValue::Null);
    row.insert("name".to_string(), text("Alice"));

    let unique_keys = vec![vec!["id".to_string()]];
    let results = get_rows(&conn, &spec, &unique_keys, &row).ok().unwrap();
    assert_eq!(results.len(), 0);
}

#[test]
fn test_read_diff_set_op() {
    let prev_conn = create_test_db();
    let curr_conn = create_test_db();

    prev_conn.execute("INSERT INTO users VALUES ('u1', 'Alice', 1)", []).unwrap();
    curr_conn.execute("INSERT INTO users VALUES ('u1', 'Bob', 0)", []).unwrap();
    curr_conn
        .execute_batch(r#"INSERT INTO "_zero.changeLog2" VALUES ('02', 'users', '"u1"', 's', 0);"#)
        .unwrap();

    let changes =
        read_diff(&prev_conn, &curr_conn, "01", &syncable_tables(), &all_table_names(), "_zero.permissions")
            .ok()
            .unwrap();

    assert_eq!(changes.len(), 1);
    let c = &changes[0];
    assert_eq!(c.table, "users");
    assert!(c.next_value.is_some());
    let nv = c.next_value.as_ref().unwrap();
    assert!(json_eq(nv.get("name").unwrap(), &text("Bob")));
    // active is converted to boolean false
    assert!(json_eq(nv.get("active").unwrap(), &JsonValue::Bool(false)));
    // prev_values holds Alice
    assert_eq!(c.prev_values.len(), 1);
    assert!(json_eq(c.prev_values[0].get("active").unwrap(), &JsonValue::Bool(true)));
}

#[test]
fn test_read_diff_delete_op() {
    let prev_conn = create_test_db();
    let curr_conn = create_test_db();

    prev_conn.execute("INSERT INTO users VALUES ('u1', 'Alice', 1)", []).unwrap();
    curr_conn
        .execute_batch(r#"INSERT INTO "_zero.changeLog2" VALUES ('02', 'users', '"u1"', 'd', 0);"#)
        .unwrap();

    let changes =
        read_diff(&prev_conn, &curr_conn, "01", &syncable_tables(), &all_table_names(), "_zero.permissions")
            .ok()
            .unwrap();

    assert_eq!(changes.len(), 1);
    assert!(changes[0].next_value.is_none());
    assert_eq!(changes[0].prev_values.len(), 1);
}

#[test]
fn test_read_diff_reset_op() {
    let prev_conn = create_test_db();
    let curr_conn = create_test_db();

    curr_conn
        .execute_batch(r#"INSERT INTO "_zero.changeLog2" VALUES ('02', 'users', '"u1"', 'r', 0);"#)
        .unwrap();

    let result =
        read_diff(&prev_conn, &curr_conn, "01", &syncable_tables(), &all_table_names(), "_zero.permissions");

    assert!(result.is_err());
    assert!(matches!(result.err().unwrap(), DiffError::Reset(_)));
}

#[test]
fn test_read_diff_truncate_op() {
    let prev_conn = create_test_db();
    let curr_conn = create_test_db();

    curr_conn
        .execute_batch(r#"INSERT INTO "_zero.changeLog2" VALUES ('02', 'users', '"u1"', 't', 0);"#)
        .unwrap();

    let result =
        read_diff(&prev_conn, &curr_conn, "01", &syncable_tables(), &all_table_names(), "_zero.permissions");

    assert!(result.is_err());
    assert!(matches!(result.err().unwrap(), DiffError::Truncate(_)));
}

#[test]
fn test_read_diff_noop_filtered() {
    let prev_conn = create_test_db();
    let curr_conn = create_test_db();

    // A delete of a row that the previous snapshot lacks too.
    curr_conn
        .execute_batch(r#"INSERT INTO "_zero.changeLog2" VALUES ('02', 'users', '"u1"', 'd', 0);"#)
        .unwrap();

    let changes =
        read_diff(&prev_conn, &curr_conn, "01", &syncable_tables(), &all_table_names(), "_zero.permissions")
            .ok()
            .unwrap();

    assert_eq!(changes.len(), 0);
}

#[test]
fn test_from_sqlite_types_boolean() {
    let zql_spec = users_zql_spec();
    let mut row = JsonMap::new();
    row.insert("id".to_string(), text("u1"));
    row.insert("name".to_string(), text("Alice"));
    row.insert("active".to_string(), num(1));

    from_sqlite_types(&zql_spec, &mut row);
    assert!(json_eq(row.get("active").unwrap(), &JsonValue::Bool(true)));

    row.insert("active".to_string(), num(0));
    from_sqlite_types(&zql_spec, &mut row);
    assert!(json_eq(row.get("active").unwrap(), &JsonValue::Bool(false)));
}

#[test]
fn test_from_sqlite_types_json() {
    let zql_spec = ZqlSpec { columns: vec![("data".to_string(), column("json"))] };

    let mut row = JsonMap::new();
    row.insert("data".to_string(), text(r#"{"key":"value"}"#));

    from_sqlite_types(&zql_spec, &mut row);

    assert!(json_eq(row.get("data").unwrap(), &make_obj1("key", text("value"))));
}

// Base64: three bytes to four characters, padded.
#[test]
fn base64_formula() {
    assert_eq!(base64_encode(b""), "");
    assert_eq!(base64_encode(b"f"), "Zg==");
    assert_eq!(base64_encode(b"fo"), "Zm8=");
    assert_eq!(base64_encode(b"foo"), "Zm9v");
    assert_eq!(base64_encode(b"foobar"), "Zm9vYmFy");
}

// A change log entry of a table that is neither synced nor known is refused.
#[test]
fn read_diff_unknown_table() {
    let prev_conn = create_test_db();
    let curr_conn = create_test_db();
    curr_conn
        .execute_batch(r#"INSERT INTO "_zero.changeLog2" VALUES ('02', 'ghost', '"u1"', 's', 0);"#)
        .unwrap();
    let result =
        read_diff(&prev_conn, &curr_conn, "01", &syncable_tables(), &all_table_names(), "_zero.permissions");
    match result.err().unwrap() {
        DiffError::Unknown(m) => assert_eq!(m, "unknown table: ghost"),
        _ => panic!("expected an unknown table"),
    }
}

// The text of each kind of diff error.
#[test]
fn diff_error_messages() {
    assert_eq!(DiffError::Reset("schema-change on table t".to_string()).message(), "Reset: schema-change on table t");
    assert_eq!(DiffError::Truncate("x".to_string()).message(), "Truncate: x");
    assert_eq!(DiffError::Unknown("unknown table: q".to_string()).message(), "Unknown: unknown table: q");
}
