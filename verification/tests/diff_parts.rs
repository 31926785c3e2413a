use zqlite_rs::diff::{
    build_get_row_sql, build_get_rows_query, changelog_entry, classify_entry, delete_change,
    extract_key_values, row_from_cells, set_change, ColumnSpec, DiffError, EntryAction, TableAndZqlSpec,
    TableSpec, ZqlSpec,
};
use zqlite_rs::json::{json_eq, make_array, make_obj1, JsonMap, JsonNumber, JsonValue};
use zqlite_rs::sqlite::{SqlCell, SqlParam};

fn num(i: i64) -> JsonValue {
    JsonValue::Number(JsonNumber::from_i64(i))
}

fn text(s: &str) -> JsonValue {
    JsonValue::String(s.to_string())
}

fn strings(xs: &[&str]) -> Vec<String> {
    xs.iter().map(|s| s.to_string()).collect()
}

fn user_spec() -> TableSpec {
    TableSpec {
        name: "user".to_string(),
        columns: strings(&["id", "email", "active"]),
        primary_key: strings(&["id"]),
        unique_keys: vec![strings(&["id"]), strings(&["email"])],
        min_row_version: None,
    }
}

fn user_zql() -> ZqlSpec {
    ZqlSpec {
        columns: vec![
            ("id".to_string(), ColumnSpec { col_type: "string".to_string() }),
            ("active".to_string(), ColumnSpec { col_type: "boolean".to_string() }),
        ],
    }
}

fn row(fields: Vec<(&str, JsonValue)>) -> JsonMap {
    let mut m = JsonMap::new();
    for (k, v) in fields {
        m.insert(k.to_string(), v);
    }
    m
}

fn field<'a>(r: &'a JsonMap, k: &str) -> &'a JsonValue {
    r.get(k).unwrap()
}

#[test]
fn get_row_sql_selects_by_primary_key() {
    assert_eq!(build_get_row_sql(&user_spec()), "SELECT id, email, active FROM \"user\" WHERE \"id\" = ?");
}

#[test]
fn key_values_by_position_by_name_or_the_key_itself() {
    let pk = strings(&["id", "n"]);
    let by_pos = extract_key_values(&make_array(vec![text("a"), num(2)]), &pk);
    assert!(matches!(&by_pos[..], [SqlParam::Text(a), SqlParam::Integer(2)] if a == "a"));
    let by_name = extract_key_values(&make_obj1("n", num(5)), &pk);
    assert!(matches!(&by_name[..], [SqlParam::Null, SqlParam::Integer(5)]));
    let single = extract_key_values(&text("k"), &strings(&["id"]));
    assert!(matches!(&single[..], [SqlParam::Text(k)] if k == "k"));
}

#[test]
fn get_rows_query_uses_the_usable_unique_keys() {
    let r = row(vec![("id", text("u1")), ("email", JsonValue::Null)]);
    let (sql, params) = build_get_rows_query(&user_spec(), &user_spec().unique_keys, &r);
    assert_eq!(sql, "SELECT id, email, active FROM \"user\" WHERE (\"id\" = ?)");
    assert!(matches!(&params[..], [SqlParam::Text(u)] if u == "u1"));
    let both = row(vec![("id", text("u1")), ("email", text("a@b"))]);
    let (sql2, params2) = build_get_rows_query(&user_spec(), &user_spec().unique_keys, &both);
    assert_eq!(sql2, "SELECT id, email, active FROM \"user\" WHERE (\"id\" = ?) OR (\"email\" = ?)");
    assert_eq!(params2.len(), 2);
}

#[test]
fn row_from_cells_names_each_cell() {
    let r = row_from_cells(
        &strings(&["id", "n", "blob"]),
        &vec![SqlCell::Text(b"a".to_vec()), SqlCell::Integer(3), SqlCell::Blob(vec![0xff])],
    );
    assert!(json_eq(field(&r, "id"), &text("a")));
    assert!(json_eq(field(&r, "n"), &num(3)));
    assert!(json_eq(field(&r, "blob"), &text("/w==")));
}

#[test]
fn changelog_entry_parses_json_row_keys() {
    let e = changelog_entry(&strings(&["v1", "issue", "{\"id\":\"a\"}", "s"]));
    assert_eq!(e.0, "v1");
    assert_eq!(e.1, "issue");
    assert!(json_eq(&e.2, &make_obj1("id", text("a"))));
    assert_eq!(e.3, "s");
    let raw = changelog_entry(&strings(&["v2", "issue", "not json", "d"]));
    assert!(json_eq(&raw.2, &text("not json")));
}

fn syncable() -> Vec<(String, TableAndZqlSpec)> {
    vec![("user".to_string(), TableAndZqlSpec { table_spec: user_spec(), zql_spec: user_zql() })]
}

#[test]
fn entries_are_classified_by_operation_and_table() {
    let all = strings(&["user", "audit"]);
    assert!(matches!(classify_entry("r", "user", &syncable(), &all), EntryAction::Reset));
    assert!(matches!(classify_entry("t", "nowhere", &syncable(), &all), EntryAction::Truncate));
    assert!(matches!(classify_entry("s", "audit", &syncable(), &all), EntryAction::Skip));
    assert!(matches!(classify_entry("s", "nowhere", &syncable(), &all), EntryAction::UnknownTable));
    assert!(matches!(classify_entry("s", "user", &syncable(), &all), EntryAction::SetRow));
    assert!(matches!(classify_entry("d", "user", &syncable(), &all), EntryAction::DeleteRow));
}

#[test]
fn delete_change_converts_the_removed_row() {
    let table = "user".to_string();
    assert!(delete_change(&table, &text("u1"), None, &user_zql()).is_none());
    let prev = row(vec![("id", text("u1")), ("active", num(1))]);
    let c = delete_change(&table, &text("u1"), Some(prev), &user_zql()).unwrap();
    assert_eq!(c.table, "user");
    assert!(c.next_value.is_none());
    assert_eq!(c.prev_values.len(), 1);
    assert!(json_eq(field(&c.prev_values[0], "active"), &JsonValue::Bool(true)));
}

#[test]
fn set_change_converts_both_rows() {
    let table = "user".to_string();
    let none = set_change(&table, &text("u1"), None, vec![], &user_zql(), "perms").ok().unwrap();
    assert!(none.is_none());
    let next = row(vec![("id", text("u1")), ("active", num(0))]);
    let c = set_change(&table, &text("u1"), Some(next), vec![], &user_zql(), "perms").ok().unwrap().unwrap();
    assert!(c.prev_values.is_empty());
    assert!(json_eq(field(c.next_value.as_ref().unwrap(), "active"), &JsonValue::Bool(false)));
}

#[test]
fn changed_permissions_reset_the_diff() {
    let table = "perms".to_string();
    let before = row(vec![("permissions", text("a"))]);
    let after = row(vec![("permissions", text("b"))]);
    let r = set_change(&table, &text("p"), Some(after), vec![before], &user_zql(), "perms");
    assert!(matches!(r, Err(DiffError::Reset(m)) if m == "permissions-change"));
    let same_before = row(vec![("permissions", text("a"))]);
    let same_after = row(vec![("permissions", text("a"))]);
    let ok = set_change(&table, &text("p"), Some(same_after), vec![same_before], &user_zql(), "perms");
    assert!(matches!(ok, Ok(Some(_))));
}
