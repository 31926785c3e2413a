use zqlite_rs::json::{JsonMap, JsonNumber, JsonValue};
use zqlite_rs::source::{Change, Row, SourceChange};
use zqlite_rs::sqlite::SqlParam;
use zqlite_rs::table_source::{
    build_delete_statement, build_exists_statement, build_insert_statement, build_update_statement,
    build_write_plan, push_error_for, source_change_to_change,
};

fn num(i: i64) -> JsonValue {
    JsonValue::Number(JsonNumber::from_i64(i))
}

fn text(s: &str) -> JsonValue {
    JsonValue::String(s.to_string())
}

fn strings(xs: &[&str]) -> Vec<String> {
    xs.iter().map(|s| s.to_string()).collect()
}

fn user(id: &str, name: &str, age: i64) -> Row {
    let mut m = JsonMap::new();
    m.insert("id".to_string(), text(id));
    m.insert("name".to_string(), text(name));
    m.insert("age".to_string(), num(age));
    m
}

fn cols() -> Vec<String> {
    strings(&["id", "name", "age"])
}

fn pk() -> Vec<String> {
    strings(&["id"])
}

#[test]
fn statements_number_their_parameters() {
    let r = user("u1", "Ann", 30);
    let (ins, ip) = build_insert_statement("users", &cols(), &r);
    assert_eq!(ins, "INSERT INTO \"users\" (\"id\", \"name\", \"age\") VALUES (?1, ?2, ?3)");
    assert!(matches!(&ip[..], [SqlParam::Text(_), SqlParam::Text(n), SqlParam::Integer(30)] if n == "Ann"));
    let (del, dp) = build_delete_statement("users", &pk(), &r);
    assert_eq!(del, "DELETE FROM \"users\" WHERE \"id\" = ?1");
    assert_eq!(dp.len(), 1);
    let (ex, _) = build_exists_statement("users", &pk(), &r);
    assert_eq!(ex, "SELECT 1 FROM \"users\" WHERE \"id\" = ?1 LIMIT 1");
    let (up, upp) = build_update_statement("users", &strings(&["name", "age"]), &pk(), &user("u1", "Bo", 31), &r);
    assert_eq!(up, "UPDATE \"users\" SET \"name\" = ?1, \"age\" = ?2 WHERE \"id\" = ?3");
    assert!(matches!(&upp[..], [SqlParam::Text(n), SqlParam::Integer(31), SqlParam::Text(k)] if n == "Bo" && k == "u1"));
}

#[test]
fn missing_columns_bind_null() {
    let mut partial = JsonMap::new();
    partial.insert("id".to_string(), text("u1"));
    let (_, ps) = build_insert_statement("users", &cols(), &partial);
    assert!(matches!(&ps[..], [SqlParam::Text(_), SqlParam::Null, SqlParam::Null]));
}

#[test]
fn write_plans_by_change_kind() {
    let add = build_write_plan("users", &cols(), &pk(), &SourceChange::Add(user("u1", "Ann", 30)));
    assert_eq!(add.len(), 1);
    assert!(add[0].0.starts_with("INSERT INTO"));
    let rm = build_write_plan("users", &cols(), &pk(), &SourceChange::Remove(user("u1", "Ann", 30)));
    assert!(rm[0].0.starts_with("DELETE FROM"));
    let edit = SourceChange::Edit { row: user("u1", "Bo", 31), old_row: user("u1", "Ann", 30) };
    let ed = build_write_plan("users", &cols(), &pk(), &edit);
    assert_eq!(ed.len(), 1);
    assert_eq!(ed[0].0, "UPDATE \"users\" SET \"name\" = ?1, \"age\" = ?2 WHERE \"id\" = ?3");
    let rekey = SourceChange::Edit { row: user("u2", "Ann", 30), old_row: user("u1", "Ann", 30) };
    let rk = build_write_plan("users", &cols(), &pk(), &rekey);
    assert_eq!(rk.len(), 2);
    assert!(rk[0].0.starts_with("DELETE FROM"));
    assert!(matches!(&rk[0].1[..], [SqlParam::Text(k)] if k == "u1"));
    assert!(rk[1].0.starts_with("INSERT INTO"));
    let only_key = build_write_plan("users", &pk(), &pk(), &SourceChange::Edit { row: user("u1", "a", 1), old_row: user("u1", "b", 2) });
    assert_eq!(only_key.len(), 2);
}

#[test]
fn push_errors_name_the_contradiction() {
    let add = SourceChange::Add(user("u1", "Ann", 30));
    assert_eq!(push_error_for(&add, true).unwrap(), "push Add: row already exists in DB");
    assert!(push_error_for(&add, false).is_none());
    let rm = SourceChange::Remove(user("u1", "Ann", 30));
    assert_eq!(push_error_for(&rm, false).unwrap(), "push Remove: row does not exist in DB");
    let ed = SourceChange::Edit { row: user("u1", "Bo", 1), old_row: user("u1", "Ann", 1) };
    assert_eq!(push_error_for(&ed, false).unwrap(), "push Edit: old_row does not exist in DB");
    assert!(push_error_for(&ed, true).is_none());
}

#[test]
fn pushed_changes_become_node_changes() {
    assert!(matches!(source_change_to_change(&SourceChange::Remove(user("u1", "a", 1))), Change::Remove(_)));
}
