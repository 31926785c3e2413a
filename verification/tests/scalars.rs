use rusqlite::Connection;
use zqlite_rs::companions::{
    build_companion_query, extract_pk_as_json, format_scalar, json_display, json_values_match,
    query_companion_scalar, scalar_values_equal, sqlite_to_json, CompanionCondition, CompanionInfo,
};
use zqlite_rs::json::{json_eq, make_array, make_obj1, JsonMap, JsonNumber, JsonValue, NumberKind};
use zqlite_rs::sqlite::{json_to_sqlite_value, sqlite_value_to_json, SqlCell, SqlParam};

fn num(i: i64) -> JsonValue {
    JsonValue::Number(JsonNumber::from_i64(i))
}

fn text(s: &str) -> JsonValue {
    JsonValue::String(s.to_string())
}

fn float(x: f64) -> JsonValue {
    JsonValue::Number(JsonNumber {
        kind: NumberKind::Float,
        pos: 0,
        neg: 0,
        f64_bits: x.to_bits(),
        raw: serde_json::Number::from_f64(x),
    })
}

#[test]
fn display_shows_values_as_script_text() {
    assert_eq!(json_display(&JsonValue::Null), "null");
    assert_eq!(json_display(&text("abc")), "abc");
    assert_eq!(json_display(&num(42)), "42");
    assert_eq!(json_display(&num(-7)), "-7");
    assert_eq!(json_display(&num(i64::MIN)), "-9223372036854775808");
    assert_eq!(json_display(&float(1.5)), "1.5");
    assert_eq!(json_display(&JsonValue::Bool(true)), "true");
    assert_eq!(json_display(&make_array(vec![num(1), num(2)])), "[1,2]");
    assert_eq!(json_display(&make_obj1("a", text("x"))), "{\"a\":\"x\"}");
}

#[test]
fn reset_messages_show_null_as_undefined() {
    assert_eq!(format_scalar(&JsonValue::Null), "undefined");
    assert_eq!(format_scalar(&text("abc")), "abc");
    assert_eq!(format_scalar(&float(2.25)), "2.25");
    assert_eq!(format_scalar(&JsonValue::Bool(false)), "false");
    assert_eq!(format_scalar(&make_array(vec![num(3)])), "[3]");
}

#[test]
fn scalars_compare_by_kind_then_by_text() {
    assert!(scalar_values_equal(&JsonValue::Null, &JsonValue::Null));
    assert!(scalar_values_equal(&text("a"), &text("a")));
    assert!(!scalar_values_equal(&text("a"), &text("b")));
    assert!(scalar_values_equal(&num(1), &num(1)));
    assert!(!scalar_values_equal(&num(1), &float(1.0)));
    assert!(scalar_values_equal(&float(0.5), &float(0.5)));
    assert!(scalar_values_equal(&JsonValue::Bool(true), &JsonValue::Bool(true)));
    assert!(!scalar_values_equal(&text("1"), &num(1)));
    assert!(scalar_values_equal(&make_array(vec![num(1)]), &make_array(vec![num(1)])));
}

#[test]
fn values_match_when_they_show_the_same_text() {
    assert!(json_values_match(&text("1"), &num(1)));
    assert!(json_values_match(&JsonValue::Null, &text("null")));
    assert!(json_values_match(&JsonValue::Bool(true), &text("true")));
    assert!(!json_values_match(&num(1), &num(2)));
}

fn row(fields: Vec<(&str, JsonValue)>) -> JsonMap {
    let mut m = JsonMap::new();
    for (k, v) in fields {
        m.insert(k.to_string(), v);
    }
    m
}

#[test]
fn companion_key_is_its_primary_key_or_the_whole_row() {
    let r = row(vec![("id", text("u1")), ("name", text("Ann"))]);
    let k = extract_pk_as_json(&r, &["id".to_string()]);
    assert!(json_eq(&k, &make_obj1("id", text("u1"))));
    let whole = extract_pk_as_json(&r, &[]);
    assert!(json_eq(&whole, &JsonValue::Object(r.duplicate())));
}

fn companion(conds: Vec<(&str, JsonValue)>) -> CompanionInfo {
    CompanionInfo {
        query_id: "q1".to_string(),
        table: "user".to_string(),
        child_field: "name".to_string(),
        resolved_value: JsonValue::Null,
        where_conditions: conds
            .into_iter()
            .map(|(c, v)| CompanionCondition { column: c.to_string(), value: v })
            .collect(),
        primary_key: vec!["id".to_string()],
    }
}

#[test]
fn companion_query_reads_one_field_under_its_conditions() {
    let (sql, params) = build_companion_query(&companion(vec![("id", text("u1")), ("active", JsonValue::Bool(true))]));
    assert_eq!(sql, "SELECT \"name\" FROM \"user\" WHERE \"id\" = ? AND \"active\" = ? LIMIT 1");
    assert!(matches!(&params[0], SqlParam::Text(s) if s == "u1"));
    assert!(matches!(&params[1], SqlParam::Integer(1)));
    let (bare, none) = build_companion_query(&companion(vec![]));
    assert_eq!(bare, "SELECT \"name\" FROM \"user\" LIMIT 1");
    assert!(none.is_empty());
}

#[test]
fn companion_values_from_what_was_read() {
    assert!(json_eq(&sqlite_to_json(None), &JsonValue::Null));
    assert!(json_eq(&sqlite_to_json(Some(SqlCell::Null)), &JsonValue::Null));
    assert!(json_eq(&sqlite_to_json(Some(SqlCell::Integer(5))), &num(5)));
    assert!(json_eq(&sqlite_to_json(Some(SqlCell::Text(b"hi".to_vec()))), &text("hi")));
    assert!(json_eq(&sqlite_to_json(Some(SqlCell::Text(vec![0xff]))), &text("")));
    assert!(json_eq(&sqlite_to_json(Some(SqlCell::Blob(vec![1, 200]))), &make_array(vec![num(1), num(200)])));
}

#[test]
fn companion_scalar_is_read_from_the_database() {
    let path = "file:scalars_companion?mode=memory&cache=shared";
    let conn = Connection::open(path).expect("open");
    conn.execute_batch("CREATE TABLE user (id TEXT PRIMARY KEY, name TEXT); INSERT INTO user VALUES ('u1', 'Ann');")
        .expect("setup");
    let v = query_companion_scalar(path, &companion(vec![("id", text("u1"))]));
    assert!(json_eq(&v, &text("Ann")));
    let missing = query_companion_scalar(path, &companion(vec![("id", text("u9"))]));
    assert!(json_eq(&missing, &JsonValue::Null));
}

#[test]
fn json_values_bind_as_sqlite_parameters() {
    assert!(matches!(json_to_sqlite_value(&JsonValue::Null), SqlParam::Null));
    assert!(matches!(json_to_sqlite_value(&JsonValue::Bool(false)), SqlParam::Integer(0)));
    assert!(matches!(json_to_sqlite_value(&num(-3)), SqlParam::Integer(-3)));
    assert!(matches!(json_to_sqlite_value(&float(0.5)), SqlParam::Real(_)));
    assert!(matches!(json_to_sqlite_value(&text("x")), SqlParam::Text(s) if s == "x"));
    assert!(matches!(json_to_sqlite_value(&make_array(vec![num(1)])), SqlParam::Text(s) if s == "[1]"));
}

#[test]
fn sqlite_cells_read_as_json() {
    assert!(json_eq(&sqlite_value_to_json(&SqlCell::Null), &JsonValue::Null));
    assert!(json_eq(&sqlite_value_to_json(&SqlCell::Integer(9)), &num(9)));
    assert!(json_eq(&sqlite_value_to_json(&SqlCell::Real(float(1.25))), &float(1.25)));
    assert!(json_eq(&sqlite_value_to_json(&SqlCell::Text(b"ok".to_vec())), &text("ok")));
    assert!(json_eq(&sqlite_value_to_json(&SqlCell::Blob(b"hi".to_vec())), &text("aGk=")));
}
