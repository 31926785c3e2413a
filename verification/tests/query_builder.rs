use zqlite_rs::json::{json_eq, make_obj1, JsonMap, JsonNumber, JsonValue};
use zqlite_rs::query_builder::{build_select_query, to_sqlite_type, ColumnType, Condition, Start, ValuePosition};

fn num(i: i64) -> JsonValue {
    JsonValue::Number(JsonNumber::from_i64(i))
}

fn text(s: &str) -> JsonValue {
    JsonValue::String(s.to_string())
}

fn col_types() -> Vec<(String, ColumnType)> {
    vec![
        ("id".into(), ColumnType::String),
        ("name".into(), ColumnType::String),
        ("age".into(), ColumnType::Number),
        ("active".into(), ColumnType::Boolean),
        ("meta".into(), ColumnType::Json),
    ]
}

fn same_values(a: &[JsonValue], b: &[JsonValue]) -> bool {
    a.len() == b.len() && a.iter().zip(b.iter()).all(|(x, y)| json_eq(x, y))
}

fn column(name: &str) -> ValuePosition {
    ValuePosition::Column { name: name.into() }
}

fn literal(value: JsonValue) -> ValuePosition {
    ValuePosition::Literal { value }
}

#[test]
fn test_basic_select() {
    let cols = vec!["id".into(), "name".into()];
    let (sql, params) = build_select_query("users", &cols, &col_types(), None, None, None, false, None);
    assert_eq!(sql, r#"SELECT "id", "name" FROM "users""#);
    assert!(params.is_empty());
}

#[test]
fn test_with_constraint() {
    let cols = vec!["id".into(), "name".into()];
    let mut c = JsonMap::new();
    c.insert("id".into(), text("abc"));
    let (sql, params) = build_select_query("users", &cols, &col_types(), Some(&c), None, None, false, None);
    assert_eq!(sql, r#"SELECT "id", "name" FROM "users" WHERE "id" = ?"#);
    assert!(same_values(&params, &[text("abc")]));
}

#[test]
fn test_with_ordering() {
    let cols = vec!["id".into()];
    let order = vec![("name".into(), "asc".into()), ("age".into(), "desc".into())];
    let (sql, _) = build_select_query("users", &cols, &col_types(), None, None, Some(&order), false, None);
    assert_eq!(sql, r#"SELECT "id" FROM "users" ORDER BY "name" asc, "age" desc"#);
}

#[test]
fn test_with_reverse() {
    let cols = vec!["id".into()];
    let order = vec![("name".into(), "asc".into()), ("age".into(), "desc".into())];
    let (sql, _) = build_select_query("users", &cols, &col_types(), None, None, Some(&order), true, None);
    assert_eq!(sql, r#"SELECT "id" FROM "users" ORDER BY "name" desc, "age" asc"#);
}

#[test]
fn test_with_start_simple() {
    let cols = vec!["id".into()];
    let order = vec![("id".into(), "asc".into())];
    let mut row = JsonMap::new();
    row.insert("id".into(), text("x"));
    let start = Start { row, basis: "after".into() };
    let (sql, params) =
        build_select_query("users", &cols, &col_types(), None, None, Some(&order), false, Some(&start));
    assert_eq!(sql, r#"SELECT "id" FROM "users" WHERE (((? IS NULL OR "id" > ?))) ORDER BY "id" asc"#);
    assert!(same_values(&params, &[text("x"), text("x")]));
}

#[test]
fn test_with_start_compound() {
    let cols = vec!["id".into()];
    let order = vec![("name".into(), "asc".into()), ("age".into(), "desc".into())];
    let mut row = JsonMap::new();
    row.insert("name".into(), text("a"));
    row.insert("age".into(), num(10));
    let start = Start { row, basis: "at".into() };
    let (sql, params) =
        build_select_query("users", &cols, &col_types(), None, None, Some(&order), false, Some(&start));
    assert_eq!(
        sql,
        r#"SELECT "id" FROM "users" WHERE (((? IS NULL OR "name" > ?)) OR ("name" IS ? AND ("age" IS NULL OR "age" < ?)) OR ("name" IS ? AND "age" IS ?)) ORDER BY "name" asc, "age" desc"#
    );
    assert!(same_values(&params, &[text("a"), text("a"), text("a"), num(10), text("a"), num(10)]));
}

#[test]
fn test_with_filters_simple() {
    let cols = vec!["id".into()];
    let filter = Condition::Simple { left: column("age"), op: ">".into(), right: literal(num(18)) };
    let (sql, params) = build_select_query("users", &cols, &col_types(), None, Some(&filter), None, false, None);
    assert_eq!(sql, r#"SELECT "id" FROM "users" WHERE "age" > ?"#);
    assert!(same_values(&params, &[num(18)]));
}

#[test]
fn test_with_filters_and_or() {
    let cols = vec!["id".into()];
    let filter = Condition::Or {
        conditions: vec![
            Condition::Simple { left: column("name"), op: "=".into(), right: literal(text("a")) },
            Condition::And {
                conditions: vec![
                    Condition::Simple { left: column("age"), op: ">".into(), right: literal(num(5)) },
                    Condition::Simple { left: column("age"), op: "<".into(), right: literal(num(10)) },
                ],
            },
        ],
    };
    let (sql, params) = build_select_query("users", &cols, &col_types(), None, Some(&filter), None, false, None);
    assert_eq!(sql, r#"SELECT "id" FROM "users" WHERE ("name" = ? OR ("age" > ? AND "age" < ?))"#);
    assert!(same_values(&params, &[text("a"), num(5), num(10)]));
}

#[test]
fn test_to_sqlite_type() {
    assert!(json_eq(&to_sqlite_type(&JsonValue::Bool(true), &ColumnType::Boolean), &num(1)));
    assert!(json_eq(&to_sqlite_type(&JsonValue::Bool(false), &ColumnType::Boolean), &num(0)));
    assert!(json_eq(&to_sqlite_type(&JsonValue::Null, &ColumnType::Boolean), &JsonValue::Null));
    assert!(json_eq(&to_sqlite_type(&make_obj1("a", num(1)), &ColumnType::Json), &text(r#"{"a":1}"#)));
    assert!(json_eq(&to_sqlite_type(&num(42), &ColumnType::Number), &num(42)));
    assert!(json_eq(&to_sqlite_type(&text("hi"), &ColumnType::String), &text("hi")));
}

// A boolean filter literal binds as 0 or 1.
#[test]
fn filter_boolean_literal_binds_as_integer() {
    let cols = vec!["id".into()];
    let filter = Condition::Simple { left: column("active"), op: "=".into(), right: literal(JsonValue::Bool(true)) };
    let (sql, params) = build_select_query("users", &cols, &col_types(), None, Some(&filter), None, false, None);
    assert_eq!(sql, r#"SELECT "id" FROM "users" WHERE "active" = ?"#);
    assert!(same_values(&params, &[num(1)]));
}

// IN takes its list as one JSON text parameter.
#[test]
fn filter_in_binds_json_list() {
    let cols = vec!["id".into()];
    let list = zqlite_rs::json::make_array(vec![num(1), num(2)]);
    let filter = Condition::Simple { left: column("age"), op: "IN".into(), right: literal(list) };
    let (sql, params) = build_select_query("users", &cols, &col_types(), None, Some(&filter), None, false, None);
    assert_eq!(sql, r#"SELECT "id" FROM "users" WHERE "age" IN (SELECT value FROM json_each(?))"#);
    assert!(same_values(&params, &[text("[1,2]")]));
}

// Empty AND and OR groups are TRUE and FALSE.
#[test]
fn filter_empty_groups() {
    let cols = vec!["id".into()];
    let filter = Condition::And { conditions: vec![Condition::Or { conditions: vec![] }] };
    let (sql, params) = build_select_query("users", &cols, &col_types(), None, Some(&filter), None, false, None);
    assert_eq!(sql, r#"SELECT "id" FROM "users" WHERE (FALSE)"#);
    assert!(params.is_empty());
}

#[test]
fn every_parameter_has_its_placeholder() {
    let cols = vec!["id".into(), "name".into()];
    let order = vec![("name".into(), "desc".into()), ("id".into(), "asc".into())];
    let mut row = JsonMap::new();
    row.insert("name".into(), text("m"));
    row.insert("id".into(), num(3));
    let start = Start { row, basis: "after".into() };
    let mut c = JsonMap::new();
    c.insert("org".into(), num(7));
    let filter = Condition::And {
        conditions: vec![
            Condition::Simple { left: column("age"), op: "IN".into(), right: literal(JsonValue::Array(vec![num(1), num(2)])) },
            Condition::Simple { left: literal(num(4)), op: "<".into(), right: column("age") },
        ],
    };
    let (sql, params) =
        build_select_query("users", &cols, &col_types(), Some(&c), Some(&filter), Some(&order), true, Some(&start));
    assert_eq!(sql.matches('?').count(), params.len());
    assert_eq!(params.len(), 1 + 4 + 2);
}
