use zqlite_rs::ast_to_config::{condition_to_predicate_json, Condition, ConditionValue};
use zqlite_rs::hydrate::{
    extract_child_source_info, parse_predicate_json, pk_key, value_to_group_key, Predicate,
};
use zqlite_rs::json::{make_array, make_obj1, make_obj2, JsonMap, JsonNumber, JsonValue, NumberKind};
use zqlite_rs::operators::OperatorConfig;
use zqlite_rs::query_builder::ColumnType;

fn num(i: i64) -> JsonValue {
    JsonValue::Number(JsonNumber::from_i64(i))
}

fn text(s: &str) -> JsonValue {
    JsonValue::String(s.to_string())
}

fn field_op(field: &str, op: &str, value: JsonValue) -> JsonValue {
    make_obj2("field", text(field), op, value)
}

fn parse_err(v: &JsonValue) -> String {
    match parse_predicate_json(v) {
        Err(e) => e,
        Ok(_) => panic!("expected an error"),
    }
}

#[test]
fn comparisons_read_as_their_operator() {
    assert!(matches!(parse_predicate_json(&field_op("a", "eq", num(1))), Ok(Predicate::Eq(f, JsonValue::Number(_))) if f == "a"));
    assert!(matches!(parse_predicate_json(&field_op("a", "neq", num(1))), Ok(Predicate::Neq(..))));
    assert!(matches!(parse_predicate_json(&field_op("a", "gt", num(1))), Ok(Predicate::Gt(..))));
    assert!(matches!(parse_predicate_json(&field_op("a", "lt", num(1))), Ok(Predicate::Lt(..))));
    assert!(matches!(parse_predicate_json(&field_op("a", "gte", num(1))), Ok(Predicate::Gte(..))));
    assert!(matches!(parse_predicate_json(&field_op("a", "lte", num(1))), Ok(Predicate::Lte(..))));
}

#[test]
fn lists_patterns_and_null_checks() {
    match parse_predicate_json(&field_op("id", "in", make_array(vec![num(1), num(2)]))) {
        Ok(Predicate::In(f, vs)) => {
            assert_eq!(f, "id");
            assert_eq!(vs.len(), 2);
        },
        _ => panic!("expected in"),
    }
    assert!(matches!(parse_predicate_json(&field_op("t", "like", text("a%"))), Ok(Predicate::Like(_, p, false)) if p == "a%"));
    assert!(matches!(parse_predicate_json(&field_op("t", "ilike", text("a%"))), Ok(Predicate::Like(_, _, true))));
    assert!(matches!(parse_predicate_json(&field_op("t", "isNull", JsonValue::Bool(true))), Ok(Predicate::IsNull(_))));
    assert!(matches!(parse_predicate_json(&field_op("t", "isNotNull", JsonValue::Bool(true))), Ok(Predicate::IsNotNull(_))));
}

#[test]
fn junctions_and_negation_nest() {
    let p = make_obj1(
        "and",
        make_array(vec![field_op("a", "eq", num(1)), make_obj1("not", make_obj1("or", make_array(vec![])))]),
    );
    match parse_predicate_json(&p) {
        Ok(Predicate::And(ps)) => {
            assert_eq!(ps.len(), 2);
            assert!(matches!(&ps[1], Predicate::Not(inner) if matches!(**inner, Predicate::Or(ref qs) if qs.is_empty())));
        },
        _ => panic!("expected and"),
    }
}

#[test]
fn malformed_predicates_are_refused() {
    assert_eq!(parse_err(&num(1)), "predicate must be an object");
    assert_eq!(parse_err(&make_obj1("field", num(1))), "field must be a string");
    assert_eq!(parse_err(&field_op("a", "in", num(1))), "'in' value must be an array");
    assert_eq!(parse_err(&field_op("a", "like", num(1))), "'like' value must be a string");
    assert_eq!(parse_err(&field_op("a", "ilike", num(1))), "'ilike' value must be a string");
    assert_eq!(parse_err(&field_op("a", "isNull", JsonValue::Bool(false))), "unknown predicate operator for field a");
    assert_eq!(parse_err(&make_obj1("and", num(1))), "and must be an array");
    assert_eq!(parse_err(&make_obj1("or", text("x"))), "or must be an array");
    assert_eq!(parse_err(&make_obj1("x", num(1))), "unknown predicate format");
    let nested = make_obj1("or", make_array(vec![field_op("a", "eq", num(1)), num(2), make_obj1("y", num(3))]));
    assert_eq!(parse_err(&nested), "predicate must be an object");
}

fn simple(op: &str, column: &str, value: JsonValue) -> Condition {
    Condition::Simple {
        op: op.to_string(),
        left: ConditionValue::Column { name: column.to_string() },
        right: ConditionValue::Literal { value },
    }
}

#[test]
fn condition_filters_read_back() {
    let cond = Condition::Or {
        conditions: vec![
            simple("NOT IN", "id", make_array(vec![num(1)])),
            simple("IS NOT", "deleted", JsonValue::Null),
            simple("NOT ILIKE", "title", text("%x%")),
        ],
    };
    let json = condition_to_predicate_json(&cond).unwrap();
    match parse_predicate_json(&json) {
        Ok(Predicate::Or(ps)) => {
            assert!(matches!(&ps[0], Predicate::Not(inner) if matches!(**inner, Predicate::In(..))));
            assert!(matches!(&ps[1], Predicate::IsNotNull(f) if f == "deleted"));
            assert!(matches!(&ps[2], Predicate::Not(inner) if matches!(**inner, Predicate::Like(_, _, true))));
        },
        _ => panic!("expected or"),
    }
}

#[test]
fn group_keys_show_values_as_text() {
    assert_eq!(value_to_group_key(&text("abc")), "abc");
    assert_eq!(value_to_group_key(&num(-4)), "-4");
    let half = JsonValue::Number(JsonNumber {
        kind: NumberKind::Float,
        pos: 0,
        neg: 0,
        f64_bits: 0.5f64.to_bits(),
        raw: serde_json::Number::from_f64(0.5),
    });
    assert_eq!(value_to_group_key(&half), "0.5");
    assert_eq!(value_to_group_key(&JsonValue::Bool(false)), "false");
    assert_eq!(value_to_group_key(&JsonValue::Null), "null");
    assert_eq!(value_to_group_key(&make_array(vec![])), "null");
}

#[test]
fn child_source_info_reads_the_leading_source() {
    let cs = vec![
        OperatorConfig::Source {
            table_name: "comment".to_string(),
            columns: vec!["id".to_string(), "body".to_string(), "id".to_string()],
            primary_key: vec!["id".to_string()],
            sort: vec![("id".to_string(), "asc".to_string())],
        },
        OperatorConfig::Take { limit: 3, sort: vec![], partition_key: None },
    ];
    let (table, cols, types, pk, sort) = extract_child_source_info(&cs).unwrap();
    assert_eq!(table, "comment");
    assert_eq!(cols.len(), 3);
    assert_eq!(types, vec![("id".to_string(), ColumnType::String), ("body".to_string(), ColumnType::String)]);
    assert_eq!(pk, vec!["id".to_string()]);
    assert_eq!(sort, vec![("id".to_string(), "asc".to_string())]);
    assert!(extract_child_source_info(&cs[1..]).is_none());
    assert!(extract_child_source_info(&[]).is_none());
}

#[test]
fn fan_out_key_joins_json_texts() {
    let mut row = JsonMap::new();
    row.insert("a".to_string(), text("x"));
    row.insert("b".to_string(), num(2));
    let pk = vec!["a".to_string(), "b".to_string(), "c".to_string()];
    assert_eq!(pk_key(&pk, &row), "\"x\"\u{1f}2\u{1f}null");
}

#[test]
fn test_parse_predicate_like_case_sensitive() {
    let pred = parse_predicate_json(&field_op("name", "like", text("Foo%"))).expect("parse like");
    assert!(
        matches!(&pred, Predicate::Like(field, pattern, false) if field == "name" && pattern == "Foo%"),
        "expected Predicate::Like(\"name\", \"Foo%\", false)",
    );
}

#[test]
fn test_parse_predicate_ilike_case_insensitive() {
    let pred = parse_predicate_json(&field_op("name", "ilike", text("foo%"))).expect("parse ilike");
    assert!(
        matches!(&pred, Predicate::Like(field, pattern, true) if field == "name" && pattern == "foo%"),
        "expected Predicate::Like(\"name\", \"foo%\", true)",
    );
}

#[test]
fn test_parse_predicate_like_distinguishes_from_ilike() {
    let like_pred = parse_predicate_json(&field_op("name", "like", text("foo%"))).expect("parse like");
    let ilike_pred = parse_predicate_json(&field_op("name", "ilike", text("foo%"))).expect("parse ilike");
    assert!(matches!(&like_pred, Predicate::Like(_, p, false) if p == "foo%"));
    assert!(matches!(&ilike_pred, Predicate::Like(_, p, true) if p == "foo%"));
}
