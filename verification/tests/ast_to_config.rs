use zqlite_rs::ast_to_config::{condition_to_predicate_json, Condition, ConditionValue};
use zqlite_rs::json::{json_eq, make_array, JsonNumber, JsonValue};

fn num(i: i64) -> JsonValue {
    JsonValue::Number(JsonNumber::from_i64(i))
}

fn text(s: &str) -> JsonValue {
    JsonValue::String(s.to_string())
}

fn key<'a>(v: &'a JsonValue, k: &str) -> &'a JsonValue {
    match v {
        JsonValue::Object(m) => m.get(k).unwrap(),
        _ => panic!("not an object"),
    }
}

fn simple(op: &str, column: &str, value: JsonValue) -> Condition {
    Condition::Simple {
        op: op.to_string(),
        left: ConditionValue::Column { name: column.to_string() },
        right: ConditionValue::Literal { value },
    }
}

#[test]
fn test_condition_to_predicate_eq() {
    let cond = simple("=", "status", text("open"));
    let pred = condition_to_predicate_json(&cond).unwrap();
    assert!(json_eq(key(&pred, "field"), &text("status")));
    assert!(json_eq(key(&pred, "eq"), &text("open")));
}

#[test]
fn test_condition_to_predicate_is_null() {
    let cond = simple("IS", "deleted_at", JsonValue::Null);
    let pred = condition_to_predicate_json(&cond).unwrap();
    assert!(json_eq(key(&pred, "field"), &text("deleted_at")));
    assert!(json_eq(key(&pred, "isNull"), &JsonValue::Bool(true)));
}

#[test]
fn test_condition_to_predicate_in() {
    let cond = simple("IN", "id", make_array(vec![num(1), num(2), num(3)]));
    let pred = condition_to_predicate_json(&cond).unwrap();
    assert!(json_eq(key(&pred, "field"), &text("id")));
    assert!(json_eq(key(&pred, "in"), &make_array(vec![num(1), num(2), num(3)])));
}

#[test]
fn test_condition_to_predicate_and() {
    let cond = Condition::And { conditions: vec![simple("=", "a", num(1)), simple(">", "b", num(5))] };
    let pred = condition_to_predicate_json(&cond).unwrap();
    match key(&pred, "and") {
        JsonValue::Array(arr) => assert_eq!(arr.len(), 2),
        _ => panic!("expected an array"),
    }
}

// An operator the predicate language lacks is refused.
#[test]
fn condition_to_predicate_unsupported_operator() {
    let cond = simple("~~", "a", num(1));
    assert_eq!(condition_to_predicate_json(&cond).err().unwrap(), "Unsupported operator: ~~");
}
