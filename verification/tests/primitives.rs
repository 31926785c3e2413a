use std::cmp::Ordering;
use zqlite_rs::advance::RowChange;
use zqlite_rs::encode::{encode_json_value, encode_row_change, encode_row_changes, encode_str};
use zqlite_rs::json::{
    assoc_find, assoc_insert, make_array, make_str, str_eq, JsonMap, JsonNumber, JsonValue, NumberKind,
};
use zqlite_rs::pool::{swap_step, SwapStep, SWAP_STEP_NS};
use zqlite_rs::query_builder::ident;
use zqlite_rs::source::{compare_json_values, field_value_exec, str_less};
use zqlite_rs::text::{copy_strings, join_strings, push_decimal, quote};

fn num(i: i64) -> JsonValue {
    JsonValue::Number(JsonNumber::from_i64(i))
}

fn text(s: &str) -> JsonValue {
    JsonValue::String(s.to_string())
}

fn float(x: f64) -> JsonValue {
    JsonValue::Number(JsonNumber {
        kind: NumberKind::Float,
        pos: 0,
        neg: 0,
        f64_bits: x.to_bits(),
        raw: serde_json::Number::from_f64(x),
    })
}

fn encoded(v: &JsonValue) -> Vec<u8> {
    let mut buf = Vec::new();
    encode_json_value(&mut buf, v);
    buf
}

#[test]
fn strings_encode_as_length_then_utf8() {
    let mut buf = vec![9u8];
    encode_str(&mut buf, "hé");
    assert_eq!(buf, vec![9, 3, 0, b'h', 0xc3, 0xa9]);
}

#[test]
fn values_encode_with_their_tags() {
    assert_eq!(encoded(&JsonValue::Null), vec![0]);
    assert_eq!(encoded(&JsonValue::Bool(true)), vec![5, 1]);
    assert_eq!(encoded(&num(-2)), vec![1, 0xfe, 0xff, 0xff, 0xff, 0xff, 0xff, 0xff, 0xff]);
    let mut f = vec![2u8];
    f.extend_from_slice(&1.5f64.to_bits().to_le_bytes());
    assert_eq!(encoded(&float(1.5)), f);
    assert_eq!(encoded(&text("ab")), vec![3, 2, 0, 0, 0, b'a', b'b']);
    assert_eq!(encoded(&make_array(vec![num(1)])), vec![6, 3, 0, 0, 0, b'[', b'1', b']']);
}

fn change(change_type: &str, with_row: bool) -> RowChange {
    let row = if with_row {
        let mut m = JsonMap::new();
        m.insert("id".to_string(), num(7));
        Some(m)
    } else {
        None
    };
    RowChange {
        query_id: "q".to_string(),
        table: "t".to_string(),
        row_key: num(7),
        row,
        change_type: change_type.to_string(),
    }
}

#[test]
fn row_change_encodes_type_names_key_and_row() {
    let mut buf = Vec::new();
    encode_row_change(&mut buf, &change("edit", true));
    let mut expected = vec![2u8, 1, 0, b'q', 1, 0, b't', 1, 7, 0, 0, 0, 0, 0, 0, 0];
    expected.extend_from_slice(&[1, 1, 0, 2, 0, b'i', b'd', 1, 7, 0, 0, 0, 0, 0, 0, 0]);
    assert_eq!(buf, expected);
}

#[test]
fn row_changes_encode_one_after_another() {
    let mut one = Vec::new();
    encode_row_change(&mut one, &change("remove", false));
    let mut two = Vec::new();
    encode_row_change(&mut two, &change("add", true));
    let mut all = Vec::new();
    encode_row_changes(&mut all, &[change("remove", false), change("add", true)]);
    assert_eq!(one[0], 1);
    assert_eq!(*one.last().unwrap(), 0);
    assert_eq!(two[0], 0);
    one.extend_from_slice(&two);
    assert_eq!(all, one);
}

#[test]
fn text_helpers() {
    assert_eq!(join_strings(&vec!["a".to_string(), "b".to_string()], ", "), "a, b");
    assert_eq!(join_strings(&vec![], ", "), "");
    assert_eq!(quote("col"), "\"col\"");
    assert_eq!(ident("t"), "\"t\"");
    let mut s = "n=".to_string();
    push_decimal(&mut s, 0);
    push_decimal(&mut s, 1234);
    assert_eq!(s, "n=01234");
    let v = vec!["x".to_string()];
    assert_eq!(copy_strings(&v), v);
}

#[test]
fn values_sort_by_kind_then_value() {
    assert_eq!(compare_json_values(&JsonValue::Null, &JsonValue::Bool(false)), Ordering::Less);
    assert_eq!(compare_json_values(&JsonValue::Bool(true), &JsonValue::Bool(false)), Ordering::Greater);
    assert_eq!(compare_json_values(&num(2), &float(1.5)), Ordering::Greater);
    assert_eq!(compare_json_values(&num(-1), &num(3)), Ordering::Less);
    assert_eq!(compare_json_values(&text("b"), &num(100)), Ordering::Greater);
    assert_eq!(compare_json_values(&text("ab"), &text("b")), Ordering::Less);
    assert_eq!(compare_json_values(&make_array(vec![num(1)]), &make_array(vec![])), Ordering::Equal);
    assert!(str_less("a", "ab"));
    assert!(!str_less("b", "ab"));
}

#[test]
fn missing_fields_read_as_null() {
    let mut m = JsonMap::new();
    m.insert("a".to_string(), num(1));
    assert!(matches!(field_value_exec(&m, "b"), JsonValue::Null));
    assert!(matches!(field_value_exec(&m, "a"), JsonValue::Number(_)));
}

#[test]
fn association_lists_replace_in_place() {
    let mut m: Vec<(String, u32)> = vec![("a".to_string(), 1)];
    assoc_insert(&mut m, "b".to_string(), 2);
    assoc_insert(&mut m, "a".to_string(), 3);
    assert_eq!(m, vec![("a".to_string(), 3), ("b".to_string(), 2)]);
    assert_eq!(assoc_find(&m, "b"), Some(&2));
    assert_eq!(assoc_find(&m, "c"), None);
    assert!(str_eq("x", "x"));
    assert!(matches!(make_str("s"), JsonValue::String(s) if s == "s"));
}

#[test]
fn swap_reopens_gives_up_or_waits_within_budget() {
    assert_eq!(swap_step(true, 9, 10, 5), SwapStep::Reopen);
    assert_eq!(swap_step(false, 1, 100, 100), SwapStep::GiveUp);
    assert_eq!(swap_step(false, 1, 0, 1_000_000_000), SwapStep::Wait(SWAP_STEP_NS));
    assert_eq!(swap_step(false, 3, 0, 1_000_000_000), SwapStep::Wait(150_000_000));
    assert_eq!(swap_step(false, 30, 900_000_000, 1_000_000_000), SwapStep::Wait(100_000_000));
}
