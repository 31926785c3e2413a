use rusqlite::Connection;
use zqlite_rs::companions::{check_companions_and_emit, decide_companions, CompanionCondition, CompanionInfo, CompanionResult};
use zqlite_rs::diff::Change;
use zqlite_rs::json::{json_eq, JsonMap, JsonNumber, JsonValue};

fn num(i: i64) -> JsonValue {
    JsonValue::Number(JsonNumber::from_i64(i))
}

fn text(s: &str) -> JsonValue {
    JsonValue::String(s.to_string())
}

/// A shared in-memory database with a `prefs` table of (k, v) pairs; the
/// returned connection keeps it alive.
fn build_prefs_db(name: &str, initial: &[(&str, i64)]) -> (String, Connection) {
    let path = format!("file:{}?mode=memory&cache=shared", name);
    let conn = Connection::open(&path).unwrap();
    conn.execute_batch("CREATE TABLE prefs (k TEXT PRIMARY KEY, v INTEGER NOT NULL);").unwrap();
    for (k, v) in initial {
        conn.execute("INSERT INTO prefs (k, v) VALUES (?1, ?2)", (k, v)).unwrap();
    }
    (path, conn)
}

/// A companion watching `prefs.v WHERE k = 'limit'`.
fn make_companion(resolved: JsonValue) -> CompanionInfo {
    CompanionInfo {
        query_id: "q1".to_string(),
        table: "prefs".to_string(),
        child_field: "v".to_string(),
        resolved_value: resolved,
        where_conditions: vec![CompanionCondition { column: "k".to_string(), value: text("limit") }],
        primary_key: vec!["k".to_string()],
    }
}

fn prefs_row(v: i64) -> JsonMap {
    let mut m = JsonMap::new();
    m.insert("k".to_string(), text("limit"));
    m.insert("v".to_string(), num(v));
    m
}

/// An edit of the prefs row, so that the companion's table counts as changed.
fn make_prefs_change(prev_v: i64, next_v: i64) -> Change {
    Change { table: "prefs".to_string(), prev_values: vec![prefs_row(prev_v)], next_value: Some(prefs_row(next_v)), row_key: text("limit") }
}

#[test]
fn b12_resolved_value_updated_after_advance() {
    let (db_path, db) = build_prefs_db("prefs_b12_updated", &[("limit", 10)]);
    let mut companions = vec![("q1".to_string(), vec![make_companion(num(10))])];
    let changed_tables = vec!["prefs".to_string()];

    let changes = vec![make_prefs_change(9, 10)];
    match check_companions_and_emit(&mut companions, &changes, &changed_tables, &db_path) {
        CompanionResult::Changes(_) => {},
        CompanionResult::Reset(reason) => panic!("baseline pre-condition broken: unexpected reset: {reason}"),
    }
    assert!(json_eq(&companions[0].1[0].resolved_value, &num(10)), "resolved_value must be refreshed post-advance");

    db.execute("UPDATE prefs SET v = 20 WHERE k = 'limit'", []).unwrap();

    let changes2 = vec![make_prefs_change(10, 20)];
    match check_companions_and_emit(&mut companions, &changes2, &changed_tables, &db_path) {
        CompanionResult::Reset(_) => {},
        CompanionResult::Changes(_) => panic!("sanity broken: scalar drift 10→20 must emit Reset"),
    }
    assert!(
        json_eq(&companions[0].1[0].resolved_value, &num(10)),
        "on reset, resolved_value must be left untouched (caller rehydrates)"
    );
}

#[test]
fn b12_no_spurious_reset_after_baseline_refresh() {
    let (db_path, _db) = build_prefs_db("prefs_b12_no_spurious", &[("limit", 42)]);
    let mut companions = vec![("q1".to_string(), vec![make_companion(num(42))])];
    let changed_tables = vec!["prefs".to_string()];
    let changes = vec![make_prefs_change(41, 42)];

    for i in 0..2 {
        match check_companions_and_emit(&mut companions, &changes, &changed_tables, &db_path) {
            CompanionResult::Changes(_) => {},
            CompanionResult::Reset(reason) => {
                panic!("advance #{i} must not reset (scalar unchanged); got reset: {reason}")
            },
        }
        assert!(
            json_eq(&companions[0].1[0].resolved_value, &num(42)),
            "resolved_value must remain in sync with DB across advances"
        );
    }
}

// The reset reason names the query and the value change.
#[test]
fn companion_reset_reason() {
    let (db_path, _db) = build_prefs_db("prefs_reset_reason", &[("limit", 7)]);
    let mut companions = vec![("q1".to_string(), vec![make_companion(num(5))])];
    let changed_tables = vec!["prefs".to_string()];
    match check_companions_and_emit(&mut companions, &[make_prefs_change(5, 7)], &changed_tables, &db_path) {
        CompanionResult::Reset(reason) => assert!(reason.starts_with("Scalar subquery value changed for ")),
        CompanionResult::Changes(_) => panic!("expected a reset"),
    }
}

#[test]
fn decision_keeps_equal_values_and_adopts_the_read() {
    let mut companions = vec![("q1".to_string(), vec![make_companion(num(10))])];
    let changed_tables = vec!["prefs".to_string()];
    let reads = vec![vec![num(10)]];
    match decide_companions(&mut companions, &[make_prefs_change(9, 10)], &changed_tables, &reads) {
        CompanionResult::Changes(cs) => assert_eq!(cs.len(), 1),
        CompanionResult::Reset(reason) => panic!("unexpected reset: {reason}"),
    }
    assert!(json_eq(&companions[0].1[0].resolved_value, &num(10)));
}

#[test]
fn decision_resets_on_a_changed_value() {
    let mut companions = vec![("q1".to_string(), vec![make_companion(num(10))])];
    let changed_tables = vec!["prefs".to_string()];
    let reads = vec![vec![num(20)]];
    match decide_companions(&mut companions, &[make_prefs_change(10, 20)], &changed_tables, &reads) {
        CompanionResult::Reset(reason) => assert_eq!(reason, "Scalar subquery value changed for prefs: 10 -> 20"),
        CompanionResult::Changes(_) => panic!("expected a reset"),
    }
    assert!(json_eq(&companions[0].1[0].resolved_value, &num(10)));
}

#[test]
fn decision_ignores_unchecked_companions() {
    let mut companions = vec![("q1".to_string(), vec![make_companion(num(10))])];
    let reads = vec![vec![num(99)]];
    match decide_companions(&mut companions, &[], &vec!["other".to_string()], &reads) {
        CompanionResult::Changes(cs) => assert!(cs.is_empty()),
        CompanionResult::Reset(reason) => panic!("unexpected reset: {reason}"),
    }
    assert!(json_eq(&companions[0].1[0].resolved_value, &num(10)));
}
