use rusqlite::Connection;
use zqlite_rs::ast_to_config::{Condition, ConditionValue};
use zqlite_rs::cascade::{emit_child_rows, emit_related_row};
use zqlite_rs::condition_text::with_condition_text;
use zqlite_rs::hydrate::{exists_keeps, fan_out_keep, or_exists_keeps};
use zqlite_rs::source::compare_json_values;
use zqlite_rs::sqlite::SqlCell;
use zqlite_rs::advance::{finish_advance, RowChange};
use zqlite_rs::cascade::{advance_related_change, descendant_removal, emit_pipeline_output, route_change, ChangeRoute};
use zqlite_rs::diff::{diff_entries, Change, DiffError};
use zqlite_rs::json::{json_eq, JsonMap, JsonNumber, JsonValue};
use zqlite_rs::operators::{operator_chain_head, OperatorConfig};
use zqlite_rs::routing::{ChildRelation, ChildTableInfo};
use zqlite_rs::source::{Change as NodeChange, Node, Row};

fn num(i: i64) -> JsonValue {
    JsonValue::Number(JsonNumber::from_i64(i))
}

fn text(s: &str) -> JsonValue {
    JsonValue::String(s.to_string())
}

fn make_row(pairs: Vec<(&str, JsonValue)>) -> Row {
    let mut m = JsonMap::new();
    for (k, v) in pairs {
        m.insert(k.to_string(), v);
    }
    m
}

fn key(id: i64) -> JsonValue {
    JsonValue::Object(make_row(vec![("id", num(id))]))
}

fn change(table: &str, id: i64, row: Option<Row>, t: &str) -> RowChange {
    RowChange { query_id: "q".to_string(), table: table.to_string(), row_key: key(id), row, change_type: t.to_string() }
}

fn children_rel() -> ChildRelation {
    ChildRelation {
        relationship_name: "children".to_string(),
        child_table: "child".to_string(),
        parent_join_col: vec!["id".to_string()],
        child_join_col: vec!["parent_id".to_string()],
        child_pk: vec!["id".to_string()],
        child_order: vec![],
        child_limit: None,
    }
}

fn family_db() -> Connection {
    let conn = Connection::open_in_memory().unwrap();
    conn.execute_batch(
        "CREATE TABLE parent (id INTEGER PRIMARY KEY); \
         CREATE TABLE child (id INTEGER PRIMARY KEY, parent_id INTEGER); \
         INSERT INTO parent VALUES (1),(2); \
         INSERT INTO child VALUES (10,1),(11,1),(20,2);",
    )
    .unwrap();
    conn
}

fn keys_of(cs: &[RowChange]) -> Vec<(String, JsonValue, String)> {
    cs.iter().map(|c| (c.table.clone(), c.row_key.duplicate(), c.change_type.clone())).collect()
}

fn same_keys(cs: &[RowChange], expected: &[(&str, i64, &str)]) -> bool {
    let got = keys_of(cs);
    got.len() == expected.len()
        && got.iter().zip(expected.iter()).all(|((t, k, c), (et, ek, ec))| t == et && json_eq(k, &key(*ek)) && c == ec)
}

#[test]
fn finish_keeps_the_first_of_each_change_and_trims_rows() {
    let full = make_row(vec![("id", num(1)), ("title", text("a")), ("secret", text("x"))]);
    let rcs = vec![
        change("issue", 1, Some(full.duplicate()), "add"),
        change("issue", 1, Some(make_row(vec![("id", num(1))])), "add"),
        change("issue", 1, None, "remove"),
        change("issue", 2, None, "remove"),
        change("issue", 2, None, "remove"),
    ];
    let ct = Some(vec![("issue".to_string(), vec![("id".to_string(), "number".to_string()), ("title".to_string(), "string".to_string())])]);
    let out = finish_advance(rcs, &ct);
    assert!(same_keys(&out, &[("issue", 1, "add"), ("issue", 1, "remove"), ("issue", 2, "remove")]));
    let row = out[0].row.as_ref().unwrap();
    assert_eq!(row.len(), 2);
    assert!(row.get("id").is_some());
    assert!(row.get("title").is_some());
    assert!(row.get("secret").is_none());
}

#[test]
fn finish_without_column_types_keeps_rows_whole() {
    let full = make_row(vec![("id", num(1)), ("secret", text("x"))]);
    let out = finish_advance(vec![change("issue", 1, Some(full), "edit")], &None);
    assert_eq!(out.len(), 1);
    assert_eq!(out[0].row.as_ref().unwrap().len(), 2);
}

#[test]
fn finish_leaves_tables_the_types_do_not_list() {
    let full = make_row(vec![("id", num(1)), ("secret", text("x"))]);
    let ct = Some(vec![("other".to_string(), vec![("id".to_string(), "number".to_string())])]);
    let out = finish_advance(vec![change("issue", 1, Some(full), "add")], &ct);
    assert_eq!(out[0].row.as_ref().unwrap().len(), 2);
}

fn entry(table: &str, op: &str) -> (String, String, JsonValue, String) {
    ("01".to_string(), table.to_string(), key(1), op.to_string())
}

#[test]
fn schema_change_entry_resets_the_diff() {
    let prev = Connection::open_in_memory().unwrap();
    let curr = Connection::open_in_memory().unwrap();
    let entries = vec![entry("issue", "r"), entry("issue", "t")];
    match diff_entries(&prev, &curr, &entries, &vec![], &vec!["issue".to_string()], "permissions") {
        Err(DiffError::Reset(m)) => assert_eq!(m, "schema-change on table issue"),
        _ => panic!("expected a reset"),
    }
}

#[test]
fn truncation_entry_stops_the_diff() {
    let prev = Connection::open_in_memory().unwrap();
    let curr = Connection::open_in_memory().unwrap();
    let entries = vec![entry("issue", "s"), entry("issue", "t")];
    match diff_entries(&prev, &curr, &entries, &vec![], &vec!["issue".to_string()], "permissions") {
        Err(DiffError::Truncate(m)) => assert_eq!(m, "truncation on table issue"),
        _ => panic!("expected a truncation"),
    }
}

#[test]
fn entry_on_an_unknown_table_is_refused() {
    let prev = Connection::open_in_memory().unwrap();
    let curr = Connection::open_in_memory().unwrap();
    match diff_entries(&prev, &curr, &vec![entry("nope", "s")], &vec![], &vec![], "permissions") {
        Err(DiffError::Unknown(m)) => assert_eq!(m, "unknown table: nope"),
        _ => panic!("expected an unknown table"),
    }
}

#[test]
fn entries_on_unsynced_tables_give_nothing() {
    let prev = Connection::open_in_memory().unwrap();
    let curr = Connection::open_in_memory().unwrap();
    let entries = vec![entry("issue", "s"), entry("issue", "d")];
    let out = diff_entries(&prev, &curr, &entries, &vec![], &vec!["issue".to_string()], "permissions");
    assert_eq!(out.ok().map(|cs| cs.len()), Some(0));
}

#[test]
fn descendant_removal_names_the_relationship() {
    let rc = descendant_removal(&children_rel(), "q1", &make_row(vec![("id", num(10)), ("parent_id", num(1))]));
    assert_eq!(rc.query_id, "q1");
    assert_eq!(rc.table, "children");
    assert!(json_eq(&rc.row_key, &key(10)));
    assert!(rc.row.is_none());
    assert_eq!(rc.change_type, "remove");
}

#[test]
fn removed_source_row_takes_its_children_along() {
    let conn = family_db();
    let children_of = vec![("parent".to_string(), vec![children_rel()])];
    let node = Node { row: make_row(vec![("id", num(1))]), relationships: vec![] };
    let mut out = Vec::new();
    emit_pipeline_output(
        Some(&conn),
        "",
        &NodeChange::Remove(node),
        "q",
        "parent",
        &["id".to_string()],
        &vec![],
        &children_of,
        &mut out,
    );
    assert!(same_keys(&out, &[("parent", 1, "remove"), ("children", 10, "remove"), ("children", 11, "remove")]));
}

#[test]
fn removed_source_row_with_related_rows_is_not_cascaded() {
    let conn = family_db();
    let children_of = vec![("parent".to_string(), vec![children_rel()])];
    let child = Node { row: make_row(vec![("id", num(10)), ("parent_id", num(1))]), relationships: vec![] };
    let node = Node { row: make_row(vec![("id", num(1))]), relationships: vec![("children".to_string(), vec![child])] };
    let mut out = Vec::new();
    emit_pipeline_output(
        Some(&conn),
        "",
        &NodeChange::Remove(node),
        "q",
        "parent",
        &["id".to_string()],
        &vec![("child".to_string(), vec!["id".to_string()])],
        &children_of,
        &mut out,
    );
    assert!(out.iter().all(|c| c.change_type == "remove"));
    assert_eq!(out.iter().filter(|c| c.table == "parent").count(), 1);
    assert_eq!(out.len(), 2);
}

fn child_info() -> ChildTableInfo {
    ChildTableInfo {
        parent_table: "parent".to_string(),
        parent_key: vec!["id".to_string()],
        child_key: vec!["parent_id".to_string()],
        relationship_name: "children".to_string(),
        child_pk: vec!["id".to_string()],
    }
}

#[test]
fn related_row_removal_and_add_with_parent() {
    let path = "file:engine_related?mode=memory&cache=shared";
    let keep = Connection::open(path).unwrap();
    keep.execute_batch(
        "CREATE TABLE parent (id INTEGER PRIMARY KEY); INSERT INTO parent VALUES (1);",
    )
    .unwrap();
    let mut out = Vec::new();
    let removed = Change {
        table: "child".to_string(),
        prev_values: vec![make_row(vec![("id", num(10)), ("parent_id", num(1))])],
        next_value: None,
        row_key: key(10),
    };
    advance_related_change(None, "", path, &removed, &vec![child_info()], &vec![], "q", &mut out);
    let added = Change {
        table: "child".to_string(),
        prev_values: vec![],
        next_value: Some(make_row(vec![("id", num(12)), ("parent_id", num(1))])),
        row_key: key(12),
    };
    advance_related_change(None, "", path, &added, &vec![child_info()], &vec![], "q", &mut out);
    let orphan = Change {
        table: "child".to_string(),
        prev_values: vec![],
        next_value: Some(make_row(vec![("id", num(13)), ("parent_id", num(9))])),
        row_key: key(13),
    };
    advance_related_change(None, "", path, &orphan, &vec![child_info()], &vec![], "q", &mut out);
    assert!(same_keys(&out, &[("children", 10, "remove"), ("children", 12, "add")]));
    assert!(out[1].row.is_some());
}

fn source_config() -> OperatorConfig {
    OperatorConfig::Source {
        table_name: "issue".to_string(),
        columns: vec!["id".to_string()],
        primary_key: vec!["id".to_string()],
        sort: vec![("id".to_string(), "asc".to_string())],
    }
}

#[test]
fn chain_head_wants_a_leading_source() {
    assert_eq!(operator_chain_head(&[]), Err("empty operator config".to_string()));
    let filter = OperatorConfig::Filter { predicate: JsonValue::Null };
    assert_eq!(operator_chain_head(&[filter]), Err("first config must be a Source".to_string()));
    assert_eq!(operator_chain_head(&[source_config()]), Ok(0));
    let take = OperatorConfig::Take { limit: 3, sort: vec![], partition_key: None };
    assert_eq!(operator_chain_head(&[source_config(), take]), Ok(1));
}

#[test]
fn changes_route_to_source_operators_related_or_nowhere() {
    let ops: Vec<(String, Vec<(usize, Vec<String>)>)> = vec![("label".to_string(), vec![(0, vec!["id".to_string()])])];
    let related = vec![("child".to_string(), vec![child_info()])];
    assert!(matches!(route_change("issue", "issue", &ops, &related), ChangeRoute::Source));
    assert!(matches!(route_change("label", "issue", &ops, &related), ChangeRoute::Operators));
    assert!(matches!(route_change("child", "issue", &ops, &related), ChangeRoute::Related));
    assert!(matches!(route_change("other", "issue", &ops, &related), ChangeRoute::Ignored));
}

#[test]
fn read_child_rows_are_removed_in_order() {
    let conn = family_db();
    let names = vec!["id".to_string(), "parent_id".to_string()];
    let rows = vec![vec![SqlCell::Integer(10), SqlCell::Integer(1)], vec![SqlCell::Integer(11), SqlCell::Integer(1)]];
    let mut out = Vec::new();
    emit_child_rows(&conn, &children_rel(), &names, &rows, &vec![], "q1", &mut out, 4);
    assert!(same_keys(&out, &[("children", 10, "remove"), ("children", 11, "remove")]));
}

#[test]
fn related_row_appears_only_with_its_parent() {
    let row = make_row(vec![("id", num(12)), ("parent_id", num(1))]);
    let mut out = Vec::new();
    emit_related_row(false, "q", &child_info(), &row, "add", &mut out);
    assert!(out.is_empty());
    emit_related_row(true, "q", &child_info(), &row, "edit", &mut out);
    assert!(same_keys(&out, &[("children", 12, "edit")]));
    assert_eq!(out[0].row.as_ref().unwrap().len(), 2);
}

#[test]
fn unsupported_condition_text_reads_as_its_debug_form() {
    let cond = Condition::Simple {
        op: "=".to_string(),
        left: ConditionValue::Column { name: "a".to_string() },
        right: ConditionValue::Literal { value: num(1) },
    };
    assert_eq!(
        with_condition_text("got ", &cond),
        "got Simple { op: \"=\", left: Column { name: \"a\" }, right: Literal { value: Number(1) } }"
    );
    let or = Condition::Or { conditions: vec![cond] };
    assert!(with_condition_text("", &or).starts_with("Or { conditions: [Simple { op: \"=\""));
}

#[test]
fn exists_operators_keep_rows_by_count_and_condition() {
    assert!(exists_keeps(false, 2, false));
    assert!(!exists_keeps(false, 0, false));
    assert!(exists_keeps(true, 0, false));
    assert!(!exists_keeps(true, 1, false));
    assert!(exists_keeps(true, 1, true));
    assert!(or_exists_keeps(&vec![(false, 0), (true, 0)], false));
    assert!(!or_exists_keeps(&vec![(false, 0), (true, 3)], false));
    assert!(or_exists_keeps(&vec![], true));
}

#[test]
fn fan_out_keeps_the_first_row_of_each_key() {
    let rows = vec![
        make_row(vec![("id", num(1)), ("x", text("a"))]),
        make_row(vec![("id", num(2))]),
        make_row(vec![("id", num(1)), ("x", text("b"))]),
    ];
    assert_eq!(fan_out_keep(&vec!["id".to_string()], &rows), vec![true, true, false]);
}

#[test]
fn integer_numbers_sort_by_value() {
    let a = JsonValue::Number(JsonNumber::from_i64(1));
    let b = JsonValue::Number(JsonNumber::from_i64(2));
    assert_eq!(compare_json_values(&a, &b), std::cmp::Ordering::Less);
}
