use zqlite_rs::advance::{
    changes_to_row_changes_direct, coerce_row, coerce_value, diff_change_to_source_changes,
    flatten_ivm_change_to_row_changes, flatten_nodes_to_row_changes, ivm_change_to_row_changes,
    source_change_to_ivm_change, FullPipelineConfig, RowChange,
};
use zqlite_rs::diff::Change as DiffChange;
use zqlite_rs::json::{json_eq, make_obj1, JsonMap, JsonNumber, JsonValue};
use zqlite_rs::source::{Change, ChildChange, Node, Row, SourceChange};

fn num(i: i64) -> JsonValue {
    JsonValue::Number(JsonNumber::from_i64(i))
}

fn text(s: &str) -> JsonValue {
    JsonValue::String(s.to_string())
}

fn strings(xs: &[&str]) -> Vec<String> {
    xs.iter().map(|s| s.to_string()).collect()
}

fn row(fields: Vec<(&str, JsonValue)>) -> Row {
    let mut m = JsonMap::new();
    for (k, v) in fields {
        m.insert(k.to_string(), v);
    }
    m
}

fn field<'a>(r: &'a Row, k: &str) -> &'a JsonValue {
    r.get(k).unwrap()
}

fn leaf(r: Row) -> Node {
    Node { row: r, relationships: vec![] }
}

fn issue(id: &str, title: &str) -> Row {
    row(vec![("id", text(id)), ("title", text(title))])
}

fn diff_change(prev: Vec<Row>, next: Option<Row>) -> DiffChange {
    DiffChange { table: "issue".to_string(), prev_values: prev, next_value: next, row_key: text("k") }
}

#[test]
fn a_new_row_is_an_add_and_a_gone_row_a_remove() {
    let pk = strings(&["id"]);
    let add = diff_change_to_source_changes(&diff_change(vec![], Some(issue("1", "a"))), &pk);
    assert!(matches!(&add[..], [SourceChange::Add(_)]));
    let gone = diff_change_to_source_changes(&diff_change(vec![issue("1", "a"), issue("2", "b")], None), &pk);
    assert!(matches!(&gone[..], [SourceChange::Remove(_), SourceChange::Remove(_)]));
    assert!(diff_change_to_source_changes(&diff_change(vec![], None), &pk).is_empty());
}

#[test]
fn same_key_is_an_edit_and_a_new_key_a_remove_then_add() {
    let pk = strings(&["id"]);
    let edit = diff_change_to_source_changes(&diff_change(vec![issue("1", "a")], Some(issue("1", "b"))), &pk);
    match &edit[..] {
        [SourceChange::Edit { row, old_row }] => {
            assert!(json_eq(field(row, "title"), &text("b")));
            assert!(json_eq(field(old_row, "title"), &text("a")));
        },
        _ => panic!("expected one edit"),
    }
    let moved = diff_change_to_source_changes(&diff_change(vec![issue("1", "a")], Some(issue("2", "a"))), &pk);
    assert!(matches!(&moved[..], [SourceChange::Remove(_), SourceChange::Add(_)]));
}

#[test]
fn source_changes_become_leaf_node_changes() {
    match source_change_to_ivm_change(&SourceChange::Edit { row: issue("1", "b"), old_row: issue("1", "a") }) {
        Change::Edit { node, old_node } => {
            assert!(node.relationships.is_empty());
            assert!(json_eq(field(&old_node.row, "title"), &text("a")));
        },
        _ => panic!("expected an edit"),
    }
    assert!(matches!(source_change_to_ivm_change(&SourceChange::Add(issue("1", "a"))), Change::Add(_)));
}

#[test]
fn node_changes_key_their_rows_by_primary_key() {
    let pk = strings(&["id"]);
    let rs = ivm_change_to_row_changes(&Change::Remove(leaf(issue("1", "a"))), "q", "issue", &pk);
    assert_eq!(rs.len(), 1);
    assert_eq!(rs[0].change_type, "remove");
    assert_eq!(rs[0].query_id, "q");
    assert!(rs[0].row.is_none());
    assert!(json_eq(&rs[0].row_key, &make_obj1("id", text("1"))));
    let child = Change::Child {
        node: leaf(issue("1", "a")),
        child: Box::new(ChildChange { relationship_name: "comments".to_string(), change: Change::Add(leaf(row(vec![]))) }),
    };
    let cs = ivm_change_to_row_changes(&child, "q", "issue", &pk);
    assert_eq!(cs[0].change_type, "child");
    assert!(matches!(cs[0].row_key, JsonValue::Null));
}

#[test]
fn flattened_adds_carry_their_related_rows() {
    let comment = row(vec![("id", text("c1")), ("issue_id", text("1"))]);
    let node = Node { row: issue("1", "a"), relationships: vec![("comments".to_string(), vec![leaf(comment)])] };
    let pks = vec![("comments".to_string(), strings(&["id"]))];
    let mut out: Vec<RowChange> = Vec::new();
    flatten_ivm_change_to_row_changes(&mut out, &Change::Add(node), "q", "issue", &strings(&["id"]), &pks);
    assert_eq!(out.len(), 2);
    assert_eq!(out[0].table, "issue");
    assert_eq!(out[1].table, "comments");
    assert_eq!(out[1].change_type, "add");
    assert!(json_eq(&out[1].row_key, &make_obj1("id", text("c1"))));
}

#[test]
fn flattened_child_change_edits_the_parent_then_changes_the_child() {
    let child = Change::Child {
        node: leaf(issue("1", "a")),
        child: Box::new(ChildChange {
            relationship_name: "comments".to_string(),
            change: Change::Remove(leaf(row(vec![("id", text("c1")), ("body", text("x"))]))),
        }),
    };
    let mut out: Vec<RowChange> = Vec::new();
    flatten_ivm_change_to_row_changes(&mut out, &child, "q", "issue", &strings(&["id"]), &vec![]);
    assert_eq!(out.len(), 2);
    assert_eq!(out[0].change_type, "edit");
    assert_eq!(out[1].change_type, "remove");
    // without a known primary key the related row is its own key
    assert!(json_eq(&out[1].row_key, &JsonValue::Object(row(vec![("id", text("c1")), ("body", text("x"))]))));
}

fn issue_types() -> Option<Vec<(String, Vec<(String, String)>)>> {
    Some(vec![(
        "issue".to_string(),
        vec![("id".to_string(), "string".to_string()), ("open".to_string(), "boolean".to_string())],
    )])
}

#[test]
fn coercion_keeps_the_typed_columns_only() {
    let r = row(vec![("id", text("1")), ("open", num(1)), ("extra", num(5))]);
    let typed = coerce_row(&r, "issue", &issue_types()).unwrap();
    assert_eq!(typed.len(), 2);
    assert!(json_eq(field(&typed, "open"), &JsonValue::Bool(true)));
    assert!(typed.get("extra").is_none());
    assert!(coerce_row(&r, "other", &issue_types()).is_none());
    assert_eq!(coerce_row(&r, "other", &None).unwrap().len(), 3);
    let missing = coerce_row(&row(vec![("id", text("1"))]), "issue", &issue_types()).unwrap();
    assert!(matches!(field(&missing, "open"), JsonValue::Null));
}

#[test]
fn values_coerce_to_client_types() {
    assert!(json_eq(&coerce_value(num(0), "boolean"), &JsonValue::Bool(false)));
    assert!(json_eq(&coerce_value(text("{\"a\":1}"), "json"), &make_obj1("a", num(1))));
    assert!(json_eq(&coerce_value(text("not json"), "json"), &text("not json")));
    assert!(matches!(coerce_value(JsonValue::Null, "boolean"), JsonValue::Null));
    assert!(json_eq(&coerce_value(num(3), "number"), &num(3)));
}

#[test]
fn hydrated_nodes_flatten_with_coerced_rows() {
    let nodes = vec![leaf(row(vec![("id", text("1")), ("open", num(0))]))];
    let mut out: Vec<RowChange> = Vec::new();
    flatten_nodes_to_row_changes(&mut out, "q", "issue", &strings(&["id"]), &nodes, &vec![], &issue_types(), &vec![]);
    assert_eq!(out.len(), 1);
    assert_eq!(out[0].change_type, "add");
    assert!(json_eq(field(out[0].row.as_ref().unwrap(), "open"), &JsonValue::Bool(false)));
}

#[test]
fn direct_changes_cover_only_the_source_table() {
    let pipeline = FullPipelineConfig {
        query_id: "q".to_string(),
        source_table: "issue".to_string(),
        operator_config: vec![],
        primary_key: strings(&["id"]),
        split_edit_keys: vec![],
        column_types: None,
        all_primary_keys: vec![],
        rel_to_table: vec![],
    };
    let mut other = diff_change(vec![], Some(issue("9", "z")));
    other.table = "label".to_string();
    let changes = vec![diff_change(vec![issue("1", "a")], Some(issue("1", "b"))), other];
    let rs = changes_to_row_changes_direct(&changes, &pipeline, "issue", &strings(&["id"]));
    assert_eq!(rs.len(), 1);
    assert_eq!(rs[0].change_type, "edit");
    assert!(json_eq(&rs[0].row_key, &make_obj1("id", text("1"))));
}
