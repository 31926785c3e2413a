use rusqlite::Connection;
use zqlite_rs::advance::{collect_split_edit_keys, maybe_split_edit_for_advance, AdvanceResult, RowChange};
use zqlite_rs::ast_to_config::{Ast, Condition, ConditionValue, Correlation, CorrelatedSubquery};
use zqlite_rs::cascade::emit_descendant_removals_with_conn;
use zqlite_rs::encode::encode_advance_result_buf;
use zqlite_rs::json::{json_eq, JsonMap, JsonNumber, JsonValue};
use zqlite_rs::routing::ChildRelation;
use zqlite_rs::source::{Row, SourceChange};

fn num(i: i64) -> JsonValue {
    JsonValue::Number(JsonNumber::from_i64(i))
}

fn text(s: &str) -> JsonValue {
    JsonValue::String(s.to_string())
}

fn make_row(pairs: Vec<(&str, JsonValue)>) -> Row {
    let mut m = JsonMap::new();
    for (k, v) in pairs {
        m.insert(k.to_string(), v);
    }
    m
}

fn bare_ast(table: &str) -> Ast {
    Ast { table: table.to_string(), alias: None, where_cond: None, related: None, limit: None, order_by: None, start: None }
}

fn make_csq(parent_field: Vec<&str>, child_field: Vec<&str>, child_table: &str) -> Box<CorrelatedSubquery> {
    Box::new(CorrelatedSubquery {
        correlation: Correlation {
            parent_field: parent_field.into_iter().map(String::from).collect(),
            child_field: child_field.into_iter().map(String::from).collect(),
        },
        subquery: Box::new(bare_ast(child_table)),
        hidden: None,
        system: None,
    })
}

fn make_csq_with_where(
    parent_field: Vec<&str>,
    child_field: Vec<&str>,
    child_table: &str,
    inner_where: Condition,
) -> Box<CorrelatedSubquery> {
    let mut subquery = bare_ast(child_table);
    subquery.where_cond = Some(Box::new(inner_where));
    Box::new(CorrelatedSubquery {
        correlation: Correlation {
            parent_field: parent_field.into_iter().map(String::from).collect(),
            child_field: child_field.into_iter().map(String::from).collect(),
        },
        subquery: Box::new(subquery),
        hidden: None,
        system: None,
    })
}

fn empty_parent_ast() -> Ast {
    bare_ast("parent")
}

fn simple_eq_cond() -> Condition {
    Condition::Simple {
        op: "=".to_string(),
        left: ConditionValue::Column { name: "name".to_string() },
        right: ConditionValue::Literal { value: text("Alice") },
    }
}

fn exists_cond(related: Box<CorrelatedSubquery>) -> Condition {
    Condition::CorrelatedSubquery { related, op: "EXISTS".to_string(), flip: None, scalar: None }
}

#[test]
fn test_encode_advance_result_buf_roundtrip() {
    let row = make_row(vec![("id", text("u1")), ("name", text("Alice")), ("age", num(30))]);
    let result = AdvanceResult {
        changes: vec![
            RowChange {
                query_id: "q1".to_string(),
                table: "users".to_string(),
                row_key: text("u1"),
                row: Some(row),
                change_type: "add".to_string(),
            },
            RowChange {
                query_id: "q2".to_string(),
                table: "users".to_string(),
                row_key: text("u2"),
                row: None,
                change_type: "remove".to_string(),
            },
        ],
        error: None,
        error_type: None,
        reset_signal: None,
    };

    let buf = encode_advance_result_buf(&result);

    let change_count = u32::from_le_bytes([buf[0], buf[1], buf[2], buf[3]]);
    assert_eq!(change_count, 2);
    assert_eq!(buf[4], 0); // no error
    assert_eq!(buf[5], 0); // the first change is an add
    assert!(buf.len() > 20);
}

#[test]
fn test_encode_advance_result_buf_with_error() {
    let result = AdvanceResult {
        changes: vec![],
        error: Some("something broke".to_string()),
        error_type: Some("RuntimeError".to_string()),
        reset_signal: None,
    };

    let buf = encode_advance_result_buf(&result);
    assert_eq!(u32::from_le_bytes([buf[0], buf[1], buf[2], buf[3]]), 0);
    assert_eq!(buf[4], 1); // has_error

    let err_len = u16::from_le_bytes([buf[5], buf[6]]) as usize;
    assert_eq!(err_len, 15); // "something broke"
    let err_msg = std::str::from_utf8(&buf[7..7 + err_len]).unwrap();
    assert_eq!(err_msg, "something broke");
}

#[test]
fn test_collect_split_edit_keys_csq_in_where() {
    let csq = make_csq(vec!["owner_id"], vec!["parent_id"], "children");
    let mut ast = empty_parent_ast();
    ast.where_cond = Some(Box::new(exists_cond(csq)));

    let keys = collect_split_edit_keys(&ast);
    assert!(keys.contains(&"owner_id".to_string()), "expected 'owner_id' in keys, got {keys:?}");
}

#[test]
fn test_collect_split_edit_keys_csq_nested_in_and() {
    let csq = make_csq(vec!["status"], vec!["status"], "children");
    let mut ast = empty_parent_ast();
    ast.where_cond = Some(Box::new(Condition::And { conditions: vec![simple_eq_cond(), exists_cond(csq)] }));

    let keys = collect_split_edit_keys(&ast);
    assert!(keys.contains(&"status".to_string()), "expected 'status' in keys, got {keys:?}");
}

#[test]
fn test_collect_split_edit_keys_csq_recurses_into_subquery_where() {
    let inner_csq = make_csq(vec!["nested_field"], vec!["nf_id"], "grandchildren");
    let outer_csq = make_csq_with_where(vec!["owner_id"], vec!["parent_id"], "children", exists_cond(inner_csq));
    let mut ast = empty_parent_ast();
    ast.where_cond = Some(Box::new(exists_cond(outer_csq)));

    let keys = collect_split_edit_keys(&ast);
    assert!(
        keys.contains(&"nested_field".to_string()),
        "expected 'nested_field' (from nested EXISTS in subquery where) in keys, got {keys:?}"
    );
    assert!(keys.contains(&"owner_id".to_string()), "expected 'owner_id' (outer EXISTS parent_field) in keys, got {keys:?}");
}

#[test]
fn test_collect_split_edit_keys_no_csq_unchanged() {
    let mut ast = empty_parent_ast();
    ast.where_cond = Some(Box::new(Condition::And {
        conditions: vec![simple_eq_cond(), Condition::Or { conditions: vec![simple_eq_cond(), simple_eq_cond()] }],
    }));

    let keys = collect_split_edit_keys(&ast);
    assert!(keys.is_empty(), "expected no split_edit_keys for non-EXISTS where, got {keys:?}");
}

#[test]
fn test_collect_split_edit_keys_includes_top_level_related() {
    let mut ast = empty_parent_ast();
    ast.related = Some(vec![*make_csq(vec!["a"], vec!["a_id"], "children")]);

    let keys = collect_split_edit_keys(&ast);
    assert!(keys.contains(&"a".to_string()), "expected top-level related parent_field 'a' in keys, got {keys:?}");
}

#[test]
fn test_audit_02_production_ast_shape_does_not_regress() {
    let mut child = bare_ast("children");
    child.alias = Some("c".to_string());
    child.order_by = Some(vec![("id".to_string(), "asc".to_string())]);
    let csq = CorrelatedSubquery {
        correlation: Correlation { parent_field: vec!["child_id".to_string()], child_field: vec!["parent_id".to_string()] },
        subquery: Box::new(child),
        hidden: None,
        system: Some("client".to_string()),
    };
    let mut ast = bare_ast("parents");
    ast.where_cond = Some(Box::new(exists_cond(Box::new(csq))));
    ast.order_by = Some(vec![("id".to_string(), "asc".to_string())]);

    let keys = collect_split_edit_keys(&ast);
    assert_eq!(keys, vec!["child_id".to_string()], "the production AST shape MUST collect child_id into split_edit_keys; got {keys:?}");

    let old_row = make_row(vec![("id", text("p1")), ("child_id", text("A")), ("_0_version", text("123"))]);
    let new_row = make_row(vec![("id", text("p1")), ("child_id", text("B")), ("_0_version", text("124"))]);
    let edit = SourceChange::Edit { row: new_row, old_row: old_row.duplicate() };

    let split = maybe_split_edit_for_advance(edit, &keys);
    assert_eq!(split.len(), 2, "a production-shape Edit MUST split into 2 SourceChanges (Remove + Add)");
    match (&split[0], &split[1]) {
        (SourceChange::Remove(r), SourceChange::Add(a)) => {
            assert!(json_eq(r.get("child_id").unwrap(), &text("A")), "first split element MUST be Remove(old_row) with child_id='A'");
            assert!(json_eq(a.get("child_id").unwrap(), &text("B")), "second split element MUST be Add(new_row) with child_id='B'");
        },
        _ => panic!("the split MUST be exactly [Remove(old), Add(new)]"),
    }

    // When child_id does not change, the edit passes through unchanged.
    let new_row_same = make_row(vec![("id", text("p1")), ("child_id", text("A")), ("_0_version", text("125"))]);
    let edit_same_key = SourceChange::Edit { row: new_row_same, old_row };
    let split_same = maybe_split_edit_for_advance(edit_same_key, &keys);
    assert_eq!(split_same.len(), 1, "membership-preserved Edit MUST pass through unchanged");
    assert!(matches!(split_same[0], SourceChange::Edit { .. }), "passthrough MUST preserve the Edit variant");
}

#[test]
fn test_new1_emit_with_conn_reuses_connection() {
    let conn = Connection::open_in_memory().unwrap();
    conn.execute_batch(
        "CREATE TABLE parent (id INTEGER PRIMARY KEY); \
         CREATE TABLE child (id INTEGER PRIMARY KEY, parent_id INTEGER); \
         INSERT INTO parent VALUES (1),(2),(3); \
         INSERT INTO child VALUES (10,1),(11,1),(20,2),(30,3);",
    )
    .unwrap();

    let children_of = vec![(
        "parent".to_string(),
        vec![ChildRelation {
            relationship_name: "children".to_string(),
            child_table: "child".to_string(),
            parent_join_col: vec!["id".to_string()],
            child_join_col: vec!["parent_id".to_string()],
            child_pk: vec!["id".to_string()],
            child_order: vec![],
            child_limit: None,
        }],
    )];

    // Three deletes on one connection.
    let mut row_changes = Vec::new();
    for pid in 1..=3 {
        let deleted = make_row(vec![("id", num(pid))]);
        emit_descendant_removals_with_conn(&conn, &deleted, "parent", &children_of, "q1", &mut row_changes);
    }
    // Two children of parent 1, one each of parents 2 and 3.
    assert_eq!(row_changes.len(), 4, "expected 4 child removes, got {}", row_changes.len());
    assert!(row_changes.iter().all(|c| c.change_type == "remove" && c.table == "children" && c.row.is_none()));
}

// Removals cascade to grandchildren.
#[test]
fn emit_descendant_removals_cascades() {
    let conn = Connection::open_in_memory().unwrap();
    conn.execute_batch(
        "CREATE TABLE parent (id INTEGER PRIMARY KEY); \
         CREATE TABLE child (id INTEGER PRIMARY KEY, parent_id INTEGER); \
         CREATE TABLE grandchild (id INTEGER PRIMARY KEY, child_id INTEGER); \
         INSERT INTO child VALUES (10,1),(11,1); \
         INSERT INTO grandchild VALUES (100,10),(101,11),(102,12);",
    )
    .unwrap();
    let rel = |name: &str, table: &str, pcol: &str, ccol: &str| ChildRelation {
        relationship_name: name.to_string(),
        child_table: table.to_string(),
        parent_join_col: vec![pcol.to_string()],
        child_join_col: vec![ccol.to_string()],
        child_pk: vec!["id".to_string()],
        child_order: vec![],
        child_limit: None,
    };
    let children_of = vec![
        ("parent".to_string(), vec![rel("children", "child", "id", "parent_id")]),
        ("child".to_string(), vec![rel("grandchildren", "grandchild", "id", "child_id")]),
    ];
    let mut row_changes = Vec::new();
    emit_descendant_removals_with_conn(&conn, &make_row(vec![("id", num(1))]), "parent", &children_of, "q", &mut row_changes);
    let tables: Vec<&str> = row_changes.iter().map(|c| c.table.as_str()).collect();
    assert_eq!(tables, vec!["children", "grandchildren", "children", "grandchildren"]);
}
