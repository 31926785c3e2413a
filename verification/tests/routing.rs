use rusqlite::Connection;
use zqlite_rs::cascade::{build_descendant_query, build_parent_query, child_row_has_parent};
use zqlite_rs::json::{JsonMap, JsonNumber, JsonValue};
use zqlite_rs::operators::{ExistsBranch, OperatorConfig};
use zqlite_rs::routing::{
    build_child_table_to_op_index, collect_child_table_map, collect_children_of_map,
    collect_rel_to_table_from_configs, kv_insert, ChildRelation, ChildTableInfo,
};
use zqlite_rs::sqlite::SqlParam;

fn num(i: i64) -> JsonValue {
    JsonValue::Number(JsonNumber::from_i64(i))
}

fn text(s: &str) -> JsonValue {
    JsonValue::String(s.to_string())
}

fn strings(xs: &[&str]) -> Vec<String> {
    xs.iter().map(|s| s.to_string()).collect()
}

fn pairs(xs: &[(&str, &str)]) -> Vec<(String, String)> {
    xs.iter().map(|(a, b)| (a.to_string(), b.to_string())).collect()
}

fn source(table: &str, pk: &[&str], sort: &[(&str, &str)]) -> OperatorConfig {
    OperatorConfig::Source {
        table_name: table.to_string(),
        columns: strings(pk),
        primary_key: strings(pk),
        sort: pairs(sort),
    }
}

/// issue ⟶ comments (joined, newest five) and labels (exists check), and an
/// or-exists over assignees and watchers.
fn issue_pipeline() -> Vec<OperatorConfig> {
    vec![
        source("issue", &["id"], &[("id", "asc")]),
        OperatorConfig::Join {
            parent_key: strings(&["id"]),
            child_key: strings(&["issue_id"]),
            relationship_name: "comments".to_string(),
            child: vec![
                source("comment", &["id"], &[("created", "asc"), ("id", "asc")]),
                OperatorConfig::Take { limit: 5, sort: pairs(&[("created", "desc")]), partition_key: None },
            ],
        },
        OperatorConfig::Exists {
            relationship_name: "labels".to_string(),
            not_exists: false,
            parent_key: strings(&["id"]),
            child_key: strings(&["issue_id"]),
            child: vec![source("label", &["issue_id", "name"], &[("issue_id", "asc")])],
            or_condition: None,
        },
        OperatorConfig::OrExists {
            branches: vec![
                ExistsBranch {
                    relationship_name: "assignees".to_string(),
                    not_exists: false,
                    parent_key: strings(&["owner_id"]),
                    child_key: strings(&["id"]),
                    child: vec![source("user", &["id"], &[("id", "asc")])],
                },
                ExistsBranch {
                    relationship_name: "watchers".to_string(),
                    not_exists: true,
                    parent_key: strings(&["id"]),
                    child_key: strings(&["issue_id"]),
                    child: vec![source("watch", &["issue_id", "user_id"], &[("issue_id", "asc")])],
                },
            ],
            or_condition: None,
        },
    ]
}

fn info<'a>(m: &'a Vec<(String, Vec<ChildTableInfo>)>, table: &str) -> &'a Vec<ChildTableInfo> {
    &m.iter().find(|(k, _)| k == table).unwrap().1
}

#[test]
fn child_table_map_names_each_child_tables_parent() {
    let m = collect_child_table_map(&issue_pipeline());
    let tables: Vec<&str> = m.iter().map(|(k, _)| k.as_str()).collect();
    assert_eq!(tables, vec!["comment", "label", "user", "watch"]);
    let c = &info(&m, "comment")[0];
    assert_eq!(c.parent_table, "issue");
    assert_eq!(c.parent_key, strings(&["id"]));
    assert_eq!(c.child_key, strings(&["issue_id"]));
    assert_eq!(c.relationship_name, "comments");
    assert_eq!(c.child_pk, strings(&["id"]));
    let w = &info(&m, "watch")[0];
    assert_eq!(w.relationship_name, "watchers");
    assert_eq!(w.child_pk, strings(&["issue_id", "user_id"]));
    assert_eq!(info(&m, "user")[0].parent_key, strings(&["owner_id"]));
}

#[test]
fn relationship_names_map_to_their_tables() {
    let m = collect_rel_to_table_from_configs(&issue_pipeline());
    assert_eq!(
        m,
        pairs(&[("comments", "comment"), ("labels", "label"), ("assignees", "user"), ("watchers", "watch")])
    );
}

#[test]
fn children_of_takes_order_and_limit_from_the_childs_take() {
    let m = collect_children_of_map(&issue_pipeline());
    assert_eq!(m.len(), 1);
    assert_eq!(m[0].0, "issue");
    let rels = &m[0].1;
    assert_eq!(rels.len(), 1);
    let r = &rels[0];
    assert_eq!(r.child_table, "comment");
    assert_eq!(r.parent_join_col, strings(&["id"]));
    assert_eq!(r.child_join_col, strings(&["issue_id"]));
    assert_eq!(r.child_pk, strings(&["id"]));
    assert_eq!(r.relationship_name, "comments");
    assert_eq!(r.child_order, pairs(&[("created", "desc")]));
    assert_eq!(r.child_limit, Some(5));
}

#[test]
fn op_index_counts_operators_after_the_source() {
    let m = build_child_table_to_op_index(&issue_pipeline());
    let tables: Vec<&str> = m.iter().map(|(k, _)| k.as_str()).collect();
    assert_eq!(tables, vec!["label", "user", "watch"]);
    assert_eq!(m[0].1, vec![(1usize, strings(&["issue_id", "name"]))]);
    assert_eq!(m[1].1, vec![(2usize, strings(&["id"]))]);
    assert_eq!(m[2].1, vec![(2usize, strings(&["issue_id", "user_id"]))]);
}

#[test]
fn op_index_is_empty_without_a_leading_source() {
    let configs = vec![OperatorConfig::Take { limit: 1, sort: vec![], partition_key: None }];
    assert!(build_child_table_to_op_index(&configs).is_empty());
}

#[test]
fn kv_insert_replaces_an_existing_key_in_place() {
    let mut m = pairs(&[("a", "1"), ("b", "2")]);
    kv_insert(&mut m, &"a".to_string(), &"3".to_string());
    kv_insert(&mut m, &"c".to_string(), &"4".to_string());
    assert_eq!(m, pairs(&[("a", "3"), ("b", "2"), ("c", "4")]));
}

fn comment_relation(order: &[(&str, &str)], limit: Option<usize>) -> ChildRelation {
    ChildRelation {
        child_table: "comment".to_string(),
        parent_join_col: strings(&["id"]),
        child_join_col: strings(&["issue_id"]),
        child_pk: strings(&["id"]),
        relationship_name: "comments".to_string(),
        child_order: pairs(order),
        child_limit: limit,
    }
}

fn row(fields: Vec<(&str, JsonValue)>) -> JsonMap {
    let mut m = JsonMap::new();
    for (k, v) in fields {
        m.insert(k.to_string(), v);
    }
    m
}

#[test]
fn descendant_query_orders_upper_cased_and_limits() {
    let rel = comment_relation(&[("created", "desc"), ("id", "asc")], Some(5));
    let (sql, params) = build_descendant_query(&rel, &row(vec![("id", text("i1"))])).unwrap();
    assert_eq!(
        sql,
        "SELECT * FROM \"comment\" WHERE \"issue_id\" = ? ORDER BY \"created\" DESC, \"id\" ASC LIMIT 5"
    );
    assert_eq!(params.len(), 1);
    assert!(matches!(&params[0], SqlParam::Text(s) if s == "i1"));
}

#[test]
fn descendant_query_binds_integers_and_has_no_order_without_one() {
    let rel = comment_relation(&[], None);
    let (sql, params) = build_descendant_query(&rel, &row(vec![("id", num(7))])).unwrap();
    assert_eq!(sql, "SELECT * FROM \"comment\" WHERE \"issue_id\" = ?");
    assert!(matches!(&params[0], SqlParam::Integer(7)));
}

#[test]
fn descendant_query_needs_the_join_value() {
    let rel = comment_relation(&[], None);
    assert!(build_descendant_query(&rel, &row(vec![("title", text("x"))])).is_none());
    assert!(build_descendant_query(&rel, &row(vec![("id", JsonValue::Bool(true))])).is_none());
}

fn comment_info() -> ChildTableInfo {
    ChildTableInfo {
        parent_table: "issue".to_string(),
        parent_key: strings(&["id"]),
        child_key: strings(&["issue_id"]),
        relationship_name: "comments".to_string(),
        child_pk: strings(&["id"]),
    }
}

#[test]
fn parent_query_looks_up_the_parent_by_the_childs_key() {
    let (sql, params) = build_parent_query(&comment_info(), &row(vec![("issue_id", JsonValue::Bool(true))])).unwrap();
    assert_eq!(sql, "SELECT 1 FROM \"issue\" WHERE \"id\" = ? LIMIT 1");
    assert!(matches!(&params[0], SqlParam::Integer(1)));
    assert!(build_parent_query(&comment_info(), &row(vec![("issue_id", JsonValue::Null)])).is_none());
}

#[test]
fn child_row_has_parent_reads_the_database() {
    let path = "file:routing_parent?mode=memory&cache=shared";
    let conn = Connection::open(path).expect("open");
    conn.execute_batch("CREATE TABLE issue (id TEXT PRIMARY KEY); INSERT INTO issue VALUES ('i1');")
        .expect("setup");
    assert!(child_row_has_parent(path, &comment_info(), &row(vec![("issue_id", text("i1"))])));
    assert!(!child_row_has_parent(path, &comment_info(), &row(vec![("issue_id", text("i2"))])));
    assert!(!child_row_has_parent(path, &comment_info(), &row(vec![("body", text("i1"))])));
}
