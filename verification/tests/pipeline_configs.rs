use rusqlite::Connection;
use zqlite_rs::ast_to_config::{
    ast_to_operator_configs, collect_child_tables, Ast, Condition, ConditionValue, CorrelatedSubquery,
    Correlation, SchemaCache, StartBound, EXISTS_LIMIT, PERMISSIONS_EXISTS_LIMIT, table_info_from_read,
};
use zqlite_rs::json::{json_eq, make_array, make_obj1, JsonNumber, JsonValue};
use zqlite_rs::operators::OperatorConfig;

fn num(i: i64) -> JsonValue {
    JsonValue::Number(JsonNumber::from_i64(i))
}

fn text(s: &str) -> JsonValue {
    JsonValue::String(s.to_string())
}

fn strings(xs: &[&str]) -> Vec<String> {
    xs.iter().map(|s| s.to_string()).collect()
}

/// A shared in-memory database with an issue tracker's tables; the returned
/// connection keeps it alive.
fn tracker_db(name: &str) -> (String, Connection) {
    let path = format!("file:{}?mode=memory&cache=shared", name);
    let conn = Connection::open(&path).expect("open");
    conn.execute_batch(
        "CREATE TABLE issue (id TEXT PRIMARY KEY, title TEXT, owner_id TEXT, open INTEGER);
         CREATE TABLE comment (id TEXT PRIMARY KEY, issue_id TEXT, body TEXT);
         CREATE TABLE label (issue_id TEXT, name TEXT, PRIMARY KEY (issue_id, name));",
    )
    .expect("schema");
    (path, conn)
}

fn table_ast(table: &str) -> Ast {
    Ast { table: table.to_string(), alias: None, where_cond: None, related: None, limit: None, order_by: None, start: None }
}

fn simple(op: &str, column: &str, value: JsonValue) -> Condition {
    Condition::Simple {
        op: op.to_string(),
        left: ConditionValue::Column { name: column.to_string() },
        right: ConditionValue::Literal { value },
    }
}

fn subquery(table: &str, alias: Option<&str>, parent: &str, child: &str) -> CorrelatedSubquery {
    let mut ast = table_ast(table);
    ast.alias = alias.map(|a| a.to_string());
    CorrelatedSubquery {
        correlation: Correlation { parent_field: strings(&[parent]), child_field: strings(&[child]) },
        subquery: Box::new(ast),
        hidden: None,
        system: None,
    }
}

fn exists_check(table: &str, op: &str) -> Condition {
    Condition::CorrelatedSubquery {
        related: Box::new(subquery(table, None, "id", "issue_id")),
        op: op.to_string(),
        flip: None,
        scalar: None,
    }
}

fn field_eq(field: &str, value: JsonValue) -> JsonValue {
    let mut m = zqlite_rs::json::JsonMap::new();
    m.insert("field".to_string(), text(field));
    m.insert("eq".to_string(), value);
    JsonValue::Object(m)
}

fn configs_for(name: &str, ast: &Ast) -> Result<Vec<OperatorConfig>, String> {
    let (path, _conn) = tracker_db(name);
    let mut schema = SchemaCache::new(&path);
    ast_to_operator_configs(&mut schema, ast, &strings(&["id"]))
}

fn sort_pairs(s: &Vec<(String, String)>) -> Vec<(&str, &str)> {
    s.iter().map(|(a, b)| (a.as_str(), b.as_str())).collect()
}

fn child_source_table(child: &Vec<OperatorConfig>) -> String {
    match &child[0] {
        OperatorConfig::Source { table_name, .. } => table_name.clone(),
        _ => panic!("child pipeline does not start with a source"),
    }
}

fn take_limit(c: &OperatorConfig) -> usize {
    match c {
        OperatorConfig::Take { limit, .. } => *limit,
        _ => panic!("expected a take"),
    }
}

#[test]
fn plain_table_reads_its_columns_and_sorts_by_key() {
    let cs = configs_for("pc_plain", &table_ast("issue")).unwrap();
    assert_eq!(cs.len(), 1);
    match &cs[0] {
        OperatorConfig::Source { table_name, columns, primary_key, sort } => {
            assert_eq!(table_name, "issue");
            assert_eq!(columns, &strings(&["id", "title", "owner_id", "open"]));
            assert_eq!(primary_key, &strings(&["id"]));
            assert_eq!(sort_pairs(sort), vec![("id", "asc")]);
        },
        _ => panic!("expected a source"),
    }
}

#[test]
fn condition_start_and_limit_follow_the_source_in_order() {
    let mut ast = table_ast("issue");
    ast.where_cond = Some(Box::new(simple("=", "open", num(1))));
    ast.order_by = Some(vec![("title".to_string(), "desc".to_string())]);
    ast.start = Some(StartBound { row: text("bound"), exclusive: true });
    ast.limit = Some(10);
    let cs = configs_for("pc_order", &ast).unwrap();
    assert_eq!(cs.len(), 4);
    match &cs[0] {
        OperatorConfig::Source { sort, .. } => assert_eq!(sort_pairs(sort), vec![("title", "desc"), ("id", "asc")]),
        _ => panic!("expected a source"),
    }
    match &cs[1] {
        OperatorConfig::Skip { bound_row, exclusive, sort } => {
            assert!(json_eq(bound_row, &text("bound")));
            assert!(*exclusive);
            assert_eq!(sort_pairs(sort), vec![("title", "desc"), ("id", "asc")]);
        },
        _ => panic!("expected a skip"),
    }
    match &cs[2] {
        OperatorConfig::Filter { predicate } => assert!(json_eq(predicate, &field_eq("open", num(1)))),
        _ => panic!("expected a filter"),
    }
    match &cs[3] {
        OperatorConfig::Take { limit, partition_key, .. } => {
            assert_eq!(*limit, 10);
            assert!(partition_key.is_none());
        },
        _ => panic!("expected a take"),
    }
}

#[test]
fn related_subquery_becomes_a_join_named_by_its_alias() {
    let mut ast = table_ast("issue");
    ast.related = Some(vec![subquery("comment", Some("comments"), "id", "issue_id")]);
    let cs = configs_for("pc_join", &ast).unwrap();
    assert_eq!(cs.len(), 2);
    match &cs[1] {
        OperatorConfig::Join { parent_key, child_key, relationship_name, child } => {
            assert_eq!(parent_key, &strings(&["id"]));
            assert_eq!(child_key, &strings(&["issue_id"]));
            assert_eq!(relationship_name, "comments");
            assert_eq!(child.len(), 1);
            assert_eq!(child_source_table(child), "comment");
        },
        _ => panic!("expected a join"),
    }
}

#[test]
fn join_child_is_keyed_by_the_child_tables_primary_key() {
    let mut ast = table_ast("issue");
    ast.related = Some(vec![subquery("label", None, "id", "issue_id")]);
    let cs = configs_for("pc_join_pk", &ast).unwrap();
    match &cs[1] {
        OperatorConfig::Join { relationship_name, child, .. } => {
            assert_eq!(relationship_name, "label");
            match &child[0] {
                OperatorConfig::Source { primary_key, sort, .. } => {
                    assert_eq!(primary_key, &strings(&["issue_id", "name"]));
                    assert_eq!(sort_pairs(sort), vec![("issue_id", "asc"), ("name", "asc")]);
                },
                _ => panic!("expected a source"),
            }
        },
        _ => panic!("expected a join"),
    }
}

#[test]
fn exists_condition_bounds_its_child_by_the_exists_limit() {
    let mut ast = table_ast("issue");
    ast.where_cond = Some(Box::new(exists_check("comment", "EXISTS")));
    let cs = configs_for("pc_exists", &ast).unwrap();
    assert_eq!(cs.len(), 2);
    match &cs[1] {
        OperatorConfig::Exists { relationship_name, not_exists, child, or_condition, .. } => {
            assert_eq!(relationship_name, "comment");
            assert!(!*not_exists);
            assert!(or_condition.is_none());
            assert_eq!(child.len(), 2);
            assert_eq!(take_limit(&child[1]), EXISTS_LIMIT);
        },
        _ => panic!("expected an exists check"),
    }
}

#[test]
fn not_exists_for_permissions_uses_its_own_limit() {
    let mut sub = subquery("comment", None, "id", "issue_id");
    sub.system = Some("permissions".to_string());
    let mut ast = table_ast("issue");
    ast.where_cond = Some(Box::new(Condition::CorrelatedSubquery {
        related: Box::new(sub),
        op: "NOT EXISTS".to_string(),
        flip: None,
        scalar: None,
    }));
    let cs = configs_for("pc_not_exists", &ast).unwrap();
    match &cs[1] {
        OperatorConfig::Exists { not_exists, child, .. } => {
            assert!(*not_exists);
            assert_eq!(take_limit(&child[1]), PERMISSIONS_EXISTS_LIMIT);
        },
        _ => panic!("expected an exists check"),
    }
}

#[test]
fn flipped_exists_child_has_no_limit() {
    let mut ast = table_ast("issue");
    ast.where_cond = Some(Box::new(Condition::CorrelatedSubquery {
        related: Box::new(subquery("comment", None, "id", "issue_id")),
        op: "EXISTS".to_string(),
        flip: Some(true),
        scalar: None,
    }));
    let cs = configs_for("pc_flip", &ast).unwrap();
    match &cs[1] {
        OperatorConfig::Exists { child, .. } => assert_eq!(child.len(), 1),
        _ => panic!("expected an exists check"),
    }
}

#[test]
fn and_gives_its_filters_and_exists_checks_in_order() {
    let mut ast = table_ast("issue");
    ast.where_cond = Some(Box::new(Condition::And {
        conditions: vec![simple("=", "open", num(1)), exists_check("comment", "EXISTS"), simple("=", "title", text("x"))],
    }));
    let cs = configs_for("pc_and", &ast).unwrap();
    assert_eq!(cs.len(), 4);
    assert!(matches!(&cs[1], OperatorConfig::Filter { .. }));
    assert!(matches!(&cs[2], OperatorConfig::Exists { .. }));
    match &cs[3] {
        OperatorConfig::Filter { predicate } => assert!(json_eq(predicate, &field_eq("title", text("x")))),
        _ => panic!("expected a filter"),
    }
}

#[test]
fn or_without_subqueries_is_one_filter() {
    let mut ast = table_ast("issue");
    ast.where_cond = Some(Box::new(Condition::Or {
        conditions: vec![simple("=", "open", num(1)), simple("=", "title", text("x"))],
    }));
    let cs = configs_for("pc_or_plain", &ast).unwrap();
    assert_eq!(cs.len(), 2);
    let expected = make_obj1("or", make_array(vec![field_eq("open", num(1)), field_eq("title", text("x"))]));
    match &cs[1] {
        OperatorConfig::Filter { predicate } => assert!(json_eq(predicate, &expected)),
        _ => panic!("expected a filter"),
    }
}

#[test]
fn or_with_one_subquery_passes_where_the_other_branch_holds() {
    let mut ast = table_ast("issue");
    ast.where_cond = Some(Box::new(Condition::Or {
        conditions: vec![simple("=", "open", num(1)), exists_check("comment", "EXISTS")],
    }));
    let cs = configs_for("pc_or_one", &ast).unwrap();
    assert_eq!(cs.len(), 2);
    match &cs[1] {
        OperatorConfig::Exists { or_condition, .. } => {
            assert!(json_eq(or_condition.as_ref().unwrap(), &field_eq("open", num(1))));
        },
        _ => panic!("expected an exists check"),
    }
}

#[test]
fn or_with_two_subqueries_is_one_or_exists() {
    let mut ast = table_ast("issue");
    ast.where_cond = Some(Box::new(Condition::Or {
        conditions: vec![exists_check("comment", "EXISTS"), exists_check("label", "NOT EXISTS")],
    }));
    let cs = configs_for("pc_or_two", &ast).unwrap();
    assert_eq!(cs.len(), 2);
    match &cs[1] {
        OperatorConfig::OrExists { branches, or_condition } => {
            assert!(or_condition.is_none());
            assert_eq!(branches.len(), 2);
            assert_eq!(branches[0].relationship_name, "comment");
            assert!(!branches[0].not_exists);
            assert_eq!(branches[1].relationship_name, "label");
            assert!(branches[1].not_exists);
            assert_eq!(child_source_table(&branches[1].child), "label");
        },
        _ => panic!("expected an or-exists"),
    }
}

#[test]
fn and_inside_or_is_prefiltered_by_either_branch() {
    let mut ast = table_ast("issue");
    ast.where_cond = Some(Box::new(Condition::Or {
        conditions: vec![
            Condition::And { conditions: vec![simple("=", "open", num(1)), exists_check("comment", "EXISTS")] },
            simple("=", "title", text("x")),
        ],
    }));
    let cs = configs_for("pc_or_and", &ast).unwrap();
    assert_eq!(cs.len(), 3);
    let other = field_eq("title", text("x"));
    let gate = make_obj1("or", make_array(vec![field_eq("title", text("x")), field_eq("open", num(1))]));
    match &cs[1] {
        OperatorConfig::Filter { predicate } => assert!(json_eq(predicate, &gate)),
        _ => panic!("expected a pre-filter"),
    }
    match &cs[2] {
        OperatorConfig::Exists { or_condition, .. } => assert!(json_eq(or_condition.as_ref().unwrap(), &other)),
        _ => panic!("expected an exists check"),
    }
}

#[test]
fn and_inside_or_exists_gives_only_its_subqueries_as_branches() {
    let mut ast = table_ast("issue");
    ast.where_cond = Some(Box::new(Condition::Or {
        conditions: vec![
            exists_check("comment", "EXISTS"),
            Condition::And { conditions: vec![simple("=", "open", num(1)), exists_check("label", "EXISTS")] },
        ],
    }));
    let cs = configs_for("pc_or_exists_and", &ast).unwrap();
    assert_eq!(cs.len(), 2);
    match &cs[1] {
        OperatorConfig::OrExists { branches, .. } => {
            assert_eq!(branches.len(), 2);
            assert_eq!(branches[1].relationship_name, "label");
        },
        _ => panic!("expected an or-exists"),
    }
}

#[test]
fn plain_condition_as_or_exists_branch_is_refused() {
    let mut ast = table_ast("issue");
    ast.where_cond = Some(Box::new(Condition::Or {
        conditions: vec![
            exists_check("comment", "EXISTS"),
            Condition::Or { conditions: vec![exists_check("label", "EXISTS")] },
        ],
    }));
    let e = configs_for("pc_or_exists_or", &ast).err().unwrap();
    assert!(e.starts_with("Expected CorrelatedSubquery or And in OrExists branch, got "));
}

#[test]
fn unknown_table_is_refused() {
    let r = configs_for("pc_missing", &table_ast("nowhere"));
    assert_eq!(r.err().unwrap(), "Table 'nowhere' not found or has no columns");
}

#[test]
fn child_tables_are_listed_with_their_relationship_names() {
    let mut ast = table_ast("issue");
    ast.related = Some(vec![subquery("comment", Some("comments"), "id", "issue_id")]);
    ast.where_cond = Some(Box::new(exists_check("label", "EXISTS")));
    let pairs = collect_child_tables(&ast);
    assert_eq!(
        pairs,
        vec![("comments".to_string(), "comment".to_string()), ("label".to_string(), "label".to_string())]
    );
}

#[test]
fn limited_child_subquery_takes_per_parent() {
    let mut ast = table_ast("issue");
    let mut rel = subquery("comment", Some("comments"), "id", "issue_id");
    rel.subquery.limit = Some(5);
    ast.related = Some(vec![rel]);
    let cs = configs_for("pc_partition", &ast).unwrap();
    match &cs[1] {
        OperatorConfig::Join { child, .. } => {
            let takes: Vec<&OperatorConfig> = child.iter().filter(|c| matches!(c, OperatorConfig::Take { .. })).collect();
            assert_eq!(takes.len(), 1);
            match takes[0] {
                OperatorConfig::Take { limit, partition_key, .. } => {
                    assert_eq!(*limit, 5);
                    assert_eq!(partition_key, &Some(strings(&["issue_id"])));
                },
                _ => unreachable!(),
            }
        },
        _ => panic!("expected a join"),
    }
}

#[test]
fn top_level_take_is_not_partitioned() {
    let mut ast = table_ast("issue");
    ast.limit = Some(3);
    let cs = configs_for("pc_top_take", &ast).unwrap();
    match &cs[1] {
        OperatorConfig::Take { limit, partition_key, .. } => {
            assert_eq!(*limit, 3);
            assert!(partition_key.is_none());
        },
        _ => panic!("expected a take"),
    }
}

#[test]
fn seeded_key_outlasts_reading_the_columns() {
    let (path, _conn) = tracker_db("pc_seeded");
    let mut schema = SchemaCache::new(&path);
    schema.seed_primary_keys(&vec![("issue".to_string(), strings(&["title"]))]);
    assert_eq!(schema.get_columns("issue").unwrap(), strings(&["id", "title", "owner_id", "open"]));
    assert_eq!(schema.get_primary_key("issue").unwrap(), strings(&["title"]));
}

#[test]
fn unseeded_key_comes_from_the_table() {
    let (path, _conn) = tracker_db("pc_unseeded");
    let mut schema = SchemaCache::new(&path);
    assert_eq!(schema.get_primary_key("label").unwrap(), strings(&["issue_id", "name"]));
    assert_eq!(schema.get_columns("label").unwrap(), strings(&["issue_id", "name"]));
}

#[test]
fn missing_table_is_an_error() {
    let (path, _conn) = tracker_db("pc_missing");
    let mut schema = SchemaCache::new(&path);
    assert_eq!(schema.get_columns("nope").unwrap_err(), "Table 'nope' not found or has no columns");
    assert!(schema.get_primary_key("nope").is_err());
}

#[test]
fn listing_gives_columns_and_key() {
    let rows = vec![("id".to_string(), 1), ("title".to_string(), 0)];
    assert_eq!(table_info_from_read("t", Ok(rows)).unwrap(), (strings(&["id", "title"]), strings(&["id"])));
    assert_eq!(table_info_from_read("t", Ok(vec![])).unwrap_err(), "Table 't' not found or has no columns");
    assert_eq!(table_info_from_read("t", Err("boom".to_string())).unwrap_err(), "boom");
}

#[test]
fn exists_child_carries_the_subquerys_filters_and_limit() {
    let mut ast = table_ast("issue");
    let mut rel = subquery("comment", None, "id", "issue_id");
    rel.subquery.where_cond = Some(Box::new(simple("=", "body", text("hi"))));
    ast.where_cond = Some(Box::new(Condition::CorrelatedSubquery {
        related: Box::new(rel),
        op: "EXISTS".to_string(),
        flip: None,
        scalar: None,
    }));
    let cs = configs_for("pc_exists_child", &ast).unwrap();
    match &cs[1] {
        OperatorConfig::Exists { child, .. } => {
            assert_eq!(child.len(), 3);
            assert_eq!(child_source_table(child), "comment");
            match &child[1] {
                OperatorConfig::Filter { predicate } => assert!(json_eq(predicate, &field_eq("body", text("hi")))),
                _ => panic!("expected the subquery's filter"),
            }
            assert_eq!(take_limit(&child[2]), EXISTS_LIMIT);
        },
        _ => panic!("expected an exists check"),
    }
}

#[test]
fn limited_exists_subquery_keeps_its_own_take() {
    let mut ast = table_ast("issue");
    let mut rel = subquery("comment", None, "id", "issue_id");
    rel.subquery.limit = Some(2);
    ast.where_cond = Some(Box::new(Condition::CorrelatedSubquery {
        related: Box::new(rel),
        op: "EXISTS".to_string(),
        flip: None,
        scalar: None,
    }));
    let cs = configs_for("pc_exists_own_take", &ast).unwrap();
    match &cs[1] {
        OperatorConfig::Exists { child, .. } => {
            assert_eq!(child.len(), 2);
            assert_eq!(take_limit(&child[1]), 2);
        },
        _ => panic!("expected an exists check"),
    }
}
