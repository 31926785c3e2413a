use zqlite_rs::advance::{collect_split_edit_keys, RowChange};
use zqlite_rs::ast_to_config::{Ast, Condition, Correlation, CorrelatedSubquery, SchemaCache};
use zqlite_rs::companions::apply_permission_and_version_filters;
use zqlite_rs::diff::{TableAndZqlSpec, TableSpec, ZqlSpec};
use zqlite_rs::json::{json_eq, JsonMap, JsonValue};
use zqlite_rs::routing::group_push;

fn text(s: &str) -> JsonValue {
    JsonValue::String(s.to_string())
}

fn bare_ast(table: &str) -> Ast {
    Ast { table: table.to_string(), alias: None, where_cond: None, related: None, limit: None, order_by: None, start: None }
}

fn exists_on(field: &str, table: &str) -> Condition {
    Condition::CorrelatedSubquery {
        related: Box::new(CorrelatedSubquery {
            correlation: Correlation { parent_field: vec![field.to_string()], child_field: vec!["pid".to_string()] },
            subquery: Box::new(bare_ast(table)),
            hidden: None,
            system: None,
        }),
        op: "EXISTS".to_string(),
        flip: None,
        scalar: None,
    }
}

// Split keys are collected once each, in the order first met.
#[test]
fn split_keys_are_collected_once() {
    let mut ast = bare_ast("parent");
    ast.where_cond = Some(Box::new(Condition::Or {
        conditions: vec![exists_on("b", "x"), exists_on("a", "y"), exists_on("b", "z")],
    }));
    assert_eq!(collect_split_edit_keys(&ast), vec!["b".to_string(), "a".to_string()]);
}

// A seeded primary key is the one the cache answers with, without reading
// the database; the last seed of a table wins.
#[test]
fn seeded_primary_key_is_returned() {
    let mut cache = SchemaCache::new("file:no_such_database?mode=ro");
    cache.seed_primary_keys(&vec![
        ("issues".to_string(), vec!["id".to_string()]),
        ("issues".to_string(), vec!["org".to_string(), "id".to_string()]),
    ]);
    assert_eq!(cache.get_primary_key("issues").unwrap(), vec!["org".to_string(), "id".to_string()]);
}

fn spec_with_min_version(name: &str, min: &str) -> (String, TableAndZqlSpec) {
    (
        name.to_string(),
        TableAndZqlSpec {
            table_spec: TableSpec {
                name: name.to_string(),
                columns: vec![],
                primary_key: vec![],
                unique_keys: vec![],
                min_row_version: Some(min.to_string()),
            },
            zql_spec: ZqlSpec { columns: vec![] },
        },
    )
}

fn change(table: &str, version: &str, change_type: &str) -> RowChange {
    let mut row = JsonMap::new();
    row.insert("_0_version".to_string(), text(version));
    RowChange {
        query_id: "q".to_string(),
        table: table.to_string(),
        row_key: JsonValue::Null,
        row: Some(row),
        change_type: change_type.to_string(),
    }
}

fn version_of(c: &RowChange) -> &JsonValue {
    c.row.as_ref().unwrap().get("_0_version").unwrap()
}

// Versions are raised to the table's minimum, never lowered, and raising
// twice changes nothing more; permission tables are dropped.
#[test]
fn versions_raised_once_and_permissions_dropped() {
    let syncable = vec![spec_with_min_version("t", "05")];
    let perms = vec!["perm".to_string()];
    let mut changes = vec![change("t", "01", "add"), change("t", "09", "edit"), change("perm", "00", "add")];
    apply_permission_and_version_filters(&mut changes, &perms, &syncable);
    assert_eq!(changes.len(), 2);
    assert!(json_eq(version_of(&changes[0]), &text("05")));
    assert!(json_eq(version_of(&changes[1]), &text("09")));
    apply_permission_and_version_filters(&mut changes, &perms, &syncable);
    assert!(json_eq(version_of(&changes[0]), &text("05")));
    assert!(json_eq(version_of(&changes[1]), &text("09")));
}

// Grouping keeps one group per key, values in the order added.
#[test]
fn grouping_keeps_one_group_per_key() {
    let mut groups: Vec<(String, Vec<u64>)> = Vec::new();
    group_push(&mut groups, "a", 1);
    group_push(&mut groups, "b", 2);
    group_push(&mut groups, "a", 3);
    assert_eq!(groups, vec![("a".to_string(), vec![1, 3]), ("b".to_string(), vec![2])]);
}
