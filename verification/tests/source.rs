use std::cmp::Ordering;

use zqlite_rs::change_json::{change_from_json, change_to_json, node_from_json, node_to_json};
use zqlite_rs::json::{json_eq, make_array, make_obj1, make_obj2, JsonMap, JsonNumber, JsonValue};
use zqlite_rs::source::{
    compare_rows, Change, ChildChange, Node, Overlays, Row, SortDirection, SortSpec, SourceChange,
    SourceChangeType,
};

fn num(i: i64) -> JsonValue {
    JsonValue::Number(JsonNumber::from_i64(i))
}

fn text(s: &str) -> JsonValue {
    JsonValue::String(s.to_string())
}

fn make_row(pairs: Vec<(&str, JsonValue)>) -> Row {
    let mut m = JsonMap::new();
    for (k, v) in pairs {
        m.insert(k.to_string(), v);
    }
    m
}

fn make_node(row: Row) -> Node {
    Node { row, relationships: Vec::new() }
}

fn roundtrip(change: &Change) -> Change {
    change_from_json(&change_to_json(change)).unwrap()
}

#[test]
fn test_source_change_accessors() {
    let row = make_row(vec![("id", num(1))]);

    let add = SourceChange::Add(row.duplicate());
    assert_eq!(add.change_type(), SourceChangeType::Add);
    assert!(json_eq(add.row().get("id").unwrap(), &num(1)));

    let remove = SourceChange::Remove(row.duplicate());
    assert_eq!(remove.change_type(), SourceChangeType::Remove);
    assert!(json_eq(remove.row().get("id").unwrap(), &num(1)));

    let old_row = make_row(vec![("id", num(0))]);
    let edit = SourceChange::Edit { row: row.duplicate(), old_row };
    assert_eq!(edit.change_type(), SourceChangeType::Edit);
    assert!(json_eq(edit.row().get("id").unwrap(), &num(1)));
}

#[test]
fn test_compare_rows() {
    let sort_asc = vec![SortSpec { field: "age".to_string(), direction: SortDirection::Asc }];
    let a = make_row(vec![("age", num(20))]);
    let b = make_row(vec![("age", num(30))]);
    assert_eq!(compare_rows(&a, &b, &sort_asc), Ordering::Less);
    assert_eq!(compare_rows(&b, &a, &sort_asc), Ordering::Greater);
    assert_eq!(compare_rows(&a, &a, &sort_asc), Ordering::Equal);

    let sort_desc = vec![SortSpec { field: "age".to_string(), direction: SortDirection::Desc }];
    assert_eq!(compare_rows(&a, &b, &sort_desc), Ordering::Greater);

    // Null < Number
    let c = make_row(vec![]);
    assert_eq!(compare_rows(&c, &a, &sort_asc), Ordering::Less);

    // Multi-field
    let sort_multi = vec![
        SortSpec { field: "name".to_string(), direction: SortDirection::Asc },
        SortSpec { field: "age".to_string(), direction: SortDirection::Asc },
    ];
    let x = make_row(vec![("name", text("Alice")), ("age", num(20))]);
    let y = make_row(vec![("name", text("Alice")), ("age", num(30))]);
    assert_eq!(compare_rows(&x, &y, &sort_multi), Ordering::Less);
}

#[test]
fn test_change_serde_roundtrip() {
    let node = make_node(make_row(vec![("id", num(1))]));

    // Add
    let change = Change::Add(make_node(node.row.duplicate()));
    let de = roundtrip(&change);
    assert!(json_eq(de.node().row.get("id").unwrap(), &num(1)));

    // Remove
    let change = Change::Remove(make_node(node.row.duplicate()));
    let de = roundtrip(&change);
    assert!(json_eq(de.node().row.get("id").unwrap(), &num(1)));

    // Edit
    let old = make_node(make_row(vec![("id", num(0))]));
    let change = Change::Edit { node: make_node(node.row.duplicate()), old_node: old };
    let de = roundtrip(&change);
    assert!(json_eq(de.node().row.get("id").unwrap(), &num(1)));

    // Child
    let inner = Change::Add(make_node(make_row(vec![("cid", num(99))])));
    let change = Change::Child {
        node,
        child: Box::new(ChildChange { relationship_name: "items".to_string(), change: inner }),
    };
    let de = roundtrip(&change);
    assert!(json_eq(de.node().row.get("id").unwrap(), &num(1)));
    match de {
        Change::Child { child, .. } => {
            assert_eq!(child.relationship_name, "items");
            assert!(json_eq(child.change.node().row.get("cid").unwrap(), &num(99)));
        },
        _ => panic!("expected a child change"),
    }
}

#[test]
fn test_overlays_default() {
    let o = Overlays::default();
    assert!(o.add.is_none());
    assert!(o.remove.is_none());
}

// The change triple's shape and its errors.
#[test]
fn change_json_shape_and_errors() {
    let node = make_node(make_row(vec![("id", num(7))]));
    let json = change_to_json(&Change::Remove(node));
    let expected = make_array(vec![
        num(1),
        make_obj2("row", make_obj1("id", num(7)), "relationships", JsonValue::Object(JsonMap::new())),
        JsonValue::Null,
    ]);
    assert!(json_eq(&json, &expected));

    let bad = make_array(vec![num(1), num(2)]);
    assert_eq!(change_from_json(&bad).err().unwrap(), "Change tuple must have 3 elements");
    let bad = make_array(vec![text("x"), JsonValue::Object(JsonMap::new()), JsonValue::Null]);
    assert_eq!(change_from_json(&bad).err().unwrap(), "Change type must be a number");
    let empty_node = make_obj2("row", JsonValue::Object(JsonMap::new()), "relationships", JsonValue::Object(JsonMap::new()));
    let bad = make_array(vec![num(7), empty_node, JsonValue::Null]);
    assert_eq!(change_from_json(&bad).err().unwrap(), "Unknown change type: 7");
    let bad = make_array(vec![num(0), make_obj1("row", JsonValue::Object(JsonMap::new())), JsonValue::Null]);
    assert_eq!(change_from_json(&bad).err().unwrap(), "Change node is not a node");
}

// Nodes with related rows read back as written.
#[test]
fn node_json_roundtrip_with_relationships() {
    let child = make_node(make_row(vec![("cid", num(2))]));
    let node = Node {
        row: make_row(vec![("id", num(1))]),
        relationships: vec![("items".to_string(), vec![child])],
    };
    let back = node_from_json(&node_to_json(&node)).unwrap();
    assert_eq!(back.relationships.len(), 1);
    assert_eq!(back.relationships[0].0, "items");
    assert!(json_eq(back.relationships[0].1[0].row.get("cid").unwrap(), &num(2)));
}
