use zqlite_rs::json::{json_eq, JsonMap, JsonNumber, JsonValue};
use zqlite_rs::overlay::{compute_overlays, generate_with_overlay, generate_with_overlay_unordered};
use zqlite_rs::source::{FetchConstraint, Overlay, Overlays, Row, SortDirection, SortSpec, SourceChange};

fn num(i: i64) -> JsonValue {
    JsonValue::Number(JsonNumber::from_i64(i))
}

fn text(s: &str) -> JsonValue {
    JsonValue::String(s.to_string())
}

fn row(pairs: Vec<(&str, JsonValue)>) -> Row {
    let mut m = JsonMap::new();
    for (k, v) in pairs {
        m.insert(k.to_string(), v);
    }
    m
}

fn sort_by_id() -> Vec<SortSpec> {
    vec![SortSpec { field: "id".to_string(), direction: SortDirection::Asc }]
}

fn no_filter() -> Option<&'static fn(&Row) -> bool> {
    None
}

fn id_of(r: &Row) -> &JsonValue {
    r.get("id").unwrap()
}

#[test]
fn test_compute_overlays_add() {
    let overlay = Overlay { epoch: 1, change: SourceChange::Add(row(vec![("id", num(5))])) };
    let result = compute_overlays(None, None, Some(&overlay), 1, &sort_by_id(), no_filter());
    assert!(result.add.is_some());
    assert!(json_eq(id_of(result.add.as_ref().unwrap()), &num(5)));
    assert!(result.remove.is_none());
}

#[test]
fn test_compute_overlays_remove() {
    let overlay = Overlay { epoch: 1, change: SourceChange::Remove(row(vec![("id", num(3))])) };
    let result = compute_overlays(None, None, Some(&overlay), 1, &sort_by_id(), no_filter());
    assert!(result.add.is_none());
    assert!(result.remove.is_some());
    assert!(json_eq(id_of(result.remove.as_ref().unwrap()), &num(3)));
}

#[test]
fn test_compute_overlays_edit() {
    let overlay = Overlay {
        epoch: 2,
        change: SourceChange::Edit {
            row: row(vec![("id", num(1)), ("name", text("new"))]),
            old_row: row(vec![("id", num(1)), ("name", text("old"))]),
        },
    };
    let result = compute_overlays(None, None, Some(&overlay), 2, &sort_by_id(), no_filter());
    assert!(result.add.is_some());
    assert!(result.remove.is_some());
    assert!(json_eq(result.add.as_ref().unwrap().get("name").unwrap(), &text("new")));
    assert!(json_eq(result.remove.as_ref().unwrap().get("name").unwrap(), &text("old")));
}

#[test]
fn test_compute_overlays_epoch_not_reached() {
    let overlay = Overlay { epoch: 5, change: SourceChange::Add(row(vec![("id", num(1))])) };
    let result = compute_overlays(None, None, Some(&overlay), 3, &sort_by_id(), no_filter());
    assert!(result.add.is_none());
    assert!(result.remove.is_none());
}

#[test]
fn test_generate_with_overlay_add_middle() {
    let rows = vec![row(vec![("id", num(1))]), row(vec![("id", num(3))])];
    let overlays = Overlays { add: Some(row(vec![("id", num(2))])), remove: None };
    let nodes = generate_with_overlay(rows, &overlays, &sort_by_id());
    assert_eq!(nodes.len(), 3);
    assert!(json_eq(id_of(&nodes[0].row), &num(1)));
    assert!(json_eq(id_of(&nodes[1].row), &num(2)));
    assert!(json_eq(id_of(&nodes[2].row), &num(3)));
}

#[test]
fn test_generate_with_overlay_add_end() {
    let rows = vec![row(vec![("id", num(1))]), row(vec![("id", num(2))])];
    let overlays = Overlays { add: Some(row(vec![("id", num(5))])), remove: None };
    let nodes = generate_with_overlay(rows, &overlays, &sort_by_id());
    assert_eq!(nodes.len(), 3);
    assert!(json_eq(id_of(&nodes[2].row), &num(5)));
}

#[test]
fn test_generate_with_overlay_remove() {
    let rows = vec![row(vec![("id", num(1))]), row(vec![("id", num(2))]), row(vec![("id", num(3))])];
    let overlays = Overlays { add: None, remove: Some(row(vec![("id", num(2))])) };
    let nodes = generate_with_overlay(rows, &overlays, &sort_by_id());
    assert_eq!(nodes.len(), 2);
    assert!(json_eq(id_of(&nodes[0].row), &num(1)));
    assert!(json_eq(id_of(&nodes[1].row), &num(3)));
}

#[test]
fn test_generate_with_overlay_unordered_add_remove() {
    let rows = vec![row(vec![("id", num(1))]), row(vec![("id", num(2))])];
    let overlays = Overlays { add: Some(row(vec![("id", num(99))])), remove: Some(row(vec![("id", num(1))])) };
    let pk = vec!["id".to_string()];
    let nodes = generate_with_overlay_unordered(rows, &overlays, &pk);
    assert_eq!(nodes.len(), 2);
    assert!(json_eq(id_of(&nodes[0].row), &num(99)));
    assert!(json_eq(id_of(&nodes[1].row), &num(2)));
}

#[test]
fn test_overlays_for_start_at() {
    let overlay = Overlay { epoch: 1, change: SourceChange::Add(row(vec![("id", num(1))])) };
    let start = row(vec![("id", num(5))]);
    let result = compute_overlays(Some(&start), None, Some(&overlay), 1, &sort_by_id(), no_filter());
    assert!(result.add.is_none());
}

#[test]
fn test_overlays_for_constraint() {
    let overlay = Overlay {
        epoch: 1,
        change: SourceChange::Add(row(vec![("id", num(1)), ("color", text("red"))])),
    };
    let constraint = FetchConstraint { key: "color".to_string(), value: text("blue") };
    let result = compute_overlays(None, Some(&constraint), Some(&overlay), 1, &sort_by_id(), no_filter());
    assert!(result.add.is_none());
}

// The remove overlay drops every fetched row that sorts equal to it, and the
// result stays in sort order.
#[test]
fn overlay_keeps_sort_order_and_drops_removed() {
    let rows = vec![row(vec![("id", num(1))]), row(vec![("id", num(4))]), row(vec![("id", num(6))])];
    let overlays = Overlays { add: Some(row(vec![("id", num(5))])), remove: Some(row(vec![("id", num(4))])) };
    let nodes = generate_with_overlay(rows, &overlays, &sort_by_id());
    let ids: Vec<i64> = nodes.iter().map(|n| match id_of(&n.row) {
        JsonValue::Number(x) => x.as_i64().unwrap(),
        _ => panic!("id is not a number"),
    }).collect();
    assert_eq!(ids, vec![1, 5, 6]);
}

// An overlay whose filter rejects the added row adds nothing.
#[test]
fn overlay_filter_rejects_add() {
    let overlay = Overlay { epoch: 1, change: SourceChange::Add(row(vec![("id", num(1))])) };
    let reject = |_r: &Row| false;
    let result = compute_overlays(None, None, Some(&overlay), 1, &sort_by_id(), Some(&reject));
    assert!(result.add.is_none());
}
