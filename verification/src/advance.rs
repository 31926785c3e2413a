//! Turning source changes into the row changes a client receives.
use vstd::prelude::*;

use crate::ast_to_config::{Ast, Condition, CorrelatedSubquery};
use crate::diff::Change;
use crate::text::views;
use crate::json::{
    assoc_find, assoc_get, entries_get, json_eq, json_equal, map_insert, JsonMap, JsonValue,
    JsonView,
};
use crate::source::{
    lemma_nodes_view, lemma_rels_view, nodes_view, rels_view, Change as NodeChange,
    ChangeView as NodeChangeView, ChildChange, Node, NodeView, Row, RowView, SourceChange,
    SourceChangeView,
};

pub use crate::encode::{encode_advance_result_buf, encode_json_value, encode_str};

verus! {

/// One row that a query's result gains, loses or changes.
pub struct RowChange {
    pub query_id: String,
    pub table: String,
    pub row_key: JsonValue,
    pub row: Option<Row>,
    pub change_type: String,
}

pub struct RowChangeView {
    pub query_id: Seq<char>,
    pub table: Seq<char>,
    pub row_key: JsonView,
    pub row: Option<RowView>,
    pub change_type: Seq<char>,
}

impl View for RowChange {
    type V = RowChangeView;

    open spec fn view(&self) -> RowChangeView {
        RowChangeView {
            query_id: self.query_id@,
            table: self.table@,
            row_key: self.row_key@,
            row: match self.row {
                Some(r) => Some(r@),
                None => None,
            },
            change_type: self.change_type@,
        }
    }
}

pub open spec fn row_changes_view(cs: Seq<RowChange>) -> Seq<RowChangeView> {
    cs.map_values(|c: RowChange| c@)
}

/// The outcome of an advance or a hydration.
pub struct AdvanceResult {
    pub changes: Vec<RowChange>,
    pub error: Option<String>,
    pub error_type: Option<String>,
    /// When set, the caller must reset all pipelines (a companion scalar
    /// value changed).
    pub reset_signal: Option<String>,
}

pub struct AdvanceResultView {
    pub changes: Seq<RowChangeView>,
    pub error: Option<Seq<char>>,
    pub error_type: Option<Seq<char>>,
    pub reset_signal: Option<Seq<char>>,
}

pub open spec fn opt_str_view(s: Option<String>) -> Option<Seq<char>> {
    match s {
        Some(x) => Some(x@),
        None => None,
    }
}

impl View for AdvanceResult {
    type V = AdvanceResultView;

    open spec fn view(&self) -> AdvanceResultView {
        AdvanceResultView {
            changes: row_changes_view(self.changes@),
            error: opt_str_view(self.error),
            error_type: opt_str_view(self.error_type),
            reset_signal: opt_str_view(self.reset_signal),
        }
    }
}

/// Two optional column values are equal: both absent, or both present and
/// equal.
pub open spec fn opt_equal(a: Option<JsonView>, b: Option<JsonView>) -> bool {
    match (a, b) {
        (None, None) => true,
        (Some(x), Some(y)) => json_equal(x, y),
        _ => false,
    }
}

/// Two rows agree on every primary-key column (absent counting as a value).
pub open spec fn same_key(a: RowView, b: RowView, pk: Seq<String>) -> bool {
    forall|i: int|
        0 <= i < pk.len() ==> opt_equal(entries_get(a, #[trigger] pk[i]@), entries_get(b, pk[i]@))
}

/// The source changes a diff change stands for: an add when nothing is
/// replaced; removes when nothing remains; otherwise each replaced row is
/// edited into the new row when it has the new row's key, else removed, and
/// the new row is added when no replaced row had its key.
pub open spec fn source_changes_of(c: crate::diff::ChangeView, pk: Seq<String>) -> Seq<SourceChangeView> {
    if c.prev_values.len() == 0 {
        match c.next_value {
            Some(nv) => seq![SourceChangeView::Add(nv)],
            None => Seq::empty(),
        }
    } else {
        match c.next_value {
            None => c.prev_values.map_values(|pv: RowView| SourceChangeView::Remove(pv)),
            Some(nv) => c.prev_values.map_values(
                |pv: RowView|
                    if same_key(pv, nv, pk) {
                        SourceChangeView::Edit { row: nv, old_row: pv }
                    } else {
                        SourceChangeView::Remove(pv)
                    },
            ) + if exists|j: int|
                0 <= j < c.prev_values.len() && same_key(#[trigger] c.prev_values[j], nv, pk) {
                Seq::empty()
            } else {
                seq![SourceChangeView::Add(nv)]
            },
        }
    }
}

pub open spec fn source_changes_view(cs: Seq<SourceChange>) -> Seq<SourceChangeView> {
    cs.map_values(|c: SourceChange| c@)
}

fn opt_values_equal(a: Option<&JsonValue>, b: Option<&JsonValue>) -> (r: bool)
    ensures
        r == opt_equal(
            match a {
                Some(x) => Some(x@),
                None => None,
            },
            match b {
                Some(x) => Some(x@),
                None => None,
            },
        ),
{
    match (a, b) {
        (None, None) => true,
        (Some(x), Some(y)) => json_eq(x, y),
        _ => false,
    }
}

fn same_key_exec(a: &Row, b: &Row, pk: &[String]) -> (r: bool)
    ensures
        r == same_key(a@, b@, pk@),
{
    let mut i: usize = 0;
    while i < pk.len()
        invariant
            i <= pk@.len(),
            forall|j: int|
                0 <= j < i ==> opt_equal(entries_get(a@, #[trigger] pk@[j]@), entries_get(b@, pk@[j]@)),
        decreases pk@.len() - i,
    {
        if !opt_values_equal(a.get(pk[i].as_str()), b.get(pk[i].as_str())) {
            return false;
        }
        i = i + 1;
    }
    true
}

/// Splits a diff change into source changes, matching replaced rows to the
/// new row by primary key.
pub fn diff_change_to_source_changes(change: &Change, primary_key: &[String]) -> (results: Vec<SourceChange>)
    ensures
        source_changes_view(results@) == source_changes_of(change@, primary_key@),
{
    let mut results: Vec<SourceChange> = Vec::new();
    let ghost pvs = change@.prev_values;
    if change.prev_values.len() == 0 {
        if let Some(nv) = &change.next_value {
            results.push(SourceChange::Add(nv.duplicate()));
        }
        assert(source_changes_view(results@) =~= source_changes_of(change@, primary_key@));
        return results;
    }
    match &change.next_value {
        None => {
            let mut i: usize = 0;
            while i < change.prev_values.len()
                invariant
                    i <= change.prev_values@.len(),
                    pvs == change@.prev_values,
                    results@.len() == i,
                    forall|j: int| 0 <= j < i ==> (#[trigger] results@[j])@ == SourceChangeView::Remove(pvs[j]),
                decreases change.prev_values@.len() - i,
            {
                results.push(SourceChange::Remove(change.prev_values[i].duplicate()));
                assert(pvs[i as int] == change.prev_values@[i as int]@);
                i = i + 1;
            }
            assert(source_changes_view(results@) =~= source_changes_of(change@, primary_key@));
            results
        },
        Some(nv) => {
            let mut matched = false;
            let mut i: usize = 0;
            while i < change.prev_values.len()
                invariant
                    i <= change.prev_values@.len(),
                    pvs == change@.prev_values,
                    change@.next_value == Some(nv@),
                    results@.len() == i,
                    forall|j: int| 0 <= j < i ==> (#[trigger] results@[j])@ == (if same_key(pvs[j], nv@, primary_key@) {
                                SourceChangeView::Edit { row: nv@, old_row: pvs[j] }
                            } else {
                                SourceChangeView::Remove(pvs[j])
                            }),
                    matched == exists|j: int|
                        0 <= j < i && same_key(#[trigger] pvs[j], nv@, primary_key@),
                decreases change.prev_values@.len() - i,
            {
                let pv = &change.prev_values[i];
                assert(pvs[i as int] == change.prev_values@[i as int]@);
                if same_key_exec(pv, nv, primary_key) {
                    results.push(SourceChange::Edit { row: nv.duplicate(), old_row: pv.duplicate() });
                    matched = true;
                } else {
                    results.push(SourceChange::Remove(pv.duplicate()));
                }
                i = i + 1;
            }
            let ghost mid = results@;
            if !matched {
                results.push(SourceChange::Add(nv.duplicate()));
            }
            assert(source_changes_view(results@) =~= source_changes_of(change@, primary_key@));
            results
        },
    }
}

/// Some split key's value differs between the old and the new row.
pub open spec fn split_key_changed(keys: Seq<String>, row: RowView, old_row: RowView) -> bool {
    exists|i: int|
        0 <= i < keys.len() && !opt_equal(entries_get(old_row, #[trigger] keys[i]@), entries_get(row, keys[i]@))
}

/// An edit that changes a split key becomes a remove of the old row followed
/// by an add of the new row; anything else is left as it is.
pub open spec fn split_edit(sc: SourceChangeView, keys: Seq<String>) -> Seq<SourceChangeView> {
    match sc {
        SourceChangeView::Edit { row, old_row } => if split_key_changed(keys, row, old_row) {
            seq![SourceChangeView::Remove(old_row), SourceChangeView::Add(row)]
        } else {
            seq![sc]
        },
        _ => seq![sc],
    }
}

fn split_key_changed_exec(keys: &[String], row: &Row, old_row: &Row) -> (r: bool)
    ensures
        r == split_key_changed(keys@, row@, old_row@),
{
    let mut i: usize = 0;
    while i < keys.len()
        invariant
            i <= keys@.len(),
            forall|j: int|
                0 <= j < i ==> opt_equal(entries_get(old_row@, #[trigger] keys@[j]@), entries_get(row@, keys@[j]@)),
        decreases keys@.len() - i,
    {
        if !opt_values_equal(old_row.get(keys[i].as_str()), row.get(keys[i].as_str())) {
            return true;
        }
        i = i + 1;
    }
    false
}

/// Splits an edit into a remove and an add when any of `split_edit_keys`
/// changes, so that joins and existence checks see the membership change.
pub fn maybe_split_edit_for_advance(sc: SourceChange, split_edit_keys: &[String]) -> (r: Vec<SourceChange>)
    ensures
        source_changes_view(r@) == split_edit(sc@, split_edit_keys@),
{
    if split_edit_keys.len() == 0 {
        let r = vec![sc];
        assert(source_changes_view(r@) =~= split_edit(sc@, split_edit_keys@));
        return r;
    }
    let changed = match &sc {
        SourceChange::Edit { row, old_row } => split_key_changed_exec(split_edit_keys, row, old_row),
        _ => false,
    };
    if changed {
        match sc {
            SourceChange::Edit { row, old_row } => {
                let r = vec![SourceChange::Remove(old_row), SourceChange::Add(row)];
                assert(source_changes_view(r@) =~= split_edit(sc@, split_edit_keys@));
                r
            },
            _ => {
                let r = vec![sc];
                r
            },
        }
    } else {
        let r = vec![sc];
        assert(source_changes_view(r@) =~= split_edit(sc@, split_edit_keys@));
        r
    }
}

/// A source change as a change of leaf nodes.
pub open spec fn node_change_of(sc: SourceChangeView) -> NodeChangeView {
    match sc {
        SourceChangeView::Add(r) => NodeChangeView::Add(NodeView { row: r, relationships: Seq::empty() }),
        SourceChangeView::Remove(r) => NodeChangeView::Remove(NodeView { row: r, relationships: Seq::empty() }),
        SourceChangeView::Edit { row, old_row } => NodeChangeView::Edit {
            node: NodeView { row: row, relationships: Seq::empty() },
            old_node: NodeView { row: old_row, relationships: Seq::empty() },
        },
    }
}

pub fn source_change_to_ivm_change(sc: &SourceChange) -> (c: NodeChange)
    ensures
        c@ == node_change_of(sc@),
{
    match sc {
        SourceChange::Add(row) => NodeChange::Add(Node::leaf(row.duplicate())),
        SourceChange::Remove(row) => NodeChange::Remove(Node::leaf(row.duplicate())),
        SourceChange::Edit { row, old_row } => NodeChange::Edit {
            node: Node::leaf(row.duplicate()),
            old_node: Node::leaf(old_row.duplicate()),
        },
    }
}

/// The row key: an object of the row's primary-key columns that it holds,
/// in primary-key order.
pub open spec fn row_key_entries(row: RowView, pk: Seq<String>) -> RowView
    decreases pk.len(),
{
    if pk.len() == 0 {
        Seq::empty()
    } else {
        let acc = row_key_entries(row, pk.drop_last());
        let k = pk.last()@;
        match entries_get(row, k) {
            Some(v) => map_insert(acc, k, v),
            None => acc,
        }
    }
}

pub open spec fn row_key_of(row: RowView, pk: Seq<String>) -> JsonView {
    JsonView::Object(row_key_entries(row, pk))
}

/// The object of the row's primary-key columns.
pub fn extract_row_key_from_map(row: &Row, pk: &[String]) -> (k: JsonValue)
    ensures
        k@ == row_key_of(row@, pk@),
{
    let mut m = JsonMap::new();
    let mut i: usize = 0;
    while i < pk.len()
        invariant
            i <= pk@.len(),
            m.wf(),
            m@ == row_key_entries(row@, pk@.take(i as int)),
        decreases pk@.len() - i,
    {
        assert(pk@.take(i + 1).drop_last() =~= pk@.take(i as int));
        match row.get(pk[i].as_str()) {
            Some(v) => {
                m.insert(pk[i].clone(), v.duplicate());
            },
            None => {},
        }
        i = i + 1;
    }
    assert(pk@.take(pk@.len() as int) =~= pk@);
    proof {
        crate::json::lemma_entries_view(m.entries@);
    }
    JsonValue::Object(m)
}


/// A row change of query `q` on `table`.
pub open spec fn row_change(
    q: Seq<char>,
    table: Seq<char>,
    key: JsonView,
    row: Option<RowView>,
    t: Seq<char>,
) -> RowChangeView {
    RowChangeView { query_id: q, table, row_key: key, row, change_type: t }
}

fn make_row_change(q: &str, table: &str, key: JsonValue, row: Option<Row>, t: &str) -> (c: RowChange)
    ensures
        c@ == row_change(
            q@,
            table@,
            key@,
            match row {
                Some(r) => Some(r@),
                None => None,
            },
            t@,
        ),
{
    RowChange {
        query_id: String::from_str(q),
        table: String::from_str(table),
        row_key: key,
        row,
        change_type: String::from_str(t),
    }
}

/// The row changes of a source change on a query's table: one, keyed by the
/// row's primary key: the row for an add or an edit, none for a remove, and
/// a null key with no row for a change below the row.
pub open spec fn ivm_row_changes(q: Seq<char>, table: Seq<char>, pk: Seq<String>, c: NodeChangeView) -> Seq<
    RowChangeView,
> {
    match c {
        NodeChangeView::Add(n) => seq![row_change(q, table, row_key_of(n.row, pk), Some(n.row), "add"@)],
        NodeChangeView::Remove(n) => seq![row_change(q, table, row_key_of(n.row, pk), None, "remove"@)],
        NodeChangeView::Edit { node, .. } => seq![
            row_change(q, table, row_key_of(node.row, pk), Some(node.row), "edit"@),
        ],
        NodeChangeView::Child { .. } => seq![row_change(q, table, JsonView::Null, None, "child"@)],
    }
}

/// The row changes of a change on a query's table.
pub fn ivm_change_to_row_changes(change: &NodeChange, query_id: &str, table: &str, primary_key: &[String]) -> (r:
    Vec<RowChange>)
    ensures
        row_changes_view(r@) == ivm_row_changes(query_id@, table@, primary_key@, change@),
{
    let c = match change {
        NodeChange::Add(node) => make_row_change(
            query_id,
            table,
            extract_row_key_from_map(&node.row, primary_key),
            Some(node.row.duplicate()),
            "add",
        ),
        NodeChange::Remove(node) => make_row_change(
            query_id,
            table,
            extract_row_key_from_map(&node.row, primary_key),
            None,
            "remove",
        ),
        NodeChange::Edit { node, .. } => make_row_change(
            query_id,
            table,
            extract_row_key_from_map(&node.row, primary_key),
            Some(node.row.duplicate()),
            "edit",
        ),
        NodeChange::Child { .. } => make_row_change(query_id, table, JsonValue::Null, None, "child"),
    };
    let ghost cv = c@;
    let r = vec![c];
    assert(row_changes_view(r@) =~= seq![cv]);
    r
}

/// The key of a related row: its primary key where the relationship's key
/// is known, else the whole row.
pub open spec fn related_key(row: RowView, rel: Seq<char>, pks: Seq<(String, Vec<String>)>) -> JsonView {
    match assoc_get(pks, rel) {
        Some(pk) => row_key_of(row, pk@),
        None => JsonView::Object(row),
    }
}

fn related_key_exec(row: &Row, rel: &str, pks: &Vec<(String, Vec<String>)>) -> (k: JsonValue)
    ensures
        k@ == related_key(row@, rel@, pks@),
{
    match assoc_find(pks, rel) {
        Some(pk) => extract_row_key_from_map(row, pk.as_slice()),
        None => {
            let m = row.duplicate();
            proof {
                crate::json::lemma_entries_view(m.entries@);
            }
            JsonValue::Object(m)
        },
    }
}

/// The row changes of the related rows under a node, depth first: each
/// related row keyed by its relationship's primary key, with its row unless
/// the change is a remove, then the rows related to it.
pub open spec fn rels_flat(
    q: Seq<char>,
    rels: Seq<(Seq<char>, Seq<NodeView>)>,
    t: Seq<char>,
    pks: Seq<(String, Vec<String>)>,
) -> Seq<RowChangeView>
    decreases rels,
{
    if rels.len() == 0 {
        Seq::empty()
    } else {
        rels_flat(q, rels.drop_last(), t, pks) + children_flat(q, rels.last().0, rels.last().1, t, pks)
    }
}

pub open spec fn children_flat(
    q: Seq<char>,
    rel: Seq<char>,
    children: Seq<NodeView>,
    t: Seq<char>,
    pks: Seq<(String, Vec<String>)>,
) -> Seq<RowChangeView>
    decreases children,
{
    if children.len() == 0 {
        Seq::empty()
    } else {
        let c = children.last();
        children_flat(q, rel, children.drop_last(), t, pks) + seq![
            row_change(
                q,
                rel,
                related_key(c.row, rel, pks),
                if t == "remove"@ {
                    None
                } else {
                    Some(c.row)
                },
                t,
            ),
        ] + rels_flat(q, c.relationships, t, pks)
    }
}

fn push_row_changes(out: &mut Vec<RowChange>, c: RowChange)
    ensures
        row_changes_view(final(out)@) == row_changes_view(old(out)@).push(c@),
{
    let ghost before = out@;
    let ghost cv = c@;
    out.push(c);
    assert(row_changes_view(out@) =~= row_changes_view(before).push(cv));
}

/// Appends the row changes of the related rows under a node.
pub fn flatten_node_relationships(
    out: &mut Vec<RowChange>,
    query_id: &str,
    node: &Node,
    change_type: &str,
    all_pks: &Vec<(String, Vec<String>)>,
)
    ensures
        row_changes_view(final(out)@) == row_changes_view(old(out)@) + rels_flat(
            query_id@,
            node@.relationships,
            change_type@,
            all_pks@,
        ),
    decreases node,
{
    let ghost rs = node.relationships@;
    proof {
        lemma_rels_view(rs);
        reveal_strlit("remove");
    }
    let is_remove = crate::json::str_eq(change_type, "remove");
    let mut i: usize = 0;
    assert(rels_view(rs).take(0) =~= Seq::<(Seq<char>, Seq<NodeView>)>::empty());
    while i < node.relationships.len()
        invariant
            i <= rs.len(),
            rs == node.relationships@,
            rels_view(rs).len() == rs.len(),
            forall|k: int| 0 <= k < rs.len() ==> #[trigger] rels_view(rs)[k] == (rs[k].0@, nodes_view(rs[k].1@)),
            is_remove == (change_type@ == "remove"@),
            row_changes_view(out@) == row_changes_view(old(out)@) + rels_flat(
                query_id@,
                rels_view(rs).take(i as int),
                change_type@,
                all_pks@,
            ),
        decreases rs.len() - i,
    {
        let rel_name = &node.relationships[i].0;
        let children = &node.relationships[i].1;
        let ghost cs = children@;
        proof {
            lemma_nodes_view(cs);
        }
        let ghost base = row_changes_view(out@);
        let mut j: usize = 0;
        assert(nodes_view(cs).take(0) =~= Seq::<NodeView>::empty());
        while j < children.len()
            invariant
                j <= cs.len(),
                cs == children@,
                i < rs.len(),
                rs == node.relationships@,
                *children == rs[i as int].1,
                *rel_name == rs[i as int].0,
                nodes_view(cs).len() == cs.len(),
                forall|k: int| 0 <= k < cs.len() ==> #[trigger] nodes_view(cs)[k] == cs[k]@,
                is_remove == (change_type@ == "remove"@),
                row_changes_view(out@) == base + children_flat(
                    query_id@,
                    rel_name@,
                    nodes_view(cs).take(j as int),
                    change_type@,
                    all_pks@,
                ),
            decreases cs.len() - j,
        {
            proof {
                assert(decreases_to!(*node => node.relationships));
                assert(decreases_to!(node.relationships => node.relationships@));
                assert(decreases_to!(node.relationships@ => node.relationships@[i as int]));
                assert(decreases_to!(node.relationships@[i as int] => node.relationships@[i as int].1));
                assert(decreases_to!(node.relationships@[i as int].1 => node.relationships@[i as int].1@));
                assert(decreases_to!(node.relationships@[i as int].1@ => node.relationships@[i as int].1@[j as int]));
            }
            let child = &children[j];
            assert(nodes_view(cs).take(j + 1).drop_last() =~= nodes_view(cs).take(j as int));
            assert(nodes_view(cs).take(j + 1).last() == child@);
            let key = related_key_exec(&child.row, rel_name.as_str(), all_pks);
            let row = if is_remove {
                None
            } else {
                Some(child.row.duplicate())
            };
            push_row_changes(out, make_row_change(query_id, rel_name.as_str(), key, row, change_type));
            flatten_node_relationships(out, query_id, child, change_type, all_pks);
            assert(row_changes_view(out@) =~= base + children_flat(
                query_id@,
                rel_name@,
                nodes_view(cs).take(j + 1),
                change_type@,
                all_pks@,
            ));
            j = j + 1;
        }
        assert(nodes_view(cs).take(cs.len() as int) =~= nodes_view(cs));
        assert(rels_view(rs).take(i + 1).drop_last() =~= rels_view(rs).take(i as int));
        assert(rels_view(rs).take(i + 1).last() == (rel_name@, nodes_view(cs)));
        i = i + 1;
    }
    assert(rels_view(rs).take(rs.len() as int) =~= rels_view(rs));
}


/// The row changes of a change to a related row: the row itself (keyed by
/// its relationship's primary key; the row for an add, an edit or a change
/// below it, none for a remove), then for an add or a remove the rows
/// related to it, and for a change below it that change in turn.
pub open spec fn child_change_flat(
    q: Seq<char>,
    rel: Seq<char>,
    c: NodeChangeView,
    pks: Seq<(String, Vec<String>)>,
) -> Seq<RowChangeView>
    decreases c,
{
    match c {
        NodeChangeView::Add(n) => seq![
            row_change(q, rel, related_key(n.row, rel, pks), Some(n.row), "add"@),
        ] + rels_flat(q, n.relationships, "add"@, pks),
        NodeChangeView::Remove(n) => seq![
            row_change(q, rel, related_key(n.row, rel, pks), None, "remove"@),
        ] + rels_flat(q, n.relationships, "remove"@, pks),
        NodeChangeView::Edit { node, .. } => seq![
            row_change(q, rel, related_key(node.row, rel, pks), Some(node.row), "edit"@),
        ],
        NodeChangeView::Child { node, relationship_name, change } => seq![
            row_change(q, rel, related_key(node.row, rel, pks), Some(node.row), "edit"@),
        ] + child_change_flat(q, relationship_name, *change, pks),
    }
}

/// The row changes of a change on a query's table, with everything under
/// it: the row (keyed by the table's primary key), then for an add or a
/// remove the rows related to it, and for a change below it that change.
pub open spec fn change_flat(
    q: Seq<char>,
    table: Seq<char>,
    pk: Seq<String>,
    c: NodeChangeView,
    pks: Seq<(String, Vec<String>)>,
) -> Seq<RowChangeView> {
    match c {
        NodeChangeView::Add(n) => seq![
            row_change(q, table, row_key_of(n.row, pk), Some(n.row), "add"@),
        ] + rels_flat(q, n.relationships, "add"@, pks),
        NodeChangeView::Remove(n) => seq![
            row_change(q, table, row_key_of(n.row, pk), None, "remove"@),
        ] + rels_flat(q, n.relationships, "remove"@, pks),
        NodeChangeView::Edit { node, .. } => seq![
            row_change(q, table, row_key_of(node.row, pk), Some(node.row), "edit"@),
        ],
        NodeChangeView::Child { node, relationship_name, change } => seq![
            row_change(q, table, row_key_of(node.row, pk), Some(node.row), "edit"@),
        ] + child_change_flat(q, relationship_name, *change, pks),
    }
}

/// Appends the row changes of a change to a related row.
pub fn flatten_child_change(
    out: &mut Vec<RowChange>,
    query_id: &str,
    child_data: &ChildChange,
    all_pks: &Vec<(String, Vec<String>)>,
)
    ensures
        row_changes_view(final(out)@) == row_changes_view(old(out)@) + child_change_flat(
            query_id@,
            child_data.relationship_name@,
            child_data.change@,
            all_pks@,
        ),
    decreases child_data,
{
    let rel = child_data.relationship_name.as_str();
    let ghost base = row_changes_view(out@);
    match &child_data.change {
        NodeChange::Add(node) => {
            let key = related_key_exec(&node.row, rel, all_pks);
            push_row_changes(out, make_row_change(query_id, rel, key, Some(node.row.duplicate()), "add"));
            flatten_node_relationships(out, query_id, node, "add", all_pks);
        },
        NodeChange::Remove(node) => {
            let key = related_key_exec(&node.row, rel, all_pks);
            push_row_changes(out, make_row_change(query_id, rel, key, None, "remove"));
            flatten_node_relationships(out, query_id, node, "remove", all_pks);
        },
        NodeChange::Edit { node, .. } => {
            let key = related_key_exec(&node.row, rel, all_pks);
            push_row_changes(out, make_row_change(query_id, rel, key, Some(node.row.duplicate()), "edit"));
        },
        NodeChange::Child { node, child } => {
            proof {
                assert(decreases_to!(*child_data => child_data.change));
                assert(decreases_to!(child_data.change => child_data.change->Child_child));
            }
            let key = related_key_exec(&node.row, rel, all_pks);
            push_row_changes(out, make_row_change(query_id, rel, key, Some(node.row.duplicate()), "edit"));
            flatten_child_change(out, query_id, child, all_pks);
        },
    }
    assert(row_changes_view(out@) =~= base + child_change_flat(
        query_id@,
        child_data.relationship_name@,
        child_data.change@,
        all_pks@,
    ));
}

/// Appends the row changes of a change on a query's table, with everything
/// under it.
pub fn flatten_ivm_change_to_row_changes(
    out: &mut Vec<RowChange>,
    change: &NodeChange,
    query_id: &str,
    root_table: &str,
    root_pk: &[String],
    all_pks: &Vec<(String, Vec<String>)>,
)
    ensures
        row_changes_view(final(out)@) == row_changes_view(old(out)@) + change_flat(
            query_id@,
            root_table@,
            root_pk@,
            change@,
            all_pks@,
        ),
{
    let ghost base = row_changes_view(out@);
    match change {
        NodeChange::Add(node) => {
            let key = extract_row_key_from_map(&node.row, root_pk);
            push_row_changes(out, make_row_change(query_id, root_table, key, Some(node.row.duplicate()), "add"));
            flatten_node_relationships(out, query_id, node, "add", all_pks);
        },
        NodeChange::Remove(node) => {
            let key = extract_row_key_from_map(&node.row, root_pk);
            push_row_changes(out, make_row_change(query_id, root_table, key, None, "remove"));
            flatten_node_relationships(out, query_id, node, "remove", all_pks);
        },
        NodeChange::Edit { node, .. } => {
            let key = extract_row_key_from_map(&node.row, root_pk);
            push_row_changes(out, make_row_change(query_id, root_table, key, Some(node.row.duplicate()), "edit"));
        },
        NodeChange::Child { node, child } => {
            let key = extract_row_key_from_map(&node.row, root_pk);
            push_row_changes(out, make_row_change(query_id, root_table, key, Some(node.row.duplicate()), "edit"));
            flatten_child_change(out, query_id, child, all_pks);
        },
    }
    assert(row_changes_view(out@) =~= base + change_flat(query_id@, root_table@, root_pk@, change@, all_pks@));
}


/// A column's value in its client type (a null stays null).
pub fn coerce_value(val: JsonValue, value_type: &str) -> (r: JsonValue)
    ensures
        r@ == crate::diff::from_sqlite_value(value_type@, val@),
{
    if val.is_null() {
        return val;
    }
    crate::diff::from_sqlite_value_exec(value_type, val)
}

/// Table name to (column name to value type).
pub type ColumnTypes = Vec<(String, Vec<(String, String)>)>;

/// The row with exactly the listed columns, each value (null where the row
/// lacks it) in its client type.
pub open spec fn typed_columns(row: RowView, cols: Seq<(String, String)>) -> RowView
    decreases cols.len(),
{
    if cols.len() == 0 {
        Seq::empty()
    } else {
        map_insert(
            typed_columns(row, cols.drop_last()),
            cols.last().0@,
            crate::diff::from_sqlite_value(
                cols.last().1@,
                crate::diff::value_or_null(row, cols.last().0@),
            ),
        )
    }
}

/// The row a client receives for a table: unchanged without column types;
/// with them, the table's typed columns, or nothing for a table they do not
/// list.
pub open spec fn coerced_row(row: RowView, table: Seq<char>, ct: Option<ColumnTypes>) -> Option<
    RowView,
> {
    match ct {
        None => Some(row),
        Some(m) => match assoc_get(m@, table) {
            None => None,
            Some(cols) => Some(typed_columns(row, cols@)),
        },
    }
}

/// The row a client receives for a table.
pub fn coerce_row(row: &Row, table: &str, column_types: &Option<ColumnTypes>) -> (r: Option<Row>)
    ensures
        match r {
            Some(x) => (row.wf() || column_types is Some ==> x.wf()) && coerced_row(
                row@,
                table@,
                *column_types,
            ) == Some(x@),
            None => coerced_row(row@, table@, *column_types) is None,
        },
{
    match column_types {
        None => {
            Some(row.duplicate())
        },
        Some(m) => match assoc_find(m, table) {
            None => None,
            Some(cols) => {
                let mut out = JsonMap::new();
                let mut i: usize = 0;
                while i < cols.len()
                    invariant
                        i <= cols@.len(),
                        out.wf(),
                        out@ == typed_columns(row@, cols@.take(i as int)),
                    decreases cols@.len() - i,
                {
                    assert(cols@.take(i + 1).drop_last() =~= cols@.take(i as int));
                    let v = match row.get(cols[i].0.as_str()) {
                        Some(x) => x.duplicate(),
                        None => JsonValue::Null,
                    };
                    let c = coerce_value(v, cols[i].1.as_str());
                    out.insert(cols[i].0.clone(), c);
                    i = i + 1;
                }
                assert(cols@.take(cols@.len() as int) =~= cols@);
                Some(out)
            },
        },
    }
}


/// The table a relationship reads: the one the map names, else the
/// relationship's own name.
pub open spec fn rel_table(rel: Seq<char>, rt: Seq<(String, String)>) -> Seq<char> {
    match assoc_get(rt, rel) {
        Some(t) => t@,
        None => rel,
    }
}

/// The primary key of a related table: by table, else by relationship name,
/// else none.
pub open spec fn rel_pk(table: Seq<char>, rel: Seq<char>, pks: Seq<(String, Vec<String>)>) -> Seq<String> {
    match assoc_get(pks, table) {
        Some(p) => p@,
        None => match assoc_get(pks, rel) {
            Some(p) => p@,
            None => Seq::empty(),
        },
    }
}

/// The rows of fetched nodes as adds, depth first: each node's row (keyed by
/// its table's primary key, typed for the client, left out when its table
/// has no column types), then the nodes related to it.
pub open spec fn nodes_flat(
    q: Seq<char>,
    table: Seq<char>,
    pk: Seq<String>,
    nodes: Seq<NodeView>,
    pks: Seq<(String, Vec<String>)>,
    ct: Option<ColumnTypes>,
    rt: Seq<(String, String)>,
) -> Seq<RowChangeView>
    decreases nodes,
{
    if nodes.len() == 0 {
        Seq::empty()
    } else {
        let n = nodes.last();
        nodes_flat(q, table, pk, nodes.drop_last(), pks, ct, rt) + (match coerced_row(n.row, table, ct) {
            Some(r) => seq![row_change(q, table, row_key_of(n.row, pk), Some(r), "add"@)],
            None => Seq::empty(),
        }) + rels_nodes_flat(q, n.relationships, pks, ct, rt)
    }
}

pub open spec fn rels_nodes_flat(
    q: Seq<char>,
    rels: Seq<(Seq<char>, Seq<NodeView>)>,
    pks: Seq<(String, Vec<String>)>,
    ct: Option<ColumnTypes>,
    rt: Seq<(String, String)>,
) -> Seq<RowChangeView>
    decreases rels,
{
    if rels.len() == 0 {
        Seq::empty()
    } else {
        let rel = rels.last().0;
        let t = rel_table(rel, rt);
        rels_nodes_flat(q, rels.drop_last(), pks, ct, rt) + nodes_flat(
            q,
            t,
            rel_pk(t, rel, pks),
            rels.last().1,
            pks,
            ct,
            rt,
        )
    }
}

/// Appends the rows of fetched nodes as adds, depth first.
pub fn flatten_nodes_to_row_changes(
    out: &mut Vec<RowChange>,
    query_id: &str,
    table: &str,
    primary_key: &[String],
    nodes: &[Node],
    all_pks: &Vec<(String, Vec<String>)>,
    column_types: &Option<ColumnTypes>,
    rel_to_table: &Vec<(String, String)>,
)
    ensures
        row_changes_view(final(out)@) == row_changes_view(old(out)@) + nodes_flat(
            query_id@,
            table@,
            primary_key@,
            nodes_view(nodes@),
            all_pks@,
            *column_types,
            rel_to_table@,
        ),
    decreases nodes@,
{
    let ghost ns = nodes@;
    proof {
        lemma_nodes_view(ns);
    }
    let mut i: usize = 0;
    assert(nodes_view(ns).take(0) =~= Seq::<NodeView>::empty());
    while i < nodes.len()
        invariant
            i <= ns.len(),
            ns == nodes@,
            nodes_view(ns).len() == ns.len(),
            forall|k: int| 0 <= k < ns.len() ==> #[trigger] nodes_view(ns)[k] == ns[k]@,
            row_changes_view(out@) == row_changes_view(old(out)@) + nodes_flat(
                query_id@,
                table@,
                primary_key@,
                nodes_view(ns).take(i as int),
                all_pks@,
                *column_types,
                rel_to_table@,
            ),
        decreases ns.len() - i,
    {
        let node = &nodes[i];
        assert(nodes_view(ns).take(i + 1).drop_last() =~= nodes_view(ns).take(i as int));
        assert(nodes_view(ns).take(i + 1).last() == node@);
        let ghost base = row_changes_view(out@);
        let key = extract_row_key_from_map(&node.row, primary_key);
        match coerce_row(&node.row, table, column_types) {
            Some(row) => {
                push_row_changes(out, make_row_change(query_id, table, key, Some(row), "add"));
            },
            None => {},
        }
        let ghost mid = row_changes_view(out@);
        let ghost rs = node.relationships@;
        proof {
            lemma_rels_view(rs);
        }
        let mut j: usize = 0;
        assert(rels_view(rs).take(0) =~= Seq::<(Seq<char>, Seq<NodeView>)>::empty());
        while j < node.relationships.len()
            invariant
                j <= rs.len(),
                i < ns.len(),
                ns == nodes@,
                *node == ns[i as int],
                rs == node.relationships@,
                rels_view(rs).len() == rs.len(),
                forall|k: int| 0 <= k < rs.len() ==> #[trigger] rels_view(rs)[k] == (rs[k].0@, nodes_view(rs[k].1@)),
                row_changes_view(out@) == mid + rels_nodes_flat(
                    query_id@,
                    rels_view(rs).take(j as int),
                    all_pks@,
                    *column_types,
                    rel_to_table@,
                ),
            decreases rs.len() - j,
        {
            proof {
                assert(decreases_to!(nodes@ => nodes@[i as int]));
                assert(decreases_to!(nodes@[i as int] => nodes@[i as int].relationships));
                assert(decreases_to!(nodes@[i as int].relationships => nodes@[i as int].relationships@));
                assert(decreases_to!(nodes@[i as int].relationships@ => nodes@[i as int].relationships@[j as int]));
                assert(decreases_to!(nodes@[i as int].relationships@[j as int] => nodes@[i as int].relationships@[j as int].1));
                assert(decreases_to!(nodes@[i as int].relationships@[j as int].1 => nodes@[i as int].relationships@[j as int].1@));
            }
            let rel_name = &node.relationships[j].0;
            let children = &node.relationships[j].1;
            assert(rels_view(rs).take(j + 1).drop_last() =~= rels_view(rs).take(j as int));
            assert(rels_view(rs).take(j + 1).last() == (rel_name@, nodes_view(children@)));
            let child_table: &str = match assoc_find(rel_to_table, rel_name.as_str()) {
                Some(t) => t.as_str(),
                None => rel_name.as_str(),
            };
            let empty: Vec<String> = Vec::new();
            let child_pk: &Vec<String> = match assoc_find(all_pks, child_table) {
                Some(p) => p,
                None => match assoc_find(all_pks, rel_name.as_str()) {
                    Some(p) => p,
                    None => &empty,
                },
            };
            flatten_nodes_to_row_changes(
                out,
                query_id,
                child_table,
                child_pk.as_slice(),
                children.as_slice(),
                all_pks,
                column_types,
                rel_to_table,
            );
            j = j + 1;
        }
        assert(rels_view(rs).take(rs.len() as int) =~= rels_view(rs));
        i = i + 1;
    }
    assert(nodes_view(ns).take(ns.len() as int) =~= nodes_view(ns));
}


/// A pipeline as the client configures it directly.
pub struct FullPipelineConfig {
    pub query_id: String,
    pub source_table: String,
    pub operator_config: Vec<crate::operators::OperatorConfig>,
    pub primary_key: Vec<String>,
    pub split_edit_keys: Vec<String>,
    pub column_types: Option<ColumnTypes>,
    pub all_primary_keys: Vec<(String, Vec<String>)>,
    pub rel_to_table: Vec<(String, String)>,
}

/// The row changes of a list of source changes on a table, in order.
pub open spec fn source_row_changes(
    q: Seq<char>,
    table: Seq<char>,
    pk: Seq<String>,
    scs: Seq<SourceChangeView>,
) -> Seq<RowChangeView>
    decreases scs.len(),
{
    if scs.len() == 0 {
        Seq::empty()
    } else {
        source_row_changes(q, table, pk, scs.drop_last()) + ivm_row_changes(
            q,
            table,
            pk,
            node_change_of(scs.last()),
        )
    }
}

/// The row changes of the diff changes on the pipeline's source table, each
/// as the row changes of the source changes it stands for.
pub open spec fn direct_row_changes(
    changes: Seq<crate::diff::ChangeView>,
    source_table: Seq<char>,
    q: Seq<char>,
    table: Seq<char>,
    pk: Seq<String>,
) -> Seq<RowChangeView>
    decreases changes.len(),
{
    if changes.len() == 0 {
        Seq::empty()
    } else {
        direct_row_changes(changes.drop_last(), source_table, q, table, pk) + if changes.last().table
            == source_table {
            source_row_changes(q, table, pk, source_changes_of(changes.last(), pk))
        } else {
            Seq::empty()
        }
    }
}

pub open spec fn diff_changes_view(cs: Seq<Change>) -> Seq<crate::diff::ChangeView> {
    cs.map_values(|c: Change| c@)
}

/// The row changes a pipeline without operators gives for a diff.
pub fn changes_to_row_changes_direct(
    changes: &[Change],
    pipeline: &FullPipelineConfig,
    table_name: &str,
    primary_key: &[String],
) -> (r: Vec<RowChange>)
    ensures
        row_changes_view(r@) == direct_row_changes(
            diff_changes_view(changes@),
            pipeline.source_table@,
            pipeline.query_id@,
            table_name@,
            primary_key@,
        ),
{
    let mut row_changes: Vec<RowChange> = Vec::new();
    let mut i: usize = 0;
    assert(diff_changes_view(changes@).take(0) =~= Seq::<crate::diff::ChangeView>::empty());
    while i < changes.len()
        invariant
            i <= changes@.len(),
            row_changes_view(row_changes@) == direct_row_changes(
                diff_changes_view(changes@).take(i as int),
                pipeline.source_table@,
                pipeline.query_id@,
                table_name@,
                primary_key@,
            ),
        decreases changes@.len() - i,
    {
        let change = &changes[i];
        assert(diff_changes_view(changes@).take(i + 1).drop_last() =~= diff_changes_view(changes@).take(
            i as int,
        ));
        assert(diff_changes_view(changes@).take(i + 1).last() == change@);
        if crate::json::str_eq(change.table.as_str(), pipeline.source_table.as_str()) {
            let scs = diff_change_to_source_changes(change, primary_key);
            let ghost base = row_changes_view(row_changes@);
            let mut j: usize = 0;
            assert(source_changes_view(scs@).take(0) =~= Seq::<SourceChangeView>::empty());
            while j < scs.len()
                invariant
                    j <= scs@.len(),
                    row_changes_view(row_changes@) == base + source_row_changes(
                        pipeline.query_id@,
                        table_name@,
                        primary_key@,
                        source_changes_view(scs@).take(j as int),
                    ),
                decreases scs@.len() - j,
            {
                assert(source_changes_view(scs@).take(j + 1).drop_last() =~= source_changes_view(
                    scs@,
                ).take(j as int));
                assert(source_changes_view(scs@).take(j + 1).last() == scs@[j as int]@);
                let ivm = source_change_to_ivm_change(&scs[j]);
                let mut rcs = ivm_change_to_row_changes(&ivm, pipeline.query_id.as_str(), table_name, primary_key);
                let ghost before = row_changes_view(row_changes@);
                let ghost added = row_changes_view(rcs@);
                row_changes.append(&mut rcs);
                assert(row_changes_view(row_changes@) =~= before + added);
                j = j + 1;
            }
            assert(source_changes_view(scs@).take(scs@.len() as int) =~= source_changes_view(scs@));
        }
        i = i + 1;
    }
    assert(diff_changes_view(changes@).take(changes@.len() as int) =~= diff_changes_view(changes@));
    row_changes
}


/// `d` with `x` appended unless it already holds it.
pub open spec fn add_key(d: Seq<Seq<char>>, x: Seq<char>) -> Seq<Seq<char>> {
    if d.contains(x) {
        d
    } else {
        d.push(x)
    }
}

/// `d` with each of `s` added in turn.
pub open spec fn add_keys(d: Seq<Seq<char>>, s: Seq<Seq<char>>) -> Seq<Seq<char>>
    decreases s.len(),
{
    if s.len() == 0 {
        d
    } else {
        add_key(add_keys(d, s.drop_last()), s.last())
    }
}

pub proof fn lemma_add_keys_concat(d: Seq<Seq<char>>, a: Seq<Seq<char>>, b: Seq<Seq<char>>)
    ensures
        add_keys(d, a + b) == add_keys(add_keys(d, a), b),
    decreases b.len(),
{
    if b.len() == 0 {
        assert(a + b =~= a);
    } else {
        lemma_add_keys_concat(d, a, b.drop_last());
        assert((a + b).drop_last() =~= a + b.drop_last());
        assert((a + b).last() == b.last());
    }
}

/// The parent correlation fields of related subqueries, in order.
pub open spec fn related_parent_fields(rels: Seq<CorrelatedSubquery>) -> Seq<Seq<char>>
    decreases rels.len(),
{
    if rels.len() == 0 {
        Seq::empty()
    } else {
        related_parent_fields(rels.drop_last()) + views(rels.last().correlation.parent_field@)
    }
}

/// The parent correlation fields of the correlated subqueries of a
/// condition, and of the conditions of those subqueries, in order.
pub open spec fn cond_split_keys(c: Condition) -> Seq<Seq<char>>
    decreases c,
{
    match c {
        Condition::And { conditions } => conds_split_keys(conditions@),
        Condition::Or { conditions } => conds_split_keys(conditions@),
        Condition::CorrelatedSubquery { related, .. } => views(related.correlation.parent_field@) + (
        match related.subquery.where_cond {
            Some(inner) => cond_split_keys(*inner),
            None => Seq::empty(),
        }),
        Condition::Simple { .. } => Seq::empty(),
    }
}

pub open spec fn conds_split_keys(cs: Seq<Condition>) -> Seq<Seq<char>>
    decreases cs,
{
    if cs.len() == 0 {
        Seq::empty()
    } else {
        conds_split_keys(cs.drop_last()) + cond_split_keys(cs.last())
    }
}

/// The columns whose change splits an edit of a query's rows: the parent
/// fields of its related subqueries and of the correlated subqueries of its
/// condition.
pub open spec fn split_keys_of(ast: Ast) -> Seq<Seq<char>> {
    related_parent_fields(crate::ast_to_config::related_of(ast)) + match ast.where_cond {
        Some(c) => cond_split_keys(*c),
        None => Seq::empty(),
    }
}

fn add_key_exec(keys: &mut Vec<String>, k: &String)
    ensures
        views(final(keys)@) == add_key(views(old(keys)@), k@),
{
    let mut i: usize = 0;
    while i < keys.len()
        invariant
            i <= keys@.len(),
            forall|j: int| 0 <= j < i ==> keys@[j]@ != k@,
        decreases keys@.len() - i,
    {
        if crate::json::str_eq(keys[i].as_str(), k.as_str()) {
            assert(views(keys@)[i as int] == k@);
            return ;
        }
        i = i + 1;
    }
    assert(!views(keys@).contains(k@)) by {
        if views(keys@).contains(k@) {
            let j = choose|j: int| 0 <= j < views(keys@).len() && views(keys@)[j] == k@;
            assert(keys@[j]@ == k@);
        }
    }
    let ghost before = keys@;
    keys.push(k.clone());
    assert(views(keys@) =~= views(before).push(k@));
}

fn add_fields(keys: &mut Vec<String>, fields: &Vec<String>)
    ensures
        views(final(keys)@) == add_keys(views(old(keys)@), views(fields@)),
{
    let mut i: usize = 0;
    assert(views(fields@).take(0) =~= Seq::<Seq<char>>::empty());
    while i < fields.len()
        invariant
            i <= fields@.len(),
            views(keys@) == add_keys(views(old(keys)@), views(fields@).take(i as int)),
        decreases fields@.len() - i,
    {
        assert(views(fields@).take(i + 1).drop_last() =~= views(fields@).take(i as int));
        add_key_exec(keys, &fields[i]);
        i = i + 1;
    }
    assert(views(fields@).take(fields@.len() as int) =~= views(fields@));
}

fn collect_split_keys_from_cond(cond: &Condition, keys: &mut Vec<String>)
    ensures
        views(final(keys)@) == add_keys(views(old(keys)@), cond_split_keys(*cond)),
    decreases cond,
{
    match cond {
        Condition::And { conditions } => {
            proof {
                assert(decreases_to!(*cond => cond->And_conditions));
            }
            collect_split_keys_from_conds(conditions, keys);
        },
        Condition::Or { conditions } => {
            proof {
                assert(decreases_to!(*cond => cond->Or_conditions));
            }
            collect_split_keys_from_conds(conditions, keys);
        },
        Condition::CorrelatedSubquery { related, .. } => {
            let ghost k0 = views(keys@);
            add_fields(keys, &related.correlation.parent_field);
            match &related.subquery.where_cond {
                Some(inner) => {
                    proof {
                        assert(decreases_to!(*cond => cond->CorrelatedSubquery_related));
                        assert(decreases_to!(cond->CorrelatedSubquery_related => related.subquery));
                        assert(decreases_to!(related.subquery => related.subquery.where_cond));
                    }
                    collect_split_keys_from_cond(inner, keys);
                    proof {
                        lemma_add_keys_concat(k0, views(related.correlation.parent_field@), cond_split_keys(**inner));
                    }
                },
                None => {
                    assert(views(related.correlation.parent_field@) + Seq::<Seq<char>>::empty() =~= views(
                        related.correlation.parent_field@,
                    ));
                },
            }
        },
        Condition::Simple { .. } => {},
    }
}

fn collect_split_keys_from_conds(cs: &Vec<Condition>, keys: &mut Vec<String>)
    ensures
        views(final(keys)@) == add_keys(views(old(keys)@), conds_split_keys(cs@)),
    decreases cs,
{
    let mut i: usize = 0;
    assert(cs@.take(0) =~= Seq::<Condition>::empty());
    while i < cs.len()
        invariant
            i <= cs@.len(),
            views(keys@) == add_keys(views(old(keys)@), conds_split_keys(cs@.take(i as int))),
        decreases cs@.len() - i,
    {
        proof {
            assert(decreases_to!(*cs => cs@));
            assert(decreases_to!(cs@ => cs@[i as int]));
        }
        assert(cs@.take(i + 1).drop_last() =~= cs@.take(i as int));
        assert(cs@.take(i + 1).last() == cs@[i as int]);
        collect_split_keys_from_cond(&cs[i], keys);
        proof {
            lemma_add_keys_concat(
                views(old(keys)@),
                conds_split_keys(cs@.take(i as int)),
                cond_split_keys(cs@[i as int]),
            );
        }
        i = i + 1;
    }
    assert(cs@.take(cs@.len() as int) =~= cs@);
}

/// The columns whose change must split an edit into a remove and an add (so
/// that joins and exists checks see the change of membership), each once, in
/// the order first met.
pub fn collect_split_edit_keys(ast: &Ast) -> (r: Vec<String>)
    ensures
        views(r@) == add_keys(Seq::empty(), split_keys_of(*ast)),
{
    let mut keys: Vec<String> = Vec::new();
    assert(views(keys@) =~= Seq::<Seq<char>>::empty());
    let ghost rels_fields: Seq<Seq<char>>;
    match &ast.related {
        Some(related) => {
            let mut i: usize = 0;
            assert(related@.take(0) =~= Seq::<CorrelatedSubquery>::empty());
            while i < related.len()
                invariant
                    i <= related@.len(),
                    views(keys@) == add_keys(Seq::empty(), related_parent_fields(related@.take(i as int))),
                decreases related@.len() - i,
            {
                assert(related@.take(i + 1).drop_last() =~= related@.take(i as int));
                assert(related@.take(i + 1).last() == related@[i as int]);
                let ghost before = views(keys@);
                add_fields(&mut keys, &related[i].correlation.parent_field);
                proof {
                    lemma_add_keys_concat(
                        Seq::empty(),
                        related_parent_fields(related@.take(i as int)),
                        views(related@[i as int].correlation.parent_field@),
                    );
                }
                i = i + 1;
            }
            assert(related@.take(related@.len() as int) =~= related@);
            proof {
                rels_fields = related_parent_fields(related@);
            }
        },
        None => {
            proof {
                rels_fields = Seq::empty();
            }
        },
    }
    assert(rels_fields == related_parent_fields(crate::ast_to_config::related_of(*ast)));
    match &ast.where_cond {
        Some(cond) => {
            collect_split_keys_from_cond(cond, &mut keys);
            proof {
                lemma_add_keys_concat(Seq::empty(), rels_fields, cond_split_keys(**cond));
            }
        },
        None => {
            assert(rels_fields + Seq::<Seq<char>>::empty() =~= rels_fields);
        },
    }
    keys
}

// --- Laws of splitting edits and collecting split keys ---

/// The rows a table holds after a change: an add puts the row in, a remove
/// takes it out, an edit takes the old row out and puts the new one in.
pub open spec fn apply_change(s: Set<RowView>, c: SourceChangeView) -> Set<RowView> {
    match c {
        SourceChangeView::Add(r) => s.insert(r),
        SourceChangeView::Remove(r) => s.remove(r),
        SourceChangeView::Edit { row, old_row } => s.remove(old_row).insert(row),
    }
}

/// The rows a table holds after the changes, in order.
pub open spec fn apply_changes(s: Set<RowView>, cs: Seq<SourceChangeView>) -> Set<RowView>
    decreases cs.len(),
{
    if cs.len() == 0 {
        s
    } else {
        apply_changes(apply_change(s, cs[0]), cs.drop_first())
    }
}

/// Splitting an edit never changes what the table ends up holding: the
/// remove and the add that replace it leave the same rows as the edit.
pub proof fn lemma_split_edit_same_effect(s: Set<RowView>, sc: SourceChangeView, keys: Seq<String>)
    ensures
        apply_changes(s, split_edit(sc, keys)) == apply_change(s, sc),
{
    reveal_with_fuel(apply_changes, 3);
    let out = split_edit(sc, keys);
    if let SourceChangeView::Edit { row, old_row } = sc {
        if split_key_changed(keys, row, old_row) {
            assert(out.drop_first().drop_first() =~= Seq::<SourceChangeView>::empty());
        } else {
            assert(out.drop_first() =~= Seq::<SourceChangeView>::empty());
        }
    } else {
        assert(out.drop_first() =~= Seq::<SourceChangeView>::empty());
    }
}

/// No key occurs twice.
pub open spec fn no_repeats(d: Seq<Seq<char>>) -> bool {
    forall|i: int, j: int| 0 <= i < j < d.len() ==> #[trigger] d[i] != #[trigger] d[j]
}

/// Collecting keys keeps each once: adding keys to a list without repeats
/// gives a list without repeats that holds exactly the old and the added
/// keys, with the old ones first and in place.
pub proof fn lemma_add_keys_once(d: Seq<Seq<char>>, s: Seq<Seq<char>>)
    requires
        no_repeats(d),
    ensures
        no_repeats(add_keys(d, s)),
        forall|x: Seq<char>| #[trigger] add_keys(d, s).contains(x) <==> d.contains(x) || s.contains(x),
        add_keys(d, s).len() >= d.len(),
        add_keys(d, s).take(d.len() as int) == d,
    decreases s.len(),
{
    if s.len() > 0 {
        let prev = add_keys(d, s.drop_last());
        lemma_add_keys_once(d, s.drop_last());
        let x = s.last();
        let out = add_keys(d, s);
        assert(out == add_key(prev, x));
        assert forall|y: Seq<char>| #[trigger] out.contains(y) <==> d.contains(y) || s.contains(y) by {
            if s.contains(y) && !s.drop_last().contains(y) {
                let k = choose|k: int| 0 <= k < s.len() && s[k] == y;
                if k < s.len() - 1 {
                    assert(s.drop_last()[k] == y);
                }
                if !prev.contains(x) {
                    assert(out[prev.len() as int] == x);
                }
            }
            if s.drop_last().contains(y) {
                let k = choose|k: int| 0 <= k < s.drop_last().len() && s.drop_last()[k] == y;
                assert(s[k] == y);
            }
            if out.contains(y) && !prev.contains(y) {
                let k = choose|k: int| 0 <= k < out.len() && out[k] == y;
                if k < prev.len() {
                    assert(prev[k] == y);
                }
                assert(s[s.len() - 1] == y);
            }
            if prev.contains(y) && !prev.contains(x) {
                let k = choose|k: int| 0 <= k < prev.len() && prev[k] == y;
                assert(out[k] == y);
            }
        }
        if !prev.contains(x) {
            assert forall|i: int, j: int| 0 <= i < j < out.len() implies #[trigger] out[i] != #[trigger] out[j] by {
                if j == prev.len() {
                    assert(prev[i] == out[i]);
                } else {
                    assert(prev[i] == out[i] && prev[j] == out[j]);
                }
            }
            assert(out.take(d.len() as int) =~= prev.take(d.len() as int));
        }
    }
}


/// The text a row change is told apart by: its table, its key as JSON text
/// and its change type, joined by `|`.
pub open spec fn change_key(c: RowChangeView) -> Seq<char> {
    c.table + "|"@ + crate::json::json_text(c.row_key) + "|"@ + c.change_type
}

/// The changes of `cs` whose text (`change_key`) no earlier change has, in
/// order.
pub open spec fn first_of_each(cs: Seq<RowChangeView>) -> Seq<RowChangeView>
    decreases cs.len(),
{
    if cs.len() == 0 {
        Seq::empty()
    } else if cs.drop_last().map_values(|c: RowChangeView| change_key(c)).contains(change_key(cs.last())) {
        first_of_each(cs.drop_last())
    } else {
        first_of_each(cs.drop_last()).push(cs.last())
    }
}

/// The entries of a row whose column the list names, in order.
pub open spec fn listed_columns(row: RowView, cols: Seq<(String, String)>) -> RowView
    decreases row.len(),
{
    if row.len() == 0 {
        Seq::empty()
    } else if assoc_get(cols, row.last().0) is Some {
        listed_columns(row.drop_last(), cols).push(row.last())
    } else {
        listed_columns(row.drop_last(), cols)
    }
}

/// A row change as a client receives it: where column types are given and
/// list its table, its row keeps only the listed columns.
pub open spec fn trimmed_change(c: RowChangeView, ct: Option<ColumnTypes>) -> RowChangeView {
    match (ct, c.row) {
        (Some(m), Some(r)) => match assoc_get(m@, c.table) {
            Some(cols) => RowChangeView { row: Some(listed_columns(r, cols@)), ..c },
            None => c,
        },
        _ => c,
    }
}

fn change_key_exec(c: &RowChange) -> (k: String)
    ensures
        k@ == change_key(c@),
{
    let mut k = c.table.clone();
    k.append("|");
    k.append(crate::json::to_json_string(&c.row_key).as_str());
    k.append("|");
    k.append(c.change_type.as_str());
    proof {
        reveal_strlit("|");
    }
    k
}

fn texts_contain(ts: &Vec<String>, t: &String) -> (r: bool)
    ensures
        r == views(ts@).contains(t@),
{
    let mut i: usize = 0;
    while i < ts.len()
        invariant
            i <= ts@.len(),
            forall|k: int| 0 <= k < i ==> ts@[k]@ != t@,
        decreases ts@.len() - i,
    {
        if crate::json::str_eq(ts[i].as_str(), t.as_str()) {
            assert(views(ts@)[i as int] == t@);
            return true;
        }
        i = i + 1;
    }
    assert(!views(ts@).contains(t@)) by {
        if views(ts@).contains(t@) {
            let k = choose|k: int| 0 <= k < views(ts@).len() && views(ts@)[k] == t@;
            assert(ts@[k]@ == t@);
        }
    }
    false
}

fn keep_listed(row: &Row, cols: &Vec<(String, String)>) -> (r: Row)
    ensures
        r@ == listed_columns(row@, cols@),
{
    let mut es: Vec<(String, JsonValue)> = Vec::new();
    let mut i: usize = 0;
    proof {
        crate::json::lemma_entries_view(row.entries@);
        crate::json::lemma_entries_view(es@);
        assert(row@.take(0) =~= Seq::<(Seq<char>, JsonView)>::empty());
        assert(crate::json::entries_view(es@) =~= Seq::<(Seq<char>, JsonView)>::empty());
    }
    while i < row.entries.len()
        invariant
            i <= row.entries@.len(),
            row@.len() == row.entries@.len(),
            forall|k: int|
                0 <= k < row.entries@.len() ==> #[trigger] row@[k] == (row.entries@[k].0@, row.entries@[k].1@),
            crate::json::entries_view(es@) == listed_columns(row@.take(i as int), cols@),
        decreases row.entries@.len() - i,
    {
        assert(row@.take(i + 1).drop_last() =~= row@.take(i as int));
        assert(row@.take(i + 1).last() == row@[i as int]);
        if assoc_find(cols, row.entries[i].0.as_str()).is_some() {
            let ghost before = es@;
            let e = (row.entries[i].0.clone(), row.entries[i].1.duplicate());
            es.push(e);
            proof {
                crate::json::lemma_entries_view(before);
                crate::json::lemma_entries_view(es@);
                assert(crate::json::entries_view(es@) =~= crate::json::entries_view(before).push(row@[i as int]));
            }
        }
        i = i + 1;
    }
    assert(row@.take(row@.len() as int) =~= row@);
    JsonMap { entries: es }
}

fn trim_change(c: &RowChange, column_types: &Option<ColumnTypes>) -> (r: RowChange)
    ensures
        r@ == trimmed_change(c@, *column_types),
{
    let row = match (column_types, &c.row) {
        (Some(m), Some(r)) => match assoc_find(m, c.table.as_str()) {
            Some(cols) => Some(keep_listed(r, cols)),
            None => Some(r.duplicate()),
        },
        (_, Some(r)) => Some(r.duplicate()),
        (_, None) => None,
    };
    RowChange {
        query_id: c.query_id.clone(),
        table: c.table.clone(),
        row_key: c.row_key.duplicate(),
        row,
        change_type: c.change_type.clone(),
    }
}

/// What an advance hands back: the first change of each table, key and
/// change type (later repeats dropped), each row cut to the columns that the
/// column types list for its table.
pub fn finish_advance(rcs: Vec<RowChange>, column_types: &Option<ColumnTypes>) -> (r: Vec<RowChange>)
    ensures
        row_changes_view(r@) == first_of_each(row_changes_view(rcs@)).map_values(
            |c: RowChangeView| trimmed_change(c, *column_types),
        ),
{
    let ghost all = row_changes_view(rcs@);
    let mut seen: Vec<String> = Vec::new();
    let mut out: Vec<RowChange> = Vec::new();
    let mut i: usize = 0;
    assert(all.take(0) =~= Seq::<RowChangeView>::empty());
    assert(views(seen@) =~= all.take(0).map_values(|c: RowChangeView| change_key(c)));
    assert(row_changes_view(out@) =~= first_of_each(all.take(0)).map_values(
        |c: RowChangeView| trimmed_change(c, *column_types),
    ));
    while i < rcs.len()
        invariant
            i <= rcs@.len(),
            all == row_changes_view(rcs@),
            views(seen@) == all.take(i as int).map_values(|c: RowChangeView| change_key(c)),
            row_changes_view(out@) == first_of_each(all.take(i as int)).map_values(
                |c: RowChangeView| trimmed_change(c, *column_types),
            ),
        decreases rcs@.len() - i,
    {
        let ghost cur = all.take(i + 1);
        assert(cur.drop_last() =~= all.take(i as int));
        assert(cur.last() == rcs@[i as int]@);
        let k = change_key_exec(&rcs[i]);
        let ghost before_seen = seen@;
        let ghost before_out = out@;
        if !texts_contain(&seen, &k) {
            let t = trim_change(&rcs[i], column_types);
            out.push(t);
            assert(row_changes_view(out@) =~= row_changes_view(before_out).push(t@));
        }
        seen.push(k);
        assert(views(seen@) =~= views(before_seen).push(k@));
        assert(cur.map_values(|c: RowChangeView| change_key(c)) =~= all.take(i as int).map_values(
            |c: RowChangeView| change_key(c),
        ).push(change_key(cur.last())));
        assert(first_of_each(cur).map_values(|c: RowChangeView| trimmed_change(c, *column_types))
            =~= row_changes_view(out@));
        i = i + 1;
    }
    assert(all.take(rcs@.len() as int) =~= all);
    out
}


/// The number of related rows under nodes, at every depth.
pub open spec fn related_count(rels: Seq<(Seq<char>, Seq<NodeView>)>) -> nat
    decreases rels,
{
    if rels.len() == 0 {
        0
    } else {
        related_count(rels.drop_last()) + nodes_count(rels.last().1)
    }
}

/// The number of nodes in a list, with every node related to them at every
/// depth.
pub open spec fn nodes_count(ns: Seq<NodeView>) -> nat
    decreases ns,
{
    if ns.len() == 0 {
        0
    } else {
        nodes_count(ns.drop_last()) + 1 + related_count(ns.last().relationships)
    }
}

proof fn lemma_children_flat(
    q: Seq<char>,
    rel: Seq<char>,
    children: Seq<NodeView>,
    t: Seq<char>,
    pks: Seq<(String, Vec<String>)>,
)
    ensures
        children_flat(q, rel, children, t, pks).len() == nodes_count(children),
        forall|i: int|
            0 <= i < children_flat(q, rel, children, t, pks).len() ==> (#[trigger] children_flat(
                q,
                rel,
                children,
                t,
                pks,
            )[i]).query_id == q && children_flat(q, rel, children, t, pks)[i].change_type == t,
    decreases children,
{
    if children.len() > 0 {
        let c = children.last();
        lemma_children_flat(q, rel, children.drop_last(), t, pks);
        lemma_rels_flat(q, c.relationships, t, pks);
        let a = children_flat(q, rel, children.drop_last(), t, pks);
        let m = seq![
            row_change(
                q,
                rel,
                related_key(c.row, rel, pks),
                if t == "remove"@ {
                    None
                } else {
                    Some(c.row)
                },
                t,
            ),
        ];
        let b = rels_flat(q, c.relationships, t, pks);
        let all = children_flat(q, rel, children, t, pks);
        assert(all == a + m + b);
        assert forall|i: int| 0 <= i < all.len() implies (#[trigger] all[i]).query_id == q && all[i].change_type == t by {
            if i < a.len() {
                assert(all[i] == a[i]);
            } else if i == a.len() {
                assert(all[i] == m[0]);
            } else {
                assert(all[i] == b[i - a.len() - 1]);
            }
        }
    }
}

proof fn lemma_rels_flat(
    q: Seq<char>,
    rels: Seq<(Seq<char>, Seq<NodeView>)>,
    t: Seq<char>,
    pks: Seq<(String, Vec<String>)>,
)
    ensures
        rels_flat(q, rels, t, pks).len() == related_count(rels),
        forall|i: int|
            0 <= i < rels_flat(q, rels, t, pks).len() ==> (#[trigger] rels_flat(q, rels, t, pks)[i]).query_id
                == q && rels_flat(q, rels, t, pks)[i].change_type == t,
    decreases rels,
{
    if rels.len() > 0 {
        lemma_rels_flat(q, rels.drop_last(), t, pks);
        lemma_children_flat(q, rels.last().0, rels.last().1, t, pks);
        let a = rels_flat(q, rels.drop_last(), t, pks);
        let b = children_flat(q, rels.last().0, rels.last().1, t, pks);
        let all = rels_flat(q, rels, t, pks);
        assert(all == a + b);
        assert forall|i: int| 0 <= i < all.len() implies (#[trigger] all[i]).query_id == q && all[i].change_type == t by {
            if i < a.len() {
                assert(all[i] == a[i]);
            } else {
                assert(all[i] == b[i - a.len()]);
            }
        }
    }
}

/// Flattening the related rows under a node sends one row change per
/// related row at every depth of its tree, each of the query and of the
/// change's type.
pub proof fn lemma_flatten_counts_every_related_row(
    q: Seq<char>,
    rels: Seq<(Seq<char>, Seq<NodeView>)>,
    t: Seq<char>,
    pks: Seq<(String, Vec<String>)>,
)
    ensures
        rels_flat(q, rels, t, pks).len() == related_count(rels),
        forall|i: int|
            0 <= i < rels_flat(q, rels, t, pks).len() ==> (#[trigger] rels_flat(q, rels, t, pks)[i]).query_id
                == q && rels_flat(q, rels, t, pks)[i].change_type == t,
{
    lemma_rels_flat(q, rels, t, pks);
}


/// Flattening an added or removed row sends the row itself and then one row
/// change per related row at every depth of its tree.
pub proof fn lemma_flatten_node_counts(
    q: Seq<char>,
    table: Seq<char>,
    pk: Seq<String>,
    n: NodeView,
    pks: Seq<(String, Vec<String>)>,
)
    ensures
        change_flat(q, table, pk, NodeChangeView::Add(n), pks).len() == 1 + related_count(n.relationships),
        change_flat(q, table, pk, NodeChangeView::Remove(n), pks).len() == 1 + related_count(n.relationships),
{
    lemma_rels_flat(q, n.relationships, "add"@, pks);
    lemma_rels_flat(q, n.relationships, "remove"@, pks);
}

} // verus!
