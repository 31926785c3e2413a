//! The JSON form of nodes and of the changes pushed through operators, as
//! the JavaScript side writes and reads them.
//!
//! A node is `{"row": {..}, "relationships": {name: [node, ..], ..}}`. A
//! change is a triple `[type, node, extra]`: `[0, node, null]` for an add,
//! `[1, node, null]` for a remove, `[2, node, {"relationship_name": name,
//! "change": change}]` for a change below a related row and
//! `[3, node, old_node]` for an edit.
use vstd::prelude::*;

use crate::json::{int_number, lemma_entries_view, lemma_json_views, JsonMap, JsonNumber, JsonValue, JsonView, NumberKind};
use crate::source::{
    lemma_nodes_view, lemma_rels_view, nodes_view, rels_view, Change, ChangeView, ChildChange, Node, NodeView,
};
use crate::text::{decimal, push_decimal};

verus! {

// --- Writing ---

pub open spec fn node_json(n: NodeView) -> JsonView
    decreases n,
{
    JsonView::Object(
        seq![("row"@, JsonView::Object(n.row)), ("relationships"@, JsonView::Object(rels_json(n.relationships)))],
    )
}

pub open spec fn rels_json(rs: Seq<(Seq<char>, Seq<NodeView>)>) -> Seq<(Seq<char>, JsonView)>
    decreases rs,
{
    if rs.len() == 0 {
        Seq::empty()
    } else {
        seq![(rs[0].0, JsonView::Array(nodes_json(rs[0].1)))] + rels_json(rs.drop_first())
    }
}

pub open spec fn nodes_json(ns: Seq<NodeView>) -> Seq<JsonView>
    decreases ns,
{
    if ns.len() == 0 {
        Seq::empty()
    } else {
        seq![node_json(ns[0])] + nodes_json(ns.drop_first())
    }
}

/// The number that tags a change's type.
pub open spec fn tag(k: i64) -> JsonView {
    JsonView::Number(int_number(k))
}

pub open spec fn change_json(c: ChangeView) -> JsonView
    decreases c,
{
    match c {
        ChangeView::Add(n) => JsonView::Array(seq![tag(0), node_json(n), JsonView::Null]),
        ChangeView::Remove(n) => JsonView::Array(seq![tag(1), node_json(n), JsonView::Null]),
        ChangeView::Child { node, relationship_name, change } => JsonView::Array(
            seq![
                tag(2),
                node_json(node),
                JsonView::Object(
                    seq![
                        ("relationship_name"@, JsonView::Str(relationship_name)),
                        ("change"@, change_json(*change)),
                    ],
                ),
            ],
        ),
        ChangeView::Edit { node, old_node } => JsonView::Array(
            seq![tag(3), node_json(node), node_json(old_node)],
        ),
    }
}

proof fn lemma_nodes_json(ns: Seq<NodeView>)
    ensures
        nodes_json(ns).len() == ns.len(),
        forall|i: int| 0 <= i < ns.len() ==> #[trigger] nodes_json(ns)[i] == node_json(ns[i]),
    decreases ns.len(),
{
    if ns.len() > 0 {
        lemma_nodes_json(ns.drop_first());
        assert forall|i: int| 0 <= i < ns.len() implies #[trigger] nodes_json(ns)[i] == node_json(ns[i]) by {
            if i > 0 {
                assert(ns.drop_first()[i - 1] == ns[i]);
            }
        }
    }
}

proof fn lemma_rels_json(rs: Seq<(Seq<char>, Seq<NodeView>)>)
    ensures
        rels_json(rs).len() == rs.len(),
        forall|i: int|
            0 <= i < rs.len() ==> #[trigger] rels_json(rs)[i] == (rs[i].0, JsonView::Array(nodes_json(rs[i].1))),
    decreases rs.len(),
{
    if rs.len() > 0 {
        lemma_rels_json(rs.drop_first());
        assert forall|i: int| 0 <= i < rs.len() implies #[trigger] rels_json(rs)[i] == (
            rs[i].0,
            JsonView::Array(nodes_json(rs[i].1)),
        ) by {
            if i > 0 {
                assert(rs.drop_first()[i - 1] == rs[i]);
            }
        }
    }
}

fn object_of(entries: Vec<(String, JsonValue)>) -> (v: JsonValue)
    ensures
        v@ == JsonView::Object(crate::json::entries_view(entries@)),
{
    JsonValue::Object(JsonMap { entries })
}

/// The JSON form of a node.
pub fn node_to_json(n: &Node) -> (v: JsonValue)
    ensures
        v@ == node_json(n@),
    decreases n,
{
    let ghost rs = n.relationships@;
    proof {
        lemma_rels_view(rs);
        lemma_rels_json(rels_view(rs));
    }
    let mut rels: Vec<(String, JsonValue)> = Vec::new();
    let mut i: usize = 0;
    while i < n.relationships.len()
        invariant
            i <= rs.len(),
            rs == n.relationships@,
            rels_view(rs).len() == rs.len(),
            forall|k: int| 0 <= k < rs.len() ==> #[trigger] rels_view(rs)[k] == (rs[k].0@, nodes_view(rs[k].1@)),
            rels_json(rels_view(rs)).len() == rs.len(),
            forall|k: int|
                0 <= k < rs.len() ==> #[trigger] rels_json(rels_view(rs))[k] == (
                    rels_view(rs)[k].0,
                    JsonView::Array(nodes_json(rels_view(rs)[k].1)),
                ),
            rels@.len() == i,
            forall|k: int|
                0 <= k < i ==> (#[trigger] rels@[k]).0@ == rels_json(rels_view(rs))[k].0 && rels@[k].1@
                    == rels_json(rels_view(rs))[k].1,
        decreases rs.len() - i,
    {
        let children = &n.relationships[i].1;
        let ghost cs = children@;
        proof {
            lemma_nodes_view(cs);
            lemma_nodes_json(nodes_view(cs));
        }
        let mut arr: Vec<JsonValue> = Vec::new();
        let mut j: usize = 0;
        while j < children.len()
            invariant
                j <= cs.len(),
                cs == children@,
                i < rs.len(),
                rs == n.relationships@,
                *children == rs[i as int].1,
                nodes_view(cs).len() == cs.len(),
                forall|k: int| 0 <= k < cs.len() ==> #[trigger] nodes_view(cs)[k] == cs[k]@,
                nodes_json(nodes_view(cs)).len() == cs.len(),
                forall|k: int|
                    0 <= k < cs.len() ==> #[trigger] nodes_json(nodes_view(cs))[k] == node_json(nodes_view(cs)[k]),
                arr@.len() == j,
                forall|k: int| 0 <= k < j ==> (#[trigger] arr@[k])@ == nodes_json(nodes_view(cs))[k],
            decreases cs.len() - j,
        {
            proof {
                assert(decreases_to!(*n => n.relationships));
                assert(decreases_to!(n.relationships => n.relationships@));
                assert(decreases_to!(n.relationships@ => n.relationships@[i as int]));
                assert(decreases_to!(n.relationships@[i as int] => n.relationships@[i as int].1));
                assert(decreases_to!(n.relationships@[i as int].1 => n.relationships@[i as int].1@));
                assert(decreases_to!(n.relationships@[i as int].1@ => n.relationships@[i as int].1@[j as int]));
            }
            let child = node_to_json(&children[j]);
            arr.push(child);
            j = j + 1;
        }
        proof {
            lemma_json_views(arr@);
            assert(crate::json::json_views(arr@) =~= nodes_json(nodes_view(cs)));
        }
        rels.push((n.relationships[i].0.clone(), JsonValue::Array(arr)));
        i = i + 1;
    }
    proof {
        lemma_entries_view(rels@);
        assert(crate::json::entries_view(rels@) =~= rels_json(rels_view(rs)));
    }
    let mut entries: Vec<(String, JsonValue)> = Vec::new();
    entries.push((String::from_str("row"), JsonValue::Object(n.row.duplicate())));
    entries.push((String::from_str("relationships"), object_of(rels)));
    proof {
        lemma_entries_view(entries@);
        assert(crate::json::entries_view(entries@) =~= seq![
            ("row"@, JsonView::Object(n.row@)),
            ("relationships"@, JsonView::Object(rels_json(n@.relationships))),
        ]);
    }
    object_of(entries)
}

fn tag_json(k: i64) -> (v: JsonValue)
    ensures
        v@ == tag(k),
{
    JsonValue::Number(JsonNumber::from_i64(k))
}

fn array_of3(a: JsonValue, b: JsonValue, c: JsonValue) -> (v: JsonValue)
    ensures
        v@ == JsonView::Array(seq![a@, b@, c@]),
{
    let mut xs: Vec<JsonValue> = Vec::new();
    xs.push(a);
    xs.push(b);
    xs.push(c);
    proof {
        lemma_json_views(xs@);
        assert(crate::json::json_views(xs@) =~= seq![a@, b@, c@]);
    }
    JsonValue::Array(xs)
}

/// The JSON form of a change.
pub fn change_to_json(c: &Change) -> (v: JsonValue)
    ensures
        v@ == change_json(c@),
    decreases c,
{
    match c {
        Change::Add(n) => array_of3(tag_json(0), node_to_json(n), JsonValue::Null),
        Change::Remove(n) => array_of3(tag_json(1), node_to_json(n), JsonValue::Null),
        Change::Child { node, child } => {
            proof {
                assert(decreases_to!(*c => *child));
                assert(decreases_to!(*child => child.change));
            }
            let inner = change_to_json(&child.change);
            let mut entries: Vec<(String, JsonValue)> = Vec::new();
            entries.push((String::from_str("relationship_name"), JsonValue::String(child.relationship_name.clone())));
            entries.push((String::from_str("change"), inner));
            proof {
                lemma_entries_view(entries@);
                assert(crate::json::entries_view(entries@) =~= seq![
                    ("relationship_name"@, JsonView::Str(child.relationship_name@)),
                    ("change"@, change_json(child.change@)),
                ]);
            }
            array_of3(tag_json(2), node_to_json(node), object_of(entries))
        },
        Change::Edit { node, old_node } => array_of3(tag_json(3), node_to_json(node), node_to_json(old_node)),
    }
}

// --- Reading ---

/// Index of the first entry with key `k`, -1 when there is none.
pub open spec fn key_at(es: Seq<(Seq<char>, JsonView)>, k: Seq<char>) -> int
    decreases es.len(),
{
    if es.len() == 0 {
        -1
    } else if es[0].0 == k {
        0
    } else {
        let r = key_at(es.drop_first(), k);
        if r < 0 {
            -1
        } else {
            r + 1
        }
    }
}

proof fn lemma_key_at(es: Seq<(Seq<char>, JsonView)>, k: Seq<char>, i: int)
    requires
        0 <= i <= es.len(),
        forall|j: int| 0 <= j < i ==> (#[trigger] es[j]).0 != k,
    ensures
        i < es.len() && es[i].0 == k ==> key_at(es, k) == i,
        i == es.len() ==> key_at(es, k) == -1,
    decreases i,
{
    if i > 0 {
        let rest = es.drop_first();
        assert forall|j: int| 0 <= j < i - 1 implies (#[trigger] rest[j]).0 != k by {
            assert(rest[j] == es[j + 1]);
        }
        lemma_key_at(rest, k, i - 1);
        assert(es[0].0 != k);
    }
}

/// The node a JSON value stands for: an object with a `row` object and a
/// `relationships` object whose values are arrays of nodes.
pub open spec fn node_of_json(v: JsonView) -> Option<NodeView>
    decreases v,
{
    match v {
        JsonView::Object(es) => {
            let ri = key_at(es, "row"@);
            let li = key_at(es, "relationships"@);
            if 0 <= ri < es.len() && 0 <= li < es.len() {
                match es[ri].1 {
                    JsonView::Object(row) => match es[li].1 {
                        JsonView::Object(rs) => match rels_of_json(rs) {
                            Some(r) => Some(NodeView { row, relationships: r }),
                            None => None,
                        },
                        _ => None,
                    },
                    _ => None,
                }
            } else {
                None
            }
        },
        _ => None,
    }
}

pub open spec fn rels_of_json(rs: Seq<(Seq<char>, JsonView)>) -> Option<Seq<(Seq<char>, Seq<NodeView>)>>
    decreases rs,
{
    if rs.len() == 0 {
        Some(Seq::empty())
    } else {
        match rs[0].1 {
            JsonView::Array(items) => match nodes_of_json(items) {
                Some(ns) => match rels_of_json(rs.drop_first()) {
                    Some(rest) => Some(seq![(rs[0].0, ns)] + rest),
                    None => None,
                },
                None => None,
            },
            _ => None,
        }
    }
}

pub open spec fn nodes_of_json(items: Seq<JsonView>) -> Option<Seq<NodeView>>
    decreases items,
{
    if items.len() == 0 {
        Some(Seq::empty())
    } else {
        match node_of_json(items[0]) {
            Some(n) => match nodes_of_json(items.drop_first()) {
                Some(rest) => Some(seq![n] + rest),
                None => None,
            },
            None => None,
        }
    }
}

/// serde_json's `as_u64`.
pub open spec fn as_u64(v: JsonView) -> Option<u64> {
    match v {
        JsonView::Number(n) => match n.kind {
            NumberKind::PosInt => Some(n.pos),
            _ => None,
        },
        _ => None,
    }
}

/// The change a JSON value stands for, or why it stands for none.
pub open spec fn change_of_json(v: JsonView) -> Result<ChangeView, Seq<char>>
    decreases v,
{
    match v {
        JsonView::Array(items) => if items.len() != 3 {
            Err("Change tuple must have 3 elements"@)
        } else {
            match as_u64(items[0]) {
                None => Err("Change type must be a number"@),
                Some(t) => if t > 3 {
                    Err("Unknown change type: "@ + decimal(t as nat))
                } else {
                    match node_of_json(items[1]) {
                        None => Err("Change node is not a node"@),
                        Some(node) => if t == 0 {
                            Ok(ChangeView::Add(node))
                        } else if t == 1 {
                            Ok(ChangeView::Remove(node))
                        } else if t == 3 {
                            match node_of_json(items[2]) {
                                Some(old_node) => Ok(ChangeView::Edit { node, old_node }),
                                None => Err("Change old node is not a node"@),
                            }
                        } else {
                            match items[2] {
                                JsonView::Object(es) => {
                                    let ni = key_at(es, "relationship_name"@);
                                    let ci = key_at(es, "change"@);
                                    if 0 <= ni < es.len() && 0 <= ci < es.len() {
                                        match es[ni].1 {
                                            JsonView::Str(name) => match change_of_json(es[ci].1) {
                                                Ok(change) => Ok(
                                                    ChangeView::Child {
                                                        node,
                                                        relationship_name: name,
                                                        change: Box::new(change),
                                                    },
                                                ),
                                                Err(e) => Err(e),
                                            },
                                            _ => Err("Child change is not a child change"@),
                                        }
                                    } else {
                                        Err("Child change is not a child change"@)
                                    }
                                },
                                _ => Err("Child change is not a child change"@),
                            }
                        },
                    }
                },
            }
        },
        _ => Err("Change must be an array"@),
    }
}

/// The index of the first entry with key `k`.
fn find_key(entries: &Vec<(String, JsonValue)>, k: &str) -> (r: Option<usize>)
    ensures
        match r {
            Some(i) => i == key_at(crate::json::entries_view(entries@), k@) && i < entries@.len(),
            None => key_at(crate::json::entries_view(entries@), k@) == -1,
        },
{
    let ghost es = crate::json::entries_view(entries@);
    proof {
        lemma_entries_view(entries@);
    }
    let mut i: usize = 0;
    while i < entries.len()
        invariant
            i <= entries@.len(),
            es == crate::json::entries_view(entries@),
            es.len() == entries@.len(),
            forall|j: int| 0 <= j < entries@.len() ==> #[trigger] es[j] == (entries@[j].0@, crate::json::json_view(entries@[j].1)),
            forall|j: int| 0 <= j < i ==> (#[trigger] es[j]).0 != k@,
        decreases entries@.len() - i,
    {
        if crate::json::str_eq(entries[i].0.as_str(), k) {
            proof {
                lemma_key_at(es, k@, i as int);
            }
            return Some(i);
        }
        i = i + 1;
    }
    proof {
        lemma_key_at(es, k@, i as int);
    }
    None
}

/// Reads a node from its JSON form; `None` when the value is not one.
pub fn node_from_json(v: &JsonValue) -> (r: Option<Node>)
    ensures
        match r {
            Some(n) => node_of_json(v@) == Some(n@),
            None => node_of_json(v@) is None,
        },
    decreases v,
{
    let m = match v {
        JsonValue::Object(m) => m,
        _ => {
            return None;
        },
    };
    let ghost es = m@;
    proof {
        lemma_entries_view(m.entries@);
    }
    let ri = match find_key(&m.entries, "row") {
        Some(i) => i,
        None => {
            return None;
        },
    };
    let li = match find_key(&m.entries, "relationships") {
        Some(i) => i,
        None => {
            return None;
        },
    };
    let row = match &m.entries[ri].1 {
        JsonValue::Object(row) => row.duplicate(),
        _ => {
            return None;
        },
    };
    let rm = match &m.entries[li].1 {
        JsonValue::Object(rm) => rm,
        _ => {
            return None;
        },
    };
    let ghost rsv = rm@;
    proof {
        lemma_entries_view(rm.entries@);
        assert(rsv.skip(0) =~= rsv);
        assert(es[ri as int].1 == JsonView::Object(row@));
        assert(es[li as int].1 == JsonView::Object(rsv));
    }
    let ghost rowv = row@;
    let mut rels: Vec<(String, Vec<Node>)> = Vec::new();
    let mut i: usize = 0;
    proof {
        lemma_rels_view(rels@);
        assert(rels_view(rels@) =~= Seq::<(Seq<char>, Seq<NodeView>)>::empty());
    }
    while i < rm.entries.len()
        invariant
            i <= rm.entries@.len(),
            *v == JsonValue::Object(*m),
            ri < m.entries@.len(),
            li < m.entries@.len(),
            m.entries@[li as int].1 == JsonValue::Object(*rm),
            rsv == rm@,
            node_of_json(v@) == match rels_of_json(rsv) {
                Some(r) => Some(NodeView { row: rowv, relationships: r }),
                None => None,
            },
            row@ == rowv,
            rsv.len() == rm.entries@.len(),
            forall|j: int| 0 <= j < rm.entries@.len() ==> #[trigger] rsv[j] == (rm.entries@[j].0@, crate::json::json_view(rm.entries@[j].1)),
            rels_of_json(rsv) == match rels_of_json(rsv.skip(i as int)) {
                Some(rest) => Some(rels_view(rels@) + rest),
                None => None,
            },
        decreases rm.entries@.len() - i,
    {
        let items = match &rm.entries[i].1 {
            JsonValue::Array(items) => items,
            _ => {
                assert(rsv.skip(i as int)[0] == rsv[i as int]);
                return None;
            },
        };
        let ghost iv = crate::json::json_views(items@);
        proof {
            lemma_json_views(items@);
            assert(rsv.skip(i as int).len() > 0);
            assert(rsv.skip(i as int)[0] == rsv[i as int]);
            assert(rsv[i as int].1 == JsonView::Array(iv));
            assert(iv.skip(0) =~= iv);
        }
        let mut nodes: Vec<Node> = Vec::new();
        proof {
            lemma_nodes_view(nodes@);
            assert(nodes_view(nodes@) =~= Seq::<NodeView>::empty());
        }
        let mut j: usize = 0;
        while j < items.len()
            invariant
                j <= items@.len(),
                *v == JsonValue::Object(*m),
                li < m.entries@.len(),
                m.entries@[li as int].1 == JsonValue::Object(*rm),
                i < rm.entries@.len(),
                rm.entries@[i as int].1 == JsonValue::Array(*items),
                node_of_json(v@) == match rels_of_json(rsv) {
                    Some(r) => Some(NodeView { row: rowv, relationships: r }),
                    None => None,
                },
                rels_of_json(rsv) == match rels_of_json(rsv.skip(i as int)) {
                    Some(rest) => Some(rels_view(rels@) + rest),
                    None => None,
                },
                rsv.skip(i as int).len() > 0,
                rsv.skip(i as int)[0].1 == JsonView::Array(iv),
                iv == crate::json::json_views(items@),
                iv.len() == items@.len(),
                forall|k: int| 0 <= k < items@.len() ==> #[trigger] iv[k] == crate::json::json_view(items@[k]),
                nodes_of_json(iv) == match nodes_of_json(iv.skip(j as int)) {
                    Some(rest) => Some(nodes_view(nodes@) + rest),
                    None => None,
                },
            decreases items@.len() - j,
        {
            proof {
                assert(decreases_to!(*v => *m));
                assert(decreases_to!(*m => m.entries));
                assert(decreases_to!(m.entries => m.entries@));
                assert(decreases_to!(m.entries@ => m.entries@[li as int]));
                assert(decreases_to!(m.entries@[li as int] => m.entries@[li as int].1));
                assert(decreases_to!(m.entries@[li as int].1 => m.entries@[li as int].1->Object_0));
                assert(decreases_to!(*rm => rm.entries));
                assert(decreases_to!(rm.entries => rm.entries@));
                assert(decreases_to!(rm.entries@ => rm.entries@[i as int]));
                assert(decreases_to!(rm.entries@[i as int] => rm.entries@[i as int].1));
                assert(decreases_to!(rm.entries@[i as int].1 => rm.entries@[i as int].1->Array_0));
                assert(decreases_to!(*items => items@));
                assert(decreases_to!(items@ => items@[j as int]));
            }
            assert(iv.skip(j as int)[0] == iv[j as int]);
            assert(iv.skip(j as int).drop_first() =~= iv.skip(j + 1));
            let n = match node_from_json(&items[j]) {
                Some(n) => n,
                None => {
                    return None;
                },
            };
            let ghost before = nodes@;
            nodes.push(n);
            proof {
                lemma_nodes_view(before);
                lemma_nodes_view(nodes@);
                assert(nodes_view(nodes@) =~= nodes_view(before) + seq![n@]);
            }
            j = j + 1;
        }
        proof {
            assert(iv.skip(j as int) =~= Seq::<JsonView>::empty());
            assert(rsv.skip(i as int).drop_first() =~= rsv.skip(i + 1));
        }
        let ghost before = rels@;
        rels.push((rm.entries[i].0.clone(), nodes));
        proof {
            lemma_rels_view(before);
            lemma_rels_view(rels@);
            assert(rels_view(rels@) =~= rels_view(before) + seq![(rsv[i as int].0, nodes_view(nodes@))]);
        }
        i = i + 1;
    }
    proof {
        assert(rsv.skip(i as int) =~= Seq::<(Seq<char>, JsonView)>::empty());
    }
    Some(Node { row, relationships: rels })
}

fn as_u64_exec(v: &JsonValue) -> (r: Option<u64>)
    ensures
        r == as_u64(v@),
{
    match v {
        JsonValue::Number(n) => match n.kind {
            NumberKind::PosInt => Some(n.pos),
            _ => None,
        },
        _ => None,
    }
}

/// Reads a change from its JSON form; the error says why the value is not
/// one.
pub fn change_from_json(v: &JsonValue) -> (r: Result<Change, String>)
    ensures
        match r {
            Ok(c) => change_of_json(v@) == Ok::<ChangeView, Seq<char>>(c@),
            Err(e) => change_of_json(v@) == Err::<ChangeView, Seq<char>>(e@),
        },
    decreases v,
{
    let items = match v {
        JsonValue::Array(items) => items,
        _ => {
            return Err(String::from_str("Change must be an array"));
        },
    };
    proof {
        lemma_json_views(items@);
    }
    if items.len() != 3 {
        return Err(String::from_str("Change tuple must have 3 elements"));
    }
    let t = match as_u64_exec(&items[0]) {
        Some(t) => t,
        None => {
            return Err(String::from_str("Change type must be a number"));
        },
    };
    if t > 3 {
        let mut msg = String::from_str("Unknown change type: ");
        push_decimal(&mut msg, t);
        return Err(msg);
    }
    let node = match node_from_json(&items[1]) {
        Some(n) => n,
        None => {
            return Err(String::from_str("Change node is not a node"));
        },
    };
    if t == 0 {
        Ok(Change::Add(node))
    } else if t == 1 {
        Ok(Change::Remove(node))
    } else if t == 3 {
        match node_from_json(&items[2]) {
            Some(old_node) => Ok(Change::Edit { node, old_node }),
            None => Err(String::from_str("Change old node is not a node")),
        }
    } else {
        let m = match &items[2] {
            JsonValue::Object(m) => m,
            _ => {
                return Err(String::from_str("Child change is not a child change"));
            },
        };
        proof {
            lemma_entries_view(m.entries@);
        }
        let ni = match find_key(&m.entries, "relationship_name") {
            Some(i) => i,
            None => {
                return Err(String::from_str("Child change is not a child change"));
            },
        };
        let ci = match find_key(&m.entries, "change") {
            Some(i) => i,
            None => {
                return Err(String::from_str("Child change is not a child change"));
            },
        };
        let name = match &m.entries[ni].1 {
            JsonValue::String(s) => s.clone(),
            _ => {
                return Err(String::from_str("Child change is not a child change"));
            },
        };
        proof {
            assert(decreases_to!(*v => *items));
            assert(decreases_to!(*items => items@));
            assert(decreases_to!(items@ => items@[2]));
            assert(decreases_to!(items@[2] => *m));
            assert(decreases_to!(*m => m.entries));
            assert(decreases_to!(m.entries => m.entries@));
            assert(decreases_to!(m.entries@ => m.entries@[ci as int]));
            assert(decreases_to!(m.entries@[ci as int] => m.entries@[ci as int].1));
        }
        match change_from_json(&m.entries[ci].1) {
            Ok(change) => Ok(
                Change::Child { node, child: Box::new(ChildChange { relationship_name: name, change }) },
            ),
            Err(e) => Err(e),
        }
    }
}

// --- Reading back what was written ---

/// A node written as JSON reads back as itself.
pub proof fn lemma_node_roundtrip(n: NodeView)
    ensures
        node_of_json(node_json(n)) == Some(n),
    decreases n,
{
    let es = seq![("row"@, JsonView::Object(n.row)), ("relationships"@, JsonView::Object(rels_json(n.relationships)))];
    assert("row"@ != "relationships"@) by {
        reveal_strlit("row");
        reveal_strlit("relationships");
        assert("row"@.len() != "relationships"@.len());
    }
    assert(key_at(es, "row"@) == 0);
    assert(es.drop_first()[0].0 == "relationships"@);
    assert(key_at(es.drop_first(), "relationships"@) == 0);
    assert(key_at(es, "relationships"@) == 1);
    lemma_rels_roundtrip(n.relationships);
}

/// Relationships written as JSON read back as themselves.
pub proof fn lemma_rels_roundtrip(rs: Seq<(Seq<char>, Seq<NodeView>)>)
    ensures
        rels_of_json(rels_json(rs)) == Some(rs),
    decreases rs,
{
    if rs.len() > 0 {
        lemma_nodes_roundtrip(rs[0].1);
        lemma_rels_roundtrip(rs.drop_first());
        let j = rels_json(rs);
        assert(j.drop_first() =~= rels_json(rs.drop_first()));
        assert(seq![(rs[0].0, rs[0].1)] + rs.drop_first() =~= rs);
    } else {
        assert(rels_json(rs) =~= Seq::<(Seq<char>, JsonView)>::empty());
    }
}

/// Nodes written as JSON read back as themselves.
pub proof fn lemma_nodes_roundtrip(ns: Seq<NodeView>)
    ensures
        nodes_of_json(nodes_json(ns)) == Some(ns),
    decreases ns,
{
    if ns.len() > 0 {
        lemma_node_roundtrip(ns[0]);
        lemma_nodes_roundtrip(ns.drop_first());
        let j = nodes_json(ns);
        assert(j.drop_first() =~= nodes_json(ns.drop_first()));
        assert(seq![ns[0]] + ns.drop_first() =~= ns);
    } else {
        assert(nodes_json(ns) =~= Seq::<JsonView>::empty());
    }
}

/// A change written as JSON reads back as itself.
pub proof fn lemma_change_roundtrip(c: ChangeView)
    ensures
        change_of_json(change_json(c)) == Ok::<ChangeView, Seq<char>>(c),
    decreases c,
{
    match c {
        ChangeView::Add(n) => lemma_node_roundtrip(n),
        ChangeView::Remove(n) => lemma_node_roundtrip(n),
        ChangeView::Child { node, relationship_name, change } => {
            lemma_node_roundtrip(node);
            lemma_change_roundtrip(*change);
            let es = seq![("relationship_name"@, JsonView::Str(relationship_name)), ("change"@, change_json(*change))];
            assert("relationship_name"@ != "change"@) by {
                reveal_strlit("relationship_name");
                reveal_strlit("change");
                assert("relationship_name"@.len() != "change"@.len());
            }
            assert(key_at(es, "relationship_name"@) == 0);
            assert(es.drop_first()[0].0 == "change"@);
            assert(key_at(es.drop_first(), "change"@) == 0);
            assert(key_at(es, "change"@) == 1);
        },
        ChangeView::Edit { node, old_node } => {
            lemma_node_roundtrip(node);
            lemma_node_roundtrip(old_node);
        },
    }
}

} // verus!
