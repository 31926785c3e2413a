//! Overlays: while a pushed change is being propagated, fetches from a source
//! see the change as if it were already written.
use vstd::prelude::*;

use std::cmp::Ordering;

use crate::json::{int_of_nat, json_eq, json_equal, JsonValue};
use crate::source::{
    compare_rows, field_value, field_value_exec, row_order, FetchConstraint, Node, NodeView,
    Overlay, Overlays, OverlaysView, Row, RowView, SortSpec, SourceChange, SourceChangeView,
};

verus! {

/// A row satisfies a constraint when its value for the constrained column
/// (null when absent) equals the constraint's value.
pub open spec fn constraint_matches(c: FetchConstraint, row: RowView) -> bool {
    json_equal(field_value(row, c.key@), c.value@)
}

/// Two rows agree on every primary-key column.
pub open spec fn rows_match_pk(a: RowView, b: RowView, pk: Seq<String>) -> bool {
    forall|i: int| 0 <= i < pk.len() ==> json_equal(field_value(a, #[trigger] pk[i]@), field_value(b, pk[i]@))
}

fn values_equal(a: &JsonValue, b: &JsonValue) -> (r: bool)
    ensures
        r == json_equal(a@, b@),
{
    json_eq(a, b)
}

fn constraint_matches_row(constraint: &FetchConstraint, row: &Row) -> (r: bool)
    ensures
        r == constraint_matches(*constraint, row@),
{
    let val = field_value_exec(row, constraint.key.as_str());
    values_equal(&val, &constraint.value)
}

fn row_matches_pk(a: &Row, b: &Row, primary_key: &[String]) -> (r: bool)
    ensures
        r == rows_match_pk(a@, b@, primary_key@),
{
    let mut i: usize = 0;
    while i < primary_key.len()
        invariant
            i <= primary_key@.len(),
            forall|j: int| 0 <= j < i ==> json_equal(field_value(a@, #[trigger] primary_key@[j]@), field_value(b@, primary_key@[j]@)),
        decreases primary_key@.len() - i,
    {
        let av = field_value_exec(a, primary_key[i].as_str());
        let bv = field_value_exec(b, primary_key[i].as_str());
        if !values_equal(&av, &bv) {
            return false;
        }
        i = i + 1;
    }
    true
}

/// The overlays a change stands for: an add adds its row, a remove removes
/// its row, an edit adds the new row and removes the old one.
pub open spec fn change_overlays(c: SourceChangeView) -> OverlaysView {
    match c {
        SourceChangeView::Add(r) => OverlaysView { add: Some(r), remove: None },
        SourceChangeView::Remove(r) => OverlaysView { add: None, remove: Some(r) },
        SourceChangeView::Edit { row, old_row } => OverlaysView {
            add: Some(row),
            remove: Some(old_row),
        },
    }
}

/// Keeps an overlay row only when `keep` holds of it.
pub open spec fn keep_if(r: Option<RowView>, keep: spec_fn(RowView) -> bool) -> Option<RowView> {
    match r {
        Some(x) => if keep(x) {
            Some(x)
        } else {
            None
        },
        None => None,
    }
}

/// Overlay rows that sort before the fetch's start row are dropped.
pub open spec fn overlays_after_start(o: OverlaysView, start: Option<RowView>, sort: Seq<SortSpec>) -> OverlaysView {
    match start {
        Some(s) => OverlaysView {
            add: keep_if(o.add, |x: RowView| row_order(x, s, sort) != Ordering::Less),
            remove: keep_if(o.remove, |x: RowView| row_order(x, s, sort) != Ordering::Less),
        },
        None => o,
    }
}

/// Overlay rows that fail the fetch's constraint are dropped.
pub open spec fn overlays_within(o: OverlaysView, c: Option<FetchConstraint>) -> OverlaysView {
    match c {
        Some(c) => OverlaysView {
            add: keep_if(o.add, |x: RowView| constraint_matches(c, x)),
            remove: keep_if(o.remove, |x: RowView| constraint_matches(c, x)),
        },
        None => o,
    }
}

fn overlays_for_start_at(overlays: &mut Overlays, start_at: Option<&Row>, sort: &[SortSpec])
    ensures
        final(overlays)@ == overlays_after_start(
            old(overlays)@,
            match start_at {
                Some(r) => Some(r@),
                None => None,
            },
            sort@,
        ),
{
    if let Some(start) = start_at {
        let drop_add = match &overlays.add {
            Some(add) => match compare_rows(add, start, sort) {
                Ordering::Less => true,
                _ => false,
            },
            None => false,
        };
        if drop_add {
            overlays.add = None;
        }
        let drop_remove = match &overlays.remove {
            Some(remove) => match compare_rows(remove, start, sort) {
                Ordering::Less => true,
                _ => false,
            },
            None => false,
        };
        if drop_remove {
            overlays.remove = None;
        }
    }
}

fn overlays_for_constraint(overlays: &mut Overlays, constraint: Option<&FetchConstraint>)
    ensures
        final(overlays)@ == overlays_within(
            old(overlays)@,
            match constraint {
                Some(c) => Some(*c),
                None => None,
            },
        ),
{
    if let Some(c) = constraint {
        let drop_add = match &overlays.add {
            Some(add) => !constraint_matches_row(c, add),
            None => false,
        };
        if drop_add {
            overlays.add = None;
        }
        let drop_remove = match &overlays.remove {
            Some(remove) => !constraint_matches_row(c, remove),
            None => false,
        };
        if drop_remove {
            overlays.remove = None;
        }
    }
}

/// What the filter step may leave of an overlay row: the row itself when the
/// predicate may answer true for it, nothing when it may answer false.
pub open spec fn filter_outcome<F: Fn(&Row) -> bool>(
    before: Option<Row>,
    after: Option<RowView>,
    pred: F,
) -> bool {
    match before {
        Some(x) => (after == Some(x@) && call_ensures(pred, (&x,), true)) || (after is None
            && call_ensures(pred, (&x,), false)),
        None => after is None,
    }
}

fn overlays_for_filter<F: Fn(&Row) -> bool>(overlays: &mut Overlays, filter_predicate: Option<&F>)
    requires
        filter_predicate matches Some(p) ==> forall|r: &Row| call_requires(*p, (r,)),
    ensures
        match filter_predicate {
            Some(p) => filter_outcome(old(overlays).add, final(overlays)@.add, *p)
                && filter_outcome(old(overlays).remove, final(overlays)@.remove, *p),
            None => final(overlays)@ == old(overlays)@,
        },
{
    if let Some(pred) = filter_predicate {
        let drop_add = match &overlays.add {
            Some(add) => !pred(add),
            None => false,
        };
        if drop_add {
            overlays.add = None;
        }
        let drop_remove = match &overlays.remove {
            Some(remove) => !pred(remove),
            None => false,
        };
        if drop_remove {
            overlays.remove = None;
        }
    }
}

/// The overlays before the filter step: none unless the connection has seen
/// the overlay's epoch; else those of the change, less the rows before the
/// start and the rows outside the constraint.
pub open spec fn overlays_before_filter(
    start_at: Option<RowView>,
    constraint: Option<FetchConstraint>,
    overlay: Option<Overlay>,
    last_pushed_epoch: u64,
    sort: Seq<SortSpec>,
) -> OverlaysView {
    match overlay {
        Some(o) => if last_pushed_epoch >= o.epoch {
            overlays_within(overlays_after_start(change_overlays(o.change@), start_at, sort), constraint)
        } else {
            OverlaysView { add: None, remove: None }
        },
        None => OverlaysView { add: None, remove: None },
    }
}

/// Computes the rows that a fetch must add to and remove from what it reads.
pub fn compute_overlays<F: Fn(&Row) -> bool>(
    start_at: Option<&Row>,
    constraint: Option<&FetchConstraint>,
    overlay: Option<&Overlay>,
    last_pushed_epoch: u64,
    sort: &[SortSpec],
    filter_predicate: Option<&F>,
) -> (result: Overlays)
    requires
        filter_predicate matches Some(p) ==> forall|r: &Row| call_requires(*p, (r,)),
    ensures
        ({
            let before = overlays_before_filter(
                match start_at {
                    Some(r) => Some(r@),
                    None => None,
                },
                match constraint {
                    Some(c) => Some(*c),
                    None => None,
                },
                match overlay {
                    Some(o) => Some(*o),
                    None => None,
                },
                last_pushed_epoch,
                sort@,
            );
            match filter_predicate {
                None => result@ == before,
                Some(p) => (exists|b: Overlays|
                    #![trigger b@]
                    b@ == before && filter_outcome(b.add, result@.add, *p) && filter_outcome(
                        b.remove,
                        result@.remove,
                        *p,
                    )),
            }
        }),
{
    let mut result = Overlays::default();
    let overlay = match overlay {
        Some(o) => {
            if last_pushed_epoch >= o.epoch {
                o
            } else {
                return result;
            }
        },
        None => {
            return result;
        },
    };
    match &overlay.change {
        SourceChange::Add(row) => {
            result.add = Some(row.duplicate());
        },
        SourceChange::Remove(row) => {
            result.remove = Some(row.duplicate());
        },
        SourceChange::Edit { row, old_row } => {
            result.add = Some(row.duplicate());
            result.remove = Some(old_row.duplicate());
        },
    }
    overlays_for_start_at(&mut result, start_at, sort);
    overlays_for_constraint(&mut result, constraint);
    let ghost before = result;
    overlays_for_filter(&mut result, filter_predicate);
    result
}

/// The rows an ordered fetch yields: the fetched rows less those that sort
/// equal to the removed row, with the added row placed before the first
/// fetched row that sorts after it (or last).
pub open spec fn overlay_rows(
    rows: Seq<RowView>,
    add: Option<RowView>,
    remove: Option<RowView>,
    sort: Seq<SortSpec>,
) -> Seq<RowView>
    decreases rows.len(),
{
    if rows.len() == 0 {
        match add {
            Some(a) => seq![a],
            None => Seq::empty(),
        }
    } else {
        let r = rows[0];
        let add_here = add matches Some(a) && row_order(a, r, sort) == Ordering::Less;
        let keep = !(remove matches Some(x) && row_order(x, r, sort) == Ordering::Equal);
        let head = if add_here {
            seq![add.unwrap()]
        } else {
            Seq::empty()
        };
        let mid = if keep {
            seq![r]
        } else {
            Seq::empty()
        };
        let rest_add = if add_here {
            None
        } else {
            add
        };
        head + mid + overlay_rows(rows.drop_first(), rest_add, remove, sort)
    }
}

pub open spec fn rows_view(rows: Seq<Row>) -> Seq<RowView> {
    rows.map_values(|r: Row| r@)
}

pub open spec fn node_rows(nodes: Seq<NodeView>) -> Seq<RowView> {
    nodes.map_values(|n: NodeView| n.row)
}

/// Every node has no relationships.
pub open spec fn all_leaves(nodes: Seq<NodeView>) -> bool {
    forall|i: int| 0 <= i < nodes.len() ==> (#[trigger] nodes[i]).relationships.len() == 0
}

/// Yields the fetched rows as nodes, merged with the overlays in sort order.
pub fn generate_with_overlay(rows: Vec<Row>, overlays: &Overlays, sort: &[SortSpec]) -> (result: Vec<Node>)
    ensures
        node_rows(crate::source::nodes_view(result@)) == overlay_rows(
            rows_view(rows@),
            overlays@.add,
            overlays@.remove,
            sort@,
        ),
        all_leaves(crate::source::nodes_view(result@)),
{
    let ghost all_rows = rows_view(rows@);
    let ghost orig = rows@;
    let mut result: Vec<Node> = Vec::new();
    let mut add_yielded = false;
    proof {
        assert(all_rows.skip(0) =~= all_rows);
        assert(node_rows(crate::source::nodes_view(result@)) =~= Seq::<RowView>::empty());
    }
    for row in it: rows.into_iter()
        invariant
            it.seq() == orig,
            all_rows == rows_view(orig),
            overlay_rows(all_rows, overlays@.add, overlays@.remove, sort@) == node_rows(
                crate::source::nodes_view(result@),
            ) + overlay_rows(
                all_rows.skip(it.index()),
                if add_yielded {
                    None
                } else {
                    overlays@.add
                },
                overlays@.remove,
                sort@,
            ),
            all_leaves(crate::source::nodes_view(result@)),
    {
        let ghost i = it.index();
        proof {
            assert(row == orig[i]);
            assert(all_rows.skip(i)[0] == row@);
            assert(all_rows.skip(i).drop_first() =~= all_rows.skip(i + 1));
        }
        let ghost before = result@;
        if !add_yielded {
            if let Some(add) = &overlays.add {
                if let Ordering::Less = compare_rows(add, &row, sort) {
                    result.push(Node::leaf(add.duplicate()));
                    add_yielded = true;
                }
            }
        }
        let ghost mid = result@;
        let mut skip = false;
        if let Some(remove) = &overlays.remove {
            if let Ordering::Equal = compare_rows(remove, &row, sort) {
                skip = true;
            }
        }
        if !skip {
            result.push(Node::leaf(row));
        }
        proof {
            crate::source::lemma_nodes_view(before);
            crate::source::lemma_nodes_view(mid);
            crate::source::lemma_nodes_view(result@);
            let ghost nb = node_rows(crate::source::nodes_view(before));
            let ghost nr = node_rows(crate::source::nodes_view(result@));
            let ghost head: Seq<RowView> = if mid.len() > before.len() { seq![overlays@.add.unwrap()] } else { Seq::empty() };
            let ghost tail: Seq<RowView> = if !skip { seq![row@] } else { Seq::empty() };
            assert(nr =~= nb + head + tail);
            assert forall|j: int| 0 <= j < result@.len() implies (#[trigger] crate::source::nodes_view(result@)[j]).relationships.len() == 0 by {
                if j < before.len() {
                    assert(result@[j] == before[j]);
                    assert(crate::source::nodes_view(before)[j].relationships.len() == 0);
                } else if j < mid.len() {
                    assert(result@[j] == mid[j]);
                }
            }
        }
    }
    let ghost before = result@;
    proof {
        assert(all_rows.skip(int_of_nat(all_rows.len())) =~= Seq::<RowView>::empty());
    }
    if !add_yielded {
        if let Some(add) = &overlays.add {
            result.push(Node::leaf(add.duplicate()));
        }
    }
    proof {
        crate::source::lemma_nodes_view(before);
        crate::source::lemma_nodes_view(result@);
        let ghost nb = node_rows(crate::source::nodes_view(before));
        let ghost nr = node_rows(crate::source::nodes_view(result@));
        if result@.len() > before.len() {
            assert(nr =~= nb + seq![overlays@.add.unwrap()]);
        } else {
            assert(nr =~= nb);
        }
        assert forall|j: int| 0 <= j < result@.len() implies (#[trigger] crate::source::nodes_view(result@)[j]).relationships.len() == 0 by {
            if j < before.len() {
                assert(result@[j] == before[j]);
                assert(crate::source::nodes_view(before)[j].relationships.len() == 0);
            }
        }
    }
    result
}

/// The fetched rows that do not share the removed row's primary key.
pub open spec fn rows_without(rows: Seq<RowView>, remove: Option<RowView>, pk: Seq<String>) -> Seq<
    RowView,
>
    decreases rows.len(),
{
    if rows.len() == 0 {
        Seq::empty()
    } else {
        let drop = remove matches Some(x) && rows_match_pk(x, rows[0], pk);
        (if drop {
            Seq::empty()
        } else {
            seq![rows[0]]
        }) + rows_without(rows.drop_first(), remove, pk)
    }
}

/// Yields the added row first, then the fetched rows that do not share the
/// removed row's primary key, in fetch order.
pub fn generate_with_overlay_unordered(rows: Vec<Row>, overlays: &Overlays, primary_key: &[String]) -> (result: Vec<Node>)
    ensures
        node_rows(crate::source::nodes_view(result@)) == (match overlays@.add {
            Some(a) => seq![a],
            None => Seq::empty(),
        }) + rows_without(rows_view(rows@), overlays@.remove, primary_key@),
        all_leaves(crate::source::nodes_view(result@)),
{
    let ghost all_rows = rows_view(rows@);
    let ghost orig = rows@;
    let mut result: Vec<Node> = Vec::new();
    if let Some(add) = &overlays.add {
        result.push(Node::leaf(add.duplicate()));
    }
    let ghost head = node_rows(crate::source::nodes_view(result@));
    proof {
        crate::source::lemma_nodes_view(result@);
        assert(all_rows.skip(0) =~= all_rows);
        assert(head =~= (match overlays@.add {
            Some(a) => seq![a],
            None => Seq::empty(),
        }));
        assert(rows_without(Seq::<RowView>::empty(), overlays@.remove, primary_key@) =~= Seq::<RowView>::empty());
    }
    for row in it: rows.into_iter()
        invariant
            it.seq() == orig,
            all_rows == rows_view(orig),
            head + rows_without(all_rows, overlays@.remove, primary_key@) == node_rows(
                crate::source::nodes_view(result@),
            ) + rows_without(all_rows.skip(it.index()), overlays@.remove, primary_key@),
            all_leaves(crate::source::nodes_view(result@)),
    {
        let ghost i = it.index();
        proof {
            assert(row == orig[i]);
            assert(all_rows.skip(i)[0] == row@);
            assert(all_rows.skip(i).drop_first() =~= all_rows.skip(i + 1));
        }
        let ghost before = result@;
        let mut skip = false;
        if let Some(remove) = &overlays.remove {
            if row_matches_pk(remove, &row, primary_key) {
                skip = true;
            }
        }
        if !skip {
            result.push(Node::leaf(row));
        }
        proof {
            crate::source::lemma_nodes_view(before);
            crate::source::lemma_nodes_view(result@);
            let ghost nb = node_rows(crate::source::nodes_view(before));
            let ghost nr = node_rows(crate::source::nodes_view(result@));
            let ghost tail: Seq<RowView> = if !skip { seq![row@] } else { Seq::empty() };
            assert(nr =~= nb + tail);
            assert forall|j: int| 0 <= j < result@.len() implies (#[trigger] crate::source::nodes_view(result@)[j]).relationships.len() == 0 by {
                if j < before.len() {
                    assert(result@[j] == before[j]);
                    assert(crate::source::nodes_view(before)[j].relationships.len() == 0);
                }
            }
        }
    }
    proof {
        assert(all_rows.skip(int_of_nat(all_rows.len())) =~= Seq::<RowView>::empty());
    }
    result
}

// --- Laws of the overlay ---

/// The row sorts equal to the removed row.
pub open spec fn removed_by(remove: Option<RowView>, x: RowView, sort: Seq<SortSpec>) -> bool {
    match remove {
        Some(r) => row_order(r, x, sort) == Ordering::Equal,
        None => false,
    }
}

/// Rows in sort order: no row sorts after a later one.
pub open spec fn sorted_rows(rows: Seq<RowView>, sort: Seq<SortSpec>) -> bool {
    forall|i: int, j: int|
        0 <= i < j < rows.len() ==> crate::source::not_after(row_order(#[trigger] rows[i], #[trigger] rows[j], sort))
}

/// What an ordered fetch under an overlay yields: the added row, and exactly
/// the fetched rows that do not sort equal to the removed row; nothing else.
pub proof fn lemma_overlay_rows_members(
    rows: Seq<RowView>,
    add: Option<RowView>,
    remove: Option<RowView>,
    sort: Seq<SortSpec>,
)
    ensures
        forall|k: int|
            0 <= k < overlay_rows(rows, add, remove, sort).len() ==> add == Some(
                #[trigger] overlay_rows(rows, add, remove, sort)[k],
            ) || (rows.contains(overlay_rows(rows, add, remove, sort)[k]) && !removed_by(
                remove,
                overlay_rows(rows, add, remove, sort)[k],
                sort,
            )),
        add matches Some(a) ==> overlay_rows(rows, add, remove, sort).contains(a),
        forall|j: int|
            0 <= j < rows.len() && !removed_by(remove, #[trigger] rows[j], sort) ==> overlay_rows(
                rows,
                add,
                remove,
                sort,
            ).contains(rows[j]),
    decreases rows.len(),
{
    let out = overlay_rows(rows, add, remove, sort);
    if rows.len() == 0 {
        if let Some(a) = add {
            assert(out[0] == a);
        }
    } else {
        let r = rows[0];
        let rest = rows.drop_first();
        let add_here = add matches Some(a) && row_order(a, r, sort) == Ordering::Less;
        let keep = !(remove matches Some(x) && row_order(x, r, sort) == Ordering::Equal);
        let head: Seq<RowView> = if add_here {
            seq![add.unwrap()]
        } else {
            Seq::empty()
        };
        let mid: Seq<RowView> = if keep {
            seq![r]
        } else {
            Seq::empty()
        };
        let rest_add = if add_here {
            None
        } else {
            add
        };
        let rec = overlay_rows(rest, rest_add, remove, sort);
        lemma_overlay_rows_members(rest, rest_add, remove, sort);
        assert(out == head + mid + rec);
        assert forall|k: int| 0 <= k < out.len() implies add == Some(#[trigger] out[k]) || (rows.contains(out[k])
            && !removed_by(remove, out[k], sort)) by {
            if k < head.len() {
            } else if k < head.len() + mid.len() {
                assert(out[k] == r);
                assert(rows[0] == r);
            } else {
                let y = rec[k - head.len() - mid.len()];
                assert(out[k] == y);
                if rest_add != Some(y) {
                    let j = choose|j: int| 0 <= j < rest.len() && rest[j] == y;
                    assert(rows[j + 1] == y);
                }
            }
        }
        if let Some(a) = add {
            if add_here {
                assert(out[0] == a);
            } else {
                let k = choose|k: int| 0 <= k < rec.len() && rec[k] == a;
                assert(out[head.len() + mid.len() + k] == a);
            }
        }
        assert forall|j: int| 0 <= j < rows.len() && !removed_by(remove, #[trigger] rows[j], sort) implies out.contains(
            rows[j],
        ) by {
            if j == 0 {
                assert(out[int_of_nat(head.len())] == r);
            } else {
                assert(rest[j - 1] == rows[j]);
                let k = choose|k: int| 0 <= k < rec.len() && rec[k] == rows[j];
                assert(out[head.len() + mid.len() + k] == rows[j]);
            }
        }
    }
}

/// An ordered fetch under an overlay stays in sort order: merging the added
/// row into sorted fetched rows, and leaving out removed ones, gives sorted
/// rows.
pub proof fn lemma_overlay_rows_sorted(
    rows: Seq<RowView>,
    add: Option<RowView>,
    remove: Option<RowView>,
    sort: Seq<SortSpec>,
)
    requires
        sorted_rows(rows, sort),
    ensures
        sorted_rows(overlay_rows(rows, add, remove, sort), sort),
    decreases rows.len(),
{
    let out = overlay_rows(rows, add, remove, sort);
    if rows.len() > 0 {
        let r = rows[0];
        let rest = rows.drop_first();
        let add_here = add matches Some(a) && row_order(a, r, sort) == Ordering::Less;
        let keep = !(remove matches Some(x) && row_order(x, r, sort) == Ordering::Equal);
        let head: Seq<RowView> = if add_here {
            seq![add.unwrap()]
        } else {
            Seq::empty()
        };
        let mid: Seq<RowView> = if keep {
            seq![r]
        } else {
            Seq::empty()
        };
        let rest_add = if add_here {
            None
        } else {
            add
        };
        let rec = overlay_rows(rest, rest_add, remove, sort);
        assert(sorted_rows(rest, sort)) by {
            assert forall|i: int, j: int| 0 <= i < j < rest.len() implies crate::source::not_after(
                row_order(#[trigger] rest[i], #[trigger] rest[j], sort),
            ) by {
                assert(rest[i] == rows[i + 1] && rest[j] == rows[j + 1]);
            }
        }
        lemma_overlay_rows_sorted(rest, rest_add, remove, sort);
        lemma_overlay_rows_members(rest, rest_add, remove, sort);
        assert(out == head + mid + rec);
        let n = head.len() + mid.len();
        // Every row of the rest sorts no earlier than the first fetched row,
        // and so does the added row when it is not placed before it.
        assert forall|k: int| 0 <= k < rec.len() implies crate::source::not_after(
            row_order(r, #[trigger] rec[k], sort),
        ) by {
            let y = rec[k];
            if rest_add == Some(y) {
                crate::source::lemma_row_order_antisymmetric(y, r, sort);
            } else {
                let j = choose|j: int| 0 <= j < rest.len() && rest[j] == y;
                assert(rows[j + 1] == y);
                assert(crate::source::not_after(row_order(rows[0], rows[j + 1], sort)));
            }
        }
        assert forall|i: int, j: int| 0 <= i < j < out.len() implies crate::source::not_after(
            row_order(#[trigger] out[i], #[trigger] out[j], sort),
        ) by {
            if j >= n {
                assert(out[j] == rec[j - n]);
                if i >= n {
                    assert(out[i] == rec[i - n]);
                } else if i >= head.len() {
                    assert(out[i] == r);
                } else {
                    let a = add.unwrap();
                    assert(out[i] == a);
                    assert(rest_add is None);
                    let y = rec[j - n];
                    let jj = choose|jj: int| 0 <= jj < rest.len() && rest[jj] == y;
                    assert(rows[jj + 1] == y);
                    assert(crate::source::not_after(row_order(rows[0], rows[jj + 1], sort)));
                    crate::source::lemma_row_order_transitive(a, r, y, sort);
                }
            } else {
                assert(i == 0 && j == 1 && add_here && keep);
                assert(out[0] == add.unwrap() && out[1] == r);
            }
        }
    }
}

} // verus!
