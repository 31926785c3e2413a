//! Removal of the descendants of a deleted row: the rows of related tables
//! that hung off it (and off them, in turn) in the previous snapshot leave
//! the query's result too.
use vstd::prelude::*;

use crate::advance::{
    change_flat, diff_change_to_source_changes, extract_row_key_from_map, flatten_ivm_change_to_row_changes,
    row_changes_view, row_key_of, source_changes_of,
    source_changes_view, RowChange, RowChangeView,
};
use crate::ast_to_config::{lemma_cuts_bounded, segment_cuts};
use crate::diff::{base64, cells_view, eq_param, row_of_cells};
use crate::json::{assoc_find, assoc_get, entries_get, JsonMap, JsonValue, JsonView};
use crate::routing::{ChildRelation, ChildRelationView, ChildTableInfo, ChildTableInfoView};
use crate::source::{
    field_value, field_value_exec, Change as NodeChange, ChangeView as NodeChangeView, Node, NodeView, RowView,
    SourceChange, SourceChangeView,
};
use crate::sqlite::{
    cell_json, params_view, to_cell, to_rusqlite_value, SqlCell, SqlCellView, SqlParam,
    SqlParamView,
};
use crate::text::{decimal, join, join_strings, push_decimal, quote, quoted, views};

verus! {

/// The parameter a join value binds as: a string as text, a number as an
/// integer or a real; nothing for any other value.
pub open spec fn join_param(v: JsonView) -> Option<SqlParamView> {
    match v {
        JsonView::Str(s) => Some(SqlParamView::Text(s)),
        JsonView::Number(n) => Some(
            match n.spec_as_i64() {
                Some(i) => SqlParamView::Integer(i),
                None => SqlParamView::Real(n),
            },
        ),
        _ => None,
    }
}

/// The conditions and parameters that select a deleted row's children over
/// the first `n` join column pairs: none when the row lacks a parent column
/// or holds a value that cannot be bound there.
pub open spec fn join_parts(
    parent_cols: Seq<String>,
    child_cols: Seq<String>,
    row: RowView,
    n: nat,
) -> Option<(Seq<Seq<char>>, Seq<SqlParamView>)>
    decreases n,
{
    if n == 0 {
        Some((Seq::empty(), Seq::empty()))
    } else {
        match join_parts(parent_cols, child_cols, row, (n - 1) as nat) {
            None => None,
            Some(parts) => match entries_get(row, parent_cols[n - 1]@) {
                None => None,
                Some(v) => match join_param(v) {
                    None => None,
                    Some(p) => Some((parts.0.push(eq_param(child_cols[n - 1]@)), parts.1.push(p))),
                },
            },
        }
    }
}

proof fn lemma_join_parts_none(pc: Seq<String>, cc: Seq<String>, row: RowView, k: nat, m: nat)
    requires
        k <= m,
        join_parts(pc, cc, row, k) is None,
    ensures
        join_parts(pc, cc, row, m) is None,
    decreases m - k,
{
    if k < m {
        lemma_join_parts_none(pc, cc, row, k, (m - 1) as nat);
    }
}

/// The number of join column pairs of a relation.
pub open spec fn pair_count(rel: ChildRelationView) -> nat {
    if rel.parent_join_col.len() <= rel.child_join_col.len() {
        rel.parent_join_col.len()
    } else {
        rel.child_join_col.len()
    }
}

/// The text `str::to_uppercase` gives.
pub uninterp spec fn upper_text(s: Seq<char>) -> Seq<char>;

/// `str::to_uppercase`; the text is named, not stated.
#[verifier::external_body]
fn to_upper(s: &str) -> (r: String)
    ensures
        r@ == upper_text(s@),
{
    s.to_uppercase()
}

/// The query that reads a deleted row's children: every column of the
/// child table where each join column equals the deleted row's value, in
/// the relation's order (directions upper-cased) and within its limit.
pub open spec fn descendant_sql(rel: ChildRelationView, conds: Seq<Seq<char>>) -> Seq<char> {
    "SELECT * FROM "@ + quoted(rel.child_table) + " WHERE "@ + join(conds, " AND "@) + (if rel.child_order.len()
        > 0 {
        " ORDER BY "@ + join(
            Seq::new(
                rel.child_order.len(),
                |i: int| quoted(rel.child_order[i].0@) + " "@ + upper_text(rel.child_order[i].1@),
            ),
            ", "@,
        )
    } else {
        Seq::empty()
    }) + match rel.child_limit {
        Some(l) => " LIMIT "@ + decimal(l as nat),
        None => Seq::empty(),
    }
}

/// The query and parameters that read a deleted row's children, if the row
/// can be joined on every pair and there is a pair.
pub open spec fn descendant_query(rel: ChildRelationView, row: RowView) -> Option<(Seq<char>, Seq<SqlParamView>)> {
    match join_parts(rel.parent_join_col, rel.child_join_col, row, pair_count(rel)) {
        None => None,
        Some(parts) => if parts.0.len() == 0 {
            None
        } else {
            Some((descendant_sql(rel, parts.0), parts.1))
        },
    }
}

/// Builds the query that reads a deleted row's children.
pub fn build_descendant_query(rel: &ChildRelation, row: &JsonMap) -> (r: Option<(String, Vec<SqlParam>)>)
    ensures
        match (r, descendant_query(rel@, row@)) {
            (Some(q), Some(s)) => q.0@ == s.0 && params_view(q.1@) == s.1,
            (None, None) => true,
            _ => false,
        },
{
    let n = if rel.parent_join_col.len() <= rel.child_join_col.len() {
        rel.parent_join_col.len()
    } else {
        rel.child_join_col.len()
    };
    let mut conds: Vec<String> = Vec::new();
    let mut params: Vec<SqlParam> = Vec::new();
    let mut i: usize = 0;
    while i < n
        invariant
            i <= n,
            n == pair_count(rel@),
            n <= rel.parent_join_col@.len(),
            n <= rel.child_join_col@.len(),
            join_parts(rel.parent_join_col@, rel.child_join_col@, row@, i as nat) == Some(
                (views(conds@), params_view(params@)),
            ),
        decreases n - i,
    {
        let p = match row.get(rel.parent_join_col[i].as_str()) {
            None => {
                proof {
                    lemma_join_parts_none(rel.parent_join_col@, rel.child_join_col@, row@, (i + 1) as nat, n as nat);
                }
                return None;
            },
            Some(v) => match v {
                JsonValue::String(s) => SqlParam::Text(s.clone()),
                JsonValue::Number(num) => match num.as_i64() {
                    Some(k) => SqlParam::Integer(k),
                    None => SqlParam::Real(num.duplicate()),
                },
                _ => {
                    proof {
                        lemma_join_parts_none(rel.parent_join_col@, rel.child_join_col@, row@, (i + 1) as nat, n as nat);
                    }
                    return None;
                },
            },
        };
        let mut c = quote(rel.child_join_col[i].as_str());
        c.append(" = ?");
        let ghost cb = conds@;
        let ghost pb = params@;
        let ghost cv = c@;
        let ghost pv = p@;
        conds.push(c);
        params.push(p);
        assert(views(conds@) =~= views(cb).push(cv));
        assert(params_view(params@) =~= params_view(pb).push(pv));
        i = i + 1;
    }
    if conds.len() == 0 {
        return None;
    }
    let mut sql = String::from_str("SELECT * FROM ");
    let t = quote(rel.child_table.as_str());
    sql.append(t.as_str());
    sql.append(" WHERE ");
    let w = join_strings(&conds, " AND ");
    sql.append(w.as_str());
    let ghost head = sql@;
    if rel.child_order.len() > 0 {
        let ghost items = Seq::new(
            rel@.child_order.len(),
            |k: int| quoted(rel@.child_order[k].0@) + " "@ + upper_text(rel@.child_order[k].1@),
        );
        let mut parts: Vec<String> = Vec::new();
        let mut k: usize = 0;
        while k < rel.child_order.len()
            invariant
                k <= rel.child_order@.len(),
                items.len() == rel.child_order@.len(),
                forall|j: int| 0 <= j < items.len() ==> #[trigger] items[j] == quoted(rel.child_order@[j].0@) + " "@ + upper_text(rel.child_order@[j].1@),
                views(parts@) =~= items.take(k as int),
            decreases rel.child_order@.len() - k,
        {
            let mut item = quote(rel.child_order[k].0.as_str());
            item.append(" ");
            let up = to_upper(rel.child_order[k].1.as_str());
            item.append(up.as_str());
            let ghost before = parts@;
            let ghost iv = item@;
            parts.push(item);
            assert(views(parts@) =~= views(before).push(iv));
            k = k + 1;
        }
        assert(items.take(items.len() as int) =~= items);
        sql.append(" ORDER BY ");
        let o = join_strings(&parts, ", ");
        sql.append(o.as_str());
    }
    let ghost mid = sql@;
    match rel.child_limit {
        Some(l) => {
            sql.append(" LIMIT ");
            push_decimal(&mut sql, l as u64);
        },
        None => {},
    }
    assert(sql@ =~= descendant_sql(rel@, views(conds@)));
    Some((sql, params))
}

/// `base64::engine::general_purpose::STANDARD.encode`: the RFC 4648
/// standard alphabet with `=` padding, which is `base64`. The encoder
/// panics only where the encoded length overflows `usize`, which the bound
/// on the input rules out.
#[verifier::external_body]
fn standard_base64(data: &[u8]) -> (r: String)
    requires
        data@.len() <= usize::MAX / 2,
    ensures
        r@ == base64(data@),
{
    base64::Engine::encode(&base64::engine::general_purpose::STANDARD, data)
}

/// A child row's column as JSON (a blob as standard base64 text).
fn cascade_value(c: &SqlCell) -> (v: JsonValue)
    ensures
        v@ == cell_json(c@),
{
    match c {
        SqlCell::Blob(b) => {
            if b.len() <= usize::MAX / 2 {
                JsonValue::String(standard_base64(b.as_slice()))
            } else {
                JsonValue::String(crate::diff::base64_encode(b.as_slice()))
            }
        },
        _ => crate::sqlite::sqlite_value_to_json(c),
    }
}

/// Runs a query through `prepare_cached` and `query_map` with the
/// parameters bound in order, reading every column of each row as
/// rusqlite's `Value`; rows that fail to read are left out, and `None`
/// comes back where preparing or running the query fails. What comes back
/// depends on the database, so nothing is stated of it but its shape.
#[verifier::external_body]
fn query_rows_cached(conn: &rusqlite::Connection, sql: &str, params: &Vec<SqlParam>) -> (r: Option<
    (Vec<String>, Vec<Vec<SqlCell>>),
>)
    ensures
        r matches Some((names, rows)) ==> forall|i: int|
            0 <= i < rows@.len() ==> (#[trigger] rows@[i])@.len() == names@.len(),
{
    let mut stmt = conn.prepare_cached(sql).ok()?;
    let names: Vec<String> = stmt.column_names().map(|s| s.to_string()).collect();
    let n = names.len();
    let ps = rusqlite::params_from_iter(params.iter().map(to_rusqlite_value));
    let rows = stmt.query_map(ps, |r| (0..n).map(|i| r.get::<_, rusqlite::types::Value>(i).map(to_cell)).collect::<
        Result<Vec<_>, _>,
    >()).ok()?;
    Some((names, rows.filter_map(|r| r.ok()).collect()))
}

/// A removal of a row of query `q`.
pub open spec fn is_removal(c: RowChangeView, q: Seq<char>) -> bool {
    &&& c.query_id == q
    &&& c.row is None
    &&& c.change_type == "remove"@
}

/// The changes appended after `old` are removals of query `q`.
pub open spec fn removals_appended(old: Seq<RowChangeView>, new: Seq<RowChangeView>, q: Seq<char>) -> bool {
    &&& old.is_prefix_of(new)
    &&& forall|i: int| old.len() <= i < new.len() ==> is_removal(#[trigger] new[i], q)
}

proof fn lemma_removals_trans(a: Seq<RowChangeView>, b: Seq<RowChangeView>, c: Seq<RowChangeView>, q: Seq<char>)
    requires
        removals_appended(a, b, q),
        removals_appended(b, c, q),
    ensures
        removals_appended(a, c, q),
{
    assert(c.subrange(0, a.len() as int) =~= b.subrange(0, a.len() as int));
    assert forall|i: int| a.len() <= i < c.len() implies is_removal(#[trigger] c[i], q) by {
        if i < b.len() {
            assert(c[i] == b[i]);
        }
    }
}

/// The removal of a relation's child row for query `q`: under the
/// relationship's name, keyed by the child table's primary key.
pub open spec fn removal_of(rel: ChildRelationView, q: Seq<char>, row: RowView) -> RowChangeView {
    RowChangeView {
        query_id: q,
        table: rel.relationship_name,
        row_key: row_key_of(row, rel.child_pk),
        row: None,
        change_type: "remove"@,
    }
}

/// The removal of a child row that a relation's query read.
pub fn descendant_removal(rel: &ChildRelation, query_id: &str, child_row: &JsonMap) -> (c: RowChange)
    ensures
        c@ == removal_of(rel@, query_id@, child_row@),
{
    RowChange {
        query_id: String::from_str(query_id),
        table: rel.relationship_name.clone(),
        row_key: extract_row_key_from_map(child_row, rel.child_pk.as_slice()),
        row: None,
        change_type: String::from_str("remove"),
    }
}

/// What removing a row's descendants appends, `depth` levels down: for each
/// relation of its table in turn, what that relation appends.
pub open spec fn cascade_out(
    ch: Seq<(String, Vec<ChildRelation>)>,
    q: Seq<char>,
    table: Seq<char>,
    row: RowView,
    depth: nat,
    out: Seq<RowChangeView>,
) -> bool
    decreases 4 * depth + 3,
{
    if depth == 0 {
        out.len() == 0
    } else {
        match assoc_get(ch, table) {
            None => out.len() == 0,
            Some(rels) => exists|cuts: Seq<int>|
                #![trigger segment_cuts(rels@.len() as int, out.len() as int, cuts)]
                segment_cuts(rels@.len() as int, out.len() as int, cuts) && forall|i: int|
                    #![trigger rels@[i]]
                    0 <= i < rels@.len() ==> relation_out(
                        ch,
                        q,
                        rels@[i]@,
                        row,
                        depth,
                        out.subrange(cuts[i], cuts[i + 1]),
                    ),
        }
    }
}

proof fn lemma_cascade_out_rels(
    ch: Seq<(String, Vec<ChildRelation>)>,
    q: Seq<char>,
    table: Seq<char>,
    row: RowView,
    depth: nat,
    out: Seq<RowChangeView>,
    rels: Vec<ChildRelation>,
    cuts: Seq<int>,
)
    requires
        depth > 0,
        assoc_get(ch, table) == Some(rels),
        segment_cuts(rels@.len() as int, out.len() as int, cuts),
        forall|i: int|
            #![trigger rels@[i]]
            0 <= i < rels@.len() ==> relation_out(ch, q, rels@[i]@, row, depth, out.subrange(cuts[i], cuts[i + 1])),
    ensures
        cascade_out(ch, q, table, row, depth, out),
{
    let rs = assoc_get(ch, table)->0;
    assert(rs == rels);
    assert(segment_cuts(rs@.len() as int, out.len() as int, cuts));
    assert(forall|i: int|
        #![trigger rs@[i]]
        0 <= i < rs@.len() ==> relation_out(ch, q, rs@[i]@, row, depth, out.subrange(cuts[i], cuts[i + 1])));
}

/// Column names and the lines a query read.
pub open spec fn lines_read(names: Seq<String>, lines: Seq<Seq<SqlCellView>>) -> bool {
    forall|j: int| 0 <= j < lines.len() ==> (#[trigger] lines[j]).len() == names.len()
}

/// What one relation appends for a deleted row: nothing where its query
/// cannot be built (`descendant_query`); where it can, nothing where the
/// query cannot be run, else what the child rows it read give (`rows_out`,
/// as `emit_child_rows` appends it).
pub open spec fn relation_out(
    ch: Seq<(String, Vec<ChildRelation>)>,
    q: Seq<char>,
    rel: ChildRelationView,
    row: RowView,
    depth: nat,
    out: Seq<RowChangeView>,
) -> bool
    decreases 4 * depth + 2,
{
    out.len() == 0 || (descendant_query(rel, row) is Some && exists|names: Seq<String>, lines: Seq<Seq<SqlCellView>>|
        #[trigger] lines_read(names, lines) && rows_out(ch, q, rel, names, lines, depth, out))
}

proof fn lemma_relation_out_rows(
    ch: Seq<(String, Vec<ChildRelation>)>,
    q: Seq<char>,
    rel: ChildRelationView,
    row: RowView,
    names: Seq<String>,
    lines: Seq<Seq<SqlCellView>>,
    depth: nat,
    out: Seq<RowChangeView>,
)
    requires
        descendant_query(rel, row) is Some,
        lines_read(names, lines),
        rows_out(ch, q, rel, names, lines, depth, out),
    ensures
        relation_out(ch, q, rel, row, depth, out),
{
    assert(lines_read(names, lines));
}

/// What the child rows a relation's query read append, in order: each
/// row's removal, then its descendants' removals.
pub open spec fn rows_out(
    ch: Seq<(String, Vec<ChildRelation>)>,
    q: Seq<char>,
    rel: ChildRelationView,
    names: Seq<String>,
    lines: Seq<Seq<SqlCellView>>,
    depth: nat,
    out: Seq<RowChangeView>,
) -> bool
    decreases 4 * depth + 1,
{
    depth > 0 && exists|cuts: Seq<int>|
        #![trigger segment_cuts(lines.len() as int, out.len() as int, cuts)]
        segment_cuts(lines.len() as int, out.len() as int, cuts) && forall|j: int|
            #![trigger lines[j]]
            0 <= j < lines.len() ==> lines[j].len() == names.len() && child_out(
                ch,
                q,
                rel,
                row_of_cells(names, lines[j], names.len()),
                (depth - 1) as nat,
                out.subrange(cuts[j], cuts[j + 1]),
            )
}

/// What one child row appends: its removal, then its descendants'.
pub open spec fn child_out(
    ch: Seq<(String, Vec<ChildRelation>)>,
    q: Seq<char>,
    rel: ChildRelationView,
    child: RowView,
    depth: nat,
    out: Seq<RowChangeView>,
) -> bool
    decreases 4 * depth + 4,
{
    out.len() >= 1 && out[0] == removal_of(rel, q, child) && cascade_out(ch, q, rel.child_table, child, depth, out.drop_first())
}

/// Appends a removal for every descendant of a deleted row, depth first:
/// for each relation of the deleted row's table, each child row that the
/// previous snapshot holds (read with `build_descendant_query`; a relation
/// whose query cannot be built or run is passed over) is removed, keyed by
/// its table's primary key, and then its own descendants. At most `depth`
/// levels are followed.
#[verifier::rlimit(40)]
pub fn emit_descendant_removals_to_depth(
    prev_conn: &rusqlite::Connection,
    deleted_row: &JsonMap,
    deleted_table: &str,
    children_of: &Vec<(String, Vec<ChildRelation>)>,
    query_id: &str,
    row_changes: &mut Vec<RowChange>,
    depth: u64,
)
    ensures
        removals_appended(row_changes_view(old(row_changes)@), row_changes_view(final(row_changes)@), query_id@),
        assoc_get(children_of@, deleted_table@) is None || depth == 0 ==> final(row_changes)@ == old(
            row_changes,
        )@,
        cascade_out(
            children_of@,
            query_id@,
            deleted_table@,
            deleted_row@,
            depth as nat,
            row_changes_view(final(row_changes)@).subrange(
                old(row_changes)@.len() as int,
                final(row_changes)@.len() as int,
            ),
        ),
    decreases depth, 2nat,
{
    let ghost start = row_changes_view(row_changes@);
    let ghost s0 = start.len() as int;
    assert(start.subrange(0, start.len() as int) =~= start);
    assert(start.subrange(s0, s0).len() == 0);
    if depth == 0 {
        return;
    }
    let rels = match assoc_find(children_of, deleted_table) {
        Some(r) => r,
        None => {
            return;
        },
    };
    let ghost ch = children_of@;
    let ghost q = query_id@;
    let ghost t = deleted_table@;
    let ghost drow = deleted_row@;
    let ghost mut cuts: Seq<int> = seq![0int];
    let mut i: usize = 0;
    while i < rels.len()
        invariant
            i <= rels@.len(),
            depth > 0,
            removals_appended(start, row_changes_view(row_changes@), query_id@),
            start == row_changes_view(old(row_changes)@),
            s0 == start.len(),
            ch == children_of@,
            q == query_id@,
            drow == deleted_row@,
            cuts.len() == i + 1,
            cuts[0] == 0,
            cuts[i as int] == row_changes@.len() - s0,
            forall|k: int| #![trigger cuts[k]] 0 <= k < i ==> cuts[k] <= cuts[k + 1],
            forall|k: int|
                #![trigger rels@[k]]
                0 <= k < i ==> relation_out(
                    ch,
                    q,
                    rels@[k]@,
                    drow,
                    depth as nat,
                    row_changes_view(row_changes@).subrange(s0 + cuts[k], s0 + cuts[k + 1]),
                ),
        decreases rels@.len() - i,
    {
        let rel = &rels[i];
        let ghost mid = row_changes_view(row_changes@);
        let ghost m0 = mid.len() as int;
        emit_relation_removals(prev_conn, rel, deleted_row, children_of, query_id, row_changes, depth);
        proof {
            let cur = row_changes_view(row_changes@);
            assert(mid.is_prefix_of(cur));
            lemma_removals_trans(start, mid, cur, q);
            assert(relation_out(ch, q, rel@, drow, depth as nat, cur.subrange(m0, cur.len() as int)));
            assert forall|k: int|
                #![trigger rels@[k]]
                0 <= k < i implies relation_out(
                    ch,
                    q,
                    rels@[k]@,
                    drow,
                    depth as nat,
                    cur.subrange(s0 + cuts[k], s0 + cuts[k + 1]),
                ) by {
                lemma_cuts_bounded(cuts, i as int, k);
                assert(cur.subrange(s0 + cuts[k], s0 + cuts[k + 1]) =~= mid.subrange(s0 + cuts[k], s0 + cuts[k + 1]));
            }
            cuts = cuts.push(cur.len() - s0);
            assert(cur.subrange(s0 + cuts[i as int], s0 + cuts[i + 1]) =~= cur.subrange(m0, cur.len() as int));
        }
        i = i + 1;
    }
    proof {
        let cur = row_changes_view(row_changes@);
        let out = cur.subrange(s0, cur.len() as int);
        assert(segment_cuts(rels@.len() as int, out.len() as int, cuts));
        assert forall|k: int|
            #![trigger rels@[k]]
            0 <= k < rels@.len() implies relation_out(ch, q, rels@[k]@, drow, depth as nat, out.subrange(cuts[k], cuts[k + 1])) by {
            lemma_cuts_bounded(cuts, rels@.len() as int, k);
            assert(out.subrange(cuts[k], cuts[k + 1]) =~= cur.subrange(s0 + cuts[k], s0 + cuts[k + 1]));
        }
        lemma_cascade_out_rels(ch, q, t, drow, depth as nat, out, *rels, cuts);
    }
}

/// Appends the removals that one relation gives for a deleted row: for each
/// child row its query reads, the row's removal and then its descendants'.
#[verifier::rlimit(80)]
fn emit_relation_removals(
    prev_conn: &rusqlite::Connection,
    rel: &ChildRelation,
    deleted_row: &JsonMap,
    children_of: &Vec<(String, Vec<ChildRelation>)>,
    query_id: &str,
    row_changes: &mut Vec<RowChange>,
    depth: u64,
)
    requires
        depth > 0,
    ensures
        removals_appended(row_changes_view(old(row_changes)@), row_changes_view(final(row_changes)@), query_id@),
        relation_out(
            children_of@,
            query_id@,
            rel@,
            deleted_row@,
            depth as nat,
            row_changes_view(final(row_changes)@).subrange(
                old(row_changes)@.len() as int,
                final(row_changes)@.len() as int,
            ),
        ),
    decreases depth, 1nat,
{
    let ghost start = row_changes_view(row_changes@);
    let ghost mid = start;
    let ghost m0 = start.len() as int;
    let ghost ch = children_of@;
    let ghost q = query_id@;
    assert(start.subrange(0, start.len() as int) =~= start);
    assert(start.subrange(m0, m0).len() == 0);
    match build_descendant_query(rel, deleted_row) {
        None => {},
        Some((sql, params)) => match query_rows_cached(prev_conn, sql.as_str(), &params) {
            None => {},
            Some((names, rows)) => {
                emit_child_rows(prev_conn, rel, &names, &rows, children_of, query_id, row_changes, depth);
                proof {
                    let cur = row_changes_view(row_changes@);
                    let seg = cur.subrange(m0, cur.len() as int);
                    let lines = lines_of(rows@);
                    assert(lines_read(names@, lines)) by {
                        assert forall|k: int| 0 <= k < lines.len() implies (#[trigger] lines[k]).len() == names@.len() by {
                            assert(lines[k] == cells_view(rows@[k]@));
                        }
                    }
                    lemma_relation_out_rows(ch, q, rel@, deleted_row@, names@, lines, depth as nat, seg);
                }
            },
        },
    }
}

/// The lines of cells a query read.
pub open spec fn lines_of(rows: Seq<Vec<SqlCell>>) -> Seq<Seq<SqlCellView>> {
    rows.map_values(|r: Vec<SqlCell>| cells_view(r@))
}

/// Appends what the child rows that a relation's query read give
/// (`rows_out`): for each row in turn, its removal (`descendant_removal`)
/// and then the removals of its own descendants, `depth - 1` levels down.
#[verifier::rlimit(80)]
pub fn emit_child_rows(
    prev_conn: &rusqlite::Connection,
    rel: &ChildRelation,
    names: &Vec<String>,
    rows: &Vec<Vec<SqlCell>>,
    children_of: &Vec<(String, Vec<ChildRelation>)>,
    query_id: &str,
    row_changes: &mut Vec<RowChange>,
    depth: u64,
)
    requires
        depth > 0,
        forall|k: int| 0 <= k < rows@.len() ==> (#[trigger] rows@[k])@.len() == names@.len(),
    ensures
        removals_appended(row_changes_view(old(row_changes)@), row_changes_view(final(row_changes)@), query_id@),
        rows_out(
            children_of@,
            query_id@,
            rel@,
            names@,
            lines_of(rows@),
            depth as nat,
            row_changes_view(final(row_changes)@).subrange(
                old(row_changes)@.len() as int,
                final(row_changes)@.len() as int,
            ),
        ),
    decreases depth, 0nat,
{
    let ghost start = row_changes_view(row_changes@);
    let ghost mid = start;
    let ghost m0 = start.len() as int;
    let ghost ch = children_of@;
    let ghost q = query_id@;
    assert(start.subrange(0, start.len() as int) =~= start);
    let ghost lines = lines_of(rows@);
    let ghost mut cuts2: Seq<int> = seq![0int];
    let mut j: usize = 0;
    while j < rows.len()
        invariant
            j <= rows@.len(),
            depth > 0,
            forall|k: int| 0 <= k < rows@.len() ==> (#[trigger] rows@[k])@.len() == names@.len(),
            removals_appended(start, row_changes_view(row_changes@), query_id@),
            start == row_changes_view(old(row_changes)@),
            ch == children_of@,
            q == query_id@,
            lines == lines_of(rows@),
            mid.is_prefix_of(row_changes_view(row_changes@)),
            m0 == mid.len(),
            cuts2.len() == j + 1,
            cuts2[0] == 0,
            cuts2[j as int] == row_changes@.len() - m0,
            forall|k: int| #![trigger cuts2[k]] 0 <= k < j ==> cuts2[k] <= cuts2[k + 1],
            forall|k: int|
                #![trigger lines[k]]
                0 <= k < j ==> child_out(
                    ch,
                    q,
                    rel@,
                    row_of_cells(names@, lines[k], names@.len()),
                    (depth - 1) as nat,
                    row_changes_view(row_changes@).subrange(m0 + cuts2[k], m0 + cuts2[k + 1]),
                ),
        decreases rows@.len() - j,
    {
        let child_row = cascade_row(&names, &rows[j]);
        let ghost crow = child_row@;
        assert(lines[j as int] == cells_view(rows@[j as int]@));
        let rc = descendant_removal(rel, query_id, &child_row);
        let ghost b0 = row_changes_view(row_changes@);
        let ghost rv = rc@;
        row_changes.push(rc);
        proof {
            let b1 = row_changes_view(row_changes@);
            assert(b1 =~= b0.push(rv));
            assert(removals_appended(b0, b1, query_id@)) by {
                assert(b1.subrange(0, b0.len() as int) =~= b0);
            }
            lemma_removals_trans(start, b0, b1, query_id@);
        }
        let ghost b2 = row_changes_view(row_changes@);
        emit_descendant_removals_to_depth(
            prev_conn,
            &child_row,
            rel.child_table.as_str(),
            children_of,
            query_id,
            row_changes,
            depth - 1,
        );
        proof {
            let b3 = row_changes_view(row_changes@);
            lemma_removals_trans(start, b2, b3, query_id@);
            assert(b2.subrange(0, b2.len() as int) =~= b3.subrange(0, b2.len() as int));
            assert(mid.is_prefix_of(b3)) by {
                assert(b3.subrange(0, m0) =~= b2.subrange(0, m0));
                assert(b2.subrange(0, m0) =~= b0.subrange(0, m0));
            }
            let piece = b3.subrange(b0.len() as int, b3.len() as int);
            assert(b3[b0.len() as int] == b2[b0.len() as int]);
                assert(piece[0] == rv);
            assert(piece.drop_first() =~= b3.subrange(b2.len() as int, b3.len() as int));
            assert(child_out(ch, q, rel@, crow, (depth - 1) as nat, piece));
            assert forall|k: int|
                #![trigger lines[k]]
                0 <= k < j implies child_out(
                    ch,
                    q,
                    rel@,
                    row_of_cells(names@, lines[k], names@.len()),
                    (depth - 1) as nat,
                    b3.subrange(m0 + cuts2[k], m0 + cuts2[k + 1]),
                ) by {
                lemma_cuts_bounded(cuts2, j as int, k);
                assert(b3.subrange(m0 + cuts2[k], m0 + cuts2[k + 1]) =~= b0.subrange(m0 + cuts2[k], m0 + cuts2[k + 1]));
            }
            cuts2 = cuts2.push(b3.len() - m0);
            assert(b3.subrange(m0 + cuts2[j as int], m0 + cuts2[j + 1]) =~= piece);
        }
        j = j + 1;
    }
    proof {
        let cur = row_changes_view(row_changes@);
        let seg = cur.subrange(m0, cur.len() as int);
        assert(segment_cuts(lines.len() as int, seg.len() as int, cuts2));
        assert forall|k: int|
            #![trigger lines[k]]
            0 <= k < lines.len() implies lines[k].len() == names@.len() && child_out(
                ch,
                q,
                rel@,
                row_of_cells(names@, lines[k], names@.len()),
                (depth - 1) as nat,
                seg.subrange(cuts2[k], cuts2[k + 1]),
            ) by {
            lemma_cuts_bounded(cuts2, lines.len() as int, k);
            assert(seg.subrange(cuts2[k], cuts2[k + 1]) =~= cur.subrange(m0 + cuts2[k], m0 + cuts2[k + 1]));
            assert(lines[k] == cells_view(rows@[k]@));
        }
        assert(rows_out(ch, q, rel@, names@, lines, depth as nat, seg));
    }
}

/// A child row from the columns read.
fn cascade_row(names: &Vec<String>, cells: &Vec<SqlCell>) -> (row: JsonMap)
    requires
        cells@.len() == names@.len(),
    ensures
        row.wf(),
        row@ == row_of_cells(names@, cells_view(cells@), names@.len()),
{
    let mut row = JsonMap::new();
    let mut i: usize = 0;
    while i < names.len()
        invariant
            i <= names@.len(),
            cells@.len() == names@.len(),
            row.wf(),
            row@ == row_of_cells(names@, cells_view(cells@), i as nat),
        decreases names@.len() - i,
    {
        let v = cascade_value(&cells[i]);
        row.insert(names[i].clone(), v);
        i = i + 1;
    }
    row
}

/// Appends a removal for every descendant of a deleted row, read from the
/// previous snapshot through `prev_conn`: for each relation of its table,
/// each child row that the relation's query reads (`descendant_removal`),
/// then that row's own descendants, depth first (`cascade_out`).
pub fn emit_descendant_removals_with_conn(
    prev_conn: &rusqlite::Connection,
    deleted_row: &JsonMap,
    deleted_table: &str,
    children_of: &Vec<(String, Vec<ChildRelation>)>,
    query_id: &str,
    row_changes: &mut Vec<RowChange>,
)
    ensures
        removals_appended(row_changes_view(old(row_changes)@), row_changes_view(final(row_changes)@), query_id@),
        assoc_get(children_of@, deleted_table@) is None ==> final(row_changes)@ == old(row_changes)@,
        cascade_out(
            children_of@,
            query_id@,
            deleted_table@,
            deleted_row@,
            u64::MAX as nat,
            row_changes_view(final(row_changes)@).subrange(
                old(row_changes)@.len() as int,
                final(row_changes)@.len() as int,
            ),
        ),
{
    emit_descendant_removals_to_depth(
        prev_conn,
        deleted_row,
        deleted_table,
        children_of,
        query_id,
        row_changes,
        u64::MAX,
    );
}

/// Opens the previous snapshot at `path` read-only
/// (`Connection::open_with_flags`, read-only and no-mutex) and pins it with
/// `BEGIN DEFERRED` (`execute_batch`); `None` where either fails.
#[verifier::external_body]
fn open_snapshot(path: &str) -> Option<rusqlite::Connection> {
    let flags = rusqlite::OpenFlags::SQLITE_OPEN_READ_ONLY | rusqlite::OpenFlags::SQLITE_OPEN_NO_MUTEX;
    let conn = rusqlite::Connection::open_with_flags(path, flags).ok()?;
    conn.execute_batch("BEGIN DEFERRED").ok()?;
    Some(conn)
}

/// Appends a removal for every descendant of a deleted row, read from the
/// previous snapshot at `prev_db_path` (nothing when the table has no
/// related tables or the snapshot cannot be opened).
pub fn emit_descendant_removals(
    prev_db_path: &str,
    deleted_row: &JsonMap,
    deleted_table: &str,
    children_of: &Vec<(String, Vec<ChildRelation>)>,
    query_id: &str,
    row_changes: &mut Vec<RowChange>,
)
    ensures
        removals_appended(row_changes_view(old(row_changes)@), row_changes_view(final(row_changes)@), query_id@),
        assoc_get(children_of@, deleted_table@) is None ==> final(row_changes)@ == old(row_changes)@,
        final(row_changes)@ == old(row_changes)@ || cascade_out(
            children_of@,
            query_id@,
            deleted_table@,
            deleted_row@,
            u64::MAX as nat,
            row_changes_view(final(row_changes)@).subrange(
                old(row_changes)@.len() as int,
                final(row_changes)@.len() as int,
            ),
        ),
{
    let ghost start = row_changes_view(row_changes@);
    assert(start.subrange(0, start.len() as int) =~= start);
    if assoc_find(children_of, deleted_table).is_none() {
        return;
    }
    match open_snapshot(prev_db_path) {
        None => {},
        Some(conn) => {
            emit_descendant_removals_with_conn(&conn, deleted_row, deleted_table, children_of, query_id, row_changes);
        },
    }
}

// --- Whether a related row's parent exists ---

/// The parameter a related row's join value binds as when its parent is
/// looked up: a boolean as 0 or 1, a string as text, a number as an integer
/// or a real; nothing for null, arrays and objects.
pub open spec fn parent_param(v: JsonView) -> Option<SqlParamView> {
    match v {
        JsonView::Bool(b) => Some(
            SqlParamView::Integer(
                if b {
                    1
                } else {
                    0
                },
            ),
        ),
        _ => join_param(v),
    }
}

/// Over the first `n` key pairs: a condition on each parent key column and
/// the related row's value for it; none when a value (absent counts as null)
/// cannot be bound.
pub open spec fn parent_parts(
    parent_key: Seq<String>,
    child_key: Seq<String>,
    row: RowView,
    n: nat,
) -> Option<(Seq<Seq<char>>, Seq<SqlParamView>)>
    decreases n,
{
    if n == 0 {
        Some((Seq::empty(), Seq::empty()))
    } else {
        match parent_parts(parent_key, child_key, row, (n - 1) as nat) {
            None => None,
            Some(parts) => match parent_param(field_value(row, child_key[n - 1]@)) {
                None => None,
                Some(p) => Some((parts.0.push(eq_param(parent_key[n - 1]@)), parts.1.push(p))),
            },
        }
    }
}

proof fn lemma_parent_parts_none(pk: Seq<String>, ck: Seq<String>, row: RowView, k: nat, m: nat)
    requires
        k <= m,
        parent_parts(pk, ck, row, k) is None,
    ensures
        parent_parts(pk, ck, row, m) is None,
    decreases m - k,
{
    if k < m {
        lemma_parent_parts_none(pk, ck, row, k, (m - 1) as nat);
    }
}

/// The query that finds a related row's parent, and its parameters: one
/// row of the parent table matching the row on every key pair; none when a
/// value cannot be bound.
pub open spec fn parent_query(ci: ChildTableInfoView, row: RowView) -> Option<(Seq<char>, Seq<SqlParamView>)> {
    let n = if ci.parent_key.len() <= ci.child_key.len() {
        ci.parent_key.len()
    } else {
        ci.child_key.len()
    };
    match parent_parts(ci.parent_key, ci.child_key, row, n) {
        None => None,
        Some(parts) => Some(
            (
                "SELECT 1 FROM "@ + quoted(ci.parent_table) + " WHERE "@ + join(parts.0, " AND "@)
                    + " LIMIT 1"@,
                parts.1,
            ),
        ),
    }
}

/// Builds the query that finds a related row's parent.
pub fn build_parent_query(ci: &ChildTableInfo, row: &JsonMap) -> (r: Option<(String, Vec<SqlParam>)>)
    ensures
        match (r, parent_query(ci@, row@)) {
            (Some(q), Some(s)) => q.0@ == s.0 && params_view(q.1@) == s.1,
            (None, None) => true,
            _ => false,
        },
{
    let n = if ci.parent_key.len() <= ci.child_key.len() {
        ci.parent_key.len()
    } else {
        ci.child_key.len()
    };
    let mut conds: Vec<String> = Vec::new();
    let mut params: Vec<SqlParam> = Vec::new();
    let mut i: usize = 0;
    while i < n
        invariant
            i <= n,
            n <= ci.parent_key@.len(),
            n <= ci.child_key@.len(),
            n == (if ci@.parent_key.len() <= ci@.child_key.len() {
                ci@.parent_key.len()
            } else {
                ci@.child_key.len()
            }),
            parent_parts(ci.parent_key@, ci.child_key@, row@, i as nat) == Some(
                (views(conds@), params_view(params@)),
            ),
        decreases n - i,
    {
        let v = field_value_exec(row, ci.child_key[i].as_str());
        let p = match v {
            JsonValue::Bool(b) => SqlParam::Integer(if b { 1 } else { 0 }),
            JsonValue::String(s) => SqlParam::Text(s),
            JsonValue::Number(num) => match num.as_i64() {
                Some(k) => SqlParam::Integer(k),
                None => SqlParam::Real(num),
            },
            _ => {
                proof {
                    lemma_parent_parts_none(ci.parent_key@, ci.child_key@, row@, (i + 1) as nat, n as nat);
                }
                return None;
            },
        };
        let mut c = quote(ci.parent_key[i].as_str());
        c.append(" = ?");
        let ghost cb = conds@;
        let ghost pb = params@;
        let ghost cv = c@;
        let ghost pv = p@;
        conds.push(c);
        params.push(p);
        assert(views(conds@) =~= views(cb).push(cv));
        assert(params_view(params@) =~= params_view(pb).push(pv));
        i = i + 1;
    }
    let mut sql = String::from_str("SELECT 1 FROM ");
    let t = quote(ci.parent_table.as_str());
    sql.append(t.as_str());
    sql.append(" WHERE ");
    let w = join_strings(&conds, " AND ");
    sql.append(w.as_str());
    sql.append(" LIMIT 1");
    Some((sql, params))
}

/// Opens the database at `db_path` read-only (`Connection::open_with_flags`,
/// read-only and no-mutex), prepares `sql` (`prepare`) and asks whether it
/// yields a row (`Statement::exists`); false where any of these fails. The
/// answer depends on the file, so nothing is stated of it.
#[verifier::external_body]
fn row_exists_at(db_path: &str, sql: &str, params: &Vec<SqlParam>) -> bool {
    let flags = rusqlite::OpenFlags::SQLITE_OPEN_READ_ONLY | rusqlite::OpenFlags::SQLITE_OPEN_NO_MUTEX;
    let conn = match rusqlite::Connection::open_with_flags(db_path, flags) {
        Ok(c) => c,
        Err(_) => return false,
    };
    let mut stmt = match conn.prepare(sql) {
        Ok(s) => s,
        Err(_) => return false,
    };
    stmt.exists(rusqlite::params_from_iter(params.iter().map(to_rusqlite_value))).unwrap_or(false)
}

/// Whether a related row's parent is in the database at `db_path`, so that
/// rows whose key points at no parent are not emitted: false when a key
/// value cannot be bound, else whether the parent query finds a row.
pub fn child_row_has_parent(db_path: &str, ci: &ChildTableInfo, child_row: &JsonMap) -> (r: bool)
    ensures
        parent_query(ci@, child_row@) is None ==> !r,
{
    match build_parent_query(ci, child_row) {
        None => false,
        Some((sql, params)) => row_exists_at(db_path, sql.as_str(), &params),
    }
}


// --- Changes on a related table that no operator reads ---

/// The row change a related row gives for a relationship.
pub open spec fn related_row_change(
    q: Seq<char>,
    ci: ChildTableInfoView,
    row: RowView,
    with_row: bool,
    t: Seq<char>,
) -> RowChangeView {
    RowChangeView {
        query_id: q,
        table: ci.relationship_name,
        row_key: row_key_of(row, ci.child_pk),
        row: if with_row {
            Some(row)
        } else {
            None
        },
        change_type: t,
    }
}

/// What one source change of a related table appends for a relationship: a
/// removed row's removal, then its descendants' removals read from the
/// previous snapshot (`cascade_out`; where `sure`, a connection to that
/// snapshot is at hand and they always follow, else none follow where it
/// cannot be opened); an added or edited row
/// as an add or an edit where its parent is found in the current snapshot
/// (nothing where it is not, and never where the parent cannot be looked
/// up).
pub open spec fn related_piece(
    sure: bool,
    ch: Seq<(String, Vec<ChildRelation>)>,
    q: Seq<char>,
    table: Seq<char>,
    ci: ChildTableInfoView,
    sc: SourceChangeView,
    out: Seq<RowChangeView>,
) -> bool {
    match sc {
        SourceChangeView::Remove(row) => {
            &&& out.len() >= 1
            &&& out[0] == related_row_change(q, ci, row, false, "remove"@)
            &&& if sure {
                cascade_out(ch, q, table, row, u64::MAX as nat, out.drop_first())
            } else {
                out.len() == 1 || cascade_out(ch, q, table, row, u64::MAX as nat, out.drop_first())
            }
        },
        SourceChangeView::Add(row) => out.len() == 0 || (parent_query(ci, row) is Some && out == seq![
            related_row_change(q, ci, row, true, "add"@),
        ]),
        SourceChangeView::Edit { row, .. } => out.len() == 0 || (parent_query(ci, row) is Some && out
            == seq![related_row_change(q, ci, row, true, "edit"@)]),
    }
}

/// What the source changes `scs` append for a relationship, in order.
pub open spec fn related_pieces(
    sure: bool,
    ch: Seq<(String, Vec<ChildRelation>)>,
    q: Seq<char>,
    table: Seq<char>,
    ci: ChildTableInfoView,
    scs: Seq<SourceChangeView>,
    out: Seq<RowChangeView>,
) -> bool
    decreases scs.len(),
{
    if scs.len() == 0 {
        out.len() == 0
    } else {
        exists|k: int|
            #![trigger out.take(k)]
            0 <= k <= out.len() && related_pieces(sure, ch, q, table, ci, scs.drop_last(), out.take(k))
                && related_piece(sure, ch, q, table, ci, scs.last(), out.skip(k))
    }
}

/// What a change on a related table appends for the relationships `cis`
/// reading it, in order: for each, what the change's source changes (by the
/// relationship's child key) append.
pub open spec fn related_change_out(
    sure: bool,
    ch: Seq<(String, Vec<ChildRelation>)>,
    q: Seq<char>,
    change: crate::diff::ChangeView,
    cis: Seq<ChildTableInfoView>,
    out: Seq<RowChangeView>,
) -> bool
    decreases cis.len(),
{
    if cis.len() == 0 {
        out.len() == 0
    } else {
        exists|k: int|
            #![trigger out.take(k)]
            0 <= k <= out.len() && related_change_out(sure, ch, q, change, cis.drop_last(), out.take(k))
                && related_pieces(
                sure,
                ch,
                q,
                change.table,
                cis.last(),
                source_changes_of(change, cis.last().child_pk),
                out.skip(k),
            )
    }
}

proof fn lemma_pieces_step(
    sure: bool,
    ch: Seq<(String, Vec<ChildRelation>)>,
    q: Seq<char>,
    table: Seq<char>,
    ci: ChildTableInfoView,
    scs: Seq<SourceChangeView>,
    out: Seq<RowChangeView>,
    k: int,
)
    requires
        scs.len() > 0,
        0 <= k <= out.len(),
        related_pieces(sure, ch, q, table, ci, scs.drop_last(), out.take(k)),
        related_piece(sure, ch, q, table, ci, scs.last(), out.skip(k)),
    ensures
        related_pieces(sure, ch, q, table, ci, scs, out),
{
}

proof fn lemma_related_step(
    sure: bool,
    ch: Seq<(String, Vec<ChildRelation>)>,
    q: Seq<char>,
    change: crate::diff::ChangeView,
    cis: Seq<ChildTableInfoView>,
    out: Seq<RowChangeView>,
    k: int,
)
    requires
        cis.len() > 0,
        0 <= k <= out.len(),
        related_change_out(sure, ch, q, change, cis.drop_last(), out.take(k)),
        related_pieces(sure, ch, q, change.table, cis.last(), source_changes_of(change, cis.last().child_pk), out.skip(k)),
    ensures
        related_change_out(sure, ch, q, change, cis, out),
{
}

pub open spec fn infos_view(cis: Seq<ChildTableInfo>) -> Seq<ChildTableInfoView> {
    cis.map_values(|c: ChildTableInfo| c@)
}

/// Appends the row change of an added or edited related row (change type
/// `t`) where its parent was found, and nothing where it was not.
pub fn emit_related_row(
    parent_found: bool,
    query_id: &str,
    ci: &ChildTableInfo,
    row: &JsonMap,
    t: &str,
    row_changes: &mut Vec<RowChange>,
)
    ensures
        row_changes_view(final(row_changes)@) == if parent_found {
            row_changes_view(old(row_changes)@).push(related_row_change(query_id@, ci@, row@, true, t@))
        } else {
            row_changes_view(old(row_changes)@)
        },
{
    if parent_found {
        let ghost before = row_changes_view(row_changes@);
        let c = RowChange {
            query_id: String::from_str(query_id),
            table: ci.relationship_name.clone(),
            row_key: extract_row_key_from_map(row, ci.child_pk.as_slice()),
            row: Some(row.duplicate()),
            change_type: String::from_str(t),
        };
        row_changes.push(c);
        assert(row_changes_view(row_changes@) =~= before.push(c@));
    }
}

/// Appends what one source change of a related table gives for a
/// relationship (`related_piece`).
fn emit_related_piece(
    prev_conn: Option<&rusqlite::Connection>,
    prev_db_path: &str,
    db_path: &str,
    table: &str,
    ci: &ChildTableInfo,
    sc: &SourceChange,
    children_of: &Vec<(String, Vec<ChildRelation>)>,
    query_id: &str,
    row_changes: &mut Vec<RowChange>,
)
    ensures
        row_changes_view(old(row_changes)@).is_prefix_of(row_changes_view(final(row_changes)@)),
        related_piece(
            prev_conn is Some,
            children_of@,
            query_id@,
            table@,
            ci@,
            sc@,
            row_changes_view(final(row_changes)@).skip(old(row_changes)@.len() as int),
        ),
{
    let ghost start = row_changes_view(row_changes@);
    let ghost n0 = start.len() as int;
    match sc {
        SourceChange::Remove(row) => {
            let c = RowChange {
                query_id: String::from_str(query_id),
                table: ci.relationship_name.clone(),
                row_key: extract_row_key_from_map(row, ci.child_pk.as_slice()),
                row: None,
                change_type: String::from_str("remove"),
            };
            row_changes.push(c);
            let ghost mid = row_changes_view(row_changes@);
            assert(mid =~= start.push(c@));
            match prev_conn {
                Some(pc) => {
                    emit_descendant_removals_with_conn(pc, row, table, children_of, query_id, row_changes);
                },
                None => {
                    emit_descendant_removals(prev_db_path, row, table, children_of, query_id, row_changes);
                },
            }
            proof {
                let fin = row_changes_view(row_changes@);
                assert(mid.is_prefix_of(fin));
                assert(fin.subrange(0, n0) =~= start);
                let out = fin.skip(n0);
                assert(out[0] == fin[n0]);
                assert(fin[n0] == mid[n0]);
                assert(out.drop_first() =~= fin.subrange(n0 + 1, fin.len() as int));
            }
        },
        SourceChange::Add(row) => {
            let found = child_row_has_parent(db_path, ci, row);
            emit_related_row(found, query_id, ci, row, "add", row_changes);
            proof {
                reveal_strlit("add");
                let fin = row_changes_view(row_changes@);
                if found {
                    assert(fin.skip(n0) =~= seq![related_row_change(query_id@, ci@, row@, true, "add"@)]);
                } else {
                    assert(fin.skip(n0).len() == 0);
                }
            }
        },
        SourceChange::Edit { row, .. } => {
            let found = child_row_has_parent(db_path, ci, row);
            emit_related_row(found, query_id, ci, row, "edit", row_changes);
            proof {
                reveal_strlit("edit");
                let fin = row_changes_view(row_changes@);
                if found {
                    assert(fin.skip(n0) =~= seq![related_row_change(query_id@, ci@, row@, true, "edit"@)]);
                } else {
                    assert(fin.skip(n0).len() == 0);
                }
            }
        },
    }
}

/// Appends what a change on a related table that no operator reads gives,
/// for each relationship in `child_infos` that reads it
/// (`related_change_out`): removed rows with their descendants, added and
/// edited rows whose parent exists. Descendants are read through
/// `prev_conn` where it is given, else from the snapshot at
/// `prev_db_path`; parents from the database at `db_path`.
pub fn advance_related_change(
    prev_conn: Option<&rusqlite::Connection>,
    prev_db_path: &str,
    db_path: &str,
    change: &crate::diff::Change,
    child_infos: &Vec<ChildTableInfo>,
    children_of: &Vec<(String, Vec<ChildRelation>)>,
    query_id: &str,
    row_changes: &mut Vec<RowChange>,
)
    ensures
        row_changes_view(old(row_changes)@).is_prefix_of(row_changes_view(final(row_changes)@)),
        related_change_out(
            prev_conn is Some,
            children_of@,
            query_id@,
            change@,
            infos_view(child_infos@),
            row_changes_view(final(row_changes)@).skip(old(row_changes)@.len() as int),
        ),
{
    let ghost start = row_changes_view(row_changes@);
    let ghost n0 = start.len() as int;
    let ghost ch = children_of@;
    let ghost q = query_id@;
    let ghost cis = infos_view(child_infos@);
    let mut i: usize = 0;
    assert(cis.take(0) =~= Seq::<ChildTableInfoView>::empty());
    assert(row_changes_view(row_changes@).skip(n0).len() == 0);
    while i < child_infos.len()
        invariant
            i <= child_infos@.len(),
            cis == infos_view(child_infos@),
            ch == children_of@,
            q == query_id@,
            n0 == start.len(),
            start.is_prefix_of(row_changes_view(row_changes@)),
            related_change_out(prev_conn is Some, ch, q, change@, cis.take(i as int), row_changes_view(row_changes@).skip(n0)),
        decreases child_infos@.len() - i,
    {
        let ci = &child_infos[i];
        let ghost before = row_changes_view(row_changes@);
        let ghost scv = source_changes_of(change@, ci@.child_pk);
        let scs = diff_change_to_source_changes(change, ci.child_pk.as_slice());
        let mut j: usize = 0;
        assert(scv.take(0) =~= Seq::<SourceChangeView>::empty());
        assert(before.skip(before.len() as int).len() == 0);
        while j < scs.len()
            invariant
                j <= scs@.len(),
                source_changes_view(scs@) == scv,
                ch == children_of@,
                q == query_id@,
                before.is_prefix_of(row_changes_view(row_changes@)),
                start.is_prefix_of(before),
                n0 == start.len(),
                related_pieces(prev_conn is Some, ch, q, change@.table, ci@, scv.take(j as int), row_changes_view(row_changes@).skip(before.len() as int)),
            decreases scs@.len() - j,
        {
            let ghost mid = row_changes_view(row_changes@);
            emit_related_piece(prev_conn, prev_db_path, db_path, change.table.as_str(), ci, &scs[j], children_of, query_id, row_changes);
            proof {
                let fin = row_changes_view(row_changes@);
                let out = fin.skip(before.len() as int);
                let k = mid.len() - before.len();
                assert(scv.take(j + 1).drop_last() =~= scv.take(j as int));
                assert(scv.take(j + 1).last() == scs@[j as int]@);
                assert(out.take(k) =~= mid.skip(before.len() as int));
                assert(out.skip(k) =~= fin.skip(mid.len() as int));
                assert(change@.table == change.table@);
                assert(related_pieces(prev_conn is Some, ch, q, change@.table, ci@, scv.take(j + 1).drop_last(), out.take(k)));
                assert(related_piece(prev_conn is Some, ch, q, change@.table, ci@, scv.take(j + 1).last(), out.skip(k)));
                assert(0 <= k <= out.len());
                lemma_pieces_step(prev_conn is Some, ch, q, change@.table, ci@, scv.take(j + 1), out, k);
            }
            j = j + 1;
        }
        proof {
            let fin = row_changes_view(row_changes@);
            let out = fin.skip(n0);
            let k = before.len() - n0;
            assert(scv.take(scs@.len() as int) =~= scv);
            assert(cis.take(i + 1).drop_last() =~= cis.take(i as int));
            assert(cis.take(i + 1).last() == ci@);
            assert(out.take(k) =~= before.skip(n0));
            assert(out.skip(k) =~= fin.skip(before.len() as int));
            assert(related_change_out(prev_conn is Some, ch, q, change@, cis.take(i + 1).drop_last(), out.take(k)));
            assert(related_pieces(prev_conn is Some, ch, q, change@.table, cis.take(i + 1).last(), source_changes_of(change@, cis.take(i + 1).last().child_pk), out.skip(k)));
            assert(0 <= k <= out.len());
            lemma_related_step(prev_conn is Some, ch, q, change@, cis.take(i + 1), out, k);
        }
        i = i + 1;
    }
    assert(cis.take(child_infos@.len() as int) =~= cis);
}


// --- What a pipeline's output change appends ---

/// A node with at least one related row.
pub open spec fn has_child_rows(n: NodeView) -> bool {
    exists|i: int| 0 <= i < n.relationships.len() && (#[trigger] n.relationships[i]).1.len() > 0
}

/// What an output change of a pipeline on its source table appends: its
/// row changes with everything under it (`change_flat`), then, for a
/// removed row that carries no related rows while some table has related
/// tables, the removals of its descendants read from the previous snapshot
/// (`cascade_out`). Where `sure` (a connection to that snapshot is at hand)
/// they always follow; else none follow where the snapshot cannot be
/// opened.
pub open spec fn pipeline_output(
    sure: bool,
    ch: Seq<(String, Vec<ChildRelation>)>,
    q: Seq<char>,
    table: Seq<char>,
    pk: Seq<String>,
    pks: Seq<(String, Vec<String>)>,
    oc: NodeChangeView,
    out: Seq<RowChangeView>,
) -> bool {
    let flat = change_flat(q, table, pk, oc, pks);
    &&& out.len() >= flat.len()
    &&& out.take(flat.len() as int) == flat
    &&& match oc {
        NodeChangeView::Remove(n) => if !has_child_rows(n) && ch.len() > 0 {
            if sure {
                cascade_out(ch, q, table, n.row, u64::MAX as nat, out.skip(flat.len() as int))
            } else {
                out.len() == flat.len() || cascade_out(ch, q, table, n.row, u64::MAX as nat, out.skip(flat.len() as int))
            }
        } else {
            out.len() == flat.len()
        },
        _ => out.len() == flat.len(),
    }
}

fn node_has_child_rows(node: &Node) -> (r: bool)
    ensures
        r == has_child_rows(node@),
{
    proof {
        crate::source::lemma_rels_view(node.relationships@);
    }
    let mut i: usize = 0;
    while i < node.relationships.len()
        invariant
            i <= node.relationships@.len(),
            node@.relationships.len() == node.relationships@.len(),
            forall|k: int|
                0 <= k < node.relationships@.len() ==> #[trigger] node@.relationships[k] == (
                    node.relationships@[k].0@,
                    crate::source::nodes_view(node.relationships@[k].1@),
                ),
            forall|k: int| 0 <= k < i ==> (#[trigger] node@.relationships[k]).1.len() == 0,
        decreases node.relationships@.len() - i,
    {
        proof {
            crate::source::lemma_nodes_view(node.relationships@[i as int].1@);
        }
        if node.relationships[i].1.len() > 0 {
            assert(node@.relationships[i as int].1.len() > 0);
            return true;
        }
        i = i + 1;
    }
    false
}

/// Appends what an output change of a pipeline on its source table gives
/// (`pipeline_output`). Descendants are read through `prev_conn` where it is
/// given, else from the snapshot at `prev_db_path`.
pub fn emit_pipeline_output(
    prev_conn: Option<&rusqlite::Connection>,
    prev_db_path: &str,
    oc: &NodeChange,
    query_id: &str,
    table: &str,
    primary_key: &[String],
    all_pks: &Vec<(String, Vec<String>)>,
    children_of: &Vec<(String, Vec<ChildRelation>)>,
    row_changes: &mut Vec<RowChange>,
)
    ensures
        row_changes_view(old(row_changes)@).is_prefix_of(row_changes_view(final(row_changes)@)),
        pipeline_output(
            prev_conn is Some,
            children_of@,
            query_id@,
            table@,
            primary_key@,
            all_pks@,
            oc@,
            row_changes_view(final(row_changes)@).skip(old(row_changes)@.len() as int),
        ),
{
    let ghost start = row_changes_view(row_changes@);
    let ghost n0 = start.len() as int;
    let ghost flat = change_flat(query_id@, table@, primary_key@, oc@, all_pks@);
    flatten_ivm_change_to_row_changes(row_changes, oc, query_id, table, primary_key, all_pks);
    let ghost mid = row_changes_view(row_changes@);
    assert(mid.skip(n0) =~= flat);
    assert(mid.skip(n0).take(flat.len() as int) =~= flat);
    if let NodeChange::Remove(node) = oc {
        if !node_has_child_rows(node) && children_of.len() > 0 {
            match prev_conn {
                Some(pc) => {
                    emit_descendant_removals_with_conn(pc, &node.row, table, children_of, query_id, row_changes);
                },
                None => {
                    emit_descendant_removals(prev_db_path, &node.row, table, children_of, query_id, row_changes);
                },
            }
            proof {
                let fin = row_changes_view(row_changes@);
                let out = fin.skip(n0);
                assert(fin.subrange(0, mid.len() as int) =~= mid);
                assert(out.take(flat.len() as int) =~= flat);
                assert(out.skip(flat.len() as int) =~= fin.subrange(mid.len() as int, fin.len() as int));
            }
        }
    }
}


// --- Which part of a pipeline a change reaches ---

/// Where a change of a batch goes in a pipeline.
pub enum ChangeRoute {
    /// Through every operator: it is on the pipeline's source table.
    Source,
    /// Into the operators that read its table as a child table.
    Operators,
    /// To the relationships that read its table without an operator.
    Related,
    /// Nowhere: the pipeline does not read its table.
    Ignored,
}

/// Where a change on `table` goes: the source table first, then the child
/// tables that operators read, then the related tables read without one.
pub open spec fn change_route(
    table: Seq<char>,
    source_table: Seq<char>,
    op_index: Seq<(String, Vec<(usize, Vec<String>)>)>,
    related: Seq<(String, Vec<ChildTableInfo>)>,
) -> ChangeRoute {
    if table == source_table {
        ChangeRoute::Source
    } else if assoc_get(op_index, table) is Some {
        ChangeRoute::Operators
    } else if assoc_get(related, table) is Some {
        ChangeRoute::Related
    } else {
        ChangeRoute::Ignored
    }
}

/// Decides where a change on `table` goes in a pipeline (`change_route`).
pub fn route_change(
    table: &str,
    source_table: &str,
    op_index: &Vec<(String, Vec<(usize, Vec<String>)>)>,
    related: &Vec<(String, Vec<ChildTableInfo>)>,
) -> (r: ChangeRoute)
    ensures
        r == change_route(table@, source_table@, op_index@, related@),
{
    if crate::json::str_eq(table, source_table) {
        ChangeRoute::Source
    } else if assoc_find(op_index, table).is_some() {
        ChangeRoute::Operators
    } else if assoc_find(related, table).is_some() {
        ChangeRoute::Related
    } else {
        ChangeRoute::Ignored
    }
}

} // verus!
