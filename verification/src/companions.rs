//! Post-processing of a pipeline manager's row changes: permission tables
//! and row versions, and the companion scalar subqueries of queries.
use vstd::prelude::*;

use std::cmp::Ordering;

use crate::advance::{
    extract_row_key_from_map, row_change, row_changes_view, row_key_of, RowChange, RowChangeView,
};
use crate::diff::{eq_params, Change, ChangeView, TableAndZqlSpec};
use crate::sqlite::{
    json_to_sqlite_value, params_view, sql_param_of, to_cell, to_rusqlite_value, utf8_or_empty, SqlCell,
    SqlCellView, SqlParam, SqlParamView,
};
use crate::text::{join, join_strings, quote, quoted};
use crate::json::{
    assoc_find, assoc_get, entries_get, float_text, float_to_string, json_text,
    lemma_entries_get_insert, map_insert, str_eq, to_json_string, JsonMap, JsonNumber, JsonValue, JsonView, NumberKind,
};
use crate::source::{
    char_seq_order, lemma_char_seq_order_antisymmetric, lemma_char_seq_order_reflexive, not_after, str_less,
    RowView,
};
use crate::text::{decimal, push_decimal, views};
use crate::advance::row_changes_view as rcv;

verus! {

// --- Permission tables and row versions ---

/// The row with its `_0_version` raised to the table's minimum row version
/// where it holds a lower one (as strings).
pub open spec fn bumped_row(row: RowView, table: Seq<char>, syncable: Seq<(String, TableAndZqlSpec)>) -> RowView {
    match assoc_get(syncable, table) {
        Some(spec) => match spec.table_spec.min_row_version {
            Some(mv) => match entries_get(row, "_0_version"@) {
                Some(JsonView::Str(ver)) => if char_seq_order(ver, mv@) == Ordering::Less {
                    map_insert(row, "_0_version"@, JsonView::Str(mv@))
                } else {
                    row
                },
                _ => row,
            },
            None => row,
        },
        None => row,
    }
}

/// The row's version, when it is a string.
pub open spec fn row_version(row: RowView) -> Option<Seq<char>> {
    match entries_get(row, "_0_version"@) {
        Some(JsonView::Str(v)) => Some(v),
        _ => None,
    }
}

/// Raising versions never lowers one and is done once for all: a raised
/// version sorts no earlier than the one the row had, and raising the raised
/// row again leaves it as it is.
pub proof fn lemma_bumped_row(row: RowView, table: Seq<char>, syncable: Seq<(String, TableAndZqlSpec)>)
    ensures
        bumped_row(bumped_row(row, table, syncable), table, syncable) == bumped_row(row, table, syncable),
        match row_version(row) {
            Some(v) => match row_version(bumped_row(row, table, syncable)) {
                Some(w) => not_after(char_seq_order(v, w)),
                None => false,
            },
            None => bumped_row(row, table, syncable) == row,
        },
{
    if let Some(v) = row_version(row) {
        lemma_char_seq_order_reflexive(v);
    }
    if let Some(spec) = assoc_get(syncable, table) {
        if let Some(mv) = spec.table_spec.min_row_version {
            if let Some(JsonView::Str(ver)) = entries_get(row, "_0_version"@) {
                if char_seq_order(ver, mv@) == Ordering::Less {
                    lemma_entries_get_insert(row, "_0_version"@, JsonView::Str(mv@));
                    lemma_char_seq_order_reflexive(mv@);
                    lemma_char_seq_order_antisymmetric(ver, mv@);
                } else {
                    lemma_char_seq_order_reflexive(ver);
                }
            }
        }
    }
}

/// The change with its row's version raised, unless it is a remove.
pub open spec fn version_bumped(c: RowChangeView, syncable: Seq<(String, TableAndZqlSpec)>) -> RowChangeView {
    if c.change_type != "remove"@ && c.row is Some {
        RowChangeView { row: Some(bumped_row(c.row->Some_0, c.table, syncable)), ..c }
    } else {
        c
    }
}

/// The changes without those of permission tables, versions raised.
pub open spec fn filtered_changes(
    cs: Seq<RowChangeView>,
    permission_tables: Seq<String>,
    syncable: Seq<(String, TableAndZqlSpec)>,
) -> Seq<RowChangeView>
    decreases cs.len(),
{
    if cs.len() == 0 {
        Seq::empty()
    } else {
        filtered_changes(cs.drop_last(), permission_tables, syncable) + if views(
            permission_tables,
        ).contains(cs.last().table) {
            Seq::empty()
        } else {
            seq![version_bumped(cs.last(), syncable)]
        }
    }
}

/// The change's row, if any, has unique column names.
pub open spec fn row_ok(c: RowChange) -> bool {
    match c.row {
        Some(r) => r.wf(),
        None => true,
    }
}

pub(crate) fn name_in(names: &Vec<String>, name: &str) -> (r: bool)
    ensures
        r == views(names@).contains(name@),
{
    let mut i: usize = 0;
    while i < names.len()
        invariant
            i <= names@.len(),
            forall|k: int| 0 <= k < i ==> names@[k]@ != name@,
        decreases names@.len() - i,
    {
        if str_eq(names[i].as_str(), name) {
            assert(views(names@)[i as int] == name@);
            return true;
        }
        i = i + 1;
    }
    assert(!views(names@).contains(name@)) by {
        if views(names@).contains(name@) {
            let k = choose|k: int| 0 <= k < views(names@).len() && views(names@)[k] == name@;
            assert(names@[k]@ == name@);
        }
    }
    false
}

fn bump_version(row: &mut JsonMap, table: &str, syncable: &Vec<(String, TableAndZqlSpec)>)
    requires
        old(row).wf(),
    ensures
        final(row).wf(),
        final(row)@ == bumped_row(old(row)@, table@, syncable@),
{
    proof {
        reveal_strlit("_0_version");
    }
    let min_ver = match assoc_find(syncable, table) {
        Some(spec) => match &spec.table_spec.min_row_version {
            Some(mv) => mv,
            None => {
                return ;
            },
        },
        None => {
            return ;
        },
    };
    let lower = match row.get("_0_version") {
        Some(JsonValue::String(ver)) => str_less(ver.as_str(), min_ver.as_str()),
        _ => false,
    };
    if lower {
        row.insert(String::from_str("_0_version"), JsonValue::String(min_ver.clone()));
    }
}

/// Drops the changes of permission tables and raises the `_0_version` of
/// each remaining added or edited row to its table's minimum row version.
pub fn apply_permission_and_version_filters(
    changes: &mut Vec<RowChange>,
    permission_tables: &Vec<String>,
    syncable_tables: &Vec<(String, TableAndZqlSpec)>,
)
    requires
        forall|i: int| 0 <= i < old(changes)@.len() ==> row_ok(#[trigger] old(changes)@[i]),
    ensures
        row_changes_view(final(changes)@) == filtered_changes(
            row_changes_view(old(changes)@),
            permission_tables@,
            syncable_tables@,
        ),
{
    proof {
        reveal_strlit("remove");
    }
    let ghost orig = row_changes_view(changes@);
    let ghost orig_changes = changes@;
    let mut rest: Vec<RowChange> = Vec::new();
    std::mem::swap(changes, &mut rest);
    let mut k: usize = 0;
    let n0 = rest.len();
    let ghost n = n0 as nat;
    assert(orig.take(0) =~= Seq::<RowChangeView>::empty());
    while rest.len() > 0
        invariant
            k + rest@.len() == n,
            n == n0,
            n == orig.len(),
            orig == row_changes_view(orig_changes),
            orig_changes.len() == n,
            rest@ =~= orig_changes.skip(k as int),
            forall|i: int| 0 <= i < orig_changes.len() ==> row_ok(#[trigger] orig_changes[i]),
            row_changes_view(changes@) == filtered_changes(
                orig.take(k as int),
                permission_tables@,
                syncable_tables@,
            ),
        decreases rest@.len(),
    {
        let mut c = rest.remove(0);
        assert(c == orig_changes[k as int]);
        assert(orig.take(k + 1).drop_last() =~= orig.take(k as int));
        assert(orig.take(k + 1).last() == c@);
        if !name_in(permission_tables, c.table.as_str()) {
            let ghost cv = c@;
            if !str_eq(c.change_type.as_str(), "remove") {
                match c.row {
                    Some(mut r) => {
                        bump_version(&mut r, c.table.as_str(), syncable_tables);
                        c.row = Some(r);
                    },
                    None => {},
                }
            }
            assert(c@ == version_bumped(cv, syncable_tables@));
            let ghost before = row_changes_view(changes@);
            let ghost nv = c@;
            changes.push(c);
            assert(row_changes_view(changes@) =~= before.push(nv));
        }
        k = k + 1;
    }
    assert(orig.take(n as int) =~= orig);
}

// --- Text of JSON values ---

/// The text of an integer number: its decimal notation, with a minus sign
/// when negative.
pub open spec fn int_text(n: JsonNumber) -> Seq<char> {
    match n.kind {
        NumberKind::NegInt => if n.neg < 0 {
            seq!['-'] + decimal((-(n.neg as int)) as nat)
        } else {
            decimal(n.neg as nat)
        },
        _ => decimal(n.pos as nat),
    }
}

/// The text of a number (serde_json's `Display`).
pub open spec fn number_text(n: JsonNumber) -> Seq<char> {
    if n.kind == NumberKind::Float {
        float_text(n)
    } else {
        int_text(n)
    }
}

pub(crate) fn number_to_string(n: &JsonNumber) -> (s: String)
    ensures
        s@ == number_text(*n),
{
    match n.kind {
        NumberKind::Float => {
            let t = float_to_string(n);
            assert(t@ == float_text(*n));
            assert(number_text(*n) == float_text(*n));
            t
        },
        NumberKind::NegInt => {
            if n.neg < 0 {
                proof {
                    reveal_strlit("-");
                }
                let mut s = String::from_str("-");
                let magnitude: u64 = ((-(n.neg + 1)) as u64) + 1;
                assert(magnitude as nat == (-(n.neg as int)) as nat);
                push_decimal(&mut s, magnitude);
                assert(s@ =~= number_text(*n));
                s
            } else {
                let mut s = String::new();
                push_decimal(&mut s, n.neg as u64);
                assert(s@ =~= number_text(*n));
                s
            }
        },
        NumberKind::PosInt => {
            let mut s = String::new();
            push_decimal(&mut s, n.pos);
            assert(s@ =~= number_text(*n));
            s
        },
    }
}


/// A value as text, the way a script's `String()` shows it: `null`, a
/// string itself, a number's notation, `true`/`false`, else its JSON text.
pub open spec fn display_text(v: JsonView) -> Seq<char> {
    match v {
        JsonView::Null => "null"@,
        JsonView::Str(s) => s,
        JsonView::Number(n) => number_text(n),
        JsonView::Bool(b) => if b {
            "true"@
        } else {
            "false"@
        },
        _ => json_text(v),
    }
}

/// A value as text, the way a script's `String()` shows it.
pub fn json_display(v: &JsonValue) -> (s: String)
    ensures
        s@ == display_text(v@),
{
    match v {
        JsonValue::Null => String::from_str("null"),
        JsonValue::String(s) => s.clone(),
        JsonValue::Number(n) => number_to_string(n),
        JsonValue::Bool(b) => if *b {
            String::from_str("true")
        } else {
            String::from_str("false")
        },
        _ => to_json_string(v),
    }
}

/// A scalar as a reset message shows it: `undefined` for null, a string
/// itself, a number's notation, else its JSON text.
pub open spec fn scalar_text(v: JsonView) -> Seq<char> {
    match v {
        JsonView::Null => "undefined"@,
        JsonView::Str(s) => s,
        JsonView::Number(n) => number_text(n),
        _ => json_text(v),
    }
}

/// A scalar as a reset message shows it.
pub fn format_scalar(v: &JsonValue) -> (s: String)
    ensures
        s@ == scalar_text(v@),
{
    match v {
        JsonValue::Null => String::from_str("undefined"),
        JsonValue::String(s) => s.clone(),
        JsonValue::Number(n) => number_to_string(n),
        _ => to_json_string(v),
    }
}

/// Two scalars are equal: both null, equal strings, numbers or booleans,
/// else equal JSON texts.
pub open spec fn scalars_equal(a: JsonView, b: JsonView) -> bool {
    if a is Null && b is Null {
        true
    } else {
        match (a, b) {
            (JsonView::Str(x), JsonView::Str(y)) => x == y,
            (JsonView::Number(x), JsonView::Number(y)) => x.same(y),
            (JsonView::Bool(x), JsonView::Bool(y)) => x == y,
            _ => json_text(a) == json_text(b),
        }
    }
}

/// Whether two scalars are equal.
pub fn scalar_values_equal(a: &JsonValue, b: &JsonValue) -> (r: bool)
    ensures
        r == scalars_equal(a@, b@),
{
    if a.is_null() && b.is_null() {
        return true;
    }
    match (a, b) {
        (JsonValue::String(x), JsonValue::String(y)) => str_eq(x.as_str(), y.as_str()),
        (JsonValue::Number(x), JsonValue::Number(y)) => x.same_as(y),
        (JsonValue::Bool(x), JsonValue::Bool(y)) => *x == *y,
        _ => {
            let ta = to_json_string(a);
            let tb = to_json_string(b);
            str_eq(ta.as_str(), tb.as_str())
        },
    }
}

/// Whether two values show as the same text.
pub fn json_values_match(a: &JsonValue, b: &JsonValue) -> (r: bool)
    ensures
        r == (display_text(a@) == display_text(b@)),
{
    let ta = json_display(a);
    let tb = json_display(b);
    str_eq(ta.as_str(), tb.as_str())
}

/// The key of a companion row: its primary key columns, or the whole row
/// without a primary key.
pub open spec fn pk_json(row: RowView, pk: Seq<String>) -> JsonView {
    if pk.len() == 0 {
        JsonView::Object(row)
    } else {
        row_key_of(row, pk)
    }
}

/// The key of a companion row.
pub fn extract_pk_as_json(row: &JsonMap, pk: &[String]) -> (k: JsonValue)
    ensures
        k@ == pk_json(row@, pk@),
{
    if pk.len() == 0 {
        let m = row.duplicate();
        proof {
            crate::json::lemma_entries_view(m.entries@);
        }
        return JsonValue::Object(m);
    }
    extract_row_key_from_map(row, pk)
}

// --- Companion scalar subqueries ---

/// A literal equality condition of a companion subquery.
pub struct CompanionCondition {
    pub column: String,
    pub value: JsonValue,
}

/// A scalar subquery a query depends on: the table and field it reads, the
/// value it had when the query was hydrated, its equality conditions and
/// the table's primary key.
pub struct CompanionInfo {
    pub query_id: String,
    pub table: String,
    pub child_field: String,
    pub resolved_value: JsonValue,
    pub where_conditions: Vec<CompanionCondition>,
    pub primary_key: Vec<String>,
}

/// The row a change shows a companion: the new row, else the first row it
/// replaces.
pub open spec fn companion_row(c: ChangeView) -> Option<RowView> {
    match c.next_value {
        Some(r) => Some(r),
        None => if c.prev_values.len() > 0 {
            Some(c.prev_values[0])
        } else {
            None
        },
    }
}

/// The row holds every condition's column with a value that shows as the
/// condition's value.
pub open spec fn conditions_match(row: RowView, conds: Seq<CompanionCondition>) -> bool {
    forall|i: int|
        0 <= i < conds.len() ==> match entries_get(row, (#[trigger] conds[i]).column@) {
            Some(v) => display_text(v) == display_text(conds[i].value@),
            None => false,
        }
}

/// The row change a diff change gives a query's companion: none for another
/// table, a change without a row or a row that fails the conditions; else
/// keyed by the companion's primary key, an edit (new row and replaced
/// rows), an add (new row only) or a remove.
pub open spec fn companion_change(q: Seq<char>, comp: CompanionInfo, c: ChangeView) -> Seq<RowChangeView> {
    if c.table != comp.table@ {
        Seq::empty()
    } else {
        match companion_row(c) {
            None => Seq::empty(),
            Some(row) => if !conditions_match(row, comp.where_conditions@) {
                Seq::empty()
            } else {
                let key = pk_json(row, comp.primary_key@);
                if c.next_value is Some && c.prev_values.len() > 0 {
                    seq![row_change(q, comp.table@, key, c.next_value, "edit"@)]
                } else if c.next_value is Some {
                    seq![row_change(q, comp.table@, key, c.next_value, "add"@)]
                } else {
                    seq![row_change(q, comp.table@, key, None, "remove"@)]
                }
            },
        }
    }
}

/// The row changes of a query's companion over a diff, in order.
pub open spec fn companion_emission(q: Seq<char>, comp: CompanionInfo, changes: Seq<ChangeView>) -> Seq<
    RowChangeView,
>
    decreases changes.len(),
{
    if changes.len() == 0 {
        Seq::empty()
    } else {
        companion_emission(q, comp, changes.drop_last()) + companion_change(q, comp, changes.last())
    }
}

fn conditions_match_exec(row: &JsonMap, conds: &Vec<CompanionCondition>) -> (r: bool)
    ensures
        r == conditions_match(row@, conds@),
{
    let mut i: usize = 0;
    while i < conds.len()
        invariant
            i <= conds@.len(),
            forall|j: int|
                0 <= j < i ==> match entries_get(row@, (#[trigger] conds@[j]).column@) {
                    Some(v) => display_text(v) == display_text(conds@[j].value@),
                    None => false,
                },
        decreases conds@.len() - i,
    {
        match row.get(conds[i].column.as_str()) {
            Some(v) => {
                if !json_values_match(v, &conds[i].value) {
                    return false;
                }
            },
            None => {
                return false;
            },
        }
        i = i + 1;
    }
    true
}

fn opt_row_dup(r: &Option<JsonMap>) -> (o: Option<JsonMap>)
    ensures
        match (o, *r) {
            (Some(x), Some(y)) => x@ == y@,
            (None, None) => true,
            _ => false,
        },
{
    match r {
        Some(x) => Some(x.duplicate()),
        None => None,
    }
}

/// Appends the row changes of a query's companion over a diff.
pub fn emit_companion_changes(
    out: &mut Vec<RowChange>,
    query_id: &str,
    comp: &CompanionInfo,
    changes: &[Change],
)
    ensures
        rcv(final(out)@) == rcv(old(out)@) + companion_emission(
            query_id@,
            *comp,
            crate::advance::diff_changes_view(changes@),
        ),
{
    let ghost cvs = crate::advance::diff_changes_view(changes@);
    let mut i: usize = 0;
    assert(cvs.take(0) =~= Seq::<ChangeView>::empty());
    while i < changes.len()
        invariant
            i <= changes@.len(),
            cvs == crate::advance::diff_changes_view(changes@),
            rcv(out@) == rcv(old(out)@) + companion_emission(query_id@, *comp, cvs.take(i as int)),
        decreases changes@.len() - i,
    {
        let change = &changes[i];
        assert(cvs.take(i + 1).drop_last() =~= cvs.take(i as int));
        assert(cvs.take(i + 1).last() == change@);
        let ghost before = rcv(out@);
        if str_eq(change.table.as_str(), comp.table.as_str()) {
            let row: Option<&JsonMap> = match &change.next_value {
                Some(r) => Some(r),
                None => if change.prev_values.len() > 0 {
                    Some(&change.prev_values[0])
                } else {
                    None
                },
            };
            match row {
                None => {},
                Some(row) => {
                    if conditions_match_exec(row, &comp.where_conditions) {
                        let key = extract_pk_as_json(row, comp.primary_key.as_slice());
                        let rc = if change.next_value.is_some() && change.prev_values.len() > 0 {
                            RowChange {
                                query_id: String::from_str(query_id),
                                table: comp.table.clone(),
                                row_key: key,
                                row: opt_row_dup(&change.next_value),
                                change_type: String::from_str("edit"),
                            }
                        } else if change.next_value.is_some() {
                            RowChange {
                                query_id: String::from_str(query_id),
                                table: comp.table.clone(),
                                row_key: key,
                                row: opt_row_dup(&change.next_value),
                                change_type: String::from_str("add"),
                            }
                        } else {
                            RowChange {
                                query_id: String::from_str(query_id),
                                table: comp.table.clone(),
                                row_key: key,
                                row: None,
                                change_type: String::from_str("remove"),
                            }
                        };
                        let ghost rv = rc@;
                        out.push(rc);
                        assert(rcv(out@) =~= before.push(rv));
                        assert(companion_change(query_id@, *comp, change@) =~= seq![rv]);
                    }
                },
            }
        }
        i = i + 1;
    }
    assert(cvs.take(changes@.len() as int) =~= cvs);
}


pub open spec fn condition_columns(conds: Seq<CompanionCondition>) -> Seq<String> {
    conds.map_values(|c: CompanionCondition| c.column)
}

/// The companion's query: its field from its table, where each condition's
/// column equals a parameter, first row only.
pub open spec fn companion_sql(comp: CompanionInfo) -> Seq<char> {
    "SELECT "@ + quoted(comp.child_field@) + " FROM "@ + quoted(comp.table@) + (if comp.where_conditions@.len()
        == 0 {
        Seq::empty()
    } else {
        " WHERE "@ + join(eq_params(condition_columns(comp.where_conditions@)), " AND "@)
    }) + " LIMIT 1"@
}

/// The parameters of the companion's query: each condition's value.
pub open spec fn companion_params(comp: CompanionInfo) -> Seq<SqlParamView> {
    comp.where_conditions@.map_values(|c: CompanionCondition| sql_param_of(c.value@))
}

/// The query and parameters that read a companion's current value.
pub fn build_companion_query(comp: &CompanionInfo) -> (r: (String, Vec<SqlParam>))
    ensures
        r.0@ == companion_sql(*comp),
        params_view(r.1@) == companion_params(*comp),
{
    let mut sql = String::from_str("SELECT ");
    let f = quote(comp.child_field.as_str());
    sql.append(f.as_str());
    sql.append(" FROM ");
    let t = quote(comp.table.as_str());
    sql.append(t.as_str());
    let mut cols: Vec<String> = Vec::new();
    let mut params: Vec<SqlParam> = Vec::new();
    let mut i: usize = 0;
    while i < comp.where_conditions.len()
        invariant
            i <= comp.where_conditions@.len(),
            cols@ =~= condition_columns(comp.where_conditions@).take(i as int),
            params_view(params@) =~= companion_params(*comp).take(i as int),
        decreases comp.where_conditions@.len() - i,
    {
        cols.push(comp.where_conditions[i].column.clone());
        let ghost before = params@;
        let p = json_to_sqlite_value(&comp.where_conditions[i].value);
        let ghost pv = p@;
        params.push(p);
        assert(params_view(params@) =~= params_view(before).push(pv));
        i = i + 1;
    }
    assert(cols@ =~= condition_columns(comp.where_conditions@));
    assert(params_view(params@) =~= companion_params(*comp));
    let ghost head = sql@;
    if comp.where_conditions.len() > 0 {
        sql.append(" WHERE ");
        let conds = crate::diff::eq_param_list(&cols);
        let w = join_strings(&conds, " AND ");
        sql.append(w.as_str());
        assert(sql@ =~= head + (" WHERE "@ + join(eq_params(condition_columns(comp.where_conditions@)), " AND "@)));
    } else {
        assert(sql@ =~= head + Seq::<char>::empty());
    }
    sql.append(" LIMIT 1");
    (sql, params)
}

/// Opens the database at `db_path` read-only (`Connection::open_with_flags`
/// with the read-only, no-mutex and URI flags) and reads the first column of
/// the first row of `sql` (`query_row`); `None` where opening or the query
/// fails, or no row comes back. What comes back depends on the file, so
/// nothing is stated of it.
#[verifier::external_body]
fn query_scalar(db_path: &str, sql: &str, params: &Vec<SqlParam>) -> Option<SqlCell> {
    let flags = rusqlite::OpenFlags::SQLITE_OPEN_READ_ONLY | rusqlite::OpenFlags::SQLITE_OPEN_NO_MUTEX
        | rusqlite::OpenFlags::SQLITE_OPEN_URI;
    let conn = rusqlite::Connection::open_with_flags(db_path, flags).ok()?;
    let ps = rusqlite::params_from_iter(params.iter().map(to_rusqlite_value));
    conn.query_row(sql, ps, |row| row.get::<_, rusqlite::types::Value>(0)).ok().map(to_cell)
}

/// A companion's value from what its query read: null where nothing was
/// read; a blob as an array of its bytes.
pub open spec fn companion_value(c: Option<SqlCellView>) -> JsonView {
    match c {
        None => JsonView::Null,
        Some(SqlCellView::Null) => JsonView::Null,
        Some(SqlCellView::Integer(i)) => JsonView::Number(crate::json::int_number(i)),
        Some(SqlCellView::Real(v)) => v,
        Some(SqlCellView::Text(b)) => JsonView::Str(
            if vstd::utf8::valid_utf8(b) {
                vstd::utf8::decode_utf8(b)
            } else {
                Seq::empty()
            },
        ),
        Some(SqlCellView::Blob(b)) => JsonView::Array(
            b.map_values(|x: u8| JsonView::Number(crate::json::int_number(x as i64))),
        ),
    }
}

/// A companion's value from what its query read.
pub fn sqlite_to_json(c: Option<SqlCell>) -> (v: JsonValue)
    ensures
        v@ == companion_value(
            match c {
                Some(x) => Some(x@),
                None => None,
            },
        ),
{
    match c {
        None => JsonValue::Null,
        Some(SqlCell::Null) => JsonValue::Null,
        Some(SqlCell::Integer(i)) => JsonValue::Number(JsonNumber::from_i64(i)),
        Some(SqlCell::Real(v)) => v,
        Some(SqlCell::Text(b)) => JsonValue::String(utf8_or_empty(b.as_slice())),
        Some(SqlCell::Blob(b)) => {
            let mut xs: Vec<JsonValue> = Vec::new();
            let mut i: usize = 0;
            while i < b.len()
                invariant
                    i <= b@.len(),
                    xs@.map_values(|x: JsonValue| x@) =~= b@.take(i as int).map_values(
                        |x: u8| JsonView::Number(crate::json::int_number(x as i64)),
                    ),
                decreases b@.len() - i,
            {
                let ghost before = xs@;
                let n = JsonValue::Number(JsonNumber::from_i64(b[i] as i64));
                let ghost nv = n@;
                xs.push(n);
                assert(xs@.map_values(|x: JsonValue| x@) =~= before.map_values(|x: JsonValue| x@).push(nv));
                i = i + 1;
            }
            assert(b@.take(b@.len() as int) =~= b@);
            proof {
                crate::json::lemma_json_views(xs@);
                assert(crate::json::json_views(xs@) =~= xs@.map_values(|x: JsonValue| x@));
            }
            JsonValue::Array(xs)
        },
    }
}

/// Reads a companion's current value from the database: the value of
/// whatever its query (`build_companion_query`) reads, null where it reads
/// nothing.
pub fn query_companion_scalar(db_path: &str, companion: &CompanionInfo) -> (v: JsonValue)
    ensures
        exists|c: Option<SqlCellView>| v@ == #[trigger] companion_value(c),
{
    let (sql, params) = build_companion_query(companion);
    let cell = query_scalar(db_path, sql.as_str(), &params);
    let ghost cv = match &cell {
        Some(x) => Some(x@),
        None => None,
    };
    let v = sqlite_to_json(cell);
    assert(v@ == companion_value(cv));
    v
}

/// What the companion check found.
pub enum CompanionResult {
    /// A scalar value changed: every pipeline must be reset (the reason).
    Reset(String),
    /// No value changed: the companion row changes to emit.
    Changes(Vec<RowChange>),
}

/// The row changes of a query's companions whose table changed.
pub open spec fn query_emissions(
    q: Seq<char>,
    comps: Seq<CompanionInfo>,
    changes: Seq<ChangeView>,
    changed: Seq<String>,
) -> Seq<RowChangeView>
    decreases comps.len(),
{
    if comps.len() == 0 {
        Seq::empty()
    } else {
        query_emissions(q, comps.drop_last(), changes, changed) + if views(changed).contains(
            comps.last().table@,
        ) {
            companion_emission(q, comps.last(), changes)
        } else {
            Seq::empty()
        }
    }
}

/// The row changes of every query's companions whose table changed, query
/// by query.
pub open spec fn all_emissions(
    comps: Seq<(String, Vec<CompanionInfo>)>,
    changes: Seq<ChangeView>,
    changed: Seq<String>,
) -> Seq<RowChangeView>
    decreases comps.len(),
{
    if comps.len() == 0 {
        Seq::empty()
    } else {
        all_emissions(comps.drop_last(), changes, changed) + query_emissions(
            comps.last().0@,
            comps.last().1@,
            changes,
            changed,
        )
    }
}

/// Two companions agree on all but their resolved value.
pub open spec fn same_companion(a: CompanionInfo, b: CompanionInfo) -> bool {
    &&& a.query_id == b.query_id
    &&& a.table == b.table
    &&& a.child_field == b.child_field
    &&& a.where_conditions == b.where_conditions
    &&& a.primary_key == b.primary_key
}

/// The companion lists agree on all but resolved values.
pub open spec fn same_but_values(a: Seq<(String, Vec<CompanionInfo>)>, b: Seq<(String, Vec<CompanionInfo>)>) -> bool {
    &&& a.len() == b.len()
    &&& forall|i: int|
        0 <= i < a.len() ==> (#[trigger] a[i]).0 == b[i].0 && a[i].1@.len() == b[i].1@.len() && forall|
            j: int,
        |
            0 <= j < a[i].1@.len() ==> same_companion(#[trigger] a[i].1@[j], b[i].1@[j])
}

fn set_resolved_value(companions: &mut Vec<(String, Vec<CompanionInfo>)>, i: usize, j: usize, v: JsonValue)
    requires
        i < old(companions)@.len(),
        j < old(companions)@[i as int].1@.len(),
    ensures
        same_but_values(old(companions)@, final(companions)@),
        final(companions)@[i as int].1@[j as int].resolved_value@ == v@,
        forall|a: int| 0 <= a < old(companions)@.len() && a != i ==> final(companions)@[a] == old(companions)@[a],
        forall|b: int|
            0 <= b < old(companions)@[i as int].1@.len() && b != j ==> final(companions)@[i as int].1@[b]
                == old(companions)@[i as int].1@[b],
{
    let mut entry = companions.remove(i);
    let mut comp = entry.1.remove(j);
    comp.resolved_value = v;
    entry.1.insert(j, comp);
    companions.insert(i, entry);
    let ghost o = old(companions)@;
    let ghost f = companions@;
    assert forall|a: int| 0 <= a < o.len() implies (#[trigger] o[a]).0 == f[a].0 && o[a].1@.len() == f[a].1@.len() && forall|
        b: int,
    | 0 <= b < o[a].1@.len() ==> same_companion(#[trigger] o[a].1@[b], f[a].1@[b]) by {
        if a == i {
            assert forall|b: int| 0 <= b < o[a].1@.len() implies same_companion(#[trigger] o[a].1@[b], f[a].1@[b]) by {
                if b == j {
                } else {
                }
            }
        }
    }
}

/// A companion is checked when its table changed.
pub open spec fn checked(c: CompanionInfo, changed: Seq<String>) -> bool {
    views(changed).contains(c.table@)
}

/// One value read per companion, in the companions' shape.
pub open spec fn reads_fit(comps: Seq<(String, Vec<CompanionInfo>)>, reads: Seq<Seq<JsonView>>) -> bool {
    &&& reads.len() == comps.len()
    &&& forall|a: int| 0 <= a < comps.len() ==> (#[trigger] reads[a]).len() == comps[a].1@.len()
}

/// A companion that is not checked reads as its resolved value.
pub open spec fn reads_only_checked(
    comps: Seq<(String, Vec<CompanionInfo>)>,
    reads: Seq<Seq<JsonView>>,
    changed: Seq<String>,
) -> bool {
    forall|a: int, b: int|
        0 <= a < comps.len() && 0 <= b < comps[a].1@.len() && !checked(comps[a].1@[b], changed) ==> (
        #[trigger] reads[a][b]) == comps[a].1@[b].resolved_value@
}

/// Every checked companion read a value equal to its resolved value.
pub open spec fn values_unchanged(
    comps: Seq<(String, Vec<CompanionInfo>)>,
    reads: Seq<Seq<JsonView>>,
    changed: Seq<String>,
) -> bool {
    forall|a: int, b: int|
        0 <= a < comps.len() && 0 <= b < comps[a].1@.len() && checked(comps[a].1@[b], changed)
            ==> scalars_equal(#[trigger] reads[a][b], comps[a].1@[b].resolved_value@)
}

/// Each companion's resolved value is the value read for it.
pub open spec fn resolved_to(comps: Seq<(String, Vec<CompanionInfo>)>, reads: Seq<Seq<JsonView>>) -> bool {
    forall|a: int, b: int|
        0 <= a < comps.len() && 0 <= b < comps[a].1@.len() ==> (#[trigger] comps[a].1@[b]).resolved_value@
            == reads[a][b]
}

proof fn lemma_scalars_equal_refl(v: JsonView)
    ensures
        scalars_equal(v, v),
{
}

/// The reads of the companions: the value read for each one, in the
/// companions' shape.
pub open spec fn reads_view(reads: Seq<Vec<JsonValue>>) -> Seq<Seq<JsonView>> {
    reads.map_values(|r: Vec<JsonValue>| r@.map_values(|x: JsonValue| x@))
}

/// Companion `(a, b)` is checked and the value read for it differs from
/// its resolved value.
pub open spec fn changed_value(
    comps: Seq<(String, Vec<CompanionInfo>)>,
    reads: Seq<Seq<JsonView>>,
    changed: Seq<String>,
    a: int,
    b: int,
) -> bool {
    &&& 0 <= a < comps.len()
    &&& 0 <= b < comps[a].1@.len()
    &&& checked(comps[a].1@[b], changed)
    &&& !scalars_equal(reads[a][b], comps[a].1@[b].resolved_value@)
}

/// Why a changed companion value asks for a reset.
pub open spec fn reset_text(c: CompanionInfo, v: JsonView) -> Seq<char> {
    "Scalar subquery value changed for "@ + c.table@ + ": "@ + scalar_text(c.resolved_value@) + " -> "@
        + scalar_text(v)
}

/// What the companion check decides from the values read: where some
/// checked companion's value differs from its resolved value, a reset
/// naming the first such companion (in order), with the companions left as
/// they were; otherwise the companion row changes of the diff, with each
/// checked companion's resolved value set to the value read and the others
/// unchanged.
pub open spec fn companions_decided(
    old_comps: Seq<(String, Vec<CompanionInfo>)>,
    new_comps: Seq<(String, Vec<CompanionInfo>)>,
    r: CompanionResult,
    reads: Seq<Seq<JsonView>>,
    changed: Seq<String>,
    changes: Seq<ChangeView>,
) -> bool {
    match r {
        CompanionResult::Reset(m) => {
            &&& new_comps == old_comps
            &&& exists|a: int, b: int|
                #![trigger changed_value(old_comps, reads, changed, a, b)]
                changed_value(old_comps, reads, changed, a, b) && m@ == reset_text(old_comps[a].1@[b], reads[a][b])
                    && forall|a2: int, b2: int|
                    (a2 < a || (a2 == a && b2 < b)) ==> !#[trigger] changed_value(old_comps, reads, changed, a2, b2)
        },
        CompanionResult::Changes(cs) => {
            &&& forall|a: int, b: int| !#[trigger] changed_value(old_comps, reads, changed, a, b)
            &&& rcv(cs@) == all_emissions(old_comps, changes, changed)
            &&& same_but_values(old_comps, new_comps)
            &&& forall|a: int, b: int|
                0 <= a < old_comps.len() && 0 <= b < old_comps[a].1@.len() ==> (#[trigger] new_comps[a].1@[b]).resolved_value@
                    == if checked(old_comps[a].1@[b], changed) {
                    reads[a][b]
                } else {
                    old_comps[a].1@[b].resolved_value@
                }
        },
    }
}

/// Checks the companions of every query whose table changed: each checked
/// companion's current value is read (`query_companion_scalar`), and
/// `decide_companions` decides from the values read.
pub fn check_companions_and_emit(
    companions: &mut Vec<(String, Vec<CompanionInfo>)>,
    changes: &[Change],
    changed_tables: &Vec<String>,
    db_path: &str,
) -> (r: CompanionResult)
    ensures
        exists|reads: Seq<Seq<JsonView>>|
            #![trigger reads_fit(old(companions)@, reads)]
            reads_fit(old(companions)@, reads) && companions_decided(
                old(companions)@,
                final(companions)@,
                r,
                reads,
                changed_tables@,
                crate::advance::diff_changes_view(changes@),
            ),
{
    let mut reads: Vec<Vec<JsonValue>> = Vec::new();
    let mut i: usize = 0;
    while i < companions.len()
        invariant
            i <= companions@.len(),
            reads@.len() == i,
            forall|a: int| 0 <= a < i ==> (#[trigger] reads@[a])@.len() == companions@[a].1@.len(),
        decreases companions@.len() - i,
    {
        let list = &companions[i].1;
        let mut row: Vec<JsonValue> = Vec::new();
        let mut j: usize = 0;
        while j < list.len()
            invariant
                j <= list@.len(),
                row@.len() == j,
            decreases list@.len() - j,
        {
            let comp = &list[j];
            let v = if name_in(changed_tables, comp.table.as_str()) {
                query_companion_scalar(db_path, comp)
            } else {
                comp.resolved_value.duplicate()
            };
            row.push(v);
            j = j + 1;
        }
        reads.push(row);
        i = i + 1;
    }
    let r = decide_companions(companions, changes, changed_tables, &reads);
    assert(reads_fit(old(companions)@, reads_view(reads@)));
    r
}

/// Decides the companion check from the values read for the companions
/// (`companions_decided`); `reads` has one value per companion, in the
/// companions' shape (those of companions that are not checked are not
/// looked at).
pub fn decide_companions(
    companions: &mut Vec<(String, Vec<CompanionInfo>)>,
    changes: &[Change],
    changed_tables: &Vec<String>,
    reads_in: &Vec<Vec<JsonValue>>,
) -> (r: CompanionResult)
    requires
        reads_in@.len() == old(companions)@.len(),
        forall|a: int| 0 <= a < reads_in@.len() ==> (#[trigger] reads_in@[a])@.len() == old(companions)@[a].1@.len(),
    ensures
        companions_decided(
            old(companions)@,
            final(companions)@,
            r,
            reads_view(reads_in@),
            changed_tables@,
            crate::advance::diff_changes_view(changes@),
        ),
{
    let ghost cvs = crate::advance::diff_changes_view(changes@);
    let ghost rv = reads_view(reads_in@);
    let ghost ch = changed_tables@;
    let ghost comps = companions@;
    let mut out: Vec<RowChange> = Vec::new();
    let mut updates: Vec<(usize, usize, JsonValue)> = Vec::new();
    let mut i: usize = 0;
    assert(rcv(out@) =~= all_emissions(comps.take(0), cvs, changed_tables@));
    let ghost mut reads: Seq<Seq<JsonView>> = Seq::new(
        comps.len(),
        |a: int| Seq::new(comps[a].1@.len(), |b: int| comps[a].1@[b].resolved_value@),
    );
    assert forall|a: int, b: int| 0 <= a < comps.len() && 0 <= b < comps[a].1@.len() implies scalars_equal(
        #[trigger] reads[a][b],
        comps[a].1@[b].resolved_value@,
    ) by {
        lemma_scalars_equal_refl(comps[a].1@[b].resolved_value@);
    }
    while i < companions.len()
        invariant
            i <= comps.len(),
            comps == companions@,
            cvs == crate::advance::diff_changes_view(changes@),
            rcv(out@) == all_emissions(comps.take(i as int), cvs, changed_tables@),
            rv == reads_view(reads_in@),
            ch == changed_tables@,
            reads_in@.len() == comps.len(),
            forall|a: int| 0 <= a < reads_in@.len() ==> (#[trigger] reads_in@[a])@.len() == comps[a].1@.len(),
            forall|a: int, b: int|
                0 <= a < i && 0 <= b < comps[a].1@.len() && checked(comps[a].1@[b], ch) ==> #[trigger] reads[a][b] == rv[a][b],
            forall|q: int| 0 <= q < updates@.len() ==> (#[trigger] updates@[q]).0 < i,
            reads_fit(comps, reads),
            reads_only_checked(comps, reads, changed_tables@),
            forall|a: int, b: int|
                0 <= a < comps.len() && 0 <= b < comps[a].1@.len() ==> scalars_equal(
                    #[trigger] reads[a][b],
                    comps[a].1@[b].resolved_value@,
                ),
            forall|a: int, b: int|
                0 <= a < comps.len() && 0 <= b < comps[a].1@.len() && (#[trigger] reads[a][b])
                    != comps[a].1@[b].resolved_value@ ==> exists|q: int|
                    0 <= q < updates@.len() && (#[trigger] updates@[q]).0 == a && updates@[q].1 == b,
            forall|q: int|
                0 <= q < updates@.len() ==> (#[trigger] updates@[q]).2@ == reads[updates@[q].0 as int][updates@[q].1 as int],
            forall|k: int|
                0 <= k < updates@.len() ==> (#[trigger] updates@[k]).0 < comps.len() && updates@[k].1
                    < comps[updates@[k].0 as int].1@.len(),
        decreases comps.len() - i,
    {
        let query_id = &companions[i].0;
        let list = &companions[i].1;
        assert(comps.take(i + 1).drop_last() =~= comps.take(i as int));
        assert(comps.take(i + 1).last() == comps[i as int]);
        let ghost base = rcv(out@);
        let mut j: usize = 0;
        assert(query_emissions(query_id@, list@.take(0), cvs, changed_tables@) =~= Seq::<RowChangeView>::empty());
        while j < list.len()
            invariant
                j <= list@.len(),
                i < comps.len(),
                comps == companions@,
                *list == comps[i as int].1,
                *query_id == comps[i as int].0,
                cvs == crate::advance::diff_changes_view(changes@),
                rcv(out@) == base + query_emissions(query_id@, list@.take(j as int), cvs, changed_tables@),
                rv == reads_view(reads_in@),
                ch == changed_tables@,
                reads_in@.len() == comps.len(),
                forall|a: int| 0 <= a < reads_in@.len() ==> (#[trigger] reads_in@[a])@.len() == comps[a].1@.len(),
                forall|a: int, b: int|
                    (0 <= a < i || (a == i && b < j)) && 0 <= b < comps[a].1@.len() && checked(comps[a].1@[b], ch)
                        ==> #[trigger] reads[a][b] == rv[a][b],
                forall|q: int| 0 <= q < updates@.len() ==> (#[trigger] updates@[q]).0 < i || (updates@[q].0 == i && updates@[q].1 < j),
                reads_fit(comps, reads),
                reads_only_checked(comps, reads, changed_tables@),
                forall|a: int, b: int|
                    0 <= a < comps.len() && 0 <= b < comps[a].1@.len() ==> scalars_equal(
                        #[trigger] reads[a][b],
                        comps[a].1@[b].resolved_value@,
                    ),
                forall|a: int, b: int|
                    0 <= a < comps.len() && 0 <= b < comps[a].1@.len() && (#[trigger] reads[a][b])
                        != comps[a].1@[b].resolved_value@ ==> exists|q: int|
                        0 <= q < updates@.len() && (#[trigger] updates@[q]).0 == a && updates@[q].1 == b,
                forall|q: int|
                    0 <= q < updates@.len() ==> (#[trigger] updates@[q]).2@ == reads[updates@[q].0 as int][updates@[q].1 as int],
                forall|k: int|
                    0 <= k < updates@.len() ==> (#[trigger] updates@[k]).0 < comps.len() && updates@[k].1
                        < comps[updates@[k].0 as int].1@.len(),
            decreases list@.len() - j,
        {
            let comp = &list[j];
            assert(list@.take(j + 1).drop_last() =~= list@.take(j as int));
            assert(list@.take(j + 1).last() == list@[j as int]);
            let ghost b2 = rcv(out@);
            if name_in(changed_tables, comp.table.as_str()) {
                let new_value = reads_in[i][j].duplicate();
                let ghost prev_reads = reads;
                proof {
                    assert(rv[i as int] == reads_in@[i as int]@.map_values(|x: JsonValue| x@));
                    assert(rv[i as int][j as int] == new_value@);
                    reads = reads.update(i as int, reads[i as int].update(j as int, new_value@));
                    assert(comps[i as int].1@[j as int] == *comp);
                    assert(checked(comps[i as int].1@[j as int], changed_tables@));
                }
                if !scalar_values_equal(&new_value, &comp.resolved_value) {
                    proof {
                        assert(reads[i as int][j as int] == new_value@);
                        assert(!values_unchanged(comps, reads, changed_tables@));
                        assert(reads_fit(comps, reads));
                        assert(reads_only_checked(comps, reads, changed_tables@)) by {
                            assert forall|a: int, b: int|
                                0 <= a < comps.len() && 0 <= b < comps[a].1@.len() && !checked(comps[a].1@[b], changed_tables@) implies (
                                #[trigger] reads[a][b]) == comps[a].1@[b].resolved_value@ by {
                                assert(reads[a][b] == prev_reads[a][b]);
                            }
                        }
                    }
                    let mut m = String::from_str("Scalar subquery value changed for ");
                    m.append(comp.table.as_str());
                    m.append(": ");
                    let old_text = format_scalar(&comp.resolved_value);
                    m.append(old_text.as_str());
                    m.append(" -> ");
                    let new_text = format_scalar(&new_value);
                    m.append(new_text.as_str());
                    let r = CompanionResult::Reset(m);
                    proof {
                        assert(changed_value(comps, rv, ch, i as int, j as int));
                        assert forall|a2: int, b2: int|
                            (a2 < i || (a2 == i && b2 < j)) implies !#[trigger] changed_value(comps, rv, ch, a2, b2) by {
                            if changed_value(comps, rv, ch, a2, b2) {
                                assert(prev_reads[a2][b2] == rv[a2][b2]);
                                assert(scalars_equal(prev_reads[a2][b2], comps[a2].1@[b2].resolved_value@));
                            }
                        }
                        assert(companions_decided(comps, companions@, r, rv, ch, cvs));
                    }
                    return r;
                }
                let ghost ups = updates@;
                updates.push((i, j, new_value));
                proof {
                    assert(updates@[ups.len() as int] == (i, j, new_value));
                    assert forall|a: int, b: int|
                        0 <= a < comps.len() && 0 <= b < comps[a].1@.len() && (#[trigger] reads[a][b])
                            != comps[a].1@[b].resolved_value@ implies exists|q: int|
                            0 <= q < updates@.len() && (#[trigger] updates@[q]).0 == a && updates@[q].1 == b by {
                        if a == i && b == j {
                            assert(updates@[ups.len() as int].0 == a);
                        } else {
                            assert(reads[a][b] == prev_reads[a][b]);
                            let q = choose|q: int| 0 <= q < ups.len() && (#[trigger] ups[q]).0 == a && ups[q].1 == b;
                            assert(updates@[q] == ups[q]);
                        }
                    }
                    assert forall|q: int| 0 <= q < updates@.len() implies (#[trigger] updates@[q]).2@ == reads[updates@[q].0 as int][updates@[q].1 as int] by {
                        if q < ups.len() {
                            assert(updates@[q] == ups[q]);
                            assert(ups[q].0 < i || (ups[q].0 == i && ups[q].1 < j));
                            if ups[q].0 != i || ups[q].1 != j {
                                assert(reads[ups[q].0 as int][ups[q].1 as int] == prev_reads[ups[q].0 as int][ups[q].1 as int]);
                            }
                        } else {
                            assert(updates@[q] == (i, j, new_value));
                            assert(reads[i as int][j as int] == new_value@);
                        }
                    }
                    assert forall|a: int, b: int| 0 <= a < comps.len() && 0 <= b < comps[a].1@.len() implies scalars_equal(
                        #[trigger] reads[a][b],
                        comps[a].1@[b].resolved_value@,
                    ) by {
                        if a != i || b != j {
                            assert(reads[a][b] == prev_reads[a][b]);
                        }
                    }
                    assert forall|a: int, b: int|
                        0 <= a < comps.len() && 0 <= b < comps[a].1@.len() && !checked(comps[a].1@[b], changed_tables@) implies (
                        #[trigger] reads[a][b]) == comps[a].1@[b].resolved_value@ by {
                        if a != i || b != j {
                            assert(reads[a][b] == prev_reads[a][b]);
                        }
                    }
                }
                proof {
                    assert forall|a: int, b: int|
                        (0 <= a < i || (a == i && b < j + 1)) && 0 <= b < comps[a].1@.len() && checked(comps[a].1@[b], ch)
                            implies #[trigger] reads[a][b] == rv[a][b] by {
                        if a != i || b != j {
                            assert(reads[a][b] == prev_reads[a][b]);
                        }
                    }
                }
                emit_companion_changes(&mut out, query_id.as_str(), comp, changes);
            }
            assert(rcv(out@) =~= base + query_emissions(query_id@, list@.take(j + 1), cvs, changed_tables@));
            j = j + 1;
        }
        assert(list@.take(list@.len() as int) =~= list@);
        i = i + 1;
    }
    assert(comps.take(comps.len() as int) =~= comps);
    let mut k: usize = 0;
    while k < updates.len()
        invariant
            k <= updates@.len(),
            same_but_values(comps, companions@),
            comps.len() == companions@.len(),
            reads_fit(comps, reads),
            forall|a: int, b: int|
                0 <= a < comps.len() && 0 <= b < comps[a].1@.len() && (#[trigger] reads[a][b])
                    != comps[a].1@[b].resolved_value@ ==> exists|q: int|
                    0 <= q < updates@.len() && (#[trigger] updates@[q]).0 == a && updates@[q].1 == b,
            forall|q: int|
                0 <= q < updates@.len() ==> (#[trigger] updates@[q]).2@ == reads[updates@[q].0 as int][updates@[q].1 as int],
            forall|a: int, b: int|
                0 <= a < comps.len() && 0 <= b < comps[a].1@.len() ==> (#[trigger] companions@[a].1@[b]).resolved_value@
                    == if exists|q: int| 0 <= q < k && (#[trigger] updates@[q]).0 == a && updates@[q].1 == b {
                    reads[a][b]
                } else {
                    comps[a].1@[b].resolved_value@
                },
            forall|q: int|
                0 <= q < updates@.len() ==> (#[trigger] updates@[q]).0 < comps.len() && updates@[q].1
                    < comps[updates@[q].0 as int].1@.len(),
        decreases updates@.len() - k,
    {
        let i2 = updates[k].0;
        let j2 = updates[k].1;
        let v = updates[k].2.duplicate();
        let ghost before = companions@;
        set_resolved_value(companions, i2, j2, v);
        proof {
            assert(same_but_values(comps, companions@));
            assert forall|a: int, b: int|
                0 <= a < comps.len() && 0 <= b < comps[a].1@.len() implies (#[trigger] companions@[a].1@[b]).resolved_value@
                    == if exists|q: int| 0 <= q < k + 1 && (#[trigger] updates@[q]).0 == a && updates@[q].1 == b {
                    reads[a][b]
                } else {
                    comps[a].1@[b].resolved_value@
                } by {
                if a == i2 && b == j2 {
                    assert(updates@[k as int].0 == a && updates@[k as int].1 == b);
                } else {
                    assert(companions@[a].1@[b] == before[a].1@[b]);
                    if exists|q: int| 0 <= q < k + 1 && (#[trigger] updates@[q]).0 == a && updates@[q].1 == b {
                        let q = choose|q: int| 0 <= q < k + 1 && (#[trigger] updates@[q]).0 == a && updates@[q].1 == b;
                        assert(q < k);
                    }
                }
            }
        }
        k = k + 1;
    }
    proof {
        assert forall|a: int, b: int| 0 <= a < companions@.len() && 0 <= b < companions@[a].1@.len() implies (
        #[trigger] companions@[a].1@[b]).resolved_value@ == reads[a][b] by {
            assert(companions@[a].1@.len() == comps[a].1@.len());
            if !(exists|q: int| 0 <= q < updates@.len() && (#[trigger] updates@[q]).0 == a && updates@[q].1 == b) {
                assert(reads[a][b] == comps[a].1@[b].resolved_value@);
            }
        }
        assert(resolved_to(companions@, reads));
        assert(values_unchanged(comps, reads, changed_tables@));
        assert forall|a: int, b: int| !#[trigger] changed_value(comps, rv, ch, a, b) by {
            if changed_value(comps, rv, ch, a, b) {
                assert(reads[a][b] == rv[a][b]);
            }
        }
        assert forall|a: int, b: int|
            0 <= a < comps.len() && 0 <= b < comps[a].1@.len() implies (#[trigger] companions@[a].1@[b]).resolved_value@
                == if checked(comps[a].1@[b], ch) {
                rv[a][b]
            } else {
                comps[a].1@[b].resolved_value@
            } by {
            if checked(comps[a].1@[b], ch) {
                assert(reads[a][b] == rv[a][b]);
            }
        }
    }
    let r = CompanionResult::Changes(out);
    assert(companions_decided(comps, companions@, r, rv, ch, cvs));
    r
}

} // verus!
