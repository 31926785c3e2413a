//! SQL for fetching a table's rows: constraint, start bound, filters, order.
use vstd::prelude::*;

use crate::json::{
    assoc_find, assoc_get, int_number, json_text, str_eq, to_json_string, values_view, JsonMap,
    JsonNumber, JsonValue, JsonView,
};
use crate::source::{field_value, RowView};
use crate::text::{join, join_strings, push_char, quote, quoted, views};

verus! {

#[derive(PartialEq, Eq, Structural, Clone, Copy, Debug)]
pub enum ColumnType {
    Boolean,
    Number,
    String,
    Null,
    Json,
}

/// Sort columns with their directions (`"asc"` or `"desc"`).
pub type OrderBy = Vec<(String, String)>;

/// Where a fetch starts: at (`basis == "at"`) or after `row`.
pub struct Start {
    pub row: JsonMap,
    pub basis: String,
}

/// Column equalities that every fetched row must satisfy.
pub type Constraint = JsonMap;

/// A filter condition over a row.
pub enum Condition {
    Simple { left: ValuePosition, op: String, right: ValuePosition },
    And { conditions: Vec<Condition> },
    Or { conditions: Vec<Condition> },
}

pub enum ValuePosition {
    Column { name: String },
    Literal { value: JsonValue },
}

/// A value as SQLite stores it for a column type: booleans become 1 or 0
/// (null stays null), JSON becomes its text, anything else is unchanged.
pub open spec fn sqlite_value(v: JsonView, t: ColumnType) -> JsonView {
    match t {
        ColumnType::Boolean => if v is Null {
            JsonView::Null
        } else if v matches JsonView::Bool(b) && b {
            JsonView::Number(int_number(1))
        } else {
            JsonView::Number(int_number(0))
        },
        ColumnType::Json => JsonView::Str(json_text(v)),
        _ => v,
    }
}

/// Converts a value to the form SQLite stores for a column type.
pub fn to_sqlite_type(v: &JsonValue, col_type: &ColumnType) -> (r: JsonValue)
    ensures
        r@ == sqlite_value(v@, *col_type),
{
    match col_type {
        ColumnType::Boolean => {
            match v {
                JsonValue::Null => JsonValue::Null,
                JsonValue::Bool(b) => if *b {
                    JsonValue::Number(JsonNumber::from_i64(1))
                } else {
                    JsonValue::Number(JsonNumber::from_i64(0))
                },
                _ => JsonValue::Number(JsonNumber::from_i64(0)),
            }
        },
        ColumnType::Number | ColumnType::String | ColumnType::Null => v.duplicate(),
        ColumnType::Json => JsonValue::String(to_json_string(v)),
    }
}

/// The column type of a literal, from its JSON type.
pub open spec fn js_type(v: JsonView) -> ColumnType {
    match v {
        JsonView::Null => ColumnType::Null,
        JsonView::Bool(_) => ColumnType::Boolean,
        JsonView::Number(_) => ColumnType::Number,
        JsonView::Str(_) => ColumnType::String,
        _ => ColumnType::Json,
    }
}

fn get_js_type(v: &JsonValue) -> (t: ColumnType)
    ensures
        t == js_type(v@),
{
    match v {
        JsonValue::Null => ColumnType::Null,
        JsonValue::Bool(_) => ColumnType::Boolean,
        JsonValue::Number(_) => ColumnType::Number,
        JsonValue::String(_) => ColumnType::String,
        _ => ColumnType::Json,
    }
}

/// `"{name}"`: a quoted identifier.
pub fn ident(name: &str) -> (r: String)
    ensures
        r@ == quoted(name@),
{
    quote(name)
}

/// A column's type, `String` when not listed.
pub open spec fn column_type(types: Seq<(String, ColumnType)>, col: Seq<char>) -> ColumnType {
    match assoc_get(types, col) {
        Some(t) => t,
        None => ColumnType::String,
    }
}

fn column_type_exec(types: &Vec<(String, ColumnType)>, col: &str) -> (t: ColumnType)
    ensures
        t == column_type(types@, col@),
{
    match assoc_find(types, col) {
        Some(t) => *t,
        None => ColumnType::String,
    }
}

pub open spec fn append(a: Seq<char>, b: Seq<char>) -> Seq<char> {
    a + b
}

/// `"{col}" = ?` for each constrained column, in the constraint's order,
/// with the value as SQLite stores it for the column's type.
pub open spec fn constraint_parts(c: Seq<(Seq<char>, JsonView)>) -> Seq<Seq<char>> {
    c.map_values(|e: (Seq<char>, JsonView)| quoted(e.0) + " = ?"@)
}

pub open spec fn constraint_params(c: Seq<(Seq<char>, JsonView)>, types: Seq<(String, ColumnType)>) -> Seq<JsonView> {
    c.map_values(|e: (Seq<char>, JsonView)| sqlite_value(e.1, column_type(types, e.0)))
}

fn constraints_to_sql(
    constraint: Option<&Constraint>,
    column_types: &Vec<(String, ColumnType)>,
    parts: &mut Vec<String>,
    params: &mut Vec<JsonValue>,
)
    ensures
        match constraint {
            None => final(parts)@ == old(parts)@ && final(params)@ == old(params)@,
            Some(c) => crate::text::views(final(parts)@) == crate::text::views(old(parts)@)
                + constraint_parts(c@) && values_view(final(params)@) == values_view(old(params)@)
                + constraint_params(c@, column_types@),
        },
{
    let constraint = match constraint {
        Some(c) => c,
        None => {
            return ;
        },
    };
    proof {
        crate::json::lemma_entries_view(constraint.entries@);
    }
    let ghost cv = constraint@;
    let ghost parts0 = crate::text::views(parts@);
    let ghost params0 = values_view(params@);
    let mut i: usize = 0;
    while i < constraint.entries.len()
        invariant
            i <= constraint.entries@.len(),
            cv == constraint@,
            cv.len() == constraint.entries@.len(),
            forall|j: int| 0 <= j < constraint.entries@.len() ==> #[trigger] cv[j] == (constraint.entries@[j].0@, constraint.entries@[j].1@),
            crate::text::views(parts@) == parts0 + constraint_parts(cv.take(i as int)),
            values_view(params@) == params0 + constraint_params(cv.take(i as int), column_types@),
        decreases constraint.entries@.len() - i,
    {
        let key = &constraint.entries[i].0;
        let value = &constraint.entries[i].1;
        let col_type = column_type_exec(column_types, key.as_str());
        let mut part = ident(key.as_str());
        part.append(" = ?");
        let ghost parts_before = parts@;
        let ghost params_before = params@;
        let ghost pv = part@;
        parts.push(part);
        let p = to_sqlite_type(value, &col_type);
        let ghost pp = p@;
        params.push(p);
        assert(cv.take(i + 1) =~= cv.take(i as int).push(cv[i as int]));
        assert(crate::text::views(parts@) =~= crate::text::views(parts_before).push(pv));
        assert(constraint_parts(cv.take(i + 1)) =~= constraint_parts(cv.take(i as int)).push(pv));
        assert(values_view(params@) =~= values_view(params_before).push(pp));
        assert(constraint_params(cv.take(i + 1), column_types@) =~= constraint_params(cv.take(i as int), column_types@).push(pp));
        assert(crate::text::views(parts@) =~= parts0 + constraint_parts(cv.take(i + 1)));
        assert(values_view(params@) =~= params0 + constraint_params(cv.take(i + 1), column_types@));
        i = i + 1;
    }
    assert(cv.take(i as int) =~= cv);
}

/// A sort direction, flipped when the fetch is reversed.
pub open spec fn effective_direction(dir: Seq<char>, reverse: bool) -> Seq<char> {
    if reverse {
        if dir == "asc"@ {
            "desc"@
        } else {
            "asc"@
        }
    } else {
        dir
    }
}

pub open spec fn order_items(order: Seq<(String, String)>, reverse: bool) -> Seq<Seq<char>> {
    order.map_values(
        |e: (String, String)| quoted(e.0@) + seq![' '] + effective_direction(e.1@, reverse),
    )
}

/// `ORDER BY "f1" dir1, "f2" dir2, ...`.
pub open spec fn order_by_sql(order: Seq<(String, String)>, reverse: bool) -> Seq<char> {
    "ORDER BY "@ + join(order_items(order, reverse), ", "@)
}

fn order_by_to_sql(order: &OrderBy, reverse: bool) -> (r: String)
    ensures
        r@ == order_by_sql(order@, reverse),
{
    let mut items: Vec<String> = Vec::new();
    let mut i: usize = 0;
    while i < order.len()
        invariant
            i <= order@.len(),
            crate::text::views(items@) == order_items(order@.take(i as int), reverse),
        decreases order@.len() - i,
    {
        let field = &order[i].0;
        let dir = &order[i].1;
        let mut item = ident(field.as_str());
        push_char(&mut item, ' ');
        if reverse {
            if str_eq(dir.as_str(), "asc") {
                item.append("desc");
            } else {
                item.append("asc");
            }
        } else {
            item.append(dir.as_str());
        }
        let ghost items_before = items@;
        let ghost iv = item@;
        assert(iv == quoted(order@[i as int].0@) + seq![' '] + effective_direction(order@[i as int].1@, reverse));
        items.push(item);
        assert(order@.take(i + 1) =~= order@.take(i as int).push(order@[i as int]));
        assert(crate::text::views(items@) =~= crate::text::views(items_before).push(iv));
        assert(order_items(order@.take(i + 1), reverse) =~= order_items(order@.take(i as int), reverse).push(iv));
        assert(crate::text::views(items@) =~= order_items(order@.take(i + 1), reverse));
        i = i + 1;
    }
    assert(order@.take(i as int) =~= order@);
    let mut r = String::from_str("ORDER BY ");
    let joined = crate::text::join_strings(&items, ", ");
    r.append(joined.as_str());
    r
}

// --- Start bound ---

/// The start row's value for a column, as SQLite stores it.
pub open spec fn start_value(row: RowView, f: Seq<char>, types: Seq<(String, ColumnType)>) -> JsonView {
    sqlite_value(field_value(row, f), column_type(types, f))
}

pub open spec fn is_part(f: Seq<char>) -> Seq<char> {
    quoted(f) + " IS ?"@
}

/// Whether rows after the bound have greater values in this column.
pub open spec fn forward_gt(dir: Seq<char>, reverse: bool) -> bool {
    (dir == "asc"@ && !reverse) || (dir == "desc"@ && reverse)
}

pub open spec fn bound_part(f: Seq<char>, gt: bool) -> Seq<char> {
    if gt {
        "(? IS NULL OR "@ + quoted(f) + " > ?)"@
    } else {
        "("@ + quoted(f) + " IS NULL OR "@ + quoted(f) + " < ?)"@
    }
}

pub open spec fn is_parts(order: Seq<(String, String)>) -> Seq<Seq<char>> {
    order.map_values(|e: (String, String)| is_part(e.0@))
}

pub open spec fn start_values(order: Seq<(String, String)>, row: RowView, types: Seq<(String, ColumnType)>) -> Seq<JsonView> {
    order.map_values(|e: (String, String)| start_value(row, e.0@, types))
}

/// Group `i`: equal on the first `i` sort columns, past the bound on column `i`.
pub open spec fn group_text(order: Seq<(String, String)>, i: int, reverse: bool) -> Seq<char> {
    "("@ + join(
        is_parts(order.take(i)).push(bound_part(order[i].0@, forward_gt(order[i].1@, reverse))),
        " AND "@,
    ) + ")"@
}

pub open spec fn group_params(
    order: Seq<(String, String)>,
    i: int,
    row: RowView,
    types: Seq<(String, ColumnType)>,
    reverse: bool,
) -> Seq<JsonView> {
    let cv = start_value(row, order[i].0@, types);
    start_values(order.take(i), row, types) + if forward_gt(order[i].1@, reverse) {
        seq![cv, cv]
    } else {
        seq![cv]
    }
}

pub open spec fn groups_text(order: Seq<(String, String)>, reverse: bool, n: int) -> Seq<Seq<char>> {
    Seq::new(n as nat, |i: int| group_text(order, i, reverse))
}

pub open spec fn groups_params(
    order: Seq<(String, String)>,
    row: RowView,
    types: Seq<(String, ColumnType)>,
    reverse: bool,
    n: nat,
) -> Seq<JsonView>
    decreases n,
{
    if n == 0 {
        Seq::empty()
    } else {
        groups_params(order, row, types, reverse, (n - 1) as nat) + group_params(
            order,
            n - 1,
            row,
            types,
            reverse,
        )
    }
}

/// The condition that a row is at or after the start, and its parameters:
/// one group per sort column, and for an "at" start a group equal on all of
/// them, OR'ed together.
pub open spec fn start_sql(start: Start, reverse: bool, order: Seq<(String, String)>, types: Seq<(String, ColumnType)>) -> (Seq<char>, Seq<JsonView>) {
    let gs = groups_text(order, reverse, order.len() as int);
    let ps = groups_params(order, start.row@, types, reverse, order.len());
    let at = start.basis@ == "at"@;
    let all_gs = if at {
        gs.push("("@ + join(is_parts(order), " AND "@) + ")"@)
    } else {
        gs
    };
    let all_ps = if at {
        ps + start_values(order, start.row@, types)
    } else {
        ps
    };
    ("("@ + join(all_gs, " OR "@) + ")"@, all_ps)
}

fn start_group(
    start: &Start,
    reverse: bool,
    order: &OrderBy,
    i: usize,
    column_types: &Vec<(String, ColumnType)>,
    params: &mut Vec<JsonValue>,
) -> (r: String)
    requires
        i < order@.len(),
    ensures
        r@ == group_text(order@, i as int, reverse),
        values_view(final(params)@) == values_view(old(params)@) + group_params(
            order@,
            i as int,
            start.row@,
            column_types@,
            reverse,
        ),
{
    let ghost p0 = values_view(params@);
    let mut group: Vec<String> = Vec::new();
    let mut j: usize = 0;
    while j < i
        invariant
            j <= i,
            i < order@.len(),
            views(group@) == is_parts(order@.take(j as int)),
            values_view(params@) == p0 + start_values(order@.take(j as int), start.row@, column_types@),
        decreases i - j,
    {
        let f = &order[j].0;
        let ct = column_type_exec(column_types, f.as_str());
        let jv = to_sqlite_type(&crate::source::field_value_exec(&start.row, f.as_str()), &ct);
        let mut part = ident(f.as_str());
        part.append(" IS ?");
        let ghost gb = group@;
        let ghost pb = params@;
        let ghost partv = part@;
        let ghost jvv = jv@;
        group.push(part);
        params.push(jv);
        assert(order@.take(j + 1) =~= order@.take(j as int).push(order@[j as int]));
        assert(views(group@) =~= views(gb).push(partv));
        assert(is_parts(order@.take(j + 1)) =~= is_parts(order@.take(j as int)).push(partv));
        assert(values_view(params@) =~= values_view(pb).push(jvv));
        assert(start_values(order@.take(j + 1), start.row@, column_types@) =~= start_values(order@.take(j as int), start.row@, column_types@).push(jvv));
        j = j + 1;
    }
    let f = &order[i].0;
    let dir = &order[i].1;
    let ct = column_type_exec(column_types, f.as_str());
    let cv = to_sqlite_type(&crate::source::field_value_exec(&start.row, f.as_str()), &ct);
    let gt = (str_eq(dir.as_str(), "asc") && !reverse) || (str_eq(dir.as_str(), "desc") && reverse);
    let ghost gb = group@;
    let ghost pb = params@;
    let ghost cvv = cv@;
    if gt {
        let mut part = String::from_str("(? IS NULL OR ");
        let q = ident(f.as_str());
        part.append(q.as_str());
        part.append(" > ?)");
        group.push(part);
        params.push(cv.duplicate());
        params.push(cv);
        assert(values_view(params@) =~= values_view(pb) + seq![cvv, cvv]);
    } else {
        let mut part = String::from_str("(");
        let q = ident(f.as_str());
        part.append(q.as_str());
        part.append(" IS NULL OR ");
        part.append(q.as_str());
        part.append(" < ?)");
        group.push(part);
        params.push(cv);
        assert(values_view(params@) =~= values_view(pb) + seq![cvv]);
    }
    assert(views(group@) =~= views(gb).push(bound_part(order@[i as int].0@, gt)));
    let mut r = String::from_str("(");
    let joined = join_strings(&group, " AND ");
    r.append(joined.as_str());
    r.append(")");
    r
}

fn gather_start_constraints(
    start: &Start,
    reverse: bool,
    order: &OrderBy,
    column_types: &Vec<(String, ColumnType)>,
    params: &mut Vec<JsonValue>,
) -> (r: String)
    ensures
        r@ == start_sql(*start, reverse, order@, column_types@).0,
        values_view(final(params)@) == values_view(old(params)@) + start_sql(
            *start,
            reverse,
            order@,
            column_types@,
        ).1,
{
    let ghost p0 = values_view(params@);
    let mut or_groups: Vec<String> = Vec::new();
    let mut i: usize = 0;
    while i < order.len()
        invariant
            i <= order@.len(),
            views(or_groups@) == groups_text(order@, reverse, i as int),
            values_view(params@) == p0 + groups_params(order@, start.row@, column_types@, reverse, i as nat),
        decreases order@.len() - i,
    {
        let ghost gb = or_groups@;
        let g = start_group(start, reverse, order, i, column_types, params);
        let ghost gv = g@;
        or_groups.push(g);
        assert(views(or_groups@) =~= views(gb).push(gv));
        assert(groups_text(order@, reverse, i + 1) =~= groups_text(order@, reverse, i as int).push(gv));
        i = i + 1;
    }
    let ghost gs = or_groups@;
    let ghost ps = params@;
    if str_eq(start.basis.as_str(), "at") {
        let mut eq_parts: Vec<String> = Vec::new();
        let mut k: usize = 0;
        while k < order.len()
            invariant
                k <= order@.len(),
                views(eq_parts@) == is_parts(order@.take(k as int)),
                values_view(params@) == values_view(ps) + start_values(order@.take(k as int), start.row@, column_types@),
            decreases order@.len() - k,
        {
            let f = &order[k].0;
            let ct = column_type_exec(column_types, f.as_str());
            let v = to_sqlite_type(&crate::source::field_value_exec(&start.row, f.as_str()), &ct);
            let ghost pb = params@;
            let ghost vv = v@;
            params.push(v);
            let mut part = ident(f.as_str());
            part.append(" IS ?");
            let ghost eb = eq_parts@;
            let ghost partv = part@;
            eq_parts.push(part);
            assert(order@.take(k + 1) =~= order@.take(k as int).push(order@[k as int]));
            assert(views(eq_parts@) =~= views(eb).push(partv));
            assert(is_parts(order@.take(k + 1)) =~= is_parts(order@.take(k as int)).push(partv));
            assert(values_view(params@) =~= values_view(pb).push(vv));
            assert(start_values(order@.take(k + 1), start.row@, column_types@) =~= start_values(order@.take(k as int), start.row@, column_types@).push(vv));
            k = k + 1;
        }
        assert(order@.take(k as int) =~= order@);
        let mut g = String::from_str("(");
        let joined = join_strings(&eq_parts, " AND ");
        g.append(joined.as_str());
        g.append(")");
        let ghost gv = g@;
        or_groups.push(g);
        assert(views(or_groups@) =~= views(gs).push(gv));
    }
    let mut r = String::from_str("(");
    let joined = join_strings(&or_groups, " OR ");
    r.append(joined.as_str());
    r.append(")");
    r
}

// --- Filters ---

/// The SQL operator for a condition's operator (SQLite's LIKE ignores case).
pub open spec fn sql_op(op: Seq<char>) -> Seq<char> {
    if op == "ILIKE"@ {
        "LIKE"@
    } else if op == "NOT ILIKE"@ {
        "NOT LIKE"@
    } else {
        op
    }
}

/// A column as its quoted name; a literal as a parameter.
pub open spec fn position_sql(vp: ValuePosition) -> (Seq<char>, Seq<JsonView>) {
    match vp {
        ValuePosition::Column { name } => (quoted(name@), Seq::empty()),
        ValuePosition::Literal { value } => ("?"@, seq![sqlite_value(value@, js_type(value@))]),
    }
}

/// The SQL of a filter condition and the parameters it binds, in order.
pub open spec fn filters_sql(c: Condition) -> (Seq<char>, Seq<JsonView>)
    decreases c,
{
    match c {
        Condition::Simple { left, op, right } => {
            let o = sql_op(op@);
            let l = position_sql(left);
            let is_in = o == "IN"@ || o == "NOT IN"@;
            match right {
                ValuePosition::Literal { value } => if is_in {
                    (
                        l.0 + " "@ + o + " (SELECT value FROM json_each(?))"@,
                        l.1.push(JsonView::Str(json_text(value@))),
                    )
                } else {
                    let r = position_sql(right);
                    (l.0 + " "@ + o + " "@ + r.0, l.1 + r.1)
                },
                ValuePosition::Column { .. } => {
                    let r = position_sql(right);
                    (l.0 + " "@ + o + " "@ + r.0, (if is_in {
                        l.1 + l.1
                    } else {
                        l.1
                    }) + r.1)
                },
            }
        },
        Condition::And { conditions } => if conditions@.len() == 0 {
            ("TRUE"@, Seq::empty())
        } else {
            let ps = filters_list(conditions@);
            ("("@ + join(ps.0, " AND "@) + ")"@, ps.1)
        },
        Condition::Or { conditions } => if conditions@.len() == 0 {
            ("FALSE"@, Seq::empty())
        } else {
            let ps = filters_list(conditions@);
            ("("@ + join(ps.0, " OR "@) + ")"@, ps.1)
        },
    }
}

pub open spec fn filters_list(cs: Seq<Condition>) -> (Seq<Seq<char>>, Seq<JsonView>)
    decreases cs,
{
    if cs.len() == 0 {
        (Seq::empty(), Seq::empty())
    } else {
        let h = filters_sql(cs[0]);
        let t = filters_list(cs.drop_first());
        (seq![h.0] + t.0, h.1 + t.1)
    }
}

fn value_position_to_sql(vp: &ValuePosition, params: &mut Vec<JsonValue>) -> (r: String)
    ensures
        r@ == position_sql(*vp).0,
        values_view(final(params)@) == values_view(old(params)@) + position_sql(*vp).1,
{
    match vp {
        ValuePosition::Column { name } => {
            assert(values_view(params@) =~= values_view(params@) + Seq::<JsonView>::empty());
            ident(name.as_str())
        },
        ValuePosition::Literal { value } => {
            let col_type = get_js_type(value);
            let ghost pb = params@;
            let v = to_sqlite_type(value, &col_type);
            let ghost vv = v@;
            params.push(v);
            assert(values_view(params@) =~= values_view(pb) + seq![vv]);
            String::from_str("?")
        },
    }
}

fn filters_to_sql(filters: &Condition, params: &mut Vec<JsonValue>) -> (r: String)
    ensures
        r@ == filters_sql(*filters).0,
        values_view(final(params)@) == values_view(old(params)@) + filters_sql(*filters).1,
    decreases filters,
{
    match filters {
        Condition::Simple { left, op, right } => {
            let sql_op: &str = if str_eq(op.as_str(), "ILIKE") {
                "LIKE"
            } else if str_eq(op.as_str(), "NOT ILIKE") {
                "NOT LIKE"
            } else {
                op.as_str()
            };
            let is_in = str_eq(sql_op, "IN") || str_eq(sql_op, "NOT IN");
            let ghost p0 = values_view(params@);
            if is_in {
                let left_sql = value_position_to_sql(left, params);
                if let ValuePosition::Literal { value } = right {
                    let json_str = to_json_string(value);
                    let ghost pb = params@;
                    let ghost jv = json_str@;
                    params.push(JsonValue::String(json_str));
                    assert(values_view(params@) =~= values_view(pb).push(JsonView::Str(jv)));
                    let mut r = left_sql;
                    r.append(" ");
                    r.append(sql_op);
                    r.append(" (SELECT value FROM json_each(?))");
                    return r;
                }
            }
            let ghost p1 = values_view(params@);
            let left_sql = value_position_to_sql(left, params);
            let right_sql = value_position_to_sql(right, params);
            let mut r = left_sql;
            r.append(" ");
            r.append(sql_op);
            r.append(" ");
            r.append(right_sql.as_str());
            r
        },
        Condition::And { conditions } => {
            if conditions.len() == 0 {
                assert(values_view(params@) =~= values_view(params@) + Seq::<JsonView>::empty());
                return String::from_str("TRUE");
            }
            proof {
                assert(decreases_to!(*filters => filters->And_conditions));
            }
            let parts = filters_list_to_sql(conditions, params);
            let mut r = String::from_str("(");
            let joined = join_strings(&parts, " AND ");
            r.append(joined.as_str());
            r.append(")");
            r
        },
        Condition::Or { conditions } => {
            if conditions.len() == 0 {
                assert(values_view(params@) =~= values_view(params@) + Seq::<JsonView>::empty());
                return String::from_str("FALSE");
            }
            proof {
                assert(decreases_to!(*filters => filters->Or_conditions));
            }
            let parts = filters_list_to_sql(conditions, params);
            let mut r = String::from_str("(");
            let joined = join_strings(&parts, " OR ");
            r.append(joined.as_str());
            r.append(")");
            r
        },
    }
}

fn filters_list_to_sql(cs: &Vec<Condition>, params: &mut Vec<JsonValue>) -> (r: Vec<String>)
    ensures
        views(r@) == filters_list(cs@).0,
        values_view(final(params)@) == values_view(old(params)@) + filters_list(cs@).1,
    decreases cs,
{
    let ghost p0 = values_view(params@);
    let mut out: Vec<String> = Vec::new();
    let mut i: usize = 0;
    assert(cs@.skip(0) =~= cs@);
    assert(views(out@) =~= Seq::<Seq<char>>::empty());
    assert(p0 =~= values_view(params@));
    while i < cs.len()
        invariant
            i <= cs@.len(),
            filters_list(cs@).0 == views(out@) + filters_list(cs@.skip(i as int)).0,
            p0 + filters_list(cs@).1 == values_view(params@) + filters_list(cs@.skip(i as int)).1,
        decreases cs@.len() - i,
    {
        assert(cs@.skip(i as int).drop_first() =~= cs@.skip(i + 1));
        assert(cs@.skip(i as int)[0] == cs@[i as int]);
        proof {
            assert(decreases_to!(*cs => cs@));
            assert(decreases_to!(cs@ => cs@[i as int]));
        }
        let ghost ob = out@;
        let ghost pb = values_view(params@);
        let part = filters_to_sql(&cs[i], params);
        let ghost partv = part@;
        out.push(part);
        assert(views(out@) =~= views(ob).push(partv));
        assert(views(ob) + filters_list(cs@.skip(i as int)).0 =~= views(out@) + filters_list(cs@.skip(i + 1)).0);
        assert(pb + filters_list(cs@.skip(i as int)).1 =~= values_view(params@) + filters_list(cs@.skip(i + 1)).1);
        i = i + 1;
    }
    assert(cs@.skip(i as int) =~= Seq::<Condition>::empty());
    assert(views(out@) + Seq::<Seq<char>>::empty() =~= views(out@));
    assert(values_view(params@) + Seq::<JsonView>::empty() =~= values_view(params@));
    out
}

// --- The query ---

pub open spec fn where_parts(
    constraint: Option<Constraint>,
    types: Seq<(String, ColumnType)>,
    filters: Option<Condition>,
    order: Option<OrderBy>,
    reverse: bool,
    start: Option<Start>,
) -> (Seq<Seq<char>>, Seq<JsonView>) {
    let c = match constraint {
        Some(c) => (constraint_parts(c@), constraint_params(c@, types)),
        None => (Seq::empty(), Seq::empty()),
    };
    let s = match start {
        Some(st) => {
            let r = start_sql(st, reverse, order.unwrap()@, types);
            (seq![r.0], r.1)
        },
        None => (Seq::empty(), Seq::empty()),
    };
    let f = match filters {
        Some(fl) => (seq![filters_sql(fl).0], filters_sql(fl).1),
        None => (Seq::empty(), Seq::empty()),
    };
    (c.0 + s.0 + f.0, c.1 + s.1 + f.1)
}

/// The SELECT statement for a fetch and its parameters, in order.
pub open spec fn select_sql(
    table: Seq<char>,
    columns: Seq<String>,
    types: Seq<(String, ColumnType)>,
    constraint: Option<Constraint>,
    filters: Option<Condition>,
    order: Option<OrderBy>,
    reverse: bool,
    start: Option<Start>,
) -> (Seq<char>, Seq<JsonView>) {
    let head = "SELECT "@ + join(columns.map_values(|c: String| quoted(c@)), ", "@) + " FROM "@
        + quoted(table);
    let w = where_parts(constraint, types, filters, order, reverse, start);
    let where_sql = if w.0.len() == 0 {
        Seq::empty()
    } else {
        " WHERE "@ + join(w.0, " AND "@)
    };
    let order_sql = match order {
        Some(o) => if o@.len() > 0 {
            " "@ + order_by_sql(o@, reverse)
        } else {
            Seq::empty()
        },
        None => Seq::empty(),
    };
    (head + where_sql + order_sql, w.1)
}

pub open spec fn opt_deref<T>(o: Option<&T>) -> Option<T> {
    match o {
        Some(x) => Some(*x),
        None => None,
    }
}

fn select_head(table_name: &str, columns: &[String]) -> (r: String)
    ensures
        r@ == "SELECT "@ + join(columns@.map_values(|c: String| quoted(c@)), ", "@) + " FROM "@
            + quoted(table_name@),
{
    let mut col_idents: Vec<String> = Vec::new();
    let mut i: usize = 0;
    while i < columns.len()
        invariant
            i <= columns@.len(),
            views(col_idents@) == columns@.take(i as int).map_values(|c: String| quoted(c@)),
        decreases columns@.len() - i,
    {
        let ghost cb = col_idents@;
        let q = ident(columns[i].as_str());
        let ghost qv = q@;
        col_idents.push(q);
        assert(columns@.take(i + 1) =~= columns@.take(i as int).push(columns@[i as int]));
        assert(views(col_idents@) =~= views(cb).push(qv));
        assert(columns@.take(i + 1).map_values(|c: String| quoted(c@)) =~= columns@.take(i as int).map_values(|c: String| quoted(c@)).push(qv));
        i = i + 1;
    }
    assert(columns@.take(i as int) =~= columns@);
    let mut sql = String::from_str("SELECT ");
    let cols_sql = join_strings(&col_idents, ", ");
    sql.append(cols_sql.as_str());
    sql.append(" FROM ");
    let t = ident(table_name);
    sql.append(t.as_str());
    sql
}

fn select_where(
    column_types: &Vec<(String, ColumnType)>,
    constraint: Option<&Constraint>,
    filters: Option<&Condition>,
    order: Option<&OrderBy>,
    reverse: bool,
    start: Option<&Start>,
    params: &mut Vec<JsonValue>,
) -> (parts: Vec<String>)
    requires
        start is Some ==> order is Some,
    ensures
        ({
            let w = where_parts(
                opt_deref(constraint),
                column_types@,
                opt_deref(filters),
                opt_deref(order),
                reverse,
                opt_deref(start),
            );
            views(parts@) == w.0 && values_view(final(params)@) == values_view(old(params)@) + w.1
        }),
{
    let ghost p0 = values_view(params@);
    let mut where_parts_v: Vec<String> = Vec::new();
    constraints_to_sql(constraint, column_types, &mut where_parts_v, params);
    assert(views(Seq::<String>::empty()) =~= Seq::<Seq<char>>::empty());
    if let Some(s) = start {
        let ord = match order {
            Some(o) => o,
            None => {
                proof {
                    assert(false);
                }
                return where_parts_v;
            },
        };
        let ghost wb = where_parts_v@;
        let g = gather_start_constraints(s, reverse, ord, column_types, params);
        let ghost gv = g@;
        where_parts_v.push(g);
        assert(views(where_parts_v@) =~= views(wb).push(gv));
    }
    if let Some(f) = filters {
        let ghost wb = where_parts_v@;
        let fs = filters_to_sql(f, params);
        let ghost fv = fs@;
        where_parts_v.push(fs);
        assert(views(where_parts_v@) =~= views(wb).push(fv));
    }
    let ghost w = where_parts(
        opt_deref(constraint),
        column_types@,
        opt_deref(filters),
        opt_deref(order),
        reverse,
        opt_deref(start),
    );
    assert(views(where_parts_v@) =~= w.0);
    assert(values_view(params@) =~= p0 + w.1);
    where_parts_v
}

/// Builds the SELECT statement for a fetch: the listed columns of the table,
/// rows satisfying the constraint, at or after the start in the order, and
/// satisfying the filters, ordered (reversed when asked).
pub fn build_select_query(
    table_name: &str,
    columns: &[String],
    column_types: &Vec<(String, ColumnType)>,
    constraint: Option<&Constraint>,
    filters: Option<&Condition>,
    order: Option<&OrderBy>,
    reverse: bool,
    start: Option<&Start>,
) -> (r: (String, Vec<JsonValue>))
    requires
        start is Some ==> order is Some,
    ensures
        ({
            let spec_r = select_sql(
                table_name@,
                columns@,
                column_types@,
                opt_deref(constraint),
                opt_deref(filters),
                opt_deref(order),
                reverse,
                opt_deref(start),
            );
            r.0@ == spec_r.0 && values_view(r.1@) == spec_r.1
        }),
{
    let mut params: Vec<JsonValue> = Vec::new();
    let mut sql = select_head(table_name, columns);
    let where_parts_v = select_where(column_types, constraint, filters, order, reverse, start, &mut params);
    assert(values_view(Seq::<JsonValue>::empty()) =~= Seq::<JsonView>::empty());
    if where_parts_v.len() > 0 {
        sql.append(" WHERE ");
        let joined = join_strings(&where_parts_v, " AND ");
        sql.append(joined.as_str());
    }
    if let Some(ord) = order {
        if ord.len() > 0 {
            sql.append(" ");
            let ob = order_by_to_sql(ord, reverse);
            sql.append(ob.as_str());
        }
    }
    (sql, params)
}


// --- Placeholders ---

/// How many `?` placeholders a text holds.
pub open spec fn qmarks(s: Seq<char>) -> nat
    decreases s.len(),
{
    if s.len() == 0 {
        0
    } else {
        qmarks(s.drop_last()) + if s.last() == '?' {
            1nat
        } else {
            0nat
        }
    }
}

/// The placeholders of a list of texts, all together.
pub open spec fn qmarks_all(parts: Seq<Seq<char>>) -> nat
    decreases parts.len(),
{
    if parts.len() == 0 {
        0
    } else {
        qmarks_all(parts.drop_last()) + qmarks(parts.last())
    }
}

/// A name or word holds no `?`.
pub open spec fn free(s: Seq<char>) -> bool {
    !s.contains('?')
}

pub open spec fn names_free(ns: Seq<String>) -> bool {
    forall|i: int| 0 <= i < ns.len() ==> free(#[trigger] ns[i]@)
}

pub open spec fn order_free(o: Seq<(String, String)>) -> bool {
    forall|i: int| 0 <= i < o.len() ==> free((#[trigger] o[i]).0@) && free(o[i].1@)
}

pub open spec fn keys_free(c: Seq<(Seq<char>, JsonView)>) -> bool {
    forall|i: int| 0 <= i < c.len() ==> free((#[trigger] c[i]).0)
}

pub open spec fn position_free(vp: ValuePosition) -> bool {
    match vp {
        ValuePosition::Column { name } => free(name@),
        ValuePosition::Literal { .. } => true,
    }
}

/// A filter whose column names and operators hold no `?`, and which has no
/// `IN` from a literal to a column (that form binds its literal twice for
/// one placeholder).
pub open spec fn filter_free(c: Condition) -> bool
    decreases c,
{
    match c {
        Condition::Simple { left, op, right } => {
            &&& free(op@)
            &&& position_free(left)
            &&& position_free(right)
            &&& !((sql_op(op@) == "IN"@ || sql_op(op@) == "NOT IN"@) && left is Literal && right is Column)
        },
        Condition::And { conditions } => forall|i: int|
            #![trigger conditions@[i]]
            0 <= i < conditions@.len() ==> filter_free(conditions@[i]),
        Condition::Or { conditions } => forall|i: int|
            #![trigger conditions@[i]]
            0 <= i < conditions@.len() ==> filter_free(conditions@[i]),
    }
}

proof fn lemma_qmarks_add(a: Seq<char>, b: Seq<char>)
    ensures
        qmarks(a + b) == qmarks(a) + qmarks(b),
    decreases b.len(),
{
    if b.len() == 0 {
        assert(a + b =~= a);
    } else {
        lemma_qmarks_add(a, b.drop_last());
        assert((a + b).drop_last() =~= a + b.drop_last());
        assert((a + b).last() == b.last());
    }
}

proof fn lemma_all_add(a: Seq<Seq<char>>, b: Seq<Seq<char>>)
    ensures
        qmarks_all(a + b) == qmarks_all(a) + qmarks_all(b),
    decreases b.len(),
{
    if b.len() == 0 {
        assert(a + b =~= a);
    } else {
        lemma_all_add(a, b.drop_last());
        assert((a + b).drop_last() =~= a + b.drop_last());
        assert((a + b).last() == b.last());
    }
}

proof fn lemma_free(s: Seq<char>)
    requires
        free(s),
    ensures
        qmarks(s) == 0,
    decreases s.len(),
{
    if s.len() > 0 {
        assert(s.last() == s[s.len() - 1]);
        assert forall|c: char| s.drop_last().contains(c) implies s.contains(c) by {
            let k = choose|k: int| 0 <= k < s.drop_last().len() && s.drop_last()[k] == c;
            assert(s[k] == c);
        }
        lemma_free(s.drop_last());
    }
}

proof fn lemma_word_0()
    ensures
        qmarks(" = ?"@) == 1,
{
    reveal_strlit(" = ?");
    reveal_with_fuel(qmarks, 40);
}

proof fn lemma_word_1()
    ensures
        qmarks(" IS ?"@) == 1,
{
    reveal_strlit(" IS ?");
    reveal_with_fuel(qmarks, 40);
}

proof fn lemma_word_2()
    ensures
        qmarks("(? IS NULL OR "@) == 1,
{
    reveal_strlit("(? IS NULL OR ");
    reveal_with_fuel(qmarks, 40);
}

proof fn lemma_word_3()
    ensures
        qmarks(" > ?)"@) == 1,
{
    reveal_strlit(" > ?)");
    reveal_with_fuel(qmarks, 40);
}

proof fn lemma_word_4()
    ensures
        qmarks(" < ?)"@) == 1,
{
    reveal_strlit(" < ?)");
    reveal_with_fuel(qmarks, 40);
}

proof fn lemma_word_5()
    ensures
        qmarks(" (SELECT value FROM json_each(?))"@) == 1,
{
    reveal_strlit(" (SELECT value FROM json_each(?))");
    reveal_with_fuel(qmarks, 40);
}

proof fn lemma_word_6()
    ensures
        qmarks("?"@) == 1,
{
    reveal_strlit("?");
    reveal_with_fuel(qmarks, 40);
}

proof fn lemma_word_7()
    ensures
        qmarks("("@) == 0,
{
    reveal_strlit("(");
    reveal_with_fuel(qmarks, 40);
}

proof fn lemma_word_8()
    ensures
        qmarks(")"@) == 0,
{
    reveal_strlit(")");
    reveal_with_fuel(qmarks, 40);
}

proof fn lemma_word_9()
    ensures
        qmarks(" IS NULL OR "@) == 0,
{
    reveal_strlit(" IS NULL OR ");
    reveal_with_fuel(qmarks, 40);
}

proof fn lemma_word_10()
    ensures
        qmarks(", "@) == 0,
{
    reveal_strlit(", ");
    reveal_with_fuel(qmarks, 40);
}

proof fn lemma_word_11()
    ensures
        qmarks(" AND "@) == 0,
{
    reveal_strlit(" AND ");
    reveal_with_fuel(qmarks, 40);
}

proof fn lemma_word_12()
    ensures
        qmarks(" OR "@) == 0,
{
    reveal_strlit(" OR ");
    reveal_with_fuel(qmarks, 40);
}

proof fn lemma_word_13()
    ensures
        qmarks("SELECT "@) == 0,
{
    reveal_strlit("SELECT ");
    reveal_with_fuel(qmarks, 40);
}

proof fn lemma_word_14()
    ensures
        qmarks(" FROM "@) == 0,
{
    reveal_strlit(" FROM ");
    reveal_with_fuel(qmarks, 40);
}

proof fn lemma_word_15()
    ensures
        qmarks(" WHERE "@) == 0,
{
    reveal_strlit(" WHERE ");
    reveal_with_fuel(qmarks, 40);
}

proof fn lemma_word_16()
    ensures
        qmarks("ORDER BY "@) == 0,
{
    reveal_strlit("ORDER BY ");
    reveal_with_fuel(qmarks, 40);
}

proof fn lemma_word_17()
    ensures
        qmarks(" "@) == 0,
{
    reveal_strlit(" ");
    reveal_with_fuel(qmarks, 40);
}

proof fn lemma_word_18()
    ensures
        qmarks("TRUE"@) == 0,
{
    reveal_strlit("TRUE");
    reveal_with_fuel(qmarks, 40);
}

proof fn lemma_word_19()
    ensures
        qmarks("FALSE"@) == 0,
{
    reveal_strlit("FALSE");
    reveal_with_fuel(qmarks, 40);
}

proof fn lemma_word_20()
    ensures
        qmarks("LIKE"@) == 0,
{
    reveal_strlit("LIKE");
    reveal_with_fuel(qmarks, 40);
}

proof fn lemma_word_21()
    ensures
        qmarks("NOT LIKE"@) == 0,
{
    reveal_strlit("NOT LIKE");
    reveal_with_fuel(qmarks, 40);
}

proof fn lemma_word_22()
    ensures
        qmarks("asc"@) == 0,
{
    reveal_strlit("asc");
    reveal_with_fuel(qmarks, 40);
}

proof fn lemma_word_23()
    ensures
        qmarks("desc"@) == 0,
{
    reveal_strlit("desc");
    reveal_with_fuel(qmarks, 40);
}

proof fn lemma_chars()
    ensures
        qmarks(seq!['"']) == 0,
        qmarks(seq![' ']) == 0,
{
    reveal_with_fuel(qmarks, 3);
}

proof fn lemma_words()
    ensures
        qmarks(" = ?"@) == 1,
        qmarks(" IS ?"@) == 1,
        qmarks("(? IS NULL OR "@) == 1,
        qmarks(" > ?)"@) == 1,
        qmarks(" < ?)"@) == 1,
        qmarks(" (SELECT value FROM json_each(?))"@) == 1,
        qmarks("?"@) == 1,
        qmarks("("@) == 0,
        qmarks(")"@) == 0,
        qmarks(" IS NULL OR "@) == 0,
        qmarks(", "@) == 0,
        qmarks(" AND "@) == 0,
        qmarks(" OR "@) == 0,
        qmarks("SELECT "@) == 0,
        qmarks(" FROM "@) == 0,
        qmarks(" WHERE "@) == 0,
        qmarks("ORDER BY "@) == 0,
        qmarks(" "@) == 0,
        qmarks("TRUE"@) == 0,
        qmarks("FALSE"@) == 0,
        qmarks("LIKE"@) == 0,
        qmarks("NOT LIKE"@) == 0,
        qmarks("asc"@) == 0,
        qmarks("desc"@) == 0,
        qmarks(seq!['"']) == 0,
        qmarks(seq![' ']) == 0,
{
    lemma_word_0();
    lemma_word_1();
    lemma_word_2();
    lemma_word_3();
    lemma_word_4();
    lemma_word_5();
    lemma_word_6();
    lemma_word_7();
    lemma_word_8();
    lemma_word_9();
    lemma_word_10();
    lemma_word_11();
    lemma_word_12();
    lemma_word_13();
    lemma_word_14();
    lemma_word_15();
    lemma_word_16();
    lemma_word_17();
    lemma_word_18();
    lemma_word_19();
    lemma_word_20();
    lemma_word_21();
    lemma_word_22();
    lemma_word_23();
    lemma_chars();
}

proof fn lemma_quoted(n: Seq<char>)
    requires
        free(n),
    ensures
        qmarks(quoted(n)) == 0,
{
    lemma_words();
    lemma_free(n);
    lemma_qmarks_add(seq!['"'], n);
    lemma_qmarks_add(seq!['"'] + n, seq!['"']);
}

/// The placeholders of joined texts are theirs, where the separator has
/// none.
proof fn lemma_join(parts: Seq<Seq<char>>, sep: Seq<char>)
    requires
        qmarks(sep) == 0,
    ensures
        qmarks(join(parts, sep)) == qmarks_all(parts),
    decreases parts.len(),
{
    if parts.len() == 0 {
        assert(qmarks(Seq::<char>::empty()) == 0);
    } else if parts.len() == 1 {
        assert(parts.drop_last().len() == 0);
        assert(qmarks_all(parts.drop_last()) == 0);
        assert(parts.last() == parts[0]);
        assert(join(parts, sep) == parts[0]);
    } else {
        lemma_join(parts.drop_last(), sep);
        lemma_qmarks_add(join(parts.drop_last(), sep), sep);
        lemma_qmarks_add(join(parts.drop_last(), sep) + sep, parts.last());
        assert(join(parts, sep) == join(parts.drop_last(), sep) + sep + parts.last());
    }
}

proof fn lemma_all_names(cs: Seq<String>)
    requires
        names_free(cs),
    ensures
        qmarks_all(cs.map_values(|c: String| quoted(c@))) == 0,
    decreases cs.len(),
{
    if cs.len() > 0 {
        assert(cs.map_values(|c: String| quoted(c@)).drop_last() =~= cs.drop_last().map_values(
            |c: String| quoted(c@),
        ));
        assert(names_free(cs.drop_last())) by {
            assert forall|i: int| 0 <= i < cs.drop_last().len() implies free(#[trigger] cs.drop_last()[i]@) by {
                assert(cs.drop_last()[i] == cs[i]);
            }
        }
        lemma_all_names(cs.drop_last());
        lemma_quoted(cs.last()@);
    }
}

proof fn lemma_constraint(c: Seq<(Seq<char>, JsonView)>, types: Seq<(String, ColumnType)>)
    requires
        keys_free(c),
    ensures
        qmarks_all(constraint_parts(c)) == constraint_params(c, types).len(),
    decreases c.len(),
{
    if c.len() > 0 {
        assert(constraint_parts(c).drop_last() =~= constraint_parts(c.drop_last()));
        assert(keys_free(c.drop_last())) by {
            assert forall|i: int| 0 <= i < c.drop_last().len() implies free((#[trigger] c.drop_last()[i]).0) by {
                assert(c.drop_last()[i] == c[i]);
            }
        }
        lemma_constraint(c.drop_last(), types);
        lemma_words();
        lemma_quoted(c.last().0);
        lemma_qmarks_add(quoted(c.last().0), " = ?"@);
    }
}

proof fn lemma_is_parts(o: Seq<(String, String)>)
    requires
        order_free(o),
    ensures
        qmarks_all(is_parts(o)) == o.len(),
    decreases o.len(),
{
    if o.len() > 0 {
        assert(is_parts(o).drop_last() =~= is_parts(o.drop_last()));
        assert(order_free(o.drop_last())) by {
            assert forall|i: int| 0 <= i < o.drop_last().len() implies free((#[trigger] o.drop_last()[i]).0@)
                && free(o.drop_last()[i].1@) by {
                assert(o.drop_last()[i] == o[i]);
            }
        }
        lemma_is_parts(o.drop_last());
        lemma_words();
        lemma_quoted(o.last().0@);
        lemma_qmarks_add(quoted(o.last().0@), " IS ?"@);
    }
}

proof fn lemma_order_free_take(o: Seq<(String, String)>, i: int)
    requires
        order_free(o),
        0 <= i <= o.len(),
    ensures
        order_free(o.take(i)),
{
    assert forall|k: int| 0 <= k < o.take(i).len() implies free((#[trigger] o.take(i)[k]).0@) && free(
        o.take(i)[k].1@,
    ) by {
        assert(o.take(i)[k] == o[k]);
    }
}

proof fn lemma_group(o: Seq<(String, String)>, i: int, row: RowView, types: Seq<(String, ColumnType)>, reverse: bool)
    requires
        order_free(o),
        0 <= i < o.len(),
    ensures
        qmarks(group_text(o, i, reverse)) == group_params(o, i, row, types, reverse).len(),
{
    lemma_words();
    lemma_order_free_take(o, i);
    lemma_is_parts(o.take(i));
    let f = o[i].0@;
    assert(free(f));
    lemma_quoted(f);
    let gt = forward_gt(o[i].1@, reverse);
    let b = bound_part(f, gt);
    if gt {
        lemma_qmarks_add("(? IS NULL OR "@, quoted(f));
        lemma_qmarks_add("(? IS NULL OR "@ + quoted(f), " > ?)"@);
    } else {
        lemma_qmarks_add("("@, quoted(f));
        lemma_qmarks_add("("@ + quoted(f), " IS NULL OR "@);
        lemma_qmarks_add("("@ + quoted(f) + " IS NULL OR "@, quoted(f));
        lemma_qmarks_add("("@ + quoted(f) + " IS NULL OR "@ + quoted(f), " < ?)"@);
    }
    let ps = is_parts(o.take(i)).push(b);
    assert(ps.drop_last() =~= is_parts(o.take(i)));
    lemma_join(ps, " AND "@);
    lemma_qmarks_add("("@, join(ps, " AND "@));
    lemma_qmarks_add("("@ + join(ps, " AND "@), ")"@);
}

proof fn lemma_groups(o: Seq<(String, String)>, row: RowView, types: Seq<(String, ColumnType)>, reverse: bool, n: nat)
    requires
        order_free(o),
        n <= o.len(),
    ensures
        qmarks_all(groups_text(o, reverse, n as int)) == groups_params(o, row, types, reverse, n).len(),
    decreases n,
{
    if n > 0 {
        assert(groups_text(o, reverse, n as int).drop_last() =~= groups_text(o, reverse, n - 1));
        lemma_groups(o, row, types, reverse, (n - 1) as nat);
        lemma_group(o, n - 1, row, types, reverse);
    }
}

proof fn lemma_start(st: Start, reverse: bool, o: Seq<(String, String)>, types: Seq<(String, ColumnType)>)
    requires
        order_free(o),
    ensures
        qmarks(start_sql(st, reverse, o, types).0) == start_sql(st, reverse, o, types).1.len(),
{
    lemma_words();
    let gs = groups_text(o, reverse, o.len() as int);
    lemma_groups(o, st.row@, types, reverse, o.len());
    let all_gs = if st.basis@ == "at"@ {
        let extra = "("@ + join(is_parts(o), " AND "@) + ")"@;
        lemma_is_parts(o);
        lemma_join(is_parts(o), " AND "@);
        lemma_qmarks_add("("@, join(is_parts(o), " AND "@));
        lemma_qmarks_add("("@ + join(is_parts(o), " AND "@), ")"@);
        assert(gs.push(extra).drop_last() =~= gs);
        gs.push(extra)
    } else {
        gs
    };
    lemma_join(all_gs, " OR "@);
    lemma_qmarks_add("("@, join(all_gs, " OR "@));
    lemma_qmarks_add("("@ + join(all_gs, " OR "@), ")"@);
}

proof fn lemma_sql_op(op: Seq<char>)
    requires
        free(op),
    ensures
        qmarks(sql_op(op)) == 0,
{
    lemma_words();
    lemma_free(op);
}

proof fn lemma_position(vp: ValuePosition)
    requires
        position_free(vp),
    ensures
        qmarks(position_sql(vp).0) == position_sql(vp).1.len(),
{
    lemma_words();
    if let ValuePosition::Column { name } = vp {
        lemma_quoted(name@);
    }
}

proof fn lemma_filter(c: Condition)
    requires
        filter_free(c),
    ensures
        qmarks(filters_sql(c).0) == filters_sql(c).1.len(),
    decreases c,
{
    lemma_words();
    match c {
        Condition::Simple { left, op, right } => {
            let o = sql_op(op@);
            lemma_sql_op(op@);
            lemma_position(left);
            lemma_position(right);
            let l = position_sql(left);
            let r = position_sql(right);
            lemma_qmarks_add(l.0, " "@);
            lemma_qmarks_add(l.0 + " "@, o);
            lemma_qmarks_add(l.0 + " "@ + o, " (SELECT value FROM json_each(?))"@);
            lemma_qmarks_add(l.0 + " "@ + o, " "@);
            lemma_qmarks_add(l.0 + " "@ + o + " "@, r.0);
        },
        Condition::And { conditions } => {
            if conditions@.len() > 0 {
                lemma_filters(conditions@);
                let ps = filters_list(conditions@);
                lemma_join(ps.0, " AND "@);
                lemma_qmarks_add("("@, join(ps.0, " AND "@));
                lemma_qmarks_add("("@ + join(ps.0, " AND "@), ")"@);
            }
        },
        Condition::Or { conditions } => {
            if conditions@.len() > 0 {
                lemma_filters(conditions@);
                let ps = filters_list(conditions@);
                lemma_join(ps.0, " OR "@);
                lemma_qmarks_add("("@, join(ps.0, " OR "@));
                lemma_qmarks_add("("@ + join(ps.0, " OR "@), ")"@);
            }
        },
    }
}

proof fn lemma_filters(cs: Seq<Condition>)
    requires
        forall|i: int| #![trigger cs[i]] 0 <= i < cs.len() ==> filter_free(cs[i]),
    ensures
        qmarks_all(filters_list(cs).0) == filters_list(cs).1.len(),
    decreases cs,
{
    if cs.len() > 0 {
        assert(decreases_to!(cs => cs[0]));
        lemma_filter(cs[0]);
        assert(forall|i: int| #![trigger cs.drop_first()[i]] 0 <= i < cs.drop_first().len() ==> cs.drop_first()[i] == cs[i + 1]);
        lemma_filters(cs.drop_first());
        let h = filters_sql(cs[0]);
        let t = filters_list(cs.drop_first());
        lemma_all_add(seq![h.0], t.0);
        assert(seq![h.0].drop_last() =~= Seq::<Seq<char>>::empty());
        assert(qmarks_all(Seq::<Seq<char>>::empty()) == 0);
        assert(qmarks_all(seq![h.0]) == qmarks(h.0));
        assert(filters_list(cs) == (seq![h.0] + t.0, h.1 + t.1));
    } else {
        assert(qmarks_all(Seq::<Seq<char>>::empty()) == 0);
    }
}

proof fn lemma_order_items(o: Seq<(String, String)>, reverse: bool)
    requires
        order_free(o),
    ensures
        qmarks_all(order_items(o, reverse)) == 0,
    decreases o.len(),
{
    if o.len() > 0 {
        assert(order_items(o, reverse).drop_last() =~= order_items(o.drop_last(), reverse));
        lemma_order_free_take(o, o.len() - 1);
        assert(o.take(o.len() - 1) =~= o.drop_last());
        lemma_order_items(o.drop_last(), reverse);
        lemma_words();
        let e = o.last();
        assert(free(e.0@) && free(e.1@));
        lemma_quoted(e.0@);
        lemma_free(e.1@);
        lemma_qmarks_add(quoted(e.0@), seq![' ']);
        lemma_qmarks_add(quoted(e.0@) + seq![' '], effective_direction(e.1@, reverse));
    }
}

/// The statement `build_select_query` writes holds one `?` per parameter it
/// returns, where the names, sort directions and operators it is given hold
/// no `?` and no filter tests a literal `IN` a column.
pub proof fn lemma_select_placeholders(
    table: Seq<char>,
    columns: Seq<String>,
    types: Seq<(String, ColumnType)>,
    constraint: Option<Constraint>,
    filters: Option<Condition>,
    order: Option<OrderBy>,
    reverse: bool,
    start: Option<Start>,
)
    requires
        start is Some ==> order is Some,
        free(table),
        names_free(columns),
        constraint matches Some(c) ==> keys_free(c@),
        filters matches Some(f) ==> filter_free(f),
        order matches Some(o) ==> order_free(o@),
    ensures
        qmarks(select_sql(table, columns, types, constraint, filters, order, reverse, start).0) == select_sql(
            table,
            columns,
            types,
            constraint,
            filters,
            order,
            reverse,
            start,
        ).1.len(),
{
    lemma_words();
    lemma_all_names(columns);
    let cols = columns.map_values(|c: String| quoted(c@));
    lemma_join(cols, ", "@);
    lemma_quoted(table);
    let head = "SELECT "@ + join(cols, ", "@) + " FROM "@ + quoted(table);
    lemma_qmarks_add("SELECT "@, join(cols, ", "@));
    lemma_qmarks_add("SELECT "@ + join(cols, ", "@), " FROM "@);
    lemma_qmarks_add("SELECT "@ + join(cols, ", "@) + " FROM "@, quoted(table));
    let c = match constraint {
        Some(cc) => (constraint_parts(cc@), constraint_params(cc@, types)),
        None => (Seq::<Seq<char>>::empty(), Seq::<JsonView>::empty()),
    };
    if let Some(cc) = constraint {
        lemma_constraint(cc@, types);
    }
    let s = match start {
        Some(st) => {
            let r = start_sql(st, reverse, order.unwrap()@, types);
            lemma_start(st, reverse, order.unwrap()@, types);
            assert(seq![r.0].drop_last() =~= Seq::<Seq<char>>::empty());
            assert(qmarks_all(Seq::<Seq<char>>::empty()) == 0);
            assert(qmarks_all(seq![r.0]) == qmarks(r.0));
            (seq![r.0], r.1)
        },
        None => (Seq::<Seq<char>>::empty(), Seq::<JsonView>::empty()),
    };
    let f = match filters {
        Some(fl) => {
            lemma_filter(fl);
            assert(seq![filters_sql(fl).0].drop_last() =~= Seq::<Seq<char>>::empty());
            assert(qmarks_all(Seq::<Seq<char>>::empty()) == 0);
            assert(qmarks_all(seq![filters_sql(fl).0]) == qmarks(filters_sql(fl).0));
            (seq![filters_sql(fl).0], filters_sql(fl).1)
        },
        None => (Seq::<Seq<char>>::empty(), Seq::<JsonView>::empty()),
    };
    let w = where_parts(constraint, types, filters, order, reverse, start);
    assert(w.0 == c.0 + s.0 + f.0);
    assert(w.1 == c.1 + s.1 + f.1);
    lemma_all_add(c.0, s.0);
    lemma_all_add(c.0 + s.0, f.0);
    let where_sql = if w.0.len() == 0 {
        Seq::<char>::empty()
    } else {
        lemma_join(w.0, " AND "@);
        lemma_qmarks_add(" WHERE "@, join(w.0, " AND "@));
        " WHERE "@ + join(w.0, " AND "@)
    };
    let order_sql = match order {
        Some(o) => if o@.len() > 0 {
            lemma_order_items(o@, reverse);
            lemma_join(order_items(o@, reverse), ", "@);
            lemma_qmarks_add("ORDER BY "@, join(order_items(o@, reverse), ", "@));
            lemma_qmarks_add(" "@, order_by_sql(o@, reverse));
            " "@ + order_by_sql(o@, reverse)
        } else {
            Seq::<char>::empty()
        },
        None => Seq::<char>::empty(),
    };
    assert(qmarks_all(Seq::<Seq<char>>::empty()) == 0);
    assert(qmarks(Seq::<char>::empty()) == 0);
    assert(qmarks(head) == 0);
    assert(qmarks_all(c.0) == c.1.len());
    assert(qmarks_all(s.0) == s.1.len());
    assert(qmarks_all(f.0) == f.1.len());
    assert(qmarks_all(w.0) == w.1.len());
    assert(qmarks(where_sql) == w.1.len());
    assert(qmarks(order_sql) == 0);
    lemma_qmarks_add(head, where_sql);
    lemma_qmarks_add(head + where_sql, order_sql);
}


/// `NOT ILIKE` negates `ILIKE`: on the same sides, both bind the same
/// parameters, `ILIKE` becomes SQLite's (case-blind) `LIKE` and `NOT ILIKE`
/// its `NOT LIKE`, so a row passes one filter exactly when it fails the
/// other.
pub proof fn lemma_not_ilike_negates(c: Condition, d: Condition)
    requires
        c matches Condition::Simple { op, .. } && op@ == "ILIKE"@,
        d matches Condition::Simple { op, .. } && op@ == "NOT ILIKE"@,
        c->Simple_left == d->Simple_left,
        c->Simple_right == d->Simple_right,
    ensures
        filters_sql(c).1 == filters_sql(d).1,
        filters_sql(c).0 == position_sql(c->Simple_left).0 + " LIKE "@ + position_sql(c->Simple_right).0,
        filters_sql(d).0 == position_sql(c->Simple_left).0 + " NOT LIKE "@ + position_sql(c->Simple_right).0,
{
    reveal_strlit("ILIKE");
    reveal_strlit("NOT ILIKE");
    reveal_strlit("LIKE");
    reveal_strlit("NOT LIKE");
    reveal_strlit(" ");
    reveal_strlit(" LIKE ");
    reveal_strlit(" NOT LIKE ");
    reveal_strlit("IN");
    reveal_strlit("NOT IN");
    let l = position_sql(c->Simple_left).0;
    let r = position_sql(c->Simple_right).0;
    assert("NOT ILIKE"@.len() != "ILIKE"@.len());
    assert("NOT ILIKE"@ != "ILIKE"@);
    assert(sql_op("ILIKE"@) == "LIKE"@);
    assert(sql_op("NOT ILIKE"@) == "NOT LIKE"@);
    assert(" "@ + "LIKE"@ + " "@ =~= " LIKE "@);
    assert(" "@ + "NOT LIKE"@ + " "@ =~= " NOT LIKE "@);
    assert(l + " "@ + "LIKE"@ + " "@ + r =~= l + " LIKE "@ + r);
    assert(l + " "@ + "NOT LIKE"@ + " "@ + r =~= l + " NOT LIKE "@ + r);
}

} // verus!
