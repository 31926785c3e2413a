//! The debug text of a query condition, as error messages show it: field by
//! field, in the form `#[derive(Debug)]` gives, with strings and JSON
//! values in their own debug forms.
use vstd::prelude::*;

use crate::ast_to_config::{Ast, Condition, ConditionValue, CorrelatedSubquery, StartBound};
use crate::json::{JsonValue, JsonView};
use crate::text::{decimal, join, push_decimal};

verus! {

/// The debug text of a string (`<str as Debug>`): quoted, with escapes.
pub uninterp spec fn str_debug_text(s: Seq<char>) -> Seq<char>;

/// The debug text of a JSON value as serde_json's `Value` shows it
/// (`Null`, `Bool(..)`, `Number(..)`, `String(..)`, `Array [..]`,
/// `Object {..}`).
pub uninterp spec fn json_debug_text(v: JsonView) -> Seq<char>;

/// `format!("{:?}", s)` for a string slice: std's `Debug` of `str`, whose
/// text is named `str_debug_text`.
#[verifier::external_body]
fn str_debug(s: &str) -> (r: String)
    ensures
        r@ == str_debug_text(s@),
{
    format!("{:?}", s)
}

/// `format!("{:?}", value)` for the `serde_json::Value` a JSON value
/// converts to: serde_json's `Debug` of `Value`, whose text is named
/// `json_debug_text`.
#[verifier::external_body]
fn json_debug(v: &JsonValue) -> (r: String)
    ensures
        r@ == json_debug_text(v@),
{
    format!("{:?}", crate::json::to_serde_value(v))
}

pub open spec fn opt_text(o: Option<Seq<char>>) -> Seq<char> {
    match o {
        Some(t) => "Some("@ + t + ")"@,
        None => "None"@,
    }
}

pub open spec fn bool_text(b: bool) -> Seq<char> {
    if b {
        "true"@
    } else {
        "false"@
    }
}

pub open spec fn opt_bool_text(o: Option<bool>) -> Seq<char> {
    opt_text(
        match o {
            Some(b) => Some(bool_text(b)),
            None => None,
        },
    )
}

pub open spec fn opt_str_text(o: Option<String>) -> Seq<char> {
    opt_text(
        match o {
            Some(s) => Some(str_debug_text(s@)),
            None => None,
        },
    )
}

/// `[a, b, ..]` over the items' texts.
pub open spec fn list_text(items: Seq<Seq<char>>) -> Seq<char> {
    "["@ + join(items, ", "@) + "]"@
}

pub open spec fn strs_text(xs: Seq<String>) -> Seq<char> {
    list_text(xs.map_values(|s: String| str_debug_text(s@)))
}

pub open spec fn pair_text(p: (String, String)) -> Seq<char> {
    "("@ + str_debug_text(p.0@) + ", "@ + str_debug_text(p.1@) + ")"@
}

pub open spec fn pairs_text(xs: Seq<(String, String)>) -> Seq<char> {
    list_text(xs.map_values(|p: (String, String)| pair_text(p)))
}

pub open spec fn value_text(v: ConditionValue) -> Seq<char> {
    match v {
        ConditionValue::Literal { value } => "Literal { value: "@ + json_debug_text(value@) + " }"@,
        ConditionValue::Column { name } => "Column { name: "@ + str_debug_text(name@) + " }"@,
        ConditionValue::Static { anchor, field } => "Static { anchor: "@ + str_debug_text(anchor@) + ", field: "@
            + json_debug_text(field@) + " }"@,
    }
}

pub open spec fn start_text(s: StartBound) -> Seq<char> {
    "StartBound { row: "@ + json_debug_text(s.row@) + ", exclusive: "@ + bool_text(s.exclusive) + " }"@
}

/// The debug text of a condition.
pub open spec fn cond_text(c: Condition) -> Seq<char>
    decreases c,
{
    match c {
        Condition::Simple { op, left, right } => "Simple { op: "@ + str_debug_text(op@) + ", left: "@ + value_text(
            left,
        ) + ", right: "@ + value_text(right) + " }"@,
        Condition::And { conditions } => "And { conditions: ["@ + conds_text(conditions@) + "] }"@,
        Condition::Or { conditions } => "Or { conditions: ["@ + conds_text(conditions@) + "] }"@,
        Condition::CorrelatedSubquery { related, op, flip, scalar } => "CorrelatedSubquery { related: "@
            + csq_text(*related) + ", op: "@ + str_debug_text(op@) + ", flip: "@ + opt_bool_text(flip)
            + ", scalar: "@ + opt_bool_text(scalar) + " }"@,
    }
}

/// The debug texts of conditions, separated by `, `.
pub open spec fn conds_text(cs: Seq<Condition>) -> Seq<char>
    decreases cs,
{
    if cs.len() == 0 {
        Seq::empty()
    } else if cs.len() == 1 {
        cond_text(cs[0])
    } else {
        conds_text(cs.drop_last()) + ", "@ + cond_text(cs.last())
    }
}

/// The debug text of a correlated subquery.
pub open spec fn csq_text(r: CorrelatedSubquery) -> Seq<char>
    decreases r,
{
    "CorrelatedSubquery { correlation: Correlation { parent_field: "@ + strs_text(r.correlation.parent_field@)
        + ", child_field: "@ + strs_text(r.correlation.child_field@) + " }, subquery: "@ + ast_text(*r.subquery)
        + ", hidden: "@ + opt_bool_text(r.hidden) + ", system: "@ + opt_str_text(r.system) + " }"@
}

/// The debug texts of correlated subqueries, separated by `, `.
pub open spec fn csqs_text(rs: Seq<CorrelatedSubquery>) -> Seq<char>
    decreases rs,
{
    if rs.len() == 0 {
        Seq::empty()
    } else if rs.len() == 1 {
        csq_text(rs[0])
    } else {
        csqs_text(rs.drop_last()) + ", "@ + csq_text(rs.last())
    }
}

/// The debug text of an AST's condition field.
pub open spec fn where_text(w: Option<Box<Condition>>) -> Seq<char>
    decreases w,
{
    match w {
        Some(c) => "Some("@ + cond_text(*c) + ")"@,
        None => "None"@,
    }
}

/// The debug text of an AST's related subqueries.
pub open spec fn related_text(r: Option<Vec<CorrelatedSubquery>>) -> Seq<char>
    decreases r,
{
    match r {
        Some(rs) => "Some(["@ + csqs_text(rs@) + "])"@,
        None => "None"@,
    }
}

pub open spec fn limit_text(l: Option<usize>) -> Seq<char> {
    opt_text(
        match l {
            Some(n) => Some(decimal(n as nat)),
            None => None,
        },
    )
}

pub open spec fn order_text(o: Option<Vec<(String, String)>>) -> Seq<char> {
    opt_text(
        match o {
            Some(ps) => Some(pairs_text(ps@)),
            None => None,
        },
    )
}

pub open spec fn start_opt_text(o: Option<StartBound>) -> Seq<char> {
    opt_text(
        match o {
            Some(x) => Some(start_text(x)),
            None => None,
        },
    )
}

/// The debug text of a query AST.
pub open spec fn ast_text(a: Ast) -> Seq<char>
    decreases a,
{
    "Ast { table: "@ + str_debug_text(a.table@) + ", alias: "@ + opt_str_text(a.alias) + ", where_cond: "@
        + where_text(a.where_cond) + ", related: "@ + related_text(a.related) + ", limit: "@ + limit_text(
        a.limit,
    ) + ", order_by: "@ + order_text(a.order_by) + ", start: "@ + start_opt_text(a.start) + " }"@
}

fn push_limit(s: &mut String, l: Option<usize>)
    ensures
        final(s)@ == old(s)@ + limit_text(l),
{
    match l {
        Some(n) => {
            s.append("Some(");
            push_decimal(s, n as u64);
            s.append(")");
        },
        None => {
            s.append("None");
        },
    }
}

fn push_order(s: &mut String, o: &Option<Vec<(String, String)>>)
    ensures
        final(s)@ == old(s)@ + order_text(*o),
{
    match o {
        Some(ps) => {
            s.append("Some(");
            push_pairs(s, ps);
            s.append(")");
        },
        None => {
            s.append("None");
        },
    }
}

fn push_start(s: &mut String, o: &Option<StartBound>)
    ensures
        final(s)@ == old(s)@ + start_opt_text(*o),
{
    match o {
        Some(st) => {
            let ghost s0 = s@;
            s.append("Some(");
            s.append("StartBound { row: ");
            s.append(json_debug(&st.row).as_str());
            s.append(", exclusive: ");
            if st.exclusive {
                s.append("true");
            } else {
                s.append("false");
            }
            s.append(" }");
            s.append(")");
            assert(s@ =~= s0 + ("Some("@ + start_text(*st) + ")"@));
        },
        None => {
            s.append("None");
        },
    }
}

fn push_opt_bool(s: &mut String, o: &Option<bool>)
    ensures
        final(s)@ == old(s)@ + opt_bool_text(*o),
{
    match o {
        Some(b) => {
            s.append("Some(");
            if *b {
                s.append("true");
            } else {
                s.append("false");
            }
            s.append(")");
        },
        None => {
            s.append("None");
        },
    }
}

fn push_opt_str(s: &mut String, o: &Option<String>)
    ensures
        final(s)@ == old(s)@ + opt_str_text(*o),
{
    match o {
        Some(t) => {
            s.append("Some(");
            s.append(str_debug(t.as_str()).as_str());
            s.append(")");
        },
        None => {
            s.append("None");
        },
    }
}

fn push_strs(s: &mut String, xs: &Vec<String>)
    ensures
        final(s)@ == old(s)@ + strs_text(xs@),
{
    let ghost s0 = s@;
    let ghost items = xs@.map_values(|x: String| str_debug_text(x@));
    s.append("[");
    let mut i: usize = 0;
    assert(items.take(0) =~= Seq::<Seq<char>>::empty());
    while i < xs.len()
        invariant
            i <= xs@.len(),
            items == xs@.map_values(|x: String| str_debug_text(x@)),
            s@ == s0 + "["@ + join(items.take(i as int), ", "@),
        decreases xs@.len() - i,
    {
        if i > 0 {
            s.append(", ");
        }
        s.append(str_debug(xs[i].as_str()).as_str());
        assert(items.take(i + 1).drop_last() =~= items.take(i as int));
        assert(items.take(i + 1).last() == items[i as int]);
        i = i + 1;
    }
    assert(items.take(xs@.len() as int) =~= items);
    s.append("]");
}

fn push_pairs(s: &mut String, xs: &Vec<(String, String)>)
    ensures
        final(s)@ == old(s)@ + pairs_text(xs@),
{
    let ghost s0 = s@;
    let ghost items = xs@.map_values(|p: (String, String)| pair_text(p));
    s.append("[");
    let mut i: usize = 0;
    assert(items.take(0) =~= Seq::<Seq<char>>::empty());
    while i < xs.len()
        invariant
            i <= xs@.len(),
            items == xs@.map_values(|p: (String, String)| pair_text(p)),
            s@ == s0 + "["@ + join(items.take(i as int), ", "@),
        decreases xs@.len() - i,
    {
        if i > 0 {
            s.append(", ");
        }
        s.append("(");
        s.append(str_debug(xs[i].0.as_str()).as_str());
        s.append(", ");
        s.append(str_debug(xs[i].1.as_str()).as_str());
        s.append(")");
        assert(items.take(i + 1).drop_last() =~= items.take(i as int));
        assert(items.take(i + 1).last() == items[i as int]);
        i = i + 1;
    }
    assert(items.take(xs@.len() as int) =~= items);
    s.append("]");
}

fn push_value(s: &mut String, v: &ConditionValue)
    ensures
        final(s)@ == old(s)@ + value_text(*v),
{
    match v {
        ConditionValue::Literal { value } => {
            s.append("Literal { value: ");
            s.append(json_debug(value).as_str());
            s.append(" }");
        },
        ConditionValue::Column { name } => {
            s.append("Column { name: ");
            s.append(str_debug(name.as_str()).as_str());
            s.append(" }");
        },
        ConditionValue::Static { anchor, field } => {
            s.append("Static { anchor: ");
            s.append(str_debug(anchor.as_str()).as_str());
            s.append(", field: ");
            s.append(json_debug(field).as_str());
            s.append(" }");
        },
    }
}

/// Appends the debug text of a condition (`cond_text`).
pub fn push_cond(s: &mut String, c: &Condition)
    ensures
        final(s)@ == old(s)@ + cond_text(*c),
    decreases c,
{
    match c {
        Condition::Simple { op, left, right } => {
            s.append("Simple { op: ");
            s.append(str_debug(op.as_str()).as_str());
            s.append(", left: ");
            push_value(s, left);
            s.append(", right: ");
            push_value(s, right);
            s.append(" }");
        },
        Condition::And { conditions } => {
            proof {
                assert(decreases_to!(*c => c->And_conditions));
            }
            s.append("And { conditions: [");
            push_conds(s, conditions);
            s.append("] }");
        },
        Condition::Or { conditions } => {
            proof {
                assert(decreases_to!(*c => c->Or_conditions));
            }
            s.append("Or { conditions: [");
            push_conds(s, conditions);
            s.append("] }");
        },
        Condition::CorrelatedSubquery { related, op, flip, scalar } => {
            proof {
                assert(decreases_to!(*c => c->CorrelatedSubquery_related));
            }
            s.append("CorrelatedSubquery { related: ");
            push_csq(s, related);
            s.append(", op: ");
            s.append(str_debug(op.as_str()).as_str());
            s.append(", flip: ");
            push_opt_bool(s, flip);
            s.append(", scalar: ");
            push_opt_bool(s, scalar);
            s.append(" }");
        },
    }
}

fn push_conds(s: &mut String, cs: &Vec<Condition>)
    ensures
        final(s)@ == old(s)@ + conds_text(cs@),
    decreases cs,
{
    let ghost s0 = s@;
    let mut i: usize = 0;
    assert(cs@.take(0) =~= Seq::<Condition>::empty());
    while i < cs.len()
        invariant
            i <= cs@.len(),
            s@ == s0 + conds_text(cs@.take(i as int)),
        decreases cs@.len() - i,
    {
        proof {
            assert(decreases_to!(*cs => cs@));
            assert(decreases_to!(cs@ => cs@[i as int]));
        }
        assert(cs@.take(i + 1).drop_last() =~= cs@.take(i as int));
        assert(cs@.take(i + 1).last() == cs@[i as int]);
        if i > 0 {
            s.append(", ");
        }
        push_cond(s, &cs[i]);
        i = i + 1;
    }
    assert(cs@.take(cs@.len() as int) =~= cs@);
}

fn push_csq(s: &mut String, r: &CorrelatedSubquery)
    ensures
        final(s)@ == old(s)@ + csq_text(*r),
    decreases r,
{
    proof {
        assert(decreases_to!(*r => r.subquery));
    }
    s.append("CorrelatedSubquery { correlation: Correlation { parent_field: ");
    push_strs(s, &r.correlation.parent_field);
    s.append(", child_field: ");
    push_strs(s, &r.correlation.child_field);
    s.append(" }, subquery: ");
    push_ast(s, &r.subquery);
    s.append(", hidden: ");
    push_opt_bool(s, &r.hidden);
    s.append(", system: ");
    push_opt_str(s, &r.system);
    s.append(" }");
}

fn push_csqs(s: &mut String, rs: &Vec<CorrelatedSubquery>)
    ensures
        final(s)@ == old(s)@ + csqs_text(rs@),
    decreases rs,
{
    let ghost s0 = s@;
    let mut i: usize = 0;
    assert(rs@.take(0) =~= Seq::<CorrelatedSubquery>::empty());
    while i < rs.len()
        invariant
            i <= rs@.len(),
            s@ == s0 + csqs_text(rs@.take(i as int)),
        decreases rs@.len() - i,
    {
        proof {
            assert(decreases_to!(*rs => rs@));
            assert(decreases_to!(rs@ => rs@[i as int]));
        }
        assert(rs@.take(i + 1).drop_last() =~= rs@.take(i as int));
        assert(rs@.take(i + 1).last() == rs@[i as int]);
        if i > 0 {
            s.append(", ");
        }
        push_csq(s, &rs[i]);
        i = i + 1;
    }
    assert(rs@.take(rs@.len() as int) =~= rs@);
}

fn push_where(s: &mut String, w: &Option<Box<Condition>>)
    ensures
        final(s)@ == old(s)@ + where_text(*w),
    decreases w,
{
    match w {
        Some(c) => {
            proof {
                assert(decreases_to!(*w => w->0));
            }
            s.append("Some(");
            push_cond(s, c);
            s.append(")");
        },
        None => {
            s.append("None");
        },
    }
}

fn push_related(s: &mut String, r: &Option<Vec<CorrelatedSubquery>>)
    ensures
        final(s)@ == old(s)@ + related_text(*r),
    decreases r,
{
    match r {
        Some(rs) => {
            proof {
                assert(decreases_to!(*r => r->0));
            }
            s.append("Some([");
            push_csqs(s, rs);
            s.append("])");
        },
        None => {
            s.append("None");
        },
    }
}

fn push_ast(s: &mut String, a: &Ast)
    ensures
        final(s)@ == old(s)@ + ast_text(*a),
    decreases a,
{
    proof {
        assert(decreases_to!(*a => a.where_cond));
        assert(decreases_to!(*a => a.related));
    }
    let mut t = String::from_str("Ast { table: ");
    t.append(str_debug(a.table.as_str()).as_str());
    t.append(", alias: ");
    push_opt_str(&mut t, &a.alias);
    t.append(", where_cond: ");
    push_where(&mut t, &a.where_cond);
    t.append(", related: ");
    push_related(&mut t, &a.related);
    t.append(", limit: ");
    push_limit(&mut t, a.limit);
    t.append(", order_by: ");
    push_order(&mut t, &a.order_by);
    t.append(", start: ");
    push_start(&mut t, &a.start);
    t.append(" }");
    assert(t@ == ast_text(*a));
    s.append(t.as_str());
}

/// `prefix` followed by the debug text of `cond`.
pub fn with_condition_text(prefix: &str, cond: &Condition) -> (r: String)
    ensures
        r@ == prefix@ + cond_text(*cond),
{
    let mut s = String::from_str(prefix);
    push_cond(&mut s, cond);
    s
}

} // verus!
