//! Translates a query AST into the operator configurations of a pipeline.
use vstd::prelude::*;

use std::cmp::Ordering;

use crate::json::{
    ix, jobj1, jobj2, json_eq, json_equal, json_text, make_array, make_obj1,
    make_obj2, make_str, str_eq, to_json_string, JsonValue, JsonView,
};
use crate::json::{assoc_find, assoc_get, assoc_insert, assoc_put, lemma_assoc_get_put};
use crate::condition_text::with_condition_text;
use crate::operators::{ExistsBranch, OperatorConfig};
use crate::source::{char_seq_order, int_order};
use crate::text::{copy_strings, quoted, views};

verus! {

// --- Query AST ---

pub struct HydrateQuery {
    pub query_id: String,
    pub ast: Ast,
    pub primary_key: Vec<String>,
    /// Table name to (column name to value type); when present only these
    /// columns are output, with type coercion.
    pub column_types: Option<Vec<(String, Vec<(String, String)>)>>,
    /// Table name to primary-key columns, from the client's schema.
    pub all_primary_keys: Option<Vec<(String, Vec<String>)>>,
}

#[derive(Debug)]
pub struct Ast {
    pub table: String,
    pub alias: Option<String>,
    pub where_cond: Option<Box<Condition>>,
    pub related: Option<Vec<CorrelatedSubquery>>,
    pub limit: Option<usize>,
    pub order_by: Option<Vec<(String, String)>>,
    pub start: Option<StartBound>,
}

#[derive(Debug)]
pub struct StartBound {
    pub row: JsonValue,
    pub exclusive: bool,
}

#[derive(Debug)]
pub struct CorrelatedSubquery {
    pub correlation: Correlation,
    pub subquery: Box<Ast>,
    pub hidden: Option<bool>,
    pub system: Option<String>,
}

#[derive(Debug)]
pub struct Correlation {
    pub parent_field: Vec<String>,
    pub child_field: Vec<String>,
}

#[derive(Debug)]
pub enum Condition {
    Simple { op: String, left: ConditionValue, right: ConditionValue },
    And { conditions: Vec<Condition> },
    Or { conditions: Vec<Condition> },
    CorrelatedSubquery {
        related: Box<CorrelatedSubquery>,
        op: String,
        flip: Option<bool>,
        scalar: Option<bool>,
    },
}

#[derive(Debug)]
pub enum ConditionValue {
    Literal { value: JsonValue },
    Column { name: String },
    Static { anchor: String, field: JsonValue },
}

// --- Filter predicates ---

/// The predicate that always holds: `{"and": []}`.
pub open spec fn always_true() -> JsonView {
    jobj1("and"@, JsonView::Array(Seq::empty()))
}

/// The predicate that never holds: `{"or": []}`.
pub open spec fn always_false() -> JsonView {
    jobj1("or"@, JsonView::Array(Seq::empty()))
}

fn make_always(b: bool) -> (r: JsonValue)
    ensures
        r@ == if b {
            always_true()
        } else {
            always_false()
        },
{
    let empty = make_array(Vec::new());
    assert(Seq::<JsonValue>::empty().map_values(|x: JsonValue| x@) =~= Seq::<JsonView>::empty());
    if b {
        make_obj1("and", empty)
    } else {
        make_obj1("or", empty)
    }
}

/// The value of the right side of a simple condition, which must be a
/// literal.
pub open spec fn literal_of(cv: ConditionValue) -> Result<JsonView, Seq<char>> {
    match cv {
        ConditionValue::Literal { value } => Ok(value@),
        ConditionValue::Column { name } => Err(
            "Column reference '"@ + name@ + "' on right side not supported in hydration filters"@,
        ),
        ConditionValue::Static { anchor, field } => Err(
            "Unresolved static parameter (anchor="@ + anchor@ + ", field="@ + json_text(field@)
                + ") in hydration"@,
        ),
    }
}

fn extract_literal_value(cv: &ConditionValue) -> (r: Result<JsonValue, String>)
    ensures
        match (r, literal_of(*cv)) {
            (Ok(v), Ok(w)) => v@ == w,
            (Err(e), Err(m)) => e@ == m,
            _ => false,
        },
{
    match cv {
        ConditionValue::Literal { value } => Ok(value.duplicate()),
        ConditionValue::Column { name } => {
            let mut m = String::from_str("Column reference '");
            m.append(name.as_str());
            m.append("' on right side not supported in hydration filters");
            Err(m)
        },
        ConditionValue::Static { anchor, field } => {
            let mut m = String::from_str("Unresolved static parameter (anchor=");
            m.append(anchor.as_str());
            m.append(", field=");
            let t = to_json_string(field);
            m.append(t.as_str());
            m.append(") in hydration");
            Err(m)
        },
    }
}

/// Order of two literals: numbers as floats, strings lexicographically,
/// anything else equal.
pub open spec fn literal_order(a: JsonView, b: JsonView) -> Ordering {
    match (a, b) {
        (JsonView::Number(x), JsonView::Number(y)) => int_order(x.order_key(), y.order_key()),
        (JsonView::Str(x), JsonView::Str(y)) => char_seq_order(x, y),
        _ => Ordering::Equal,
    }
}

fn json_cmp(a: &JsonValue, b: &JsonValue) -> (r: Ordering)
    ensures
        r == literal_order(a@, b@),
{
    match (a, b) {
        (JsonValue::Number(_), JsonValue::Number(_)) => crate::source::compare_json_values(a, b),
        (JsonValue::String(_), JsonValue::String(_)) => crate::source::compare_json_values(a, b),
        _ => Ordering::Equal,
    }
}

/// Whether a comparison of two literals holds, `None` for an operator that
/// cannot compare literals.
pub open spec fn literal_comparison(op: Seq<char>, l: JsonView, r: JsonView) -> Option<bool> {
    if op == "="@ || op == "IS"@ {
        Some(json_equal(l, r))
    } else if op == "!="@ || op == "IS NOT"@ {
        Some(!json_equal(l, r))
    } else if op == "<"@ {
        Some(literal_order(l, r) == Ordering::Less)
    } else if op == "<="@ {
        Some(literal_order(l, r) != Ordering::Greater)
    } else if op == ">"@ {
        Some(literal_order(l, r) == Ordering::Greater)
    } else if op == ">="@ {
        Some(literal_order(l, r) != Ordering::Less)
    } else {
        None
    }
}

fn literal_comparison_exec(op: &str, l: &JsonValue, r: &JsonValue) -> (res: Option<bool>)
    ensures
        res == literal_comparison(op@, l@, r@),
{
    if str_eq(op, "=") || str_eq(op, "IS") {
        Some(json_eq(l, r))
    } else if str_eq(op, "!=") || str_eq(op, "IS NOT") {
        Some(!json_eq(l, r))
    } else if str_eq(op, "<") {
        Some(match json_cmp(l, r) {
            Ordering::Less => true,
            _ => false,
        })
    } else if str_eq(op, "<=") {
        Some(match json_cmp(l, r) {
            Ordering::Greater => false,
            _ => true,
        })
    } else if str_eq(op, ">") {
        Some(match json_cmp(l, r) {
            Ordering::Greater => true,
            _ => false,
        })
    } else if str_eq(op, ">=") {
        Some(match json_cmp(l, r) {
            Ordering::Less => false,
            _ => true,
        })
    } else {
        None
    }
}

/// The predicate operators a simple condition's operator maps to.
#[derive(PartialEq, Eq, Structural, Clone, Copy, Debug)]
pub enum PredicateOp {
    Eq,
    Neq,
    Gt,
    Gte,
    Lt,
    Lte,
    Like,
    ILike,
    In,
}

pub open spec fn predicate_op(op: Seq<char>) -> Option<PredicateOp> {
    if op == "="@ || op == "IS"@ {
        Some(PredicateOp::Eq)
    } else if op == "!="@ || op == "IS NOT"@ {
        Some(PredicateOp::Neq)
    } else if op == ">"@ {
        Some(PredicateOp::Gt)
    } else if op == ">="@ {
        Some(PredicateOp::Gte)
    } else if op == "<"@ {
        Some(PredicateOp::Lt)
    } else if op == "<="@ {
        Some(PredicateOp::Lte)
    } else if op == "LIKE"@ || op == "NOT LIKE"@ {
        Some(PredicateOp::Like)
    } else if op == "ILIKE"@ || op == "NOT ILIKE"@ {
        Some(PredicateOp::ILike)
    } else if op == "IN"@ || op == "NOT IN"@ {
        Some(PredicateOp::In)
    } else {
        None
    }
}

/// The predicate's key for an operator.
pub open spec fn predicate_key(k: PredicateOp) -> Seq<char> {
    match k {
        PredicateOp::Eq => "eq"@,
        PredicateOp::Neq => "neq"@,
        PredicateOp::Gt => "gt"@,
        PredicateOp::Gte => "gte"@,
        PredicateOp::Lt => "lt"@,
        PredicateOp::Lte => "lte"@,
        PredicateOp::Like => "like"@,
        PredicateOp::ILike => "ilike"@,
        PredicateOp::In => "in"@,
    }
}

fn predicate_op_exec(op: &str) -> (r: Option<PredicateOp>)
    ensures
        r == predicate_op(op@),
{
    if str_eq(op, "=") || str_eq(op, "IS") {
        Some(PredicateOp::Eq)
    } else if str_eq(op, "!=") || str_eq(op, "IS NOT") {
        Some(PredicateOp::Neq)
    } else if str_eq(op, ">") {
        Some(PredicateOp::Gt)
    } else if str_eq(op, ">=") {
        Some(PredicateOp::Gte)
    } else if str_eq(op, "<") {
        Some(PredicateOp::Lt)
    } else if str_eq(op, "<=") {
        Some(PredicateOp::Lte)
    } else if str_eq(op, "LIKE") || str_eq(op, "NOT LIKE") {
        Some(PredicateOp::Like)
    } else if str_eq(op, "ILIKE") || str_eq(op, "NOT ILIKE") {
        Some(PredicateOp::ILike)
    } else if str_eq(op, "IN") || str_eq(op, "NOT IN") {
        Some(PredicateOp::In)
    } else {
        None
    }
}

fn predicate_key_exec(k: PredicateOp) -> (r: &'static str)
    ensures
        r@ == predicate_key(k),
{
    match k {
        PredicateOp::Eq => "eq",
        PredicateOp::Neq => "neq",
        PredicateOp::Gt => "gt",
        PredicateOp::Gte => "gte",
        PredicateOp::Lt => "lt",
        PredicateOp::Lte => "lte",
        PredicateOp::Like => "like",
        PredicateOp::ILike => "ilike",
        PredicateOp::In => "in",
    }
}

/// The predicate for a column compared with a literal value.
pub open spec fn field_predicate(op: Seq<char>, field: Seq<char>, value: JsonView) -> Result<JsonView, Seq<char>> {
    match predicate_op(op) {
        None => Err("Unsupported operator: "@ + op),
        Some(k) => {
            let f = JsonView::Str(field);
            if k == PredicateOp::In {
                let arr = match value {
                    JsonView::Array(a) => a,
                    _ => seq![value],
                };
                if arr.len() == 0 {
                    Ok(
                        if op == "NOT IN"@ {
                            always_true()
                        } else {
                            always_false()
                        },
                    )
                } else if op == "NOT IN"@ {
                    Ok(jobj1("not"@, jobj2("field"@, f, "in"@, JsonView::Array(arr))))
                } else {
                    Ok(jobj2("field"@, f, "in"@, JsonView::Array(arr)))
                }
            } else if k == PredicateOp::Like || k == PredicateOp::ILike {
                let pattern = match value {
                    JsonView::Str(s) => s,
                    _ => Seq::empty(),
                };
                let p = jobj2("field"@, f, predicate_key(k), JsonView::Str(pattern));
                if op == "NOT LIKE"@ || op == "NOT ILIKE"@ {
                    Ok(jobj1("not"@, p))
                } else {
                    Ok(p)
                }
            } else if value is Null {
                Ok(
                    jobj2(
                        "field"@,
                        f,
                        if k == PredicateOp::Eq {
                            "isNull"@
                        } else {
                            "isNotNull"@
                        },
                        JsonView::Bool(true),
                    ),
                )
            } else {
                Ok(jobj2("field"@, f, predicate_key(k), value))
            }
        },
    }
}

/// The predicate for a simple condition.
pub open spec fn simple_predicate(op: Seq<char>, left: ConditionValue, right: ConditionValue) -> Result<
    JsonView,
    Seq<char>,
> {
    match left {
        ConditionValue::Column { name } => match literal_of(right) {
            Err(e) => Err(e),
            Ok(value) => field_predicate(op, name@, value),
        },
        ConditionValue::Literal { value } => match literal_of(right) {
            Err(e) => Err(e),
            Ok(rv) => match literal_comparison(op, value@, rv) {
                Some(b) => Ok(
                    if b {
                        always_true()
                    } else {
                        always_false()
                    },
                ),
                None => Err("Unsupported literal-literal comparison with op: "@ + op),
            },
        },
        ConditionValue::Static { .. } => Err(
            "Filter left side must be a column or literal reference"@,
        ),
    }
}

/// The filter predicate of a condition tree; an error for a correlated
/// subquery (those become existence checks) and for what a filter cannot
/// express. `and`/`or` report the first error of their conditions.
pub open spec fn predicate_of(c: Condition) -> Result<JsonView, Seq<char>>
    decreases c,
{
    match c {
        Condition::Simple { op, left, right } => simple_predicate(op@, left, right),
        Condition::And { conditions } => match predicates_of(conditions@) {
            Ok(ps) => Ok(jobj1("and"@, JsonView::Array(ps))),
            Err(e) => Err(e),
        },
        Condition::Or { conditions } => match predicates_of(conditions@) {
            Ok(ps) => Ok(jobj1("or"@, JsonView::Array(ps))),
            Err(e) => Err(e),
        },
        Condition::CorrelatedSubquery { .. } => Err(
            "CorrelatedSubquery should be handled as Exists, not Filter"@,
        ),
    }
}

pub open spec fn predicates_of(cs: Seq<Condition>) -> Result<Seq<JsonView>, Seq<char>>
    decreases cs,
{
    if cs.len() == 0 {
        Ok(Seq::empty())
    } else {
        match predicate_of(cs[0]) {
            Err(e) => Err(e),
            Ok(p) => match predicates_of(cs.drop_first()) {
                Ok(ps) => Ok(seq![p] + ps),
                Err(e) => Err(e),
            },
        }
    }
}

/// A result's value matches a spec result.
pub open spec fn result_matches(r: Result<JsonValue, String>, s: Result<JsonView, Seq<char>>) -> bool {
    match (r, s) {
        (Ok(v), Ok(w)) => v@ == w,
        (Err(e), Err(m)) => e@ == m,
        _ => false,
    }
}

fn field_predicate_exec(op: &str, field: &str, value: JsonValue) -> (r: Result<JsonValue, String>)
    ensures
        result_matches(r, field_predicate(op@, field@, value@)),
{
    let k = match predicate_op_exec(op) {
        None => {
            let mut m = String::from_str("Unsupported operator: ");
            m.append(op);
            return Err(m);
        },
        Some(k) => k,
    };
    match k {
        PredicateOp::In => {
            let ghost vv = value@;
            let arr: Vec<JsonValue> = match value {
                JsonValue::Array(a) => a,
                other => vec![other],
            };
            let ghost arr_view = arr@.map_values(|x: JsonValue| x@);
            proof {
                crate::json::lemma_json_views(arr@);
                assert(crate::json::json_views(arr@) =~= arr_view);
                assert(arr_view =~= match vv {
                    JsonView::Array(a) => a,
                    _ => seq![vv],
                });
            }
            if arr.len() == 0 {
                return Ok(make_always(str_eq(op, "NOT IN")));
            }
            let not_in = str_eq(op, "NOT IN");
            let inner = make_obj2("field", make_str(field), "in", make_array(arr));
            if not_in {
                Ok(make_obj1("not", inner))
            } else {
                Ok(inner)
            }
        },
        PredicateOp::Like | PredicateOp::ILike => {
            let pattern = match &value {
                JsonValue::String(s) => make_str(s.as_str()),
                _ => JsonValue::String(String::new()),
            };
            let p = make_obj2("field", make_str(field), predicate_key_exec(k), pattern);
            if str_eq(op, "NOT LIKE") || str_eq(op, "NOT ILIKE") {
                Ok(make_obj1("not", p))
            } else {
                Ok(p)
            }
        },
        _ => {
            if value.is_null() {
                let key = match k {
                    PredicateOp::Eq => "isNull",
                    _ => "isNotNull",
                };
                Ok(make_obj2("field", make_str(field), key, JsonValue::Bool(true)))
            } else {
                Ok(make_obj2("field", make_str(field), predicate_key_exec(k), value))
            }
        },
    }
}

fn simple_predicate_exec(op: &String, left: &ConditionValue, right: &ConditionValue) -> (r: Result<
    JsonValue,
    String,
>)
    ensures
        result_matches(r, simple_predicate(op@, *left, *right)),
{
    match left {
        ConditionValue::Column { name } => match extract_literal_value(right) {
            Err(e) => Err(e),
            Ok(value) => field_predicate_exec(op.as_str(), name.as_str(), value),
        },
        ConditionValue::Literal { value } => match extract_literal_value(right) {
            Err(e) => Err(e),
            Ok(rv) => match literal_comparison_exec(op.as_str(), value, &rv) {
                Some(b) => Ok(make_always(b)),
                None => {
                    let mut m = String::from_str("Unsupported literal-literal comparison with op: ");
                    m.append(op.as_str());
                    Err(m)
                },
            },
        },
        ConditionValue::Static { .. } => Err(
            String::from_str("Filter left side must be a column or literal reference"),
        ),
    }
}

/// Translates a condition tree into a filter predicate.
pub fn condition_to_predicate_json(cond: &Condition) -> (r: Result<JsonValue, String>)
    ensures
        result_matches(r, predicate_of(*cond)),
    decreases cond,
{
    match cond {
        Condition::Simple { op, left, right } => simple_predicate_exec(op, left, right),
        Condition::And { conditions } => {
            proof {
                assert(decreases_to!(*cond => cond->And_conditions));
            }
            match predicates_exec(conditions) {
                Ok(ps) => Ok(make_obj1("and", make_array(ps))),
                Err(e) => Err(e),
            }
        },
        Condition::Or { conditions } => {
            proof {
                assert(decreases_to!(*cond => cond->Or_conditions));
            }
            match predicates_exec(conditions) {
                Ok(ps) => Ok(make_obj1("or", make_array(ps))),
                Err(e) => Err(e),
            }
        },
        Condition::CorrelatedSubquery { .. } => Err(
            String::from_str("CorrelatedSubquery should be handled as Exists, not Filter"),
        ),
    }
}

fn predicates_exec(cs: &Vec<Condition>) -> (r: Result<Vec<JsonValue>, String>)
    ensures
        match (r, predicates_of(cs@)) {
            (Ok(v), Ok(w)) => v@.map_values(|x: JsonValue| x@) == w,
            (Err(e), Err(m)) => e@ == m,
            _ => false,
        },
    decreases cs,
{
    let mut out: Vec<JsonValue> = Vec::new();
    let mut i: usize = 0;
    assert(cs@.skip(0) =~= cs@);
    while i < cs.len()
        invariant
            i <= cs@.len(),
            predicates_of(cs@) == match predicates_of(cs@.skip(ix(i))) {
                Ok(ps) => Ok(out@.map_values(|x: JsonValue| x@) + ps),
                Err(e) => Err(e),
            },
        decreases cs@.len() - i,
    {
        assert(cs@.skip(ix(i)).drop_first() =~= cs@.skip(ix(i) + 1));
        assert(cs@.skip(ix(i))[0] == cs@[ix(i)]);
        proof {
            assert(decreases_to!(*cs => cs@));
            assert(decreases_to!(cs@ => cs@[ix(i)]));
        }
        let ghost before = out@.map_values(|x: JsonValue| x@);
        match condition_to_predicate_json(&cs[i]) {
            Err(e) => {
                return Err(e);
            },
            Ok(p) => {
                out.push(p);
                assert(out@.map_values(|x: JsonValue| x@) =~= before.push(p@));
                proof {
                    match predicates_of(cs@.skip(ix(i) + 1)) {
                        Ok(ps) => {
                            assert(before + (seq![p@] + ps) =~= before.push(p@) + ps);
                        },
                        Err(_) => {},
                    }
                }
            },
        }
        i = i + 1;
    }
    proof {
        assert(cs@.skip(ix(i)) =~= Seq::<Condition>::empty());
        assert(out@.map_values(|x: JsonValue| x@) + Seq::<JsonView>::empty() =~= out@.map_values(|x: JsonValue| x@));
    }
    Ok(out)
}


// --- Column introspection ---

/// Table name to a list of column names, as the cache holds it.
pub open spec fn table_map(m: Seq<(String, Vec<String>)>) -> Map<Seq<char>, Seq<Seq<char>>> {
    Map::new(
        |k: Seq<char>| assoc_get(m, k) is Some,
        |k: Seq<char>| views(assoc_get(m, k)->Some_0@),
    )
}

proof fn lemma_table_map_put(m: Seq<(String, Vec<String>)>, k: String, v: Vec<String>)
    ensures
        table_map(assoc_put(m, k, v)) == table_map(m).insert(k@, views(v@)),
{
    assert forall|u: Seq<char>| #[trigger] assoc_get(assoc_put(m, k, v), u) == if u == k@ {
        Some(v)
    } else {
        assoc_get(m, u)
    } by {
        lemma_assoc_get_put(m, k, v, u);
    }
    assert(table_map(assoc_put(m, k, v)) =~= table_map(m).insert(k@, views(v@)));
}

/// What a schema cache knows: the columns and primary key of each table it
/// has read or been given, and the database it reads from.
pub struct SchemaCacheView {
    pub columns: Map<Seq<char>, Seq<Seq<char>>>,
    pub primary_keys: Map<Seq<char>, Seq<Seq<char>>>,
    pub db_path: Seq<char>,
}

/// Columns and primary keys of tables, read from the database on first use.
pub struct SchemaCache {
    columns: Vec<(String, Vec<String>)>,
    primary_keys: Vec<(String, Vec<String>)>,
    db_path: String,
}

impl View for SchemaCache {
    type V = SchemaCacheView;

    closed spec fn view(&self) -> SchemaCacheView {
        SchemaCacheView {
            columns: table_map(self.columns@),
            primary_keys: table_map(self.primary_keys@),
            db_path: self.db_path@,
        }
    }
}

/// The column names of a `table_info` listing (name, primary key index), in
/// order.
pub open spec fn column_names(rows: Seq<(String, i32)>) -> Seq<Seq<char>> {
    rows.map_values(|r: (String, i32)| r.0@)
}

/// Inserts `x` after every entry whose index is not greater than its own.
pub open spec fn insert_by_index(s: Seq<(i32, String)>, x: (i32, String)) -> Seq<(i32, String)>
    decreases s.len(),
{
    if s.len() == 0 {
        seq![x]
    } else if x.0 < s.last().0 {
        insert_by_index(s.drop_last(), x).push(s.last())
    } else {
        s.push(x)
    }
}

/// The columns of a `table_info` listing with a positive primary key index,
/// with their index, ordered by index (columns with equal indexes in listing
/// order).
pub open spec fn pk_entries(rows: Seq<(String, i32)>) -> Seq<(i32, String)>
    decreases rows.len(),
{
    if rows.len() == 0 {
        Seq::empty()
    } else {
        let rest = pk_entries(rows.drop_last());
        if rows.last().1 > 0 {
            insert_by_index(rest, (rows.last().1, rows.last().0))
        } else {
            rest
        }
    }
}

/// The primary key columns of a `table_info` listing, in key order.
pub open spec fn pk_columns(rows: Seq<(String, i32)>) -> Seq<Seq<char>> {
    pk_entries(rows).map_values(|e: (i32, String)| e.1@)
}

proof fn lemma_insert_at(s: Seq<(i32, String)>, x: (i32, String), j: int)
    requires
        0 <= j <= s.len(),
        forall|k: int| j <= k < s.len() ==> x.0 < (#[trigger] s[k]).0,
        j == 0 || !(x.0 < s[j - 1].0),
    ensures
        insert_by_index(s, x) == s.insert(j, x),
    decreases s.len(),
{
    if s.len() == j {
        assert(s.insert(j, x) =~= s.push(x));
        if s.len() == 0 {
            assert(s.insert(j, x) =~= seq![x]);
        }
    } else {
        let d = s.drop_last();
        assert forall|k: int| j <= k < d.len() implies x.0 < (#[trigger] d[k]).0 by {
            assert(d[k] == s[k]);
        }
        lemma_insert_at(d, x, j);
        assert(d.insert(j, x).push(s.last()) =~= s.insert(j, x));
    }
}

fn insert_by_index_exec(s: &mut Vec<(i32, String)>, x: (i32, String))
    ensures
        final(s)@ == insert_by_index(old(s)@, x),
{
    let mut j: usize = s.len();
    while j > 0 && x.0 < s[j - 1].0
        invariant
            j <= s@.len(),
            s@ == old(s)@,
            forall|k: int| j <= k < s@.len() ==> x.0 < (#[trigger] s@[k]).0,
        decreases j,
    {
        j = j - 1;
    }
    proof {
        lemma_insert_at(s@, x, j as int);
    }
    s.insert(j, x);
}

/// The columns and primary key a `table_info` listing gives.
pub fn table_info_from_listing(rows: &Vec<(String, i32)>) -> (r: (Vec<String>, Vec<String>))
    ensures
        views(r.0@) == column_names(rows@),
        views(r.1@) == pk_columns(rows@),
{
    let mut cols: Vec<String> = Vec::new();
    let mut pk: Vec<(i32, String)> = Vec::new();
    let mut i: usize = 0;
    while i < rows.len()
        invariant
            i <= rows@.len(),
            views(cols@) =~= column_names(rows@.take(i as int)),
            pk@ == pk_entries(rows@.take(i as int)),
        decreases rows@.len() - i,
    {
        assert(rows@.take(i + 1).drop_last() =~= rows@.take(i as int));
        let name = rows[i].0.clone();
        let ghost before = cols@;
        cols.push(rows[i].0.clone());
        assert(views(cols@) =~= views(before).push(name@));
        assert(column_names(rows@.take(i + 1)) =~= column_names(rows@.take(i as int)).push(name@));
        if rows[i].1 > 0 {
            insert_by_index_exec(&mut pk, (rows[i].1, name));
        }
        i = i + 1;
    }
    assert(rows@.take(rows@.len() as int) =~= rows@);
    let mut names: Vec<String> = Vec::new();
    let mut k: usize = 0;
    while k < pk.len()
        invariant
            k <= pk@.len(),
            pk@ == pk_entries(rows@),
            views(names@) =~= pk_columns(rows@).take(k as int),
        decreases pk@.len() - k,
    {
        let ghost before = names@;
        let n = pk[k].1.clone();
        names.push(n);
        assert(views(names@) =~= views(before).push(pk@[k as int].1@));
        assert(pk_columns(rows@).take(k + 1) =~= pk_columns(rows@).take(k as int).push(pk@[k as int].1@));
        k = k + 1;
    }
    assert(pk_columns(rows@).take(pk@.len() as int) =~= pk_columns(rows@));
    (cols, names)
}

/// `PRAGMA table_info("{table}")`.
pub open spec fn table_info_sql(table: Seq<char>) -> Seq<char> {
    "PRAGMA table_info("@ + quoted(table) + ")"@
}

fn build_table_info_sql(table: &str) -> (r: String)
    ensures
        r@ == table_info_sql(table@),
{
    let mut s = String::from_str("PRAGMA table_info(");
    let q = crate::text::quote(table);
    s.append(q.as_str());
    s.append(")");
    s
}

/// Opens the database at `db_path` with `rusqlite::Connection::open` and runs
/// `sql` (a `PRAGMA table_info`) through `prepare` and `query_map`, reading
/// each line's column name (column 1, text) and primary key index (column 5,
/// an `i32`). An error carries rusqlite's message after the step that failed.
/// What comes back depends on the file, so nothing is stated of it.
#[verifier::external_body]
fn read_table_info(db_path: &str, sql: &str) -> Result<Vec<(String, i32)>, String> {
    let conn = rusqlite::Connection::open(db_path).map_err(|e| format!("Failed to open db: {e}"))?;
    let mut stmt = conn.prepare(sql).map_err(|e| format!("PRAGMA table_info failed: {e}"))?;
    let rows = stmt.query_map([], |row| Ok((row.get::<_, String>(1)?, row.get::<_, i32>(5)?))).map_err(
        |e| format!("query_map failed: {e}"),
    )?;
    rows.map(|r| r.map_err(|e| format!("row error: {e}"))).collect()
}

/// The outcome of a table listing as the database returned it.
pub open spec fn read_view(read: Result<Vec<(String, i32)>, String>) -> Result<Seq<(String, i32)>, Seq<char>> {
    match read {
        Ok(rows) => Ok(rows@),
        Err(e) => Err(e@),
    }
}

/// What a table listing gives: its error where reading failed; `Table
/// '{table}' not found or has no columns` for an empty listing; else the
/// table's column names and primary key.
pub open spec fn listing_info(table: Seq<char>, read: Result<Seq<(String, i32)>, Seq<char>>) -> Result<
    (Seq<Seq<char>>, Seq<Seq<char>>),
    Seq<char>,
> {
    match read {
        Err(e) => Err(e),
        Ok(rows) => if rows.len() == 0 {
            Err("Table '"@ + table + "' not found or has no columns"@)
        } else {
            Ok((column_names(rows), pk_columns(rows)))
        },
    }
}

/// The columns and primary key that a table listing, as read, gives.
pub fn table_info_from_read(table_name: &str, read: Result<Vec<(String, i32)>, String>) -> (r: Result<
    (Vec<String>, Vec<String>),
    String,
>)
    ensures
        match listing_info(table_name@, read_view(read)) {
            Ok((cols, pk)) => r matches Ok(x) && views(x.0@) == cols && views(x.1@) == pk,
            Err(e) => r matches Err(m) && m@ == e,
        },
{
    let rows = match read {
        Ok(rows) => rows,
        Err(e) => {
            return Err(e);
        },
    };
    if rows.len() == 0 {
        let mut m = String::from_str("Table '");
        m.append(table_name);
        m.append("' not found or has no columns");
        return Err(m);
    }
    Ok(table_info_from_listing(&rows))
}

/// The primary keys after caching a table's listing: a key the table
/// already has (seeded from the client's schema) is kept, else the
/// listing's key is taken.
pub open spec fn keys_after_listing(
    pks: Map<Seq<char>, Seq<Seq<char>>>,
    table: Seq<char>,
    pk: Seq<Seq<char>>,
) -> Map<Seq<char>, Seq<Seq<char>>> {
    if pks.contains_key(table) {
        pks
    } else {
        pks.insert(table, pk)
    }
}

impl SchemaCache {
    /// Every table whose columns are cached has its primary key cached.
    pub closed spec fn wf(self) -> bool {
        forall|t: Seq<char>|
            #[trigger] assoc_get(self.columns@, t) is Some ==> assoc_get(self.primary_keys@, t) is Some
    }

    /// A table whose columns are cached has its primary key cached.
    proof fn lemma_cached_keys(self)
        requires
            self.wf(),
        ensures
            forall|t: Seq<char>| #[trigger] self@.columns.contains_key(t) ==> self@.primary_keys.contains_key(t),
    {
    }

    /// An empty cache reading from `db_path`.
    pub fn new(db_path: &str) -> (s: SchemaCache)
        ensures
            s.wf(),
            s@.columns == Map::<Seq<char>, Seq<Seq<char>>>::empty(),
            s@.primary_keys == Map::<Seq<char>, Seq<Seq<char>>>::empty(),
            s@.db_path == db_path@,
    {
        let s = SchemaCache { columns: Vec::new(), primary_keys: Vec::new(), db_path: db_path.to_string() };
        assert(table_map(s.columns@) =~= Map::<Seq<char>, Seq<Seq<char>>>::empty());
        assert(table_map(s.primary_keys@) =~= Map::<Seq<char>, Seq<Seq<char>>>::empty());
        s
    }

    /// Reads the table's columns and primary key (`PRAGMA table_info`)
    /// unless its columns are cached; a table with no columns is refused.
    fn ensure_table_info(&mut self, table_name: &str) -> (r: Result<(), String>)
        requires
            old(self).wf(),
        ensures
            final(self).wf(),
            final(self)@.db_path == old(self)@.db_path,
            old(self)@.columns.submap_of(final(self)@.columns),
            old(self)@.columns.contains_key(table_name@) ==> (r is Ok && final(self)@ == old(self)@),
            !old(self)@.columns.contains_key(table_name@) ==> exists|read: Result<Seq<(String, i32)>, Seq<char>>|
                match #[trigger] listing_info(table_name@, read) {
                    Ok((cols, pk)) => r is Ok && final(self)@.columns == old(self)@.columns.insert(
                        table_name@,
                        cols,
                    ) && final(self)@.primary_keys == keys_after_listing(
                        old(self)@.primary_keys,
                        table_name@,
                        pk,
                    ),
                    Err(e) => r matches Err(m) && m@ == e && final(self)@ == old(self)@,
                },
            old(self)@.columns.contains_key(table_name@) || r is Ok ==> final(self)@.columns.contains_key(table_name@) && final(self)@.primary_keys.contains_key(table_name@),
    {
        if assoc_find(&self.columns, table_name).is_some() {
            return Ok(());
        }
        let sql = build_table_info_sql(table_name);
        let read = read_table_info(self.db_path.as_str(), sql.as_str());
        let ghost rv = read_view(read);
        let (cols, pk) = match table_info_from_read(table_name, read) {
            Ok(x) => x,
            Err(e) => {
                assert(listing_info(table_name@, rv) is Err);
                return Err(e);
            },
        };
        let ghost old_cols = self.columns@;
        let ghost old_pks = self.primary_keys@;
        let ghost pkv = pk;
        let ghost colv = cols;
        let k2 = table_name.to_string();
        let ghost g2 = k2;
        if assoc_find(&self.primary_keys, table_name).is_none() {
            let k1 = table_name.to_string();
            let ghost g1 = k1;
            assoc_insert(&mut self.primary_keys, k1, pk);
            proof {
                lemma_table_map_put(old_pks, g1, pkv);
                assert forall|u: Seq<char>| #[trigger] assoc_get(old_pks, u) is Some implies assoc_get(self.primary_keys@, u) is Some by {
                    lemma_assoc_get_put(old_pks, g1, pkv, u);
                }
                lemma_assoc_get_put(old_pks, g1, pkv, table_name@);
                assert(table_map(self.primary_keys@) == keys_after_listing(table_map(old_pks), table_name@, views(pkv@)));
            }
        } else {
            proof {
                assert(table_map(old_pks).contains_key(table_name@));
                assert(table_map(self.primary_keys@) == keys_after_listing(table_map(old_pks), table_name@, views(pkv@)));
            }
        }
        let ghost mid_pks = self.primary_keys@;
        assert(assoc_get(mid_pks, table_name@) is Some);
        assert(forall|u: Seq<char>| #[trigger] assoc_get(old_pks, u) is Some ==> assoc_get(mid_pks, u) is Some);
        assoc_insert(&mut self.columns, k2, cols);
        proof {
            lemma_table_map_put(old_cols, g2, colv);
            assert forall|u: Seq<char>| #[trigger] assoc_get(self.columns@, u) is Some implies assoc_get(self.primary_keys@, u) is Some by {
                lemma_assoc_get_put(old_cols, g2, colv, u);
                if u != table_name@ {
                    assert(assoc_get(old_cols, u) is Some);
                    assert(assoc_get(old_pks, u) is Some);
                }
            }
            assert(listing_info(table_name@, rv) == Ok::<(Seq<Seq<char>>, Seq<Seq<char>>), Seq<char>>((views(colv@), views(pkv@))));
        }
        Ok(())
    }
}



/// The table map with each listed table's primary key set in turn.
pub open spec fn seeded(m: Map<Seq<char>, Seq<Seq<char>>>, pks: Seq<(String, Vec<String>)>) -> Map<
    Seq<char>,
    Seq<Seq<char>>,
>
    decreases pks.len(),
{
    if pks.len() == 0 {
        m
    } else {
        seeded(m, pks.drop_last()).insert(pks.last().0@, views(pks.last().1@))
    }
}

/// Seeding sets what the cache holds for the seeded tables: a table takes
/// the primary key of the last seed that names it, and a table no seed
/// names keeps what it had.
pub proof fn lemma_seeded_lookup(m: Map<Seq<char>, Seq<Seq<char>>>, pks: Seq<(String, Vec<String>)>, t: Seq<char>)
    ensures
        forall|i: int|
            0 <= i < pks.len() && (#[trigger] pks[i]).0@ == t && (forall|j: int|
                i < j < pks.len() ==> (#[trigger] pks[j]).0@ != t) ==> seeded(m, pks).contains_key(t)
                && seeded(m, pks)[t] == views(pks[i].1@),
        (forall|i: int| 0 <= i < pks.len() ==> (#[trigger] pks[i]).0@ != t) ==> (seeded(m, pks).contains_key(t)
            == m.contains_key(t) && (m.contains_key(t) ==> seeded(m, pks)[t] == m[t])),
    decreases pks.len(),
{
    if pks.len() > 0 {
        let prev = pks.drop_last();
        lemma_seeded_lookup(m, prev, t);
        assert forall|i: int|
            0 <= i < pks.len() && (#[trigger] pks[i]).0@ == t && (forall|j: int|
                i < j < pks.len() ==> (#[trigger] pks[j]).0@ != t) implies seeded(m, pks).contains_key(t)
                && seeded(m, pks)[t] == views(pks[i].1@) by {
            if i < pks.len() - 1 {
                assert(pks[pks.len() - 1].0@ != t);
                assert(prev[i] == pks[i]);
                assert forall|j: int| i < j < prev.len() implies (#[trigger] prev[j]).0@ != t by {
                    assert(prev[j] == pks[j]);
                }
            }
        }
        if forall|i: int| 0 <= i < pks.len() ==> (#[trigger] pks[i]).0@ != t {
            assert forall|i: int| 0 <= i < prev.len() implies (#[trigger] prev[i]).0@ != t by {
                assert(prev[i] == pks[i]);
            }
            assert(pks[pks.len() - 1].0@ != t);
        }
    }
}

impl SchemaCache {
    /// The table's columns, read from the database the first time they are
    /// asked for.
    pub fn get_columns(&mut self, table_name: &str) -> (r: Result<Vec<String>, String>)
        requires
            old(self).wf(),
        ensures
            final(self).wf(),
            final(self)@.db_path == old(self)@.db_path,
            old(self)@.columns.submap_of(final(self)@.columns),
            old(self)@.columns.contains_key(table_name@) ==> (r matches Ok(cols) && views(cols@)
                == old(self)@.columns[table_name@] && final(self)@ == old(self)@),
            !old(self)@.columns.contains_key(table_name@) ==> exists|read: Result<Seq<(String, i32)>, Seq<char>>|
                match #[trigger] listing_info(table_name@, read) {
                    Ok((cols, pk)) => r matches Ok(c) && views(c@) == cols && final(self)@.columns
                        == old(self)@.columns.insert(table_name@, cols) && final(self)@.primary_keys
                        == keys_after_listing(old(self)@.primary_keys, table_name@, pk),
                    Err(e) => r matches Err(m) && m@ == e && final(self)@ == old(self)@,
                },
    {
        let ghost v0 = self@;
        match self.ensure_table_info(table_name) {
            Err(e) => {
                return Err(e);
            },
            Ok(_) => {},
        }
        match assoc_find(&self.columns, table_name) {
            Some(cols) => {
                let r = copy_strings(cols);
                proof {
                    assert(self@.columns[table_name@] == views(r@));
                }
                Ok(r)
            },
            None => {
                proof {
                    assert(false);
                }
                Err(String::new())
            },
        }
    }

    /// Sets the primary keys of the listed tables, from the client's schema
    /// (a replica table may lack the `PRIMARY KEY` constraint the client
    /// relies on).
    pub fn seed_primary_keys(&mut self, pks: &Vec<(String, Vec<String>)>)
        requires
            old(self).wf(),
        ensures
            final(self).wf(),
            final(self)@.db_path == old(self)@.db_path,
            final(self)@.columns == old(self)@.columns,
            final(self)@.primary_keys == seeded(old(self)@.primary_keys, pks@),
    {
        let mut i: usize = 0;
        while i < pks.len()
            invariant
                i <= pks@.len(),
                self.wf(),
                self@.db_path == old(self)@.db_path,
                self@.columns == old(self)@.columns,
                self@.primary_keys == seeded(old(self)@.primary_keys, pks@.take(i as int)),
            decreases pks@.len() - i,
        {
            assert(pks@.take(i + 1).drop_last() =~= pks@.take(i as int));
            let k = pks[i].0.clone();
            let v = copy_strings(&pks[i].1);
            let ghost gk = k;
            let ghost gv = v;
            let ghost old_pks = self.primary_keys@;
            assoc_insert(&mut self.primary_keys, k, v);
            proof {
                lemma_table_map_put(old_pks, gk, gv);
                assert forall|u: Seq<char>| #[trigger] assoc_get(self.columns@, u) is Some implies assoc_get(self.primary_keys@, u) is Some by {
                    lemma_assoc_get_put(old_pks, gk, gv, u);
                }
            }
            i = i + 1;
        }
        assert(pks@.take(pks@.len() as int) =~= pks@);
    }

    /// The table's primary key: the one it was seeded with, else the one the
    /// database declares, read the first time it is asked for.
    pub fn get_primary_key(&mut self, table_name: &str) -> (r: Result<Vec<String>, String>)
        requires
            old(self).wf(),
        ensures
            final(self).wf(),
            final(self)@.db_path == old(self)@.db_path,
            old(self)@.columns.submap_of(final(self)@.columns),
            old(self)@.primary_keys.contains_key(table_name@) ==> (r matches Ok(pk) && views(pk@)
                == old(self)@.primary_keys[table_name@] && final(self)@ == old(self)@),
            !old(self)@.primary_keys.contains_key(table_name@) ==> exists|read: Result<Seq<(String, i32)>, Seq<char>>|
                match #[trigger] listing_info(table_name@, read) {
                    Ok((cols, pk)) => r matches Ok(k) && views(k@) == pk && final(self)@.columns
                        == old(self)@.columns.insert(table_name@, cols) && final(self)@.primary_keys
                        == old(self)@.primary_keys.insert(table_name@, pk),
                    Err(e) => r matches Err(m) && m@ == e && final(self)@ == old(self)@,
                },
    {
        match assoc_find(&self.primary_keys, table_name) {
            Some(pk) => {
                return Ok(copy_strings(pk));
            },
            None => {},
        }
        let ghost v0 = self@;
        assert(!v0.columns.contains_key(table_name@));
        match self.ensure_table_info(table_name) {
            Err(e) => {
                return Err(e);
            },
            Ok(_) => {},
        }
        match assoc_find(&self.primary_keys, table_name) {
            Some(pk) => {
                let r = copy_strings(pk);
                proof {
                    assert(self@.primary_keys[table_name@] == views(r@));
                    let read = choose|read: Result<Seq<(String, i32)>, Seq<char>>|
                        match #[trigger] listing_info(table_name@, read) {
                            Ok((cols, pk)) => self@.columns == v0.columns.insert(table_name@, cols)
                                && self@.primary_keys == keys_after_listing(v0.primary_keys, table_name@, pk),
                            Err(e) => false,
                        };
                    assert(listing_info(table_name@, read) is Ok);
                }
                Ok(r)
            },
            None => {
                proof {
                    assert(false);
                }
                Err(String::new())
            },
        }
    }
}


// --- AST -> operator configurations ---

/// Child rows an exists check reads per parent.
pub const EXISTS_LIMIT: usize = 3;

/// Child rows an exists check on permissions reads per parent.
pub const PERMISSIONS_EXISTS_LIMIT: usize = 1;

/// The name a relationship goes by: the subquery's alias where it has a
/// non-empty one, else its table.
pub open spec fn rel_name(rel: CorrelatedSubquery) -> Seq<char> {
    match rel.subquery.alias {
        Some(a) => if a@.len() > 0 {
            a@
        } else {
            rel.subquery.table@
        },
        None => rel.subquery.table@,
    }
}

/// The name a relationship goes by.
pub fn relationship_name(rel: &CorrelatedSubquery) -> (r: String)
    ensures
        r@ == rel_name(*rel),
{
    match &rel.subquery.alias {
        Some(alias) => {
            if !alias.as_str().is_empty() {
                return alias.clone();
            }
        },
        None => {},
    }
    rel.subquery.table.clone()
}

/// A condition holds a correlated subquery somewhere in it.
pub open spec fn has_csq(c: Condition) -> bool
    decreases c,
{
    match c {
        Condition::CorrelatedSubquery { .. } => true,
        Condition::And { conditions } => any_has_csq(conditions@),
        Condition::Or { conditions } => any_has_csq(conditions@),
        Condition::Simple { .. } => false,
    }
}

/// Some condition of the list holds a correlated subquery.
pub open spec fn any_has_csq(cs: Seq<Condition>) -> bool
    decreases cs,
{
    if cs.len() == 0 {
        false
    } else {
        any_has_csq(cs.drop_last()) || has_csq(cs.last())
    }
}

fn has_csq_exec(cond: &Condition) -> (r: bool)
    ensures
        r == has_csq(*cond),
    decreases cond,
{
    match cond {
        Condition::CorrelatedSubquery { .. } => true,
        Condition::And { conditions } => {
            proof {
                assert(decreases_to!(*cond => cond->And_conditions));
            }
            any_has_csq_exec(conditions)
        },
        Condition::Or { conditions } => {
            proof {
                assert(decreases_to!(*cond => cond->Or_conditions));
            }
            any_has_csq_exec(conditions)
        },
        Condition::Simple { .. } => false,
    }
}

fn any_has_csq_exec(cs: &Vec<Condition>) -> (r: bool)
    ensures
        r == any_has_csq(cs@),
    decreases cs,
{
    let mut found = false;
    let mut i: usize = 0;
    while i < cs.len()
        invariant
            i <= cs@.len(),
            found == any_has_csq(cs@.take(i as int)),
        decreases cs@.len() - i,
    {
        proof {
            assert(decreases_to!(*cs => cs@));
            assert(decreases_to!(cs@ => cs@[i as int]));
        }
        assert(cs@.take(i + 1).drop_last() =~= cs@.take(i as int));
        assert(cs@.take(i + 1).last() == cs@[i as int]);
        let h = has_csq_exec(&cs[i]);
        found = found || h;
        i = i + 1;
    }
    assert(cs@.take(cs@.len() as int) =~= cs@);
    found
}

pub open spec fn sort_view(s: Seq<(String, String)>) -> Seq<(Seq<char>, Seq<char>)> {
    s.map_values(|p: (String, String)| (p.0@, p.1@))
}

/// The AST's `orderBy` (none when absent).
pub open spec fn order_of(ast: Ast) -> Seq<(String, String)> {
    match ast.order_by {
        Some(o) => o@,
        None => Seq::empty(),
    }
}

/// The primary key columns that `fields` lacks, ascending, in key order.
pub open spec fn pk_extension(fields: Seq<Seq<char>>, pk: Seq<String>) -> Seq<(Seq<char>, Seq<char>)>
    decreases pk.len(),
{
    if pk.len() == 0 {
        Seq::empty()
    } else {
        let rest = pk_extension(fields, pk.drop_last());
        if fields.contains(pk.last()@) {
            rest
        } else {
            rest.push((pk.last()@, "asc"@))
        }
    }
}

/// A pipeline's sort: the query's order, then each primary key column it
/// does not order by, ascending.
pub open spec fn full_sort(order: Seq<(String, String)>, pk: Seq<String>) -> Seq<
    (Seq<char>, Seq<char>),
> {
    sort_view(order) + pk_extension(order.map_values(|p: (String, String)| p.0@), pk)
}

pub(crate) fn copy_sort(s: &Vec<(String, String)>) -> (r: Vec<(String, String)>)
    ensures
        r@ == s@,
{
    let mut r: Vec<(String, String)> = Vec::new();
    let mut i: usize = 0;
    while i < s.len()
        invariant
            i <= s@.len(),
            r@ =~= s@.take(i as int),
        decreases s@.len() - i,
    {
        r.push((s[i].0.clone(), s[i].1.clone()));
        assert(r@ =~= s@.take(i + 1));
        i = i + 1;
    }
    assert(s@.take(s@.len() as int) =~= s@);
    r
}

fn order_fields_contain(order: &Vec<(String, String)>, f: &str) -> (r: bool)
    ensures
        r == order@.map_values(|p: (String, String)| p.0@).contains(f@),
{
    let ghost fields = order@.map_values(|p: (String, String)| p.0@);
    let mut i: usize = 0;
    while i < order.len()
        invariant
            i <= order@.len(),
            fields == order@.map_values(|p: (String, String)| p.0@),
            forall|k: int| 0 <= k < i ==> fields[k] != f@,
        decreases order@.len() - i,
    {
        if crate::json::str_eq(order[i].0.as_str(), f) {
            assert(fields[i as int] == f@);
            return true;
        }
        i = i + 1;
    }
    false
}

/// The sort of a pipeline over a query with `order_by` and `primary_key`.
pub fn build_sort(order_by: &Option<Vec<(String, String)>>, primary_key: &Vec<String>) -> (r: Vec<
    (String, String),
>)
    ensures
        sort_view(r@) == full_sort(
            match order_by {
                Some(o) => o@,
                None => Seq::empty(),
            },
            primary_key@,
        ),
{
    let empty: Vec<(String, String)> = Vec::new();
    let order: &Vec<(String, String)> = match order_by {
        Some(o) => o,
        None => &empty,
    };
    let ghost fields = order@.map_values(|p: (String, String)| p.0@);
    let mut sort = copy_sort(order);
    let mut i: usize = 0;
    while i < primary_key.len()
        invariant
            i <= primary_key@.len(),
            fields == order@.map_values(|p: (String, String)| p.0@),
            sort_view(sort@) =~= sort_view(order@) + pk_extension(fields, primary_key@.take(i as int)),
        decreases primary_key@.len() - i,
    {
        assert(primary_key@.take(i + 1).drop_last() =~= primary_key@.take(i as int));
        if !order_fields_contain(order, primary_key[i].as_str()) {
            let entry = (primary_key[i].clone(), String::from_str("asc"));
            let ghost before = sort@;
            let ghost ev = (entry.0@, entry.1@);
            sort.push(entry);
            assert(sort_view(sort@) =~= sort_view(before).push(ev));
        }
        i = i + 1;
    }
    assert(primary_key@.take(primary_key@.len() as int) =~= primary_key@);
    sort
}

/// Some configuration of the list is a `Take`.
pub open spec fn has_take(cs: Seq<OperatorConfig>) -> bool {
    exists|i: int| 0 <= i < cs.len() && (#[trigger] cs[i]) is Take
}

/// The child rows an exists check reads per parent, by its system.
pub open spec fn exists_limit(system: Option<Seq<char>>) -> usize {
    if system == Some("permissions"@) {
        PERMISSIONS_EXISTS_LIMIT
    } else {
        EXISTS_LIMIT
    }
}

/// The sort of a pipeline's leading `Source` (none when it has none).
pub open spec fn source_sort(cs: Seq<OperatorConfig>) -> Seq<(String, String)> {
    if cs.len() > 0 && cs[0] is Source {
        cs[0]->Source_sort@
    } else {
        Seq::empty()
    }
}

pub open spec fn opt_str_view(s: Option<&str>) -> Option<Seq<char>> {
    match s {
        Some(x) => Some(x@),
        None => None,
    }
}

/// Bounds an exists check's child pipeline: unless it already has a `Take`,
/// one is appended with the exists limit and the sort of the child's source.
pub fn apply_exists_limit(child_configs: &mut Vec<OperatorConfig>, system: Option<&str>)
    ensures
        has_take(old(child_configs)@) ==> final(child_configs)@ == old(child_configs)@,
        !has_take(old(child_configs)@) ==> {
            &&& final(child_configs)@.len() == old(child_configs)@.len() + 1
            &&& final(child_configs)@.drop_last() == old(child_configs)@
            &&& final(child_configs)@.last() matches OperatorConfig::Take { limit, sort, partition_key }
            &&& limit == exists_limit(opt_str_view(system))
            &&& sort@ == source_sort(old(child_configs)@)
            &&& partition_key is None
        },
{
    let mut i: usize = 0;
    while i < child_configs.len()
        invariant
            i <= child_configs@.len(),
            forall|k: int| 0 <= k < i ==> !((#[trigger] child_configs@[k]) is Take),
        decreases child_configs@.len() - i,
    {
        match &child_configs[i] {
            OperatorConfig::Take { .. } => {
                return ;
            },
            _ => {},
        }
        i = i + 1;
    }
    proof {
        reveal_strlit("permissions");
    }
    let limit = match system {
        Some(s) => if crate::json::str_eq(s, "permissions") {
            PERMISSIONS_EXISTS_LIMIT
        } else {
            EXISTS_LIMIT
        },
        None => EXISTS_LIMIT,
    };
    let sort = if child_configs.len() > 0 {
        match &child_configs[0] {
            OperatorConfig::Source { sort, .. } => copy_sort(sort),
            _ => Vec::new(),
        }
    } else {
        Vec::new()
    };
    let ghost before = child_configs@;
    child_configs.push(OperatorConfig::Take { limit, sort, partition_key: None });
    assert(child_configs@.drop_last() =~= before);
}



/// The pipeline starts with a `Source` on `table`.
pub open spec fn heads_table(cs: Seq<OperatorConfig>, table: Seq<char>) -> bool {
    cs.len() > 0 && (cs[0] matches OperatorConfig::Source { table_name, .. } && table_name@ == table)
}

/// The AST's related subqueries (none when absent).
pub open spec fn related_of(ast: Ast) -> Seq<CorrelatedSubquery> {
    match ast.related {
        Some(r) => r@,
        None => Seq::empty(),
    }
}

pub open spec fn opt_json(o: Option<JsonValue>) -> Option<JsonView> {
    match o {
        Some(v) => Some(v@),
        None => None,
    }
}

/// Whether a correlated subquery's check is flipped.
pub open spec fn flipped(flip: Option<bool>) -> bool {
    flip matches Some(b) && b
}

pub open spec fn opt_string_view(s: Option<String>) -> Option<Seq<char>> {
    match s {
        Some(x) => Some(x@),
        None => None,
    }
}

/// A child pipeline is the outline of the subquery's pipeline, over the
/// primary key and columns its own `Source` reads, its limit partitioned by
/// `partition`.
pub open spec fn child_outline(cs: Seq<OperatorConfig>, ast: Ast, partition: Option<Seq<String>>) -> bool
    decreases ast, 1int,
{
    cs.len() > 0 && (cs[0] matches OperatorConfig::Source { columns, primary_key, .. } && configs_outline(
        ast,
        primary_key@,
        cs,
        map![ast.table@ => views(columns@)],
        partition,
    ))
}

/// The child pipeline of an exists check on a correlated subquery: the
/// outline of the subquery's pipeline; unless the check is flipped or that
/// pipeline already has a `Take`, followed by a `Take` of the exists limit
/// (by the subquery's system) in the sort of its source, unpartitioned.
pub open spec fn exists_child_ok(child: Seq<OperatorConfig>, rel: CorrelatedSubquery, flip: bool) -> bool
    decreases rel, 2int,
{
    ||| (child_outline(child, *rel.subquery, None) && (flip || has_take(child)))
    ||| {
        &&& !flip
        &&& child.len() >= 1
        &&& child_outline(child.drop_last(), *rel.subquery, None)
        &&& !has_take(child.drop_last())
        &&& child.last() matches OperatorConfig::Take { limit, sort, partition_key }
        &&& limit == exists_limit(opt_string_view(rel.system))
        &&& sort@ == source_sort(child.drop_last())
        &&& partition_key is None
    }
}

/// A `Join` for a related subquery: its keys, its name and, as its child
/// pipeline, the outline of the subquery's pipeline with its limit
/// partitioned by the correlation's child field.
pub open spec fn join_for(c: OperatorConfig, rel: CorrelatedSubquery) -> bool
    decreases rel, 2int,
{
    match c {
        OperatorConfig::Join { parent_key, child_key, relationship_name, child } => {
            &&& parent_key@ == rel.correlation.parent_field@
            &&& child_key@ == rel.correlation.child_field@
            &&& relationship_name@ == rel_name(rel)
            &&& child_outline(child@, *rel.subquery, Some(rel.correlation.child_field@))
        },
        _ => false,
    }
}

/// An `Exists` for a correlated subquery with operator `op`: negated for
/// `NOT EXISTS`, its keys, its name, its child pipeline (`exists_child_ok`)
/// and the given short-circuit condition.
pub open spec fn exists_for(
    c: OperatorConfig,
    rel: CorrelatedSubquery,
    op: Seq<char>,
    flip: bool,
    or_cond: Option<JsonView>,
) -> bool
    decreases rel, 3int,
{
    match c {
        OperatorConfig::Exists {
            relationship_name,
            not_exists,
            parent_key,
            child_key,
            child,
            or_condition,
        } => {
            &&& relationship_name@ == rel_name(rel)
            &&& not_exists == (op == "NOT EXISTS"@)
            &&& parent_key@ == rel.correlation.parent_field@
            &&& child_key@ == rel.correlation.child_field@
            &&& exists_child_ok(child@, rel, flip)
            &&& opt_json(or_condition) == or_cond
        },
        _ => false,
    }
}

/// An exists branch for a correlated subquery with operator `op`.
pub open spec fn branch_for(b: ExistsBranch, rel: CorrelatedSubquery, op: Seq<char>, flip: bool) -> bool
    decreases rel, 3int,
{
    &&& b.relationship_name@ == rel_name(rel)
    &&& b.not_exists == (op == "NOT EXISTS"@)
    &&& b.parent_key@ == rel.correlation.parent_field@
    &&& b.child_key@ == rel.correlation.child_field@
    &&& exists_child_ok(b.child@, rel, flip)
}

pub open spec fn bool_count(b: bool) -> int {
    if b {
        1
    } else {
        0
    }
}

/// An optional list of names, by its view.
pub open spec fn key_view(p: Option<Vec<String>>) -> Option<Seq<String>> {
    match p {
        Some(v) => Some(v@),
        None => None,
    }
}

/// The outline of a query's pipeline: a `Source` on its table (with the
/// cached columns, the given primary key and the full sort), a `Skip` for
/// its start, the configurations of its condition (none without one), a
/// `Take` for its limit (partitioned by the given key), then one `Join` per
/// related subquery.
pub open spec fn configs_outline(
    ast: Ast,
    pk: Seq<String>,
    cs: Seq<OperatorConfig>,
    columns: Map<Seq<char>, Seq<Seq<char>>>,
    partition: Option<Seq<String>>,
) -> bool
    decreases ast, 0int,
{
    let sort = full_sort(order_of(ast), pk);
    let rels = related_of(ast);
    let skip_n = bool_count(ast.start is Some);
    let take_n = bool_count(ast.limit is Some);
    let w = cs.len() - rels.len() - take_n;
    &&& w >= 1 + skip_n
    &&& (cs[0] matches OperatorConfig::Source { table_name, columns: cols, primary_key, sort: s }
        && table_name@ == ast.table@ && columns.contains_key(ast.table@) && views(cols@)
        == columns[ast.table@] && primary_key@ == pk && sort_view(s@) == sort)
    &&& (ast.start matches Some(st) ==> (cs[1] matches OperatorConfig::Skip {
        bound_row,
        exclusive,
        sort: s,
    } && bound_row@ == st.row@ && exclusive == st.exclusive && sort_view(s@) == sort))
    &&& (ast.where_cond is None ==> w == 1 + skip_n)
    &&& (ast.where_cond matches Some(c) ==> condition_segment(*c, cs.subrange(1 + skip_n, w)))
    &&& (ast.limit matches Some(l) ==> (cs[w] matches OperatorConfig::Take {
        limit,
        sort: s,
        partition_key,
    } && limit == l && sort_view(s@) == sort && key_view(partition_key) == partition))
    &&& forall|i: int|
        #![trigger rels[i]]
        0 <= i < rels.len() ==> join_for(cs[w + take_n + i], rels[i])
}

/// A query translates without reading the database: every table it names
/// has its columns in `cached`, and each of its conditions is one a
/// pipeline can express.
pub open spec fn query_translatable(ast: Ast, cached: Set<Seq<char>>) -> bool
    decreases ast,
{
    &&& cached.contains(ast.table@)
    &&& match ast.where_cond {
        Some(c) => condition_translatable(*c, cached),
        None => true,
    }
    &&& match ast.related {
        Some(rs) => forall|i: int|
            #![trigger rs@[i]]
            0 <= i < rs@.len() ==> query_translatable(*rs@[i].subquery, cached),
        None => true,
    }
}

/// A condition a pipeline can express: a plain condition or an `or`
/// without correlated subqueries that makes a filter; an `and` of such
/// conditions; an `or` with correlated subqueries whose plain conditions
/// make filters and whose other conditions are exists checks (one) or
/// exists branches (several); a correlated subquery whose query translates.
pub open spec fn condition_translatable(c: Condition, cached: Set<Seq<char>>) -> bool
    decreases c,
{
    match c {
        Condition::Simple { .. } => predicate_of(c) is Ok,
        Condition::And { conditions } => forall|i: int|
            #![trigger conditions@[i]]
            0 <= i < conditions@.len() ==> condition_translatable(conditions@[i], cached),
        Condition::Or { conditions } => if !any_has_csq(conditions@) {
            predicate_of(c) is Ok
        } else {
            &&& plain_predicates(conditions@) is Ok
            &&& if csq_count(conditions@) == 1 {
                forall|i: int|
                    #![trigger conditions@[i]]
                    0 <= i < conditions@.len() && has_csq(conditions@[i]) ==> csq_translatable(
                        conditions@[i],
                        cached,
                    )
            } else {
                forall|i: int|
                    #![trigger conditions@[i]]
                    0 <= i < conditions@.len() && has_csq(conditions@[i]) ==> branch_translatable(
                        conditions@[i],
                        cached,
                    )
            }
        },
        Condition::CorrelatedSubquery { related, .. } => query_translatable(*related.subquery, cached),
    }
}

/// A condition with correlated subqueries inside an `or` that becomes
/// exists checks: a correlated subquery whose query translates; an `and`
/// with correlated subqueries whose plain conditions make filters; an `or`
/// likewise, its conditions becoming exists checks (one) or branches
/// (several).
pub open spec fn csq_translatable(c: Condition, cached: Set<Seq<char>>) -> bool
    decreases c,
{
    match c {
        Condition::CorrelatedSubquery { related, .. } => query_translatable(*related.subquery, cached),
        Condition::And { conditions } => {
            &&& any_has_csq(conditions@)
            &&& plain_predicates(conditions@) is Ok
            &&& forall|i: int|
                #![trigger conditions@[i]]
                0 <= i < conditions@.len() && has_csq(conditions@[i]) ==> csq_translatable(
                    conditions@[i],
                    cached,
                )
        },
        Condition::Or { conditions } => {
            &&& plain_predicates(conditions@) is Ok
            &&& if csq_count(conditions@) <= 1 {
                forall|i: int|
                    #![trigger conditions@[i]]
                    0 <= i < conditions@.len() && has_csq(conditions@[i]) ==> csq_translatable(
                        conditions@[i],
                        cached,
                    )
            } else {
                forall|i: int|
                    #![trigger conditions@[i]]
                    0 <= i < conditions@.len() && has_csq(conditions@[i]) ==> branch_translatable(
                        conditions@[i],
                        cached,
                    )
            }
        },
        Condition::Simple { .. } => false,
    }
}

/// A condition that becomes exists branches: a correlated subquery whose
/// query translates, or an `and` of such conditions (its plain conditions
/// left out).
pub open spec fn branch_translatable(c: Condition, cached: Set<Seq<char>>) -> bool
    decreases c,
{
    match c {
        Condition::CorrelatedSubquery { related, .. } => query_translatable(*related.subquery, cached),
        Condition::And { conditions } => {
            &&& any_has_csq(conditions@)
            &&& forall|i: int|
                #![trigger conditions@[i]]
                0 <= i < conditions@.len() && has_csq(conditions@[i]) ==> branch_translatable(
                    conditions@[i],
                    cached,
                )
        },
        _ => false,
    }
}

/// Each condition of the list with correlated subqueries becomes exists
/// checks without reading the database.
pub open spec fn csq_parts_translatable(cs: Seq<Condition>, cached: Set<Seq<char>>) -> bool {
    forall|i: int| #![trigger cs[i]] 0 <= i < cs.len() && has_csq(cs[i]) ==> csq_translatable(cs[i], cached)
}

/// Each condition of the list with correlated subqueries becomes exists
/// branches without reading the database.
pub open spec fn branch_parts_translatable(cs: Seq<Condition>, cached: Set<Seq<char>>) -> bool {
    forall|i: int| #![trigger cs[i]] 0 <= i < cs.len() && has_csq(cs[i]) ==> branch_translatable(cs[i], cached)
}

/// Cut points that split a segment into consecutive pieces, one per
/// condition of a list.
pub open spec fn segment_cuts(n: int, seg_len: int, cuts: Seq<int>) -> bool {
    &&& cuts.len() == n + 1
    &&& cuts[0] == 0
    &&& cuts[n] == seg_len
    &&& forall|k: int| #![trigger cuts[k]] 0 <= k < n ==> cuts[k] <= cuts[k + 1]
}

/// How many conditions of a list hold a correlated subquery.
pub open spec fn csq_count(cs: Seq<Condition>) -> nat
    decreases cs.len(),
{
    if cs.len() == 0 {
        0
    } else {
        csq_count(cs.drop_last()) + (if has_csq(cs.last()) {
            1nat
        } else {
            0nat
        })
    }
}

/// The predicates of a list's conditions without correlated subqueries, in
/// order; the first error among them.
pub open spec fn plain_predicates(cs: Seq<Condition>) -> Result<Seq<JsonView>, Seq<char>>
    decreases cs.len(),
{
    if cs.len() == 0 {
        Ok(Seq::empty())
    } else {
        match plain_predicates(cs.drop_last()) {
            Err(e) => Err(e),
            Ok(ps) => if has_csq(cs.last()) {
                Ok(ps)
            } else {
                match predicate_of(cs.last()) {
                    Ok(p) => Ok(ps.push(p)),
                    Err(e) => Err(e),
                }
            },
        }
    }
}

/// One for a pre-filter over `n` plain conditions, none without any.
pub open spec fn gate_count(n: nat) -> int {
    if n > 0 {
        1
    } else {
        0
    }
}

/// What follows the pre-filter, if any.
pub open spec fn after_gate(seg: Seq<OperatorConfig>, n: nat) -> Seq<OperatorConfig> {
    seg.subrange(gate_count(n), seg.len() as int)
}

/// Predicates joined by `or`: none, the one, or an `or` of all.
pub open spec fn join_or(ps: Seq<JsonView>) -> Option<JsonView> {
    if ps.len() == 0 {
        None
    } else if ps.len() == 1 {
        Some(ps[0])
    } else {
        Some(jobj1("or"@, JsonView::Array(ps)))
    }
}

/// Predicates joined by `and`: the one, or an `and` of all.
pub open spec fn join_and(ps: Seq<JsonView>) -> JsonView {
    if ps.len() == 1 {
        ps[0]
    } else {
        jobj1("and"@, JsonView::Array(ps))
    }
}

/// The pre-filter of an `and` inside an `or`: its plain conditions, or the
/// `or`'s other branches.
pub open spec fn gate_filter(oc: Option<JsonView>, gate: JsonView) -> JsonView {
    match oc {
        Some(o) => jobj1("or"@, JsonView::Array(seq![o, gate])),
        None => gate,
    }
}

pub open spec fn opt_seq(o: Option<JsonView>) -> Seq<JsonView> {
    match o {
        Some(v) => seq![v],
        None => Seq::empty(),
    }
}

/// The exists branches that a condition inside an `or` contributes: one for
/// a correlated subquery, and for an `and` those of its conditions with
/// correlated subqueries one after another.
pub open spec fn branch_segment(c: Condition, bs: Seq<ExistsBranch>) -> bool
    decreases c, 0int,
{
    match c {
        Condition::CorrelatedSubquery { related, op, flip, .. } => bs.len() == 1 && branch_for(
            bs[0],
            *related,
            op@,
            flipped(flip),
        ),
        Condition::And { conditions } => any_has_csq(conditions@) && branch_pieces(conditions@, bs),
        _ => false,
    }
}

/// The branches of a list's conditions with correlated subqueries, one
/// after another.
pub open spec fn branch_pieces(cs: Seq<Condition>, bs: Seq<ExistsBranch>) -> bool
    decreases cs, 0int,
{
    exists|cuts: Seq<int>|
        #![trigger segment_cuts(cs.len() as int, bs.len() as int, cuts)]
        segment_cuts(cs.len() as int, bs.len() as int, cuts) && forall|i: int|
            #![trigger cs[i]]
            0 <= i < cs.len() ==> if has_csq(cs[i]) {
                branch_segment(cs[i], bs.subrange(cuts[i], cuts[i + 1]))
            } else {
                cuts[i] == cuts[i + 1]
            }
}

/// The configurations that a condition with correlated subqueries adds when
/// it stands inside an `or` whose other branches make up `oc`: one exists
/// check that also passes where `oc` holds for a correlated subquery; for an
/// `and`, a pre-filter on its plain conditions (or `oc`), then those of its
/// conditions with correlated subqueries; for an `or`, those of its
/// conditions with its plain conditions joined to `oc`.
pub open spec fn csq_segment(c: Condition, oc: Option<JsonView>, seg: Seq<OperatorConfig>) -> bool
    decreases c, 0int,
{
    match c {
        Condition::CorrelatedSubquery { related, op, flip, .. } => seg.len() == 1 && exists_for(
            seg[0],
            *related,
            op@,
            flipped(flip),
            oc,
        ),
        Condition::And { conditions } => any_has_csq(conditions@) && (plain_predicates(
            conditions@,
        ) matches Ok(gs) && seg.len() >= gate_count(gs.len()) && (gs.len() > 0 ==> (
        seg[0] matches OperatorConfig::Filter { predicate } && predicate@ == gate_filter(
            oc,
            join_and(gs),
        ))) && csq_pieces(conditions@, oc, after_gate(seg, gs.len()))),
        Condition::Or { conditions } => plain_predicates(conditions@) matches Ok(ps) && or_pieces(
            conditions@,
            join_or(opt_seq(oc) + ps),
            seg,
        ),
        Condition::Simple { .. } => false,
    }
}

/// The configurations of a list's conditions with correlated subqueries,
/// one after another.
pub open spec fn csq_pieces(cs: Seq<Condition>, oc: Option<JsonView>, seg: Seq<OperatorConfig>) -> bool
    decreases cs, 0int,
{
    exists|cuts: Seq<int>|
        #![trigger segment_cuts(cs.len() as int, seg.len() as int, cuts)]
        segment_cuts(cs.len() as int, seg.len() as int, cuts) && forall|i: int|
            #![trigger cs[i]]
            0 <= i < cs.len() ==> if has_csq(cs[i]) {
                csq_segment(cs[i], oc, seg.subrange(cuts[i], cuts[i + 1]))
            } else {
                cuts[i] == cuts[i + 1]
            }
}

/// The configurations of an `or`'s conditions with correlated subqueries,
/// its plain conditions making up `oc`: those of its one such condition, or
/// one `OrExists` over the branches of all of them.
pub open spec fn or_pieces(cs: Seq<Condition>, oc: Option<JsonView>, seg: Seq<OperatorConfig>) -> bool
    decreases cs, 1int,
{
    if csq_count(cs) <= 1 {
        csq_pieces(cs, oc, seg)
    } else {
        seg.len() == 1 && (seg[0] matches OperatorConfig::OrExists { branches, or_condition }
            && opt_json(or_condition) == oc && branch_pieces(cs, branches@))
    }
}

pub(crate) proof fn lemma_cuts_bounded(cuts: Seq<int>, n: int, k: int)
    requires
        cuts.len() == n + 1,
        0 <= k < n,
        forall|j: int| #![trigger cuts[j]] 0 <= j < n ==> cuts[j] <= cuts[j + 1],
    ensures
        cuts[0] <= cuts[k],
        cuts[k + 1] <= cuts[n],
    decreases n,
{
    if k + 1 < n {
        lemma_cuts_bounded(cuts.take(n), n - 1, k);
        assert(cuts.take(n)[k + 1] == cuts[k + 1]);
        assert(cuts[n - 1] <= cuts[n]);
    }
    if k > 0 {
        lemma_cuts_bounded(cuts.take(n), n - 1, k - 1);
        assert(cuts.take(n)[k] == cuts[k]);
    }
}

/// A filter whose predicate is the condition's predicate.
pub open spec fn filter_segment(c: Condition, seg: Seq<OperatorConfig>) -> bool {
    predicate_of(c) matches Ok(p) && seg.len() == 1 && (seg[0] matches OperatorConfig::Filter {
        predicate,
    } && predicate@ == p)
}

/// The configurations that a condition adds to its pipeline: a filter with
/// its predicate for a plain condition or an `or` without correlated
/// subqueries; for an `or` with correlated subqueries, those of its
/// conditions with its plain conditions joined into `oc`; one exists check
/// for a correlated subquery; and for an `and` the configurations of its
/// conditions one after another.
pub open spec fn condition_segment(c: Condition, seg: Seq<OperatorConfig>) -> bool
    decreases c, 0int,
{
    match c {
        Condition::Simple { .. } => filter_segment(c, seg),
        Condition::Or { conditions } => if !any_has_csq(conditions@) {
            filter_segment(c, seg)
        } else {
            plain_predicates(conditions@) matches Ok(ps) && or_pieces(conditions@, join_or(ps), seg)
        },
        Condition::CorrelatedSubquery { related, op, flip, .. } => seg.len() == 1 && exists_for(
            seg[0],
            *related,
            op@,
            flipped(flip),
            None,
        ),
        Condition::And { conditions } => and_pieces(conditions@, seg),
    }
}

/// The configurations of an `and`'s conditions, one after another.
pub open spec fn and_pieces(cs: Seq<Condition>, seg: Seq<OperatorConfig>) -> bool
    decreases cs, 0int,
{
    exists|cuts: Seq<int>|
        #![trigger segment_cuts(cs.len() as int, seg.len() as int, cuts)]
        segment_cuts(cs.len() as int, seg.len() as int, cuts) && forall|i: int|
            #![trigger cs[i]]
            0 <= i < cs.len() ==> condition_segment(cs[i], seg.subrange(cuts[i], cuts[i + 1]))
}

/// Every condition of an `and` translates without reading the database.
pub open spec fn and_parts_translatable(cs: Seq<Condition>, cached: Set<Seq<char>>) -> bool {
    forall|i: int| #![trigger cs[i]] 0 <= i < cs.len() ==> condition_translatable(cs[i], cached)
}

/// The cache still reads the same database and has kept every table's
/// columns.
pub open spec fn schema_kept(a: SchemaCacheView, b: SchemaCacheView) -> bool {
    &&& b.db_path == a.db_path
    &&& a.columns.submap_of(b.columns)
}

proof fn lemma_kept_trans(a: SchemaCacheView, b: SchemaCacheView, c: SchemaCacheView)
    requires
        schema_kept(a, b),
        schema_kept(b, c),
    ensures
        schema_kept(a, c),
{
    assert forall|k: Seq<char>| #[trigger] a.columns.dom().contains(k) implies c.columns.dom().contains(k)
        && a.columns[k] == c.columns[k] by {
        assert(b.columns.dom().contains(k));
    }
}

proof fn lemma_prefix_trans<T>(a: Seq<T>, b: Seq<T>, c: Seq<T>)
    requires
        a.is_prefix_of(b),
        b.is_prefix_of(c),
    ensures
        a.is_prefix_of(c),
{
    assert(c.subrange(0, a.len() as int) =~= b.subrange(0, a.len() as int));
}

fn dup_opt(o: &Option<JsonValue>) -> (r: Option<JsonValue>)
    ensures
        opt_json(r) == opt_json(*o),
{
    match o {
        Some(v) => Some(v.duplicate()),
        None => None,
    }
}

proof fn lemma_csq_count(cs: Seq<Condition>)
    ensures
        any_has_csq(cs) <==> csq_count(cs) > 0,
    decreases cs.len(),
{
    if cs.len() > 0 {
        lemma_csq_count(cs.drop_last());
    }
}

/// How many conditions of the list hold a correlated subquery.
fn csq_count_exec(cs: &Vec<Condition>) -> (n: usize)
    ensures
        n == csq_count(cs@),
{
    let mut n: usize = 0;
    let mut i: usize = 0;
    while i < cs.len()
        invariant
            i <= cs@.len(),
            n <= i,
            n == csq_count(cs@.take(i as int)),
        decreases cs@.len() - i,
    {
        assert(cs@.take(i + 1).drop_last() =~= cs@.take(i as int));
        assert(cs@.take(i + 1).last() == cs@[i as int]);
        if has_csq_exec(&cs[i]) {
            n = n + 1;
        }
        i = i + 1;
    }
    assert(cs@.take(cs@.len() as int) =~= cs@);
    n
}

/// The predicates of the conditions without correlated subqueries, in
/// order; the first error among them.
fn plain_predicates_exec(cs: &Vec<Condition>) -> (r: Result<Vec<JsonValue>, String>)
    ensures
        match plain_predicates(cs@) {
            Ok(ps) => r matches Ok(v) && v@.map_values(|x: JsonValue| x@) == ps,
            Err(e) => r matches Err(m) && m@ == e,
        },
{
    let mut out: Vec<JsonValue> = Vec::new();
    let mut i: usize = 0;
    while i < cs.len()
        invariant
            i <= cs@.len(),
            plain_predicates(cs@.take(i as int)) matches Ok(ps) && out@.map_values(
                |x: JsonValue| x@,
            ) == ps,
        decreases cs@.len() - i,
    {
        assert(cs@.take(i + 1).drop_last() =~= cs@.take(i as int));
        assert(cs@.take(i + 1).last() == cs@[i as int]);
        if !has_csq_exec(&cs[i]) {
            match condition_to_predicate_json(&cs[i]) {
                Err(e) => {
                    proof {
                        lemma_plain_predicates_err(cs@, i as int + 1);
                    }
                    return Err(e);
                },
                Ok(p) => {
                    let ghost before = out@;
                    out.push(p);
                    assert(out@.map_values(|x: JsonValue| x@) =~= before.map_values(
                        |x: JsonValue| x@,
                    ).push(p@));
                },
            }
        }
        i = i + 1;
    }
    assert(cs@.take(cs@.len() as int) =~= cs@);
    Ok(out)
}

/// An error among the first `j` conditions' plain predicates is the error
/// of the whole list.
proof fn lemma_plain_predicates_err(cs: Seq<Condition>, j: int)
    requires
        0 <= j <= cs.len(),
        plain_predicates(cs.take(j)) is Err,
    ensures
        plain_predicates(cs) == plain_predicates(cs.take(j)),
    decreases cs.len() - j,
{
    if j < cs.len() {
        assert(cs.take(j + 1).drop_last() =~= cs.take(j));
        lemma_plain_predicates_err(cs, j + 1);
    } else {
        assert(cs.take(j) =~= cs);
    }
}

/// The child pipeline of an exists check: the subquery's pipeline over its
/// table's primary key, bounded by the exists limit unless flipped.
fn exists_child(schema: &mut SchemaCache, related: &CorrelatedSubquery, flip: &Option<bool>) -> (r:
    Result<Vec<OperatorConfig>, String>)
    requires
        old(schema).wf(),
    ensures
        query_translatable(*related.subquery, old(schema)@.columns.dom()) ==> r is Ok && final(schema)@ == old(schema)@,
        final(schema).wf(),
        schema_kept(old(schema)@, final(schema)@),
        r matches Ok(child) ==> exists_child_ok(child@, *related, flipped(*flip)),
    decreases related,
{
    let child_pk = match schema.get_primary_key(related.subquery.table.as_str()) {
        Ok(pk) => pk,
        Err(e) => {
            return Err(e);
        },
    };
    proof {
        assert(decreases_to!(*related => related.subquery));
    }
    let ghost s1 = schema@;
    let mut child = match query_configs(schema, &related.subquery, &child_pk, &None) {
        Ok(c) => c,
        Err(e) => {
            proof {
                lemma_kept_trans(old(schema)@, s1, schema@);
            }
            return Err(e);
        },
    };
    proof {
        lemma_kept_trans(old(schema)@, s1, schema@);
    }
    let flipped = match flip {
        Some(f) => *f,
        None => false,
    };
    if !flipped {
        let system: Option<&str> = match &related.system {
            Some(s) => Some(s.as_str()),
            None => None,
        };
        apply_exists_limit(&mut child, system);
    }
    Ok(child)
}

fn is_not_exists(op: &String) -> (r: bool)
    ensures
        r == (op@ == "NOT EXISTS"@),
{
    crate::json::str_eq(op.as_str(), "NOT EXISTS")
}

/// The pipeline configurations of a query: its source, its start, its
/// condition's filters and exists checks, its limit, then a join per related
/// subquery (each child pipeline keyed by its table's primary key and its
/// limit partitioned by the correlation's child field).
pub fn ast_to_operator_configs(schema: &mut SchemaCache, ast: &Ast, primary_key: &Vec<String>) -> (r:
    Result<Vec<OperatorConfig>, String>)
    requires
        old(schema).wf(),
    ensures
        query_translatable(*ast, old(schema)@.columns.dom()) ==> r is Ok && final(schema)@ == old(schema)@,
        final(schema).wf(),
        schema_kept(old(schema)@, final(schema)@),
        r matches Ok(cs) ==> configs_outline(*ast, primary_key@, cs@, final(schema)@.columns, None),
{
    query_configs(schema, ast, primary_key, &None)
}

fn copy_key(p: &Option<Vec<String>>) -> (r: Option<Vec<String>>)
    ensures
        key_view(r) == key_view(*p),
{
    match p {
        Some(v) => Some(copy_strings(v)),
        None => None,
    }
}

/// The pipeline configurations of a query whose limit is partitioned by
/// `partition_key`.
#[verifier::loop_isolation(false)]
#[verifier::rlimit(60)]
fn query_configs(
    schema: &mut SchemaCache,
    ast: &Ast,
    primary_key: &Vec<String>,
    partition_key: &Option<Vec<String>>,
) -> (r: Result<Vec<OperatorConfig>, String>)
    requires
        old(schema).wf(),
    ensures
        query_translatable(*ast, old(schema)@.columns.dom()) ==> r is Ok && final(schema)@ == old(schema)@,
        final(schema).wf(),
        schema_kept(old(schema)@, final(schema)@),
        r matches Ok(cs) ==> configs_outline(
            *ast,
            primary_key@,
            cs@,
            final(schema)@.columns,
            key_view(*partition_key),
        ),
    decreases ast,
{
    let columns = match schema.get_columns(ast.table.as_str()) {
        Ok(c) => c,
        Err(e) => {
            return Err(e);
        },
    };
    let ghost s_cols = schema@;
    assert(s_cols.columns.contains_key(ast.table@));
    let sort = build_sort(&ast.order_by, primary_key);
    let mut configs: Vec<OperatorConfig> = Vec::new();
    configs.push(
        OperatorConfig::Source {
            table_name: ast.table.clone(),
            columns,
            primary_key: copy_strings(primary_key),
            sort: copy_sort(&sort),
        },
    );
    match &ast.start {
        Some(start) => {
            configs.push(
                OperatorConfig::Skip {
                    bound_row: start.row.duplicate(),
                    exclusive: start.exclusive,
                    sort: copy_sort(&sort),
                },
            );
        },
        None => {},
    }
    let ghost head = configs@;
    match &ast.where_cond {
        Some(cond) => {
            proof {
                assert(decreases_to!(*ast => ast.where_cond));
            }
            let ghost s1 = schema@;
            match append_condition_configs(schema, &mut configs, cond, primary_key) {
                Err(e) => {
                    proof {
                        lemma_kept_trans(old(schema)@, s1, schema@);
                    }
                    return Err(e);
                },
                Ok(_) => {},
            }
            proof {
                lemma_kept_trans(old(schema)@, s1, schema@);
            }
            assert(configs@.subrange(0, head.len() as int) =~= head);
        },
        None => {},
    }
    let ghost w = configs@.len();
    let ghost conds = configs@;
    let ghost cols_mid_view = schema@;
    assert(schema_kept(s_cols, cols_mid_view));
    match ast.limit {
        Some(limit) => {
            configs.push(OperatorConfig::Take { limit, sort: copy_sort(&sort), partition_key: copy_key(partition_key) });
        },
        None => {},
    }
    assert(configs@.subrange(0, w as int) =~= conds);
    let ghost base = configs@.len();
    let ghost pre = configs@;
    match &ast.related {
        Some(related) => {
            let mut i: usize = 0;
            while i < related.len()
                invariant
                    i <= related@.len(),
                    configs@.len() == base + i,
                    configs@.subrange(0, base as int) == pre,
                    schema.wf(),
                    schema_kept(old(schema)@, schema@),
                    query_translatable(*ast, old(schema)@.columns.dom()) ==> schema@ == old(schema)@,
                    schema_kept(cols_mid_view, schema@),
                    forall|j: int|
                        #![trigger related@[j]]
                        0 <= j < i ==> join_for(configs@[base + j], related@[j]),
                decreases related@.len() - i,
            {
                let rel = &related[i];
                proof {
                    assert(decreases_to!(*ast => ast.related));
                    assert(decreases_to!(ast.related => ast.related->Some_0));
                    assert(decreases_to!(*related => related@));
                    assert(decreases_to!(related@ => related@[i as int]));
                    assert(decreases_to!(related@[i as int] => related@[i as int].subquery));
                }
                let ghost s0 = schema@;
                proof {
                    schema.lemma_cached_keys();
                    if query_translatable(*ast, old(schema)@.columns.dom()) {
                        assert(query_translatable(*related@[i as int].subquery, old(schema)@.columns.dom()));
                        assert(schema@.columns.contains_key(rel.subquery.table@));
                        assert(schema@.primary_keys.contains_key(rel.subquery.table@));
                    }
                }
                let child_pk = match schema.get_primary_key(rel.subquery.table.as_str()) {
                    Ok(pk) => pk,
                    Err(e) => {
                        proof {
                            lemma_kept_trans(old(schema)@, s0, schema@);
                        }
                        return Err(e);
                    },
                };
                let ghost s1 = schema@;
                proof {
                    lemma_kept_trans(old(schema)@, s0, s1);
                    lemma_kept_trans(cols_mid_view, s0, s1);
                }
                let child_part = Some(copy_strings(&rel.correlation.child_field));
                let child = match query_configs(schema, &rel.subquery, &child_pk, &child_part) {
                    Ok(c) => c,
                    Err(e) => {
                        proof {
                            lemma_kept_trans(old(schema)@, s1, schema@);
                        }
                        return Err(e);
                    },
                };
                proof {
                    lemma_kept_trans(old(schema)@, s1, schema@);
                    lemma_kept_trans(cols_mid_view, s1, schema@);
                    lemma_child_take(*rel.subquery, child_pk@, child@, schema@.columns, rel.correlation.child_field@);
                }
                let ghost before = configs@;
                configs.push(
                    OperatorConfig::Join {
                        parent_key: copy_strings(&rel.correlation.parent_field),
                        child_key: copy_strings(&rel.correlation.child_field),
                        relationship_name: relationship_name(rel),
                        child,
                    },
                );
                assert(configs@.subrange(0, base as int) =~= before.subrange(0, base as int));
                i = i + 1;
            }
        },
        None => {},
    }
    proof {
        let cs = configs@;
        let rels = related_of(*ast);
        let skip_n = bool_count(ast.start is Some);
        let take_n = bool_count(ast.limit is Some);
        assert(cs.len() - rels.len() - take_n == w);
        assert(cs[0] == head[0]);
        assert(w >= 1 + skip_n);
        assert(cs.subrange(0, w as int) =~= pre.subrange(0, w as int));
        assert(cs.subrange(1 + skip_n, w as int) =~= conds.subrange(1 + skip_n, w as int));
        if ast.start is Some {
            assert(cs[1] == head[1]);
        }
        if ast.limit is Some {
            assert(cs[w as int] == pre[w as int]);
        }
        lemma_kept_trans(s_cols, cols_mid_view, schema@);
        assert(schema@.columns.contains_key(ast.table@));
        assert forall|i: int| #![trigger rels[i]] 0 <= i < rels.len() implies join_for(cs[w + take_n + i], rels[i]) by {
            assert(w + take_n == base);
        }
    }
    Ok(configs)
}

/// A limited child query's pipeline holds its `Take`, partitioned by the
/// given key.
proof fn lemma_child_take(
    ast: Ast,
    pk: Seq<String>,
    cs: Seq<OperatorConfig>,
    columns: Map<Seq<char>, Seq<Seq<char>>>,
    part: Seq<String>,
)
    requires
        configs_outline(ast, pk, cs, columns, Some(part)),
    ensures
        ast.limit matches Some(n) ==> exists|k: int|
            0 <= k < cs.len() && (#[trigger] cs[k] matches OperatorConfig::Take { limit, partition_key, .. }
                && limit == n && key_view(partition_key) == Some(part)),
{
    if let Some(n) = ast.limit {
        let w = cs.len() - related_of(ast).len() - 1;
        assert(cs[w] matches OperatorConfig::Take { limit, partition_key, .. } && limit == n && key_view(
            partition_key,
        ) == Some(part));
    }
}

/// Appends the configurations of an `and`'s conditions in turn.
#[verifier::rlimit(60)]
fn append_and_configs(
    schema: &mut SchemaCache,
    configs: &mut Vec<OperatorConfig>,
    conditions: &Vec<Condition>,
    primary_key: &Vec<String>,
) -> (r: Result<(), String>)
    requires
        old(schema).wf(),
    ensures
        and_parts_translatable(conditions@, old(schema)@.columns.dom()) ==> r is Ok && final(schema)@ == old(schema)@,
        final(schema).wf(),
        schema_kept(old(schema)@, final(schema)@),
        r is Ok ==> old(configs)@.is_prefix_of(final(configs)@),
        r is Ok ==> and_pieces(
            conditions@,
            final(configs)@.subrange(old(configs)@.len() as int, final(configs)@.len() as int),
        ),
    decreases conditions,
{
    proof {
        assert(decreases_to!(*conditions => conditions@));
    }
    let ghost start = old(configs)@.len() as int;
    let ghost mut cuts: Seq<int> = seq![start];
    let mut i: usize = 0;
    while i < conditions.len()
        invariant
            i <= conditions@.len(),
            schema.wf(),
            schema_kept(old(schema)@, schema@),
            old(configs)@.is_prefix_of(configs@),
            and_parts_translatable(conditions@, old(schema)@.columns.dom()) ==> schema@ == old(schema)@,
            start == old(configs)@.len(),
            cuts.len() == i + 1,
            cuts[0] == start,
            cuts[i as int] == configs@.len(),
            forall|k: int| #![trigger cuts[k]] 0 <= k < i ==> cuts[k] <= cuts[k + 1],
            forall|k: int|
                #![trigger conditions@[k]]
                0 <= k < i ==> condition_segment(
                    conditions@[k],
                    configs@.subrange(cuts[k], cuts[k + 1]),
                ),
        decreases conditions@.len() - i,
    {
        proof {
            assert(decreases_to!(conditions@ => conditions@[i as int]));
            if and_parts_translatable(conditions@, old(schema)@.columns.dom()) {
                assert(condition_translatable(conditions@[i as int], old(schema)@.columns.dom()));
            }
        }
        let ghost mid = configs@;
        let ghost s1 = schema@;
        match append_condition_configs(schema, configs, &conditions[i], primary_key) {
            Err(e) => {
                proof {
                    lemma_kept_trans(old(schema)@, s1, schema@);
                }
                return Err(e);
            },
            Ok(_) => {},
        }
        proof {
            lemma_kept_trans(old(schema)@, s1, schema@);
        }
        proof {
            lemma_prefix_trans(old(configs)@, mid, configs@);
            assert forall|k: int| #![trigger conditions@[k]] 0 <= k < i implies condition_segment(
                conditions@[k],
                configs@.subrange(cuts[k], cuts[k + 1]),
            ) by {
                assert(cuts[k] <= cuts[k + 1]) by {
                    assert(0 <= k < i);
                }
                lemma_cuts_bounded(cuts, i as int, k);
                assert(configs@.subrange(cuts[k], cuts[k + 1]) =~= mid.subrange(cuts[k], cuts[k + 1]));
            }
            cuts = cuts.push(configs@.len() as int);
        }
        i = i + 1;
    }
    proof {
        let seg = configs@.subrange(start, configs@.len() as int);
        let rel = Seq::new(cuts.len(), |k: int| cuts[k] - start);
        assert(segment_cuts(conditions@.len() as int, seg.len() as int, rel));
        assert forall|k: int| #![trigger conditions@[k]] 0 <= k < conditions@.len() implies condition_segment(
            conditions@[k],
            seg.subrange(rel[k], rel[k + 1]),
        ) by {
            lemma_cuts_bounded(cuts, conditions@.len() as int, k);
            assert(seg.subrange(rel[k], rel[k + 1]) =~= configs@.subrange(cuts[k], cuts[k + 1]));
        }
    }
    Ok(())
}

/// Appends the configurations of a condition: a filter for a condition
/// without correlated subqueries, an exists check per correlated subquery
/// (an `or` of several becoming one `OrExists`), the conditions of an `and`
/// in turn.
#[verifier::loop_isolation(false)]
#[verifier::rlimit(80)]
fn append_condition_configs(
    schema: &mut SchemaCache,
    configs: &mut Vec<OperatorConfig>,
    cond: &Condition,
    primary_key: &Vec<String>,
) -> (r: Result<(), String>)
    requires
        old(schema).wf(),
    ensures
        condition_translatable(*cond, old(schema)@.columns.dom()) ==> r is Ok && final(schema)@ == old(schema)@,
        final(schema).wf(),
        schema_kept(old(schema)@, final(schema)@),
        r is Ok ==> old(configs)@.is_prefix_of(final(configs)@),
        r is Ok ==> condition_segment(
            *cond,
            final(configs)@.subrange(old(configs)@.len() as int, final(configs)@.len() as int),
        ),
        cond is Simple || (cond is Or && !has_csq(*cond)) ==> match predicate_of(*cond) {
            Ok(p) => r is Ok && final(configs)@.len() == old(configs)@.len() + 1 && (final(configs)@.last() matches OperatorConfig::Filter { predicate } && predicate@ == p),
            Err(m) => r matches Err(e) && e@ == m,
        },
        *cond matches Condition::CorrelatedSubquery { related, op, flip, .. } ==> (r is Ok ==> final(configs)@.len() == old(configs)@.len() + 1 && exists_for(final(configs)@.last(), *related, op@, flipped(flip), None)),
    decreases cond,
{
    match cond {
        Condition::Simple { .. } => {
            match condition_to_predicate_json(cond) {
                Err(e) => Err(e),
                Ok(p) => {
                    configs.push(OperatorConfig::Filter { predicate: p });
                    assert(old(configs)@ =~= configs@.subrange(0, old(configs)@.len() as int));
                    Ok(())
                },
            }
        },
        Condition::And { conditions } => {
            proof {
                assert(decreases_to!(*cond => cond->And_conditions));
            }
            append_and_configs(schema, configs, conditions, primary_key)
        },
        Condition::Or { conditions } => {
            if !any_has_csq_exec(conditions) {
                match condition_to_predicate_json(cond) {
                    Err(e) => Err(e),
                    Ok(p) => {
                        configs.push(OperatorConfig::Filter { predicate: p });
                        assert(old(configs)@ =~= configs@.subrange(0, old(configs)@.len() as int));
                        Ok(())
                    },
                }
            } else {
                let mut preds = match plain_predicates_exec(conditions) {
                    Err(e) => {
                        return Err(e);
                    },
                    Ok(p) => p,
                };
                let ghost ps = preds@.map_values(|x: JsonValue| x@);
                let or_cond = if preds.len() == 0 {
                    None
                } else if preds.len() == 1 {
                    preds.pop()
                } else {
                    Some(make_obj1("or", make_array(preds)))
                };
                assert(opt_json(or_cond) == join_or(ps));
                proof {
                    assert(decreases_to!(*cond => cond->Or_conditions));
                    lemma_csq_count(conditions@);
                }
                if csq_count_exec(conditions) == 1 {
                    append_csq_pieces(schema, configs, conditions, primary_key, &or_cond)
                } else {
                    let mut branches: Vec<ExistsBranch> = Vec::new();
                    match collect_branch_pieces(schema, &mut branches, conditions, primary_key) {
                        Err(e) => {
                            return Err(e);
                        },
                        Ok(_) => {},
                    }
                    assert(branches@.subrange(0, branches@.len() as int) =~= branches@);
                    configs.push(OperatorConfig::OrExists { branches, or_condition: or_cond });
                    assert(old(configs)@ =~= configs@.subrange(0, old(configs)@.len() as int));
                    Ok(())
                }
            }
        },
        Condition::CorrelatedSubquery { related, op, flip, .. } => {
            proof {
                assert(decreases_to!(*cond => cond->CorrelatedSubquery_related));
            }
            let child = match exists_child(schema, related, flip) {
                Ok(c) => c,
                Err(e) => {
                    return Err(e);
                },
            };
            configs.push(
                OperatorConfig::Exists {
                    relationship_name: relationship_name(related),
                    not_exists: is_not_exists(op),
                    parent_key: copy_strings(&related.correlation.parent_field),
                    child_key: copy_strings(&related.correlation.child_field),
                    child,
                    or_condition: None,
                },
            );
            assert(old(configs)@ =~= configs@.subrange(0, old(configs)@.len() as int));
            Ok(())
        },
    }
}

/// Appends the exists checks of a correlated subquery inside an `or` whose
/// other branches make up `or_condition`: an exists check that also passes
/// where `or_condition` holds; for an `and`, a pre-filter on its plain
/// conditions (or `or_condition`) and an exists check per subquery; for a
/// nested `or`, its plain conditions joined to `or_condition`.
#[verifier::loop_isolation(false)]
#[verifier::rlimit(60)]
fn append_csq_as_exists(
    schema: &mut SchemaCache,
    configs: &mut Vec<OperatorConfig>,
    cond: &Condition,
    primary_key: &Vec<String>,
    or_condition: Option<JsonValue>,
) -> (r: Result<(), String>)
    requires
        old(schema).wf(),
    ensures
        csq_translatable(*cond, old(schema)@.columns.dom()) ==> r is Ok && final(schema)@ == old(schema)@,
        final(schema).wf(),
        schema_kept(old(schema)@, final(schema)@),
        r is Ok ==> old(configs)@.is_prefix_of(final(configs)@),
        *cond matches Condition::CorrelatedSubquery { related, op, flip, .. } ==> (r is Ok ==> final(configs)@.len() == old(configs)@.len() + 1 && exists_for(
            final(configs)@.last(),
            *related,
            op@,
            flipped(flip),
            opt_json(or_condition),
        )),
        r is Ok ==> csq_segment(
            *cond,
            opt_json(or_condition),
            final(configs)@.subrange(old(configs)@.len() as int, final(configs)@.len() as int),
        ),
        cond is Simple ==> (r matches Err(e) && "Expected CorrelatedSubquery, And, or Or, got "@.is_prefix_of(e@)),
    decreases cond,
{
    match cond {
        Condition::CorrelatedSubquery { related, op, flip, .. } => {
            proof {
                assert(decreases_to!(*cond => cond->CorrelatedSubquery_related));
            }
            let child = match exists_child(schema, related, flip) {
                Ok(c) => c,
                Err(e) => {
                    return Err(e);
                },
            };
            configs.push(
                OperatorConfig::Exists {
                    relationship_name: relationship_name(related),
                    not_exists: is_not_exists(op),
                    parent_key: copy_strings(&related.correlation.parent_field),
                    child_key: copy_strings(&related.correlation.child_field),
                    child,
                    or_condition,
                },
            );
            assert(old(configs)@ =~= configs@.subrange(0, old(configs)@.len() as int));
            Ok(())
        },
        Condition::And { conditions } => {
            if !any_has_csq_exec(conditions) {
                return Err(String::from_str("AND inside OR with no correlated subqueries"));
            }
            let mut gates = match plain_predicates_exec(conditions) {
                Err(e) => {
                    return Err(e);
                },
                Ok(g) => g,
            };
            let ghost gs = gates@.map_values(|x: JsonValue| x@);
            let ghost start = configs@.len();
            if gates.len() > 0 {
                let gate_json = if gates.len() == 1 {
                    match gates.pop() {
                        Some(p) => p,
                        None => make_array(Vec::new()),
                    }
                } else {
                    make_obj1("and", make_array(gates))
                };
                assert(gate_json@ == join_and(gs));
                let prefilter = match &or_condition {
                    Some(oc) => {
                        let d = oc.duplicate();
                        let ghost pair = seq![d, gate_json];
                        let both = vec![d, gate_json];
                        assert(both@.map_values(|x: JsonValue| x@) =~= seq![oc@, join_and(gs)]) by {
                            assert(both@ == pair);
                        }
                        make_obj1("or", make_array(both))
                    },
                    None => gate_json,
                };
                assert(prefilter@ == gate_filter(opt_json(or_condition), join_and(gs)));
                configs.push(OperatorConfig::Filter { predicate: prefilter });
                assert(old(configs)@ =~= configs@.subrange(0, old(configs)@.len() as int));
            }
            proof {
                assert(decreases_to!(*cond => cond->And_conditions));
            }
            let ghost mid = configs@;
            let r = append_csq_pieces(schema, configs, conditions, primary_key, &or_condition);
            proof {
                if r is Ok {
                    lemma_prefix_trans(old(configs)@, mid, configs@);
                    let seg = configs@.subrange(start as int, configs@.len() as int);
                    assert(after_gate(seg, gs.len()) =~= configs@.subrange(mid.len() as int, configs@.len() as int));
                    if gs.len() > 0 {
                        assert(seg[0] == mid.last());
                    }
                }
            }
            r
        },
        Condition::Or { conditions } => {
            let mut preds = match plain_predicates_exec(conditions) {
                Err(e) => {
                    return Err(e);
                },
                Ok(p) => p,
            };
            let ghost ps = preds@.map_values(|x: JsonValue| x@);
            let mut all_simple: Vec<JsonValue> = Vec::new();
            match &or_condition {
                Some(oc) => {
                    all_simple.push(oc.duplicate());
                },
                None => {},
            }
            let ghost first = all_simple@;
            let ghost pv = preds@;
            all_simple.append(&mut preds);
            let ghost joined = opt_seq(opt_json(or_condition)) + ps;
            assert(first.map_values(|x: JsonValue| x@) =~= opt_seq(opt_json(or_condition)));
            assert(all_simple@.map_values(|x: JsonValue| x@) =~= joined) by {
                assert(all_simple@ == first + pv);
                assert((first + pv).map_values(|x: JsonValue| x@) =~= first.map_values(
                    |x: JsonValue| x@,
                ) + pv.map_values(|x: JsonValue| x@));
            }
            let combined = if all_simple.len() == 0 {
                None
            } else if all_simple.len() == 1 {
                all_simple.pop()
            } else {
                Some(make_obj1("or", make_array(all_simple)))
            };
            assert(opt_json(combined) == join_or(joined));
            proof {
                assert(decreases_to!(*cond => cond->Or_conditions));
            }
            if csq_count_exec(conditions) <= 1 {
                append_csq_pieces(schema, configs, conditions, primary_key, &combined)
            } else {
                let mut branches: Vec<ExistsBranch> = Vec::new();
                match collect_branch_pieces(schema, &mut branches, conditions, primary_key) {
                    Err(e) => {
                        return Err(e);
                    },
                    Ok(_) => {},
                }
                assert(branches@.subrange(0, branches@.len() as int) =~= branches@);
                configs.push(OperatorConfig::OrExists { branches, or_condition: combined });
                assert(old(configs)@ =~= configs@.subrange(0, old(configs)@.len() as int));
                Ok(())
            }
        },
        Condition::Simple { .. } => Err(
            with_condition_text("Expected CorrelatedSubquery, And, or Or, got ", cond),
        ),
    }
}

/// Appends the exists checks of the conditions with correlated subqueries,
/// in order, each also passing where `or_condition` holds.
#[verifier::rlimit(60)]
fn append_csq_pieces(
    schema: &mut SchemaCache,
    configs: &mut Vec<OperatorConfig>,
    conditions: &Vec<Condition>,
    primary_key: &Vec<String>,
    or_condition: &Option<JsonValue>,
) -> (r: Result<(), String>)
    requires
        old(schema).wf(),
    ensures
        csq_parts_translatable(conditions@, old(schema)@.columns.dom()) ==> r is Ok && final(schema)@ == old(schema)@,
        final(schema).wf(),
        schema_kept(old(schema)@, final(schema)@),
        r is Ok ==> old(configs)@.is_prefix_of(final(configs)@),
        r is Ok ==> csq_pieces(
            conditions@,
            opt_json(*or_condition),
            final(configs)@.subrange(old(configs)@.len() as int, final(configs)@.len() as int),
        ),
    decreases conditions,
{
    proof {
        assert(decreases_to!(*conditions => conditions@));
    }
    let ghost oc = opt_json(*or_condition);
    let ghost start = old(configs)@.len() as int;
    let ghost mut cuts: Seq<int> = seq![0int];
    let mut k: usize = 0;
    while k < conditions.len()
        invariant
            csq_parts_translatable(conditions@, old(schema)@.columns.dom()) ==> schema@ == old(schema)@,
            k <= conditions@.len(),
            schema.wf(),
            schema_kept(old(schema)@, schema@),
            old(configs)@.is_prefix_of(configs@),
            start == old(configs)@.len(),
            oc == opt_json(*or_condition),
            cuts.len() == k + 1,
            cuts[0] == 0,
            cuts[k as int] == configs@.len() - start,
            forall|j: int| #![trigger cuts[j]] 0 <= j < k ==> cuts[j] <= cuts[j + 1],
            forall|j: int|
                #![trigger conditions@[j]]
                0 <= j < k ==> if has_csq(conditions@[j]) {
                    csq_segment(
                        conditions@[j],
                        oc,
                        configs@.subrange(start + cuts[j], start + cuts[j + 1]),
                    )
                } else {
                    cuts[j] == cuts[j + 1]
                },
        decreases conditions@.len() - k,
    {
        proof {
            assert(decreases_to!(conditions@ => conditions@[k as int]));
        }
        let ghost mid = configs@;
        if has_csq_exec(&conditions[k]) {
            let ghost s1 = schema@;
            proof {
                if csq_parts_translatable(conditions@, old(schema)@.columns.dom()) {
                    assert(csq_translatable(conditions@[k as int], old(schema)@.columns.dom()));
                }
            }
            match append_csq_as_exists(schema, configs, &conditions[k], primary_key, dup_opt(or_condition)) {
                Err(e) => {
                    proof {
                        lemma_kept_trans(old(schema)@, s1, schema@);
                    }
                    return Err(e);
                },
                Ok(_) => {},
            }
            proof {
                lemma_kept_trans(old(schema)@, s1, schema@);
                lemma_prefix_trans(old(configs)@, mid, configs@);
            }
        }
        proof {
            assert forall|j: int| #![trigger conditions@[j]] 0 <= j < k implies if has_csq(conditions@[j]) {
                csq_segment(
                    conditions@[j],
                    oc,
                    configs@.subrange(start + cuts[j], start + cuts[j + 1]),
                )
            } else {
                cuts[j] == cuts[j + 1]
            } by {
                lemma_cuts_bounded(cuts, k as int, j);
                assert(configs@.subrange(start + cuts[j], start + cuts[j + 1]) =~= mid.subrange(start + cuts[j], start + cuts[j + 1]));
            }
            cuts = cuts.push(configs@.len() - start);
        }
        k = k + 1;
    }
    proof {
        let seg = configs@.subrange(start, configs@.len() as int);
        assert(segment_cuts(conditions@.len() as int, seg.len() as int, cuts));
        assert forall|j: int| #![trigger conditions@[j]] 0 <= j < conditions@.len() implies if has_csq(conditions@[j]) {
            csq_segment(conditions@[j], oc, seg.subrange(cuts[j], cuts[j + 1]))
        } else {
            cuts[j] == cuts[j + 1]
        } by {
            lemma_cuts_bounded(cuts, conditions@.len() as int, j);
            assert(seg.subrange(cuts[j], cuts[j + 1]) =~= configs@.subrange(start + cuts[j], start + cuts[j + 1]));
        }
    }
    Ok(())
}

/// Collects the exists branches of an `or`'s correlated subqueries: one per
/// subquery, those of an `and` each in turn.
#[verifier::loop_isolation(false)]
fn collect_exists_branches(
    schema: &mut SchemaCache,
    branches: &mut Vec<ExistsBranch>,
    cond: &Condition,
    primary_key: &Vec<String>,
) -> (r: Result<(), String>)
    requires
        old(schema).wf(),
    ensures
        branch_translatable(*cond, old(schema)@.columns.dom()) ==> r is Ok && final(schema)@ == old(schema)@,
        final(schema).wf(),
        schema_kept(old(schema)@, final(schema)@),
        r is Ok ==> old(branches)@.is_prefix_of(final(branches)@),
        r is Ok ==> branch_segment(
            *cond,
            final(branches)@.subrange(old(branches)@.len() as int, final(branches)@.len() as int),
        ),
        *cond matches Condition::CorrelatedSubquery { related, op, flip, .. } ==> (r is Ok ==> final(branches)@.len() == old(branches)@.len() + 1 && branch_for(final(branches)@.last(), *related, op@, flipped(flip))),
        cond is Simple || cond is Or ==> (r matches Err(e)
            && "Expected CorrelatedSubquery or And in OrExists branch, got "@.is_prefix_of(e@)),
    decreases cond,
{
    match cond {
        Condition::CorrelatedSubquery { related, op, flip, .. } => {
            proof {
                assert(decreases_to!(*cond => cond->CorrelatedSubquery_related));
            }
            let child = match exists_child(schema, related, flip) {
                Ok(c) => c,
                Err(e) => {
                    return Err(e);
                },
            };
            branches.push(
                ExistsBranch {
                    relationship_name: relationship_name(related),
                    not_exists: is_not_exists(op),
                    parent_key: copy_strings(&related.correlation.parent_field),
                    child_key: copy_strings(&related.correlation.child_field),
                    child,
                },
            );
            assert(old(branches)@ =~= branches@.subrange(0, old(branches)@.len() as int));
            Ok(())
        },
        Condition::And { conditions } => {
            if !any_has_csq_exec(conditions) {
                return Err(String::from_str("AND inside OR with no correlated subqueries"));
            }
            proof {
                assert(decreases_to!(*cond => cond->And_conditions));
            }
            collect_branch_pieces(schema, branches, conditions, primary_key)
        },
        _ => Err(
            with_condition_text("Expected CorrelatedSubquery or And in OrExists branch, got ", cond),
        ),
    }
}


/// Collects the exists branches of the conditions with correlated
/// subqueries, in order.
#[verifier::rlimit(60)]
fn collect_branch_pieces(
    schema: &mut SchemaCache,
    branches: &mut Vec<ExistsBranch>,
    conditions: &Vec<Condition>,
    primary_key: &Vec<String>,
) -> (r: Result<(), String>)
    requires
        old(schema).wf(),
    ensures
        branch_parts_translatable(conditions@, old(schema)@.columns.dom()) ==> r is Ok && final(schema)@ == old(schema)@,
        final(schema).wf(),
        schema_kept(old(schema)@, final(schema)@),
        r is Ok ==> old(branches)@.is_prefix_of(final(branches)@),
        r is Ok ==> branch_pieces(
            conditions@,
            final(branches)@.subrange(old(branches)@.len() as int, final(branches)@.len() as int),
        ),
    decreases conditions,
{
    proof {
        assert(decreases_to!(*conditions => conditions@));
    }
    let ghost start = old(branches)@.len() as int;
    let ghost mut cuts: Seq<int> = seq![0int];
    let mut k: usize = 0;
    while k < conditions.len()
        invariant
            branch_parts_translatable(conditions@, old(schema)@.columns.dom()) ==> schema@ == old(schema)@,
            k <= conditions@.len(),
            schema.wf(),
            schema_kept(old(schema)@, schema@),
            old(branches)@.is_prefix_of(branches@),
            start == old(branches)@.len(),
            cuts.len() == k + 1,
            cuts[0] == 0,
            cuts[k as int] == branches@.len() - start,
            forall|j: int| #![trigger cuts[j]] 0 <= j < k ==> cuts[j] <= cuts[j + 1],
            forall|j: int|
                #![trigger conditions@[j]]
                0 <= j < k ==> if has_csq(conditions@[j]) {
                    branch_segment(
                        conditions@[j],
                        branches@.subrange(start + cuts[j], start + cuts[j + 1]),
                    )
                } else {
                    cuts[j] == cuts[j + 1]
                },
        decreases conditions@.len() - k,
    {
        proof {
            assert(decreases_to!(conditions@ => conditions@[k as int]));
        }
        let ghost mid = branches@;
        if has_csq_exec(&conditions[k]) {
            let ghost s1 = schema@;
            proof {
                if branch_parts_translatable(conditions@, old(schema)@.columns.dom()) {
                    assert(branch_translatable(conditions@[k as int], old(schema)@.columns.dom()));
                }
            }
            match collect_exists_branches(schema, branches, &conditions[k], primary_key) {
                Err(e) => {
                    proof {
                        lemma_kept_trans(old(schema)@, s1, schema@);
                    }
                    return Err(e);
                },
                Ok(_) => {},
            }
            proof {
                lemma_kept_trans(old(schema)@, s1, schema@);
                lemma_prefix_trans(old(branches)@, mid, branches@);
            }
        }
        proof {
            assert forall|j: int| #![trigger conditions@[j]] 0 <= j < k implies if has_csq(conditions@[j]) {
                branch_segment(
                    conditions@[j],
                    branches@.subrange(start + cuts[j], start + cuts[j + 1]),
                )
            } else {
                cuts[j] == cuts[j + 1]
            } by {
                lemma_cuts_bounded(cuts, k as int, j);
                assert(branches@.subrange(start + cuts[j], start + cuts[j + 1]) =~= mid.subrange(start + cuts[j], start + cuts[j + 1]));
            }
            cuts = cuts.push(branches@.len() - start);
        }
        k = k + 1;
    }
    proof {
        let seg = branches@.subrange(start, branches@.len() as int);
        assert(segment_cuts(conditions@.len() as int, seg.len() as int, cuts));
        assert forall|j: int| #![trigger conditions@[j]] 0 <= j < conditions@.len() implies if has_csq(conditions@[j]) {
            branch_segment(conditions@[j], seg.subrange(cuts[j], cuts[j + 1]))
        } else {
            cuts[j] == cuts[j + 1]
        } by {
            lemma_cuts_bounded(cuts, conditions@.len() as int, j);
            assert(seg.subrange(cuts[j], cuts[j + 1]) =~= branches@.subrange(start + cuts[j], start + cuts[j + 1]));
        }
    }
    Ok(())
}

pub open spec fn pairs_view(ps: Seq<(String, String)>) -> Seq<(Seq<char>, Seq<char>)> {
    ps.map_values(|p: (String, String)| (p.0@, p.1@))
}

/// The (relationship name, table) of every subquery under a query, related
/// or in its condition, each followed by those under it, in order.
pub open spec fn child_tables_of_ast(ast: Ast) -> Seq<(Seq<char>, Seq<char>)>
    decreases ast,
{
    (match ast.related {
        Some(r) => related_pairs(r@),
        None => Seq::empty(),
    }) + (match ast.where_cond {
        Some(c) => child_tables_of_cond(*c),
        None => Seq::empty(),
    })
}

pub open spec fn related_pairs(rels: Seq<CorrelatedSubquery>) -> Seq<(Seq<char>, Seq<char>)>
    decreases rels,
{
    if rels.len() == 0 {
        Seq::empty()
    } else {
        related_pairs(rels.drop_last()) + seq![(rel_name(rels.last()), rels.last().subquery.table@)]
            + child_tables_of_ast(*rels.last().subquery)
    }
}

pub open spec fn child_tables_of_cond(c: Condition) -> Seq<(Seq<char>, Seq<char>)>
    decreases c,
{
    match c {
        Condition::And { conditions } => conds_pairs(conditions@),
        Condition::Or { conditions } => conds_pairs(conditions@),
        Condition::CorrelatedSubquery { related, .. } => seq![
            (rel_name(*related), related.subquery.table@),
        ] + child_tables_of_ast(*related.subquery),
        Condition::Simple { .. } => Seq::empty(),
    }
}

pub open spec fn conds_pairs(cs: Seq<Condition>) -> Seq<(Seq<char>, Seq<char>)>
    decreases cs,
{
    if cs.len() == 0 {
        Seq::empty()
    } else {
        conds_pairs(cs.drop_last()) + child_tables_of_cond(cs.last())
    }
}

/// The (relationship name, table) of every subquery under a query.
pub fn collect_child_tables(ast: &Ast) -> (r: Vec<(String, String)>)
    ensures
        pairs_view(r@) == child_tables_of_ast(*ast),
{
    let mut result: Vec<(String, String)> = Vec::new();
    collect_child_tables_recursive(ast, &mut result);
    assert(pairs_view(Seq::<(String, String)>::empty()) =~= Seq::<(Seq<char>, Seq<char>)>::empty());
    assert(Seq::<(Seq<char>, Seq<char>)>::empty() + child_tables_of_ast(*ast) =~= child_tables_of_ast(*ast));
    result
}

fn push_pair(out: &mut Vec<(String, String)>, a: String, b: String)
    ensures
        pairs_view(final(out)@) == pairs_view(old(out)@) + seq![(a@, b@)],
{
    let ghost before = out@;
    out.push((a, b));
    assert(pairs_view(out@) =~= pairs_view(before) + seq![(a@, b@)]);
}

fn collect_child_tables_recursive(ast: &Ast, out: &mut Vec<(String, String)>)
    ensures
        pairs_view(final(out)@) == pairs_view(old(out)@) + child_tables_of_ast(*ast),
    decreases ast,
{
    match &ast.related {
        Some(related) => {
            let mut i: usize = 0;
            while i < related.len()
                invariant
                    i <= related@.len(),
                    ast.related == Some(*related),
                    pairs_view(out@) == pairs_view(old(out)@) + related_pairs(related@.take(i as int)),
                decreases related@.len() - i,
            {
                proof {
                    assert(decreases_to!(*ast => ast.related));
                    assert(decreases_to!(ast.related => ast.related->Some_0));
                    assert(decreases_to!(*related => related@));
                    assert(decreases_to!(related@ => related@[i as int]));
                    assert(decreases_to!(related@[i as int] => related@[i as int].subquery));
                }
                assert(related@.take(i + 1).drop_last() =~= related@.take(i as int));
                assert(related@.take(i + 1).last() == related@[i as int]);
                let rel = &related[i];
                let ghost before = pairs_view(out@);
                push_pair(out, relationship_name(rel), rel.subquery.table.clone());
                collect_child_tables_recursive(&rel.subquery, out);
                assert(pairs_view(out@) =~= pairs_view(old(out)@) + related_pairs(related@.take(i + 1)));
                i = i + 1;
            }
            assert(related@.take(related@.len() as int) =~= related@);
        },
        None => {
            assert(pairs_view(out@) =~= pairs_view(old(out)@) + Seq::<(Seq<char>, Seq<char>)>::empty());
        },
    }
    let ghost mid = pairs_view(out@);
    match &ast.where_cond {
        Some(cond) => {
            proof {
                assert(decreases_to!(*ast => ast.where_cond));
            }
            collect_child_tables_from_condition(cond, out);
        },
        None => {},
    }
    assert(pairs_view(out@) =~= pairs_view(old(out)@) + child_tables_of_ast(*ast));
}

fn collect_child_tables_from_condition(cond: &Condition, out: &mut Vec<(String, String)>)
    ensures
        pairs_view(final(out)@) == pairs_view(old(out)@) + child_tables_of_cond(*cond),
    decreases cond,
{
    match cond {
        Condition::And { conditions } => {
            proof {
                assert(decreases_to!(*cond => cond->And_conditions));
            }
            collect_child_tables_from_conditions(conditions, out);
        },
        Condition::Or { conditions } => {
            proof {
                assert(decreases_to!(*cond => cond->Or_conditions));
            }
            collect_child_tables_from_conditions(conditions, out);
        },
        Condition::CorrelatedSubquery { related, .. } => {
            proof {
                assert(decreases_to!(*cond => cond->CorrelatedSubquery_related));
            }
            push_pair(out, relationship_name(related), related.subquery.table.clone());
            collect_child_tables_recursive(&related.subquery, out);
            assert(pairs_view(out@) =~= pairs_view(old(out)@) + child_tables_of_cond(*cond));
        },
        Condition::Simple { .. } => {
            assert(pairs_view(out@) =~= pairs_view(old(out)@) + child_tables_of_cond(*cond));
        },
    }
}

fn collect_child_tables_from_conditions(cs: &Vec<Condition>, out: &mut Vec<(String, String)>)
    ensures
        pairs_view(final(out)@) == pairs_view(old(out)@) + conds_pairs(cs@),
    decreases cs,
{
    let mut i: usize = 0;
    assert(pairs_view(out@) =~= pairs_view(old(out)@) + conds_pairs(cs@.take(0)));
    while i < cs.len()
        invariant
            i <= cs@.len(),
            pairs_view(out@) == pairs_view(old(out)@) + conds_pairs(cs@.take(i as int)),
        decreases cs@.len() - i,
    {
        proof {
            assert(decreases_to!(*cs => cs@));
            assert(decreases_to!(cs@ => cs@[i as int]));
        }
        assert(cs@.take(i + 1).drop_last() =~= cs@.take(i as int));
        assert(cs@.take(i + 1).last() == cs@[i as int]);
        collect_child_tables_from_condition(&cs[i], out);
        assert(pairs_view(out@) =~= pairs_view(old(out)@) + conds_pairs(cs@.take(i + 1)));
        i = i + 1;
    }
    assert(cs@.take(cs@.len() as int) =~= cs@);
}


/// A comparison of two literals with `=` or `IS` is the predicate that
/// always holds (`{"and": []}`) exactly when they are equal JSON values, and
/// the one that never holds (`{"or": []}`) otherwise; `!=` and `IS NOT`
/// give the opposite.
pub proof fn lemma_literal_comparison_predicate(c: Condition)
    requires
        c matches Condition::Simple { op, left, right } && left is Literal && right is Literal && (op@ == "="@
            || op@ == "IS"@ || op@ == "!="@ || op@ == "IS NOT"@),
    ensures
        ({
            let a = c->Simple_left->Literal_value@;
            let b = c->Simple_right->Literal_value@;
            let equal_ops = c->Simple_op@ == "="@ || c->Simple_op@ == "IS"@;
            predicate_of(c) == Ok::<JsonView, Seq<char>>(
                if json_equal(a, b) == equal_ops {
                    jobj1("and"@, JsonView::Array(Seq::empty()))
                } else {
                    jobj1("or"@, JsonView::Array(Seq::empty()))
                },
            )
        }),
{
    reveal_strlit("=");
    reveal_strlit("IS");
    reveal_strlit("!=");
    reveal_strlit("IS NOT");
}

} // verus!
