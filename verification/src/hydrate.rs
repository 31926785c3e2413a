//! What hydration reads from a pipeline's configuration: filter predicates
//! from their JSON form, grouping keys of join values, the source of a child
//! pipeline, the de-duplication key of a fanned-out row, and which parent
//! rows the exists operators keep.
use vstd::prelude::*;

use crate::ast_to_config::{
    predicate_key, predicate_of, predicate_op,
    predicates_of, simple_predicate, Condition, ConditionValue, PredicateOp,
};
use crate::companions::{number_text, number_to_string};
use crate::json::{
    assoc_insert, assoc_put, entries_get, index_of_key, jobj1, jobj2, json_text, json_view,
    json_views, lemma_entries_view, lemma_json_views, str_eq, to_json_string, JsonMap, JsonValue,
    JsonView,
};
use crate::operators::OperatorConfig;
use crate::query_builder::ColumnType;
use crate::text::{join, join_strings, views};

verus! {

/// A filter predicate over a row's columns.
pub enum Predicate {
    Eq(String, JsonValue),
    Neq(String, JsonValue),
    Gt(String, JsonValue),
    Lt(String, JsonValue),
    Gte(String, JsonValue),
    Lte(String, JsonValue),
    In(String, Vec<JsonValue>),
    /// A pattern match; the flag makes it case-insensitive.
    Like(String, String, bool),
    IsNull(String),
    IsNotNull(String),
    And(Vec<Predicate>),
    Or(Vec<Predicate>),
    Not(Box<Predicate>),
}

pub enum PredicateView {
    Eq(Seq<char>, JsonView),
    Neq(Seq<char>, JsonView),
    Gt(Seq<char>, JsonView),
    Lt(Seq<char>, JsonView),
    Gte(Seq<char>, JsonView),
    Lte(Seq<char>, JsonView),
    In(Seq<char>, Seq<JsonView>),
    Like(Seq<char>, Seq<char>, bool),
    IsNull(Seq<char>),
    IsNotNull(Seq<char>),
    And(Seq<PredicateView>),
    Or(Seq<PredicateView>),
    Not(Box<PredicateView>),
}

pub open spec fn predicate_view(p: Predicate) -> PredicateView
    decreases p,
{
    match p {
        Predicate::Eq(f, v) => PredicateView::Eq(f@, json_view(v)),
        Predicate::Neq(f, v) => PredicateView::Neq(f@, json_view(v)),
        Predicate::Gt(f, v) => PredicateView::Gt(f@, json_view(v)),
        Predicate::Lt(f, v) => PredicateView::Lt(f@, json_view(v)),
        Predicate::Gte(f, v) => PredicateView::Gte(f@, json_view(v)),
        Predicate::Lte(f, v) => PredicateView::Lte(f@, json_view(v)),
        Predicate::In(f, vs) => PredicateView::In(f@, json_views(vs@)),
        Predicate::Like(f, pat, ci) => PredicateView::Like(f@, pat@, ci),
        Predicate::IsNull(f) => PredicateView::IsNull(f@),
        Predicate::IsNotNull(f) => PredicateView::IsNotNull(f@),
        Predicate::And(ps) => PredicateView::And(predicates_view(ps@)),
        Predicate::Or(ps) => PredicateView::Or(predicates_view(ps@)),
        Predicate::Not(q) => PredicateView::Not(Box::new(predicate_view(*q))),
    }
}

pub open spec fn predicates_view(ps: Seq<Predicate>) -> Seq<PredicateView>
    decreases ps,
{
    if ps.len() == 0 {
        Seq::empty()
    } else {
        seq![predicate_view(ps[0])] + predicates_view(ps.drop_first())
    }
}

impl View for Predicate {
    type V = PredicateView;

    open spec fn view(&self) -> PredicateView {
        predicate_view(*self)
    }
}

proof fn lemma_predicates_view(ps: Seq<Predicate>)
    ensures
        predicates_view(ps).len() == ps.len(),
        forall|i: int| 0 <= i < ps.len() ==> #[trigger] predicates_view(ps)[i] == predicate_view(ps[i]),
    decreases ps.len(),
{
    if ps.len() > 0 {
        lemma_predicates_view(ps.drop_first());
        assert forall|i: int| 0 <= i < ps.len() implies #[trigger] predicates_view(ps)[i] == predicate_view(
            ps[i],
        ) by {
            if i > 0 {
                assert(ps.drop_first()[i - 1] == ps[i]);
            }
        }
    }
}

/// The object holds the key.
pub open spec fn has_key(es: Seq<(Seq<char>, JsonView)>, k: Seq<char>) -> bool {
    entries_get(es, k) is Some
}

/// The object's value for a key it holds.
pub open spec fn value_of(es: Seq<(Seq<char>, JsonView)>, k: Seq<char>) -> JsonView {
    entries_get(es, k)->Some_0
}

/// The predicate of an object with a `field`: the first operator key it
/// holds among `eq`, `neq`, `gt`, `lt`, `gte`, `lte`, `in` (an array),
/// `like` and `ilike` (a string), then `isNull` and `isNotNull` where they
/// are `true`.
pub open spec fn field_operator(es: Seq<(Seq<char>, JsonView)>, f: Seq<char>) -> Result<PredicateView, Seq<char>> {
    if has_key(es, "eq"@) {
        Ok(PredicateView::Eq(f, value_of(es, "eq"@)))
    } else if has_key(es, "neq"@) {
        Ok(PredicateView::Neq(f, value_of(es, "neq"@)))
    } else if has_key(es, "gt"@) {
        Ok(PredicateView::Gt(f, value_of(es, "gt"@)))
    } else if has_key(es, "lt"@) {
        Ok(PredicateView::Lt(f, value_of(es, "lt"@)))
    } else if has_key(es, "gte"@) {
        Ok(PredicateView::Gte(f, value_of(es, "gte"@)))
    } else if has_key(es, "lte"@) {
        Ok(PredicateView::Lte(f, value_of(es, "lte"@)))
    } else if has_key(es, "in"@) {
        match value_of(es, "in"@) {
            JsonView::Array(xs) => Ok(PredicateView::In(f, xs)),
            _ => Err("'in' value must be an array"@),
        }
    } else if has_key(es, "like"@) {
        match value_of(es, "like"@) {
            JsonView::Str(s) => Ok(PredicateView::Like(f, s, false)),
            _ => Err("'like' value must be a string"@),
        }
    } else if has_key(es, "ilike"@) {
        match value_of(es, "ilike"@) {
            JsonView::Str(s) => Ok(PredicateView::Like(f, s, true)),
            _ => Err("'ilike' value must be a string"@),
        }
    } else if has_key(es, "isNull"@) && value_of(es, "isNull"@) == JsonView::Bool(true) {
        Ok(PredicateView::IsNull(f))
    } else if has_key(es, "isNotNull"@) && value_of(es, "isNotNull"@) == JsonView::Bool(true) {
        Ok(PredicateView::IsNotNull(f))
    } else {
        Err("unknown predicate operator for field "@ + f)
    }
}

/// Where the object holds the key (its length where it does not).
pub open spec fn key_at(es: Seq<(Seq<char>, JsonView)>, k: Seq<char>) -> int {
    index_of_key(es, k)
}

/// The predicate a JSON value describes: an object with a `field` and an
/// operator; else one with `and` or `or` (an array of predicates, the first
/// error among them reported), else with `not` (a predicate).
pub open spec fn parse_predicate(v: JsonView) -> Result<PredicateView, Seq<char>>
    decreases v, 0int,
{
    match v {
        JsonView::Object(es) => if has_key(es, "field"@) {
            match value_of(es, "field"@) {
                JsonView::Str(f) => field_operator(es, f),
                _ => Err("field must be a string"@),
            }
        } else if 0 <= key_at(es, "and"@) < es.len() {
            match es[key_at(es, "and"@)].1 {
                JsonView::Array(xs) => match parse_predicates(xs) {
                    Ok(ps) => Ok(PredicateView::And(ps)),
                    Err(e) => Err(e),
                },
                _ => Err("and must be an array"@),
            }
        } else if 0 <= key_at(es, "or"@) < es.len() {
            match es[key_at(es, "or"@)].1 {
                JsonView::Array(xs) => match parse_predicates(xs) {
                    Ok(ps) => Ok(PredicateView::Or(ps)),
                    Err(e) => Err(e),
                },
                _ => Err("or must be an array"@),
            }
        } else if 0 <= key_at(es, "not"@) < es.len() {
            match parse_predicate(es[key_at(es, "not"@)].1) {
                Ok(p) => Ok(PredicateView::Not(Box::new(p))),
                Err(e) => Err(e),
            }
        } else {
            Err("unknown predicate format"@)
        },
        _ => Err("predicate must be an object"@),
    }
}

/// The predicates of a list, in order; the first error among them.
pub open spec fn parse_predicates(xs: Seq<JsonView>) -> Result<Seq<PredicateView>, Seq<char>>
    decreases xs, xs.len(),
{
    if xs.len() == 0 {
        Ok(Seq::empty())
    } else {
        match parse_predicates(xs.drop_last()) {
            Err(e) => Err(e),
            Ok(ps) => match parse_predicate(xs.last()) {
                Ok(p) => Ok(ps.push(p)),
                Err(e) => Err(e),
            },
        }
    }
}

proof fn lemma_key_at(es: Seq<(Seq<char>, JsonView)>, k: Seq<char>)
    ensures
        0 <= key_at(es, k) <= es.len(),
        (key_at(es, k) < es.len()) == has_key(es, k),
        key_at(es, k) < es.len() ==> es[key_at(es, k)].0 == k && value_of(es, k) == es[key_at(
            es,
            k,
        )].1,
    decreases es.len(),
{
    if es.len() > 0 {
        lemma_key_at(es.drop_first(), k);
    }
}

proof fn lemma_first_key(es: Seq<(Seq<char>, JsonView)>, k: Seq<char>, i: int)
    requires
        0 <= i <= es.len(),
        forall|j: int| 0 <= j < i ==> (#[trigger] es[j]).0 != k,
        i == es.len() || es[i].0 == k,
    ensures
        index_of_key(es, k) == i,
    decreases i,
{
    if i > 0 {
        assert forall|j: int| 0 <= j < i - 1 implies (#[trigger] es.drop_first()[j]).0 != k by {
            assert(es.drop_first()[j] == es[j + 1]);
        }
        if i < es.len() {
            assert(es.drop_first()[i - 1] == es[i]);
        }
        lemma_first_key(es.drop_first(), k, i - 1);
    }
}

/// Where the object holds the key, its length where it does not.
fn find_key(m: &JsonMap, k: &str) -> (r: usize)
    ensures
        r == key_at(m@, k@),
        r <= m.entries@.len(),
        m@.len() == m.entries@.len(),
{
    proof {
        lemma_entries_view(m.entries@);
    }
    let mut i: usize = 0;
    while i < m.entries.len()
        invariant
            i <= m.entries@.len(),
            m@.len() == m.entries@.len(),
            forall|j: int| 0 <= j < m@.len() ==> #[trigger] m@[j] == (m.entries@[j].0@, json_view(m.entries@[j].1)),
            forall|j: int| 0 <= j < i ==> (#[trigger] m@[j]).0 != k@,
        decreases m.entries@.len() - i,
    {
        if str_eq(m.entries[i].0.as_str(), k) {
            assert(m@[i as int].0 == k@);
            proof {
                lemma_first_key(m@, k@, i as int);
            }
            return i;
        }
        assert(m@[i as int].0 != k@);
        i = i + 1;
    }
    proof {
        lemma_first_key(m@, k@, i as int);
    }
    i
}

/// A copy of the value a map holds for a key it has.
fn value_copy(m: &JsonMap, k: &str) -> (r: Option<JsonValue>)
    ensures
        match r {
            Some(v) => has_key(m@, k@) && v@ == value_of(m@, k@),
            None => !has_key(m@, k@),
        },
{
    match m.get(k) {
        Some(v) => Some(v.duplicate()),
        None => None,
    }
}

fn field_operator_exec(m: &JsonMap, f: &String) -> (r: Result<Predicate, String>)
    ensures
        match field_operator(m@, f@) {
            Ok(p) => r matches Ok(q) && q@ == p,
            Err(e) => r matches Err(msg) && msg@ == e,
        },
{
    if let Some(v) = value_copy(m, "eq") {
        return Ok(Predicate::Eq(f.clone(), v));
    }
    if let Some(v) = value_copy(m, "neq") {
        return Ok(Predicate::Neq(f.clone(), v));
    }
    if let Some(v) = value_copy(m, "gt") {
        return Ok(Predicate::Gt(f.clone(), v));
    }
    if let Some(v) = value_copy(m, "lt") {
        return Ok(Predicate::Lt(f.clone(), v));
    }
    if let Some(v) = value_copy(m, "gte") {
        return Ok(Predicate::Gte(f.clone(), v));
    }
    if let Some(v) = value_copy(m, "lte") {
        return Ok(Predicate::Lte(f.clone(), v));
    }
    if let Some(v) = value_copy(m, "in") {
        return match v {
            JsonValue::Array(xs) => Ok(Predicate::In(f.clone(), xs)),
            _ => Err(String::from_str("'in' value must be an array")),
        };
    }
    if let Some(v) = value_copy(m, "like") {
        return match v {
            JsonValue::String(pat) => Ok(Predicate::Like(f.clone(), pat, false)),
            _ => Err(String::from_str("'like' value must be a string")),
        };
    }
    if let Some(v) = value_copy(m, "ilike") {
        return match v {
            JsonValue::String(pat) => Ok(Predicate::Like(f.clone(), pat, true)),
            _ => Err(String::from_str("'ilike' value must be a string")),
        };
    }
    if let Some(v) = value_copy(m, "isNull") {
        if let JsonValue::Bool(true) = v {
            return Ok(Predicate::IsNull(f.clone()));
        }
    }
    if let Some(v) = value_copy(m, "isNotNull") {
        if let JsonValue::Bool(true) = v {
            return Ok(Predicate::IsNotNull(f.clone()));
        }
    }
    let mut msg = String::from_str("unknown predicate operator for field ");
    msg.append(f.as_str());
    Err(msg)
}

/// Reads the predicate a JSON value describes.
pub fn parse_predicate_json(value: &JsonValue) -> (r: Result<Predicate, String>)
    ensures
        match parse_predicate(value@) {
            Ok(p) => r matches Ok(q) && q@ == p,
            Err(e) => r matches Err(m) && m@ == e,
        },
    decreases value, 0int,
{
    match value {
        JsonValue::Object(m) => {
            proof {
                lemma_entries_view(m.entries@);
                lemma_key_at(m@, "field"@);
                lemma_key_at(m@, "and"@);
                lemma_key_at(m@, "or"@);
                lemma_key_at(m@, "not"@);
            }
            let fi = find_key(m, "field");
            if fi < m.entries.len() {
                return match &m.entries[fi].1 {
                    JsonValue::String(f) => field_operator_exec(m, f),
                    _ => Err(String::from_str("field must be a string")),
                };
            }
            let ai = find_key(m, "and");
            if ai < m.entries.len() {
                proof {
                    assert(decreases_to!(*value => value->Object_0));
                    assert(decreases_to!(value->Object_0 => value->Object_0.entries));
                    assert(decreases_to!(value->Object_0.entries => value->Object_0.entries@));
                    assert(decreases_to!(value->Object_0.entries@ => value->Object_0.entries@[ai as int]));
                }
                return match &m.entries[ai].1 {
                    JsonValue::Array(xs) => match parse_predicate_list(xs) {
                        Ok(ps) => Ok(Predicate::And(ps)),
                        Err(e) => Err(e),
                    },
                    _ => Err(String::from_str("and must be an array")),
                };
            }
            let oi = find_key(m, "or");
            if oi < m.entries.len() {
                proof {
                    assert(decreases_to!(*value => value->Object_0));
                    assert(decreases_to!(value->Object_0 => value->Object_0.entries));
                    assert(decreases_to!(value->Object_0.entries => value->Object_0.entries@));
                    assert(decreases_to!(value->Object_0.entries@ => value->Object_0.entries@[oi as int]));
                }
                return match &m.entries[oi].1 {
                    JsonValue::Array(xs) => match parse_predicate_list(xs) {
                        Ok(ps) => Ok(Predicate::Or(ps)),
                        Err(e) => Err(e),
                    },
                    _ => Err(String::from_str("or must be an array")),
                };
            }
            let ni = find_key(m, "not");
            if ni < m.entries.len() {
                proof {
                    assert(decreases_to!(*value => value->Object_0));
                    assert(decreases_to!(value->Object_0 => value->Object_0.entries));
                    assert(decreases_to!(value->Object_0.entries => value->Object_0.entries@));
                    assert(decreases_to!(value->Object_0.entries@ => value->Object_0.entries@[ni as int]));
                }
                return match parse_predicate_json(&m.entries[ni].1) {
                    Ok(p) => Ok(Predicate::Not(Box::new(p))),
                    Err(e) => Err(e),
                };
            }
            Err(String::from_str("unknown predicate format"))
        },
        _ => Err(String::from_str("predicate must be an object")),
    }
}

/// Reads the predicates of a list, in order, stopping at the first error.
fn parse_predicate_list(xs: &Vec<JsonValue>) -> (r: Result<Vec<Predicate>, String>)
    ensures
        match parse_predicates(json_views(xs@)) {
            Ok(ps) => r matches Ok(qs) && predicates_view(qs@) == ps,
            Err(e) => r matches Err(m) && m@ == e,
        },
    decreases xs, 1int,
{
    proof {
        lemma_json_views(xs@);
        assert(decreases_to!(*xs => xs@));
    }
    let mut out: Vec<Predicate> = Vec::new();
    let mut i: usize = 0;
    while i < xs.len()
        invariant
            i <= xs@.len(),
            json_views(xs@).len() == xs@.len(),
            forall|j: int| 0 <= j < xs@.len() ==> #[trigger] json_views(xs@)[j] == json_view(xs@[j]),
            parse_predicates(json_views(xs@).take(i as int)) matches Ok(ps) && predicates_view(out@) == ps,
        decreases xs@.len() - i,
    {
        proof {
            assert(decreases_to!(xs@ => xs@[i as int]));
        }
        let ghost before = out@;
        let ghost vs = json_views(xs@);
        assert(vs.take(i + 1).drop_last() =~= vs.take(i as int));
        assert(vs.take(i + 1).last() == json_view(xs@[i as int]));
        match parse_predicate_json(&xs[i]) {
            Err(e) => {
                proof {
                    lemma_parse_predicates_err(vs, i as int + 1);
                }
                return Err(e);
            },
            Ok(p) => {
                out.push(p);
                proof {
                    lemma_predicates_view(before);
                    lemma_predicates_view(out@);
                    assert(predicates_view(out@) =~= predicates_view(before).push(predicate_view(p)));
                }
            },
        }
        i = i + 1;
    }
    assert(json_views(xs@).take(xs@.len() as int) =~= json_views(xs@));
    Ok(out)
}

/// An error among the first `j` values is the error of the whole list.
proof fn lemma_parse_predicates_err(xs: Seq<JsonView>, j: int)
    requires
        0 <= j <= xs.len(),
        parse_predicates(xs.take(j)) is Err,
    ensures
        parse_predicates(xs) == parse_predicates(xs.take(j)),
    decreases xs.len() - j,
{
    if j < xs.len() {
        assert(xs.take(j + 1).drop_last() =~= xs.take(j));
        lemma_parse_predicates_err(xs, j + 1);
    } else {
        assert(xs.take(j) =~= xs);
    }
}

/// The comparison of a field with a value that an operator key stands for.
pub open spec fn comparison(k: PredicateOp, f: Seq<char>, v: JsonView) -> PredicateView {
    match k {
        PredicateOp::Eq => PredicateView::Eq(f, v),
        PredicateOp::Neq => PredicateView::Neq(f, v),
        PredicateOp::Gt => PredicateView::Gt(f, v),
        PredicateOp::Gte => PredicateView::Gte(f, v),
        PredicateOp::Lt => PredicateView::Lt(f, v),
        PredicateOp::Lte => PredicateView::Lte(f, v),
        PredicateOp::Like => PredicateView::Like(f, string_or_empty(v), false),
        PredicateOp::ILike => PredicateView::Like(f, string_or_empty(v), true),
        PredicateOp::In => PredicateView::In(f, array_or_single(v)),
    }
}

pub open spec fn string_or_empty(v: JsonView) -> Seq<char> {
    match v {
        JsonView::Str(s) => s,
        _ => Seq::empty(),
    }
}

pub open spec fn array_or_single(v: JsonView) -> Seq<JsonView> {
    match v {
        JsonView::Array(a) => a,
        _ => seq![v],
    }
}

proof fn lemma_literals()
    ensures
        "field"@ != "eq"@,
        "field"@ != "neq"@,
        "field"@ != "gt"@,
        "field"@ != "lt"@,
        "field"@ != "gte"@,
        "field"@ != "lte"@,
        "field"@ != "in"@,
        "field"@ != "like"@,
        "field"@ != "ilike"@,
        "field"@ != "isNull"@,
        "field"@ != "isNotNull"@,
        "field"@ != "and"@,
        "field"@ != "or"@,
        "field"@ != "not"@,
        "and"@ != "or"@,
        "and"@ != "not"@,
        "or"@ != "not"@,
        "eq"@ != "neq"@,
        "eq"@ != "gt"@,
        "eq"@ != "lt"@,
        "eq"@ != "gte"@,
        "eq"@ != "lte"@,
        "eq"@ != "in"@,
        "eq"@ != "like"@,
        "eq"@ != "ilike"@,
        "eq"@ != "isNull"@,
        "eq"@ != "isNotNull"@,
        "neq"@ != "gt"@,
        "neq"@ != "lt"@,
        "neq"@ != "gte"@,
        "neq"@ != "lte"@,
        "neq"@ != "in"@,
        "neq"@ != "like"@,
        "neq"@ != "ilike"@,
        "neq"@ != "isNull"@,
        "neq"@ != "isNotNull"@,
        "gt"@ != "lt"@,
        "gt"@ != "gte"@,
        "gt"@ != "lte"@,
        "gt"@ != "in"@,
        "gt"@ != "like"@,
        "gt"@ != "ilike"@,
        "gt"@ != "isNull"@,
        "gt"@ != "isNotNull"@,
        "lt"@ != "gte"@,
        "lt"@ != "lte"@,
        "lt"@ != "in"@,
        "lt"@ != "like"@,
        "lt"@ != "ilike"@,
        "lt"@ != "isNull"@,
        "lt"@ != "isNotNull"@,
        "gte"@ != "lte"@,
        "gte"@ != "in"@,
        "gte"@ != "like"@,
        "gte"@ != "ilike"@,
        "gte"@ != "isNull"@,
        "gte"@ != "isNotNull"@,
        "lte"@ != "in"@,
        "lte"@ != "like"@,
        "lte"@ != "ilike"@,
        "lte"@ != "isNull"@,
        "lte"@ != "isNotNull"@,
        "in"@ != "like"@,
        "in"@ != "ilike"@,
        "in"@ != "isNull"@,
        "in"@ != "isNotNull"@,
        "like"@ != "ilike"@,
        "like"@ != "isNull"@,
        "like"@ != "isNotNull"@,
        "ilike"@ != "isNull"@,
        "ilike"@ != "isNotNull"@,
        "isNull"@ != "isNotNull"@,
{
    reveal_strlit("and");
    reveal_strlit("eq");
    reveal_strlit("field");
    reveal_strlit("gt");
    reveal_strlit("gte");
    reveal_strlit("ilike");
    reveal_strlit("in");
    reveal_strlit("isNotNull");
    reveal_strlit("isNull");
    reveal_strlit("like");
    reveal_strlit("lt");
    reveal_strlit("lte");
    reveal_strlit("neq");
    reveal_strlit("not");
    reveal_strlit("or");
    assert("field"@.len() != "eq"@.len());
    assert("field"@.len() != "neq"@.len());
    assert("field"@.len() != "gt"@.len());
    assert("field"@.len() != "lt"@.len());
    assert("field"@.len() != "gte"@.len());
    assert("field"@.len() != "lte"@.len());
    assert("field"@.len() != "in"@.len());
    assert("field"@.len() != "like"@.len());
    assert("field"@[0] != "ilike"@[0]);
    assert("field"@.len() != "isNull"@.len());
    assert("field"@.len() != "isNotNull"@.len());
    assert("field"@.len() != "and"@.len());
    assert("field"@.len() != "or"@.len());
    assert("field"@.len() != "not"@.len());
    assert("and"@.len() != "or"@.len());
    assert("and"@[0] != "not"@[0]);
    assert("or"@.len() != "not"@.len());
    assert("eq"@.len() != "neq"@.len());
    assert("eq"@[0] != "gt"@[0]);
    assert("eq"@[0] != "lt"@[0]);
    assert("eq"@.len() != "gte"@.len());
    assert("eq"@.len() != "lte"@.len());
    assert("eq"@[0] != "in"@[0]);
    assert("eq"@.len() != "like"@.len());
    assert("eq"@.len() != "ilike"@.len());
    assert("eq"@.len() != "isNull"@.len());
    assert("eq"@.len() != "isNotNull"@.len());
    assert("neq"@.len() != "gt"@.len());
    assert("neq"@.len() != "lt"@.len());
    assert("neq"@[0] != "gte"@[0]);
    assert("neq"@[0] != "lte"@[0]);
    assert("neq"@.len() != "in"@.len());
    assert("neq"@.len() != "like"@.len());
    assert("neq"@.len() != "ilike"@.len());
    assert("neq"@.len() != "isNull"@.len());
    assert("neq"@.len() != "isNotNull"@.len());
    assert("gt"@[0] != "lt"@[0]);
    assert("gt"@.len() != "gte"@.len());
    assert("gt"@.len() != "lte"@.len());
    assert("gt"@[0] != "in"@[0]);
    assert("gt"@.len() != "like"@.len());
    assert("gt"@.len() != "ilike"@.len());
    assert("gt"@.len() != "isNull"@.len());
    assert("gt"@.len() != "isNotNull"@.len());
    assert("lt"@.len() != "gte"@.len());
    assert("lt"@.len() != "lte"@.len());
    assert("lt"@[0] != "in"@[0]);
    assert("lt"@.len() != "like"@.len());
    assert("lt"@.len() != "ilike"@.len());
    assert("lt"@.len() != "isNull"@.len());
    assert("lt"@.len() != "isNotNull"@.len());
    assert("gte"@[0] != "lte"@[0]);
    assert("gte"@.len() != "in"@.len());
    assert("gte"@.len() != "like"@.len());
    assert("gte"@.len() != "ilike"@.len());
    assert("gte"@.len() != "isNull"@.len());
    assert("gte"@.len() != "isNotNull"@.len());
    assert("lte"@.len() != "in"@.len());
    assert("lte"@.len() != "like"@.len());
    assert("lte"@.len() != "ilike"@.len());
    assert("lte"@.len() != "isNull"@.len());
    assert("lte"@.len() != "isNotNull"@.len());
    assert("in"@.len() != "like"@.len());
    assert("in"@.len() != "ilike"@.len());
    assert("in"@.len() != "isNull"@.len());
    assert("in"@.len() != "isNotNull"@.len());
    assert("like"@.len() != "ilike"@.len());
    assert("like"@.len() != "isNull"@.len());
    assert("like"@.len() != "isNotNull"@.len());
    assert("ilike"@.len() != "isNull"@.len());
    assert("ilike"@.len() != "isNotNull"@.len());
    assert("isNull"@.len() != "isNotNull"@.len());
}

/// A field comparison that a condition becomes reads back as that
/// comparison: `{"field": f, key: v}` for each operator key.
pub proof fn lemma_field_comparison_reads_back(k: PredicateOp, f: Seq<char>, v: JsonView)
    requires
        k == PredicateOp::Like || k == PredicateOp::ILike ==> v is Str,
        k == PredicateOp::In ==> v is Array,
    ensures
        parse_predicate(jobj2("field"@, JsonView::Str(f), predicate_key(k), v)) == Ok::<PredicateView, Seq<char>>(comparison(k, f, v)),
{
    lemma_literals();
    let key = predicate_key(k);
    let es = seq![("field"@, JsonView::Str(f)), (key, v)];
    assert(jobj2("field"@, JsonView::Str(f), key, v) == JsonView::Object(es));
    lemma_get_two("field"@, JsonView::Str(f), key, v, "field"@);
    lemma_get_two("field"@, JsonView::Str(f), key, v, "eq"@);
    lemma_get_two("field"@, JsonView::Str(f), key, v, "neq"@);
    lemma_get_two("field"@, JsonView::Str(f), key, v, "gt"@);
    lemma_get_two("field"@, JsonView::Str(f), key, v, "lt"@);
    lemma_get_two("field"@, JsonView::Str(f), key, v, "gte"@);
    lemma_get_two("field"@, JsonView::Str(f), key, v, "lte"@);
    lemma_get_two("field"@, JsonView::Str(f), key, v, "in"@);
    lemma_get_two("field"@, JsonView::Str(f), key, v, "like"@);
    lemma_get_two("field"@, JsonView::Str(f), key, v, "ilike"@);
}

proof fn lemma_get_two(k1: Seq<char>, v1: JsonView, k2: Seq<char>, v2: JsonView, k: Seq<char>)
    ensures
        entries_get(seq![(k1, v1), (k2, v2)], k) == (if k == k1 {
            Some(v1)
        } else if k == k2 {
            Some(v2)
        } else {
            None
        }),
{
    let es = seq![(k1, v1), (k2, v2)];
    assert(es.drop_first() =~= seq![(k2, v2)]);
    assert(es.drop_first().drop_first() =~= Seq::<(Seq<char>, JsonView)>::empty());
    reveal_with_fuel(entries_get, 3);
}

proof fn lemma_one_entry(k1: Seq<char>, v1: JsonView, k: Seq<char>)
    ensures
        entries_get(seq![(k1, v1)], k) == (if k == k1 {
            Some(v1)
        } else {
            None
        }),
        index_of_key(seq![(k1, v1)], k) == (if k == k1 {
            0int
        } else {
            1int
        }),
{
    let es = seq![(k1, v1)];
    assert(es.drop_first() =~= Seq::<(Seq<char>, JsonView)>::empty());
    reveal_with_fuel(entries_get, 2);
    reveal_with_fuel(index_of_key, 2);
}

/// `{"and": [...]}` and `{"or": [...]}` read as the predicates of the list.
proof fn lemma_parse_junction(key: Seq<char>, ps: Seq<JsonView>)
    requires
        key == "and"@ || key == "or"@,
    ensures
        parse_predicate(jobj1(key, JsonView::Array(ps))) == match parse_predicates(ps) {
            Ok(qs) => Ok(
                if key == "and"@ {
                    PredicateView::And(qs)
                } else {
                    PredicateView::Or(qs)
                },
            ),
            Err(e) => Err(e),
        },
{
    lemma_literals();
    lemma_one_entry(key, JsonView::Array(ps), "field"@);
    lemma_one_entry(key, JsonView::Array(ps), "and"@);
    lemma_one_entry(key, JsonView::Array(ps), "or"@);
}

/// `{"not": p}` reads as the negation of `p`.
proof fn lemma_parse_negation(inner: JsonView)
    ensures
        parse_predicate(jobj1("not"@, inner)) == match parse_predicate(inner) {
            Ok(p) => Ok(PredicateView::Not(Box::new(p))),
            Err(e) => Err(e),
        },
{
    lemma_literals();
    lemma_one_entry("not"@, inner, "field"@);
    lemma_one_entry("not"@, inner, "and"@);
    lemma_one_entry("not"@, inner, "or"@);
    lemma_one_entry("not"@, inner, "not"@);
}

/// A null check reads back as that check.
proof fn lemma_null_check_reads_back(f: Seq<char>, key: Seq<char>)
    requires
        key == "isNull"@ || key == "isNotNull"@,
    ensures
        parse_predicate(jobj2("field"@, JsonView::Str(f), key, JsonView::Bool(true))) == Ok::<
            PredicateView,
            Seq<char>,
        >(
            if key == "isNull"@ {
                PredicateView::IsNull(f)
            } else {
                PredicateView::IsNotNull(f)
            },
        ),
{
    lemma_literals();
    let v = JsonView::Bool(true);
    lemma_get_two("field"@, JsonView::Str(f), key, v, "field"@);
    lemma_get_two("field"@, JsonView::Str(f), key, v, "eq"@);
    lemma_get_two("field"@, JsonView::Str(f), key, v, "neq"@);
    lemma_get_two("field"@, JsonView::Str(f), key, v, "gt"@);
    lemma_get_two("field"@, JsonView::Str(f), key, v, "lt"@);
    lemma_get_two("field"@, JsonView::Str(f), key, v, "gte"@);
    lemma_get_two("field"@, JsonView::Str(f), key, v, "lte"@);
    lemma_get_two("field"@, JsonView::Str(f), key, v, "in"@);
    lemma_get_two("field"@, JsonView::Str(f), key, v, "like"@);
    lemma_get_two("field"@, JsonView::Str(f), key, v, "ilike"@);
    lemma_get_two("field"@, JsonView::Str(f), key, v, "isNull"@);
    lemma_get_two("field"@, JsonView::Str(f), key, v, "isNotNull"@);
}

/// A list parses when each of its values does.
proof fn lemma_parse_all(xs: Seq<JsonView>)
    requires
        forall|i: int| 0 <= i < xs.len() ==> (#[trigger] parse_predicate(xs[i])) is Ok,
    ensures
        parse_predicates(xs) is Ok,
    decreases xs.len(),
{
    if xs.len() > 0 {
        assert forall|i: int| 0 <= i < xs.drop_last().len() implies (#[trigger] parse_predicate(xs.drop_last()[i])) is Ok by {
            assert(xs.drop_last()[i] == xs[i]);
        }
        lemma_parse_all(xs.drop_last());
        assert(parse_predicate(xs[xs.len() - 1]) is Ok);
    }
}

proof fn lemma_predicates_of(cs: Seq<Condition>)
    ensures
        predicates_of(cs) matches Ok(ps) ==> ps.len() == cs.len() && forall|i: int|
            0 <= i < cs.len() ==> predicate_of(#[trigger] cs[i]) == Ok::<JsonView, Seq<char>>(ps[i]),
    decreases cs.len(),
{
    if cs.len() > 0 {
        lemma_predicates_of(cs.drop_first());
        if let Ok(ps) = predicates_of(cs) {
            assert forall|i: int| 0 <= i < cs.len() implies predicate_of(#[trigger] cs[i]) == Ok::<
                JsonView,
                Seq<char>,
            >(ps[i]) by {
                if i > 0 {
                    assert(cs.drop_first()[i - 1] == cs[i]);
                }
            }
        }
    }
}

proof fn lemma_simple_parses(op: Seq<char>, left: ConditionValue, right: ConditionValue)
    ensures
        simple_predicate(op, left, right) matches Ok(p) ==> parse_predicate(p) is Ok,
{
    lemma_parse_junction("and"@, Seq::empty());
    lemma_parse_junction("or"@, Seq::empty());
    match left {
        ConditionValue::Column { name } => {
            if let Ok(value) = crate::ast_to_config::literal_of(right) {
                let f = name@;
                if let Some(k) = predicate_op(op) {
                    if k == PredicateOp::In {
                        let arr = array_or_single(value);
                        lemma_field_comparison_reads_back(k, f, JsonView::Array(arr));
                        lemma_parse_negation(jobj2("field"@, JsonView::Str(f), "in"@, JsonView::Array(arr)));
                    } else if k == PredicateOp::Like || k == PredicateOp::ILike {
                        let pv = JsonView::Str(string_or_empty(value));
                        lemma_field_comparison_reads_back(k, f, pv);
                        lemma_parse_negation(jobj2("field"@, JsonView::Str(f), predicate_key(k), pv));
                    } else if value is Null {
                        lemma_null_check_reads_back(f, "isNull"@);
                        lemma_null_check_reads_back(f, "isNotNull"@);
                    } else {
                        lemma_field_comparison_reads_back(k, f, value);
                    }
                }
            }
        },
        _ => {},
    }
}

/// Every filter predicate that a condition becomes can be read back as a
/// predicate.
pub proof fn lemma_condition_predicate_parses(c: Condition)
    ensures
        predicate_of(c) matches Ok(p) ==> parse_predicate(p) is Ok,
    decreases c,
{
    match c {
        Condition::Simple { op, left, right } => {
            lemma_simple_parses(op@, left, right);
        },
        Condition::And { conditions } => {
            lemma_predicates_of(conditions@);
            if let Ok(ps) = predicates_of(conditions@) {
                assert forall|i: int| 0 <= i < ps.len() implies (#[trigger] parse_predicate(ps[i])) is Ok by {
                    assert(predicate_of(conditions@[i]) == Ok::<JsonView, Seq<char>>(ps[i]));
                    lemma_condition_predicate_parses(conditions@[i]);
                }
                lemma_parse_all(ps);
                lemma_parse_junction("and"@, ps);
            }
        },
        Condition::Or { conditions } => {
            lemma_predicates_of(conditions@);
            if let Ok(ps) = predicates_of(conditions@) {
                assert forall|i: int| 0 <= i < ps.len() implies (#[trigger] parse_predicate(ps[i])) is Ok by {
                    assert(predicate_of(conditions@[i]) == Ok::<JsonView, Seq<char>>(ps[i]));
                    lemma_condition_predicate_parses(conditions@[i]);
                }
                lemma_parse_all(ps);
                lemma_parse_junction("or"@, ps);
            }
        },
        Condition::CorrelatedSubquery { .. } => {},
    }
}

/// The key that groups rows by a join value: a string itself, a number's
/// notation, `true`/`false`, and `null` for anything else.
pub open spec fn group_key(v: JsonView) -> Seq<char> {
    match v {
        JsonView::Str(s) => s,
        JsonView::Number(n) => number_text(n),
        JsonView::Bool(b) => if b {
            "true"@
        } else {
            "false"@
        },
        _ => "null"@,
    }
}

/// The key that groups rows by a join value.
pub fn value_to_group_key(v: &JsonValue) -> (k: String)
    ensures
        k@ == group_key(v@),
{
    match v {
        JsonValue::String(s) => s.clone(),
        JsonValue::Number(n) => number_to_string(n),
        JsonValue::Bool(b) => if *b {
            String::from_str("true")
        } else {
            String::from_str("false")
        },
        _ => String::from_str("null"),
    }
}

/// Each of the columns typed as a string, one entry per distinct name in
/// the order the names first come.
pub open spec fn string_typed(cols: Seq<String>) -> Seq<(String, ColumnType)>
    decreases cols.len(),
{
    if cols.len() == 0 {
        Seq::empty()
    } else {
        assoc_put(string_typed(cols.drop_last()), cols.last(), ColumnType::String)
    }
}

/// What a child pipeline reads: its source's table, columns (each typed as
/// a string), primary key and sort; none when it does not start with a
/// source.
pub open spec fn child_source_info(cs: Seq<OperatorConfig>) -> Option<
    (Seq<char>, Seq<String>, Seq<(String, ColumnType)>, Seq<String>, Seq<(String, String)>),
> {
    if cs.len() > 0 {
        match cs[0] {
            OperatorConfig::Source { table_name, columns, primary_key, sort } => Some(
                (table_name@, columns@, string_typed(columns@), primary_key@, sort@),
            ),
            _ => None,
        }
    } else {
        None
    }
}

/// What a child pipeline reads from its source.
pub fn extract_child_source_info(child_config: &[OperatorConfig]) -> (r: Option<
    (String, Vec<String>, Vec<(String, ColumnType)>, Vec<String>, Vec<(String, String)>),
>)
    ensures
        match (r, child_source_info(child_config@)) {
            (Some(x), Some(s)) => x.0@ == s.0 && x.1@ == s.1 && x.2@ == s.2 && x.3@ == s.3 && x.4@
                == s.4,
            (None, None) => true,
            _ => false,
        },
{
    if child_config.len() == 0 {
        return None;
    }
    match &child_config[0] {
        OperatorConfig::Source { table_name, columns, primary_key, sort } => {
            let mut ct: Vec<(String, ColumnType)> = Vec::new();
            let mut i: usize = 0;
            while i < columns.len()
                invariant
                    i <= columns@.len(),
                    ct@ == string_typed(columns@.take(i as int)),
                decreases columns@.len() - i,
            {
                assert(columns@.take(i + 1).drop_last() =~= columns@.take(i as int));
                assoc_insert(&mut ct, columns[i].clone(), ColumnType::String);
                i = i + 1;
            }
            assert(columns@.take(columns@.len() as int) =~= columns@);
            Some(
                (
                    table_name.clone(),
                    crate::text::copy_strings(columns),
                    ct,
                    crate::text::copy_strings(primary_key),
                    crate::ast_to_config::copy_sort(sort),
                ),
            )
        },
        _ => None,
    }
}

/// A row's value of a column as JSON text, `null` where it has none.
pub open spec fn key_part(row: Seq<(Seq<char>, JsonView)>, col: Seq<char>) -> Seq<char> {
    match entries_get(row, col) {
        Some(v) => json_text(v),
        None => "null"@,
    }
}

/// The key that tells a fanned-out row from the others: the JSON texts of
/// its primary-key values, separated by the unit separator.
pub open spec fn fan_out_key(row: Seq<(Seq<char>, JsonView)>, pk: Seq<String>) -> Seq<char> {
    join(Seq::new(pk.len(), |i: int| key_part(row, pk[i]@)), "\u{1f}"@)
}

/// The key that tells a fanned-out row from the others.
pub fn pk_key(primary_key: &Vec<String>, row: &JsonMap) -> (k: String)
    ensures
        k@ == fan_out_key(row@, primary_key@),
{
    let mut parts: Vec<String> = Vec::new();
    let mut i: usize = 0;
    while i < primary_key.len()
        invariant
            i <= primary_key@.len(),
            views(parts@) =~= Seq::new(i as nat, |j: int| key_part(row@, primary_key@[j]@)),
        decreases primary_key@.len() - i,
    {
        let part = match row.get(primary_key[i].as_str()) {
            Some(v) => to_json_string(v),
            None => String::from_str("null"),
        };
        let ghost before = parts@;
        parts.push(part);
        assert(views(parts@) =~= views(before).push(key_part(row@, primary_key@[i as int]@)));
        i = i + 1;
    }
    join_strings(&parts, "\u{1f}")
}


/// Whether an exists check passes for a parent row with `count` matching
/// child rows: none for `NOT EXISTS`, some otherwise.
pub open spec fn exists_passes(not_exists: bool, count: nat) -> bool {
    if not_exists {
        count == 0
    } else {
        count > 0
    }
}

/// Whether an exists operator keeps a parent row: its check passes, or the
/// row meets the operator's short-circuit condition.
pub fn exists_keeps(not_exists: bool, child_count: usize, or_match: bool) -> (r: bool)
    ensures
        r == (exists_passes(not_exists, child_count as nat) || or_match),
{
    (if not_exists {
        child_count == 0
    } else {
        child_count > 0
    }) || or_match
}

/// Whether an or-exists operator keeps a parent row: some branch's check
/// passes (each branch given as its negation and its matching child count),
/// or the row meets the short-circuit condition.
pub fn or_exists_keeps(branches: &Vec<(bool, usize)>, or_match: bool) -> (r: bool)
    ensures
        r == (or_match || exists|i: int|
            0 <= i < branches@.len() && exists_passes(
                (#[trigger] branches@[i]).0,
                branches@[i].1 as nat,
            )),
{
    let mut any = false;
    let mut i: usize = 0;
    while i < branches.len()
        invariant
            i <= branches@.len(),
            any == exists|k: int|
                0 <= k < i && exists_passes((#[trigger] branches@[k]).0, branches@[k].1 as nat),
        decreases branches@.len() - i,
    {
        if exists_keeps(branches[i].0, branches[i].1, false) {
            any = true;
        }
        proof {
            if exists_passes(branches@[i as int].0, branches@[i as int].1 as nat) {
                assert(0 <= i < i + 1);
            }
        }
        i = i + 1;
    }
    any || or_match
}

/// Which rows a fan-out keeps, in order: the first of each key
/// (`fan_out_key`), later rows with the same key dropped.
pub fn fan_out_keep(primary_key: &Vec<String>, rows: &Vec<JsonMap>) -> (keep: Vec<bool>)
    ensures
        keep@.len() == rows@.len(),
        forall|i: int|
            0 <= i < rows@.len() ==> keep@[i] == !exists|j: int|
                0 <= j < i && fan_out_key((#[trigger] rows@[j])@, primary_key@) == fan_out_key(
                    rows@[i]@,
                    primary_key@,
                ),
{
    let mut seen: Vec<String> = Vec::new();
    let mut keep: Vec<bool> = Vec::new();
    let mut i: usize = 0;
    while i < rows.len()
        invariant
            i <= rows@.len(),
            keep@.len() == i,
            seen@.len() == i,
            forall|j: int| 0 <= j < i ==> (#[trigger] seen@[j])@ == fan_out_key(rows@[j]@, primary_key@),
            forall|k: int|
                0 <= k < i ==> keep@[k] == !exists|j: int|
                    0 <= j < k && fan_out_key((#[trigger] rows@[j])@, primary_key@) == fan_out_key(
                        rows@[k]@,
                        primary_key@,
                    ),
        decreases rows@.len() - i,
    {
        let key = pk_key(primary_key, &rows[i]);
        let mut found = false;
        let mut j: usize = 0;
        while j < seen.len()
            invariant
                j <= seen@.len(),
                seen@.len() == i,
                i < rows@.len(),
                key@ == fan_out_key(rows@[i as int]@, primary_key@),
                forall|m: int| 0 <= m < i ==> (#[trigger] seen@[m])@ == fan_out_key(rows@[m]@, primary_key@),
                found == exists|m: int|
                    0 <= m < j && fan_out_key((#[trigger] rows@[m])@, primary_key@) == key@,
            decreases seen@.len() - j,
        {
            if crate::json::str_eq(seen[j].as_str(), key.as_str()) {
                found = true;
                assert(fan_out_key(rows@[j as int]@, primary_key@) == key@);
            }
            j = j + 1;
        }
        let ghost old_keep = keep@;
        let ghost old_seen = seen@;
        keep.push(!found);
        seen.push(key);
        assert forall|k: int|
            0 <= k < i + 1 implies keep@[k] == !exists|j: int|
                0 <= j < k && fan_out_key((#[trigger] rows@[j])@, primary_key@) == fan_out_key(
                    rows@[k]@,
                    primary_key@,
                ) by {
            if k < i {
                assert(keep@[k] == old_keep[k]);
            }
        }
        assert forall|m: int| 0 <= m < i + 1 implies (#[trigger] seen@[m])@ == fan_out_key(rows@[m]@, primary_key@) by {
            if m < i {
                assert(seen@[m] == old_seen[m]);
            }
        }
        i = i + 1;
    }
    keep
}

} // verus!
