//! Reading from SQLite through rusqlite: statements go out as text with
//! parameters, rows come back as plain cells.
use vstd::prelude::*;

use crate::json::{from_serde_value, JsonNumber, JsonValue, JsonView, NumberKind};

verus! {

#[verifier::external_type_specification]
#[verifier::external_body]
pub struct ExConnection(rusqlite::Connection);

#[verifier::external_type_specification]
#[verifier::external_body]
pub struct ExSqliteValue(rusqlite::types::Value);

/// A statement parameter (rusqlite's `Value` without blobs).
pub enum SqlParam {
    Null,
    Integer(i64),
    /// A real: the `f64` approximation of the JSON number.
    Real(JsonNumber),
    Text(String),
}

/// One column of a fetched row.
pub enum SqlCell {
    Null,
    Integer(i64),
    /// A real, as the JSON value serde_json makes of it (null when it is not
    /// finite).
    Real(JsonValue),
    /// Text, as the bytes SQLite returned.
    Text(Vec<u8>),
    Blob(Vec<u8>),
}

/// Converts a parameter into rusqlite's representation, one for one.
#[verifier::external_body]
pub(crate) fn to_rusqlite_value(p: &SqlParam) -> rusqlite::types::Value {
    match p {
        SqlParam::Null => rusqlite::types::Value::Null,
        SqlParam::Integer(i) => rusqlite::types::Value::Integer(*i),
        SqlParam::Real(n) => rusqlite::types::Value::Real(match (&n.raw, n.kind) {
            (Some(r), _) => r.as_f64().unwrap_or_default(),
            (None, NumberKind::NegInt) => serde_json::Number::from(n.neg).as_f64().unwrap_or_default(),
            (None, _) => serde_json::Number::from(n.pos).as_f64().unwrap_or_default(),
        }),
        SqlParam::Text(s) => rusqlite::types::Value::Text(s.clone()),
    }
}

/// Converts a column read by rusqlite into a cell, one for one.
#[verifier::external_body]
pub(crate) fn to_cell(v: rusqlite::types::Value) -> SqlCell {
    match v {
        rusqlite::types::Value::Null => SqlCell::Null,
        rusqlite::types::Value::Integer(i) => SqlCell::Integer(i),
        rusqlite::types::Value::Real(f) => SqlCell::Real(from_serde_value(serde_json::Value::from(f))),
        rusqlite::types::Value::Text(s) => SqlCell::Text(s.into_bytes()),
        rusqlite::types::Value::Blob(b) => SqlCell::Blob(b),
    }
}

/// Runs a query through `Connection::prepare_cached` and `query_map`, reading
/// the first `ncols` columns of every row (`row.get::<_, Value>`, which fails
/// on a column that the statement does not have); an error carries
/// rusqlite's message. What comes back depends on the database, so nothing is
/// stated of it but its shape.
#[verifier::external_body]
pub(crate) fn query_cells(
    conn: &rusqlite::Connection,
    sql: &str,
    params: &Vec<SqlParam>,
    ncols: usize,
) -> (r: Result<Vec<Vec<SqlCell>>, String>)
    ensures
        r matches Ok(rows) ==> forall|i: int| 0 <= i < rows@.len() ==> (#[trigger] rows@[i])@.len() == ncols,
{
    let mut stmt = conn.prepare_cached(sql).map_err(|e| e.to_string())?;
    let ps = rusqlite::params_from_iter(params.iter().map(to_rusqlite_value));
    let rows = stmt.query_map(ps, |r| (0..ncols).map(|i| r.get::<_, rusqlite::types::Value>(i)).collect::<
        Result<Vec<_>, _>,
    >()).map_err(|e| e.to_string())?;
    let rows = rows.collect::<Result<Vec<_>, _>>().map_err(|e| e.to_string())?;
    Ok(rows.into_iter().map(|r| r.into_iter().map(to_cell).collect()).collect())
}

/// Runs a query as `query_cells` does, reading the first `ncols` columns of
/// each row as text (`row.get::<_, String>`), which fails on a column that
/// is not text. Nothing is stated of what comes back but its shape.
#[verifier::external_body]
pub(crate) fn query_strings(
    conn: &rusqlite::Connection,
    sql: &str,
    params: &Vec<SqlParam>,
    ncols: usize,
) -> (r: Result<Vec<Vec<String>>, String>)
    ensures
        r matches Ok(rows) ==> forall|i: int| 0 <= i < rows@.len() ==> (#[trigger] rows@[i])@.len() == ncols,
{
    let mut stmt = conn.prepare_cached(sql).map_err(|e| e.to_string())?;
    let ps = rusqlite::params_from_iter(params.iter().map(to_rusqlite_value));
    let rows = stmt.query_map(ps, |r| (0..ncols).map(|i| r.get::<_, String>(i)).collect::<
        Result<Vec<_>, _>,
    >()).map_err(|e| e.to_string())?;
    rows.collect::<Result<Vec<_>, _>>().map_err(|e| e.to_string())
}

/// `std::str::from_utf8(bytes).unwrap_or("")` as an owned string: the text
/// the bytes encode when they are valid UTF-8, else the empty string.
#[verifier::external_body]
pub(crate) fn utf8_or_empty(bytes: &[u8]) -> (s: String)
    ensures
        vstd::utf8::valid_utf8(bytes@) ==> s@ == vstd::utf8::decode_utf8(bytes@),
        !vstd::utf8::valid_utf8(bytes@) ==> s@ == Seq::<char>::empty(),
{
    std::str::from_utf8(bytes).unwrap_or("").to_string()
}

/// The parameter a JSON value binds as: null, a boolean as 0 or 1, an
/// integer number, another number as a real, text for a string and the JSON
/// text of anything else.
pub open spec fn sql_param_of(v: JsonView) -> SqlParamView {
    match v {
        JsonView::Null => SqlParamView::Null,
        JsonView::Bool(b) => SqlParamView::Integer(
            if b {
                1
            } else {
                0
            },
        ),
        JsonView::Number(n) => match n.spec_as_i64() {
            Some(i) => SqlParamView::Integer(i),
            None => SqlParamView::Real(n),
        },
        JsonView::Str(s) => SqlParamView::Text(s),
        _ => SqlParamView::Text(crate::json::json_text(v)),
    }
}

pub enum SqlParamView {
    Null,
    Integer(i64),
    Real(JsonNumber),
    Text(Seq<char>),
}

impl View for SqlParam {
    type V = SqlParamView;

    open spec fn view(&self) -> SqlParamView {
        match self {
            SqlParam::Null => SqlParamView::Null,
            SqlParam::Integer(i) => SqlParamView::Integer(*i),
            SqlParam::Real(n) => SqlParamView::Real(*n),
            SqlParam::Text(s) => SqlParamView::Text(s@),
        }
    }
}

pub open spec fn params_view(ps: Seq<SqlParam>) -> Seq<SqlParamView> {
    ps.map_values(|p: SqlParam| p@)
}

/// The parameter a JSON value binds as.
pub fn json_to_sqlite_value(val: &JsonValue) -> (p: SqlParam)
    ensures
        p@ == sql_param_of(val@),
{
    match val {
        JsonValue::Null => SqlParam::Null,
        JsonValue::Bool(b) => SqlParam::Integer(if *b { 1 } else { 0 }),
        JsonValue::Number(n) => match n.as_i64() {
            Some(i) => SqlParam::Integer(i),
            None => SqlParam::Real(n.duplicate()),
        },
        JsonValue::String(s) => SqlParam::Text(s.clone()),
        _ => SqlParam::Text(crate::json::to_json_string(val)),
    }
}

pub enum SqlCellView {
    Null,
    Integer(i64),
    Real(JsonView),
    Text(Seq<u8>),
    Blob(Seq<u8>),
}

impl View for SqlCell {
    type V = SqlCellView;

    open spec fn view(&self) -> SqlCellView {
        match self {
            SqlCell::Null => SqlCellView::Null,
            SqlCell::Integer(i) => SqlCellView::Integer(*i),
            SqlCell::Real(v) => SqlCellView::Real(v@),
            SqlCell::Text(b) => SqlCellView::Text(b@),
            SqlCell::Blob(b) => SqlCellView::Blob(b@),
        }
    }
}

/// A column's value as JSON: null, an integer, the real's value, the text
/// (empty when it is not UTF-8), a blob as base64 text.
pub open spec fn cell_json(c: SqlCellView) -> JsonView {
    match c {
        SqlCellView::Null => JsonView::Null,
        SqlCellView::Integer(i) => JsonView::Number(crate::json::int_number(i)),
        SqlCellView::Real(v) => v,
        SqlCellView::Text(b) => JsonView::Str(
            if vstd::utf8::valid_utf8(b) {
                vstd::utf8::decode_utf8(b)
            } else {
                Seq::empty()
            },
        ),
        SqlCellView::Blob(b) => JsonView::Str(crate::diff::base64(b)),
    }
}

/// A column's value as JSON.
pub fn sqlite_value_to_json(c: &SqlCell) -> (v: JsonValue)
    ensures
        v@ == cell_json(c@),
{
    match c {
        SqlCell::Null => JsonValue::Null,
        SqlCell::Integer(i) => JsonValue::Number(JsonNumber::from_i64(*i)),
        SqlCell::Real(v) => v.duplicate(),
        SqlCell::Text(b) => JsonValue::String(utf8_or_empty(b.as_slice())),
        SqlCell::Blob(b) => JsonValue::String(crate::diff::base64_encode(b.as_slice())),
    }
}

} // verus!
