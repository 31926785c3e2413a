//! A table read and written through SQLite, with the connections (sort,
//! filters, split keys) that fetch from it and the overlay that makes a
//! pushed change visible to their fetches.
use vstd::prelude::*;

use crate::advance::{opt_equal, split_key_changed};
use crate::diff::value_or_null;
use crate::json::{entries_get, json_eq, JsonMap, JsonValue, JsonView};
use crate::overlay::{
    all_leaves, compute_overlays, generate_with_overlay, generate_with_overlay_unordered,
    node_rows, overlay_rows, overlays_before_filter, rows_view, rows_without,
};
use crate::query_builder::{build_select_query, ColumnType, Condition, Constraint, OrderBy, Start};
use crate::source::{
    nodes_view, Change, FetchRequest, Node, Overlay, Row, RowView, SortDirection, SortSpec,
    SourceChange, SourceChangeView,
};
use crate::sqlite::{
    json_to_sqlite_value, params_view, sql_param_of, to_cell, to_rusqlite_value, utf8_or_empty,
    SqlCell, SqlCellView, SqlParam, SqlParamView,
};
use crate::text::{decimal, join, join_strings, push_decimal, quote, quoted, views};

verus! {

// --- Statements ---

/// `"{col}" = ?{n}`.
pub open spec fn numbered_eq(col: Seq<char>, n: nat) -> Seq<char> {
    quoted(col) + " = ?"@ + decimal(n)
}

/// One `"{col}" = ?{n}` per column, numbered from `start`.
pub open spec fn numbered_eqs(cols: Seq<String>, start: nat) -> Seq<Seq<char>> {
    Seq::new(cols.len(), |i: int| numbered_eq(cols[i]@, (start + i) as nat))
}

/// `?{n}` for `n` from 1 to `count`.
pub open spec fn placeholders(count: nat) -> Seq<Seq<char>> {
    Seq::new(count, |i: int| "?"@ + decimal((i + 1) as nat))
}

pub open spec fn quoted_all(cols: Seq<String>) -> Seq<Seq<char>> {
    Seq::new(cols.len(), |i: int| quoted(cols[i]@))
}

/// `SELECT 1 FROM "{table}" WHERE "{k1}" = ?1 AND ... LIMIT 1`.
pub open spec fn exists_sql(table: Seq<char>, pk: Seq<String>) -> Seq<char> {
    "SELECT 1 FROM "@ + quoted(table) + " WHERE "@ + join(numbered_eqs(pk, 1), " AND "@) + " LIMIT 1"@
}

/// `INSERT INTO "{table}" ("{c1}", ...) VALUES (?1, ...)`.
pub open spec fn insert_sql(table: Seq<char>, cols: Seq<String>) -> Seq<char> {
    "INSERT INTO "@ + quoted(table) + " ("@ + join(quoted_all(cols), ", "@) + ") VALUES ("@ + join(
        placeholders(cols.len()),
        ", "@,
    ) + ")"@
}

/// `DELETE FROM "{table}" WHERE "{k1}" = ?1 AND ...`.
pub open spec fn delete_sql(table: Seq<char>, pk: Seq<String>) -> Seq<char> {
    "DELETE FROM "@ + quoted(table) + " WHERE "@ + join(numbered_eqs(pk, 1), " AND "@)
}

/// `UPDATE "{table}" SET "{c1}" = ?1, ... WHERE "{k1}" = ?{n+1} AND ...`.
pub open spec fn update_sql(table: Seq<char>, set_cols: Seq<String>, pk: Seq<String>) -> Seq<char> {
    "UPDATE "@ + quoted(table) + " SET "@ + join(numbered_eqs(set_cols, 1), ", "@) + " WHERE "@
        + join(numbered_eqs(pk, (set_cols.len() + 1) as nat), " AND "@)
}

/// The parameters that bind a row's values of the columns (null where it
/// has none).
pub open spec fn row_params(row: RowView, cols: Seq<String>) -> Seq<SqlParamView> {
    Seq::new(cols.len(), |i: int| sql_param_of(value_or_null(row, cols[i]@)))
}

fn numbered_eq_list(cols: &Vec<String>, start: u64) -> (r: Vec<String>)
    requires
        start >= 1,
        start - 1 + cols@.len() <= u64::MAX,
    ensures
        views(r@) == numbered_eqs(cols@, start as nat),
{
    let mut r: Vec<String> = Vec::new();
    let mut i: usize = 0;
    while i < cols.len()
        invariant
            i <= cols@.len(),
            start >= 1,
            start - 1 + cols@.len() <= u64::MAX,
            views(r@) =~= numbered_eqs(cols@, start as nat).take(i as int),
        decreases cols@.len() - i,
    {
        let mut s = quote(cols[i].as_str());
        s.append(" = ?");
        push_decimal(&mut s, start + i as u64);
        let ghost before = r@;
        let ghost sv = s@;
        r.push(s);
        assert(views(r@) =~= views(before).push(sv));
        i = i + 1;
    }
    r
}

fn placeholder_list(count: usize) -> (r: Vec<String>)
    ensures
        views(r@) == placeholders(count as nat),
{
    let mut r: Vec<String> = Vec::new();
    let mut i: usize = 0;
    while i < count
        invariant
            i <= count,
            views(r@) =~= placeholders(count as nat).take(i as int),
        decreases count - i,
    {
        let mut s = String::from_str("?");
        push_decimal(&mut s, i as u64 + 1);
        let ghost before = r@;
        let ghost sv = s@;
        r.push(s);
        assert(views(r@) =~= views(before).push(sv));
        i = i + 1;
    }
    r
}

fn quoted_list(cols: &Vec<String>) -> (r: Vec<String>)
    ensures
        views(r@) == quoted_all(cols@),
{
    let mut r: Vec<String> = Vec::new();
    let mut i: usize = 0;
    while i < cols.len()
        invariant
            i <= cols@.len(),
            views(r@) =~= quoted_all(cols@).take(i as int),
        decreases cols@.len() - i,
    {
        let s = quote(cols[i].as_str());
        let ghost before = r@;
        let ghost sv = s@;
        r.push(s);
        assert(views(r@) =~= views(before).push(sv));
        i = i + 1;
    }
    r
}

fn row_param_list(row: &Row, cols: &Vec<String>) -> (r: Vec<SqlParam>)
    ensures
        params_view(r@) == row_params(row@, cols@),
{
    let mut r: Vec<SqlParam> = Vec::new();
    let mut i: usize = 0;
    while i < cols.len()
        invariant
            i <= cols@.len(),
            params_view(r@) =~= row_params(row@, cols@).take(i as int),
        decreases cols@.len() - i,
    {
        let p = match row.get(cols[i].as_str()) {
            Some(v) => json_to_sqlite_value(v),
            None => SqlParam::Null,
        };
        let ghost before = r@;
        let ghost pv = p@;
        r.push(p);
        assert(params_view(r@) =~= params_view(before).push(pv));
        i = i + 1;
    }
    r
}

/// The statement and parameters that look a row up by primary key.
pub fn build_exists_statement(table: &str, primary_key: &Vec<String>, row: &Row) -> (r: (
    String,
    Vec<SqlParam>,
))
    ensures
        r.0@ == exists_sql(table@, primary_key@),
        params_view(r.1@) == row_params(row@, primary_key@),
{
    let mut s = String::from_str("SELECT 1 FROM ");
    let t = quote(table);
    s.append(t.as_str());
    s.append(" WHERE ");
    assert(primary_key@.len() <= u64::MAX) by {
        let n = primary_key.len();
        assert(n <= usize::MAX);
    }
    let eqs = numbered_eq_list(primary_key, 1);
    let w = join_strings(&eqs, " AND ");
    s.append(w.as_str());
    s.append(" LIMIT 1");
    (s, row_param_list(row, primary_key))
}

/// The statement and parameters that insert a row.
pub fn build_insert_statement(table: &str, columns: &Vec<String>, row: &Row) -> (r: (String, Vec<SqlParam>))
    ensures
        r.0@ == insert_sql(table@, columns@),
        params_view(r.1@) == row_params(row@, columns@),
{
    let mut s = String::from_str("INSERT INTO ");
    let t = quote(table);
    s.append(t.as_str());
    s.append(" (");
    let qs = quoted_list(columns);
    let c = join_strings(&qs, ", ");
    s.append(c.as_str());
    s.append(") VALUES (");
    let ps = placeholder_list(columns.len());
    let p = join_strings(&ps, ", ");
    s.append(p.as_str());
    s.append(")");
    (s, row_param_list(row, columns))
}

/// The statement and parameters that delete a row by primary key.
pub fn build_delete_statement(table: &str, primary_key: &Vec<String>, row: &Row) -> (r: (
    String,
    Vec<SqlParam>,
))
    ensures
        r.0@ == delete_sql(table@, primary_key@),
        params_view(r.1@) == row_params(row@, primary_key@),
{
    let mut s = String::from_str("DELETE FROM ");
    let t = quote(table);
    s.append(t.as_str());
    s.append(" WHERE ");
    assert(primary_key@.len() <= u64::MAX) by {
        let n = primary_key.len();
        assert(n <= usize::MAX);
    }
    let eqs = numbered_eq_list(primary_key, 1);
    let w = join_strings(&eqs, " AND ");
    s.append(w.as_str());
    (s, row_param_list(row, primary_key))
}

/// The statement and parameters that update a row's other columns in place:
/// the new row's values, then the old row's primary key.
pub fn build_update_statement(
    table: &str,
    set_cols: &Vec<String>,
    primary_key: &Vec<String>,
    row: &Row,
    old_row: &Row,
) -> (r: (String, Vec<SqlParam>))
    requires
        set_cols@.len() + primary_key@.len() < u64::MAX,
    ensures
        r.0@ == update_sql(table@, set_cols@, primary_key@),
        params_view(r.1@) == row_params(row@, set_cols@) + row_params(old_row@, primary_key@),
{
    let mut s = String::from_str("UPDATE ");
    let t = quote(table);
    s.append(t.as_str());
    s.append(" SET ");
    assert(set_cols@.len() <= u64::MAX) by {
        let n = set_cols.len();
        assert(n <= usize::MAX);
    }
    let sets = numbered_eq_list(set_cols, 1);
    let c = join_strings(&sets, ", ");
    s.append(c.as_str());
    s.append(" WHERE ");
    let eqs = numbered_eq_list(primary_key, set_cols.len() as u64 + 1);
    let w = join_strings(&eqs, " AND ");
    s.append(w.as_str());
    let mut params = row_param_list(row, set_cols);
    let mut rest = row_param_list(old_row, primary_key);
    let ghost a = params_view(params@);
    let ghost b = params_view(rest@);
    params.append(&mut rest);
    assert(params_view(params@) =~= a + b);
    (s, params)
}

/// Runs a statement (`prepare`, `raw_bind_parameter` for each parameter from
/// 1 on, `raw_execute`) on the connection; an error carries rusqlite's
/// message. What it does to the database is not stated.
#[verifier::external_body]
fn execute_statement(conn: &rusqlite::Connection, sql: &str, params: &Vec<SqlParam>) -> Result<(), String> {
    let mut stmt = conn.prepare(sql).map_err(|e| e.to_string())?;
    for (i, p) in params.iter().enumerate() {
        stmt.raw_bind_parameter(i + 1, to_rusqlite_value(p)).map_err(|e| e.to_string())?;
    }
    stmt.raw_execute().map(|_| ()).map_err(|e| e.to_string())
}

/// Runs a query as `execute_statement` binds it (`raw_query`) and says
/// whether it yields a row; an error carries rusqlite's message. The answer
/// depends on the database, so nothing is stated of it.
#[verifier::external_body]
fn query_has_row(conn: &rusqlite::Connection, sql: &str, params: &Vec<SqlParam>) -> Result<bool, String> {
    let mut stmt = conn.prepare(sql).map_err(|e| e.to_string())?;
    for (i, p) in params.iter().enumerate() {
        stmt.raw_bind_parameter(i + 1, to_rusqlite_value(p)).map_err(|e| e.to_string())?;
    }
    let mut rows = stmt.raw_query();
    rows.next().map(|r| r.is_some()).map_err(|e| e.to_string())
}

/// Runs a query (`prepare`, then `query_map` with the parameters bound in
/// order) and reads every row: the statement's column names, and each row's
/// cells. What comes back depends on the
/// database, so nothing is stated of it but its shape.
#[verifier::external_body]
fn query_named_rows(conn: &rusqlite::Connection, sql: &str, params: &Vec<SqlParam>) -> (r: Result<
    (Vec<String>, Vec<Vec<SqlCell>>),
    String,
>)
    ensures
        r matches Ok((names, rows)) ==> forall|i: int|
            0 <= i < rows@.len() ==> (#[trigger] rows@[i])@.len() == names@.len(),
{
    let mut stmt = conn.prepare(sql).map_err(|e| e.to_string())?;
    let names: Vec<String> = stmt.column_names().into_iter().map(String::from).collect();
    let n = names.len();
    let ps = rusqlite::params_from_iter(params.iter().map(to_rusqlite_value));
    let rows = stmt.query_map(ps, |r| (0..n).map(|i| r.get::<_, rusqlite::types::Value>(i).map(to_cell)).collect())
        .map_err(|e| e.to_string())?;
    Ok((names, rows.collect::<Result<Vec<Vec<SqlCell>>, _>>().map_err(|e| e.to_string())?))
}

/// A fetched column's value: a real that is not finite reads as 0, a blob as
/// null.
pub open spec fn fetched_value(c: SqlCellView) -> JsonView {
    match c {
        SqlCellView::Null => JsonView::Null,
        SqlCellView::Integer(i) => JsonView::Number(crate::json::int_number(i)),
        SqlCellView::Real(v) => if v is Null {
            JsonView::Number(crate::json::int_number(0))
        } else {
            v
        },
        SqlCellView::Text(b) => JsonView::Str(
            if vstd::utf8::valid_utf8(b) {
                vstd::utf8::decode_utf8(b)
            } else {
                Seq::empty()
            },
        ),
        SqlCellView::Blob(_) => JsonView::Null,
    }
}

fn fetched_value_exec(c: &SqlCell) -> (v: JsonValue)
    ensures
        v@ == fetched_value(c@),
{
    match c {
        SqlCell::Null => JsonValue::Null,
        SqlCell::Integer(i) => JsonValue::Number(crate::json::JsonNumber::from_i64(*i)),
        SqlCell::Real(v) => if v.is_null() {
            JsonValue::Number(crate::json::JsonNumber::from_i64(0))
        } else {
            v.duplicate()
        },
        SqlCell::Text(b) => JsonValue::String(utf8_or_empty(b.as_slice())),
        SqlCell::Blob(_) => JsonValue::Null,
    }
}

pub open spec fn cells_view(cs: Seq<SqlCell>) -> Seq<SqlCellView> {
    cs.map_values(|c: SqlCell| c@)
}

/// The row that the first `n` columns of a fetched line make, each set in
/// turn under its name.
pub open spec fn fetched_row(names: Seq<String>, cells: Seq<SqlCellView>, n: nat) -> RowView
    decreases n,
{
    if n == 0 {
        Seq::empty()
    } else {
        crate::json::map_insert(
            fetched_row(names, cells, (n - 1) as nat),
            names[n - 1]@,
            fetched_value(cells[n - 1]),
        )
    }
}

fn row_from_fetch(names: &Vec<String>, cells: &Vec<SqlCell>) -> (row: Row)
    requires
        cells@.len() == names@.len(),
    ensures
        row.wf(),
        row@ == fetched_row(names@, cells_view(cells@), names@.len()),
{
    let mut row = JsonMap::new();
    let mut i: usize = 0;
    while i < names.len()
        invariant
            i <= names@.len(),
            cells@.len() == names@.len(),
            row.wf(),
            row@ == fetched_row(names@, cells_view(cells@), i as nat),
        decreases names@.len() - i,
    {
        let v = fetched_value_exec(&cells[i]);
        row.insert(names[i].clone(), v);
        i = i + 1;
    }
    row
}

/// Rows that some fetched lines make.
pub open spec fn fetched_rows(rows: Seq<RowView>) -> bool {
    exists|names: Seq<String>, lines: Seq<Seq<SqlCellView>>|
        #![trigger fetched_row(names, lines[0], names.len())]
        lines.len() == rows.len() && forall|i: int|
            0 <= i < rows.len() ==> (#[trigger] lines[i]).len() == names.len() && rows[i]
                == fetched_row(names, lines[i], names.len())
}

/// Runs a query and reads its rows.
fn execute_query(conn: &rusqlite::Connection, sql: &str, params: &Vec<SqlParam>) -> (r: Result<Vec<Row>, String>)
    ensures
        r matches Ok(rows) ==> fetched_rows(rows_view(rows@)) && forall|i: int|
            0 <= i < rows@.len() ==> (#[trigger] rows@[i]).wf(),
{
    let (names, lines) = match query_named_rows(conn, sql, params) {
        Ok(x) => x,
        Err(e) => {
            return Err(e);
        },
    };
    let mut rows: Vec<Row> = Vec::new();
    let ghost lv = lines@.map_values(|l: Vec<SqlCell>| cells_view(l@));
    let mut i: usize = 0;
    while i < lines.len()
        invariant
            i <= lines@.len(),
            lv == lines@.map_values(|l: Vec<SqlCell>| cells_view(l@)),
            forall|k: int| 0 <= k < lines@.len() ==> (#[trigger] lines@[k])@.len() == names@.len(),
            rows@.len() == i,
            forall|k: int|
                0 <= k < i ==> (#[trigger] rows@[k]).wf() && rows@[k]@ == fetched_row(
                    names@,
                    lv[k],
                    names@.len(),
                ),
        decreases lines@.len() - i,
    {
        let r = row_from_fetch(&names, &lines[i]);
        rows.push(r);
        i = i + 1;
    }
    assert(fetched_rows(rows_view(rows@))) by {
        let nv = names@;
        assert forall|k: int| 0 <= k < rows_view(rows@).len() implies (#[trigger] lv[k]).len() == nv.len()
            && rows_view(rows@)[k] == fetched_row(nv, lv[k], nv.len()) by {
            assert(lv[k] == cells_view(lines@[k]@));
        }
        if lv.len() > 0 {
            assert(fetched_row(nv, lv[0], nv.len()) == fetched_row(nv, lv[0], nv.len()));
        }
    }
    Ok(rows)
}


// --- The table source ---

/// Why a table source operation failed.
#[derive(Debug)]
pub enum TableSourceError {
    /// SQLite reported an error (its message).
    Sqlite(String),
    /// No connection has this id.
    InvalidConnection(usize),
    /// A pushed change contradicts the table (a duplicate add, a remove or an
    /// edit of a row it does not hold).
    InvalidPush(String),
}

impl TableSourceError {
    /// The error as text (what its display shows): SQLite's message or the
    /// bad connection id after their labels; a refused push's own message.
    pub fn message(&self) -> (r: String)
        ensures
            r@ == match *self {
                TableSourceError::Sqlite(m) => "sqlite error: "@ + m@,
                TableSourceError::InvalidConnection(id) => "invalid connection id: "@ + decimal(id as nat),
                TableSourceError::InvalidPush(m) => m@,
            },
    {
        match self {
            TableSourceError::Sqlite(m) => {
                let mut r = String::from_str("sqlite error: ");
                r.append(m.as_str());
                r
            },
            TableSourceError::InvalidConnection(id) => {
                let mut r = String::from_str("invalid connection id: ");
                push_decimal(&mut r, *id as u64);
                r
            },
            TableSourceError::InvalidPush(m) => m.clone(),
        }
    }
}

/// A consumer of the table: its sort, the filters it applies, the columns
/// whose change splits an edit, and the last push epoch it has seen.
pub struct TableConnection {
    pub sort: Option<Vec<SortSpec>>,
    pub ordering: Option<OrderBy>,
    pub filters: Option<Condition>,
    pub split_edit_keys: Option<Vec<String>>,
    pub last_pushed_epoch: u64,
}

pub struct TableSourceView {
    pub table_name: Seq<char>,
    pub columns: Seq<String>,
    pub column_types: Seq<(String, ColumnType)>,
    pub primary_key: Seq<String>,
    pub connections: Seq<TableConnection>,
    pub overlay: Option<Overlay>,
    pub push_epoch: u64,
}

/// A table read and written through SQLite.
pub struct RustTableSource {
    write_conn: rusqlite::Connection,
    table_name: String,
    columns: Vec<String>,
    column_types: Vec<(String, ColumnType)>,
    primary_key: Vec<String>,
    connections: Vec<TableConnection>,
    overlay: Option<Overlay>,
    push_epoch: u64,
}

impl View for RustTableSource {
    type V = TableSourceView;

    closed spec fn view(&self) -> TableSourceView {
        TableSourceView {
            table_name: self.table_name@,
            columns: self.columns@,
            column_types: self.column_types@,
            primary_key: self.primary_key@,
            connections: self.connections@,
            overlay: self.overlay,
            push_epoch: self.push_epoch,
        }
    }
}

/// The direction an ordering names: descending for `desc`, else ascending.
pub open spec fn dir_of(d: Seq<char>) -> SortDirection {
    if d == "desc"@ {
        SortDirection::Desc
    } else {
        SortDirection::Asc
    }
}

/// A connection's sort follows its ordering field by field.
pub open spec fn sort_follows(sort: Option<Vec<SortSpec>>, ordering: Option<OrderBy>) -> bool {
    match (sort, ordering) {
        (None, None) => true,
        (Some(s), Some(o)) => s@.len() == o@.len() && forall|i: int|
            0 <= i < s@.len() ==> (#[trigger] s@[i]).field == o@[i].0 && s@[i].direction == dir_of(
                o@[i].1@,
            ),
        _ => false,
    }
}

/// Opens the database at `db_path` for writing (`Connection::open`) and sets
/// `PRAGMA journal_mode=WAL;` (`execute_batch`); an error carries rusqlite's
/// message.
#[verifier::external_body]
fn open_write_connection(db_path: &str) -> Result<rusqlite::Connection, String> {
    let conn = rusqlite::Connection::open(db_path).map_err(|e| e.to_string())?;
    conn.execute_batch("PRAGMA journal_mode=WAL;").map_err(|e| e.to_string())?;
    Ok(conn)
}

fn sort_of(ordering: &Option<OrderBy>) -> (r: Option<Vec<SortSpec>>)
    ensures
        sort_follows(r, *ordering),
{
    proof {
        reveal_strlit("desc");
    }
    match ordering {
        None => None,
        Some(ord) => {
            let mut sort: Vec<SortSpec> = Vec::new();
            let mut i: usize = 0;
            while i < ord.len()
                invariant
                    i <= ord@.len(),
                    sort@.len() == i,
                    forall|k: int|
                        0 <= k < i ==> (#[trigger] sort@[k]).field == ord@[k].0 && sort@[k].direction
                            == dir_of(ord@[k].1@),
                decreases ord@.len() - i,
            {
                let direction = if crate::json::str_eq(ord[i].1.as_str(), "desc") {
                    SortDirection::Desc
                } else {
                    SortDirection::Asc
                };
                sort.push(SortSpec { field: ord[i].0.clone(), direction });
                i = i + 1;
            }
            Some(sort)
        },
    }
}

/// Whether a change's rows differ in a column that some connection splits
/// edits on.
pub open spec fn split_by_connections(conns: Seq<TableConnection>, row: RowView, old_row: RowView) -> bool {
    exists|i: int|
        0 <= i < conns.len() && (match (#[trigger] conns[i]).split_edit_keys {
            Some(ks) => split_key_changed(ks@, row, old_row),
            None => false,
        })
}

/// The changes a pushed change becomes: an edit that changes a split key of
/// some connection becomes a remove of the old row and an add of the new
/// one.
pub open spec fn pushed_changes(conns: Seq<TableConnection>, c: SourceChangeView) -> Seq<SourceChangeView> {
    match c {
        SourceChangeView::Edit { row, old_row } => if split_by_connections(conns, row, old_row) {
            seq![SourceChangeView::Remove(old_row), SourceChangeView::Add(row)]
        } else {
            seq![c]
        },
        _ => seq![c],
    }
}

pub open spec fn source_changes_view(cs: Seq<SourceChange>) -> Seq<SourceChangeView> {
    cs.map_values(|c: SourceChange| c@)
}

/// A source change as a change of leaf nodes.
pub fn source_change_to_change(change: &SourceChange) -> (c: Change)
    ensures
        c@ == crate::advance::node_change_of(change@),
{
    crate::advance::source_change_to_ivm_change(change)
}

/// The message for a pushed change that contradicts the table, given
/// whether the table holds its row (the old row of an edit).
pub open spec fn push_error(c: SourceChangeView, exists: bool) -> Option<Seq<char>> {
    match c {
        SourceChangeView::Add(_) => if exists {
            Some("push Add: row already exists in DB"@)
        } else {
            None
        },
        SourceChangeView::Remove(_) => if !exists {
            Some("push Remove: row does not exist in DB"@)
        } else {
            None
        },
        SourceChangeView::Edit { .. } => if !exists {
            Some("push Edit: old_row does not exist in DB"@)
        } else {
            None
        },
    }
}

/// Decides whether a pushed change contradicts the table.
pub fn push_error_for(c: &SourceChange, exists: bool) -> (r: Option<String>)
    ensures
        match (r, push_error(c@, exists)) {
            (Some(m), Some(e)) => m@ == e,
            (None, None) => true,
            _ => false,
        },
{
    match c {
        SourceChange::Add(_) => if exists {
            Some(String::from_str("push Add: row already exists in DB"))
        } else {
            None
        },
        SourceChange::Remove(_) => if !exists {
            Some(String::from_str("push Remove: row does not exist in DB"))
        } else {
            None
        },
        SourceChange::Edit { .. } => if !exists {
            Some(String::from_str("push Edit: old_row does not exist in DB"))
        } else {
            None
        },
    }
}

/// The column names that are not primary key columns, in order.
pub open spec fn non_pk_columns(cols: Seq<String>, pk: Seq<String>) -> Seq<String>
    decreases cols.len(),
{
    if cols.len() == 0 {
        Seq::empty()
    } else {
        non_pk_columns(cols.drop_last(), pk) + if views(pk).contains(cols.last()@) {
            Seq::empty()
        } else {
            seq![cols.last()]
        }
    }
}

/// Some primary key column differs between the rows.
pub open spec fn pk_changed(pk: Seq<String>, row: RowView, old_row: RowView) -> bool {
    split_key_changed(pk, row, old_row)
}

impl RustTableSource {
    /// The column count leaves room to number every statement parameter.
    pub closed spec fn wf(&self) -> bool {
        self.columns@.len() + self.primary_key@.len() < u64::MAX
    }

    /// A table source over `table_name` of the database at `db_path`, with
    /// a connection of its own for writes.
    pub fn new(
        db_path: &str,
        table_name: String,
        columns: Vec<String>,
        column_types: Vec<(String, ColumnType)>,
        primary_key: Vec<String>,
    ) -> (r: Result<RustTableSource, TableSourceError>)
        ensures
            r matches Ok(s) ==> s@ == (TableSourceView {
                table_name: table_name@,
                columns: columns@,
                column_types: column_types@,
                primary_key: primary_key@,
                connections: Seq::empty(),
                overlay: None,
                push_epoch: 0,
            }),
            r matches Ok(s) ==> s.wf(),
            r matches Err(e) ==> e is Sqlite,
    {
        if columns.len() >= u64::MAX as usize || primary_key.len() >= u64::MAX as usize - columns.len() {
            return Err(TableSourceError::Sqlite(String::from_str("too many columns")));
        }
        let write_conn = match open_write_connection(db_path) {
            Ok(c) => c,
            Err(m) => {
                return Err(TableSourceError::Sqlite(m));
            },
        };
        let s = RustTableSource {
            write_conn,
            table_name,
            columns,
            column_types,
            primary_key,
            connections: Vec::new(),
            overlay: None,
            push_epoch: 0,
        };
        assert(s@.connections =~= Seq::<TableConnection>::empty());
        Ok(s)
    }

    /// Adds a connection and returns its id: its sort follows its ordering
    /// (`desc` descending, anything else ascending).
    pub fn connect(
        &mut self,
        ordering: Option<OrderBy>,
        filters: Option<Condition>,
        split_edit_keys: Option<Vec<String>>,
    ) -> (id: usize)
        requires
            old(self)@.connections.len() < usize::MAX,
        ensures
            id == old(self)@.connections.len(),
            final(self)@.connections.len() == id + 1,
            final(self)@.connections.drop_last() == old(self)@.connections,
            sort_follows(final(self)@.connections.last().sort, ordering),
            final(self)@.connections.last().ordering == ordering,
            final(self)@.connections.last().filters == filters,
            final(self)@.connections.last().split_edit_keys == split_edit_keys,
            final(self)@.connections.last().last_pushed_epoch == 0,
            final(self)@ == (TableSourceView { connections: final(self)@.connections, ..old(self)@ }),
            old(self).wf() ==> final(self).wf(),
    {
        let sort = sort_of(&ordering);
        let ghost before = self.connections@;
        self.connections.push(TableConnection { sort, ordering, filters, split_edit_keys, last_pushed_epoch: 0 });
        assert(self.connections@.drop_last() =~= before);
        self.connections.len() - 1
    }

    /// The number of pushes so far.
    pub fn push_epoch(&self) -> (r: u64)
        ensures
            r == self@.push_epoch,
    {
        self.push_epoch
    }

    /// The table's name.
    pub fn table_name(&self) -> (r: &str)
        ensures
            r@ == self@.table_name,
    {
        self.table_name.as_str()
    }

    /// The table's primary key.
    pub fn primary_key(&self) -> (r: &[String])
        ensures
            r@ == self@.primary_key,
    {
        self.primary_key.as_slice()
    }

    /// The connection with this id, if any.
    pub fn connection(&self, id: usize) -> (r: Option<&TableConnection>)
        ensures
            id < self@.connections.len() ==> r == Some(&self@.connections[id as int]),
            id >= self@.connections.len() ==> r is None,
    {
        if id < self.connections.len() {
            Some(&self.connections[id])
        } else {
            None
        }
    }
}


/// The statements (with their parameters) that apply a change to the
/// table: an insert for an add; a delete by primary key for a remove; for
/// an edit that keeps the primary key and leaves other columns, an update of
/// those columns, else a delete of the old row and an insert of the new.
pub open spec fn write_plan(
    table: Seq<char>,
    cols: Seq<String>,
    pk: Seq<String>,
    c: SourceChangeView,
) -> Seq<(Seq<char>, Seq<SqlParamView>)> {
    match c {
        SourceChangeView::Add(row) => seq![(insert_sql(table, cols), row_params(row, cols))],
        SourceChangeView::Remove(row) => seq![(delete_sql(table, pk), row_params(row, pk))],
        SourceChangeView::Edit { row, old_row } => {
            let set = non_pk_columns(cols, pk);
            if !pk_changed(pk, row, old_row) && set.len() > 0 {
                seq![(update_sql(table, set, pk), row_params(row, set) + row_params(old_row, pk))]
            } else {
                seq![
                    (delete_sql(table, pk), row_params(old_row, pk)),
                    (insert_sql(table, cols), row_params(row, cols)),
                ]
            }
        },
    }
}

pub open spec fn plan_view(p: Seq<(String, Vec<SqlParam>)>) -> Seq<(Seq<char>, Seq<SqlParamView>)> {
    p.map_values(|s: (String, Vec<SqlParam>)| (s.0@, params_view(s.1@)))
}

proof fn lemma_non_pk_len(cols: Seq<String>, pk: Seq<String>)
    ensures
        non_pk_columns(cols, pk).len() <= cols.len(),
    decreases cols.len(),
{
    if cols.len() > 0 {
        lemma_non_pk_len(cols.drop_last(), pk);
    }
}

fn non_pk_list(cols: &Vec<String>, pk: &Vec<String>) -> (r: Vec<String>)
    ensures
        r@ == non_pk_columns(cols@, pk@),
{
    let mut r: Vec<String> = Vec::new();
    let mut i: usize = 0;
    while i < cols.len()
        invariant
            i <= cols@.len(),
            r@ == non_pk_columns(cols@.take(i as int), pk@),
        decreases cols@.len() - i,
    {
        assert(cols@.take(i + 1).drop_last() =~= cols@.take(i as int));
        assert(cols@.take(i + 1).last() == cols@[i as int]);
        let in_pk = crate::companions::name_in(pk, cols[i].as_str());
        if !in_pk {
            let ghost before = r@;
            r.push(cols[i].clone());
            assert(r@ =~= before + seq![cols@[i as int]]);
        } else {
            assert(r@ =~= r@ + Seq::<String>::empty());
        }
        i = i + 1;
    }
    assert(cols@.take(cols@.len() as int) =~= cols@);
    r
}

fn opt_values_equal(a: Option<&JsonValue>, b: Option<&JsonValue>) -> (r: bool)
    ensures
        r == opt_equal(
            match a {
                Some(x) => Some(x@),
                None => None,
            },
            match b {
                Some(x) => Some(x@),
                None => None,
            },
        ),
{
    match (a, b) {
        (None, None) => true,
        (Some(x), Some(y)) => json_eq(x, y),
        _ => false,
    }
}

fn keys_changed(keys: &Vec<String>, row: &Row, old_row: &Row) -> (r: bool)
    ensures
        r == split_key_changed(keys@, row@, old_row@),
{
    let mut i: usize = 0;
    while i < keys.len()
        invariant
            i <= keys@.len(),
            forall|j: int|
                0 <= j < i ==> opt_equal(entries_get(old_row@, (#[trigger] keys@[j])@), entries_get(row@, keys@[j]@)),
        decreases keys@.len() - i,
    {
        if !opt_values_equal(old_row.get(keys[i].as_str()), row.get(keys[i].as_str())) {
            assert(!opt_equal(entries_get(old_row@, keys@[i as int]@), entries_get(row@, keys@[i as int]@)));
            return true;
        }
        i = i + 1;
    }
    false
}

/// The statements that apply a change to a table.
pub fn build_write_plan(table: &str, columns: &Vec<String>, primary_key: &Vec<String>, change: &SourceChange) -> (r: Vec<
    (String, Vec<SqlParam>),
>)
    requires
        columns@.len() + primary_key@.len() < u64::MAX,
    ensures
        plan_view(r@) == write_plan(table@, columns@, primary_key@, change@),
{
    match change {
        SourceChange::Add(row) => {
            let st = build_insert_statement(table, columns, row);
            let ghost sv = (st.0@, params_view(st.1@));
            let r = vec![st];
            assert(plan_view(r@) =~= seq![sv]);
            r
        },
        SourceChange::Remove(row) => {
            let st = build_delete_statement(table, primary_key, row);
            let ghost sv = (st.0@, params_view(st.1@));
            let r = vec![st];
            assert(plan_view(r@) =~= seq![sv]);
            r
        },
        SourceChange::Edit { row, old_row } => {
            let set = non_pk_list(columns, primary_key);
            let changed = keys_changed(primary_key, row, old_row);
            proof {
                lemma_non_pk_len(columns@, primary_key@);
            }
            if !changed && set.len() > 0 {
                let st = build_update_statement(table, &set, primary_key, row, old_row);
                let ghost sv = (st.0@, params_view(st.1@));
                let r = vec![st];
                assert(plan_view(r@) =~= seq![sv]);
                r
            } else {
                let d = build_delete_statement(table, primary_key, old_row);
                let ins = build_insert_statement(table, columns, row);
                let ghost dv = (d.0@, params_view(d.1@));
                let ghost iv = (ins.0@, params_view(ins.1@));
                let r = vec![d, ins];
                assert(plan_view(r@) =~= seq![dv, iv]);
                r
            }
        },
    }
}

impl RustTableSource {
    /// Reads a connection's rows: the query `build_select_query` makes of
    /// the request and the connection's filters and ordering, merged with the
    /// overlay of a push in progress.
    pub fn fetch(&self, read_conn: &rusqlite::Connection, connection_id: usize, req: &FetchRequest) -> (r:
        Result<Vec<Node>, TableSourceError>)
        requires
            connection_id < self@.connections.len() && req.start is Some ==> self@.connections[connection_id as int].ordering is Some,
        ensures
            connection_id >= self@.connections.len() ==> r == Err::<Vec<Node>, TableSourceError>(
                TableSourceError::InvalidConnection(connection_id),
            ),
            r matches Err(e) ==> e is InvalidConnection || e is Sqlite,
            connection_id < self@.connections.len() ==> !(r matches Err(TableSourceError::InvalidConnection(_))),
            r matches Ok(nodes) ==> fetch_outcome(self@, connection_id, *req, nodes_view(nodes@)),
    {
        if connection_id >= self.connections.len() {
            return Err(TableSourceError::InvalidConnection(connection_id));
        }
        let conn_info = &self.connections[connection_id];
        let constraint: Option<Constraint> = match &req.constraint {
            Some(c) => {
                let mut m = JsonMap::new();
                m.insert(c.key.clone(), c.value.duplicate());
                Some(m)
            },
            None => None,
        };
        let start: Option<Start> = match &req.start {
            Some(st) => Some(Start { row: st.row.duplicate(), basis: st.basis.clone() }),
            None => None,
        };
        let constraint_ref: Option<&Constraint> = match &constraint {
            Some(c) => Some(c),
            None => None,
        };
        let filters_ref: Option<&Condition> = match &conn_info.filters {
            Some(f) => Some(f),
            None => None,
        };
        let ordering_ref: Option<&OrderBy> = match &conn_info.ordering {
            Some(o) => Some(o),
            None => None,
        };
        let start_ref: Option<&Start> = match &start {
            Some(st) => Some(st),
            None => None,
        };
        let (sql, values) = build_select_query(
            self.table_name.as_str(),
            self.columns.as_slice(),
            &self.column_types,
            constraint_ref,
            filters_ref,
            ordering_ref,
            req.reverse,
            start_ref,
        );
        let mut params: Vec<SqlParam> = Vec::new();
        let mut i: usize = 0;
        while i < values.len()
            invariant
                i <= values@.len(),
            decreases values@.len() - i,
        {
            params.push(json_to_sqlite_value(&values[i]));
            i = i + 1;
        }
        let rows = match execute_query(read_conn, sql.as_str(), &params) {
            Ok(rows) => rows,
            Err(m) => {
                return Err(TableSourceError::Sqlite(m));
            },
        };
        let empty: Vec<SortSpec> = Vec::new();
        let sort: &Vec<SortSpec> = match &conn_info.sort {
            Some(s) => s,
            None => &empty,
        };
        let start_row: Option<&Row> = match &req.start {
            Some(st) => Some(&st.row),
            None => None,
        };
        let req_constraint = match &req.constraint {
            Some(c) => Some(c),
            None => None,
        };
        let overlay_ref: Option<&Overlay> = match &self.overlay {
            Some(o) => Some(o),
            None => None,
        };
        let accept_all = |_r: &Row| true;
        let overlays = compute_overlays(
            start_row,
            req_constraint,
            overlay_ref,
            conn_info.last_pushed_epoch,
            sort.as_slice(),
            no_filter(&accept_all),
        );
        let ghost rv = rows_view(rows@);
        let ghost sortv = opt_sort_view(conn_info.sort);
        assert(sort@ == sortv);
        let ghost ov = overlays_before_filter(
            start_row_view(req.start),
            req.constraint,
            self.overlay,
            conn_info.last_pushed_epoch,
            sortv,
        );
        assert(overlays@ == ov);
        let nodes = if conn_info.sort.is_some() {
            generate_with_overlay(rows, &overlays, sort.as_slice())
        } else {
            generate_with_overlay_unordered(rows, &overlays, self.primary_key.as_slice())
        };
        assert(node_rows(nodes_view(nodes@)) == fetch_merge(rv, ov, conn_info.sort is Some, sortv, self@.primary_key));
        Ok(nodes)
    }
}

fn no_filter<'a, F>(_f: &'a F) -> (r: Option<&'a F>)
    ensures
        r is None,
{
    None
}

/// What a fetch of a connection yields from rows that some query read: the
/// overlays of the push in progress (as the connection has seen it, after
/// the start and within the constraint) merged into the rows, in sort order
/// for a sorted connection, else the added row first and the rows without
/// the removed one.
pub open spec fn fetch_outcome(v: TableSourceView, id: usize, req: FetchRequest, nodes: Seq<crate::source::NodeView>) -> bool {
    let conn = v.connections[id as int];
    let sort = opt_sort_view(conn.sort);
    let ov = overlays_before_filter(
        start_row_view(req.start),
        req.constraint,
        v.overlay,
        conn.last_pushed_epoch,
        sort,
    );
    &&& all_leaves(nodes)
    &&& exists|rows: Seq<RowView>|
        fetched_rows(rows) && node_rows(nodes) == #[trigger] fetch_merge(rows, ov, conn.sort is Some, sort, v.primary_key)
}

pub open spec fn opt_sort_view(s: Option<Vec<SortSpec>>) -> Seq<SortSpec> {
    match s {
        Some(x) => x@,
        None => Seq::empty(),
    }
}

pub open spec fn start_row_view(s: Option<crate::source::FetchStart>) -> Option<RowView> {
    match s {
        Some(st) => Some(st.row@),
        None => None,
    }
}

pub open spec fn fetch_merge(
    rows: Seq<RowView>,
    ov: crate::source::OverlaysView,
    sorted: bool,
    sort: Seq<SortSpec>,
    pk: Seq<String>,
) -> Seq<RowView> {
    if sorted {
        overlay_rows(rows, ov.add, ov.remove, sort)
    } else {
        (match ov.add {
            Some(a) => seq![a],
            None => Seq::empty(),
        }) + rows_without(rows, ov.remove, pk)
    }
}


impl RustTableSource {
    /// The changes a pushed change becomes for this table's connections.
    pub fn maybe_split_edit(&self, change: SourceChange) -> (r: Vec<SourceChange>)
        ensures
            source_changes_view(r@) == pushed_changes(self@.connections, change@),
    {
        let ghost cv = change@;
        match &change {
            SourceChange::Edit { row, old_row } => {
                let mut i: usize = 0;
                while i < self.connections.len()
                    invariant
                        i <= self.connections@.len(),
                        cv == (SourceChangeView::Edit { row: row@, old_row: old_row@ }),
                        cv == change@,
                        forall|k: int|
                            0 <= k < i ==> !(match (#[trigger] self.connections@[k]).split_edit_keys {
                                Some(ks) => split_key_changed(ks@, row@, old_row@),
                                None => false,
                            }),
                    decreases self.connections@.len() - i,
                {
                    match &self.connections[i].split_edit_keys {
                        Some(keys) => {
                            if keys_changed(keys, row, old_row) {
                                let r = vec![SourceChange::Remove(old_row.duplicate()), SourceChange::Add(row.duplicate())];
                                assert(match self.connections@[i as int].split_edit_keys {
                                    Some(ks) => split_key_changed(ks@, row@, old_row@),
                                    None => false,
                                });
                                assert(split_by_connections(self.connections@, row@, old_row@));
                                assert(cv == SourceChangeView::Edit { row: row@, old_row: old_row@ });
                                assert(source_changes_view(r@) =~= pushed_changes(self@.connections, cv));
                                return r;
                            }
                        },
                        None => {},
                    }
                    i = i + 1;
                }
                assert(!split_by_connections(self@.connections, row@, old_row@));
            },
            _ => {},
        }
        let r = vec![change];
        assert(source_changes_view(r@) =~= pushed_changes(self@.connections, cv));
        r
    }

    /// Whether the table holds a row with this row's primary key.
    fn check_exists(&self, row: &Row) -> (r: Result<bool, TableSourceError>)
        ensures
            r matches Err(e) ==> e is Sqlite,
    {
        let (sql, params) = build_exists_statement(self.table_name.as_str(), &self.primary_key, row);
        match query_has_row(&self.write_conn, sql.as_str(), &params) {
            Ok(b) => Ok(b),
            Err(m) => Err(TableSourceError::Sqlite(m)),
        }
    }

    /// Refuses a pushed change that contradicts the table: an add of a row
    /// it holds, a remove or an edit of a row it does not.
    fn assert_change_valid(&self, change: &SourceChange) -> (r: Result<(), TableSourceError>)
        ensures
            r matches Err(e) ==> e is Sqlite || e is InvalidPush,
            r matches Err(TableSourceError::InvalidPush(m)) ==> exists|b: bool| push_error(change@, b) == Some(m@),
    {
        let row = match change {
            SourceChange::Add(row) => row,
            SourceChange::Remove(row) => row,
            SourceChange::Edit { old_row, .. } => old_row,
        };
        let exists = match self.check_exists(row) {
            Ok(b) => b,
            Err(e) => {
                return Err(e);
            },
        };
        match push_error_for(change, exists) {
            Some(m) => Err(TableSourceError::InvalidPush(m)),
            None => Ok(()),
        }
    }

    /// Writes a change to the table: the statements of `write_plan`, in
    /// order, stopping at the first that fails.
    fn write_change(&self, change: &SourceChange) -> (r: Result<(), TableSourceError>)
        requires
            self.wf(),
        ensures
            r matches Err(e) ==> e is Sqlite,
    {
        let plan = build_write_plan(self.table_name.as_str(), &self.columns, &self.primary_key, change);
        let mut i: usize = 0;
        while i < plan.len()
            invariant
                i <= plan@.len(),
            decreases plan@.len() - i,
        {
            match execute_statement(&self.write_conn, plan[i].0.as_str(), &plan[i].1) {
                Ok(_) => {},
                Err(m) => {
                    return Err(TableSourceError::Sqlite(m));
                },
            }
            i = i + 1;
        }
        Ok(())
    }

    /// Pushes a change: a new push epoch; the change (split where a
    /// connection's split key changes) is checked against the table (unless
    /// split), made visible to fetches as the overlay, and written, change by
    /// change; every connection gets the changes as leaf-node changes.
    pub fn push(&mut self, change: SourceChange) -> (r: Result<Vec<Vec<Change>>, TableSourceError>)
        requires
            old(self).wf(),
            old(self)@.push_epoch < u64::MAX,
        ensures
            final(self).wf(),
            final(self)@.push_epoch == old(self)@.push_epoch + 1,
            final(self)@.table_name == old(self)@.table_name,
            final(self)@.columns == old(self)@.columns,
            final(self)@.column_types == old(self)@.column_types,
            final(self)@.primary_key == old(self)@.primary_key,
            final(self)@.connections.len() == old(self)@.connections.len(),
            forall|i: int|
                0 <= i < old(self)@.connections.len() ==> same_but_epoch(
                    #[trigger] old(self)@.connections[i],
                    final(self)@.connections[i],
                ),
            r matches Err(e) ==> e is Sqlite || e is InvalidPush,
            r matches Err(TableSourceError::InvalidPush(m)) ==> exists|b: bool| push_error(change@, b) == Some(m@),
            r matches Ok(results) ==> {
                &&& final(self)@.overlay is None
                &&& results@.len() == old(self)@.connections.len()
                &&& forall|i: int|
                    0 <= i < results@.len() ==> node_changes_view((#[trigger] results@[i])@)
                        == pushed_changes(old(self)@.connections, change@).map_values(
                        |c: SourceChangeView| crate::advance::node_change_of(c),
                    )
                &&& forall|i: int|
                    0 <= i < old(self)@.connections.len() ==> (#[trigger] final(self)@.connections[i]).last_pushed_epoch
                        == final(self)@.push_epoch
            },
    {
        self.push_epoch = self.push_epoch + 1;
        let epoch = self.push_epoch;
        let ghost conns0 = self.connections@;
        let ghost cv = change@;
        let changes = self.maybe_split_edit(change);
        assert(source_changes_view(changes@).len() >= 1);
        let is_split = changes.len() > 1;
        let mut idx: usize = 0;
        while idx < changes.len()
            invariant
                idx <= changes@.len(),
                self.wf(),
                self.push_epoch == epoch,
                epoch == old(self).push_epoch + 1,
                conns0 == old(self).connections@,
                cv == change@,
                is_split == (changes@.len() > 1),
                changes@.len() >= 1,
                source_changes_view(changes@) == pushed_changes(conns0, cv),
                self.connections@.len() == conns0.len(),
                forall|i: int| 0 <= i < conns0.len() ==> same_but_epoch(#[trigger] conns0[i], self.connections@[i]),
                idx > 0 ==> forall|i: int|
                    0 <= i < conns0.len() ==> (#[trigger] self.connections@[i]).last_pushed_epoch == epoch,
                self.table_name@ == old(self)@.table_name,
                self.columns@ == old(self)@.columns,
                self.column_types@ == old(self)@.column_types,
                self.primary_key@ == old(self)@.primary_key,
            decreases changes@.len() - idx,
        {
            let ch = &changes[idx];
            if !is_split {
                match self.assert_change_valid(ch) {
                    Ok(_) => {},
                    Err(e) => {
                        assert(changes@.len() == 1);
                        assert(idx == 0);
                        assert(source_changes_view(changes@)[0] == changes@[0]@);
                        assert(pushed_changes(conns0, cv).len() == 1);
                        assert(pushed_changes(conns0, cv) == seq![cv]);
                        assert(ch@ == cv);
                        return Err(e);
                    },
                }
            }
            if idx == 0 {
                self.set_epochs(epoch);
            }
            self.overlay = Some(Overlay { epoch, change: ch.duplicate() });
            match self.write_change(ch) {
                Ok(_) => {},
                Err(e) => {
                    return Err(e);
                },
            }
            idx = idx + 1;
        }
        self.overlay = None;
        let mut results: Vec<Vec<Change>> = Vec::new();
        let mut i: usize = 0;
        while i < self.connections.len()
            invariant
                i <= self.connections@.len(),
                results@.len() == i,
                forall|k: int|
                    0 <= k < i ==> node_changes_view((#[trigger] results@[k])@) == source_changes_view(
                        changes@,
                    ).map_values(|c: SourceChangeView| crate::advance::node_change_of(c)),
            decreases self.connections@.len() - i,
        {
            let mut list: Vec<Change> = Vec::new();
            let mut j: usize = 0;
            while j < changes.len()
                invariant
                    j <= changes@.len(),
                    node_changes_view(list@) =~= source_changes_view(changes@).take(j as int).map_values(
                        |c: SourceChangeView| crate::advance::node_change_of(c),
                    ),
                decreases changes@.len() - j,
            {
                let c = source_change_to_change(&changes[j]);
                let ghost before = list@;
                let ghost cv = c@;
                list.push(c);
                assert(node_changes_view(list@) =~= node_changes_view(before).push(cv));
                j = j + 1;
            }
            assert(source_changes_view(changes@).take(changes@.len() as int) =~= source_changes_view(changes@));
            results.push(list);
            i = i + 1;
        }
        Ok(results)
    }

    /// Marks every connection as having seen `epoch`.
    fn set_epochs(&mut self, epoch: u64)
        ensures
            final(self).connections@.len() == old(self).connections@.len(),
            forall|i: int|
                0 <= i < old(self).connections@.len() ==> same_but_epoch(
                    #[trigger] old(self).connections@[i],
                    final(self).connections@[i],
                ),
            forall|i: int|
                0 <= i < old(self).connections@.len() ==> (#[trigger] final(self).connections@[i]).last_pushed_epoch
                    == epoch,
            final(self).table_name == old(self).table_name,
            final(self).columns == old(self).columns,
            final(self).column_types == old(self).column_types,
            final(self).primary_key == old(self).primary_key,
            final(self).overlay == old(self).overlay,
            final(self).push_epoch == old(self).push_epoch,
    {
        let mut rest: Vec<TableConnection> = Vec::new();
        std::mem::swap(&mut self.connections, &mut rest);
        let ghost orig = rest@;
        let n = rest.len();
        let mut k: usize = 0;
        while rest.len() > 0
            invariant
                k + rest@.len() == n,
                n == orig.len(),
                rest@ =~= orig.skip(k as int),
                self.connections@.len() == k,
                forall|i: int| 0 <= i < k ==> same_but_epoch(#[trigger] orig[i], self.connections@[i]),
                forall|i: int| 0 <= i < k ==> (#[trigger] self.connections@[i]).last_pushed_epoch == epoch,
                self.table_name == old(self).table_name,
                self.columns == old(self).columns,
                self.column_types == old(self).column_types,
                self.primary_key == old(self).primary_key,
                self.overlay == old(self).overlay,
                self.push_epoch == old(self).push_epoch,
            decreases rest@.len(),
        {
            let mut c = rest.remove(0);
            assert(c == orig[k as int]);
            c.last_pushed_epoch = epoch;
            self.connections.push(c);
            k = k + 1;
        }
    }
}

/// Two connections agree on all but the last push epoch they have seen.
pub open spec fn same_but_epoch(a: TableConnection, b: TableConnection) -> bool {
    &&& a.sort == b.sort
    &&& a.ordering == b.ordering
    &&& a.filters == b.filters
    &&& a.split_edit_keys == b.split_edit_keys
}

pub open spec fn node_changes_view(cs: Seq<Change>) -> Seq<crate::source::ChangeView> {
    cs.map_values(|c: Change| c@)
}


/// The conjunction of the key equalities `"{k}" = ?{n}`, numbered from
/// `n`, the first column first.
pub open spec fn key_conjunction(cols: Seq<String>, n: nat) -> Seq<char>
    decreases cols.len(),
{
    if cols.len() == 0 {
        Seq::empty()
    } else if cols.len() == 1 {
        quoted(cols[0]@) + " = ?"@ + decimal(n)
    } else {
        quoted(cols[0]@) + " = ?"@ + decimal(n) + " AND "@ + key_conjunction(cols.drop_first(), n + 1)
    }
}

proof fn lemma_join_front(a: Seq<char>, rest: Seq<Seq<char>>, sep: Seq<char>)
    requires
        rest.len() > 0,
    ensures
        join(seq![a] + rest, sep) == a + sep + join(rest, sep),
    decreases rest.len(),
{
    let all = seq![a] + rest;
    if rest.len() == 1 {
        assert(all.drop_last() =~= seq![a]);
        assert(all.last() == rest[0]);
        assert(join(seq![a], sep) == a);
        assert(join(rest, sep) == rest[0]);
        assert(join(all, sep) == join(all.drop_last(), sep) + sep + all.last());
    } else {
        lemma_join_front(a, rest.drop_last(), sep);
        assert(all.drop_last() =~= seq![a] + rest.drop_last());
        assert(all.last() == rest.last());
        assert(join(all, sep) == join(all.drop_last(), sep) + sep + all.last());
        assert(join(rest, sep) == join(rest.drop_last(), sep) + sep + rest.last());
    }
}

proof fn lemma_eqs_conjunction(cols: Seq<String>, n: nat)
    ensures
        join(numbered_eqs(cols, n), " AND "@) == key_conjunction(cols, n),
    decreases cols.len(),
{
    let eqs = numbered_eqs(cols, n);
    if cols.len() == 1 {
        assert(eqs.len() == 1);
    } else if cols.len() > 1 {
        lemma_eqs_conjunction(cols.drop_first(), n + 1);
        assert(eqs =~= seq![numbered_eq(cols[0]@, n)] + numbered_eqs(cols.drop_first(), n + 1));
        lemma_join_front(numbered_eq(cols[0]@, n), numbered_eqs(cols.drop_first(), n + 1), " AND "@);
    }
}

/// A delete by primary key keeps to the row: its condition is the
/// conjunction of one equality per key column, `"{k_i}" = ?{i}` in key
/// order, so it removes exactly the rows that agree with the deleted row
/// on every key column; likewise the existence check of a row by key.
pub proof fn lemma_key_statements_conjoin(table: Seq<char>, pk: Seq<String>)
    ensures
        delete_sql(table, pk) == "DELETE FROM "@ + quoted(table) + " WHERE "@ + key_conjunction(pk, 1),
        exists_sql(table, pk) == "SELECT 1 FROM "@ + quoted(table) + " WHERE "@ + key_conjunction(pk, 1)
            + " LIMIT 1"@,
{
    lemma_eqs_conjunction(pk, 1);
}

} // verus!
