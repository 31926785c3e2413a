//! Reading the changes between two snapshots of the replica from its change
//! log, and turning SQLite values into JSON.
use vstd::prelude::*;

use crate::json::{
    assoc_find, assoc_get, entries_get, index_of_key, json_eq, json_equal, json_parse,
    lemma_json_views, map_insert, parse_json, str_eq, JsonMap, JsonValue, JsonView,
};
use crate::source::{Row, RowView};
use crate::sqlite::{
    cell_json, json_to_sqlite_value, params_view, query_cells, query_strings, sql_param_of, sqlite_value_to_json,
    SqlCell, SqlCellView, SqlParam, SqlParamView,
};
use crate::text::{join, join_strings, quote, quoted, views};

verus! {

/// A change to one row of a table: the rows it replaces (by primary key or
/// unique key) and the row it leaves, if any.
pub struct Change {
    pub table: String,
    pub prev_values: Vec<Row>,
    pub next_value: Option<Row>,
    pub row_key: JsonValue,
}

pub struct ChangeView {
    pub table: Seq<char>,
    pub prev_values: Seq<RowView>,
    pub next_value: Option<RowView>,
    pub row_key: JsonView,
}

impl View for Change {
    type V = ChangeView;

    open spec fn view(&self) -> ChangeView {
        ChangeView {
            table: self.table@,
            prev_values: self.prev_values@.map_values(|r: Row| r@),
            next_value: match self.next_value {
                Some(r) => Some(r@),
                None => None,
            },
            row_key: self.row_key@,
        }
    }
}

pub struct TableSpec {
    pub name: String,
    pub columns: Vec<String>,
    pub primary_key: Vec<String>,
    pub unique_keys: Vec<Vec<String>>,
    pub min_row_version: Option<String>,
}

/// Column types of a table as the client sees them, by column name.
pub struct ZqlSpec {
    pub columns: Vec<(String, ColumnSpec)>,
}

pub struct ColumnSpec {
    pub col_type: String,
}

pub struct TableAndZqlSpec {
    pub table_spec: TableSpec,
    pub zql_spec: ZqlSpec,
}

pub enum DiffError {
    Reset(String),
    Truncate(String),
    Unknown(String),
}

pub enum DiffErrorView {
    Reset(Seq<char>),
    Truncate(Seq<char>),
    Unknown(Seq<char>),
}

impl View for DiffError {
    type V = DiffErrorView;

    open spec fn view(&self) -> DiffErrorView {
        match self {
            DiffError::Reset(m) => DiffErrorView::Reset(m@),
            DiffError::Truncate(m) => DiffErrorView::Truncate(m@),
            DiffError::Unknown(m) => DiffErrorView::Unknown(m@),
        }
    }
}

impl DiffErrorView {
    /// The error as text: its kind, a colon, then its message.
    pub open spec fn text(self) -> Seq<char> {
        match self {
            DiffErrorView::Reset(m) => "Reset: "@ + m,
            DiffErrorView::Truncate(m) => "Truncate: "@ + m,
            DiffErrorView::Unknown(m) => "Unknown: "@ + m,
        }
    }
}

impl DiffError {
    /// The error as text (what its display shows).
    pub fn message(&self) -> (r: String)
        ensures
            r@ == self@.text(),
    {
        let (mut r, m) = match self {
            DiffError::Reset(m) => (String::from_str("Reset: "), m),
            DiffError::Truncate(m) => (String::from_str("Truncate: "), m),
            DiffError::Unknown(m) => (String::from_str("Unknown: "), m),
        };
        r.append(m.as_str());
        r
    }
}

/// A column's value converted from its SQLite form to its client type:
/// a number in a boolean column becomes whether it (as an `i64`, else 0) is
/// nonzero; a string in a json column that parses as JSON becomes the parsed
/// value; anything else is left as it is.
pub open spec fn from_sqlite_value(col_type: Seq<char>, v: JsonView) -> JsonView {
    if col_type == "boolean"@ {
        match v {
            JsonView::Number(n) => JsonView::Bool(
                match n.spec_as_i64() {
                    Some(i) => i != 0,
                    None => false,
                },
            ),
            _ => v,
        }
    } else if col_type == "json"@ {
        match v {
            JsonView::Str(s) => match json_parse(s) {
                Some(p) => p,
                None => v,
            },
            _ => v,
        }
    } else {
        v
    }
}

/// The row with each listed column that it holds converted in turn.
pub open spec fn from_sqlite_row(row: RowView, cols: Seq<(String, ColumnSpec)>) -> RowView
    decreases cols.len(),
{
    if cols.len() == 0 {
        row
    } else {
        let c = cols[0].0@;
        let next = match entries_get(row, c) {
            Some(v) => row.update(
                index_of_key(row, c),
                (c, from_sqlite_value(cols[0].1.col_type@, v)),
            ),
            None => row,
        };
        from_sqlite_row(next, cols.drop_first())
    }
}

pub(crate) fn from_sqlite_value_exec(col_type: &str, v: JsonValue) -> (r: JsonValue)
    ensures
        r@ == from_sqlite_value(col_type@, v@),
{
    proof {
        reveal_strlit("boolean");
        reveal_strlit("json");
    }
    if crate::json::str_eq(col_type, "boolean") {
        match v {
            JsonValue::Number(n) => {
                let b = match n.as_i64() {
                    Some(i) => i != 0,
                    None => false,
                };
                JsonValue::Bool(b)
            },
            _ => v,
        }
    } else if crate::json::str_eq(col_type, "json") {
        match v {
            JsonValue::String(s) => match parse_json(s.as_str()) {
                Some(p) => p,
                None => JsonValue::String(s),
            },
            _ => v,
        }
    } else {
        v
    }
}

/// Converts SQLite values to client types (integers in boolean columns to
/// booleans, text in json columns to parsed JSON).
pub fn from_sqlite_types(zql_spec: &ZqlSpec, row: &mut Row)
    requires
        old(row).wf(),
    ensures
        final(row).wf(),
        final(row)@ == from_sqlite_row(old(row)@, zql_spec.columns@),
{
    let mut i: usize = 0;
    assert(zql_spec.columns@.skip(0) =~= zql_spec.columns@);
    while i < zql_spec.columns.len()
        invariant
            i <= zql_spec.columns@.len(),
            row.wf(),
            from_sqlite_row(old(row)@, zql_spec.columns@) == from_sqlite_row(
                row@,
                zql_spec.columns@.skip(i as int),
            ),
        decreases zql_spec.columns@.len() - i,
    {
        assert(zql_spec.columns@.skip(i as int).drop_first() =~= zql_spec.columns@.skip(i + 1));
        assert(zql_spec.columns@.skip(i as int)[0] == zql_spec.columns@[i as int]);
        let col = &zql_spec.columns[i].0;
        let new_value = match row.get(col.as_str()) {
            Some(v) => Some(from_sqlite_value_exec(zql_spec.columns[i].1.col_type.as_str(), v.duplicate())),
            None => None,
        };
        match new_value {
            Some(nv) => {
                proof {
                    crate::json::lemma_entries_get_some(row@, col@);
                }
                row.insert(col.clone(), nv);
            },
            None => {},
        }
        i = i + 1;
    }
}

/// The base64 alphabet: `A-Z`, `a-z`, `0-9`, `+`, `/`.
pub open spec fn b64_char(i: int) -> char {
    if i < 26 {
        (65 + i) as char
    } else if i < 52 {
        (97 + (i - 26)) as char
    } else if i < 62 {
        (48 + (i - 52)) as char
    } else if i == 62 {
        '+'
    } else {
        '/'
    }
}

/// One group of up to three bytes as four base64 characters, `=` padding
/// the characters that a short group does not fill.
pub open spec fn b64_group(g: Seq<u8>) -> Seq<char> {
    let b0 = g[0] as int;
    let b1 = if g.len() > 1 {
        g[1] as int
    } else {
        0
    };
    let b2 = if g.len() > 2 {
        g[2] as int
    } else {
        0
    };
    let t = b0 * 65536 + b1 * 256 + b2;
    seq![b64_char(t / 262144 % 64), b64_char(t / 4096 % 64)] + (if g.len() > 1 {
        seq![b64_char(t / 64 % 64)]
    } else {
        seq!['=']
    }) + (if g.len() > 2 {
        seq![b64_char(t % 64)]
    } else {
        seq!['=']
    })
}

/// Standard base64 with padding.
pub open spec fn base64(data: Seq<u8>) -> Seq<char>
    decreases data.len(),
{
    if data.len() == 0 {
        Seq::empty()
    } else if data.len() <= 3 {
        b64_group(data)
    } else {
        b64_group(data.take(3)) + base64(data.skip(3))
    }
}

/// Base64 takes four characters for every three bytes or part of three.
pub proof fn lemma_base64_len(data: Seq<u8>)
    ensures
        base64(data).len() == 4 * ((data.len() + 2) / 3),
    decreases data.len(),
{
    if data.len() > 3 {
        lemma_base64_len(data.skip(3));
        assert(data.skip(3).len() == data.len() - 3);
    }
}

fn b64_char_exec(i: u32) -> (c: char)
    requires
        i < 64,
    ensures
        c == b64_char(i as int),
{
    if i < 26 {
        ((65 + i) as u8) as char
    } else if i < 52 {
        ((97 + (i - 26)) as u8) as char
    } else if i < 62 {
        ((48 + (i - 52)) as u8) as char
    } else if i == 62 {
        '+'
    } else {
        '/'
    }
}

/// Encodes bytes as standard base64 with padding.
pub fn base64_encode(data: &[u8]) -> (r: String)
    ensures
        r@ == base64(data@),
{
    let mut result = String::new();
    let mut i: usize = 0;
    assert(data@.skip(0) =~= data@);
    while i < data.len()
        invariant
            i <= data@.len(),
            base64(data@) == result@ + base64(data@.skip(i as int)),
        decreases data@.len() - i,
    {
        let n = if data.len() - i >= 3 {
            3
        } else {
            data.len() - i
        };
        let ghost g = data@.skip(i as int).take(n as int);
        let b0 = data[i] as u32;
        let b1: u32 = if n > 1 {
            data[i + 1] as u32
        } else {
            0
        };
        let b2: u32 = if n > 2 {
            data[i + 2] as u32
        } else {
            0
        };
        let triple = b0 * 65536 + b1 * 256 + b2;
        let ghost before = result@;
        crate::text::push_char(&mut result, b64_char_exec(triple / 262144 % 64));
        crate::text::push_char(&mut result, b64_char_exec(triple / 4096 % 64));
        if n > 1 {
            crate::text::push_char(&mut result, b64_char_exec(triple / 64 % 64));
        } else {
            crate::text::push_char(&mut result, '=');
        }
        if n > 2 {
            crate::text::push_char(&mut result, b64_char_exec(triple % 64));
        } else {
            crate::text::push_char(&mut result, '=');
        }
        proof {
            assert(g[0] == data@[i as int]);
            if n > 1 {
                assert(g[1] == data@[i + 1]);
            }
            if n > 2 {
                assert(g[2] == data@[i + 2]);
            }
            assert(result@ =~= before + b64_group(g));
            let rest = data@.skip(i as int);
            if rest.len() <= 3 {
                assert(g =~= rest);
                assert(data@.skip(i + n) =~= Seq::<u8>::empty());
            } else {
                assert(rest.skip(3) =~= data@.skip(i + 3));
            }
        }
        i = i + n;
    }
    result
}


/// `"{col}" = ?`
pub open spec fn eq_param(col: Seq<char>) -> Seq<char> {
    quoted(col) + " = ?"@
}

/// One `"{col}" = ?` per column.
pub open spec fn eq_params(cols: Seq<String>) -> Seq<Seq<char>> {
    Seq::new(cols.len(), |i: int| eq_param(cols[i]@))
}

/// `SELECT {columns} FROM "{table}" WHERE {cond}`.
pub open spec fn select_where_sql(spec: TableSpec, cond: Seq<char>) -> Seq<char> {
    "SELECT "@ + join(views(spec.columns@), ", "@) + " FROM "@ + quoted(spec.name@) + " WHERE "@
        + cond
}

/// The query for one row by primary key: every column of the table, each
/// primary key column equal to a parameter.
pub open spec fn get_row_sql(spec: TableSpec) -> Seq<char> {
    select_where_sql(spec, join(eq_params(spec.primary_key@), " AND "@))
}

pub(crate) fn eq_param_list(cols: &Vec<String>) -> (r: Vec<String>)
    ensures
        views(r@) == eq_params(cols@),
{
    let mut r: Vec<String> = Vec::new();
    let mut i: usize = 0;
    while i < cols.len()
        invariant
            i <= cols@.len(),
            views(r@) =~= eq_params(cols@).take(i as int),
        decreases cols@.len() - i,
    {
        let mut s = quote(cols[i].as_str());
        s.append(" = ?");
        let ghost before = r@;
        let ghost sv = s@;
        r.push(s);
        assert(views(r@) =~= views(before).push(sv));
        assert(eq_params(cols@).take(i + 1) =~= eq_params(cols@).take(i as int).push(sv));
        i = i + 1;
    }
    assert(eq_params(cols@).take(cols@.len() as int) =~= eq_params(cols@));
    r
}

fn select_where(spec: &TableSpec, cond: &str) -> (r: String)
    ensures
        r@ == select_where_sql(*spec, cond@),
{
    let mut s = String::from_str("SELECT ");
    let cols = join_strings(&spec.columns, ", ");
    s.append(cols.as_str());
    s.append(" FROM ");
    let name = quote(spec.name.as_str());
    s.append(name.as_str());
    s.append(" WHERE ");
    s.append(cond);
    s
}

/// The query `get_row` runs.
pub fn build_get_row_sql(spec: &TableSpec) -> (r: String)
    ensures
        r@ == get_row_sql(*spec),
{
    let conds = eq_param_list(&spec.primary_key);
    let cond = join_strings(&conds, " AND ");
    select_where(spec, cond.as_str())
}

/// The value a row key gives the `i`-th primary key column: an array by
/// position, an object by column name (null where it has none); any other key
/// is the value of a single-column primary key.
pub open spec fn key_value_at(row_key: JsonView, pk: Seq<String>, i: int) -> JsonView {
    match row_key {
        JsonView::Array(arr) => if i < arr.len() {
            arr[i]
        } else {
            JsonView::Null
        },
        JsonView::Object(es) => match entries_get(es, pk[i]@) {
            Some(v) => v,
            None => JsonView::Null,
        },
        _ => row_key,
    }
}

/// The parameters a row key binds for the primary key: one per primary key
/// column for an array or object key, else the key itself.
pub open spec fn key_values(row_key: JsonView, pk: Seq<String>) -> Seq<SqlParamView> {
    if row_key is Array || row_key is Object {
        Seq::new(pk.len(), |i: int| sql_param_of(key_value_at(row_key, pk, i)))
    } else {
        seq![sql_param_of(row_key)]
    }
}

/// The parameters a row key binds for the primary key columns.
pub fn extract_key_values(row_key: &JsonValue, primary_key: &Vec<String>) -> (r: Vec<SqlParam>)
    ensures
        params_view(r@) == key_values(row_key@, primary_key@),
{
    let mut values: Vec<SqlParam> = Vec::new();
    match row_key {
        JsonValue::Array(arr) => {
            proof {
                lemma_json_views(arr@);
            }
            let mut i: usize = 0;
            while i < primary_key.len()
                invariant
                    i <= primary_key@.len(),
                    row_key@ == JsonView::Array(crate::json::json_views(arr@)),
                    crate::json::json_views(arr@).len() == arr@.len(),
                    forall|j: int| 0 <= j < arr@.len() ==> #[trigger] crate::json::json_views(arr@)[j] == arr@[j]@,
                    params_view(values@) =~= key_values(row_key@, primary_key@).take(i as int),
                decreases primary_key@.len() - i,
            {
                let p = if i < arr.len() {
                    json_to_sqlite_value(&arr[i])
                } else {
                    SqlParam::Null
                };
                let ghost before = values@;
                let ghost pv = p@;
                assert(pv == sql_param_of(key_value_at(row_key@, primary_key@, i as int)));
                values.push(p);
                assert(params_view(values@) =~= params_view(before).push(pv));
                assert(key_values(row_key@, primary_key@).take(i + 1) =~= key_values(row_key@, primary_key@).take(i as int).push(pv));
                i = i + 1;
            }
        },
        JsonValue::Object(obj) => {
            let mut i: usize = 0;
            while i < primary_key.len()
                invariant
                    i <= primary_key@.len(),
                    row_key@ == JsonView::Object(obj@),
                    params_view(values@) =~= key_values(row_key@, primary_key@).take(i as int),
                decreases primary_key@.len() - i,
            {
                let p = match obj.get(primary_key[i].as_str()) {
                    Some(v) => json_to_sqlite_value(v),
                    None => SqlParam::Null,
                };
                let ghost before = values@;
                let ghost pv = p@;
                assert(pv == sql_param_of(key_value_at(row_key@, primary_key@, i as int)));
                values.push(p);
                assert(params_view(values@) =~= params_view(before).push(pv));
                assert(key_values(row_key@, primary_key@).take(i + 1) =~= key_values(row_key@, primary_key@).take(i as int).push(pv));
                i = i + 1;
            }
        },
        _ => {
            values.push(json_to_sqlite_value(row_key));
            assert(params_view(values@) =~= key_values(row_key@, primary_key@));
            return values;
        },
    }
    assert(key_values(row_key@, primary_key@).take(primary_key@.len() as int) =~= key_values(
        row_key@,
        primary_key@,
    ));
    values
}

pub open spec fn cells_view(cs: Seq<SqlCell>) -> Seq<SqlCellView> {
    cs.map_values(|c: SqlCell| c@)
}

/// The row that the first `n` columns make, each inserted in turn under its
/// column name.
pub open spec fn row_of_cells(cols: Seq<String>, cells: Seq<SqlCellView>, n: nat) -> RowView
    decreases n,
{
    if n == 0 {
        Seq::empty()
    } else {
        map_insert(
            row_of_cells(cols, cells, (n - 1) as nat),
            cols[n - 1]@,
            cell_json(cells[n - 1]),
        )
    }
}

/// The row a fetched line of cells makes, column by column.
pub fn row_from_cells(cols: &Vec<String>, cells: &Vec<SqlCell>) -> (row: Row)
    requires
        cells@.len() == cols@.len(),
    ensures
        row.wf(),
        row@ == row_of_cells(cols@, cells_view(cells@), cols@.len()),
{
    let mut row = JsonMap::new();
    let mut i: usize = 0;
    while i < cols.len()
        invariant
            i <= cols@.len(),
            cells@.len() == cols@.len(),
            row.wf(),
            row@ == row_of_cells(cols@, cells_view(cells@), i as nat),
        decreases cols@.len() - i,
    {
        let v = sqlite_value_to_json(&cells[i]);
        row.insert(cols[i].clone(), v);
        i = i + 1;
    }
    row
}

/// A row that some line of cells makes for the columns.
pub open spec fn fetched_row(cols: Seq<String>, row: RowView) -> bool {
    exists|cells: Seq<SqlCellView>|
        cells.len() == cols.len() && row == #[trigger] row_of_cells(cols, cells, cols.len())
}

/// Fetches the row with the given key (`get_row_sql` with the key's
/// parameters), if there is one.
pub fn get_row(conn: &rusqlite::Connection, table_spec: &TableSpec, row_key: &JsonValue) -> (r:
    Result<Option<Row>, DiffError>)
    ensures
        r matches Ok(Some(row)) ==> row.wf() && fetched_row(table_spec.columns@, row@),
        r matches Err(e) ==> e is Unknown,
{
    let sql = build_get_row_sql(table_spec);
    let params = extract_key_values(row_key, &table_spec.primary_key);
    match query_cells(conn, sql.as_str(), &params, table_spec.columns.len()) {
        Err(msg) => Err(DiffError::Unknown(msg)),
        Ok(rows) => {
            if rows.len() == 0 {
                Ok(None)
            } else {
                let row = row_from_cells(&table_spec.columns, &rows[0]);
                assert(row_of_cells(table_spec.columns@, cells_view(rows@[0]@), table_spec.columns@.len()) == row@);
                Ok(Some(row))
            }
        },
    }
}


/// Every column of the key has a non-null value in the row.
pub open spec fn key_usable(uk: Seq<String>, row: RowView) -> bool {
    forall|j: int|
        0 <= j < uk.len() ==> (entries_get(row, #[trigger] uk[j]@) matches Some(v) && v
            != JsonView::Null)
}

/// `({c1} = ? AND {c2} = ? ...)` for one unique key.
pub open spec fn or_clause(uk: Seq<String>) -> Seq<char> {
    "("@ + join(eq_params(uk), " AND "@) + ")"@
}

/// The row's value in a column, null where it has none.
pub open spec fn value_or_null(row: RowView, col: Seq<char>) -> JsonView {
    match entries_get(row, col) {
        Some(v) => v,
        None => JsonView::Null,
    }
}

/// The parameters one unique key binds: the row's value in each column.
pub open spec fn key_params(uk: Seq<String>, row: RowView) -> Seq<SqlParamView> {
    Seq::new(uk.len(), |j: int| sql_param_of(value_or_null(row, uk[j]@)))
}

/// The clauses and parameters of the unique keys that the row can be looked
/// up by (those whose columns all hold a non-null value), in order.
pub open spec fn unique_key_parts(uks: Seq<Vec<String>>, row: RowView) -> (
    Seq<Seq<char>>,
    Seq<SqlParamView>,
)
    decreases uks.len(),
{
    if uks.len() == 0 {
        (Seq::empty(), Seq::empty())
    } else {
        let rest = unique_key_parts(uks.drop_last(), row);
        let uk = uks.last()@;
        if key_usable(uk, row) {
            (rest.0.push(or_clause(uk)), rest.1 + key_params(uk, row))
        } else {
            rest
        }
    }
}

fn key_usable_exec(uk: &Vec<String>, row: &Row) -> (r: bool)
    ensures
        r == key_usable(uk@, row@),
{
    let mut i: usize = 0;
    while i < uk.len()
        invariant
            i <= uk@.len(),
            forall|j: int|
                0 <= j < i ==> (entries_get(row@, #[trigger] uk@[j]@) matches Some(v) && v
                    != JsonView::Null),
        decreases uk@.len() - i,
    {
        match row.get(uk[i].as_str()) {
            Some(v) => {
                if v.is_null() {
                    return false;
                }
            },
            None => {
                return false;
            },
        }
        i = i + 1;
    }
    true
}

/// The query and parameters `get_rows` runs: every column of the table, rows
/// matching any of the usable unique keys.
pub fn build_get_rows_query(table_spec: &TableSpec, unique_keys: &Vec<Vec<String>>, row: &Row) -> (r: (
    String,
    Vec<SqlParam>,
))
    ensures
        r.0@ == select_where_sql(*table_spec, join(unique_key_parts(unique_keys@, row@).0, " OR "@)),
        params_view(r.1@) == unique_key_parts(unique_keys@, row@).1,
{
    let mut clauses: Vec<String> = Vec::new();
    let mut params: Vec<SqlParam> = Vec::new();
    let mut k: usize = 0;
    while k < unique_keys.len()
        invariant
            k <= unique_keys@.len(),
            views(clauses@) == unique_key_parts(unique_keys@.take(k as int), row@).0,
            params_view(params@) == unique_key_parts(unique_keys@.take(k as int), row@).1,
        decreases unique_keys@.len() - k,
    {
        let uk = &unique_keys[k];
        assert(unique_keys@.take(k + 1).drop_last() =~= unique_keys@.take(k as int));
        if key_usable_exec(uk, row) {
            let conds = eq_param_list(uk);
            let mut clause = String::from_str("(");
            let inner = join_strings(&conds, " AND ");
            clause.append(inner.as_str());
            clause.append(")");
            let ghost before = clauses@;
            let ghost cv = clause@;
            clauses.push(clause);
            assert(views(clauses@) =~= views(before).push(cv));
            let mut j: usize = 0;
            let ghost p0 = params_view(params@);
            while j < uk.len()
                invariant
                    j <= uk@.len(),
                    params_view(params@) =~= p0 + key_params(uk@, row@).take(j as int),
                decreases uk@.len() - j,
            {
                let p = match row.get(uk[j].as_str()) {
                    Some(v) => json_to_sqlite_value(v),
                    None => SqlParam::Null,
                };
                let ghost pb = params@;
                let ghost pv = p@;
                assert(pv == sql_param_of(value_or_null(row@, uk@[j as int]@)));
                params.push(p);
                assert(params_view(params@) =~= params_view(pb).push(pv));
                assert(key_params(uk@, row@).take(j + 1) =~= key_params(uk@, row@).take(j as int).push(pv));
                j = j + 1;
            }
            assert(key_params(uk@, row@).take(uk@.len() as int) =~= key_params(uk@, row@));
        }
        k = k + 1;
    }
    assert(unique_keys@.take(unique_keys@.len() as int) =~= unique_keys@);
    let cond = join_strings(&clauses, " OR ");
    (select_where(table_spec, cond.as_str()), params)
}

/// Fetches the rows that share a value of a usable unique key with `row`
/// (keys with a null or missing column are left out); no query runs, and
/// nothing comes back, when no key is usable.
pub fn get_rows(
    conn: &rusqlite::Connection,
    table_spec: &TableSpec,
    unique_keys: &Vec<Vec<String>>,
    row: &Row,
) -> (r: Result<Vec<Row>, DiffError>)
    ensures
        unique_key_parts(unique_keys@, row@).0.len() == 0 ==> (r matches Ok(rows) && rows@.len()
            == 0),
        r matches Ok(rows) ==> forall|i: int|
            0 <= i < rows@.len() ==> (#[trigger] rows@[i]).wf() && fetched_row(
                table_spec.columns@,
                rows@[i]@,
            ),
        r matches Err(e) ==> e is Unknown,
{
    if !has_usable_key(unique_keys, row) {
        return Ok(Vec::new());
    }
    let (sql, params) = build_get_rows_query(table_spec, unique_keys, row);
    match query_cells(conn, sql.as_str(), &params, table_spec.columns.len()) {
        Err(msg) => Err(DiffError::Unknown(msg)),
        Ok(lines) => {
            let mut rows: Vec<Row> = Vec::new();
            let mut i: usize = 0;
            while i < lines.len()
                invariant
                    i <= lines@.len(),
                    forall|k: int| 0 <= k < lines@.len() ==> (#[trigger] lines@[k])@.len() == table_spec.columns@.len(),
                    rows@.len() == i,
                    forall|k: int|
                        0 <= k < i ==> (#[trigger] rows@[k]).wf() && fetched_row(
                            table_spec.columns@,
                            rows@[k]@,
                        ),
                decreases lines@.len() - i,
            {
                let r = row_from_cells(&table_spec.columns, &lines[i]);
                assert(row_of_cells(table_spec.columns@, cells_view(lines@[i as int]@), table_spec.columns@.len()) == r@);
                rows.push(r);
                i = i + 1;
            }
            Ok(rows)
        },
    }
}

/// Whether some unique key is usable for the row.
fn has_usable_key(unique_keys: &Vec<Vec<String>>, row: &Row) -> (r: bool)
    ensures
        r == (unique_key_parts(unique_keys@, row@).0.len() > 0),
{
    let mut k: usize = 0;
    let mut found = false;
    while k < unique_keys.len()
        invariant
            k <= unique_keys@.len(),
            found == (unique_key_parts(unique_keys@.take(k as int), row@).0.len() > 0),
        decreases unique_keys@.len() - k,
    {
        assert(unique_keys@.take(k + 1).drop_last() =~= unique_keys@.take(k as int));
        if key_usable_exec(&unique_keys[k], row) {
            found = true;
        }
        k = k + 1;
    }
    assert(unique_keys@.take(unique_keys@.len() as int) =~= unique_keys@);
    found
}


/// An entry of the change log: state version, table, row key, operation.
pub type ChangelogEntry = (String, String, JsonValue, String);

/// A row key as the change log holds it: its JSON value where the text is
/// JSON, else the text itself as a string.
pub open spec fn entry_row_key(text: Seq<char>) -> JsonView {
    match json_parse(text) {
        Some(v) => v,
        None => JsonView::Str(text),
    }
}

/// The entry that one line of the change log query (state version, table,
/// row key text, operation) makes.
pub fn changelog_entry(cols: &Vec<String>) -> (e: ChangelogEntry)
    requires
        cols@.len() == 4,
    ensures
        e.0@ == cols@[0]@,
        e.1@ == cols@[1]@,
        e.2@ == entry_row_key(cols@[2]@),
        e.3@ == cols@[3]@,
{
    let row_key = match parse_json(cols[2].as_str()) {
        Some(v) => v,
        None => JsonValue::String(cols[2].clone()),
    };
    (cols[0].clone(), cols[1].clone(), row_key, cols[3].clone())
}

/// The entry a change log line (state version, table, row key text,
/// operation) makes.
pub open spec fn line_entry(cols: Seq<String>) -> (Seq<char>, Seq<char>, JsonView, Seq<char>) {
    (cols[0]@, cols[1]@, entry_row_key(cols[2]@), cols[3]@)
}

pub open spec fn entry_view(e: ChangelogEntry) -> (Seq<char>, Seq<char>, JsonView, Seq<char>) {
    (e.0@, e.1@, e.2@, e.3@)
}

/// The entry is what some change log line makes.
#[verifier::opaque]
pub open spec fn from_line(e: (Seq<char>, Seq<char>, JsonView, Seq<char>)) -> bool {
    exists|cols: Seq<String>| cols.len() == 4 && #[trigger] line_entry(cols) == e
}

/// Lines of the change log read per query.
pub const CHANGELOG_BATCH_SIZE: u64 = 500;

/// Reads the change log entries after `prev_version`, in state version and
/// position order, a batch at a time until a batch comes back short. (The
/// offset of a batch must fit in an `i64`; a log too long for that is
/// refused.)
pub fn read_changelog_entries(conn: &rusqlite::Connection, prev_version: &str) -> (r: Result<
    Vec<ChangelogEntry>,
    DiffError,
>)
    ensures
        r matches Err(e) ==> e is Unknown,
        r matches Ok(es) ==> forall|k: int| 0 <= k < es@.len() ==> from_line(entry_view(#[trigger] es@[k])),
{
    let mut results: Vec<ChangelogEntry> = Vec::new();
    let mut offset: u64 = 0;
    loop
        invariant
            offset <= i64::MAX,
            forall|k: int| 0 <= k < results@.len() ==> from_line(entry_view(#[trigger] results@[k])),
        decreases i64::MAX - offset,
    {
        let params = vec![
            SqlParam::Text(prev_version.to_string()),
            SqlParam::Integer(CHANGELOG_BATCH_SIZE as i64),
            SqlParam::Integer(offset as i64),
        ];
        let batch = match query_strings(
            conn,
            r#"SELECT stateVersion, "table", rowKey, op
                   FROM "_zero.changeLog2"
                   WHERE stateVersion > ?
                   ORDER BY stateVersion, pos
                   LIMIT ? OFFSET ?"#,
            &params,
            4,
        ) {
            Err(msg) => {
                return Err(DiffError::Unknown(msg));
            },
            Ok(b) => b,
        };
        let mut i: usize = 0;
        while i < batch.len()
            invariant
                i <= batch@.len(),
                forall|k: int| 0 <= k < batch@.len() ==> (#[trigger] batch@[k])@.len() == 4,
                forall|k: int| 0 <= k < results@.len() ==> from_line(entry_view(#[trigger] results@[k])),
            decreases batch@.len() - i,
        {
            let e = changelog_entry(&batch[i]);
            assert(from_line(entry_view(e))) by {
                reveal(from_line);
                assert(line_entry(batch@[i as int]@) == entry_view(e));
            }
            let ghost before = results@;
            results.push(e);
            assert forall|k: int| 0 <= k < results@.len() implies from_line(entry_view(#[trigger] results@[k])) by {
                if k < before.len() {
                    assert(results@[k] == before[k]);
                }
            }
            i = i + 1;
        }
        if (batch.len() as u64) < CHANGELOG_BATCH_SIZE {
            break ;
        }
        if offset > (i64::MAX as u64) - 2 * CHANGELOG_BATCH_SIZE {
            return Err(DiffError::Unknown(String::from_str("change log offset out of range")));
        }
        offset = offset + CHANGELOG_BATCH_SIZE;
    }
    Ok(results)
}

/// What a change log entry calls for.
pub enum EntryAction {
    /// A schema change: the diff cannot be read.
    Reset,
    /// A truncation: the diff cannot be read.
    Truncate,
    /// A known table that is not synced.
    Skip,
    /// A table that is not known at all.
    UnknownTable,
    /// A row was set.
    SetRow,
    /// A row was deleted.
    DeleteRow,
}

/// The action of an entry with operation `op` on `table`: `r` resets, `t`
/// truncates, a table that is not synced is skipped where it is known and
/// refused where it is not, `s` sets a row and any other operation deletes
/// one.
pub open spec fn entry_action(
    op: Seq<char>,
    table: Seq<char>,
    syncable: Seq<(String, TableAndZqlSpec)>,
    all_tables: Seq<String>,
) -> EntryAction {
    if op == "r"@ {
        EntryAction::Reset
    } else if op == "t"@ {
        EntryAction::Truncate
    } else if assoc_get(syncable, table) is None {
        if views(all_tables).contains(table) {
            EntryAction::Skip
        } else {
            EntryAction::UnknownTable
        }
    } else if op == "s"@ {
        EntryAction::SetRow
    } else {
        EntryAction::DeleteRow
    }
}

fn contains_name(names: &Vec<String>, name: &str) -> (r: bool)
    ensures
        r == views(names@).contains(name@),
{
    let mut i: usize = 0;
    while i < names.len()
        invariant
            i <= names@.len(),
            forall|k: int| 0 <= k < i ==> names@[k]@ != name@,
        decreases names@.len() - i,
    {
        if str_eq(names[i].as_str(), name) {
            assert(views(names@)[i as int] == name@);
            return true;
        }
        i = i + 1;
    }
    assert(!views(names@).contains(name@)) by {
        if views(names@).contains(name@) {
            let k = choose|k: int| 0 <= k < views(names@).len() && views(names@)[k] == name@;
            assert(names@[k]@ == name@);
        }
    }
    false
}

/// Decides what a change log entry calls for.
pub fn classify_entry(
    op: &str,
    table: &str,
    syncable_tables: &Vec<(String, TableAndZqlSpec)>,
    all_table_names: &Vec<String>,
) -> (a: EntryAction)
    ensures
        a == entry_action(op@, table@, syncable_tables@, all_table_names@),
{
    proof {
        reveal_strlit("r");
        reveal_strlit("t");
        reveal_strlit("s");
    }
    if str_eq(op, "r") {
        EntryAction::Reset
    } else if str_eq(op, "t") {
        EntryAction::Truncate
    } else if assoc_find(syncable_tables, table).is_none() {
        if contains_name(all_table_names, table) {
            EntryAction::Skip
        } else {
            EntryAction::UnknownTable
        }
    } else if str_eq(op, "s") {
        EntryAction::SetRow
    } else {
        EntryAction::DeleteRow
    }
}

fn prefixed(prefix: &str, s: &str) -> (r: String)
    ensures
        r@ == prefix@ + s@,
{
    let mut r = String::from_str(prefix);
    r.append(s);
    r
}

pub open spec fn rows_view(rows: Seq<Row>) -> Seq<RowView> {
    rows.map_values(|r: Row| r@)
}

pub open spec fn opt_view(r: Option<Row>) -> Option<RowView> {
    match r {
        Some(x) => Some(x@),
        None => None,
    }
}

/// A set of a permissions row that changes its `permissions` value: the
/// table is the permissions table, there are replaced rows and a new row,
/// and both the first replaced row and the new row hold `permissions`, with
/// values that differ.
pub open spec fn permissions_changed(
    table: Seq<char>,
    permissions_table: Seq<char>,
    prev_values: Seq<RowView>,
    next_value: Option<RowView>,
) -> bool {
    &&& table == permissions_table
    &&& prev_values.len() > 0
    &&& next_value matches Some(nv)
    &&& entries_get(prev_values[0], "permissions"@) matches Some(a)
    &&& entries_get(nv, "permissions"@) matches Some(b)
    &&& !json_equal(a, b)
}

/// The change a set makes: the replaced and new rows converted to client
/// types.
pub open spec fn converted_change(
    table: Seq<char>,
    row_key: JsonView,
    prev_values: Seq<RowView>,
    next_value: Option<RowView>,
    cols: Seq<(String, ColumnSpec)>,
) -> ChangeView {
    ChangeView {
        table,
        prev_values: prev_values.map_values(|r: RowView| from_sqlite_row(r, cols)),
        next_value: match next_value {
            Some(r) => Some(from_sqlite_row(r, cols)),
            None => None,
        },
        row_key,
    }
}

fn convert_row(zql_spec: &ZqlSpec, row: &Row) -> (r: Row)
    requires
        row.wf(),
    ensures
        r.wf(),
        r@ == from_sqlite_row(row@, zql_spec.columns@),
{
    let mut r = row.duplicate();
    from_sqlite_types(zql_spec, &mut r);
    r
}

/// The change a set entry makes from the row the current snapshot holds
/// (`next_value`) and the rows of the previous snapshot it replaces: none
/// where both are absent, a reset where it changes the permissions, else
/// the change with its rows converted to client types.
pub fn set_change(
    table: &String,
    row_key: &JsonValue,
    next_value: Option<Row>,
    prev_values: Vec<Row>,
    zql_spec: &ZqlSpec,
    permissions_table: &str,
) -> (r: Result<Option<Change>, DiffError>)
    requires
        next_value matches Some(nv) ==> nv.wf(),
        forall|i: int| 0 <= i < prev_values@.len() ==> (#[trigger] prev_values@[i]).wf(),
    ensures
        prev_values@.len() == 0 && next_value is None ==> r matches Ok(None),
        !(prev_values@.len() == 0 && next_value is None) && permissions_changed(
            table@,
            permissions_table@,
            rows_view(prev_values@),
            opt_view(next_value),
        ) ==> (r matches Err(e) && e@ == DiffErrorView::Reset("permissions-change"@)),
        !(prev_values@.len() == 0 && next_value is None) && !permissions_changed(
            table@,
            permissions_table@,
            rows_view(prev_values@),
            opt_view(next_value),
        ) ==> (r matches Ok(Some(c)) && c@ == converted_change(
            table@,
            row_key@,
            rows_view(prev_values@),
            opt_view(next_value),
            zql_spec.columns@,
        )),
{
    if prev_values.len() == 0 && next_value.is_none() {
        return Ok(None);
    }
    proof {
        reveal_strlit("permissions");
    }
    if str_eq(table.as_str(), permissions_table) && prev_values.len() > 0 {
        match &next_value {
            Some(nv) => {
                match (prev_values[0].get("permissions"), nv.get("permissions")) {
                    (Some(a), Some(b)) => {
                        if !json_eq(a, b) {
                            return Err(DiffError::Reset(String::from_str("permissions-change")));
                        }
                    },
                    _ => {},
                }
            },
            None => {},
        }
    }
    let next = match &next_value {
        Some(nv) => Some(convert_row(zql_spec, nv)),
        None => None,
    };
    let mut prevs: Vec<Row> = Vec::new();
    let mut i: usize = 0;
    while i < prev_values.len()
        invariant
            i <= prev_values@.len(),
            forall|k: int| 0 <= k < prev_values@.len() ==> (#[trigger] prev_values@[k]).wf(),
            rows_view(prevs@) =~= rows_view(prev_values@).take(i as int).map_values(
                |r: RowView| from_sqlite_row(r, zql_spec.columns@),
            ),
        decreases prev_values@.len() - i,
    {
        let c = convert_row(zql_spec, &prev_values[i]);
        let ghost before = prevs@;
        let ghost cv = c@;
        prevs.push(c);
        assert(rows_view(prevs@) =~= rows_view(before).push(cv));
        assert(rows_view(prev_values@).take(i + 1) =~= rows_view(prev_values@).take(i as int).push(prev_values@[i as int]@));
        i = i + 1;
    }
    assert(rows_view(prev_values@).take(prev_values@.len() as int) =~= rows_view(prev_values@));
    Ok(Some(Change { table: table.clone(), prev_values: prevs, next_value: next, row_key: row_key.duplicate() }))
}

/// The change a delete entry makes from the row the previous snapshot held:
/// none where it held none, else the removal of that row, converted to
/// client types.
pub fn delete_change(table: &String, row_key: &JsonValue, prev_row: Option<Row>, zql_spec: &ZqlSpec) -> (r: Option<
    Change,
>)
    requires
        prev_row matches Some(p) ==> p.wf(),
    ensures
        prev_row is None ==> r is None,
        prev_row matches Some(p) ==> (r matches Some(c) && c@ == converted_change(
            table@,
            row_key@,
            seq![p@],
            None,
            zql_spec.columns@,
        )),
{
    match &prev_row {
        None => None,
        Some(p) => {
            let c = convert_row(zql_spec, p);
            let ghost cv = c@;
            let prevs = vec![c];
            assert(rows_view(prevs@) =~= seq![p@].map_values(|r: RowView| from_sqlite_row(r, zql_spec.columns@)));
            Some(Change { table: table.clone(), prev_values: prevs, next_value: None, row_key: row_key.duplicate() })
        },
    }
}

/// A change that `read_diff` can return: of a synced table, and not a no-op.
pub open spec fn diff_change_ok(c: ChangeView, syncable: Seq<(String, TableAndZqlSpec)>) -> bool {
    &&& (c.prev_values.len() > 0 || c.next_value is Some)
    &&& match assoc_get(syncable, c.table) {
        Some(tz) => converted_for(c, tz.zql_spec.columns@),
        None => false,
    }
}

/// The change holds rows of its table converted to client types: it is
/// what some replaced rows and new row of the table make.
#[verifier::opaque]
pub open spec fn converted_for(c: ChangeView, cols: Seq<(String, ColumnSpec)>) -> bool {
    exists|pv: Seq<RowView>, nv: Option<RowView>| #[trigger] converted_change(c.table, c.row_key, pv, nv, cols) == c
}

/// The errors a diff read ends with: a schema change, a truncation or a
/// change of permissions resets; anything else is unknown.
pub open spec fn diff_error_ok(e: DiffErrorView) -> bool {
    match e {
        DiffErrorView::Reset(m) => "schema-change on table "@.is_prefix_of(m) || m == "permissions-change"@,
        DiffErrorView::Truncate(m) => "truncation on table "@.is_prefix_of(m),
        DiffErrorView::Unknown(_) => true,
    }
}

/// What the snapshots gave for one change log entry: the first row read
/// (the new row of a set, the removed row of a delete) and, for a set, the
/// rows it replaces.
pub struct EntryReads {
    pub first: Result<Option<RowView>, DiffErrorView>,
    pub rows: Result<Seq<RowView>, DiffErrorView>,
}

/// What one change log entry gives, with what the snapshots returned for
/// it: a schema change, a truncation and an unknown table end the read
/// with an error; a table that is not synced gives nothing; a set gives the
/// change from its new row and the rows it replaces (nothing for a no-op,
/// a reset where the permissions change); a delete gives the change
/// removing the row it finds; an error reading ends the read with it.
pub open spec fn entry_outcome(
    e: (Seq<char>, Seq<char>, JsonView, Seq<char>),
    rd: EntryReads,
    syncable: Seq<(String, TableAndZqlSpec)>,
    all_tables: Seq<String>,
    perms: Seq<char>,
) -> Result<Option<ChangeView>, DiffErrorView> {
    let table = e.1;
    let key = e.2;
    match entry_action(e.3, table, syncable, all_tables) {
        EntryAction::Reset => Err(DiffErrorView::Reset("schema-change on table "@ + table)),
        EntryAction::Truncate => Err(DiffErrorView::Truncate("truncation on table "@ + table)),
        EntryAction::UnknownTable => Err(DiffErrorView::Unknown("unknown table: "@ + table)),
        EntryAction::Skip => Ok(None),
        EntryAction::SetRow => {
            let cols = assoc_get(syncable, table)->Some_0.zql_spec.columns@;
            match rd.first {
                Err(x) => Err(x),
                Ok(nv) => match (if nv is Some {
                    rd.rows
                } else {
                    Ok(Seq::empty())
                }) {
                    Err(x) => Err(x),
                    Ok(pvs) => if pvs.len() == 0 && nv is None {
                        Ok(None)
                    } else if permissions_changed(table, perms, pvs, nv) {
                        Err(DiffErrorView::Reset("permissions-change"@))
                    } else {
                        Ok(Some(converted_change(table, key, pvs, nv, cols)))
                    },
                },
            }
        },
        EntryAction::DeleteRow => {
            let cols = assoc_get(syncable, table)->Some_0.zql_spec.columns@;
            match rd.first {
                Err(x) => Err(x),
                Ok(None) => Ok(None),
                Ok(Some(p)) => Ok(Some(converted_change(table, key, seq![p], None, cols))),
            }
        },
    }
}

/// The changes a run of change log entries gives, in order, with what the
/// snapshots returned for each; the first error ends it.
pub open spec fn diff_outcome(
    es: Seq<(Seq<char>, Seq<char>, JsonView, Seq<char>)>,
    rs: Seq<EntryReads>,
    syncable: Seq<(String, TableAndZqlSpec)>,
    all_tables: Seq<String>,
    perms: Seq<char>,
) -> Result<Seq<ChangeView>, DiffErrorView>
    decreases es.len(),
{
    if es.len() == 0 || rs.len() == 0 {
        Ok(Seq::empty())
    } else {
        match diff_outcome(es.drop_last(), rs.drop_last(), syncable, all_tables, perms) {
            Err(x) => Err(x),
            Ok(cs) => match entry_outcome(es.last(), rs.last(), syncable, all_tables, perms) {
                Err(x) => Err(x),
                Ok(None) => Ok(cs),
                Ok(Some(c)) => Ok(cs.push(c)),
            },
        }
    }
}

pub open spec fn diff_view(r: Result<Vec<Change>, DiffError>) -> Result<Seq<ChangeView>, DiffErrorView> {
    match r {
        Ok(cs) => Ok(cs@.map_values(|c: Change| c@)),
        Err(e) => Err(e@),
    }
}

proof fn lemma_diff_outcome_err(
    es: Seq<(Seq<char>, Seq<char>, JsonView, Seq<char>)>,
    rs: Seq<EntryReads>,
    syncable: Seq<(String, TableAndZqlSpec)>,
    all_tables: Seq<String>,
    perms: Seq<char>,
    j: int,
)
    requires
        0 < j <= es.len(),
        rs.len() == es.len(),
        diff_outcome(es.take(j), rs.take(j), syncable, all_tables, perms) is Err,
    ensures
        diff_outcome(es, rs, syncable, all_tables, perms) == diff_outcome(es.take(j), rs.take(j), syncable, all_tables, perms),
    decreases es.len() - j,
{
    if j < es.len() {
        assert(es.take(j + 1).drop_last() =~= es.take(j));
        assert(rs.take(j + 1).drop_last() =~= rs.take(j));
        lemma_diff_outcome_err(es, rs, syncable, all_tables, perms, j + 1);
    } else {
        assert(es.take(j) =~= es);
        assert(rs.take(j) =~= rs);
    }
}

/// Some reads of the snapshots make the entries give this outcome.
pub open spec fn diff_read_from(
    out: Result<Seq<ChangeView>, DiffErrorView>,
    es: Seq<(Seq<char>, Seq<char>, JsonView, Seq<char>)>,
    syncable: Seq<(String, TableAndZqlSpec)>,
    all_tables: Seq<String>,
    perms: Seq<char>,
) -> bool {
    exists|rs: Seq<EntryReads>| rs.len() == es.len() && #[trigger] diff_outcome(es, rs, syncable, all_tables, perms) == out
}

pub open spec fn no_reads() -> EntryReads {
    EntryReads { first: Ok(None), rows: Ok(Seq::empty()) }
}

proof fn lemma_diff_step(
    es: Seq<(Seq<char>, Seq<char>, JsonView, Seq<char>)>,
    rs: Seq<EntryReads>,
    rd: EntryReads,
    syncable: Seq<(String, TableAndZqlSpec)>,
    all_tables: Seq<String>,
    perms: Seq<char>,
    i: int,
)
    requires
        0 <= i < es.len(),
        rs.len() == i,
    ensures
        diff_outcome(es.take(i + 1), rs.push(rd), syncable, all_tables, perms) == match diff_outcome(
            es.take(i),
            rs,
            syncable,
            all_tables,
            perms,
        ) {
            Err(x) => Err(x),
            Ok(cs) => match entry_outcome(es[i], rd, syncable, all_tables, perms) {
                Err(x) => Err(x),
                Ok(None) => Ok(cs),
                Ok(Some(c)) => Ok(cs.push(c)),
            },
        },
{
    assert(es.take(i + 1).drop_last() =~= es.take(i));
    assert(rs.push(rd).drop_last() =~= rs);
    assert(es.take(i + 1).last() == es[i]);
}

/// An entry that ends the read with an error ends the whole read with it.
proof fn lemma_diff_stops(
    es: Seq<(Seq<char>, Seq<char>, JsonView, Seq<char>)>,
    rs: Seq<EntryReads>,
    rd: EntryReads,
    syncable: Seq<(String, TableAndZqlSpec)>,
    all_tables: Seq<String>,
    perms: Seq<char>,
    i: int,
    x: DiffErrorView,
)
    requires
        0 <= i < es.len(),
        rs.len() == i,
        diff_outcome(es.take(i), rs, syncable, all_tables, perms) is Ok,
        entry_outcome(es[i], rd, syncable, all_tables, perms) == Err::<Option<ChangeView>, DiffErrorView>(x),
    ensures
        diff_read_from(Err(x), es, syncable, all_tables, perms),
{
    lemma_diff_step(es, rs, rd, syncable, all_tables, perms, i);
    let full = rs.push(rd) + Seq::new((es.len() - i - 1) as nat, |k: int| no_reads());
    assert(full.take(i + 1) =~= rs.push(rd));
    lemma_diff_outcome_err(es, full, syncable, all_tables, perms, i + 1);
    assert(diff_outcome(es, full, syncable, all_tables, perms) == Err::<Seq<ChangeView>, DiffErrorView>(x));
}

/// Reads the changes between two snapshots: the change log of the current
/// one from `prev_version` on (`read_changelog_entries`), then what those
/// entries give (`diff_entries`).
pub fn read_diff(
    prev_conn: &rusqlite::Connection,
    curr_conn: &rusqlite::Connection,
    prev_version: &str,
    syncable_tables: &Vec<(String, TableAndZqlSpec)>,
    all_table_names: &Vec<String>,
    permissions_table: &str,
) -> (r: Result<Vec<Change>, DiffError>)
    ensures
        r matches Ok(changes) ==> forall|i: int|
            0 <= i < changes@.len() ==> diff_change_ok((#[trigger] changes@[i])@, syncable_tables@),
        r matches Err(e) ==> diff_error_ok(e@),
        (r matches Err(e) && e is Unknown) || exists|es: Seq<(Seq<char>, Seq<char>, JsonView, Seq<char>)>|
            (forall|k: int| 0 <= k < es.len() ==> from_line(#[trigger] es[k])) && #[trigger] diff_read_from(
                diff_view(r),
                es,
                syncable_tables@,
                all_table_names@,
                permissions_table@,
            ),
{
    let entries = match read_changelog_entries(curr_conn, prev_version) {
        Ok(es) => es,
        Err(e) => {
            return Err(e);
        },
    };
    let ghost ev = entries@.map_values(|e: ChangelogEntry| entry_view(e));
    assert forall|k: int| 0 <= k < ev.len() implies from_line(#[trigger] ev[k]) by {
        assert(ev[k] == entry_view(entries@[k]));
    }
    let r = diff_entries(prev_conn, curr_conn, &entries, syncable_tables, all_table_names, permissions_table);
    r
}

/// What change log entries give between two snapshots, in order: each set
/// entry is read against the current snapshot (the new row) and the
/// previous one (the rows it replaces by unique key), each delete against
/// the previous one. Schema changes, truncations, unknown tables,
/// permission changes and failed reads stop it with an error; no-ops and
/// tables that are not synced are left out.
pub fn diff_entries(
    prev_conn: &rusqlite::Connection,
    curr_conn: &rusqlite::Connection,
    entries: &Vec<ChangelogEntry>,
    syncable_tables: &Vec<(String, TableAndZqlSpec)>,
    all_table_names: &Vec<String>,
    permissions_table: &str,
) -> (r: Result<Vec<Change>, DiffError>)
    ensures
        r matches Ok(changes) ==> forall|i: int|
            0 <= i < changes@.len() ==> diff_change_ok((#[trigger] changes@[i])@, syncable_tables@),
        r matches Err(e) ==> diff_error_ok(e@),
        diff_read_from(
            diff_view(r),
            entries@.map_values(|e: ChangelogEntry| entry_view(e)),
            syncable_tables@,
            all_table_names@,
            permissions_table@,
        ),
{
    let ghost ev = entries@.map_values(|e: ChangelogEntry| entry_view(e));
    let ghost sy = syncable_tables@;
    let ghost al = all_table_names@;
    let ghost pm = permissions_table@;
    let ghost mut rs: Seq<EntryReads> = Seq::empty();
    let mut changes: Vec<Change> = Vec::new();
    let mut i: usize = 0;
    assert(ev.take(0).len() == 0);
    assert(changes@.map_values(|c: Change| c@) =~= Seq::<ChangeView>::empty());
    while i < entries.len()
        invariant
            i <= entries@.len(),
            ev == entries@.map_values(|e: ChangelogEntry| entry_view(e)),
            sy == syncable_tables@,
            al == all_table_names@,
            pm == permissions_table@,
            rs.len() == i,
            diff_outcome(ev.take(i as int), rs, sy, al, pm) == Ok::<Seq<ChangeView>, DiffErrorView>(
                changes@.map_values(|c: Change| c@),
            ),
            forall|k: int|
                0 <= k < changes@.len() ==> diff_change_ok((#[trigger] changes@[k])@, syncable_tables@),
        decreases entries@.len() - i,
    {
        let table = &entries[i].1;
        let row_key = &entries[i].2;
        let ghost e = ev[i as int];
        assert(e == entry_view(entries@[i as int]));
        let ghost before = changes@;
        let action = classify_entry(entries[i].3.as_str(), table.as_str(), syncable_tables, all_table_names);
        let ghost mut rd = no_reads();
        match action {
            EntryAction::Reset => {
                let m = prefixed("schema-change on table ", table.as_str());
                assert("schema-change on table "@.is_prefix_of(m@)) by {
                    assert(m@.subrange(0, "schema-change on table "@.len() as int) =~= "schema-change on table "@);
                }
                proof {
                    lemma_diff_stops(ev, rs, rd, sy, al, pm, i as int, DiffErrorView::Reset(m@));
                }
                return Err(DiffError::Reset(m));
            },
            EntryAction::Truncate => {
                let m = prefixed("truncation on table ", table.as_str());
                assert("truncation on table "@.is_prefix_of(m@)) by {
                    assert(m@.subrange(0, "truncation on table "@.len() as int) =~= "truncation on table "@);
                }
                proof {
                    lemma_diff_stops(ev, rs, rd, sy, al, pm, i as int, DiffErrorView::Truncate(m@));
                }
                return Err(DiffError::Truncate(m));
            },
            EntryAction::UnknownTable => {
                let m = prefixed("unknown table: ", table.as_str());
                proof {
                    lemma_diff_stops(ev, rs, rd, sy, al, pm, i as int, DiffErrorView::Unknown(m@));
                }
                return Err(DiffError::Unknown(m));
            },
            EntryAction::Skip => {},
            EntryAction::SetRow => {
                match assoc_find(syncable_tables, table.as_str()) {
                    None => {
                        proof {
                            assert(false);
                        }
                    },
                    Some(tz) => {
                        let next_value = match get_row(curr_conn, &tz.table_spec, row_key) {
                            Ok(v) => v,
                            Err(e) => {
                                proof {
                                    rd = EntryReads { first: Err(e@), rows: Ok(Seq::empty()) };
                                    lemma_diff_stops(ev, rs, rd, sy, al, pm, i as int, e@);
                                }
                                return Err(e);
                            },
                        };
                        proof {
                            rd = EntryReads { first: Ok(opt_view(next_value)), rows: Ok(Seq::empty()) };
                        }
                        let prev_values = match &next_value {
                            Some(nv) => match get_rows(prev_conn, &tz.table_spec, &tz.table_spec.unique_keys, nv) {
                                Ok(rows) => rows,
                                Err(e) => {
                                    proof {
                                        rd = EntryReads { first: Ok(opt_view(next_value)), rows: Err(e@) };
                                        lemma_diff_stops(ev, rs, rd, sy, al, pm, i as int, e@);
                                    }
                                    return Err(e);
                                },
                            },
                            None => Vec::new(),
                        };
                        let ghost pvs = rows_view(prev_values@);
                        let ghost nvv = opt_view(next_value);
                        proof {
                            rd = EntryReads { first: Ok(nvv), rows: Ok(pvs) };
                            if nvv is None {
                                assert(pvs =~= Seq::<RowView>::empty());
                            }
                        }
                        match set_change(table, row_key, next_value, prev_values, &tz.zql_spec, permissions_table) {
                            Err(e) => {
                                proof {
                                    lemma_diff_stops(ev, rs, rd, sy, al, pm, i as int, e@);
                                }
                                return Err(e);
                            },
                            Ok(None) => {},
                            Ok(Some(c)) => {
                                assert(converted_for(c@, tz.zql_spec.columns@)) by {
                                    reveal(converted_for);
                                    assert(converted_change(c@.table, c@.row_key, pvs, nvv, tz.zql_spec.columns@) == c@);
                                }
                                changes.push(c);
                                assert forall|k: int| 0 <= k < changes@.len() implies diff_change_ok(
                                    (#[trigger] changes@[k])@,
                                    syncable_tables@,
                                ) by {
                                    if k < before.len() {
                                        assert(changes@[k] == before[k]);
                                    }
                                }
                            },
                        }
                    },
                }
            },
            EntryAction::DeleteRow => {
                match assoc_find(syncable_tables, table.as_str()) {
                    None => {
                        proof {
                            assert(false);
                        }
                    },
                    Some(tz) => {
                        let prev_row = match get_row(prev_conn, &tz.table_spec, row_key) {
                            Ok(v) => v,
                            Err(e) => {
                                proof {
                                    rd = EntryReads { first: Err(e@), rows: Ok(Seq::empty()) };
                                    lemma_diff_stops(ev, rs, rd, sy, al, pm, i as int, e@);
                                }
                                return Err(e);
                            },
                        };
                        let ghost pv = opt_view(prev_row);
                        proof {
                            rd = EntryReads { first: Ok(pv), rows: Ok(Seq::empty()) };
                        }
                        match delete_change(table, row_key, prev_row, &tz.zql_spec) {
                            None => {},
                            Some(c) => {
                                assert(converted_for(c@, tz.zql_spec.columns@)) by {
                                    reveal(converted_for);
                                    assert(converted_change(c@.table, c@.row_key, seq![pv.unwrap()], None, tz.zql_spec.columns@) == c@);
                                }
                                changes.push(c);
                                assert forall|k: int| 0 <= k < changes@.len() implies diff_change_ok(
                                    (#[trigger] changes@[k])@,
                                    syncable_tables@,
                                ) by {
                                    if k < before.len() {
                                        assert(changes@[k] == before[k]);
                                    }
                                }
                            },
                        }
                    },
                }
            },
        }
        proof {
            lemma_diff_step(ev, rs, rd, sy, al, pm, i as int);
            assert(changes@.map_values(|c: Change| c@) =~= match entry_outcome(e, rd, sy, al, pm) {
                Ok(Some(c)) => before.map_values(|c: Change| c@).push(c),
                _ => before.map_values(|c: Change| c@),
            });
            rs = rs.push(rd);
        }
        i = i + 1;
    }
    proof {
        assert(ev.take(ev.len() as int) =~= ev);
        assert(diff_outcome(ev, rs, sy, al, pm) == diff_view(Ok::<Vec<Change>, DiffError>(changes)));
        assert(diff_read_from(diff_view(Ok::<Vec<Change>, DiffError>(changes)), ev, sy, al, pm));
    }
    Ok(changes)
}

} // verus!
