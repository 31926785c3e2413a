//! Column types as the client names them, and the type of each column of a
//! fetched row.
use vstd::prelude::*;

use crate::json::str_eq;

verus! {

/// The type a column's values are converted to for the client.
#[derive(Debug, Clone, Copy, PartialEq, Eq, Structural)]
pub enum ColumnType {
    Boolean,
    Number,
    String,
    Json,
    Null,
}

/// The column type a name stands for; an unknown name stands for null.
pub open spec fn column_type_named(s: Seq<char>) -> ColumnType {
    if s == "boolean"@ {
        ColumnType::Boolean
    } else if s == "number"@ {
        ColumnType::Number
    } else if s == "string"@ {
        ColumnType::String
    } else if s == "json"@ {
        ColumnType::Json
    } else {
        ColumnType::Null
    }
}

impl ColumnType {
    /// The column type a name stands for.
    pub fn from_str(s: &str) -> (t: ColumnType)
        ensures
            t == column_type_named(s@),
    {
        if str_eq(s, "boolean") {
            ColumnType::Boolean
        } else if str_eq(s, "number") {
            ColumnType::Number
        } else if str_eq(s, "string") {
            ColumnType::String
        } else if str_eq(s, "json") {
            ColumnType::Json
        } else {
            ColumnType::Null
        }
    }
}

/// The type given to a column: that of the first entry naming it, string
/// when none does.
pub open spec fn type_for(column_types: Seq<(String, ColumnType)>, column: Seq<char>) -> ColumnType
    decreases column_types.len(),
{
    if column_types.len() == 0 {
        ColumnType::String
    } else if column_types[0].0@ == column {
        column_types[0].1
    } else {
        type_for(column_types.drop_first(), column)
    }
}

fn find_type(column_types: &[(String, ColumnType)], column: &str) -> (t: ColumnType)
    ensures
        t == type_for(column_types@, column@),
{
    let mut i: usize = 0;
    assert(column_types@.skip(0) =~= column_types@);
    while i < column_types.len()
        invariant
            i <= column_types@.len(),
            type_for(column_types@, column@) == type_for(column_types@.skip(i as int), column@),
        decreases column_types@.len() - i,
    {
        assert(column_types@.skip(i as int).drop_first() =~= column_types@.skip(i + 1));
        if str_eq(column_types[i].0.as_str(), column) {
            return column_types[i].1;
        }
        i = i + 1;
    }
    ColumnType::String
}

/// The types of the columns, in column order.
pub fn resolve_column_types(columns: &[String], column_types: &[(String, ColumnType)]) -> (r: Vec<ColumnType>)
    ensures
        r@.len() == columns@.len(),
        forall|i: int| 0 <= i < columns@.len() ==> r@[i] == type_for(column_types@, (#[trigger] columns@[i])@),
{
    let mut r: Vec<ColumnType> = Vec::new();
    let mut i: usize = 0;
    while i < columns.len()
        invariant
            i <= columns@.len(),
            r@.len() == i,
            forall|j: int| 0 <= j < i ==> r@[j] == type_for(column_types@, (#[trigger] columns@[j])@),
        decreases columns@.len() - i,
    {
        r.push(find_type(column_types, columns[i].as_str()));
        i = i + 1;
    }
    r
}

} // verus!
