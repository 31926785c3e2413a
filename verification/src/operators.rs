//! The operator configurations a query pipeline is built from.
use vstd::prelude::*;

use crate::json::JsonValue;

verus! {

/// One operator of a pipeline, with the configuration of any sub-pipelines
/// it holds.
pub enum OperatorConfig {
    /// Reads a table: its columns, primary key and sort.
    Source {
        table_name: String,
        columns: Vec<String>,
        primary_key: Vec<String>,
        sort: Vec<(String, String)>,
    },
    /// Keeps the rows that satisfy a predicate.
    Filter { predicate: JsonValue },
    /// Starts after (or at) a bound row in sort order.
    Skip { bound_row: JsonValue, exclusive: bool, sort: Vec<(String, String)> },
    /// Keeps the first `limit` rows in sort order, per partition.
    Take { limit: usize, sort: Vec<(String, String)>, partition_key: Option<Vec<String>> },
    /// Keeps at most `limit` rows, per partition, in no particular order.
    Cap { limit: usize, primary_key: Vec<String>, partition_key: Option<Vec<String>> },
    /// Attaches the child rows that match each row's key.
    Join {
        parent_key: Vec<String>,
        child_key: Vec<String>,
        relationship_name: String,
        child: Vec<OperatorConfig>,
    },
    /// Keeps the rows that have (or, negated, do not have) a matching child.
    Exists {
        relationship_name: String,
        not_exists: bool,
        parent_key: Vec<String>,
        child_key: Vec<String>,
        child: Vec<OperatorConfig>,
        or_condition: Option<JsonValue>,
    },
    /// Keeps the rows for which any branch matches (or the condition holds).
    OrExists { branches: Vec<ExistsBranch>, or_condition: Option<JsonValue> },
    /// Runs self-contained sub-pipelines and merges their rows.
    FanOut { sub_pipelines: Vec<Vec<OperatorConfig>> },
}

/// One exists check of an `OrExists`.
pub struct ExistsBranch {
    pub relationship_name: String,
    pub not_exists: bool,
    pub parent_key: Vec<String>,
    pub child_key: Vec<String>,
    pub child: Vec<OperatorConfig>,
}


/// What the head of a pipeline's configuration gives before any operator is
/// built: an empty list is refused, as is one that does not start with a
/// source; else the number of operators after the source (none means the
/// pipeline pushes straight from its source).
pub open spec fn chain_head(configs: Seq<OperatorConfig>) -> Result<nat, Seq<char>> {
    if configs.len() == 0 {
        Err("empty operator config"@)
    } else if !(configs[0] is Source) {
        Err("first config must be a Source"@)
    } else {
        Ok((configs.len() - 1) as nat)
    }
}

/// Checks the head of a pipeline's configuration (`chain_head`).
pub fn operator_chain_head(configs: &[OperatorConfig]) -> (r: Result<usize, String>)
    ensures
        match chain_head(configs@) {
            Ok(n) => r == Ok::<usize, String>(n as usize),
            Err(m) => r matches Err(e) && e@ == m,
        },
{
    if configs.len() == 0 {
        return Err(String::from_str("empty operator config"));
    }
    match &configs[0] {
        OperatorConfig::Source { .. } => Ok(configs.len() - 1),
        _ => Err(String::from_str("first config must be a Source")),
    }
}

} // verus!
