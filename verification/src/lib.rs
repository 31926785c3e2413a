//! Incremental view maintenance support for a SQLite replica: JSON rows,
//! overlays over source fetches, SQL generation, diff decoding, query
//! translation and the binary encoding of row changes.
use vstd::prelude::*;

pub mod json;
pub mod text;
pub mod source;
pub mod overlay;
pub mod diff;
pub mod advance;
pub mod encode;
pub mod chunk_encoder;
pub mod operators;
pub mod ast_to_config;
pub mod condition_text;
pub mod routing;
pub mod companions;
pub mod table_source;
pub mod cascade;
pub mod query_builder;
pub mod sqlite;
pub mod types;
pub mod allbuf;
pub mod change_json;
pub mod pool;
pub mod hydrate;

verus! {

} // verus!
