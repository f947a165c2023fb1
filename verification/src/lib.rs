//! lore: a memory knowledge graph for coding-agent sessions and repositories.

use vstd::prelude::*;

pub mod anchor;
pub mod api;
pub mod ask;
pub mod attrs;
pub mod bm25;
pub mod board;
pub mod coderepo;
pub mod decimal;
pub mod decision;
pub mod digest;
pub mod embed;
pub mod git;
pub mod graph;
pub mod hnsw;
pub mod index;
pub mod ingest;
pub mod json;
pub mod llm;
pub mod manifest;
pub mod mcp;
pub mod model;
pub mod netgraph;
pub mod paths;
pub mod patterns;
pub mod rank;
pub mod records;
pub mod recovery;
pub mod redact;
pub mod secrets;
pub mod sorted;
pub mod store;
pub mod text;
pub mod ui;
pub mod wal;

verus! {

/// Crate version.
pub fn version() -> (r: &'static str)
    ensures
        r@ == "0.1.0"@,
{
    "0.1.0"
}

} // verus!
