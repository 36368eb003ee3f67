//! A small full-text search index over XML documents: tokenizing with
//! English stemming, term and document frequencies, incremental updates of
//! the index, and the statistics that TF-IDF ranking is computed from.
use vstd::prelude::*;

pub mod calculate;
pub mod file_process;
pub mod laws;
pub mod lexer;
pub mod model;
pub mod reindex;
pub mod str_map;

pub use model::{Bulk, Doc, DocSpec, Index, Model, ModelSpec, Modified, Timestamp, Update, DF, TF};
pub use str_map::StrMap;

verus! {

} // verus!
