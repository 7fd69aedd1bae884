//! The document engine: documents by identifier, their search and its
//! statistics.

pub mod backend;
pub mod backend_laws;
pub mod documents;
pub mod error;
pub mod handle;
pub mod laws;
pub mod lexical;
pub mod matching;
pub mod memory;
pub mod nesting;
pub mod notes;
pub mod search_laws;
pub mod tokens;
pub mod vectors;
