//! Recall over binary signatures: embedding by trigrams, a flat index of two
//! phases, segments, layers of memory, and the fusion of signals.

pub mod config;
pub mod embedder;
pub mod embedding_laws;
pub mod fusion;
pub mod fusion_laws;
pub mod index;
pub mod index_laws;
pub mod laws;
pub mod memory_laws;
pub mod progressive;
pub mod rerank;
pub mod score_laws;
pub mod segment;
