//! Paragraph recall over notes: what is indexed, under which identity, by
//! which generation, and how two search channels are fused.
//!
//! Nothing here loads a model, opens a file or talks to a network.

pub mod admission_laws;
pub mod binding;
pub mod block_laws;
pub mod blocks;
pub mod catalog;
pub mod channel;
pub mod completeness;
pub mod coverage;
pub mod diagnostic;
pub mod error;
pub mod identity;
pub mod laws;
pub mod listing;
pub mod manifest;
pub mod note;
pub mod pieces;
pub mod projection;
pub mod rank;
pub mod ranking;
pub mod ranking_laws;
pub mod redaction;
pub mod request;
pub mod rule_laws;
pub mod store;
pub mod vector_laws;
pub mod vectors;
