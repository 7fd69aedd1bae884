//! Recall over one local catalogue of documents: deliberate search and ambient
//! recall of the text being written.

pub mod answer_laws;
pub mod channels;
pub mod engine;
pub mod files;
pub mod fusion;
pub mod laws;
pub mod options;
pub mod ranking_laws;
pub mod score_laws;
pub mod search_laws;
pub mod similarity;
pub mod snippet;
pub mod trigram_laws;
pub mod trigrams;
