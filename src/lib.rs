//! Extractive text summarization in the TextRank style: documents are split into
//! normalized sentences, compared pairwise by the cosine of their term-frequency
//! vectors, and the best-ranked sentences are selected.

pub mod config;
pub mod similarity;
pub mod select;
pub mod text;
pub mod summary;
