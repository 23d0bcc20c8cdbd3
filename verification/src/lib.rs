//! Incremental n-gram full-text search over a catalog of feature records.
//!
//! The corpus of features is compiled once into monogram, bigram and trigram
//! inverted indexes; queries are split into lowercase terms, narrowed to
//! candidate features through the indexes, then matched exactly, scored and
//! annotated with highlight spans.  A session object reuses the previous
//! result set when the new query merely refines the old one.

pub mod text;
pub mod corpus;
pub mod index;
pub mod terms;
pub mod retrieve;
pub mod spans;
pub mod score;
pub mod matcher;
pub mod session;
pub mod laws;
