//! A small full-text search library: a tokenizer, per-document
//! term-frequency tables, a corpus index with a persisted text format,
//! and a TF-IDF ranking engine over exact rational scores.
pub mod chars;
pub mod extract;
pub mod index;
pub mod lexer;
pub mod rank;
pub mod stem;
pub mod store;
pub mod table;
