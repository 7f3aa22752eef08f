//! A piece-table text buffer with incremental line-break tracking, and the
//! editor model around it: a line-list document, cursor moves and the
//! handling of key events.

pub mod app;
pub mod document;
pub mod piece_table;
mod text;
