//! A small single-table record store: an in-memory row collection kept
//! consistent with an append-only journal, an id-to-position index, and a
//! snapshot mechanism that bounds journal replay cost.
//!
//! The engine itself never touches the file system: mutating operations hand
//! back the journal lines (and snapshot text) that a thin I/O shell must
//! persist, and startup takes the persisted text back in. Everything the
//! engine decides - uniqueness, index consistency, replay, the journal line
//! format - is specified and verified here.

pub mod engine;
pub mod errors;
pub mod index;
pub mod model;
pub mod parser;
pub mod storage;
pub mod text;
