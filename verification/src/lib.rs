//! Canonical reformatter for RON (Rusty Object Notation) documents.
//!
//! The crate parses a document into an immutable tree whose nodes carry a
//! precomputed minimum single-line width, then renders it back out under a
//! width budget: every composite node is emitted on one line when it fits
//! and expanded one child per line when it does not, while attached
//! comments survive the round trip.

//! `ast` holds the document tree and its mathematical model, `lexer` and
//! `parser` turn bytes into that tree, `display` renders it canonically,
//! `laws` states and proves the formatter's governing properties, and
//! `config` carries the formatting options.

pub mod ast;
pub mod config;
pub mod display;
pub mod laws;
pub mod lexer;
pub mod parser;
