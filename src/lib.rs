//! Cursor-aware scanning of shell command lines: given an edit buffer and a
//! caret offset, find the command invocation under the caret, its words, and
//! where the caret falls among them.
//!
//! Two small helpers for the programs around the scanner sit beside it: the
//! `~` prefixes of a path (`tilde`), and the choice and joining of completion
//! candidates (`completion`).

pub mod completion;
pub mod laws;
pub mod lexer;
pub mod model;
pub mod scanner;
pub mod tilde;

pub use model::Match;
pub use scanner::{parse_bytes, parse_dq_string, parse_line, Terminator};
