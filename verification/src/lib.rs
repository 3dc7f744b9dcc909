//! A reader for a small Lisp-family language: source text is scanned into
//! tokens and parsed into an immutable tree of tagged values, or a precise
//! parse error is reported.

pub mod mal_env;
pub mod mal_types;
pub mod printer;
pub mod reader;
