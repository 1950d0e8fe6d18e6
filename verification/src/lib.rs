//! A small backtracking pattern matcher.
//!
//! A pattern text is compiled once, by [`compiler::tokenize_pattern`], into
//! two anchor flags and a sequence of tokens; [`matcher::is_match`] then
//! says whether the compiled pattern matches a subject text. Text is
//! addressed by character position throughout.
//!
//! Every executable function carries a contract over the mathematical
//! models in [`token`], [`compiler`] and [`matcher`]; [`laws`] states what
//! holds of compiling and matching together.

pub mod token;
pub mod text;
pub mod compiler;
pub mod matcher;
pub mod laws;
