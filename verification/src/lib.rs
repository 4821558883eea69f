//! SQL `LIKE` matching over byte strings.
//!
//! A pattern is a byte string in which `%` stands for any run of bytes, `_`
//! for any single byte, and a configurable escape byte makes the byte after
//! it literal. The crate offers two matchers, a linear one and a
//! backtracking one, and states in their contracts which tokens each one
//! reads out of a pattern and that the result is whether those tokens accept
//! the target. It also writes a pattern as a regular expression, so that a
//! regex engine can be asked the same question.

pub mod backtrack;
pub mod compile;
pub mod laws;
pub mod linear;
pub mod pattern;

pub use backtrack::like;
pub use compile::{like_regex_source, like_to_regex, CompileError, LikeRegex};
pub use linear::like_optimize;
pub use pattern::{Token, ANY_BYTE, ANY_RUN, MAX_RECURSE_LEVEL};
