//! A miniature glob-like pattern matcher.
//!
//! A pattern is compiled into tokens (literal text, `.` for any one character,
//! `(a|b|c)` for one of several strings) and then applied to candidate strings,
//! token by token, reporting how far each candidate matches.
//!
//! - [`grammar`] states what a pattern denotes, over sequences of characters.
//! - [`matching`] states what the tokens match of a candidate.
//! - [`matcher`] holds [`Matcher`], which compiles a pattern and applies it.
//! - [`token`] holds [`MatcherToken`] and its model.
//! - [`text`] and [`encoding`] split string slices without copying them.

pub mod encoding;
pub mod text;
pub mod token;
pub mod grammar;
pub mod matching;
pub mod matcher;

pub use crate::matcher::Matcher;
pub use crate::token::MatcherToken;
