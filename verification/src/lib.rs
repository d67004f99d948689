//! A small regular-expression engine.
//!
//! A pattern built from literal characters, `.` (any single character),
//! grouping parentheses, alternation `|`, and the postfix repetition
//! operators `*`, `+` and `?` is compiled into a flat, index-addressed
//! instruction program (a nondeterministic finite automaton).  A compiled
//! [`Regex`] answers match queries by running a cycle-safe worklist search
//! over that program.

pub mod parse;
pub mod program;
pub mod regex;
pub mod search;
pub mod semantics;
pub mod syntax;
pub mod token;

pub use regex::Regex;
pub use syntax::ParseError;
