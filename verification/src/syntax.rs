//! Pattern syntax: the abstract syntax tree and compile-time errors.

use vstd::prelude::*;

verus! {

/// A parsed pattern.  Parentheses survive as `Group` nodes, which changes
/// nothing about the language the pattern denotes; repetition operators wrap
/// the atom or group immediately before them.
pub enum Ast {
    /// The empty pattern: matches only the empty string.
    Empty,
    /// A single literal character.
    Literal(char),
    /// `.`: any single character.
    AnyChar,
    /// Two patterns in sequence.
    Concat(Box<Ast>, Box<Ast>),
    /// A choice between two branches.
    Alternation(Box<Ast>, Box<Ast>),
    /// Zero or more repetitions.
    ZeroOrMore(Box<Ast>),
    /// One or more repetitions.
    OneOrMore(Box<Ast>),
    /// Zero or one occurrence.
    ZeroOrOne(Box<Ast>),
    /// A parenthesized sub-pattern.
    Group(Box<Ast>),
}

/// The reasons a pattern can be rejected at compile time.  Matching itself
/// never fails.
#[derive(Clone, Copy, PartialEq, Eq, Structural, Debug)]
pub enum ParseError {
    /// A `)` with no open group, or a `(` never closed.
    UnbalancedGroup,
    /// A repetition operator with no atom before it to bind to, or an
    /// alternation with an empty branch.
    InvalidOperatorPlacement,
}

/// Whether the language of `re` contains the empty string, read off the
/// syntax tree structurally.
pub open spec fn matches_empty(re: Ast) -> bool
    decreases re,
{
    match re {
        Ast::Empty => true,
        Ast::Literal(_) => false,
        Ast::AnyChar => false,
        Ast::Concat(a, b) => matches_empty(*a) && matches_empty(*b),
        Ast::Alternation(a, b) => matches_empty(*a) || matches_empty(*b),
        Ast::ZeroOrMore(_) => true,
        Ast::OneOrMore(a) => matches_empty(*a),
        Ast::ZeroOrOne(_) => true,
        Ast::Group(a) => matches_empty(*a),
    }
}

/// Whether `s` belongs to the language of `re`: the usual reading of the
/// operators, with concatenation and repetition quantifying over splits of
/// `s`.
pub open spec fn lang_matches(re: Ast, s: Seq<char>) -> bool
    decreases re, s.len(), 0int,
{
    match re {
        Ast::Empty => s.len() == 0,
        Ast::Literal(c) => s.len() == 1 && s[0] == c,
        Ast::AnyChar => s.len() == 1,
        Ast::Concat(a, b) => exists|i: int|
            0 <= i <= s.len() && lang_matches(*a, s.subrange(0, i)) && lang_matches(
                *b,
                s.subrange(i, s.len() as int),
            ),
        Ast::Alternation(a, b) => lang_matches(*a, s) || lang_matches(*b, s),
        Ast::ZeroOrMore(a) => star_matches(*a, s),
        Ast::OneOrMore(a) => exists|i: int|
            0 <= i <= s.len() && lang_matches(*a, s.subrange(0, i)) && star_matches(
                *a,
                s.subrange(i, s.len() as int),
            ),
        Ast::ZeroOrOne(a) => s.len() == 0 || lang_matches(*a, s),
        Ast::Group(a) => lang_matches(*a, s),
    }
}

/// Whether `s` splits into zero or more nonempty pieces that each belong to
/// the language of `re`.  Requiring the pieces to be nonempty loses nothing
/// — an empty piece contributes no characters — and makes the recursion
/// well-founded.
pub open spec fn star_matches(re: Ast, s: Seq<char>) -> bool
    decreases re, s.len(), 1int,
{
    s.len() == 0 || exists|i: int|
        1 <= i <= s.len() && lang_matches(re, s.subrange(0, i)) && star_matches(
            re,
            s.subrange(i, s.len() as int),
        )
}

} // verus!
