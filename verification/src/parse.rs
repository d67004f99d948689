//! Recursive-descent parsing of the token sequence into an [`Ast`].
//!
//! Precedence, tightest to loosest: postfix repetition binds to the atom or
//! group immediately before it, concatenation binds tighter than
//! alternation, and parentheses delimit a sub-expression usable as an atom.
//!
//! Each executable function returns exactly the value of its specification
//! twin, so the whole parse is pinned down as a function of the tokens.
//! The twins guard every recursive call with a bound check on the returned
//! position; the guards double as the termination measure's witness and are
//! never reached, since a successful parse always advances.

use vstd::prelude::*;

use crate::syntax::Ast;
use crate::syntax::ParseError;
use crate::token::Token;

verus! {

/// Lifts an executable parse result to the specification twins' type.
pub open spec fn lift_parsed(r: Result<(Ast, usize), ParseError>) -> Result<
    (Ast, int),
    ParseError,
> {
    match r {
        Ok((a, p)) => Ok((a, p as int)),
        Err(e) => Err(e),
    }
}

/// An alternation: concatenations separated by `|`.
pub open spec fn spec_alternation(toks: Seq<Token>, pos: int) -> Result<(Ast, int), ParseError>
    decreases toks.len() - pos, 4int,
{
    match spec_concatenation(toks, pos) {
        Err(e) => Err(e),
        Ok((first, p)) => if pos <= p <= toks.len() {
            if p < toks.len() && toks[p] is Pipe && p == pos {
                Err(ParseError::InvalidOperatorPlacement)
            } else {
                spec_alternation_rest(toks, first, p)
            }
        } else {
            Err(ParseError::InvalidOperatorPlacement)
        },
    }
}

/// The remaining `|`-separated branches, folded onto `acc` from the left.
/// A branch that consumes no tokens is an empty branch and is rejected.
pub open spec fn spec_alternation_rest(toks: Seq<Token>, acc: Ast, pos: int) -> Result<
    (Ast, int),
    ParseError,
>
    decreases toks.len() - pos, 3int,
{
    if 0 <= pos < toks.len() && toks[pos] is Pipe {
        match spec_concatenation(toks, pos + 1) {
            Err(e) => Err(e),
            Ok((b, p2)) => if p2 == pos + 1 {
                Err(ParseError::InvalidOperatorPlacement)
            } else if pos + 1 <= p2 <= toks.len() {
                spec_alternation_rest(toks, Ast::Alternation(Box::new(acc), Box::new(b)), p2)
            } else {
                Err(ParseError::InvalidOperatorPlacement)
            },
        }
    } else {
        Ok((acc, pos))
    }
}

/// A concatenation: repeated atoms up to a `|`, a `)`, or the end.
/// Zero atoms yield `Ast::Empty`.
pub open spec fn spec_concatenation(toks: Seq<Token>, pos: int) -> Result<(Ast, int), ParseError>
    decreases toks.len() - pos, 2int,
{
    if !(0 <= pos < toks.len()) || toks[pos] is Pipe || toks[pos] is RParen {
        Ok((Ast::Empty, pos))
    } else {
        match spec_repeated_atom(toks, pos) {
            Err(e) => Err(e),
            Ok((a, p)) => if pos < p <= toks.len() {
                match spec_concatenation(toks, p) {
                    Err(e) => Err(e),
                    Ok((rest, p2)) => Ok((Ast::Concat(Box::new(a), Box::new(rest)), p2)),
                }
            } else {
                Err(ParseError::InvalidOperatorPlacement)
            },
        }
    }
}

/// An atom together with any postfix repetition operators after it.
pub open spec fn spec_repeated_atom(toks: Seq<Token>, pos: int) -> Result<(Ast, int), ParseError>
    decreases toks.len() - pos, 1int,
{
    match spec_atom(toks, pos) {
        Err(e) => Err(e),
        Ok((a, p)) => if pos <= p <= toks.len() {
            spec_postfix(toks, a, p)
        } else {
            Err(ParseError::InvalidOperatorPlacement)
        },
    }
}

/// Wraps `a` in one repetition node per postfix operator found at `pos`.
pub open spec fn spec_postfix(toks: Seq<Token>, a: Ast, pos: int) -> Result<(Ast, int), ParseError>
    decreases toks.len() - pos, 0int,
{
    if 0 <= pos < toks.len() && toks[pos] is Star {
        spec_postfix(toks, Ast::ZeroOrMore(Box::new(a)), pos + 1)
    } else if 0 <= pos < toks.len() && toks[pos] is Plus {
        spec_postfix(toks, Ast::OneOrMore(Box::new(a)), pos + 1)
    } else if 0 <= pos < toks.len() && toks[pos] is Question {
        spec_postfix(toks, Ast::ZeroOrOne(Box::new(a)), pos + 1)
    } else {
        Ok((a, pos))
    }
}

/// A single atom: a literal, `.`, or a parenthesized sub-pattern.  A
/// repetition operator or an alternation bar here has no atom to bind to; a
/// stray `)` here is unbalanced.
pub open spec fn spec_atom(toks: Seq<Token>, pos: int) -> Result<(Ast, int), ParseError>
    decreases toks.len() - pos, 0int,
{
    if !(0 <= pos < toks.len()) {
        Err(ParseError::InvalidOperatorPlacement)
    } else {
        match toks[pos] {
            Token::Literal(c) => Ok((Ast::Literal(c), pos + 1)),
            Token::Dot => Ok((Ast::AnyChar, pos + 1)),
            Token::Star => Err(ParseError::InvalidOperatorPlacement),
            Token::Plus => Err(ParseError::InvalidOperatorPlacement),
            Token::Question => Err(ParseError::InvalidOperatorPlacement),
            Token::Pipe => Err(ParseError::InvalidOperatorPlacement),
            Token::RParen => Err(ParseError::UnbalancedGroup),
            Token::LParen => match spec_alternation(toks, pos + 1) {
                Err(e) => Err(e),
                Ok((inner, p)) => if 0 <= p < toks.len() && toks[p] is RParen {
                    Ok((Ast::Group(Box::new(inner)), p + 1))
                } else {
                    Err(ParseError::UnbalancedGroup)
                },
            },
        }
    }
}

/// The whole pattern: an alternation that must consume every token.  A
/// leftover token can only be a `)` with no matching open group.
pub open spec fn spec_parse(toks: Seq<Token>) -> Result<Ast, ParseError> {
    match spec_alternation(toks, 0) {
        Err(e) => Err(e),
        Ok((a, p)) => if p == toks.len() {
            Ok(a)
        } else {
            Err(ParseError::UnbalancedGroup)
        },
    }
}

fn alternation(toks: &Vec<Token>, pos: usize) -> (r: Result<(Ast, usize), ParseError>)
    ensures
        lift_parsed(r) == spec_alternation(toks@, pos as int),
    decreases toks@.len() - pos, 4int,
{
    let n = toks.len();
    match concatenation(toks, pos) {
        Err(e) => Err(e),
        Ok((first, p)) => if pos <= p && p <= n {
            if p < n && matches!(toks[p], Token::Pipe) && p == pos {
                Err(ParseError::InvalidOperatorPlacement)
            } else {
                alternation_rest(toks, first, p)
            }
        } else {
            Err(ParseError::InvalidOperatorPlacement)
        },
    }
}

fn alternation_rest(toks: &Vec<Token>, acc: Ast, pos: usize) -> (r: Result<
    (Ast, usize),
    ParseError,
>)
    ensures
        lift_parsed(r) == spec_alternation_rest(toks@, acc, pos as int),
    decreases toks@.len() - pos, 3int,
{
    let n = toks.len();
    if pos < n && matches!(toks[pos], Token::Pipe) {
        match concatenation(toks, pos + 1) {
            Err(e) => Err(e),
            Ok((b, p2)) => if p2 == pos + 1 {
                Err(ParseError::InvalidOperatorPlacement)
            } else if pos + 1 <= p2 && p2 <= n {
                alternation_rest(toks, Ast::Alternation(Box::new(acc), Box::new(b)), p2)
            } else {
                Err(ParseError::InvalidOperatorPlacement)
            },
        }
    } else {
        Ok((acc, pos))
    }
}

fn concatenation(toks: &Vec<Token>, pos: usize) -> (r: Result<(Ast, usize), ParseError>)
    ensures
        lift_parsed(r) == spec_concatenation(toks@, pos as int),
    decreases toks@.len() - pos, 2int,
{
    let n = toks.len();
    if pos >= n || matches!(toks[pos], Token::Pipe) || matches!(toks[pos], Token::RParen) {
        Ok((Ast::Empty, pos))
    } else {
        match repeated_atom(toks, pos) {
            Err(e) => Err(e),
            Ok((a, p)) => if pos < p && p <= n {
                match concatenation(toks, p) {
                    Err(e) => Err(e),
                    Ok((rest, p2)) => Ok((Ast::Concat(Box::new(a), Box::new(rest)), p2)),
                }
            } else {
                Err(ParseError::InvalidOperatorPlacement)
            },
        }
    }
}

fn repeated_atom(toks: &Vec<Token>, pos: usize) -> (r: Result<(Ast, usize), ParseError>)
    ensures
        lift_parsed(r) == spec_repeated_atom(toks@, pos as int),
    decreases toks@.len() - pos, 1int,
{
    let n = toks.len();
    match atom(toks, pos) {
        Err(e) => Err(e),
        Ok((a, p)) => if pos <= p && p <= n {
            postfix(toks, a, p)
        } else {
            Err(ParseError::InvalidOperatorPlacement)
        },
    }
}

fn postfix(toks: &Vec<Token>, a: Ast, pos: usize) -> (r: Result<(Ast, usize), ParseError>)
    ensures
        lift_parsed(r) == spec_postfix(toks@, a, pos as int),
    decreases toks@.len() - pos, 0int,
{
    let n = toks.len();
    if pos < n && matches!(toks[pos], Token::Star) {
        postfix(toks, Ast::ZeroOrMore(Box::new(a)), pos + 1)
    } else if pos < n && matches!(toks[pos], Token::Plus) {
        postfix(toks, Ast::OneOrMore(Box::new(a)), pos + 1)
    } else if pos < n && matches!(toks[pos], Token::Question) {
        postfix(toks, Ast::ZeroOrOne(Box::new(a)), pos + 1)
    } else {
        Ok((a, pos))
    }
}

fn atom(toks: &Vec<Token>, pos: usize) -> (r: Result<(Ast, usize), ParseError>)
    ensures
        lift_parsed(r) == spec_atom(toks@, pos as int),
    decreases toks@.len() - pos, 0int,
{
    let n = toks.len();
    if pos >= n {
        Err(ParseError::InvalidOperatorPlacement)
    } else {
        match toks[pos] {
            Token::Literal(c) => Ok((Ast::Literal(c), pos + 1)),
            Token::Dot => Ok((Ast::AnyChar, pos + 1)),
            Token::Star => Err(ParseError::InvalidOperatorPlacement),
            Token::Plus => Err(ParseError::InvalidOperatorPlacement),
            Token::Question => Err(ParseError::InvalidOperatorPlacement),
            Token::Pipe => Err(ParseError::InvalidOperatorPlacement),
            Token::RParen => Err(ParseError::UnbalancedGroup),
            Token::LParen => match alternation(toks, pos + 1) {
                Err(e) => Err(e),
                Ok((inner, p)) => if p < n && matches!(toks[p], Token::RParen) {
                    Ok((Ast::Group(Box::new(inner)), p + 1))
                } else {
                    Err(ParseError::UnbalancedGroup)
                },
            },
        }
    }
}

/// Parses a whole token sequence, yielding the pattern's syntax tree or the
/// first error, exactly as [`spec_parse`] describes.
pub(crate) fn parse_pattern(toks: &Vec<Token>) -> (r: Result<Ast, ParseError>)
    ensures
        r == spec_parse(toks@),
{
    match alternation(toks, 0) {
        Err(e) => Err(e),
        Ok((a, p)) => if p == toks.len() {
            Ok(a)
        } else {
            Err(ParseError::UnbalancedGroup)
        },
    }
}

} // verus!
