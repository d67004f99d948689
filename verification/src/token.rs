//! Tokenization: a pattern string maps to one structural token per character.

use vstd::prelude::*;

verus! {

/// One structural token of the pattern syntax.  Every character of a
/// pattern becomes exactly one token; the seven operator characters map to
/// their own variants and every other character is a literal.
#[derive(Clone, Copy, PartialEq, Eq, Structural, Debug)]
pub enum Token {
    /// A character to be matched verbatim.
    Literal(char),
    /// `.` — matches any single character.
    Dot,
    /// `*` — zero or more repetitions of the preceding atom.
    Star,
    /// `+` — one or more repetitions of the preceding atom.
    Plus,
    /// `?` — zero or one occurrence of the preceding atom.
    Question,
    /// `|` — alternation between two branches.
    Pipe,
    /// `(` — opens a group.
    LParen,
    /// `)` — closes a group.
    RParen,
}

/// The token that a single pattern character denotes.
pub open spec fn token_of(c: char) -> Token {
    if c == '.' {
        Token::Dot
    } else if c == '*' {
        Token::Star
    } else if c == '+' {
        Token::Plus
    } else if c == '?' {
        Token::Question
    } else if c == '|' {
        Token::Pipe
    } else if c == '(' {
        Token::LParen
    } else if c == ')' {
        Token::RParen
    } else {
        Token::Literal(c)
    }
}

/// The token sequence that a whole pattern denotes, character by character.
pub open spec fn tokens_of(s: Seq<char>) -> Seq<Token> {
    Seq::new(s.len(), |i: int| token_of(s[i]))
}

/// Maps a pattern to its tokens: one token per character, in order.
/// This is total; tokenization never fails.
pub(crate) fn tokenize(pattern: &str) -> (r: Vec<Token>)
    ensures
        r@ == tokens_of(pattern@),
{
    let n = pattern.unicode_len();
    let mut out: Vec<Token> = Vec::new();
    let mut i: usize = 0;
    while i < n
        invariant
            n == pattern@.len(),
            i <= n,
            out@ == tokens_of(pattern@.subrange(0, i as int)),
        decreases n - i,
    {
        let c = pattern.get_char(i);
        let t = if c == '.' {
            Token::Dot
        } else if c == '*' {
            Token::Star
        } else if c == '+' {
            Token::Plus
        } else if c == '?' {
            Token::Question
        } else if c == '|' {
            Token::Pipe
        } else if c == '(' {
            Token::LParen
        } else if c == ')' {
            Token::RParen
        } else {
            Token::Literal(c)
        };
        out.push(t);
        i = i + 1;
        proof {
            assert(out@ =~= tokens_of(pattern@.subrange(0, i as int)));
        }
    }
    proof {
        assert(pattern@.subrange(0, n as int) =~= pattern@);
        assert(out@ =~= tokens_of(pattern@));
    }
    out
}

} // verus!
