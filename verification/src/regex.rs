//! The compile-once, match-many facade over tokenizer, parser, compiler and
//! matcher.

use vstd::prelude::*;

use crate::semantics::lemma_accepts_at_iff_lang;
use crate::semantics::lemma_accepts_empty_iff_nullable;
use crate::semantics::lemma_accepts_iff_lang_prefix;
use crate::parse::parse_pattern;
use crate::parse::spec_parse;
use crate::program::Inst;
use crate::program::SpecInst;
use crate::program::compile;
use crate::program::prog_view;
use crate::program::program_of;
use crate::program::wf_prog;
use crate::search::accepts;
use crate::search::accepts_at;
use crate::search::lemma_accepts_at_accepts;
use crate::search::search_prog;
use crate::syntax::Ast;
use crate::syntax::ParseError;
use crate::syntax::lang_matches;
use crate::syntax::matches_empty;
use crate::token::tokenize;
use crate::token::tokens_of;

verus! {

/// What compiling a pattern yields: the program of its syntax tree, or the
/// error the parse reports.  Compilation has no other outcome.
pub open spec fn spec_compile(pattern: Seq<char>) -> Result<Seq<SpecInst>, ParseError> {
    match spec_parse(tokens_of(pattern)) {
        Ok(re) => Ok(program_of(re)),
        Err(e) => Err(e),
    }
}

/// A compiled pattern.  The program inside is immutable: a `Regex` may
/// answer any number of queries, and never changes after construction.
pub struct Regex {
    prog: Vec<Inst>,
}

impl Regex {
    /// The compiled program this value holds.
    pub closed spec fn program(&self) -> Seq<SpecInst> {
        prog_view(self.prog@)
    }

    #[verifier::type_invariant]
    spec fn type_wf(&self) -> bool {
        wf_prog(prog_view(self.prog@))
    }

    /// Whether this value is what compiling `pattern` yields.
    pub open spec fn compiled_from(&self, pattern: Seq<char>) -> bool {
        spec_compile(pattern) == Ok::<Seq<SpecInst>, ParseError>(self.program())
    }

    /// Compiles `pattern`.  Succeeds exactly when the pattern parses, and
    /// then holds that pattern's program; otherwise reports the parse's
    /// error, `UnbalancedGroup` or `InvalidOperatorPlacement`.
    pub fn new(pattern: &str) -> (r: Result<Regex, ParseError>)
        ensures
            r matches Ok(re) ==> re.compiled_from(pattern@),
            r is Ok <==> spec_compile(pattern@) is Ok,
            r matches Err(e) ==> spec_compile(pattern@) == Err::<Seq<SpecInst>, ParseError>(e),
    {
        let toks = tokenize(pattern);
        match parse_pattern(&toks) {
            Ok(re) => {
                let prog = compile(&re);
                Ok(Regex { prog })
            },
            Err(e) => Err(e),
        }
    }

    /// Whether the pattern matches a prefix of `text`: true exactly when
    /// some execution of the program reaches `Accept`, consuming only
    /// characters present in `text`.
    pub fn is_match(&self, text: &str) -> (r: bool)
        ensures
            r == accepts(self.program(), text@),
    {
        proof {
            use_type_invariant(&*self);
        }
        let found = search_prog(&self.prog, text);
        match found {
            Some(off) => {
                proof {
                    lemma_accepts_at_accepts(self.program(), text@, off as int);
                }
                true
            },
            None => false,
        }
    }

    /// The text offset at which `Accept` was first reached along the
    /// search's exploration order, or `None` when the pattern matches no
    /// prefix of `text`.  Which accepting offset comes first is a property
    /// of the exploration order, deliberately not pinned further: the
    /// contract promises an accepting offset, not the least or greatest.
    pub fn find(&self, text: &str) -> (r: Option<usize>)
        ensures
            r matches Some(off) ==> off <= text@.len() && accepts_at(
                self.program(),
                text@,
                off as int,
            ),
            r is Some <==> accepts(self.program(), text@),
    {
        proof {
            use_type_invariant(&*self);
        }
        let found = search_prog(&self.prog, text);
        proof {
            if let Some(off) = found {
                lemma_accepts_at_accepts(self.program(), text@, off as int);
            }
        }
        found
    }
}

/// A compiled pattern matches the empty text exactly when its syntax tree
/// can derive the empty string, read off the tree by [`matches_empty`]:
/// the empty pattern, repetitions that allow zero occurrences,
/// concatenations of such parts, and alternations with such a branch.
pub proof fn lemma_empty_text_match(r: &Regex, pattern: Seq<char>, re: Ast)
    requires
        r.compiled_from(pattern),
        spec_parse(tokens_of(pattern)) == Ok::<Ast, ParseError>(re),
    ensures
        accepts(r.program(), Seq::<char>::empty()) <==> matches_empty(re),
{
    lemma_accepts_empty_iff_nullable(re);
}

/// Full correctness of matching against the pattern's language, as
/// [`lang_matches`] reads the syntax tree: the compiled pattern matches
/// `text` exactly when some prefix of `text` belongs to the language, and
/// accepts at offset `off` exactly when the first `off` characters do.
/// `is_match` returns exactly [`accepts`], and every offset `find` can
/// return satisfies [`accepts_at`], so both queries are pinned down by the
/// pattern's syntax alone.
pub proof fn lemma_match_characterized(r: &Regex, pattern: Seq<char>, re: Ast, text: Seq<char>)
    requires
        r.compiled_from(pattern),
        spec_parse(tokens_of(pattern)) == Ok::<Ast, ParseError>(re),
    ensures
        accepts(r.program(), text) <==> (exists|k: int|
            0 <= k <= text.len() && lang_matches(re, #[trigger] text.subrange(0, k))),
        forall|off: int|
            0 <= off <= text.len() ==> (accepts_at(r.program(), text, off) <==> lang_matches(
                re,
                #[trigger] text.subrange(0, off),
            )),
{
    lemma_accepts_iff_lang_prefix(re, text);
    assert forall|off: int|
        0 <= off <= text.len() implies (accepts_at(r.program(), text, off) <==> lang_matches(
        re,
        text.subrange(0, off),
    )) by {
        lemma_accepts_at_iff_lang(re, text, off);
    }
}

/// Compilation is deterministic: two values compiled from the same pattern
/// hold the same program, so every query — `is_match` and the presence of a
/// `find` result — answers the same on every text.
pub proof fn lemma_compile_deterministic(r1: &Regex, r2: &Regex, pattern: Seq<char>)
    requires
        r1.compiled_from(pattern),
        r2.compiled_from(pattern),
    ensures
        r1.program() == r2.program(),
        forall|text: Seq<char>| accepts(r1.program(), text) == accepts(r2.program(), text),
        forall|text: Seq<char>, off: int|
            accepts_at(r1.program(), text, off) == accepts_at(r2.program(), text, off),
{
}

} // verus!
