//! The compiled automaton: a flat, index-addressed instruction list.
//!
//! Compilation is bottom-up over the syntax tree.  Every construct's
//! instructions occupy one contiguous block and fall through to the index
//! just past the block ("the exit"); a jump is a `Split` with both branches
//! equal.  The whole program is the root's block followed by one `Accept`.

use vstd::prelude::*;

use crate::syntax::Ast;

verus! {

/// One executable instruction.  `next`, `a` and `b` are indices into the
/// same program.
#[derive(Clone, Copy, Debug)]
pub enum Inst {
    /// A successful match ends here, at the current text offset.
    Accept,
    /// Consume one character equal to `c`, then go to `next`.
    MatchChar { c: char, next: usize },
    /// Consume any one character, then go to `next`.
    MatchAny { next: usize },
    /// Explore both `a` and `b` without consuming input.
    Split { a: usize, b: usize },
}

/// The mathematical form of an instruction, with unbounded indices.
pub enum SpecInst {
    Accept,
    MatchChar { c: char, next: int },
    MatchAny { next: int },
    Split { a: int, b: int },
}

/// An executable instruction, read as its mathematical form.
pub open spec fn inst_view(i: Inst) -> SpecInst {
    match i {
        Inst::Accept => SpecInst::Accept,
        Inst::MatchChar { c, next } => SpecInst::MatchChar { c, next: next as int },
        Inst::MatchAny { next } => SpecInst::MatchAny { next: next as int },
        Inst::Split { a, b } => SpecInst::Split { a: a as int, b: b as int },
    }
}

/// An executable program, read instruction by instruction.
pub open spec fn prog_view(s: Seq<Inst>) -> Seq<SpecInst> {
    Seq::new(s.len(), |i: int| inst_view(s[i]))
}

/// How many instructions the block compiled from `re` holds.
pub open spec fn block_len(re: Ast) -> nat
    decreases re,
{
    match re {
        Ast::Empty => 0,
        Ast::Literal(_) => 1,
        Ast::AnyChar => 1,
        Ast::Concat(x, y) => block_len(*x) + block_len(*y),
        Ast::Alternation(x, y) => block_len(*x) + block_len(*y) + 2,
        Ast::ZeroOrMore(x) => block_len(*x) + 2,
        Ast::OneOrMore(x) => block_len(*x) + 1,
        Ast::ZeroOrOne(x) => block_len(*x) + 1,
        Ast::Group(x) => block_len(*x),
    }
}

/// The instruction block compiled from `re`, placed at index `base`.  Its
/// exit — where control continues after the block matches — is the index
/// `base + block_len(re)` just past it.
pub open spec fn emit(re: Ast, base: int) -> Seq<SpecInst>
    decreases re,
{
    match re {
        Ast::Empty => Seq::empty(),
        Ast::Literal(c) => seq![SpecInst::MatchChar { c, next: base + 1 }],
        Ast::AnyChar => seq![SpecInst::MatchAny { next: base + 1 }],
        Ast::Concat(x, y) => emit(*x, base) + emit(*y, base + block_len(*x)),
        Ast::Alternation(x, y) => {
            let bx = base + 1;
            let jmp = bx + block_len(*x);
            let by = jmp + 1;
            let exit = by + block_len(*y);
            seq![SpecInst::Split { a: bx, b: by }] + emit(*x, bx) + seq![
                SpecInst::Split { a: exit, b: exit },
            ] + emit(*y, by)
        },
        Ast::ZeroOrMore(x) => {
            let bx = base + 1;
            let exit = bx + block_len(*x) + 1;
            seq![SpecInst::Split { a: bx, b: exit }] + emit(*x, bx) + seq![
                SpecInst::Split { a: base, b: base },
            ]
        },
        Ast::OneOrMore(x) => {
            let exit = base + block_len(*x) + 1;
            emit(*x, base) + seq![SpecInst::Split { a: base, b: exit }]
        },
        Ast::ZeroOrOne(x) => {
            let bx = base + 1;
            let exit = bx + block_len(*x);
            seq![SpecInst::Split { a: bx, b: exit }] + emit(*x, bx)
        },
        Ast::Group(x) => emit(*x, base),
    }
}

/// The indices an instruction can transfer control to.
pub open spec fn inst_targets_in(i: SpecInst, lo: int, hi: int) -> bool {
    match i {
        SpecInst::Accept => true,
        SpecInst::MatchChar { c, next } => lo <= next <= hi,
        SpecInst::MatchAny { next } => lo <= next <= hi,
        SpecInst::Split { a, b } => lo <= a <= hi && lo <= b <= hi,
    }
}

/// Every emitted block is correctly sized and self-contained: each of its
/// instructions targets an index between the block's base and its exit, and
/// none of them is `Accept` — the one `Accept` is appended at the very end.
pub proof fn lemma_emit_block(re: Ast, base: int)
    ensures
        emit(re, base).len() == block_len(re),
        forall|j: int|
            0 <= j < emit(re, base).len() ==> inst_targets_in(
                #[trigger] emit(re, base)[j],
                base,
                base + block_len(re),
            ),
        forall|j: int| 0 <= j < emit(re, base).len() ==> !(#[trigger] emit(re, base)[j] is Accept),
    decreases re,
{
    match re {
        Ast::Empty => {},
        Ast::Literal(_) => {},
        Ast::AnyChar => {},
        Ast::Concat(x, y) => {
            lemma_emit_block(*x, base);
            lemma_emit_block(*y, base + block_len(*x));
        },
        Ast::Alternation(x, y) => {
            lemma_emit_block(*x, base + 1);
            lemma_emit_block(*y, base + 2 + block_len(*x));
        },
        Ast::ZeroOrMore(x) => {
            lemma_emit_block(*x, base + 1);
        },
        Ast::OneOrMore(x) => {
            lemma_emit_block(*x, base);
        },
        Ast::ZeroOrOne(x) => {
            lemma_emit_block(*x, base + 1);
        },
        Ast::Group(x) => {
            lemma_emit_block(*x, base);
        },
    }
}

/// A well-formed program: nonempty, and every index any instruction can
/// transfer control to lies inside the program.
pub open spec fn wf_prog(p: Seq<SpecInst>) -> bool {
    p.len() >= 1 && forall|i: int|
        0 <= i < p.len() ==> inst_targets_in(#[trigger] p[i], 0, p.len() - 1)
}

/// The full program of a pattern: the root block at index 0, then `Accept`.
pub open spec fn program_of(re: Ast) -> Seq<SpecInst> {
    emit(re, 0).push(SpecInst::Accept)
}

/// The program of any pattern is well-formed.
pub proof fn lemma_program_of_wf(re: Ast)
    ensures
        wf_prog(program_of(re)),
        program_of(re).len() == block_len(re) + 1,
{
    lemma_emit_block(re, 0);
}

proof fn lemma_view_push(s: Seq<Inst>, v: Inst)
    ensures
        prog_view(s.push(v)) == prog_view(s).push(inst_view(v)),
{
    assert(prog_view(s.push(v)) =~= prog_view(s).push(inst_view(v)));
}

proof fn lemma_view_update(s: Seq<Inst>, i: int, v: Inst)
    requires
        0 <= i < s.len(),
    ensures
        prog_view(s.update(i, v)) == prog_view(s).update(i, inst_view(v)),
{
    assert(prog_view(s.update(i, v)) =~= prog_view(s).update(i, inst_view(v)));
}

/// Appends the block of `re` to `out`, exactly as [`emit`] describes.
#[verifier::rlimit(50)]
fn compile_onto(out: &mut Vec<Inst>, re: &Ast)
    ensures
        final(out)@.len() == old(out)@.len() + block_len(*re),
        prog_view(final(out)@) == prog_view(old(out)@) + emit(*re, old(out)@.len() as int),
    decreases *re,
{
    let start = out.len();
    let ghost base = start as int;
    match re {
        Ast::Empty => {
            proof {
                assert(prog_view(out@) =~= prog_view(out@) + emit(*re, base));
            }
        },
        Ast::Literal(c) => {
            let idx = out.len();
            out.push(Inst::MatchChar { c: *c, next: 0 });
            let e = out.len();
            out[idx] = Inst::MatchChar { c: *c, next: e };
            proof {
                lemma_view_push(old(out)@, Inst::MatchChar { c: *c, next: 0 });
                lemma_view_update(
                    old(out)@.push(Inst::MatchChar { c: *c, next: 0 }),
                    idx as int,
                    Inst::MatchChar { c: *c, next: e },
                );
                assert(prog_view(out@) =~= prog_view(old(out)@) + emit(*re, base));
            }
        },
        Ast::AnyChar => {
            let idx = out.len();
            out.push(Inst::MatchAny { next: 0 });
            let e = out.len();
            out[idx] = Inst::MatchAny { next: e };
            proof {
                lemma_view_push(old(out)@, Inst::MatchAny { next: 0 });
                lemma_view_update(
                    old(out)@.push(Inst::MatchAny { next: 0 }),
                    idx as int,
                    Inst::MatchAny { next: e },
                );
                assert(prog_view(out@) =~= prog_view(old(out)@) + emit(*re, base));
            }
        },
        Ast::Concat(x, y) => {
            compile_onto(out, x);
            compile_onto(out, y);
            proof {
                lemma_emit_block(**x, base);
                lemma_emit_block(**y, base + block_len(**x));
                assert(prog_view(out@) =~= prog_view(old(out)@) + emit(*re, base));
            }
        },
        Ast::Alternation(x, y) => {
            let idx = out.len();
            out.push(Inst::Split { a: 0, b: 0 });
            compile_onto(out, x);
            let ghost mid1 = out@;
            let jmp = out.len();
            out.push(Inst::Split { a: 0, b: 0 });
            compile_onto(out, y);
            let ghost mid2 = out@;
            let e = out.len();
            out[jmp] = Inst::Split { a: e, b: e };
            out[idx] = Inst::Split { a: idx + 1, b: jmp + 1 };
            proof {
                lemma_emit_block(**x, base + 1);
                lemma_emit_block(**y, base + 2 + block_len(**x));
                lemma_view_push(old(out)@, Inst::Split { a: 0, b: 0 });
                lemma_view_push(mid1, Inst::Split { a: 0, b: 0 });
                lemma_view_update(mid2, jmp as int, Inst::Split { a: e, b: e });
                lemma_view_update(
                    mid2.update(jmp as int, Inst::Split { a: e, b: e }),
                    idx as int,
                    Inst::Split { a: (idx + 1) as usize, b: (jmp + 1) as usize },
                );
                assert(prog_view(out@) =~= prog_view(old(out)@) + emit(*re, base));
            }
        },
        Ast::ZeroOrMore(x) => {
            let idx = out.len();
            out.push(Inst::Split { a: 0, b: 0 });
            compile_onto(out, x);
            let ghost mid = out@;
            out.push(Inst::Split { a: idx, b: idx });
            let e = out.len();
            out[idx] = Inst::Split { a: idx + 1, b: e };
            proof {
                lemma_emit_block(**x, base + 1);
                lemma_view_push(old(out)@, Inst::Split { a: 0, b: 0 });
                lemma_view_push(mid, Inst::Split { a: idx, b: idx });
                lemma_view_update(
                    mid.push(Inst::Split { a: idx, b: idx }),
                    idx as int,
                    Inst::Split { a: (idx + 1) as usize, b: e },
                );
                assert(prog_view(out@) =~= prog_view(old(out)@) + emit(*re, base));
            }
        },
        Ast::OneOrMore(x) => {
            compile_onto(out, x);
            let ghost mid = out@;
            let idx = out.len();
            out.push(Inst::Split { a: 0, b: 0 });
            let e = out.len();
            out[idx] = Inst::Split { a: start, b: e };
            proof {
                lemma_emit_block(**x, base);
                lemma_view_push(mid, Inst::Split { a: 0, b: 0 });
                lemma_view_update(
                    mid.push(Inst::Split { a: 0, b: 0 }),
                    idx as int,
                    Inst::Split { a: start, b: e },
                );
                assert(prog_view(out@) =~= prog_view(old(out)@) + emit(*re, base));
            }
        },
        Ast::ZeroOrOne(x) => {
            let idx = out.len();
            out.push(Inst::Split { a: 0, b: 0 });
            compile_onto(out, x);
            let ghost mid = out@;
            let e = out.len();
            out[idx] = Inst::Split { a: idx + 1, b: e };
            proof {
                lemma_emit_block(**x, base + 1);
                lemma_view_push(old(out)@, Inst::Split { a: 0, b: 0 });
                lemma_view_update(mid, idx as int, Inst::Split { a: (idx + 1) as usize, b: e });
                assert(prog_view(out@) =~= prog_view(old(out)@) + emit(*re, base));
            }
        },
        Ast::Group(x) => {
            compile_onto(out, x);
        },
    }
}

pub(crate) fn compile(re: &Ast) -> (r: Vec<Inst>)
    ensures
        prog_view(r@) == program_of(*re),
        wf_prog(prog_view(r@)),
{
    let mut out: Vec<Inst> = Vec::new();
    compile_onto(&mut out, re);
    out.push(Inst::Accept);
    proof {
        assert(prog_view(out@) =~= program_of(*re));
        lemma_program_of_wf(*re);
    }
    out
}

} // verus!
