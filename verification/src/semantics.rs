//! The compiled program's behaviour against the pattern's syntax.
//!
//! The central result, proved over the block structure of [`emit`] in both
//! directions, characterizes the whole pipeline: the program accepts a
//! text at offset `off` exactly when the first `off` characters belong to
//! the pattern's language as [`lang_matches`] reads it.  Specialized
//! results follow: acceptance of some prefix characterizes acceptance
//! altogether, and acceptance of the empty text is decided by
//! [`matches_empty`] over the syntax tree alone.

use vstd::prelude::*;

use crate::program::SpecInst;
use crate::program::block_len;
use crate::program::emit;
use crate::program::inst_targets_in;
use crate::program::lemma_emit_block;
use crate::program::program_of;
use crate::search::accepts;
use crate::search::at_accept;
use crate::search::is_path;
use crate::search::lemma_accepts_at_accepts;
use crate::search::accepts_at;
use crate::search::step_ok;
use crate::search::valid_state;
use crate::syntax::Ast;
use crate::syntax::lang_matches;
use crate::syntax::matches_empty;
use crate::syntax::star_matches;

verus! {

/// The instructions of `re`'s block sit in `p` at index `base`.
spec fn has_fragment(p: Seq<SpecInst>, re: Ast, base: int) -> bool {
    &&& 0 <= base
    &&& base + block_len(re) <= p.len()
    &&& forall|j: int| 0 <= j < block_len(re) ==> p[base + j] == #[trigger] emit(re, base)[j]
}

/// A run of legal steps, starting anywhere.
spec fn is_seg(p: Seq<SpecInst>, text: Seq<char>, path: Seq<(int, int)>) -> bool {
    &&& path.len() >= 1
    &&& valid_state(p, text, path[0])
    &&& forall|k: int|
        0 <= k < path.len() - 1 ==> step_ok(p, text, #[trigger] path[k], path[k + 1])
}

proof fn lemma_seg_push(p: Seq<SpecInst>, text: Seq<char>, path: Seq<(int, int)>, t: (int, int))
    requires
        is_seg(p, text, path),
        step_ok(p, text, path.last(), t),
    ensures
        is_seg(p, text, path.push(t)),
        path.push(t)[0] == path[0],
        path.push(t).last() == t,
{
    let path2 = path.push(t);
    assert forall|k: int| 0 <= k < path2.len() - 1 implies step_ok(
        p,
        text,
        #[trigger] path2[k],
        path2[k + 1],
    ) by {
        if k < path.len() - 1 {
            assert(path2[k] == path[k]);
            assert(path2[k + 1] == path[k + 1]);
        } else {
            assert(path2[k] == path[path.len() - 1]);
            assert(path2[k + 1] == t);
        }
    }
}

proof fn lemma_seg_concat(
    p: Seq<SpecInst>,
    text: Seq<char>,
    p1: Seq<(int, int)>,
    p2: Seq<(int, int)>,
)
    requires
        is_seg(p, text, p1),
        is_seg(p, text, p2),
        p1.last() == p2[0],
    ensures
        is_seg(p, text, p1 + p2.skip(1)),
        (p1 + p2.skip(1))[0] == p1[0],
        (p1 + p2.skip(1)).last() == p2.last(),
{
    let joined = p1 + p2.skip(1);
    assert(joined.len() == p1.len() + p2.len() - 1);
    assert forall|k: int| 0 <= k < joined.len() - 1 implies step_ok(
        p,
        text,
        #[trigger] joined[k],
        joined[k + 1],
    ) by {
        if k < p1.len() - 1 {
            assert(joined[k] == p1[k]);
            assert(joined[k + 1] == p1[k + 1]);
        } else if k == p1.len() - 1 {
            assert(joined[k] == p1[p1.len() - 1]);
            assert(joined[k + 1] == p2.skip(1)[0]);
            assert(p2.skip(1)[0] == p2[1]);
            assert(step_ok(p, text, p2[0], p2[1]));
        } else {
            let k2 = k - p1.len();
            assert(joined[k] == p2.skip(1)[k2]);
            assert(joined[k + 1] == p2.skip(1)[k2 + 1]);
            assert(p2.skip(1)[k2] == p2[k2 + 1]);
            assert(p2.skip(1)[k2 + 1] == p2[k2 + 2]);
            assert(step_ok(p, text, p2[k2 + 1], p2[k2 + 2]));
        }
    }
    assert(joined.last() == p2.skip(1)[p2.len() - 2] || p2.len() == 1);
    if p2.len() == 1 {
        assert(joined.last() == p1.last());
    } else {
        assert(p2.skip(1)[p2.len() - 2] == p2[p2.len() - 1]);
    }
}


/// A `Concat` fragment holds its children's fragments side by side.
proof fn proof_fragment_concat(p: Seq<SpecInst>, re: Ast, base: int)
    requires
        re is Concat,
        has_fragment(p, re, base),
    ensures
        has_fragment(p, *re->Concat_0, base),
        has_fragment(p, *re->Concat_1, base + block_len(*re->Concat_0)),
{
    let x = re->Concat_0;
    let y = re->Concat_1;
    lemma_emit_block(*x, base);
    lemma_emit_block(*y, base + block_len(*x));
    assert forall|j: int| 0 <= j < block_len(*x) implies p[base + j] == #[trigger] emit(
        *x,
        base,
    )[j] by {
        assert(p[base + j] == emit(re, base)[j]);
    }
    assert forall|j: int|
        0 <= j < block_len(*y) implies p[base + block_len(*x) + j] == #[trigger] emit(
        *y,
        base + block_len(*x),
    )[j] by {
        assert(p[base + (block_len(*x) + j)] == emit(re, base)[block_len(*x) + j]);
    }
}

/// An `Alternation` fragment holds its branches' fragments after the fork.
proof fn proof_fragment_alternation(p: Seq<SpecInst>, re: Ast, base: int)
    requires
        re is Alternation,
        has_fragment(p, re, base),
    ensures
        has_fragment(p, *re->Alternation_0, base + 1),
        has_fragment(p, *re->Alternation_1, base + 2 + block_len(*re->Alternation_0)),
{
    let x = re->Alternation_0;
    let y = re->Alternation_1;
    let bx = block_len(*x) as int;
    lemma_emit_block(*x, base + 1);
    lemma_emit_block(*y, base + 2 + bx);
    assert forall|j: int| 0 <= j < block_len(*x) implies p[base + 1 + j] == #[trigger] emit(
        *x,
        base + 1,
    )[j] by {
        assert(p[base + (1 + j)] == emit(re, base)[1 + j]);
    }
    assert forall|j: int| 0 <= j < block_len(*y) implies p[base + 2 + bx + j] == #[trigger] emit(
        *y,
        base + 2 + bx,
    )[j] by {
        assert(p[base + (2 + bx + j)] == emit(re, base)[2 + bx + j]);
    }
}

/// A `OneOrMore` fragment starts with its child's fragment.
proof fn proof_fragment_one_or_more(p: Seq<SpecInst>, re: Ast, base: int)
    requires
        re is OneOrMore,
        has_fragment(p, re, base),
    ensures
        has_fragment(p, *re->OneOrMore_0, base),
{
    let x = re->OneOrMore_0;
    lemma_emit_block(*x, base);
    assert forall|j: int| 0 <= j < block_len(*x) implies p[base + j] == #[trigger] emit(
        *x,
        base,
    )[j] by {
        assert(p[base + j] == emit(re, base)[j]);
    }
}

/// A `Group` fragment is its child's fragment.
proof fn proof_fragment_group(p: Seq<SpecInst>, re: Ast, base: int)
    requires
        re is Group,
        has_fragment(p, re, base),
    ensures
        has_fragment(p, *re->Group_0, base),
{
    let x = re->Group_0;
    lemma_emit_block(*x, base);
    assert forall|j: int| 0 <= j < block_len(*x) implies p[base + j] == #[trigger] emit(
        *x,
        base,
    )[j] by {
        assert(p[base + j] == emit(re, base)[j]);
    }
}


/// A block of zero instructions can only come from syntax that derives the
/// empty string.
proof fn lemma_empty_block_nullable(re: Ast)
    requires
        block_len(re) == 0,
    ensures
        matches_empty(re),
    decreases re,
{
    match re {
        Ast::Concat(x, y) => {
            lemma_empty_block_nullable(*x);
            lemma_empty_block_nullable(*y);
        },
        Ast::Group(x) => {
            lemma_empty_block_nullable(*x);
        },
        _ => {},
    }
}


/// The first position at or past `i` whose instruction index reaches
/// `bound`; one exists because the run's last index does.
proof fn lemma_find_crossing(path: Seq<(int, int)>, bound: int, i: int) -> (k: int)
    requires
        0 <= i < path.len(),
        path[path.len() - 1].0 >= bound,
        forall|j: int| 0 <= j < i ==> (#[trigger] path[j]).0 < bound,
    ensures
        i <= k < path.len(),
        path[k].0 >= bound,
        forall|j: int| 0 <= j < k ==> (#[trigger] path[j]).0 < bound,
    decreases path.len() - i,
{
    if path[i].0 >= bound {
        i
    } else {
        assert(i < path.len() - 1);
        lemma_find_crossing(path, bound, i + 1)
    }
}

/// Once a run has entered the block of `sub` at `fb`, its index never drops
/// below `fb` while it keeps reading that block's instructions: every
/// instruction of the block targets `fb` or later.
proof fn lemma_stay_above_at(
    p: Seq<SpecInst>,
    text: Seq<char>,
    sub: Ast,
    fb: int,
    path: Seq<(int, int)>,
    kstart: int,
    kend: int,
    k: int,
)
    requires
        has_fragment(p, sub, fb),
        is_seg(p, text, path),
        0 <= kstart <= kend < path.len(),
        path[kstart].0 >= fb,
        forall|j: int| kstart <= j < kend ==> (#[trigger] path[j]).0 < fb + block_len(sub),
        kstart <= k <= kend,
    ensures
        path[k].0 >= fb,
    decreases k - kstart,
{
    lemma_emit_block(sub, fb);
    if k > kstart {
        lemma_stay_above_at(p, text, sub, fb, path, kstart, kend, k - 1);
        assert(step_ok(p, text, path[k - 1], path[k]));
        let j = path[k - 1].0 - fb;
        assert(p[fb + j] == emit(sub, fb)[j]);
        assert(inst_targets_in(emit(sub, fb)[j], fb, fb + block_len(sub)));
    }
}

proof fn lemma_stay_above(
    p: Seq<SpecInst>,
    text: Seq<char>,
    sub: Ast,
    fb: int,
    path: Seq<(int, int)>,
    kstart: int,
    kend: int,
)
    requires
        has_fragment(p, sub, fb),
        is_seg(p, text, path),
        0 <= kstart <= kend < path.len(),
        path[kstart].0 >= fb,
        forall|j: int| kstart <= j < kend ==> (#[trigger] path[j]).0 < fb + block_len(sub),
    ensures
        forall|j: int| kstart <= j <= kend ==> (#[trigger] path[j]).0 >= fb,
{
    assert forall|j: int| kstart <= j <= kend implies (#[trigger] path[j]).0 >= fb by {
        lemma_stay_above_at(p, text, sub, fb, path, kstart, kend, j);
    }
}

/// A contiguous piece of a run is a run.
proof fn lemma_subseg(
    p: Seq<SpecInst>,
    text: Seq<char>,
    path: Seq<(int, int)>,
    i: int,
    j: int,
)
    requires
        is_seg(p, text, path),
        0 <= i < j <= path.len(),
    ensures
        is_seg(p, text, path.subrange(i, j)),
        path.subrange(i, j).len() == j - i,
        path.subrange(i, j)[0] == path[i],
        path.subrange(i, j).last() == path[j - 1],
{
    let sub = path.subrange(i, j);
    if i == 0 {
        assert(valid_state(p, text, sub[0]));
    } else {
        assert(step_ok(p, text, path[i - 1], path[i]));
        assert(valid_state(p, text, sub[0]));
    }
    assert forall|k: int| 0 <= k < sub.len() - 1 implies step_ok(
        p,
        text,
        #[trigger] sub[k],
        sub[k + 1],
    ) by {
        assert(sub[k] == path[i + k]);
        assert(sub[k + 1] == path[i + k + 1]);
        assert(step_ok(p, text, path[i + k], path[i + k + 1]));
    }
}



/// A pattern's program accepts the empty text exactly when the pattern's
/// syntax tree derives the empty string.
pub proof fn lemma_accepts_empty_iff_nullable(re: Ast)
    ensures
        accepts(program_of(re), Seq::<char>::empty()) <==> matches_empty(re),
{
    let e = Seq::<char>::empty();
    lemma_matches_empty_is_lang_empty(re);
    lemma_accepts_iff_lang_prefix(re, e);
    assert(e.subrange(0, 0) =~= e);
    if accepts(program_of(re), e) {
        let k = choose|k: int| 0 <= k <= e.len() && lang_matches(re, #[trigger] e.subrange(0, k));
        assert(k == 0);
    }
    if matches_empty(re) {
        assert(0 <= 0 <= e.len() && lang_matches(re, e.subrange(0, 0)));
    }
}

/// For a sub-pattern placed at `base` and a piece of the text in its
/// language, some run of steps crosses its block from entry to exit,
/// consuming exactly that piece.
proof fn lemma_lang_gives_run(
    p: Seq<SpecInst>,
    text: Seq<char>,
    re: Ast,
    base: int,
    off: int,
    off2: int,
) -> (path: Seq<(int, int)>)
    requires
        has_fragment(p, re, base),
        base + block_len(re) < p.len(),
        0 <= off <= off2 <= text.len(),
        lang_matches(re, text.subrange(off, off2)),
    ensures
        is_seg(p, text, path),
        path[0] == (base, off),
        path.last() == (base + block_len(re), off2),
    decreases re, off2 - off,
{
    lemma_emit_block(re, base);
    let mid = text.subrange(off, off2);
    match re {
        Ast::Empty => {
            let path = seq![(base, off)];
            assert(is_seg(p, text, path));
            path
        },
        Ast::Literal(c) => {
            assert(mid[0] == text[off]);
            assert(p[base] == emit(re, base)[0]);
            assert(step_ok(p, text, (base, off), (base + 1, off + 1)));
            let path = seq![(base, off), (base + 1, off + 1)];
            assert(is_seg(p, text, path));
            path
        },
        Ast::AnyChar => {
            assert(p[base] == emit(re, base)[0]);
            assert(step_ok(p, text, (base, off), (base + 1, off + 1)));
            let path = seq![(base, off), (base + 1, off + 1)];
            assert(is_seg(p, text, path));
            path
        },
        Ast::Concat(x, y) => {
            let bx = block_len(*x) as int;
            proof_fragment_concat(p, re, base);
            assert(exists|i: int|
                0 <= i <= mid.len() && lang_matches(*x, mid.subrange(0, i)) && lang_matches(
                    *y,
                    mid.subrange(i, mid.len() as int),
                ));
            let i = choose|i: int|
                0 <= i <= mid.len() && lang_matches(*x, mid.subrange(0, i)) && lang_matches(
                    *y,
                    mid.subrange(i, mid.len() as int),
                );
            assert(mid.subrange(0, i) =~= text.subrange(off, off + i));
            assert(mid.subrange(i, mid.len() as int) =~= text.subrange(off + i, off2));
            let p1 = lemma_lang_gives_run(p, text, *x, base, off, off + i);
            let p2 = lemma_lang_gives_run(p, text, *y, base + bx, off + i, off2);
            lemma_seg_concat(p, text, p1, p2);
            p1 + p2.skip(1)
        },
        Ast::Alternation(x, y) => {
            let bx = block_len(*x) as int;
            let by = block_len(*y) as int;
            let exit = base + 2 + bx + by;
            proof_fragment_alternation(p, re, base);
            lemma_emit_block(*x, base + 1);
            lemma_emit_block(*y, base + 2 + bx);
            assert(p[base] == emit(re, base)[0]);
            assert(p[base] == SpecInst::Split { a: base + 1, b: base + 2 + bx });
            if lang_matches(*x, mid) {
                let p1 = lemma_lang_gives_run(p, text, *x, base + 1, off, off2);
                let front = seq![(base, off)];
                assert(is_seg(p, text, front));
                assert(step_ok(p, text, (base, off), (base + 1, off)));
                lemma_seg_push(p, text, front, (base + 1, off));
                lemma_seg_concat(p, text, front.push((base + 1, off)), p1);
                let body = front.push((base + 1, off)) + p1.skip(1);
                assert(p[base + 1 + bx] == emit(re, base)[1 + bx]);
                assert(p[base + 1 + bx] == SpecInst::Split { a: exit, b: exit });
                assert(step_ok(p, text, (base + 1 + bx, off2), (exit, off2)));
                lemma_seg_push(p, text, body, (exit, off2));
                body.push((exit, off2))
            } else {
                let p1 = lemma_lang_gives_run(p, text, *y, base + 2 + bx, off, off2);
                let front = seq![(base, off)];
                assert(is_seg(p, text, front));
                assert(step_ok(p, text, (base, off), (base + 2 + bx, off)));
                lemma_seg_push(p, text, front, (base + 2 + bx, off));
                lemma_seg_concat(p, text, front.push((base + 2 + bx, off)), p1);
                front.push((base + 2 + bx, off)) + p1.skip(1)
            }
        },
        Ast::ZeroOrMore(x) => {
            let bx = block_len(*x) as int;
            let exit = base + bx + 2;
            proof_fragment_after_fork_star(p, re, base);
            lemma_emit_block(*x, base + 1);
            assert(p[base] == emit(re, base)[0]);
            assert(p[base] == SpecInst::Split { a: base + 1, b: exit });
            if off == off2 {
                assert(step_ok(p, text, (base, off), (exit, off)));
                let front = seq![(base, off)];
                assert(is_seg(p, text, front));
                lemma_seg_push(p, text, front, (exit, off));
                front.push((exit, off))
            } else {
                assert(star_matches(*x, mid));
                assert(exists|i: int|
                    1 <= i <= mid.len() && lang_matches(*x, mid.subrange(0, i)) && star_matches(
                        *x,
                        mid.subrange(i, mid.len() as int),
                    ));
                let i = choose|i: int|
                    1 <= i <= mid.len() && lang_matches(*x, mid.subrange(0, i)) && star_matches(
                        *x,
                        mid.subrange(i, mid.len() as int),
                    );
                assert(mid.subrange(0, i) =~= text.subrange(off, off + i));
                assert(mid.subrange(i, mid.len() as int) =~= text.subrange(off + i, off2));
                let p1 = lemma_lang_gives_run(p, text, *x, base + 1, off, off + i);
                let front = seq![(base, off)];
                assert(is_seg(p, text, front));
                assert(step_ok(p, text, (base, off), (base + 1, off)));
                lemma_seg_push(p, text, front, (base + 1, off));
                lemma_seg_concat(p, text, front.push((base + 1, off)), p1);
                let body = front.push((base + 1, off)) + p1.skip(1);
                assert(p[base + 1 + bx] == emit(re, base)[1 + bx]);
                assert(p[base + 1 + bx] == SpecInst::Split { a: base, b: base });
                assert(step_ok(p, text, (base + 1 + bx, off + i), (base, off + i)));
                lemma_seg_push(p, text, body, (base, off + i));
                let rest = lemma_lang_gives_run(p, text, re, base, off + i, off2);
                lemma_seg_concat(p, text, body.push((base, off + i)), rest);
                body.push((base, off + i)) + rest.skip(1)
            }
        },
        Ast::OneOrMore(x) => {
            let bx = block_len(*x) as int;
            let exit = base + bx + 1;
            proof_fragment_one_or_more(p, re, base);
            lemma_emit_block(*x, base);
            assert(exists|i: int|
                0 <= i <= mid.len() && lang_matches(*x, mid.subrange(0, i)) && star_matches(
                    *x,
                    mid.subrange(i, mid.len() as int),
                ));
            let i0 = choose|i: int|
                0 <= i <= mid.len() && lang_matches(*x, mid.subrange(0, i)) && star_matches(
                    *x,
                    mid.subrange(i, mid.len() as int),
                );
            let i = if i0 == 0 && mid.len() > 0 {
                assert(mid.subrange(0, mid.len() as int) =~= mid);
                assert(star_matches(*x, mid));
                assert(exists|j: int|
                    1 <= j <= mid.len() && lang_matches(*x, mid.subrange(0, j)) && star_matches(
                        *x,
                        mid.subrange(j, mid.len() as int),
                    ));
                choose|j: int|
                    1 <= j <= mid.len() && lang_matches(*x, mid.subrange(0, j)) && star_matches(
                        *x,
                        mid.subrange(j, mid.len() as int),
                    )
            } else {
                i0
            };
            assert(lang_matches(*x, mid.subrange(0, i)));
            assert(star_matches(*x, mid.subrange(i, mid.len() as int)));
            assert(mid.subrange(0, i) =~= text.subrange(off, off + i));
            assert(mid.subrange(i, mid.len() as int) =~= text.subrange(off + i, off2));
            let p1 = lemma_lang_gives_run(p, text, *x, base, off, off + i);
            assert(p[base + bx] == emit(re, base)[bx]);
            assert(p[base + bx] == SpecInst::Split { a: base, b: exit });
            if off + i == off2 {
                assert(step_ok(p, text, (base + bx, off2), (exit, off2)));
                lemma_seg_push(p, text, p1, (exit, off2));
                p1.push((exit, off2))
            } else {
                assert(i >= 1);
                assert(step_ok(p, text, (base + bx, off + i), (base, off + i)));
                lemma_seg_push(p, text, p1, (base, off + i));
                let rest_text = text.subrange(off + i, off2);
                assert(star_matches(*x, rest_text));
                assert(exists|j: int|
                    1 <= j <= rest_text.len() && lang_matches(*x, rest_text.subrange(0, j))
                        && star_matches(*x, rest_text.subrange(j, rest_text.len() as int)));
                let j = choose|j: int|
                    1 <= j <= rest_text.len() && lang_matches(*x, rest_text.subrange(0, j))
                        && star_matches(*x, rest_text.subrange(j, rest_text.len() as int));
                assert(0 <= j <= rest_text.len() && lang_matches(*x, rest_text.subrange(0, j))
                    && star_matches(*x, rest_text.subrange(j, rest_text.len() as int)));
                assert(lang_matches(re, rest_text));
                let rest = lemma_lang_gives_run(p, text, re, base, off + i, off2);
                lemma_seg_concat(p, text, p1.push((base, off + i)), rest);
                p1.push((base, off + i)) + rest.skip(1)
            }
        },
        Ast::ZeroOrOne(x) => {
            let bx = block_len(*x) as int;
            let exit = base + 1 + bx;
            proof_fragment_after_fork_question(p, re, base);
            lemma_emit_block(*x, base + 1);
            assert(p[base] == emit(re, base)[0]);
            assert(p[base] == SpecInst::Split { a: base + 1, b: exit });
            if off == off2 {
                assert(step_ok(p, text, (base, off), (exit, off)));
                let front = seq![(base, off)];
                assert(is_seg(p, text, front));
                lemma_seg_push(p, text, front, (exit, off));
                front.push((exit, off))
            } else {
                let p1 = lemma_lang_gives_run(p, text, *x, base + 1, off, off2);
                let front = seq![(base, off)];
                assert(is_seg(p, text, front));
                assert(step_ok(p, text, (base, off), (base + 1, off)));
                lemma_seg_push(p, text, front, (base + 1, off));
                lemma_seg_concat(p, text, front.push((base + 1, off)), p1);
                front.push((base + 1, off)) + p1.skip(1)
            }
        },
        Ast::Group(x) => {
            proof_fragment_group(p, re, base);
            lemma_lang_gives_run(p, text, *x, base, off, off2)
        },
    }
}

/// A `ZeroOrMore` fragment holds its child's fragment one index after the
/// fork.
proof fn proof_fragment_after_fork_star(p: Seq<SpecInst>, re: Ast, base: int)
    requires
        re is ZeroOrMore,
        has_fragment(p, re, base),
    ensures
        has_fragment(p, *re->ZeroOrMore_0, base + 1),
{
    let x = re->ZeroOrMore_0;
    lemma_emit_block(*x, base + 1);
    assert forall|j: int| 0 <= j < block_len(*x) implies p[base + 1 + j] == #[trigger] emit(
        *x,
        base + 1,
    )[j] by {
        assert(p[base + (1 + j)] == emit(re, base)[1 + j]);
    }
}

/// A `ZeroOrOne` fragment holds its child's fragment one index after the
/// fork.
proof fn proof_fragment_after_fork_question(p: Seq<SpecInst>, re: Ast, base: int)
    requires
        re is ZeroOrOne,
        has_fragment(p, re, base),
    ensures
        has_fragment(p, *re->ZeroOrOne_0, base + 1),
{
    let x = re->ZeroOrOne_0;
    lemma_emit_block(*x, base + 1);
    assert forall|j: int| 0 <= j < block_len(*x) implies p[base + 1 + j] == #[trigger] emit(
        *x,
        base + 1,
    )[j] by {
        assert(p[base + (1 + j)] == emit(re, base)[1 + j]);
    }
}


/// [`matches_empty`] is exactly membership of the empty string in the
/// pattern's language.
pub proof fn lemma_matches_empty_is_lang_empty(re: Ast)
    ensures
        matches_empty(re) == lang_matches(re, Seq::<char>::empty()),
    decreases re,
{
    let e = Seq::<char>::empty();
    assert(e.len() == 0);
    match re {
        Ast::Empty => {},
        Ast::Literal(_) => {},
        Ast::AnyChar => {},
        Ast::Concat(x, y) => {
            lemma_matches_empty_is_lang_empty(*x);
            lemma_matches_empty_is_lang_empty(*y);
            assert(e.subrange(0, 0) =~= e);
            if matches_empty(re) {
                assert(0 <= 0 <= e.len() && lang_matches(*x, e.subrange(0, 0)) && lang_matches(
                    *y,
                    e.subrange(0, e.len() as int),
                ));
            }
            if lang_matches(re, e) {
                let i = choose|i: int|
                    0 <= i <= e.len() && lang_matches(*x, e.subrange(0, i)) && lang_matches(
                        *y,
                        e.subrange(i, e.len() as int),
                    );
                assert(i == 0);
                assert(e.subrange(i, e.len() as int) =~= e);
            }
        },
        Ast::Alternation(x, y) => {
            lemma_matches_empty_is_lang_empty(*x);
            lemma_matches_empty_is_lang_empty(*y);
        },
        Ast::ZeroOrMore(x) => {
            assert(star_matches(*x, e));
        },
        Ast::OneOrMore(x) => {
            lemma_matches_empty_is_lang_empty(*x);
            assert(e.subrange(0, 0) =~= e);
            if matches_empty(re) {
                assert(0 <= 0 <= e.len() && lang_matches(*x, e.subrange(0, 0)) && star_matches(
                    *x,
                    e.subrange(0, e.len() as int),
                ));
            }
            if lang_matches(re, e) {
                let i = choose|i: int|
                    0 <= i <= e.len() && lang_matches(*x, e.subrange(0, i)) && star_matches(
                        *x,
                        e.subrange(i, e.len() as int),
                    );
                assert(i == 0);
            }
        },
        Ast::ZeroOrOne(_) => {},
        Ast::Group(x) => {
            lemma_matches_empty_is_lang_empty(*x);
        },
    }
}

/// Offsets never decrease along a run: a step consumes one character or
/// none.
proof fn lemma_seg_offsets_mono(
    p: Seq<SpecInst>,
    text: Seq<char>,
    path: Seq<(int, int)>,
    a: int,
    b: int,
)
    requires
        is_seg(p, text, path),
        0 <= a <= b < path.len(),
    ensures
        path[a].1 <= path[b].1,
    decreases b - a,
{
    if a < b {
        lemma_seg_offsets_mono(p, text, path, a, b - 1);
        assert(step_ok(p, text, path[b - 1], path[b]));
    }
}

/// A piece in the language followed by a star-split is a star-split.
proof fn lemma_chunk_star(x: Ast, s: Seq<char>, i: int)
    requires
        0 <= i <= s.len(),
        lang_matches(x, s.subrange(0, i)),
        star_matches(x, s.subrange(i, s.len() as int)),
    ensures
        star_matches(x, s),
{
    if i == 0 {
        assert(s.subrange(0, s.len() as int) =~= s);
    } else {
        assert(1 <= i <= s.len() && lang_matches(x, s.subrange(0, i)) && star_matches(
            x,
            s.subrange(i, s.len() as int),
        ));
    }
}
/// From the entry of a sub-block, a run whose last index lies at or past
/// the block's exit first reaches exactly the exit, staying inside the
/// block until then.
proof fn lemma_block_crossing(
    p: Seq<SpecInst>,
    text: Seq<char>,
    sub: Ast,
    fb: int,
    path: Seq<(int, int)>,
    kstart: int,
) -> (k1: int)
    requires
        has_fragment(p, sub, fb),
        is_seg(p, text, path),
        0 <= kstart < path.len(),
        path[kstart].0 == fb,
        path[path.len() - 1].0 >= fb + block_len(sub),
        forall|j: int| 0 <= j < kstart ==> (#[trigger] path[j]).0 < fb + block_len(sub),
    ensures
        kstart <= k1 < path.len(),
        path[k1].0 == fb + block_len(sub),
        forall|j: int| kstart <= j < k1 ==> fb <= (#[trigger] path[j]).0 < fb + block_len(sub),
    decreases 0int,
{
    lemma_emit_block(sub, fb);
    let bl = block_len(sub) as int;
    let k1 = lemma_find_crossing(path, fb + bl, kstart);
    if k1 == kstart {
        assert(bl == 0);
    } else {
        lemma_stay_above(p, text, sub, fb, path, kstart, k1 - 1);
        assert(path[k1 - 1].0 < fb + bl);
        assert(fb <= path[k1 - 1].0);
        assert(step_ok(p, text, path[k1 - 1], path[k1]));
        let jx = path[k1 - 1].0 - fb;
        assert(p[fb + jx] == emit(sub, fb)[jx]);
        assert(inst_targets_in(emit(sub, fb)[jx], fb, fb + bl));
    }
    lemma_stay_above(p, text, sub, fb, path, kstart, k1);
    k1
}

#[verifier::rlimit(100)]
#[verifier::spinoff_prover]
proof fn lemma_run_gives_lang_concat(
    p: Seq<SpecInst>,
    text: Seq<char>,
    re: Ast,
    base: int,
    path: Seq<(int, int)>,
)
    requires
        has_fragment(p, re, base),
        is_seg(p, text, path),
        path[0].0 == base,
        path.last().0 == base + block_len(re),
        forall|k: int|
            0 <= k < path.len() - 1 ==> base <= (#[trigger] path[k]).0 < base + block_len(re),
        re is Concat,
    ensures
        lang_matches(re, text.subrange(path[0].1, path.last().1)),
    decreases re, path.len(), 0int,
{
    lemma_emit_block(re, base);
    let n = path.len() as int;
    let o1 = path[0].1;
    let o2 = path.last().1;
    lemma_seg_offsets_mono(p, text, path, 0, n - 1);
    if n >= 2 {
        assert(step_ok(p, text, path[n - 2], path[n - 1]));
    }
    assert(valid_state(p, text, path[n - 1]));
    assert(0 <= o1 <= o2 <= text.len());
    let mid = text.subrange(o1, o2);
    match re {
        Ast::Concat(x, y) => {
            let bx = block_len(*x) as int;
            let by = block_len(*y) as int;
            proof_fragment_concat(p, re, base);
            lemma_emit_block(*x, base);
            lemma_emit_block(*y, base + bx);
            let k0 = lemma_find_crossing(path, base + bx, 0);
            if k0 == 0 {
                assert(path[0].0 == base);
                assert(bx == 0);
            } else {
                assert(path[k0 - 1].0 < base + bx);
                assert(base <= path[k0 - 1].0);
                assert(step_ok(p, text, path[k0 - 1], path[k0]));
                let jx = path[k0 - 1].0 - base;
                assert(p[base + jx] == emit(*x, base)[jx]);
                assert(inst_targets_in(emit(*x, base)[jx], base, base + bx));
            }
            assert(path[k0].0 == base + bx);
            let om = path[k0].1;
            lemma_seg_offsets_mono(p, text, path, 0, k0);
            lemma_seg_offsets_mono(p, text, path, k0, n - 1);
            lemma_subseg(p, text, path, 0, k0 + 1);
            let pre = path.subrange(0, k0 + 1);
            assert forall|k: int|
                0 <= k < pre.len() - 1 implies base <= (#[trigger] pre[k]).0 < base + bx by {
                assert(pre[k] == path[k]);
            }
            lemma_run_gives_lang(p, text, *x, base, pre);
            lemma_subseg(p, text, path, k0, n);
            let suf = path.subrange(k0, n);
            lemma_stay_above(p, text, *y, base + bx, path, k0, n - 1);
            assert forall|k: int|
                0 <= k < suf.len() - 1 implies base + bx <= (#[trigger] suf[k]).0 < base + bx
                    + by by {
                assert(suf[k] == path[k0 + k]);
            }
            lemma_run_gives_lang(p, text, *y, base + bx, suf);
            assert(text.subrange(o1, om) =~= mid.subrange(0, om - o1));
            assert(text.subrange(om, o2) =~= mid.subrange(om - o1, mid.len() as int));
            assert(0 <= om - o1 <= mid.len() && lang_matches(*x, mid.subrange(0, om - o1))
                && lang_matches(*y, mid.subrange(om - o1, mid.len() as int)));
        },
        _ => {},
    }
}

#[verifier::rlimit(100)]
#[verifier::spinoff_prover]
proof fn lemma_run_gives_lang_alternation(
    p: Seq<SpecInst>,
    text: Seq<char>,
    re: Ast,
    base: int,
    path: Seq<(int, int)>,
)
    requires
        has_fragment(p, re, base),
        is_seg(p, text, path),
        path[0].0 == base,
        path.last().0 == base + block_len(re),
        forall|k: int|
            0 <= k < path.len() - 1 ==> base <= (#[trigger] path[k]).0 < base + block_len(re),
        re is Alternation,
    ensures
        lang_matches(re, text.subrange(path[0].1, path.last().1)),
    decreases re, path.len(), 0int,
{
    lemma_emit_block(re, base);
    let n = path.len() as int;
    let o1 = path[0].1;
    let o2 = path.last().1;
    lemma_seg_offsets_mono(p, text, path, 0, n - 1);
    if n >= 2 {
        assert(step_ok(p, text, path[n - 2], path[n - 1]));
    }
    assert(valid_state(p, text, path[n - 1]));
    assert(0 <= o1 <= o2 <= text.len());
    let mid = text.subrange(o1, o2);
    match re {
        Ast::Alternation(x, y) => {
            let bx = block_len(*x) as int;
            let by = block_len(*y) as int;
            let fork = base + 1 + bx;
            let entry_y = base + 2 + bx;
            let exit = base + 2 + bx + by;
            proof_fragment_alternation(p, re, base);
            lemma_emit_block(*x, base + 1);
            lemma_emit_block(*y, entry_y);
            assert(n >= 2);
            assert(p[base] == emit(re, base)[0]);
            assert(p[base] == SpecInst::Split { a: base + 1, b: entry_y });
            assert(step_ok(p, text, path[0], path[1]));
            assert(path[1].1 == o1);
            if path[1].0 == base + 1 {
                let k1 = lemma_find_crossing(path, fork, 1);
                if k1 == 1 {
                    assert(path[1].0 == base + 1 && path[1].0 >= fork);
                    assert(bx == 0);
                } else {
                    lemma_stay_above(p, text, *x, base + 1, path, 1, k1 - 1);
                    assert(path[k1 - 1].0 < fork);
                    assert(base + 1 <= path[k1 - 1].0);
                    assert(step_ok(p, text, path[k1 - 1], path[k1]));
                    let jx = path[k1 - 1].0 - (base + 1);
                    assert(p[base + 1 + jx] == emit(*x, base + 1)[jx]);
                    assert(inst_targets_in(emit(*x, base + 1)[jx], base + 1, fork));
                }
                assert(path[k1].0 == fork);
                let om = path[k1].1;
                assert(k1 < n - 1);
                assert(step_ok(p, text, path[k1], path[k1 + 1]));
                assert(p[fork] == emit(re, base)[1 + bx]);
                assert(p[fork] == SpecInst::Split { a: exit, b: exit });
                assert(path[k1 + 1] == (exit, om));
                if k1 + 1 < n - 1 {
                    assert(base <= path[k1 + 1].0 < base + block_len(re));
                    assert(false);
                }
                assert(o2 == om);
                lemma_subseg(p, text, path, 1, k1 + 1);
                let sub = path.subrange(1, k1 + 1);
                lemma_stay_above(p, text, *x, base + 1, path, 1, k1);
                assert forall|k: int|
                    0 <= k < sub.len() - 1 implies base + 1 <= (#[trigger] sub[k]).0 < base + 1
                        + bx by {
                    assert(sub[k] == path[1 + k]);
                }
                lemma_run_gives_lang(p, text, *x, base + 1, sub);
                assert(lang_matches(*x, mid));
            } else {
                assert(path[1].0 == entry_y);
                lemma_subseg(p, text, path, 1, n);
                let sub = path.subrange(1, n);
                lemma_stay_above(p, text, *y, entry_y, path, 1, n - 1);
                assert forall|k: int|
                    0 <= k < sub.len() - 1 implies entry_y <= (#[trigger] sub[k]).0 < entry_y
                        + by by {
                    assert(sub[k] == path[1 + k]);
                }
                lemma_run_gives_lang(p, text, *y, entry_y, sub);
                assert(lang_matches(*y, mid));
            }
        },
        _ => {},
    }
}

#[verifier::rlimit(100)]
#[verifier::spinoff_prover]
proof fn lemma_run_gives_lang_star(
    p: Seq<SpecInst>,
    text: Seq<char>,
    re: Ast,
    base: int,
    path: Seq<(int, int)>,
)
    requires
        has_fragment(p, re, base),
        is_seg(p, text, path),
        path[0].0 == base,
        path.last().0 == base + block_len(re),
        forall|k: int|
            0 <= k < path.len() - 1 ==> base <= (#[trigger] path[k]).0 < base + block_len(re),
        re is ZeroOrMore,
    ensures
        lang_matches(re, text.subrange(path[0].1, path.last().1)),
    decreases re, path.len(), 0int,
{
    lemma_emit_block(re, base);
    let n = path.len() as int;
    let o1 = path[0].1;
    let o2 = path.last().1;
    lemma_seg_offsets_mono(p, text, path, 0, n - 1);
    if n >= 2 {
        assert(step_ok(p, text, path[n - 2], path[n - 1]));
    }
    assert(valid_state(p, text, path[n - 1]));
    assert(0 <= o1 <= o2 <= text.len());
    let mid = text.subrange(o1, o2);
    match re {
        Ast::ZeroOrMore(x) => {
            let bx = block_len(*x) as int;
            let fork = base + 1 + bx;
            let exit = base + 2 + bx;
            proof_fragment_after_fork_star(p, re, base);
            assert(n >= 2);
            assert(p[base] == emit(re, base)[0]);
            assert(p[base] == SpecInst::Split { a: base + 1, b: exit });
            assert(step_ok(p, text, path[0], path[1]));
            assert(path[1].1 == o1);
            if path[1].0 == exit {
                if n > 2 {
                    assert(base <= path[1].0 < base + block_len(re));
                    assert(false);
                }
                assert(o2 == o1);
                assert(mid.len() == 0);
                assert(star_matches(*x, mid));
            } else {
                assert(path[1].0 == base + 1);
                let k1 = lemma_block_crossing(p, text, *x, base + 1, path, 1);
                let om = path[k1].1;
                assert(k1 < n - 1);
                assert(step_ok(p, text, path[k1], path[k1 + 1]));
                assert(p[fork] == emit(re, base)[1 + bx]);
                assert(p[fork] == SpecInst::Split { a: base, b: base });
                assert(path[k1 + 1] == (base, om));
                lemma_subseg(p, text, path, 1, k1 + 1);
                let pre = path.subrange(1, k1 + 1);
                assert forall|k: int|
                    0 <= k < pre.len() - 1 implies base + 1 <= (#[trigger] pre[k]).0 < base + 1
                        + bx by {
                    assert(pre[k] == path[1 + k]);
                }
                lemma_run_gives_lang(p, text, *x, base + 1, pre);
                lemma_subseg(p, text, path, k1 + 1, n);
                let suf = path.subrange(k1 + 1, n);
                assert forall|k: int|
                    0 <= k < suf.len() - 1 implies base <= (#[trigger] suf[k]).0 < base
                        + block_len(re) by {
                    assert(suf[k] == path[k1 + 1 + k]);
                }
                lemma_run_gives_lang(p, text, re, base, suf);
                lemma_seg_offsets_mono(p, text, path, 1, k1);
                lemma_seg_offsets_mono(p, text, path, k1, n - 1);
                assert(o1 <= om <= o2);
                assert(lang_matches(*x, text.subrange(o1, om)));
                assert(star_matches(*x, text.subrange(om, o2)));
                assert(text.subrange(o1, om) =~= mid.subrange(0, om - o1));
                assert(text.subrange(om, o2) =~= mid.subrange(om - o1, mid.len() as int));
                lemma_chunk_star(*x, mid, om - o1);
                assert(star_matches(*x, mid));
            }
        },
        _ => {},
    }
}

#[verifier::rlimit(100)]
#[verifier::spinoff_prover]
proof fn lemma_run_gives_lang_plus(
    p: Seq<SpecInst>,
    text: Seq<char>,
    re: Ast,
    base: int,
    path: Seq<(int, int)>,
)
    requires
        has_fragment(p, re, base),
        is_seg(p, text, path),
        path[0].0 == base,
        path.last().0 == base + block_len(re),
        forall|k: int|
            0 <= k < path.len() - 1 ==> base <= (#[trigger] path[k]).0 < base + block_len(re),
        re is OneOrMore,
    ensures
        lang_matches(re, text.subrange(path[0].1, path.last().1)),
    decreases re, path.len(), 0int,
{
    lemma_emit_block(re, base);
    let n = path.len() as int;
    let o1 = path[0].1;
    let o2 = path.last().1;
    lemma_seg_offsets_mono(p, text, path, 0, n - 1);
    if n >= 2 {
        assert(step_ok(p, text, path[n - 2], path[n - 1]));
    }
    assert(valid_state(p, text, path[n - 1]));
    assert(0 <= o1 <= o2 <= text.len());
    let mid = text.subrange(o1, o2);
    match re {
        Ast::OneOrMore(x) => {
            let bx = block_len(*x) as int;
            let fork = base + bx;
            let exit = base + bx + 1;
            proof_fragment_one_or_more(p, re, base);
            let k1 = lemma_block_crossing(p, text, *x, base, path, 0);
            let om = path[k1].1;
            assert(k1 < n - 1);
            assert(step_ok(p, text, path[k1], path[k1 + 1]));
            assert(p[fork] == emit(re, base)[bx]);
            assert(p[fork] == SpecInst::Split { a: base, b: exit });
            lemma_seg_offsets_mono(p, text, path, 0, k1);
            lemma_seg_offsets_mono(p, text, path, k1, n - 1);
            assert(o1 <= om <= o2);
            if bx == 0 && k1 == 0 {
                lemma_empty_block_nullable(*x);
                lemma_matches_empty_is_lang_empty(*x);
                assert(text.subrange(o1, om) =~= Seq::<char>::empty());
            } else {
                lemma_subseg(p, text, path, 0, k1 + 1);
                let pre = path.subrange(0, k1 + 1);
                assert forall|k: int|
                    0 <= k < pre.len() - 1 implies base <= (#[trigger] pre[k]).0 < base + bx by {
                    assert(pre[k] == path[k]);
                }
                lemma_run_gives_lang(p, text, *x, base, pre);
            }
            assert(lang_matches(*x, text.subrange(o1, om)));
            if path[k1 + 1].0 == exit {
                if k1 + 1 < n - 1 {
                    assert(base <= path[k1 + 1].0 < base + block_len(re));
                    assert(false);
                }
                assert(o2 == om);
                assert(text.subrange(o1, om) =~= mid.subrange(0, om - o1));
                assert(text.subrange(om, o2) =~= mid.subrange(om - o1, mid.len() as int));
                assert(mid.subrange(om - o1, mid.len() as int).len() == 0);
                assert(0 <= om - o1 <= mid.len() && lang_matches(*x, mid.subrange(0, om - o1))
                    && star_matches(*x, mid.subrange(om - o1, mid.len() as int)));
            } else {
                assert(path[k1 + 1] == (base, om));
                lemma_subseg(p, text, path, k1 + 1, n);
                let suf = path.subrange(k1 + 1, n);
                assert forall|k: int|
                    0 <= k < suf.len() - 1 implies base <= (#[trigger] suf[k]).0 < base
                        + block_len(re) by {
                    assert(suf[k] == path[k1 + 1 + k]);
                }
                lemma_run_gives_lang(p, text, re, base, suf);
                assert(lang_matches(re, text.subrange(om, o2)));
                let rest = text.subrange(om, o2);
                let j = choose|j: int|
                    0 <= j <= rest.len() && lang_matches(*x, rest.subrange(0, j)) && star_matches(
                        *x,
                        rest.subrange(j, rest.len() as int),
                    );
                lemma_chunk_star(*x, rest, j);
                assert(star_matches(*x, rest));
                assert(text.subrange(o1, om) =~= mid.subrange(0, om - o1));
                assert(rest =~= mid.subrange(om - o1, mid.len() as int));
                assert(0 <= om - o1 <= mid.len() && lang_matches(*x, mid.subrange(0, om - o1))
                    && star_matches(*x, mid.subrange(om - o1, mid.len() as int)));
            }
        },
        _ => {},
    }
}

/// A run that crosses the block of `re` from entry to exit without leaving
/// it consumes a piece of the text in `re`'s language.
#[verifier::rlimit(100)]
#[verifier::spinoff_prover]
proof fn lemma_run_gives_lang(
    p: Seq<SpecInst>,
    text: Seq<char>,
    re: Ast,
    base: int,
    path: Seq<(int, int)>,
)
    requires
        has_fragment(p, re, base),
        is_seg(p, text, path),
        path[0].0 == base,
        path.last().0 == base + block_len(re),
        forall|k: int|
            0 <= k < path.len() - 1 ==> base <= (#[trigger] path[k]).0 < base + block_len(re),
    ensures
        lang_matches(re, text.subrange(path[0].1, path.last().1)),
    decreases re, path.len(), 1int,
{
    lemma_emit_block(re, base);
    let n = path.len() as int;
    let o1 = path[0].1;
    let o2 = path.last().1;
    lemma_seg_offsets_mono(p, text, path, 0, n - 1);
    if n >= 2 {
        assert(step_ok(p, text, path[n - 2], path[n - 1]));
    }
    assert(valid_state(p, text, path[n - 1]));
    assert(0 <= o1 <= o2 <= text.len());
    let mid = text.subrange(o1, o2);
    match re {
        Ast::Empty => {
            if n >= 2 {
                assert(base <= path[0].0 < base);
            }
            assert(o1 == o2);
            assert(mid.len() == 0);
        },
        Ast::Literal(c) => {
            assert(n >= 2);
            assert(step_ok(p, text, path[0], path[1]));
            assert(p[base] == emit(re, base)[0]);
            assert(path[1] == (base + 1, o1 + 1));
            assert(text[o1] == c);
            if n > 2 {
                assert(base <= path[1].0 < base + 1);
                assert(false);
            }
            assert(o2 == o1 + 1);
            assert(mid.len() == 1 && mid[0] == text[o1]);
        },
        Ast::AnyChar => {
            assert(n >= 2);
            assert(step_ok(p, text, path[0], path[1]));
            assert(p[base] == emit(re, base)[0]);
            assert(path[1] == (base + 1, o1 + 1));
            if n > 2 {
                assert(base <= path[1].0 < base + 1);
                assert(false);
            }
            assert(o2 == o1 + 1);
            assert(mid.len() == 1);
        },
        Ast::Concat(_, _) => {
            lemma_run_gives_lang_concat(p, text, re, base, path);
        },
        Ast::Alternation(_, _) => {
            lemma_run_gives_lang_alternation(p, text, re, base, path);
        },
        Ast::ZeroOrMore(_) => {
            lemma_run_gives_lang_star(p, text, re, base, path);
        },
        Ast::OneOrMore(_) => {
            lemma_run_gives_lang_plus(p, text, re, base, path);
        },
        Ast::ZeroOrOne(x) => {
            let bx = block_len(*x) as int;
            let exit = base + 1 + bx;
            proof_fragment_after_fork_question(p, re, base);
            lemma_emit_block(*x, base + 1);
            assert(n >= 2);
            assert(p[base] == emit(re, base)[0]);
            assert(p[base] == SpecInst::Split { a: base + 1, b: exit });
            assert(step_ok(p, text, path[0], path[1]));
            assert(path[1].1 == o1);
            if path[1].0 == exit && bx > 0 {
                if n > 2 {
                    assert(base <= path[1].0 < base + block_len(re));
                    assert(false);
                }
                assert(o2 == o1);
                assert(mid.len() == 0);
            } else if bx == 0 && path[1].0 == exit {
                if n > 2 {
                    assert(base <= path[1].0 < base + block_len(re));
                    assert(false);
                }
                assert(o2 == o1);
                assert(mid.len() == 0);
            } else {
                assert(path[1].0 == base + 1);
                lemma_subseg(p, text, path, 1, n);
                let sub = path.subrange(1, n);
                lemma_stay_above(p, text, *x, base + 1, path, 1, n - 1);
                assert forall|k: int|
                    0 <= k < sub.len() - 1 implies base + 1 <= (#[trigger] sub[k]).0 < base + 1
                        + bx by {
                    assert(sub[k] == path[1 + k]);
                }
                lemma_run_gives_lang(p, text, *x, base + 1, sub);
                assert(lang_matches(*x, mid));
            }
        },
        Ast::Group(x) => {
            proof_fragment_group(p, re, base);
            lemma_run_gives_lang(p, text, *x, base, path);
        },
    }
}

/// The program of a pattern accepts at offset `off` exactly when the first
/// `off` characters of the text belong to the pattern's language.
pub proof fn lemma_accepts_at_iff_lang(re: Ast, text: Seq<char>, off: int)
    requires
        0 <= off <= text.len(),
    ensures
        accepts_at(program_of(re), text, off) <==> lang_matches(re, text.subrange(0, off)),
{
    let p = program_of(re);
    let size = block_len(re) as int;
    lemma_emit_block(re, 0);
    assert forall|j: int| 0 <= j < block_len(re) implies p[0 + j] == #[trigger] emit(re, 0)[j] by {
        assert(p[j] == emit(re, 0).push(SpecInst::Accept)[j]);
    }
    assert(has_fragment(p, re, 0));
    if accepts_at(p, text, off) {
        let path = choose|path: Seq<(int, int)>|
            #[trigger] is_path(p, text, path) && at_accept(p, path.last()) && path.last().1 == off;
        let n = path.len() as int;
        if n == 1 {
            assert(valid_state(p, text, path[0]));
        } else {
            assert(step_ok(p, text, path[n - 2], path[n - 1]));
            assert(valid_state(p, text, path[n - 1]));
        }
        assert(p[path.last().0] is Accept);
        if path.last().0 < size {
            assert(p[path.last().0] == emit(re, 0)[path.last().0]);
            assert(false);
        }
        assert(path.last().0 == size);
        assert forall|k: int| 0 <= k < n - 1 implies 0 <= (#[trigger] path[k]).0 < size by {
            assert(step_ok(p, text, path[k], path[k + 1]));
            if path[k].0 == size {
                assert(p[path[k].0] is Accept);
                assert(false);
            }
        }
        assert(is_seg(p, text, path));
        lemma_run_gives_lang(p, text, re, 0, path);
    }
    if lang_matches(re, text.subrange(0, off)) {
        let path = lemma_lang_gives_run(p, text, re, 0, 0, off);
        assert(path[0] == (0int, 0int));
        assert(is_path(p, text, path));
        assert(p[size] is Accept);
        assert(is_path(p, text, path) && at_accept(p, path.last()) && path.last().1 == off);
    }
}

/// The program of a pattern accepts a text exactly when some prefix of the
/// text belongs to the pattern's language.
pub proof fn lemma_accepts_iff_lang_prefix(re: Ast, text: Seq<char>)
    ensures
        accepts(program_of(re), text) <==> (exists|k: int|
            0 <= k <= text.len() && lang_matches(re, #[trigger] text.subrange(0, k))),
{
    let p = program_of(re);
    if accepts(p, text) {
        let path = choose|path: Seq<(int, int)>|
            #[trigger] is_path(p, text, path) && at_accept(p, path.last());
        let n = path.len() as int;
        if n == 1 {
            assert(valid_state(p, text, path[0]));
        } else {
            assert(step_ok(p, text, path[n - 2], path[n - 1]));
            assert(valid_state(p, text, path[n - 1]));
        }
        let off = path.last().1;
        assert(0 <= off <= text.len());
        assert(is_path(p, text, path) && at_accept(p, path.last()) && path.last().1 == off);
        assert(accepts_at(p, text, off));
        lemma_accepts_at_iff_lang(re, text, off);
        assert(0 <= off <= text.len() && lang_matches(re, text.subrange(0, off)));
    }
    if exists|k: int| 0 <= k <= text.len() && lang_matches(re, #[trigger] text.subrange(0, k)) {
        let k = choose|k: int| 0 <= k <= text.len() && lang_matches(re, #[trigger] text.subrange(0, k));
        lemma_accepts_at_iff_lang(re, text, k);
        lemma_accepts_at_accepts(p, text, k);
    }
}

} // verus!
