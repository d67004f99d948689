//! Executing a program against text: the worklist search and its
//! mathematical meaning.
//!
//! A search state is a pair of an instruction index and a text offset.  The
//! meaning of a program on a text is the set of states reachable from
//! `(0, 0)` along legal steps; the program accepts at an offset when some
//! reachable state with that offset sits on an `Accept` instruction.

use vstd::prelude::*;

use crate::program::Inst;
use crate::program::SpecInst;
use crate::program::inst_targets_in;
use crate::program::inst_view;
use crate::program::prog_view;
use crate::program::wf_prog;
use vstd::set_lib::lemma_len_subset;

verus! {

broadcast use vstd::set::group_set_axioms;

/// A state that makes sense for `p` and `text`: the instruction index is in
/// the program and the offset is at most the text length.
pub open spec fn valid_state(p: Seq<SpecInst>, text: Seq<char>, s: (int, int)) -> bool {
    0 <= s.0 < p.len() && 0 <= s.1 <= text.len()
}

/// One legal step of execution from state `s` to state `t`: `Accept` has no
/// successor, a consuming instruction needs its character present at the
/// current offset, and a `Split` passes the offset to either branch.
pub open spec fn step_ok(p: Seq<SpecInst>, text: Seq<char>, s: (int, int), t: (int, int)) -> bool {
    valid_state(p, text, s) && valid_state(p, text, t) && match p[s.0] {
        SpecInst::Accept => false,
        SpecInst::MatchChar { c, next } => s.1 < text.len() && text[s.1] == c && t == (
            next,
            s.1 + 1,
        ),
        SpecInst::MatchAny { next } => s.1 < text.len() && t == (next, s.1 + 1),
        SpecInst::Split { a, b } => t.1 == s.1 && (t.0 == a || t.0 == b),
    }
}

/// An execution path: starts at `(0, 0)` and moves by legal steps only.
pub open spec fn is_path(p: Seq<SpecInst>, text: Seq<char>, path: Seq<(int, int)>) -> bool {
    &&& path.len() >= 1
    &&& path[0] == (0int, 0int)
    &&& valid_state(p, text, path[0])
    &&& forall|k: int|
        0 <= k < path.len() - 1 ==> step_ok(p, text, #[trigger] path[k], path[k + 1])
}

/// Whether state `s` sits on an `Accept` instruction.
pub open spec fn at_accept(p: Seq<SpecInst>, s: (int, int)) -> bool {
    p[s.0] is Accept
}

/// Whether some execution path from `(0, 0)` ends in state `s`.
spec fn reachable(p: Seq<SpecInst>, text: Seq<char>, s: (int, int)) -> bool {
    exists|path: Seq<(int, int)>| #[trigger] is_path(p, text, path) && path.last() == s
}

/// The program accepts the text when some path reaches `Accept`.  The text
/// need not be consumed entirely: acceptance at offset `k` means the first
/// `k` characters form a match.
pub open spec fn accepts(p: Seq<SpecInst>, text: Seq<char>) -> bool {
    exists|path: Seq<(int, int)>| #[trigger] is_path(p, text, path) && at_accept(p, path.last())
}

/// The program accepts the text at offset `off` in particular.
pub open spec fn accepts_at(p: Seq<SpecInst>, text: Seq<char>, off: int) -> bool {
    exists|path: Seq<(int, int)>|
        #[trigger] is_path(p, text, path) && at_accept(p, path.last()) && path.last().1 == off
}

/// Accepting at some offset is accepting.
pub proof fn lemma_accepts_at_accepts(p: Seq<SpecInst>, text: Seq<char>, off: int)
    requires
        accepts_at(p, text, off),
    ensures
        accepts(p, text),
{
    let path = choose|path: Seq<(int, int)>|
        #[trigger] is_path(p, text, path) && at_accept(p, path.last()) && path.last().1 == off;
    assert(is_path(p, text, path) && at_accept(p, path.last()));
}

/// The start state is reachable in any nonempty program.
proof fn lemma_reachable_init(p: Seq<SpecInst>, text: Seq<char>)
    requires
        p.len() >= 1,
    ensures
        reachable(p, text, (0int, 0int)),
{
    let path: Seq<(int, int)> = seq![(0int, 0int)];
    assert(is_path(p, text, path) && path.last() == (0int, 0int));
}

/// Reachability extends along a legal step.
proof fn lemma_reachable_step(p: Seq<SpecInst>, text: Seq<char>, s: (int, int), t: (int, int))
    requires
        reachable(p, text, s),
        step_ok(p, text, s, t),
    ensures
        reachable(p, text, t),
{
    let path = choose|path: Seq<(int, int)>| #[trigger] is_path(p, text, path) && path.last() == s;
    let path2 = path.push(t);
    assert forall|k: int| 0 <= k < path2.len() - 1 implies step_ok(
        p,
        text,
        #[trigger] path2[k],
        path2[k + 1],
    ) by {
        if k < path.len() - 1 {
            assert(path2[k] == path[k]);
            assert(path2[k + 1] == path[k + 1]);
        } else {
            assert(path2[k] == path[path.len() - 1]);
            assert(path2[k + 1] == t);
        }
    }
    assert(path2[0] == path[0]);
    assert(is_path(p, text, path2) && path2.last() == t);
}

/// A reachable state on `Accept` witnesses acceptance at its offset.
proof fn lemma_reachable_accept(p: Seq<SpecInst>, text: Seq<char>, s: (int, int))
    requires
        reachable(p, text, s),
        at_accept(p, s),
    ensures
        accepts_at(p, text, s.1),
{
    let path = choose|path: Seq<(int, int)>| #[trigger] is_path(p, text, path) && path.last() == s;
    assert(is_path(p, text, path) && at_accept(p, path.last()) && path.last().1 == s.1);
}

/// Whether every legal successor of `s` lies in `vs`.
spec fn successors_in(
    p: Seq<SpecInst>,
    text: Seq<char>,
    vs: Set<(int, int)>,
    s: (int, int),
) -> bool {
    forall|t: (int, int)| #[trigger] step_ok(p, text, s, t) ==> vs.contains(t)
}

/// Every state of a path stays inside a set that contains the start and is
/// closed under legal steps.
proof fn lemma_path_stays(
    p: Seq<SpecInst>,
    text: Seq<char>,
    vs: Set<(int, int)>,
    path: Seq<(int, int)>,
    k: int,
)
    requires
        is_path(p, text, path),
        vs.contains((0int, 0int)),
        forall|s: (int, int)| #[trigger] vs.contains(s) ==> successors_in(p, text, vs, s),
        0 <= k < path.len(),
    ensures
        vs.contains(path[k]),
    decreases k,
{
    if k == 0 {
        assert(path[0] == (0int, 0int));
    } else {
        lemma_path_stays(p, text, vs, path, k - 1);
        assert(step_ok(p, text, path[k - 1], path[k]));
    }
}

/// A set of states that contains the start, is closed under legal steps,
/// and holds no `Accept` state rules out acceptance altogether.
proof fn lemma_closed_set_rejects(p: Seq<SpecInst>, text: Seq<char>, vs: Set<(int, int)>)
    requires
        vs.contains((0int, 0int)),
        forall|s: (int, int)| #[trigger] vs.contains(s) ==> successors_in(p, text, vs, s),
        forall|s: (int, int)| #[trigger] vs.contains(s) ==> !at_accept(p, s),
    ensures
        !accepts(p, text),
{
    if accepts(p, text) {
        let path = choose|path: Seq<(int, int)>|
            #[trigger] is_path(p, text, path) && at_accept(p, path.last());
        lemma_path_stays(p, text, vs, path, path.len() - 1);
        assert(vs.contains(path.last()));
        assert(false);
    }
}

/// All states with index below `n` and offset below `m`.
spec fn state_space(n: int, m: int) -> Set<(int, int)> {
    Set::new(|s: (int, int)| 0 <= s.0 < n && 0 <= s.1 < m)
}

/// The states of one instruction index with offset below `m`.
spec fn state_row(i: int, m: int) -> Set<(int, int)> {
    Set::new(|s: (int, int)| s.0 == i && 0 <= s.1 < m)
}

proof fn lemma_state_row_finite(i: int, m: int)
    ensures
        state_row(i, m).finite(),
    decreases (if m >= 0 { m } else { 0 }),
{
    if m <= 0 {
        assert(state_row(i, m) =~= Set::<(int, int)>::empty());
    } else {
        lemma_state_row_finite(i, m - 1);
        assert(state_row(i, m) =~= state_row(i, m - 1).insert((i, m - 1)));
    }
}

/// The state space of a program of `n` instructions on a text of `m - 1`
/// characters is finite; this bounds the work of any search.
proof fn lemma_state_space_finite(n: int, m: int)
    ensures
        state_space(n, m).finite(),
    decreases (if n >= 0 { n } else { 0 }),
{
    if n <= 0 {
        assert(state_space(n, m) =~= Set::<(int, int)>::empty());
    } else {
        lemma_state_space_finite(n - 1, m);
        lemma_state_row_finite(n - 1, m);
        assert(state_space(n, m) =~= state_space(n - 1, m).union(state_row(n - 1, m)));
    }
}


/// A worklist entry, read as a state.
spec fn lift_entry(e: (usize, usize)) -> (int, int) {
    (e.0 as int, e.1 as int)
}

/// Whether state `s` still sits somewhere on the worklist.
spec fn in_work(w: Seq<(usize, usize)>, s: (int, int)) -> bool {
    exists|k: int| 0 <= k < w.len() && lift_entry(#[trigger] w[k]) == s
}

/// A fully handled state: it is no `Accept`, and all its successors have
/// been recorded in `vs`.
spec fn expanded(
    p: Seq<SpecInst>,
    text: Seq<char>,
    vs: Set<(int, int)>,
    s: (int, int),
) -> bool {
    !at_accept(p, s) && successors_in(p, text, vs, s)
}

/// One cell of the visited grid.
spec fn grid_at(g: Seq<Vec<bool>>, i: int, j: int) -> bool {
    g[i]@[j]
}

/// The visited grid has `n` rows of `m` cells each.
spec fn grid_ok(g: Seq<Vec<bool>>, n: int, m: int) -> bool {
    g.len() == n && forall|i: int| 0 <= i < n ==> (#[trigger] g[i])@.len() == m
}

/// The visited grid records exactly the states of `vs`.
spec fn grid_matches(g: Seq<Vec<bool>>, vs: Set<(int, int)>, n: int, m: int) -> bool {
    forall|i: int, j: int|
        0 <= i < n && 0 <= j < m ==> (#[trigger] grid_at(g, i, j) <==> vs.contains((i, j)))
}

/// Records state `(ti, to)` as visited: marks its grid cell and queues it,
/// unless the cell shows it was visited before.  Returns the updated
/// visited-state set.
fn record_visit(
    work: &mut Vec<(usize, usize)>,
    visited: &mut Vec<Vec<bool>>,
    ti: usize,
    to: usize,
    Ghost(vs): Ghost<Set<(int, int)>>,
    Ghost(n): Ghost<int>,
    Ghost(m): Ghost<int>,
) -> (r: Ghost<Set<(int, int)>>)
    requires
        grid_ok(old(visited)@, n, m),
        grid_matches(old(visited)@, vs, n, m),
        ti < n,
        to < m,
    ensures
        grid_ok(final(visited)@, n, m),
        grid_matches(final(visited)@, r@, n, m),
        r@.contains((ti as int, to as int)),
        forall|s: (int, int)|
            #[trigger] r@.contains(s) <==> (vs.contains(s) || s == (ti as int, to as int)),
        vs.contains((ti as int, to as int)) ==> r@ == vs && final(work)@ == old(work)@,
        !vs.contains((ti as int, to as int)) ==> r@ == vs.insert((ti as int, to as int))
            && final(work)@ == old(work)@.push((ti, to)),
        vs.finite() ==> r@.finite() && vs.len() <= r@.len(),
        vs.finite() && !vs.contains((ti as int, to as int)) ==> r@.len() == vs.len() + 1,
{
    proof {
        assert(grid_at(visited@, ti as int, to as int) <==> vs.contains((ti as int, to as int)));
    }
    let already = visited[ti][to];
    if already {
        Ghost(vs)
    } else {
        let ghost g0 = visited@;
        visited[ti][to] = true;
        work.push((ti, to));
        let ghost vs2 = vs.insert((ti as int, to as int));
        proof {
            if vs.finite() {
                vstd::set::axiom_set_insert_len(vs, (ti as int, to as int));
            }
            assert(visited@[ti as int]@ =~= g0[ti as int]@.update(to as int, true));
            assert forall|i: int, j: int| 0 <= i < n && 0 <= j < m implies (#[trigger] grid_at(
                visited@,
                i,
                j,
            ) <==> vs2.contains((i, j))) by {
                if i == ti as int {
                    if j == to as int {
                        assert(grid_at(visited@, i, j));
                    } else {
                        assert(grid_at(visited@, i, j) == grid_at(g0, i, j));
                    }
                } else {
                    assert(visited@[i] == g0[i]);
                    assert(grid_at(visited@, i, j) == grid_at(g0, i, j));
                }
            }
        }
        Ghost(vs2)
    }
}
/// Runs `prog` against `text` with a cycle-safe worklist search.
///
/// The worklist is seeded with `(0, 0)`.  No state is ever entered twice:
/// a visited grid, one cell per (instruction index, text offset) pair,
/// bounds the whole search by program length times text length plus one.
/// Returns the offset at which `Accept` was first reached along this
/// exploration order, or `None` when no execution path reaches `Accept`.
#[verifier::loop_isolation(false)]
#[verifier::rlimit(60)]
pub(crate) fn search_prog(prog: &Vec<Inst>, text: &str) -> (r: Option<usize>)
    requires
        wf_prog(prog_view(prog@)),
    ensures
        r matches Some(off) ==> off <= text@.len() && accepts_at(
            prog_view(prog@),
            text@,
            off as int,
        ),
        r is None ==> !accepts(prog_view(prog@), text@),
{
    let ghost pv = prog_view(prog@);
    let ghost txt = text@;
    let n = prog.len();
    let tlen = text.unicode_len();
    let ghost m = tlen as int + 1;

    let mut chars: Vec<char> = Vec::new();
    let mut idx: usize = 0;
    while idx < tlen
        invariant
            idx <= tlen,
            chars@ == txt.subrange(0, idx as int),
        decreases tlen - idx,
    {
        chars.push(text.get_char(idx));
        idx = idx + 1;
        proof {
            assert(chars@ =~= txt.subrange(0, idx as int));
        }
    }
    proof {
        assert(chars@ =~= txt);
    }

    let mut visited: Vec<Vec<bool>> = Vec::new();
    let mut gi: usize = 0;
    while gi < n
        invariant
            gi <= n,
            visited@.len() == gi,
            forall|i: int| 0 <= i < gi ==> (#[trigger] visited@[i])@.len() == m,
            forall|i: int, j: int| 0 <= i < gi && 0 <= j < m ==> !grid_at(visited@, i, j),
        decreases n - gi,
    {
        let mut row: Vec<bool> = Vec::new();
        let mut rj: usize = 0;
        while rj < tlen
            invariant
                rj <= tlen,
                row@.len() == rj,
                forall|j: int| 0 <= j < rj ==> !(#[trigger] row@[j]),
            decreases tlen - rj,
        {
            row.push(false);
            rj = rj + 1;
        }
        let ghost row_before = row@;
        row.push(false);
        proof {
            assert forall|j: int| 0 <= j < m implies !(#[trigger] row@[j]) by {
                if j < tlen {
                    assert(row@[j] == row_before[j]);
                }
            }
        }
        let ghost rowv = row@;
        let ghost vis_before = visited@;
        visited.push(row);
        gi = gi + 1;
        proof {
            assert forall|i: int, j: int| 0 <= i < gi && 0 <= j < m implies !grid_at(
                visited@,
                i,
                j,
            ) by {
                if i < gi - 1 {
                    assert(visited@[i] == vis_before[i]);
                    assert(!grid_at(vis_before, i, j));
                } else {
                    assert(visited@[i]@ == rowv);
                }
            }
        }
    }

    proof {
        lemma_state_space_finite(n as int, m);
        lemma_reachable_init(pv, txt);
    }
    let mut work: Vec<(usize, usize)> = Vec::new();
    work.push((0usize, 0usize));
    let ghost g0 = visited@;
    visited[0][0] = true;
    let ghost mut vs = Set::<(int, int)>::empty().insert((0int, 0int));
    proof {
        assert(visited@[0int]@ =~= g0[0int]@.update(0int, true));
        assert forall|i: int, j: int| 0 <= i < n && 0 <= j < m implies (#[trigger] grid_at(
            visited@,
            i,
            j,
        ) <==> vs.contains((i, j))) by {
            if i == 0 {
                if j == 0 {
                    assert(grid_at(visited@, i, j));
                } else {
                    assert(grid_at(visited@, i, j) == grid_at(g0, i, j));
                }
            } else {
                assert(visited@[i] == g0[i]);
                assert(grid_at(visited@, i, j) == grid_at(g0, i, j));
            }
        }
        assert(lift_entry(work@[0]) == (0int, 0int));
        assert(in_work(work@, (0int, 0int)));
    }

    while work.len() != 0
        invariant
            grid_ok(visited@, n as int, m),
            grid_matches(visited@, vs, n as int, m),
            vs.finite(),
            vs.contains((0int, 0int)),
            forall|s: (int, int)| #[trigger] vs.contains(s) ==> valid_state(pv, txt, s),
            forall|k: int| 0 <= k < work@.len() ==> vs.contains(lift_entry(#[trigger] work@[k])),
            forall|k: int|
                0 <= k < work@.len() ==> reachable(pv, txt, lift_entry(#[trigger] work@[k])),
            forall|s: (int, int)|
                #[trigger] vs.contains(s) ==> in_work(work@, s) || expanded(pv, txt, vs, s),
        decreases state_space(n as int, m).len() - vs.len(), work@.len(),
    {
        let ghost w0 = work@;
        let ghost vs0 = vs;
        let popped = work.pop();
        let (ci, co) = match popped {
            Some(pr) => pr,
            None => {
                proof {
                    assert(false);
                }
                (0usize, 0usize)
            },
        };
        let ghost s = (ci as int, co as int);
        proof {
            assert(lift_entry(w0[w0.len() - 1]) == s);
            assert(vs.contains(s));
            assert(reachable(pv, txt, s));
            assert(valid_state(pv, txt, s));
            assert(pv[s.0] == inst_view(prog@[s.0]));
        }
        let inst = prog[ci];
        match inst {
            Inst::Accept => {
                proof {
                    lemma_reachable_accept(pv, txt, s);
                }
                return Some(co);
            },
            Inst::MatchChar { c, next } => {
                proof {
                    assert(inst_targets_in(pv[s.0], 0, pv.len() - 1));
                }
                if co < chars.len() {
                    let ch = chars[co];
                    if ch == c {
                        let to2 = co + 1;
                        let ghost t = (next as int, to2 as int);
                        proof {
                            assert(step_ok(pv, txt, s, t));
                            lemma_reachable_step(pv, txt, s, t);
                        }
                        let r = record_visit(
                            &mut work,
                            &mut visited,
                            next,
                            to2,
                            Ghost(vs),
                            Ghost(n as int),
                            Ghost(m),
                        );
                        proof {
                            vs = r@;
                            assert forall|u: (int, int)| step_ok(pv, txt, s, u) implies vs.contains(
                                u,
                            ) by {
                                assert(u == t);
                            }
                            assert(expanded(pv, txt, vs, s));
                            if !vs0.contains(t) {
                                assert(lift_entry(work@[work@.len() - 1]) == t);
                                assert(in_work(work@, t));
                            }
                            assert forall|u: (int, int)|
                                vs.contains(u) && !vs0.contains(u) implies in_work(work@, u) by {
                                assert(u == t);
                            }
                        }
                    } else {
                        proof {
                            assert(expanded(pv, txt, vs, s));
                        }
                    }
                } else {
                    proof {
                        assert(expanded(pv, txt, vs, s));
                    }
                }
            },
            Inst::MatchAny { next } => {
                proof {
                    assert(inst_targets_in(pv[s.0], 0, pv.len() - 1));
                }
                if co < chars.len() {
                    let to2 = co + 1;
                    let ghost t = (next as int, to2 as int);
                    proof {
                        assert(step_ok(pv, txt, s, t));
                        lemma_reachable_step(pv, txt, s, t);
                    }
                    let r = record_visit(
                        &mut work,
                        &mut visited,
                        next,
                        to2,
                        Ghost(vs),
                        Ghost(n as int),
                        Ghost(m),
                    );
                    proof {
                        vs = r@;
                        assert forall|u: (int, int)| step_ok(pv, txt, s, u) implies vs.contains(
                            u,
                        ) by {
                            assert(u == t);
                        }
                        assert(expanded(pv, txt, vs, s));
                        if !vs0.contains(t) {
                            assert(lift_entry(work@[work@.len() - 1]) == t);
                            assert(in_work(work@, t));
                        }
                        assert forall|u: (int, int)|
                            vs.contains(u) && !vs0.contains(u) implies in_work(work@, u) by {
                            assert(u == t);
                        }
                    }
                } else {
                    proof {
                        assert(expanded(pv, txt, vs, s));
                    }
                }
            },
            Inst::Split { a, b } => {
                proof {
                    assert(inst_targets_in(pv[s.0], 0, pv.len() - 1));
                }
                let ghost ta = (a as int, co as int);
                let ghost tb = (b as int, co as int);
                proof {
                    assert(step_ok(pv, txt, s, ta));
                    assert(step_ok(pv, txt, s, tb));
                    lemma_reachable_step(pv, txt, s, ta);
                    lemma_reachable_step(pv, txt, s, tb);
                }
                let r1 = record_visit(
                    &mut work,
                    &mut visited,
                    a,
                    co,
                    Ghost(vs),
                    Ghost(n as int),
                    Ghost(m),
                );
                proof {
                    vs = r1@;
                }
                let ghost w1 = work@;
                let ghost vs1 = vs;
                let r2 = record_visit(
                    &mut work,
                    &mut visited,
                    b,
                    co,
                    Ghost(vs),
                    Ghost(n as int),
                    Ghost(m),
                );
                proof {
                    vs = r2@;
                    assert forall|u: (int, int)| step_ok(pv, txt, s, u) implies vs.contains(u) by {
                        assert(u == ta || u == tb);
                    }
                    assert(expanded(pv, txt, vs, s));
                    assert forall|u: (int, int)|
                        vs.contains(u) && !vs0.contains(u) implies in_work(work@, u) by {
                        if u == ta && !vs0.contains(ta) {
                            assert(w1[w1.len() - 1] == (a, co));
                            assert(work@[w1.len() - 1] == (a, co));
                            assert(lift_entry(work@[w1.len() - 1]) == ta);
                        } else {
                            assert(u == tb && !vs1.contains(tb));
                            assert(lift_entry(work@[work@.len() - 1]) == tb);
                        }
                    }
                }
            },
        }
        proof {
            assert forall|u: (int, int)| #[trigger] vs.contains(u) implies in_work(work@, u)
                || expanded(pv, txt, vs, u) by {
                if u == s {
                    assert(expanded(pv, txt, vs, s));
                } else if vs0.contains(u) {
                    if in_work(w0, u) {
                        let k = choose|k: int| 0 <= k < w0.len() && lift_entry(w0[k]) == u;
                        assert(k < w0.len() - 1);
                        assert(work@[k] == w0[k]);
                        assert(in_work(work@, u));
                    } else {
                        assert(expanded(pv, txt, vs0, u));
                        assert forall|t2: (int, int)| step_ok(pv, txt, u, t2) implies vs.contains(
                            t2,
                        ) by {
                            assert(vs0.contains(t2));
                        }
                        assert(expanded(pv, txt, vs, u));
                    }
                } else {
                    assert(vs.contains(u) && !vs0.contains(u));
                    assert(in_work(work@, u));
                }
            }
            assert forall|u: (int, int)| #[trigger] vs.contains(u) implies state_space(
                n as int,
                m,
            ).contains(u) by {
                assert(valid_state(pv, txt, u));
            }
            lemma_len_subset(vs, state_space(n as int, m));
        }
    }
    proof {
        assert(work@.len() == 0);
        assert forall|u: (int, int)| #[trigger] vs.contains(u) implies successors_in(
            pv,
            txt,
            vs,
            u,
        ) && !at_accept(pv, u) by {
            assert(!in_work(work@, u));
            assert(expanded(pv, txt, vs, u));
        }
        lemma_closed_set_rejects(pv, txt, vs);
    }
    None
}

} // verus!
