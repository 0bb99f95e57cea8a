//! Stripping wasted motion from a reveal plan.
//!
//! Two kinds of rewrite, each accepted only when the rewritten plan still
//! replays legally and still reveals (`plan_reveals`):
//!
//! 1. **Contiguous collapse.** A short block of moves that ends where it
//!    started drops out; if a single legal move reaches the block's end
//!    position, that move replaces the whole block.
//! 2. **Inverse-pair cancel.** A card sent out and later brought straight
//!    back: both moves drop out.
//!
//! Each accepted rewrite strictly shortens the plan, so the process reaches a
//! plan that neither rewrite can shorten.
use vstd::prelude::*;
use crate::board::{Board, BoardState, Move, replay, legal_plan, lemma_moves_can_make};
use crate::advisor::{reveals, spliced, splice, plan_reveals, prefix_boards};

verus! {

/// How far apart the ends of a collapsible contiguous block may be.
pub const WINDOW: usize = 6;

/// The first move of `ms`, from index `k` on, that takes `b` to a board with
/// hash `target`.
pub open spec fn first_reaching(b: BoardState, ms: Seq<Move>, target: u64, k: int) -> Option<Move>
    decreases ms.len() - k,
{
    if k < 0 || k >= ms.len() {
        None
    } else if b.after(ms[k]).hash() == target {
        Some(ms[k])
    } else {
        first_reaching(b, ms, target, k + 1)
    }
}

#[verifier::opaque]
/// What the block `i..=j` of plan `p` offers in its place: nothing if the
/// block comes back to the board it started from; otherwise the first listed
/// move from the block's start that reaches the block's end, if there is one.
pub open spec fn collapse_candidate(start: BoardState, p: Seq<Move>, i: int, j: int) -> Option<Seq<Move>> {
    let bi = replay(start, p.take(i));
    let target = replay(start, p.take(j + 1)).hash();
    if target == bi.hash() {
        Some(spliced(p, i, j, None))
    } else {
        match first_reaching(bi, bi.moves(), target, 0) {
            Some(m) => Some(spliced(p, i, j, Some(m))),
            None => None,
        }
    }
}

/// A rewrite is accepted when there is one and it still reveals.
#[verifier::opaque]
pub open spec fn accepted(start: BoardState, c: Option<Seq<Move>>) -> bool {
    c matches Some(q) && reveals(start, q)
}

/// No block of the plan within the window can be collapsed.
pub open spec fn collapse_fixed(start: BoardState, p: Seq<Move>) -> bool {
    forall|i: int, j: int|
        0 <= i < j < p.len() && j < i + WINDOW ==> !accepted(start, #[trigger] collapse_candidate(start, p, i, j))
}

/// `b` sends back exactly the cards `a` moved: same count, reversed columns.
pub open spec fn inverse_pair(a: Move, b: Move) -> bool {
    match (a, b) {
        (Move::Tableau { from: fi, to: ti, count: ci }, Move::Tableau { from: fj, to: tj, count: cj }) => {
            fj == ti && tj == fi && cj == ci
        },
        _ => false,
    }
}

/// The plan without its moves `i` and `j` (`i < j`).
pub open spec fn without_pair(p: Seq<Move>, i: int, j: int) -> Seq<Move> {
    p.take(i) + p.subrange(i + 1, j) + p.skip(j + 1)
}

/// No inverse pair of the plan can be cancelled.
pub open spec fn cancel_fixed(start: BoardState, p: Seq<Move>) -> bool {
    forall|i: int, j: int|
        0 <= i < j < p.len() && inverse_pair(p[i], p[j]) ==> !reveals(start, #[trigger] without_pair(p, i, j))
}

/// Neither rewrite can shorten the plan any further.
pub open spec fn simplified(start: BoardState, p: Seq<Move>) -> bool {
    collapse_fixed(start, p) && cancel_fixed(start, p)
}

/// Where the blocks that start at move `i` of an `n`-move plan stop: the last
/// move of a block lies before this index.
pub open spec fn window_end(n: int, i: int) -> int {
    if n - i > WINDOW { i + WINDOW } else { n }
}

/// The first accepted contiguous collapse of `p`, scanning blocks by their
/// first move `i`, then by their last move `j`, from block `(i, j)` on.
pub open spec fn collapse_scan(start: BoardState, p: Seq<Move>, i: int, j: int) -> Option<Seq<Move>>
    decreases p.len() - i, window_end(p.len() as int, i) - j,
{
    if i < 0 || i >= p.len() {
        None
    } else if j >= window_end(p.len() as int, i) {
        collapse_scan(start, p, i + 1, i + 2)
    } else if accepted(start, collapse_candidate(start, p, i, j)) {
        collapse_candidate(start, p, i, j)
    } else {
        collapse_scan(start, p, i, j + 1)
    }
}

/// The first inverse pair `(i, j)` of `p`, in the same scanning order, whose
/// removal still reveals; the plan without it.
pub open spec fn cancel_scan(start: BoardState, p: Seq<Move>, i: int, j: int) -> Option<Seq<Move>>
    decreases p.len() - i, p.len() - j,
{
    if i < 0 || i >= p.len() {
        None
    } else if j >= p.len() {
        cancel_scan(start, p, i + 1, i + 2)
    } else if inverse_pair(p[i], p[j]) && reveals(start, without_pair(p, i, j)) {
        Some(without_pair(p, i, j))
    } else {
        cancel_scan(start, p, i, j + 1)
    }
}

/// One round of simplification: the first accepted collapse if there is one,
/// else the first accepted cancel.
pub open spec fn simplify_step(start: BoardState, p: Seq<Move>) -> Option<Seq<Move>> {
    match collapse_scan(start, p, 0, 1) {
        Some(q) => Some(q),
        None => cancel_scan(start, p, 0, 1),
    }
}

/// The plan that repeated rounds of simplification reach from `p`.
pub open spec fn simplified_from(start: BoardState, p: Seq<Move>) -> Seq<Move>
    decreases p.len(),
{
    match simplify_step(start, p) {
        Some(q) => if q.len() < p.len() { simplified_from(start, q) } else { p },
        None => p,
    }
}

/// A move that is not a tableau move has no inverse partner, so the cancel
/// scan passes over it.
proof fn lemma_cancel_skip(start: BoardState, p: Seq<Move>, i: int, j: int)
    requires
        0 <= i < p.len(),
        !(p[i] is Tableau),
    ensures
        cancel_scan(start, p, i, j) == cancel_scan(start, p, i + 1, i + 2),
    decreases p.len() - j,
{
    if j < p.len() {
        assert(!inverse_pair(p[i], p[j]));
        lemma_cancel_skip(start, p, i, j + 1);
    }
}

/// The first move of `ms` from `b` that reaches a board with hash `target`.
fn first_reaching_move(b: &Board, ms: &Vec<Move>, target: u64) -> (r: Option<Move>)
    requires
        b@.wf(),
        forall|i: int| 0 <= i < ms@.len() ==> b@.can_make(#[trigger] ms@[i]),
    ensures
        r == first_reaching(b@, ms@, target, 0),
{
    let mut k: usize = 0;
    while k < ms.len()
        invariant
            b@.wf(),
            forall|i: int| 0 <= i < ms@.len() ==> b@.can_make(#[trigger] ms@[i]),
            k <= ms@.len(),
            first_reaching(b@, ms@, target, 0) == first_reaching(b@, ms@, target, k as int),
        decreases ms@.len() - k,
    {
        let m = ms[k];
        assert(b@.can_make(ms@[k as int]));
        let mut c = b.clone();
        c.make(m);
        if c.hash() == target {
            return Some(m);
        }
        k = k + 1;
    }
    None
}

/// The rewrite that the block `i..=j` of `plan` offers (see
/// `collapse_candidate`). `bi` and `bend` are the boards before and after the
/// block; the moves listed at `bi` are generated once, on first need.
fn collapse_at(
    start: &Board,
    plan: &Vec<Move>,
    bi: &Board,
    bend: &Board,
    i: usize,
    j: usize,
    from_i: &mut Vec<Move>,
    generated: &mut bool,
) -> (c: Option<Vec<Move>>)
    requires
        bi@.wf(),
        i < j < plan@.len(),
        bi@ == replay(start@, plan@.take(i as int)),
        bend@ == replay(start@, plan@.take(j + 1)),
        *old(generated) ==> old(from_i)@ == bi@.moves(),
        !*old(generated) ==> old(from_i)@.len() == 0,
    ensures
        *final(generated) ==> final(from_i)@ == bi@.moves(),
        !*final(generated) ==> final(from_i)@.len() == 0,
        c matches Some(q) ==> collapse_candidate(start@, plan@, i as int, j as int) == Some(q@),
        c is None ==> collapse_candidate(start@, plan@, i as int, j as int) is None,
{
    proof {
        reveal(collapse_candidate);
    }
    let target = bend.hash();
    if target == bi.hash() {
        // The block returns to where it began: a wasted cycle.
        return Some(splice(plan, i, j, None));
    }
    if !*generated {
        bi.gen_moves(from_i);
        *generated = true;
        assert(from_i@ =~= bi@.moves());
    }
    proof {
        lemma_moves_can_make(bi@);
    }
    // A single move that reaches the block's end position replaces it.
    match first_reaching_move(bi, from_i, target) {
        Some(m) => Some(splice(plan, i, j, Some(m))),
        None => None,
    }
}

/// The first accepted contiguous collapse of `plan`, scanning blocks by their
/// first move, then by their last.
#[verifier::rlimit(60)]
fn collapse_step(start: &Board, plan: &Vec<Move>) -> (r: Option<Vec<Move>>)
    requires
        start@.wf(),
        legal_plan(start@, plan@),
    ensures
        r matches Some(q) ==> reveals(start@, q@) && q@.len() < plan@.len(),
        r matches Some(q) ==> collapse_scan(start@, plan@, 0, 1) == Some(q@),
        r is None ==> collapse_scan(start@, plan@, 0, 1) is None,
        r is None <==> collapse_fixed(start@, plan@),
{
    let ghost s = start@;
    let ghost p = plan@;
    let boards = prefix_boards(start, plan);
    let n = plan.len();
    let mut i: usize = 0;
    while i < n
        invariant
            s == start@,
            p == plan@,
            n == p.len(),
            s.wf(),
            boards@.len() == n + 1,
            forall|t: int| 0 <= t <= n ==> (#[trigger] boards@[t])@ == replay(s, p.take(t)),
            forall|t: int| 0 <= t <= n ==> (#[trigger] boards@[t])@.wf(),
            i <= n,
            forall|a: int, c: int|
                0 <= a < i && a < c < n && c < a + WINDOW ==> !accepted(s, #[trigger] collapse_candidate(s, p, a, c)),
            collapse_scan(s, p, 0, 1) == collapse_scan(s, p, i as int, i + 1),
        decreases n - i,
    {
        let end = if n - i > WINDOW { i + WINDOW } else { n };
        let mut from_i: Vec<Move> = Vec::new();
        let mut generated = false;
        let mut j = i + 1;
        while j < end
            invariant
                s == start@,
                p == plan@,
                n == p.len(),
                s.wf(),
                boards@.len() == n + 1,
                forall|t: int| 0 <= t <= n ==> (#[trigger] boards@[t])@ == replay(s, p.take(t)),
                forall|t: int| 0 <= t <= n ==> (#[trigger] boards@[t])@.wf(),
                i < n,
                end <= n,
                end == i + WINDOW || end == n,
                end <= i + WINDOW,
                i + 1 <= j,
                generated ==> from_i@ == boards@[i as int]@.moves(),
                !generated ==> from_i@.len() == 0,
                forall|a: int, c: int|
                    0 <= a < i && a < c < n && c < a + WINDOW ==> !accepted(s, #[trigger] collapse_candidate(s, p, a, c)),
                forall|c: int| i < c < j && c < n && c < i + WINDOW ==> !accepted(s, #[trigger] collapse_candidate(s, p, i as int, c)),
                end == window_end(n as int, i as int),
                collapse_scan(s, p, 0, 1) == collapse_scan(s, p, i as int, j as int),
            decreases end - j,
        {
            let ghost bi = boards@[i as int]@;
            let ghost bend = boards@[j + 1]@;
            assert(bi == replay(s, p.take(i as int)));
            assert(bend == replay(s, p.take(j + 1)));
            let candidate = collapse_at(start, plan, &boards[i], &boards[j + 1], i, j, &mut from_i, &mut generated);
            if let Some(next) = candidate {
                if plan_reveals(start, &next) {
                    assert(accepted(s, collapse_candidate(s, p, i as int, j as int))) by {
                        reveal(accepted);
                    }
                    assert(next@.len() < p.len()) by {
                        reveal(collapse_candidate);
                    }
                    assert(!collapse_fixed(s, p));
                    return Some(next);
                }
            }
            assert(!accepted(s, collapse_candidate(s, p, i as int, j as int))) by {
                reveal(accepted);
            }
            j = j + 1;
        }
        assert(collapse_scan(s, p, i as int, j as int) == collapse_scan(s, p, i + 1, i + 2));
        i = i + 1;
    }
    None
}

/// `plan` without its moves `i` and `j`.
fn remove_pair(plan: &Vec<Move>, i: usize, j: usize) -> (out: Vec<Move>)
    requires
        i < j < plan@.len(),
    ensures
        out@ == without_pair(plan@, i as int, j as int),
{
    let n = plan.len();
    let mut out: Vec<Move> = Vec::new();
    let mut k: usize = 0;
    while k < i
        invariant
            i < j < n,
            n == plan@.len(),
            k <= i,
            out@ == plan@.take(k as int),
        decreases i - k,
    {
        out.push(plan[k]);
        k = k + 1;
        assert(out@ =~= plan@.take(k as int));
    }
    let ghost first = out@;
    k = i + 1;
    while k < j
        invariant
            i < j < n,
            n == plan@.len(),
            i + 1 <= k <= j,
            out@ == first + plan@.subrange(i + 1, k as int),
        decreases j - k,
    {
        out.push(plan[k]);
        k = k + 1;
        assert(out@ =~= first + plan@.subrange(i + 1, k as int));
    }
    let ghost second = out@;
    k = j + 1;
    while k < n
        invariant
            i < j < n,
            n == plan@.len(),
            j + 1 <= k <= n,
            out@ == second + plan@.subrange(j + 1, k as int),
        decreases n - k,
    {
        out.push(plan[k]);
        k = k + 1;
        assert(out@ =~= second + plan@.subrange(j + 1, k as int));
    }
    assert(plan@.subrange(j + 1, n as int) =~= plan@.skip(j + 1));
    out
}

/// The first accepted inverse-pair cancel of `plan`.
fn cancel_step(start: &Board, plan: &Vec<Move>) -> (r: Option<Vec<Move>>)
    requires
        start@.wf(),
    ensures
        r matches Some(q) ==> reveals(start@, q@) && q@.len() < plan@.len(),
        r matches Some(q) ==> cancel_scan(start@, plan@, 0, 1) == Some(q@),
        r is None ==> cancel_scan(start@, plan@, 0, 1) is None,
        r is None <==> cancel_fixed(start@, plan@),
{
    let ghost s = start@;
    let ghost p = plan@;
    let n = plan.len();
    let mut i: usize = 0;
    while i < n
        invariant
            s == start@,
            p == plan@,
            n == p.len(),
            s.wf(),
            i <= n,
            forall|a: int, c: int|
                0 <= a < i && a < c < n && inverse_pair(p[a], p[c]) ==> !reveals(s, #[trigger] without_pair(p, a, c)),
            cancel_scan(s, p, 0, 1) == cancel_scan(s, p, i as int, i + 1),
        decreases n - i,
    {
        if let Move::Tableau { from: fi, to: ti, count: ci } = plan[i] {
            let mut j = i + 1;
            while j < n
                invariant
                    s == start@,
                    p == plan@,
                    n == p.len(),
                    s.wf(),
                    i < n,
                    i + 1 <= j <= n,
                    p[i as int] == (Move::Tableau { from: fi, to: ti, count: ci }),
                    forall|a: int, c: int|
                        0 <= a < i && a < c < n && inverse_pair(p[a], p[c]) ==> !reveals(s, #[trigger] without_pair(p, a, c)),
                    forall|c: int| i < c < j && inverse_pair(p[i as int], p[c]) ==> !reveals(s, #[trigger] without_pair(p, i as int, c)),
                    cancel_scan(s, p, 0, 1) == cancel_scan(s, p, i as int, j as int),
                decreases n - j,
            {
                if let Move::Tableau { from: fj, to: tj, count: cj } = plan[j] {
                    // An inverse move sends the same number of cards straight back.
                    if fj == ti && tj == fi && cj == ci {
                        let next = remove_pair(plan, i, j);
                        if plan_reveals(start, &next) {
                            return Some(next);
                        }
                    }
                }
                j = j + 1;
            }
            assert(cancel_scan(s, p, i as int, j as int) == cancel_scan(s, p, i + 1, i + 2));
        } else {
            proof {
                lemma_cancel_skip(s, p, i as int, i + 1);
            }
        }
        i = i + 1;
    }
    None
}

/// Strip wasted motion from a reveal plan: repeat the contiguous collapse and
/// then the inverse-pair cancel until neither shortens the plan. Every accepted
/// rewrite is checked by replay (`plan_reveals`).
pub fn simplify_reveal_plan(start: &Board, plan: Vec<Move>) -> (r: Vec<Move>)
    requires
        start@.wf(),
        legal_plan(start@, plan@),
    ensures
        r@ == simplified_from(start@, plan@),
        r@ == plan@ || (reveals(start@, r@) && r@.len() < plan@.len()),
        legal_plan(start@, r@),
        simplified(start@, r@),
        simplified(start@, plan@) ==> r@ == plan@,
{
    let ghost orig = plan@;
    let mut plan = plan;
    loop
        invariant
            start@.wf(),
            legal_plan(start@, plan@),
            plan@ == orig || (reveals(start@, plan@) && plan@.len() < orig.len()),
            simplified(start@, orig) ==> plan@ == orig,
            simplified_from(start@, orig) == simplified_from(start@, plan@),
        ensures
            simplified_from(start@, orig) == plan@,
            legal_plan(start@, plan@),
            plan@ == orig || (reveals(start@, plan@) && plan@.len() < orig.len()),
            simplified(start@, orig) ==> plan@ == orig,
            simplified(start@, plan@),
        decreases plan@.len(),
    {
        if let Some(next) = collapse_step(start, &plan) {
            plan = next;
            continue;
        }
        if let Some(next) = cancel_step(start, &plan) {
            plan = next;
            continue;
        }
        break;
    }
    plan
}

} // verus!
