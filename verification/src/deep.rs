//! The deep reveal search: a depth-first dive that reaches reveals a
//! breadth-first search cannot afford, guided toward the buried unknowns.
use vstd::prelude::*;
use crate::board::{Board, BoardState, Move, Undo, replay, legal_plan, lemma_step_legal, lemma_legal_plan_push};
use crate::advisor::{
    made_progress, rev_run, capped, row_known, deals_planned, reveals, next_row_known, progress_key,
    is_committal, gen_moves_toward_reveal,
};
use crate::search::lemma_legal_prefix_wf;
use std::collections::HashSet;

verus! {

proof fn lemma_with_rank_sub(s: BoardState, t: Option<usize>, ms: Seq<Move>, v: int, n: int)
    requires
        0 <= n <= ms.len(),
    ensures
        forall|i: int| 0 <= i < s.with_rank(t, ms, v, n).len() ==> ms.contains(#[trigger] s.with_rank(t, ms, v, n)[i]),
    decreases n,
{
    if n > 0 {
        lemma_with_rank_sub(s, t, ms, v, n - 1);
        let a = s.with_rank(t, ms, v, n - 1);
        let b = if s.reveal_rank(t, ms[n - 1]) == v {
            seq![ms[n - 1]]
        } else {
            Seq::empty()
        };
        assert forall|i: int| 0 <= i < (a + b).len() implies ms.contains(#[trigger] (a + b)[i]) by {
            if i < a.len() {
                assert((a + b)[i] == a[i]);
            } else {
                assert((a + b)[i] == ms[n - 1]);
            }
        }
    }
}

proof fn lemma_ranks_down_to_sub(s: BoardState, t: Option<usize>, ms: Seq<Move>, v: int)
    ensures
        forall|i: int| 0 <= i < s.ranks_down_to(t, ms, v).len() ==> ms.contains(#[trigger] s.ranks_down_to(t, ms, v)[i]),
    decreases 6 - v,
{
    if v <= 5 {
        lemma_ranks_down_to_sub(s, t, ms, v + 1);
        lemma_with_rank_sub(s, t, ms, v, ms.len() as int);
        let a = s.ranks_down_to(t, ms, v + 1);
        let b = s.with_rank(t, ms, v, ms.len() as int);
        assert forall|i: int| 0 <= i < (a + b).len() implies ms.contains(#[trigger] (a + b)[i]) by {
            if i < a.len() {
                assert((a + b)[i] == a[i]);
            } else {
                assert((a + b)[i] == b[i - a.len()]);
            }
        }
    }
}

/// Every move the reveal ordering lists is one of the moves it was given.
pub proof fn lemma_toward_reveal_sub(s: BoardState, ms: Seq<Move>)
    ensures
        forall|i: int| 0 <= i < s.toward_reveal(ms).len() ==> ms.contains(#[trigger] s.toward_reveal(ms)[i]),
{
    lemma_ranks_down_to_sub(s, s.easiest_column(), ms, -4);
}

/// Every deal of the plan, the last one included, deals a fully known row.
pub open spec fn known_deals(s: BoardState, p: Seq<Move>) -> bool {
    forall|j: int| 0 <= j < p.len() && #[trigger] p[j] == Move::Deal ==> row_known(replay(s, p.take(j)))
}

/// The first move the deep search tries from `s` reveals at once, and the
/// search may take it: it either makes progress or one reversible move is
/// allowed.
pub open spec fn first_try_reveals(s: BoardState, max_reversible: u32) -> bool {
    let ord = s.toward_reveal(s.moves());
    &&& ord.len() > 0
    &&& s.after(ord[0]).exposed_unknowns() > 0
    &&& (max_reversible >= 1 || made_progress(s, s.after(ord[0])))
}

/// No nonempty prefix of `q` shorter than `q` itself already shows an unknown
/// card: the line stops at the first reveal.
pub open spec fn reveals_only_at_end(s: BoardState, q: Seq<Move>) -> bool {
    forall|j: int| 1 <= j < q.len() ==> (#[trigger] replay(s, q.take(j))).exposed_unknowns() == 0
}

/// The line the deep search dives along first: `n` times over, the first move
/// the reveal ordering lists on the board reached so far.
pub open spec fn dive_line(s: BoardState, n: nat) -> Seq<Move>
    decreases n,
{
    if n == 0 {
        Seq::empty()
    } else {
        let p = dive_line(s, (n - 1) as nat);
        let b = replay(s, p);
        p.push(b.toward_reveal(b.moves())[0])
    }
}

/// The board after `k` moves of the dive.
pub open spec fn dive_board(s: BoardState, k: nat) -> BoardState {
    replay(s, dive_line(s, k))
}

/// Step `k` of the dive is tried and taken: the ordering lists a move, and it
/// either makes progress or the reversible moves so far leave room for it.
pub open spec fn dive_step_taken(s: BoardState, k: nat, max_reversible: u32) -> bool {
    let b = dive_board(s, k);
    let ord = b.toward_reveal(b.moves());
    &&& ord.len() > 0
    &&& (made_progress(b, b.after(ord[0])) || rev_run(s, dive_line(s, k)) < max_reversible)
}

/// After step `k` the dive goes deeper: nothing shows yet, the step was no
/// deal onto unseen cards, the depth cap has room, and the board differs from
/// every board met earlier on the dive.
pub open spec fn dive_goes_on(s: BoardState, k: nat, depth_limit: usize) -> bool {
    &&& dive_board(s, k + 1).exposed_unknowns() == 0
    &&& (dive_line(s, k + 1)[k as int] == Move::Deal ==> row_known(dive_board(s, k)))
    &&& k + 1 < depth_limit
    &&& forall|j: nat| j <= k ==> (#[trigger] dive_board(s, j)).hash() != dive_board(s, k + 1).hash()
}

/// The dive reveals after exactly `n` moves.
pub open spec fn dive_reveals(s: BoardState, n: nat, max_reversible: u32, depth_limit: usize) -> bool {
    &&& n >= 1
    &&& forall|k: nat| k < n ==> #[trigger] dive_step_taken(s, k, max_reversible)
    &&& forall|k: nat| k + 1 < n ==> #[trigger] dive_goes_on(s, k, depth_limit)
    &&& dive_board(s, n).exposed_unknowns() > 0
}

/// Every board hash the dive has seen is that of one of its first `dk + 1`
/// boards.
#[verifier::opaque]
spec fn deep_seen(s: BoardState, visited: Set<u64>, dk: nat) -> bool {
    forall|h: u64| visited.contains(h) ==> exists|j: nat| j <= dk && (#[trigger] dive_board(s, j)).hash() == h
}

/// Any dive that reveals within the budget is longer than `dk` moves.
#[verifier::opaque]
spec fn deep_ahead(s: BoardState, max_reversible: u32, depth_limit: usize, node_limit: u64, dk: nat) -> bool {
    forall|n: nat| #[trigger] dive_reveals(s, n, max_reversible, depth_limit) && n <= node_limit ==> dk < n
}

/// No dive reveals within the budget.
#[verifier::opaque]
spec fn deep_none(s: BoardState, max_reversible: u32, depth_limit: usize, node_limit: u64) -> bool {
    forall|n: nat| !(#[trigger] dive_reveals(s, n, max_reversible, depth_limit) && n <= node_limit)
}

proof fn lemma_deep_start(s: BoardState, max_reversible: u32, depth_limit: usize, node_limit: u64)
    ensures
        deep_seen(s, set![s.hash()], 0),
        deep_ahead(s, max_reversible, depth_limit, node_limit, 0),
{
    reveal(deep_seen);
    reveal(deep_ahead);
    assert(dive_line(s, 0) =~= Seq::<Move>::empty());
    assert(dive_board(s, 0) == s);
}

/// The dive stops short: its step `dk` is not taken, or the budget is spent.
proof fn lemma_deep_stop(s: BoardState, max_reversible: u32, depth_limit: usize, node_limit: u64, dk: nat)
    requires
        deep_ahead(s, max_reversible, depth_limit, node_limit, dk),
        !dive_step_taken(s, dk, max_reversible) || dk + 1 > node_limit,
    ensures
        deep_none(s, max_reversible, depth_limit, node_limit),
{
    reveal(deep_ahead);
    reveal(deep_none);
    assert forall|n: nat| !(#[trigger] dive_reveals(s, n, max_reversible, depth_limit) && n <= node_limit) by {
        if dive_reveals(s, n, max_reversible, depth_limit) && n <= node_limit {
            assert(dive_step_taken(s, dk, max_reversible));
        }
    }
}

/// The dive's next board reveals: that is where every revealing dive ends.
proof fn lemma_deep_found(s: BoardState, max_reversible: u32, depth_limit: usize, node_limit: u64, dk: nat, n: nat)
    requires
        deep_ahead(s, max_reversible, depth_limit, node_limit, dk),
        dive_board(s, dk + 1).exposed_unknowns() > 0,
        dive_reveals(s, n, max_reversible, depth_limit),
        n <= node_limit,
    ensures
        n == dk + 1,
{
    reveal(deep_ahead);
    if n > dk + 1 {
        assert(dive_goes_on(s, dk, depth_limit));
    }
}

/// The dive's next board shows nothing: revealing dives go deeper still.
proof fn lemma_deep_next(s: BoardState, max_reversible: u32, depth_limit: usize, node_limit: u64, dk: nat)
    requires
        deep_ahead(s, max_reversible, depth_limit, node_limit, dk),
        dive_board(s, dk + 1).exposed_unknowns() == 0,
    ensures
        deep_ahead(s, max_reversible, depth_limit, node_limit, dk + 1),
{
    reveal(deep_ahead);
    assert forall|n: nat| #[trigger] dive_reveals(s, n, max_reversible, depth_limit) && n <= node_limit implies dk + 1 < n by {
        if n == dk + 1 {
            assert(dive_board(s, n).exposed_unknowns() > 0);
        }
    }
}

/// The dive goes one board deeper.
proof fn lemma_deep_seen_push(s: BoardState, visited: Set<u64>, dk: nat)
    requires
        deep_seen(s, visited, dk),
    ensures
        deep_seen(s, visited.insert(dive_board(s, dk + 1).hash()), dk + 1),
{
    reveal(deep_seen);
    let v = visited.insert(dive_board(s, dk + 1).hash());
    assert forall|h: u64| v.contains(h) implies exists|j: nat| j <= dk + 1 && (#[trigger] dive_board(s, j)).hash() == h by {
        if h == dive_board(s, dk + 1).hash() {
            assert(dive_board(s, dk + 1).hash() == h);
        } else {
            assert(visited.contains(h));
        }
    }
}

/// The dive cannot go deeper (a deal onto unseen cards, the depth cap, or a
/// board seen before): no dive reveals within the budget.
proof fn lemma_deep_blocked(s: BoardState, visited: Set<u64>, max_reversible: u32, depth_limit: usize, node_limit: u64, dk: nat)
    requires
        deep_ahead(s, max_reversible, depth_limit, node_limit, dk + 1),
        deep_seen(s, visited, dk),
        !((dive_line(s, dk + 1)[dk as int] == Move::Deal ==> row_known(dive_board(s, dk))) && dk + 1 < depth_limit
            && !visited.contains(dive_board(s, dk + 1).hash())),
    ensures
        deep_none(s, max_reversible, depth_limit, node_limit),
{
    reveal(deep_ahead);
    reveal(deep_seen);
    reveal(deep_none);
    assert forall|n: nat| !(#[trigger] dive_reveals(s, n, max_reversible, depth_limit) && n <= node_limit) by {
        if dive_reveals(s, n, max_reversible, depth_limit) && n <= node_limit {
            assert(dive_goes_on(s, dk, depth_limit));
            if visited.contains(dive_board(s, dk + 1).hash()) {
                let j = choose|j: nat| j <= dk && (#[trigger] dive_board(s, j)).hash() == dive_board(s, dk + 1).hash();
                assert(dive_board(s, j).hash() != dive_board(s, dk + 1).hash());
            }
        }
    }
}

proof fn lemma_deep_none_use(s: BoardState, max_reversible: u32, depth_limit: usize, node_limit: u64)
    requires
        deep_none(s, max_reversible, depth_limit, node_limit),
    ensures
        forall|n: nat| !(#[trigger] dive_reveals(s, n, max_reversible, depth_limit) && n <= node_limit),
{
    reveal(deep_none);
}

/// The search, trying move `m` first from `s`, finds nothing there: the cap
/// of reversible moves stops it, or the board after it shows no unknown card.
pub open spec fn root_move_quiet(s: BoardState, m: Move, max_reversible: u32) -> bool {
    (!made_progress(s, s.after(m)) && max_reversible == 0) || s.after(m).exposed_unknowns() == 0
}

/// The first `n` moves of `ms` are quiet from `s`.
#[verifier::opaque]
spec fn root_quiet_upto(s: BoardState, ms: Seq<Move>, n: int, max_reversible: u32) -> bool {
    forall|j: int| 0 <= j < n ==> #[trigger] root_move_quiet(s, ms[j], max_reversible)
}

proof fn lemma_root_quiet_next(s: BoardState, ms: Seq<Move>, n: int, max_reversible: u32)
    requires
        root_quiet_upto(s, ms, n, max_reversible),
        0 <= n < ms.len(),
        root_move_quiet(s, ms[n], max_reversible),
    ensures
        root_quiet_upto(s, ms, n + 1, max_reversible),
{
    reveal(root_quiet_upto);
}

proof fn lemma_root_quiet_zero(s: BoardState, ms: Seq<Move>, max_reversible: u32)
    ensures
        root_quiet_upto(s, ms, 0, max_reversible),
{
    reveal(root_quiet_upto);
}

proof fn lemma_root_quiet_all(s: BoardState, ms: Seq<Move>, n: int, max_reversible: u32)
    requires
        root_quiet_upto(s, ms, n, max_reversible),
        n >= ms.len(),
    ensures
        root_quiet_upto(s, ms, ms.len() as int, max_reversible),
{
    reveal(root_quiet_upto);
}

/// The search's line starts with root move `i`, and every root move before it
/// is quiet.
proof fn lemma_root_first(s: BoardState, ord: Seq<Move>, n: int, i: int, first: Move, max_reversible: u32)
    requires
        root_quiet_upto(s, ord, n, max_reversible),
        0 <= i <= n,
        i < ord.len(),
        ord[i] == first,
    ensures
        exists|k: int|
            0 <= k < ord.len() && #[trigger] ord[k] == first && forall|j: int| 0 <= j < k ==> #[trigger] root_move_quiet(s, ord[j], max_reversible),
{
    reveal(root_quiet_upto);
}

proof fn lemma_root_quiet_use(s: BoardState, ms: Seq<Move>, n: int, max_reversible: u32)
    requires
        root_quiet_upto(s, ms, n, max_reversible),
    ensures
        forall|j: int| 0 <= j < n ==> #[trigger] root_move_quiet(s, ms[j], max_reversible),
{
    reveal(root_quiet_upto);
}

/// A frame of the deep reveal search.
struct DeepFrame {
    moves: Vec<Move>,
    idx: usize,
    undo: Option<Undo>,
    via: Option<Move>,
    /// Consecutive reversible moves leading into this state.
    run: u32,
}

/// Frame `k` of the deep search over the current line `p`: it lists the
/// ordered moves of the board after `k` moves of `p`, knows how it got there
/// and how to go back.
spec fn deep_frame_ok(s: BoardState, p: Seq<Move>, f: DeepFrame, k: int) -> bool {
    let bk = replay(s, p.take(k));
    &&& f.moves@ == bk.toward_reveal(bk.moves())
    &&& f.idx <= f.moves@.len()
    &&& f.run == rev_run(s, p.take(k))
    &&& k == 0 ==> f.via is None && f.undo is None
    &&& k > 0 ==> f.via == Some(p[k - 1]) && (f.undo matches Some(u) && bk.undoes(u) && bk.unmake(u) == replay(
        s,
        p.take(k - 1),
    ))
}

/// Every frame of the stack fits the line `p`.
#[verifier::opaque]
spec fn frames_ok(s: BoardState, p: Seq<Move>, st: Seq<DeepFrame>) -> bool {
    forall|k: int| 0 <= k < st.len() ==> #[trigger] deep_frame_ok(s, p, st[k], k)
}

/// No nonempty prefix of the line `p` shows an unknown card.
#[verifier::opaque]
spec fn quiet_line(s: BoardState, p: Seq<Move>) -> bool {
    forall|j: int| 1 <= j <= p.len() ==> (#[trigger] replay(s, p.take(j))).exposed_unknowns() == 0
}

/// One frame moves on to its next move; the stack still fits the line.
proof fn lemma_frames_pick(s: BoardState, p: Seq<Move>, st0: Seq<DeepFrame>, st: Seq<DeepFrame>, t: int)
    requires
        frames_ok(s, p, st0),
        0 <= t < st0.len(),
        st.len() == st0.len(),
        forall|k: int| 0 <= k < st.len() && k != t ==> st[k] == st0[k],
        st[t].moves@ == st0[t].moves@,
        st[t].idx <= st[t].moves@.len(),
        st[t].run == st0[t].run,
        st[t].via == st0[t].via,
        st[t].undo == st0[t].undo,
    ensures
        frames_ok(s, p, st),
{
    reveal(frames_ok);
    assert forall|k: int| 0 <= k < st.len() implies #[trigger] deep_frame_ok(s, p, st[k], k) by {
        assert(deep_frame_ok(s, p, st0[k], k));
    }
}

/// The top frame leaves the stack and the line loses its last move.
#[verifier::spinoff_prover]
#[verifier::rlimit(60)]
proof fn lemma_frames_pop(s: BoardState, p0: Seq<Move>, st0: Seq<DeepFrame>)
    requires
        frames_ok(s, p0, st0),
        quiet_line(s, p0),
        p0.len() >= 1,
        st0.len() == p0.len() + 1,
    ensures
        frames_ok(s, p0.drop_last(), st0.drop_last()),
        quiet_line(s, p0.drop_last()),
{
    reveal(frames_ok);
    reveal(quiet_line);
    let p = p0.drop_last();
    let st = st0.drop_last();
    assert forall|j: int| 1 <= j <= p.len() implies (#[trigger] replay(s, p.take(j))).exposed_unknowns() == 0 by {
        assert(p.take(j) =~= p0.take(j));
    }
    assert forall|k: int| 0 <= k < st.len() implies #[trigger] deep_frame_ok(s, p, st[k], k) by {
        assert(deep_frame_ok(s, p0, st0[k], k));
        assert(p.take(k) =~= p0.take(k));
        if k > 0 {
            assert(p.take(k - 1) =~= p0.take(k - 1));
            assert(p[k - 1] == p0[k - 1]);
        }
    }
}

/// A frame for the board after `m` joins the stack and `m` joins the line.
#[verifier::spinoff_prover]
#[verifier::rlimit(60)]
proof fn lemma_frames_push(s: BoardState, p0: Seq<Move>, st1: Seq<DeepFrame>, nf: DeepFrame, m: Move)
    requires
        frames_ok(s, p0, st1),
        quiet_line(s, p0),
        st1.len() == p0.len() + 1,
        replay(s, p0.push(m)).exposed_unknowns() == 0,
        deep_frame_ok(s, p0.push(m), nf, st1.len() as int),
    ensures
        frames_ok(s, p0.push(m), st1.push(nf)),
        quiet_line(s, p0.push(m)),
{
    reveal(frames_ok);
    reveal(quiet_line);
    let p = p0.push(m);
    let st = st1.push(nf);
    assert forall|j: int| 1 <= j <= p.len() implies (#[trigger] replay(s, p.take(j))).exposed_unknowns() == 0 by {
        if j <= p0.len() {
            assert(p.take(j) =~= p0.take(j));
        } else {
            assert(p.take(j) =~= p);
        }
    }
    assert forall|k: int| 0 <= k < st.len() implies #[trigger] deep_frame_ok(s, p, st[k], k) by {
        if k < st1.len() {
            assert(deep_frame_ok(s, p0, st1[k], k));
            assert(p.take(k) =~= p0.take(k));
            if k > 0 {
                assert(p.take(k - 1) =~= p0.take(k - 1));
                assert(p[k - 1] == p0[k - 1]);
            }
        }
    }
}

/// Moves left to try across the stack, plus one per frame.
spec fn stack_rem(st: Seq<DeepFrame>) -> nat
    decreases st.len(),
{
    if st.len() == 0 {
        0
    } else {
        stack_rem(st.drop_last()) + (if st.last().idx <= st.last().moves@.len() {
            (st.last().moves@.len() - st.last().idx) as nat
        } else {
            0
        }) + 1
    }
}

/// A shorter line keeps what held of the longer one.
#[verifier::spinoff_prover]
#[verifier::rlimit(60)]
proof fn lemma_line_prefix(s: BoardState, p: Seq<Move>, cap: nat)
    requires
        s.wf(),
        p.len() >= 1,
        legal_plan(s, p),
        capped(s, p, cap),
        known_deals(s, p),
    ensures
        legal_plan(s, p.drop_last()),
        replay(s, p.drop_last()).wf(),
        capped(s, p.drop_last(), cap),
        known_deals(s, p.drop_last()),
{
    let q = p.drop_last();
    assert(p.take(p.len() - 1) =~= q);
    lemma_legal_prefix_wf(s, p, p.len() - 1);
    assert forall|j: int| 0 <= j <= q.len() implies #[trigger] rev_run(s, q.take(j)) <= cap by {
        assert(q.take(j) =~= p.take(j));
    }
    assert forall|j: int| 0 <= j < q.len() && #[trigger] q[j] == Move::Deal implies row_known(replay(s, q.take(j))) by {
        assert(q.take(j) =~= p.take(j));
        assert(q[j] == p[j]);
    }
}

/// Extending the deep search's line by one move.
#[verifier::spinoff_prover]
#[verifier::rlimit(60)]
proof fn lemma_line_push(s: BoardState, p: Seq<Move>, m: Move, cap: nat)
    requires
        s.wf(),
        legal_plan(s, p),
        replay(s, p).moves().contains(m),
        capped(s, p, cap),
        known_deals(s, p),
        (if made_progress(replay(s, p), replay(s, p).after(m)) { 0 } else { rev_run(s, p) + 1 }) <= cap,
    ensures
        legal_plan(s, p.push(m)),
        replay(s, p.push(m)) == replay(s, p).after(m),
        rev_run(s, p.push(m)) == (if made_progress(replay(s, p), replay(s, p).after(m)) { 0 } else { rev_run(s, p) + 1 }),
        capped(s, p.push(m), cap),
        deals_planned(s, p.push(m)),
        (m == Move::Deal ==> row_known(replay(s, p))) ==> known_deals(s, p.push(m)),
        p.push(m).take(p.len() as int) == p,
        p.push(m).take(p.len() as int + 1) == p.push(m),
{
    let q = p.push(m);
    lemma_legal_plan_push(s, p, m);
    assert(q.drop_last() =~= p);
    assert(q.take(p.len() as int) =~= p);
    assert(q.take(p.len() as int + 1) =~= q);
    assert forall|j: int| 0 <= j <= q.len() implies #[trigger] rev_run(s, q.take(j)) <= cap by {
        if j <= p.len() {
            assert(q.take(j) =~= p.take(j));
        }
    }
    assert forall|j: int| 0 <= j < q.len() - 1 && #[trigger] q[j] == Move::Deal implies row_known(replay(s, q.take(j))) by {
        assert(q.take(j) =~= p.take(j));
        assert(q[j] == p[j]);
    }
    if m == Move::Deal ==> row_known(replay(s, p)) {
        assert forall|j: int| 0 <= j < q.len() && #[trigger] q[j] == Move::Deal implies row_known(replay(s, q.take(j))) by {
            if j < p.len() {
                assert(q.take(j) =~= p.take(j));
                assert(q[j] == p[j]);
            }
        }
    }
}

/// The line the stack has followed, then `m`.
fn line_then(stack: &Vec<DeepFrame>, m: Move, Ghost(s): Ghost<BoardState>, Ghost(p): Ghost<Seq<Move>>) -> (moves: Vec<Move>)
    requires
        stack@.len() == p.len() + 1,
        frames_ok(s, p, stack@),
        quiet_line(s, p),
    ensures
        moves@ == p.push(m),
        forall|j: int| 1 <= j < moves@.len() ==> (#[trigger] replay(s, moves@.take(j))).exposed_unknowns() == 0,
{
    let mut moves: Vec<Move> = Vec::new();
    let mut k: usize = 0;
    while k < stack.len()
        invariant
            stack@.len() == p.len() + 1,
            frames_ok(s, p, stack@),
            k <= stack@.len(),
            moves@ == p.take(if k == 0 { 0 } else { k - 1 }),
        decreases stack@.len() - k,
    {
        assert(deep_frame_ok(s, p, stack@[k as int], k as int)) by {
            reveal(frames_ok);
        }
        if let Some(v) = stack[k].via {
            assert(moves@.push(v) =~= p.take(k as int));
            moves.push(v);
        } else {
            assert(k == 0);
        }
        k = k + 1;
    }
    assert(p.take(p.len() as int) =~= p);
    moves.push(m);
    assert(moves@ == p.push(m));
    assert forall|j: int| 1 <= j < moves@.len() implies (#[trigger] replay(s, moves@.take(j))).exposed_unknowns() == 0 by {
        reveal(quiet_line);
        assert(moves@.take(j) =~= p.take(j));
    }
    moves
}

/// One depth-first pass: find the first line (up to `depth_limit` moves, at
/// most `max_reversible` reversible moves in a row) that reveals a card. Deals
/// are handled as in `search_reveals`, and moves are ordered to dig toward the
/// buried unknowns (see `gen_moves_toward_reveal`). Each board is explored
/// once. Returns the line, if any, and how many nodes it spent.
#[verifier::spinoff_prover]
#[verifier::rlimit(100)]
pub fn search_reveals_deep(start_board: &Board, node_limit: u64, depth_limit: usize, max_reversible: u32) -> (r: (
    Option<Vec<Move>>,
    u64,
))
    requires
        start_board@.wf(),
        node_limit < u64::MAX,
    ensures
        r.0 matches Some(p) ==> {
            &&& reveals(start_board@, p@)
            &&& capped(start_board@, p@, max_reversible as nat)
            &&& deals_planned(start_board@, p@)
            &&& 1 <= p@.len()
            &&& (p@.len() <= depth_limit || p@.len() == 1)
            &&& reveals_only_at_end(start_board@, p@)
        },
        r.1 <= node_limit + 1,
        first_try_reveals(start_board@, max_reversible) && node_limit >= 1 ==> (r.0 matches Some(p) && p@ == seq![
            start_board@.toward_reveal(start_board@.moves())[0],
        ]),
        forall|n: nat| #[trigger] dive_reveals(start_board@, n, max_reversible, depth_limit) && n <= node_limit ==> (r.0 matches Some(
            p,
        ) && p@ == dive_line(start_board@, n) && r.1 == n),
        r.0 is None && r.1 <= node_limit ==> forall|j: int| 0 <= j < start_board@.toward_reveal(start_board@.moves()).len()
            ==> #[trigger] root_move_quiet(start_board@, start_board@.toward_reveal(start_board@.moves())[j], max_reversible),
        r.0 matches Some(q) ==> exists|i: int|
            0 <= i < start_board@.toward_reveal(start_board@.moves()).len() && #[trigger] start_board@.toward_reveal(
                start_board@.moves(),
            )[i] == q@[0] && forall|j: int| 0 <= j < i ==> #[trigger] root_move_quiet(
                start_board@,
                start_board@.toward_reveal(start_board@.moves())[j],
                max_reversible,
            ),
{
    let start = start_board.clone();
    let ghost s = start@;
    let mut b = start.clone();
    let mut visited: HashSet<u64> = HashSet::new();
    visited.insert(b.hash());
    let mut stack: Vec<DeepFrame> = Vec::new();
    let mut first: Vec<Move> = Vec::new();
    gen_moves_toward_reveal(&b, &mut first);
    stack.push(DeepFrame { moves: first, idx: 0, undo: None, via: None, run: 0 });
    let mut nodes: u64 = 0;
    let ghost mut p: Seq<Move> = Seq::empty();
    proof {
        assert(p.take(0) =~= p);
        assert(Seq::<Move>::empty() + s.moves() =~= s.moves());
        assert(deep_frame_ok(s, p, stack@[0], 0));
        reveal(frames_ok);
        reveal(quiet_line);
    }
    let ghost mut at_first = true;
    let ghost ord0 = s.toward_reveal(s.moves());
    let ghost mut rq: int = 0;
    proof {
        lemma_root_quiet_zero(s, ord0, max_reversible);
    }
    let ghost mut diving = true;
    let ghost mut dk: nat = 0;
    proof {
        assert(dive_line(s, 0) =~= p);
        assert(visited@ =~= set![s.hash()]);
        assert(dive_board(s, 0) == s);
        lemma_deep_start(s, max_reversible, depth_limit, node_limit);
    }
    loop
        invariant_except_break
            nodes <= node_limit,
            root_quiet_upto(s, ord0, rq, max_reversible),
            stack@.len() > 0 ==> stack@[0].idx == rq,
            stack@.len() == 0 ==> rq == ord0.len(),
            stack@.len() >= 2 ==> 1 <= rq <= ord0.len() && p[0] == ord0[rq - 1],
        invariant
            ord0 == s.toward_reveal(s.moves()),
            s == start@,
            s == start_board@,
            s.wf(),
            node_limit < u64::MAX,
            nodes <= node_limit + 1,
            legal_plan(s, p),
            capped(s, p, max_reversible as nat),
            known_deals(s, p),
            b@ == replay(s, p),
            b@.wf(),
            quiet_line(s, p),
            stack@.len() == 0 || stack@.len() == p.len() + 1,
            stack@.len() == 0 ==> p.len() == 0,
            stack@.len() <= depth_limit || stack@.len() <= 1,
            frames_ok(s, p, stack@),
            at_first ==> stack@.len() == 1 && stack@[0].idx == 0 && nodes == 0,
            !at_first ==> !(first_try_reveals(s, max_reversible) && node_limit >= 1),
            diving ==> stack@.len() == dk + 1 && p == dive_line(s, dk) && nodes == dk && stack@[dk as int].idx == 0,
            diving ==> deep_seen(s, visited@, dk) && deep_ahead(s, max_reversible, depth_limit, node_limit, dk),
            !diving ==> deep_none(s, max_reversible, depth_limit, node_limit),
        ensures
            nodes <= node_limit ==> root_quiet_upto(s, ord0, ord0.len() as int, max_reversible),
            nodes <= node_limit + 1,
            !(first_try_reveals(s, max_reversible) && node_limit >= 1),
            deep_none(s, max_reversible, depth_limit, node_limit),
        decreases node_limit - nodes, stack_rem(stack@),
    {
        if stack.len() == 0 {
            break;
        }
        let t = stack.len() - 1;
        assert(deep_frame_ok(s, p, stack@[t as int], t as int)) by {
            reveal(frames_ok);
        }
        if stack[t].idx >= stack[t].moves.len() {
            let ghost st0 = stack@;
            let ghost p0 = p;
            proof {
                if diving {
                    assert(p.take(t as int) =~= p);
                    assert(!dive_step_taken(s, dk, max_reversible));
                    lemma_deep_stop(s, max_reversible, depth_limit, node_limit, dk);
                }
                diving = false;
                if at_first {
                    assert(p.take(0) =~= Seq::<Move>::empty());
                    assert(replay(s, Seq::<Move>::empty()) == s);
                }
            }
            proof {
                if t == 0 {
                    assert(p.take(0) =~= Seq::<Move>::empty());
                    assert(st0[0].moves@ == ord0);
                    lemma_root_quiet_all(s, ord0, rq, max_reversible);
                    rq = ord0.len() as int;
                }
            }
            let f = stack.pop().unwrap();
            proof {
                assert(st0.drop_last() =~= stack@);
                if t > 0 {
                    assert(stack@[0] == st0[0]);
                }
            }
            if let Some(u) = f.undo {
                proof {
                    assert(p0.take(t as int) =~= p0);
                }
                b.undo(&u);
            }
            proof {
                if t > 0 {
                    lemma_line_prefix(s, p0, max_reversible as nat);
                    lemma_frames_pop(s, p0, st0);
                    p = p0.drop_last();
                    assert(p0.take(t - 1) =~= p);
                } else {
                    assert(frames_ok(s, p, stack@)) by {
                        reveal(frames_ok);
                    }
                }
            }
            proof {
                at_first = false;
            }
            continue;
        }
        let ghost first_pick = at_first;
        let ghost dive_now = diving;
        proof {
            if at_first {
                assert(p.take(0) =~= Seq::<Move>::empty());
                assert(replay(s, Seq::<Move>::empty()) == s);
            }
        }
        let run = stack[t].run;
        let m = stack[t].moves[stack[t].idx];
        let ghost st0 = stack@;
        proof {
            assert(p.take(t as int) =~= p);
            lemma_toward_reveal_sub(b@, b@.moves());
            assert(stack@[t as int].moves@[stack@[t as int].idx as int] == m);
            assert(b@.moves().contains(m));
            lemma_step_legal(b@, m);
        }
        stack[t].idx = stack[t].idx + 1;
        let ghost root_pick = t == 0;
        proof {
            if root_pick {
                assert(p.len() == 0);
                assert(p.take(0) =~= p);
                assert(st0[0].moves@[st0[0].idx as int] == m);
                assert(ord0[rq] == m);
                assert(st0[0].run == 0);
            } else {
                assert(stack@[0] == st0[0]);
            }
            assert(stack@ == st0.update(t as int, stack@[t as int]));
            assert(stack@.drop_last() =~= st0.drop_last());
            lemma_frames_pick(s, p, st0, stack@, t as int);
        }
        let terminal_deal = matches!(m, Move::Deal) && !next_row_known(&b);
        let ghost parent = b@;
        let before = progress_key(&b);
        let undo = b.make(m);
        let committal = is_committal(before, progress_key(&b));
        proof {
            if first_pick {
                assert(p.len() == 0);
                assert(parent == s);
                assert(m == s.toward_reveal(s.moves())[0]);
                assert(committal == made_progress(s, s.after(m)));
            }
            assert(committal == made_progress(parent, parent.after(m)));
            if dive_now {
                assert(parent == dive_board(s, dk));
                assert(m == dive_board(s, dk).toward_reveal(dive_board(s, dk).moves())[0]);
                assert(run == rev_run(s, dive_line(s, dk)));
                assert(dive_line(s, dk + 1) == p.push(m));
            }
        }
        if !committal && run >= max_reversible {
            b.undo(&undo);
            proof {
                if root_pick {
                    assert(parent == s);
                    assert(root_move_quiet(s, m, max_reversible));
                    lemma_root_quiet_next(s, ord0, rq, max_reversible);
                rq = rq + 1;
                }
                at_first = false;
                if dive_now {
                    assert(!dive_step_taken(s, dk, max_reversible));
                    lemma_deep_stop(s, max_reversible, depth_limit, node_limit, dk);
                }
                diving = false;
            }
            continue;
        }
        nodes = nodes + 1;
        if nodes > node_limit {
            b.undo(&undo);
            proof {
                at_first = false;
                if dive_now {
                    lemma_deep_stop(s, max_reversible, depth_limit, node_limit, dk);
                }
                diving = false;
            }
            break;
        }
        proof {
            lemma_line_push(s, p, m, max_reversible as nat);
        }
        if b.exposed_unknowns() > 0 {
            let moves = line_then(&stack, m, Ghost(s), Ghost(p));
            proof {
                if root_pick {
                    assert(ord0[rq] == moves@[0]);
                    lemma_root_first(s, ord0, rq, rq, moves@[0], max_reversible);
                } else {
                    assert(moves@[0] == p[0]);
                    lemma_root_first(s, ord0, rq, rq - 1, moves@[0], max_reversible);
                }
            }
            proof {
                if first_pick {
                    assert(moves@ =~= seq![m]);
                }
                if dive_now {
                    assert(b@ == dive_board(s, dk + 1));
                    assert forall|n: nat| #[trigger] dive_reveals(s, n, max_reversible, depth_limit) && n <= node_limit implies n
                        == dk + 1 by {
                        lemma_deep_found(s, max_reversible, depth_limit, node_limit, dk, n);
                    }
                    assert(moves@ == dive_line(s, dk + 1));
                    assert(nodes == dk + 1);
                } else {
                    lemma_deep_none_use(s, max_reversible, depth_limit, node_limit);
                }
            }
            return (Some(moves), nodes);
        }
        proof {
            at_first = false;
            if root_pick {
                assert(parent == s);
                assert(b@ == s.after(m));
                assert(root_move_quiet(s, m, max_reversible));
                lemma_root_quiet_next(s, ord0, rq, max_reversible);
            rq = rq + 1;
            }
            if dive_now {
                assert(b@ == dive_board(s, dk + 1));
                lemma_deep_next(s, max_reversible, depth_limit, node_limit, dk);
            }
        }
        let ghost old_visited = visited@;
        // Dive unless at the depth cap, this deal is terminal (no planning past
        // unseen cards), or the board was seen before.
        if !terminal_deal && stack.len() < depth_limit && visited.insert(b.hash()) {
            let mut next: Vec<Move> = Vec::new();
            gen_moves_toward_reveal(&b, &mut next);
            let nc = if committal { 0 } else { run + 1 };
            let ghost st1 = stack@;
            let ghost p0 = p;
            stack.push(DeepFrame { moves: next, idx: 0, undo: Some(undo), via: Some(m), run: nc });
            proof {
                assert(stack@[0] == st1[0]);
                p = p0.push(m);
                assert(Seq::<Move>::empty() + b@.moves() =~= b@.moves());
                assert(p.take(p.len() as int) =~= p);
                assert(p.take(p.len() - 1) =~= p0);
                assert(deep_frame_ok(s, p, stack@[st1.len() as int], st1.len() as int));
                assert(stack@ == st1.push(stack@[st1.len() as int]));
                lemma_frames_push(s, p0, st1, stack@[st1.len() as int], m);
                if dive_now {
                    lemma_deep_seen_push(s, old_visited, dk);
                    dk = dk + 1;
                }
            }
        } else {
            b.undo(&undo);
            proof {
                if dive_now {
                    assert(dive_line(s, dk + 1)[dk as int] == m);
                    lemma_deep_blocked(s, old_visited, max_reversible, depth_limit, node_limit, dk);
                }
                diving = false;
            }
        }
    }
    proof {
        lemma_deep_none_use(s, max_reversible, depth_limit, node_limit);
        if nodes <= node_limit {
            lemma_root_quiet_use(s, ord0, ord0.len() as int, max_reversible);
        }
    }
    (None, nodes)
}

} // verus!
