//! The partial-information advisor: searches for short plans that turn up
//! unknown cards (`Solver::advise`, `Solver::advise_deep`). The deep search is
//! in `deep`, the plan simplifier in `simplify`.
//!
//! Exposing a card you already know teaches you nothing, so only cards whose
//! face is `UNKNOWN` count as revealed.
use vstd::prelude::*;
use vstd::multiset::Multiset;
use crate::board::{
    Board, BoardState, Move, COLS, CARD_LIMIT, replay, legal_plan, same_suit_step, sum_lens,
    lemma_step_legal, lemma_legal_plan_wf, lemma_legal_plan_push, lemma_moves_can_make,
    lemma_sum_lens_mono, MOVES_BOUND, lemma_moves_bound, search_fits, hashes_counted, lemma_reach_hash, lemma_hashes_start, lemma_hashes_pop, lemma_hashes_insert, lemma_hashes_fit,
};
use crate::card::{Card, UNKNOWN, rank, suit, is_unknown};
use crate::search::{
    lemma_legal_prefix, lemma_replay_take, play_all, Node, OpenSet, ROOT, path,
    arena_ok, lemma_arena_push, lemma_path_push, board_at, reconstruct, path_to, Entry, lemma_path_prefix,
};
use crate::solver::{MAX_NODE_LIMIT, Advice, Solver, node_board};
use crate::dfs::{hash_separates, reaches, explored, accounts_for, lemma_exhausted, lemma_explored_grows};
use crate::bfs::{
    state_key, lemma_state_key_injective, nboard, ndepth, terminal_step, next_run, covered, bfs_ok, search_plan,
    lemma_bfs_start, lemma_bfs_pop, lemma_bfs_skip, lemma_bfs_seen, lemma_bfs_record, lemma_bfs_finish,
    lemma_bfs_complete, lemma_bfs_depth_order, covered_upto, lemma_covered_upto_next, lemma_covered_upto_grows,
    lemma_covered_upto_all, lemma_covered_upto_zero,
};
use crate::deep::{search_reveals_deep, dive_reveals};
use crate::simplify::{simplify_reveal_plan, simplified, simplified_from};
use std::collections::{HashSet, VecDeque};

verus! {

/// Cap on consecutive reversible moves in a reveal plan. A reversible move only
/// shuffles face-up cards around; a committal one makes irreversible progress.
pub const MAX_CONSEC_REVERSIBLE: u32 = 8;

/// Base cost of one move in the best-first reveal search.
pub const REVEAL_MOVE_COST: u32 = 4;

/// Extra cost of a move that splits a same-suit run (less than a move, so a
/// split is still taken when it reaches a reveal in fewer moves overall).
pub const SUIT_BREAK_COST: u32 = 1;

/// Heuristic weight for the best-first reveal search (`g + w*h`).
pub const REVEAL_ASTAR_WEIGHT: u32 = 2;

/// Whether going from `before` to `after` made irreversible progress: fewer
/// face-down cards, more completed runs, more empty columns, or less stock.
pub open spec fn made_progress(before: BoardState, after: BoardState) -> bool {
    ||| after.face_down_total() < before.face_down_total()
    ||| after.completed > before.completed
    ||| after.empty_columns() > before.empty_columns()
    ||| after.stock.len() < before.stock.len()
}

/// How many reversible moves in a row end the plan `p` played from `s`.
pub open spec fn rev_run(s: BoardState, p: Seq<Move>) -> nat
    decreases p.len(),
{
    if p.len() == 0 {
        0
    } else if made_progress(replay(s, p.drop_last()), replay(s, p)) {
        0
    } else {
        rev_run(s, p.drop_last()) + 1
    }
}

/// No more than `cap` reversible moves run in a row anywhere in the plan.
pub open spec fn capped(s: BoardState, p: Seq<Move>, cap: nat) -> bool {
    forall|j: int| 0 <= j <= p.len() ==> #[trigger] rev_run(s, p.take(j)) <= cap
}

/// Whether the next row a deal would turn up is fully known.
pub open spec fn row_known(s: BoardState) -> bool {
    &&& s.stock.len() >= COLS
    &&& forall|i: int| s.stock.len() - COLS <= i < s.stock.len() ==> #[trigger] s.stock[i] != UNKNOWN
}

/// Every deal of the plan except a final one deals a fully known row: the plan
/// never goes on past cards that nobody has seen.
pub open spec fn deals_planned(s: BoardState, p: Seq<Move>) -> bool {
    forall|j: int| 0 <= j < p.len() - 1 && #[trigger] p[j] == Move::Deal ==> row_known(replay(s, p.take(j)))
}

/// The plan holds no deal.
pub open spec fn deal_free(p: Seq<Move>) -> bool {
    forall|j: int| 0 <= j < p.len() ==> #[trigger] p[j] != Move::Deal
}

/// What a reveal plan gains over a start with `start_completed` runs done:
/// each face-up unknown card counts 1, each newly completed run 20.
pub open spec fn reward(start_completed: u8, s: BoardState) -> int {
    s.exposed_unknowns() + 20 * (s.completed - start_completed)
}

/// A legal plan whose final board shows at least one unknown card face up.
pub open spec fn reveals(s: BoardState, p: Seq<Move>) -> bool {
    legal_plan(s, p) && replay(s, p).exposed_unknowns() > 0
}

/// Whether a move's column indexes are in range (deals have none).
pub open spec fn cols_in_range(m: Move) -> bool {
    match m {
        Move::Tableau { from, to, count } => from < COLS && count >= 1,
        Move::Deal => true,
    }
}

/// The highest index below `n` of column `col` that holds an unknown card.
pub open spec fn top_unknown(col: Seq<Card>, n: int) -> Option<int>
    decreases n,
{
    if n <= 0 {
        None
    } else if col[n - 1] == UNKNOWN {
        Some(n - 1)
    } else {
        top_unknown(col, n - 1)
    }
}

impl BoardState {
    /// Cards lying above the shallowest face-down unknown of column `c`: how many
    /// must be cleared before it turns face up. `None` if `c` hides no unknown.
    pub open spec fn cover(self, c: int) -> Option<int> {
        match top_unknown(self.cols[c], self.face_down[c] as int) {
            Some(u) => Some(self.cols[c].len() - 1 - u),
            None => None,
        }
    }

    /// The smallest cover among columns `0..n`, with the lowest column that has it.
    pub open spec fn easiest_upto(self, n: int) -> Option<(int, int)>
        decreases n,
    {
        if n <= 0 {
            None
        } else {
            let prev = self.easiest_upto(n - 1);
            match self.cover(n - 1) {
                None => prev,
                Some(cov) => match prev {
                    Some(p) => if cov < p.0 {
                        Some((cov, n - 1))
                    } else {
                        prev
                    },
                    None => Some((cov, n - 1)),
                },
            }
        }
    }

    /// The column whose hidden unknown is easiest to reach.
    pub open spec fn easiest_column(self) -> Option<usize> {
        match self.easiest_upto(COLS as int) {
            Some(p) => Some(p.1 as usize),
            None => None,
        }
    }

    /// Distance-to-a-reveal estimate: the fewest cards covering any hidden
    /// unknown, in move-cost units (0 when nothing is hidden).
    pub open spec fn reveal_h(self) -> int {
        match self.easiest_upto(COLS as int) {
            Some(p) => p.0 * REVEAL_MOVE_COST,
            None => 0,
        }
    }

    /// Cost of `m` in the best-first reveal search: a base per move, a penalty
    /// when it separates a same-suit run at its source, and more for a deal.
    pub open spec fn reveal_cost(self, m: Move) -> u32 {
        match m {
            Move::Deal => (REVEAL_MOVE_COST + 2) as u32,
            Move::Tableau { from, to, count } => {
                let col = self.cols[from as int];
                let n = col.len() as int;
                let k = count as int;
                if n > k && col[n - k - 1] != UNKNOWN && same_suit_step(col[n - k - 1], col[n - k]) {
                    (REVEAL_MOVE_COST + SUIT_BREAK_COST) as u32
                } else {
                    REVEAL_MOVE_COST
                }
            },
        }
    }

    /// Ordering score of a move in the deep reveal search (higher first): dig
    /// the target column, favour flipping a face-down card, never pile back onto
    /// the target; deals come late.
    pub open spec fn reveal_rank(self, target: Option<usize>, m: Move) -> int {
        match m {
            Move::Deal => -1,
            Move::Tableau { from, to, count } => {
                let f = from as int;
                (if target == Some(from as usize) {
                    3int
                } else {
                    0int
                }) + (if self.face_down[f] > 0 && self.cols[f].len() >= count && self.cols[f].len() - count
                    == self.face_down[f] {
                    2int
                } else {
                    0int
                }) - (if target == Some(to as usize) {
                    4int
                } else {
                    0int
                })
            },
        }
    }

    /// The moves among the first `n` of `ms` whose rank is `v`, in their order.
    pub open spec fn with_rank(self, target: Option<usize>, ms: Seq<Move>, v: int, n: int) -> Seq<Move>
        decreases n,
    {
        if n <= 0 {
            Seq::empty()
        } else {
            self.with_rank(target, ms, v, n - 1) + if self.reveal_rank(target, ms[n - 1]) == v {
                seq![ms[n - 1]]
            } else {
                Seq::empty()
            }
        }
    }

    /// `ms` stably sorted by descending rank, from rank 5 down to rank `v`.
    pub open spec fn ranks_down_to(self, target: Option<usize>, ms: Seq<Move>, v: int) -> Seq<Move>
        decreases 6 - v,
    {
        if v > 5 {
            Seq::empty()
        } else {
            self.ranks_down_to(target, ms, v + 1) + self.with_rank(target, ms, v, ms.len() as int)
        }
    }

    /// `ms` ordered best-first for the reveal search.
    pub open spec fn toward_reveal(self, ms: Seq<Move>) -> Seq<Move> {
        self.ranks_down_to(self.easiest_column(), ms, -4)
    }
}

/// A board's progress scalars: face-down cards, completed runs, empty columns
/// and stock size.
pub fn progress_key(b: &Board) -> (k: (u32, u8, u32, usize))
    ensures
        k.0 == b@.face_down_total(),
        k.1 == b@.completed,
        k.2 == b@.empty_columns(),
        k.3 == b@.stock.len(),
{
    (b.face_down_total(), b.completed, b.empty_columns(), b.stock.len())
}

/// Whether going from progress `before` to `after` made irreversible progress:
/// flipped a face-down card, completed a run, emptied a column, or dealt a row.
pub fn is_committal(before: (u32, u8, u32, usize), after: (u32, u8, u32, usize)) -> (r: bool)
    ensures
        r == (after.0 < before.0 || after.1 > before.1 || after.2 > before.2 || after.3 < before.3),
{
    after.0 < before.0 || after.1 > before.1 || after.2 > before.2 || after.3 < before.3
}

/// A column of a well-formed board holds fewer than `CARD_LIMIT + 1` cards.
proof fn lemma_col_len_bound(s: BoardState, c: int)
    requires
        s.wf(),
        0 <= c < COLS,
    ensures
        s.cols[c].len() <= CARD_LIMIT,
{
    lemma_sum_lens_mono(s.cols, c + 1, COLS as int);
    assert(sum_lens(s.cols, c + 1) == sum_lens(s.cols, c) + s.cols[c].len());
}

/// Cards sitting above the shallowest still-hidden unknown in column `c`.
fn cover_over_unknown(b: &Board, c: usize) -> (r: Option<usize>)
    requires
        b@.wf(),
        c < COLS,
    ensures
        r matches Some(x) ==> b@.cover(c as int) == Some(x as int),
        r is None ==> b@.cover(c as int) is None,
        r matches Some(x) ==> x < CARD_LIMIT,
{
    let ghost s = b@;
    let col = &b.cols[c];
    let fd = b.face_down[c] as usize;
    proof {
        assert(s.col_wf(c as int));
        lemma_col_len_bound(s, c as int);
    }
    let mut i = fd;
    while i > 0
        invariant
            s == b@,
            s.wf(),
            c < COLS,
            col@ == s.cols[c as int],
            fd == s.face_down[c as int],
            fd <= col@.len(),
            col@.len() <= CARD_LIMIT,
            i <= fd,
            top_unknown(col@, fd as int) == top_unknown(col@, i as int),
        decreases i,
    {
        if is_unknown(col[i - 1]) {
            return Some(col.len() - 1 - (i - 1));
        }
        i = i - 1;
    }
    None
}

/// The unknown-hiding column that is easiest to break into (fewest cards on
/// top of its shallowest unknown; the lowest such column on a tie).
pub fn easiest_unknown_column(b: &Board) -> (r: Option<usize>)
    requires
        b@.wf(),
    ensures
        r == b@.easiest_column(),
{
    let mut best: Option<(usize, usize)> = None;
    let mut c: usize = 0;
    while c < COLS
        invariant
            b@.wf(),
            c <= COLS,
            best matches Some(p) ==> b@.easiest_upto(c as int) == Some((p.0 as int, p.1 as int)) && p.1 < COLS,
            best is None ==> b@.easiest_upto(c as int) is None,
        decreases COLS - c,
    {
        if let Some(cov) = cover_over_unknown(b, c) {
            match best {
                Some(p) => {
                    if cov < p.0 {
                        best = Some((cov, c));
                    }
                },
                None => {
                    best = Some((cov, c));
                },
            }
        }
        c = c + 1;
    }
    match best {
        Some(p) => Some(p.1),
        None => None,
    }
}

/// Distance-to-a-reveal estimate: the fewest cards covering any hidden
/// unknown, in move-cost units.
pub fn reveal_h(b: &Board) -> (h: u32)
    requires
        b@.wf(),
    ensures
        h == b@.reveal_h(),
        h <= CARD_LIMIT * REVEAL_MOVE_COST,
{
    let mut min_cover: Option<usize> = None;
    let mut c: usize = 0;
    while c < COLS
        invariant
            b@.wf(),
            c <= COLS,
            min_cover matches Some(x) ==> (b@.easiest_upto(c as int) matches Some(p) && p.0 == x) && x < CARD_LIMIT,
            min_cover is None ==> b@.easiest_upto(c as int) is None,
        decreases COLS - c,
    {
        if let Some(cov) = cover_over_unknown(b, c) {
            match min_cover {
                Some(x) => {
                    if cov < x {
                        min_cover = Some(cov);
                    }
                },
                None => {
                    min_cover = Some(cov);
                },
            }
        }
        c = c + 1;
    }
    match min_cover {
        Some(x) => x as u32 * REVEAL_MOVE_COST,
        None => 0,
    }
}

/// Cost of `m` in the reveal search: a base per move, plus the suit-break
/// penalty when the move separates a same-suit run at its source.
pub fn reveal_move_cost(b: &Board, m: Move) -> (cost: u32)
    requires
        cols_in_range(m),
    ensures
        cost == b@.reveal_cost(m),
        cost <= REVEAL_MOVE_COST + 2,
{
    match m {
        Move::Deal => REVEAL_MOVE_COST + 2,  // deals bury
        Move::Tableau { from, count, .. } => {
            let (f, k) = (from as usize, count as usize);
            let col = &b.cols[f];
            let n = col.len();
            if n > k {
                let left = col[n - k - 1];  // card left on top of the source after the move
                let moved_bottom = col[n - k];
                if !is_unknown(left) && suit(left) == suit(moved_bottom) && rank(left) == rank(moved_bottom) + 1 {
                    return REVEAL_MOVE_COST + SUIT_BREAK_COST;  // splitting a same-suit run
                }
            }
            REVEAL_MOVE_COST
        },
    }
}

/// Ordering score for a move in the deep reveal search (higher is tried first).
pub fn reveal_move_rank(b: &Board, target: Option<usize>, m: Move) -> (score: i32)
    requires
        cols_in_range(m),
    ensures
        score == b@.reveal_rank(target, m),
{
    match m {
        Move::Deal => -1,  // deals bury; try last
        Move::Tableau { from, to, count } => {
            let (f, t, k) = (from as usize, to as usize, count as usize);
            let mut score: i32 = 0;
            if target == Some(f) {
                score = score + 3;  // clearing cover off the easiest unknown
            }
            let fd = b.face_down[f] as usize;
            if fd > 0 && b.cols[f].len() >= k && b.cols[f].len() - k == fd {
                score = score + 2;  // this move flips a face-down card up
            }
            if target == Some(t) {
                score = score - 4;  // burying the target again: worst
            }
            score
        },
    }
}

/// Legal moves appended to `out`, then the whole of `out` ordered best-first
/// for the reveal search (stable: equal ranks keep their order).
pub fn gen_moves_toward_reveal(b: &Board, out: &mut Vec<Move>)
    requires
        b@.wf(),
        forall|i: int| 0 <= i < old(out)@.len() ==> cols_in_range(#[trigger] old(out)@[i]),
    ensures
        final(out)@ == b@.toward_reveal(old(out)@ + b@.moves()),
{
    let ghost s = b@;
    let ghost before = out@;
    b.gen_moves(out);
    proof {
        lemma_moves_can_make(s);
        assert forall|i: int| 0 <= i < out@.len() implies cols_in_range(#[trigger] out@[i]) by {
            if i >= before.len() {
                assert(out@[i] == s.moves()[i - before.len()]);
                assert(s.can_make(s.moves()[i - before.len()]));
            } else {
                assert(out@[i] == before[i]);
            }
        }
    }
    let target = easiest_unknown_column(b);
    let mut sorted: Vec<Move> = Vec::new();
    let mut v: i32 = 5;
    while v >= -4
        invariant
            s == b@,
            -5 <= v <= 5,
            out@ == before + s.moves(),
            forall|i: int| 0 <= i < out@.len() ==> cols_in_range(#[trigger] out@[i]),
            target == s.easiest_column(),
            sorted@ == s.ranks_down_to(target, out@, v + 1),
        decreases v + 5,
    {
        let ghost base = sorted@;
        let mut i: usize = 0;
        while i < out.len()
            invariant
                s == b@,
                -4 <= v <= 5,
                forall|i: int| 0 <= i < out@.len() ==> cols_in_range(#[trigger] out@[i]),
                i <= out@.len(),
                sorted@ == base + s.with_rank(target, out@, v as int, i as int),
            decreases out@.len() - i,
        {
            if reveal_move_rank(b, target, out[i]) == v {
                sorted.push(out[i]);
            }
            assert(sorted@ =~= base + s.with_rank(target, out@, v as int, i + 1));
            i = i + 1;
        }
        v = v - 1;
    }
    *out = sorted;
}

/// Whether `v` holds `m`.
fn contains_move(v: &Vec<Move>, m: Move) -> (r: bool)
    ensures
        r == v@.contains(m),
{
    let mut i: usize = 0;
    while i < v.len()
        invariant
            i <= v@.len(),
            forall|j: int| 0 <= j < i ==> v@[j] != m,
        decreases v@.len() - i,
    {
        if v[i] == m {
            return true;
        }
        i = i + 1;
    }
    false
}

/// The board after `moves`, if each of them is one that `gen_moves` lists on
/// the board it is played from.
fn replay_checked(start: &Board, moves: &Vec<Move>) -> (r: Option<Board>)
    requires
        start@.wf(),
    ensures
        r is Some <==> legal_plan(start@, moves@),
        r matches Some(b) ==> b@ == replay(start@, moves@) && b@.wf(),
{
    let ghost s = start@;
    let mut b = start.clone();
    let mut legal: Vec<Move> = Vec::new();
    let mut k: usize = 0;
    assert(moves@.take(0) =~= Seq::<Move>::empty());
    while k < moves.len()
        invariant
            s == start@,
            s.wf(),
            k <= moves@.len(),
            legal_plan(s, moves@.take(k as int)),
            b@ == replay(s, moves@.take(k as int)),
            b@.wf(),
        decreases moves@.len() - k,
    {
        let m = moves[k];
        legal.clear();
        b.gen_moves(&mut legal);
        if !contains_move(&legal, m) {
            proof {
                if legal_plan(s, moves@) {
                    lemma_legal_prefix(s, moves@, k as int);
                }
            }
            return None;
        }
        proof {
            assert(moves@.take(k + 1).drop_last() =~= moves@.take(k as int));
            lemma_step_legal(b@, m);
        }
        b.make(m);
        k = k + 1;
    }
    assert(moves@.take(moves@.len() as int) =~= moves@);
    Some(b)
}

/// Whether `moves` replays legally from `start` (every move is one that
/// `gen_moves` lists) and the final board shows an unknown card face up. This
/// is the sole acceptance test for a simplification.
pub fn plan_reveals(start: &Board, moves: &Vec<Move>) -> (r: bool)
    requires
        start@.wf(),
    ensures
        r == reveals(start@, moves@),
{
    match replay_checked(start, moves) {
        Some(b) => b.exposed_unknowns() > 0,
        None => false,
    }
}

/// Whether `moves` replays legally from `start` and ends in a won game: the
/// check a solver's answer is held to before it is reported.
pub fn plan_wins(start: &Board, moves: &Vec<Move>) -> (r: bool)
    requires
        start@.wf(),
    ensures
        r == (legal_plan(start@, moves@) && replay(start@, moves@).completed == 8),
{
    match replay_checked(start, moves) {
        Some(b) => b.is_won(),
        None => false,
    }
}

/// The position after each prefix of `moves`: entry `t` is the board after
/// the first `t` moves (entry 0 is `start`).
pub fn prefix_boards(start: &Board, moves: &Vec<Move>) -> (boards: Vec<Board>)
    requires
        start@.wf(),
        legal_plan(start@, moves@),
    ensures
        boards@.len() == moves@.len() + 1,
        forall|t: int| 0 <= t <= moves@.len() ==> (#[trigger] boards@[t])@ == replay(start@, moves@.take(t)),
        forall|t: int| 0 <= t <= moves@.len() ==> (#[trigger] boards@[t])@.wf(),
{
    let ghost s = start@;
    let mut boards: Vec<Board> = Vec::new();
    let mut b = start.clone();
    boards.push(b.clone());
    assert(moves@.take(0) =~= Seq::<Move>::empty());
    let mut k: usize = 0;
    while k < moves.len()
        invariant
            s == start@,
            s.wf(),
            legal_plan(s, moves@),
            k <= moves@.len(),
            b@ == replay(s, moves@.take(k as int)),
            b@.wf(),
            boards@.len() == k + 1,
            forall|t: int| 0 <= t <= k ==> (#[trigger] boards@[t])@ == replay(s, moves@.take(t)),
            forall|t: int| 0 <= t <= k ==> (#[trigger] boards@[t])@.wf(),
        decreases moves@.len() - k,
    {
        proof {
            lemma_legal_prefix(s, moves@, k as int);
            lemma_step_legal(b@, moves@[k as int]);
            lemma_replay_take(s, moves@, k as int);
        }
        b.make(moves[k]);
        boards.push(b.clone());
        k = k + 1;
    }
    boards
}

/// The sequence holding `repl`'s move, if any.
pub open spec fn opt_seq(repl: Option<Move>) -> Seq<Move> {
    match repl {
        Some(m) => seq![m],
        None => Seq::empty(),
    }
}

/// `plan` with moves `i..=j` replaced by `repl` (one move, or nothing).
pub open spec fn spliced(plan: Seq<Move>, i: int, j: int, repl: Option<Move>) -> Seq<Move> {
    plan.take(i) + opt_seq(repl) + plan.skip(j + 1)
}

/// `plan` with moves `i..=j` replaced by `repl` (one move, or nothing).
pub fn splice(plan: &Vec<Move>, i: usize, j: usize, repl: Option<Move>) -> (out: Vec<Move>)
    requires
        i <= j < plan@.len(),
    ensures
        out@ == spliced(plan@, i as int, j as int, repl),
{
    let mut out: Vec<Move> = Vec::new();
    let mut k: usize = 0;
    while k < i
        invariant
            k <= i <= j < plan@.len(),
            out@ == plan@.take(k as int),
        decreases i - k,
    {
        out.push(plan[k]);
        k = k + 1;
        assert(out@ =~= plan@.take(k as int));
    }
    if let Some(m) = repl {
        out.push(m);
    }
    let ghost head = out@;
    assert(head =~= plan@.take(i as int) + opt_seq(repl));
    let n = plan.len();
    assert(j < n);
    let mut k = j + 1;
    while k < n
        invariant
            n == plan@.len(),
            j + 1 <= k <= plan@.len(),
            out@ == head + plan@.subrange(j + 1, k as int),
        decreases plan@.len() - k,
    {
        out.push(plan[k]);
        k = k + 1;
        assert(out@ =~= head + plan@.subrange(j + 1, k as int));
    }
    assert(plan@.subrange(j + 1, plan@.len() as int) =~= plan@.skip(j + 1));
    out
}


/// The node budgets and weights the best-first reveal search accepts: every
/// priority `g + weight*h` (a move costs at most 6, so `g` is at most 6 per
/// node) and every node index fits in 32 bits.
pub open spec fn reveal_settings_ok(node_limit: u64, weight: u32) -> bool {
    6 * (node_limit + 1) + weight * (CARD_LIMIT * REVEAL_MOVE_COST) <= u32::MAX
}

/// Whether `advise_deep` accepts `node_limit` (see `reveal_settings_ok`).
pub fn reveal_budget_fits(node_limit: u64) -> (ok: bool)
    ensures
        ok == reveal_settings_ok(node_limit, REVEAL_ASTAR_WEIGHT),
{
    assert(REVEAL_ASTAR_WEIGHT * (CARD_LIMIT * REVEAL_MOVE_COST) == 24000);
    6 * (node_limit as u128 + 1) + 24000 <= u32::MAX as u128
}

/// An open-set entry of the reveal search is sound: its node exists and its
/// cost is at most 6 per node index.
pub open spec fn reveal_entry_ok(e: Entry, arena_len: nat) -> bool {
    e.2 < arena_len && e.1 <= 6 * e.2
}

/// The index of the first listed move from `s`, from index `k` on, after which
/// an unknown card lies face up.
pub open spec fn first_revealing_from(s: BoardState, k: int) -> Option<int>
    decreases s.moves().len() - k,
{
    if k < 0 || k >= s.moves().len() {
        None
    } else if s.after(s.moves()[k]).exposed_unknowns() > 0 {
        Some(k)
    } else {
        first_revealing_from(s, k + 1)
    }
}

proof fn lemma_first_revealing_from(s: BoardState, k: int)
    requires
        0 <= k,
    ensures
        first_revealing_from(s, k) matches Some(j) ==> k <= j < s.moves().len() && s.after(s.moves()[j]).exposed_unknowns()
            > 0,
    decreases s.moves().len() - k,
{
    if k < s.moves().len() {
        lemma_first_revealing_from(s, k + 1);
    }
}

/// What the reveal searches look for: a board showing an unknown card.
pub open spec fn reveal_goal() -> spec_fn(BoardState) -> bool {
    |b: BoardState| b.exposed_unknowns() > 0
}

/// Best-first (weighted-A*) search for a short line that reveals an unknown.
/// Ordered by `g + weight*h`, where `g` is the accumulated move cost (with the
/// suit-break penalty) and `h` is `reveal_h`. Returns the line, if one was
/// found, and the nodes spent.
#[verifier::spinoff_prover]
#[verifier::rlimit(100)]
pub fn search_reveals_astar(start: &Board, node_limit: u64, weight: u32) -> (r: (Option<Vec<Move>>, u64))
    requires
        start@.wf(),
        reveal_settings_ok(node_limit, weight),
    ensures
        r.0 matches Some(p) ==> reveals(start@, p@) && p@.len() >= 1,
        r.1 <= node_limit + 1,
        first_revealing_from(start@, 0) matches Some(j) ==> (j < node_limit ==> (r.0 matches Some(p) && p@ == seq![
            start@.moves()[j],
        ] && r.1 == j + 1)),
        r.1 > node_limit ==> r.0 is None,
        r.0 is Some ==> r.1 <= node_limit,
        r.0 is None && r.1 <= node_limit && start@.exposed_unknowns() == 0 && hash_separates(start@) ==> forall|p: Seq<Move>|
            !#[trigger] reveals(start@, p),
        search_fits(start@, node_limit) ==> r.1 <= node_limit,
        r.0 is None && search_fits(start@, node_limit) && start@.exposed_unknowns() == 0 && hash_separates(start@) ==> forall|
            p: Seq<Move>,
        | !#[trigger] reveals(start@, p),
{
    broadcast use vstd::multiset::group_multiset_axioms;

    let ghost s = start@;
    let mut arena: Vec<Node> = Vec::new();
    arena.push(Node { parent: ROOT, mv: Move::Deal });
    let mut closed: HashSet<u64> = HashSet::new();
    let mut open = OpenSet::new();
    closed.insert(start.hash());
    let h0 = reveal_h(start);
    proof {
        assert(path(arena@, 0) == Seq::<Move>::empty());
        assert(weight * h0 <= weight * (CARD_LIMIT * REVEAL_MOVE_COST)) by (nonlinear_arith)
            requires
                h0 <= CARD_LIMIT * REVEAL_MOVE_COST,
        ;
    }
    let pri0 = weight * h0;
    open.push((pri0, 0, 0));
    let ghost root_entry: Entry = (pri0, 0, 0);
    let ghost mut at_root = true;
    let ghost mut expanded: Set<int> = Set::empty();
    assert(open.contents() =~= Multiset::<Entry>::empty().insert(root_entry));
    let ghost mut pops: int = 0;
    proof {
        assert(closed@ =~= set![s.hash()]);
        assert(node_board(s, arena@, 0) == s);
        assert(open.contents().contains(root_entry));
        lemma_hashes_start(s);
    }
    let mut nodes: u64 = 0;
    loop
        invariant
            hashes_counted(s, closed@, open.size() as int, pops),
            nodes <= pops * MOVES_BOUND,
            s == start@,
            s.wf(),
            reveal_settings_ok(node_limit, weight),
            arena_ok(s, arena@),
            nodes <= node_limit,
            arena@.len() <= nodes + 1,
            forall|e: Entry| #[trigger] open.contents().contains(e) ==> reveal_entry_ok(e, arena@.len()),
            at_root ==> nodes == 0 && open.contents() == Multiset::<Entry>::empty().insert(root_entry),
            root_entry.1 == 0 && root_entry.2 == 0,
            !at_root ==> !(first_revealing_from(s, 0) matches Some(j) && j < node_limit),
            closed@.contains(s.hash()),
            forall|h: u64| closed@.contains(h) ==> exists|i: int| 0 <= i < arena@.len() && (#[trigger] node_board(s, arena@, i)).hash() == h,
            s.exposed_unknowns() == 0 ==> forall|i: int| 0 <= i < arena@.len() ==> (#[trigger] node_board(s, arena@, i)).exposed_unknowns() == 0,
            s.exposed_unknowns() == 0 ==> forall|i: int| 0 <= i < arena@.len() && expanded.contains(i) ==> explored(
                #[trigger] node_board(s, arena@, i),
                closed@,
                reveal_goal(),
            ),
            forall|i: int| expanded.contains(i) ==> 0 <= i < arena@.len(),
            forall|i: int| 0 <= i < arena@.len() && !expanded.contains(i) ==> exists|e: Entry| #[trigger] open.contents().contains(e) && e.2 == i,
        decreases 2 * (node_limit - nodes) + open.size(),
    {
        let ghost measure = 2 * (node_limit - nodes) + open.size();
        let ghost before = open.contents();
        let ghost size_before = open.size();
        let popped = open.pop();
        let (g, idx) = match popped {
            Some(e) => {
                assert(before.contains(e));
                (e.1, e.2)
            },
            None => {
                proof {
                    if at_root {
                        assert(before.count(root_entry) > 0);
                    }
                    if s.exposed_unknowns() == 0 && hash_separates(s) {
                        assert forall|h: u64| closed@.contains(h) && !Set::<u64>::empty().contains(h) implies exists|y: BoardState| #[trigger] accounts_for(s, y, h, closed@, reveal_goal()) by {
                            let i = choose|i: int| 0 <= i < arena@.len() && (#[trigger] node_board(s, arena@, i)).hash() == h;
                            if !expanded.contains(i) {
                                let e = choose|e: Entry| #[trigger] before.contains(e) && e.2 == i;
                                assert(before.contains(e));
                            }
                            assert(legal_plan(s, path(arena@, i)));
                            assert(reaches(s, node_board(s, arena@, i)));
                            assert(accounts_for(s, node_board(s, arena@, i), h, closed@, reveal_goal()));
                        }
                        assert forall|p: Seq<Move>| !#[trigger] reveals(s, p) by {
                            lemma_exhausted(s, closed@, p, reveal_goal());
                        }
                    }
                }
                return (None, nodes);
            },
        };
        proof {
            lemma_hashes_pop(s, closed@, size_before as int, pops);
            pops = pops + 1;
            assert forall|e: Entry| #[trigger] open.contents().contains(e) implies reveal_entry_ok(e, arena@.len()) by {
                assert(open.contents().count(e) <= before.count(e));
                assert(before.contains(e));
            }
            assert forall|i: int| 0 <= i < arena@.len() && !expanded.contains(i) && i != idx implies exists|e: Entry| #[trigger] open.contents().contains(e) && e.2 == i by {
                let e = choose|e: Entry| #[trigger] before.contains(e) && e.2 == i;
                assert(e != popped->0);
                assert(open.contents().contains(e));
            }
            if at_root {
                assert(idx == 0 && g == 0) by {
                    let e = popped->0;
                    assert(before.contains(e));
                    assert(e == root_entry);
                }
            }
        }
        let mut board = board_at(start, &arena, idx);
        let ghost here = path(arena@, idx as int);
        let mut moves: Vec<Move> = Vec::new();
        board.gen_moves(&mut moves);
        proof {
            if at_root {
                assert(here == Seq::<Move>::empty());
                assert(moves@ =~= s.moves());
            }
            lemma_legal_plan_wf(s, here);
            lemma_moves_can_make(board@);
            lemma_moves_bound(board@);
        }
        let mut mi: usize = 0;
        while mi < moves.len()
            invariant
                hashes_counted(s, closed@, open.size() as int, pops),
                pops >= 1,
                nodes <= (pops - 1) * MOVES_BOUND + mi,
                moves@.len() <= MOVES_BOUND,
                s == start@,
                s.wf(),
                reveal_settings_ok(node_limit, weight),
                arena_ok(s, arena@),
                nodes <= node_limit,
                arena@.len() <= nodes + 1,
                forall|e: Entry| #[trigger] open.contents().contains(e) ==> reveal_entry_ok(e, arena@.len()),
                2 * (node_limit - nodes) + open.size() < measure,
                idx < arena@.len(),
                g <= 6 * idx,
                here == path(arena@, idx as int),
                legal_plan(s, here),
                board@ == replay(s, here),
                board@.wf(),
                moves@ == board@.moves(),
                forall|i: int| 0 <= i < moves@.len() ==> board@.can_make(#[trigger] moves@[i]),
                mi <= moves@.len(),
                at_root ==> idx == 0 && here == Seq::<Move>::empty() && moves@ == s.moves() && nodes == mi
                    && first_revealing_from(s, 0) == first_revealing_from(s, mi as int),
                !at_root ==> !(first_revealing_from(s, 0) matches Some(j) && j < node_limit),
                closed@.contains(s.hash()),
                forall|h: u64| closed@.contains(h) ==> exists|i: int| 0 <= i < arena@.len() && (#[trigger] node_board(s, arena@, i)).hash() == h,
                s.exposed_unknowns() == 0 ==> forall|i: int| 0 <= i < arena@.len() ==> (#[trigger] node_board(s, arena@, i)).exposed_unknowns() == 0,
                s.exposed_unknowns() == 0 ==> forall|i: int| 0 <= i < arena@.len() && expanded.contains(i) ==> explored(
                    #[trigger] node_board(s, arena@, i),
                    closed@,
                    reveal_goal(),
                ),
                forall|i: int| expanded.contains(i) ==> 0 <= i < arena@.len(),
                forall|i: int| 0 <= i < arena@.len() && !expanded.contains(i) && i != idx ==> exists|e: Entry| #[trigger] open.contents().contains(e) && e.2 == i,
                forall|j: int| 0 <= j < mi ==> closed@.contains(#[trigger] board@.after(moves@[j]).hash()),
            decreases moves@.len() - mi,
        {
            let m = moves[mi];
            nodes = nodes + 1;
            if nodes > node_limit {
                proof {
                    if at_root {
                        lemma_first_revealing_from(s, mi as int);
                    }
                    if search_fits(s, node_limit) {
                        lemma_hashes_fit(s, closed@, open.size() as int, pops, node_limit);
                    }
                }
                return (None, nodes);
            }
            let ghost parent = board@;
            proof {
                assert(parent.moves().contains(m)) by {
                    assert(parent.moves()[mi as int] == m);
                }
                assert(parent.can_make(moves@[mi as int]));
                lemma_step_legal(parent, m);
                lemma_legal_plan_push(s, here, m);
            }
            let cost = reveal_move_cost(&board, m);
            let undo = board.make(m);
            if board.exposed_unknowns() > 0 {
                let line = reconstruct(&arena, idx, m);
                proof {
                    if at_root {
                        assert(line@ =~= seq![m]);
                        assert(first_revealing_from(s, mi as int) == Some(mi as int));
                    }
                }
                return (Some(line), nodes);
            }
            proof {
                if at_root {
                    assert(first_revealing_from(s, mi as int) == first_revealing_from(s, mi + 1));
                }
            }
            let ghost closed_before = closed@;
            let ghost arena_before = arena@;
            let ghost open_before = open.contents();
            let ghost open_size_before = open.size();
            let ghost child = board@;
            proof {
                assert(board@ == parent.after(m));
                assert(moves@[mi as int] == m);
            }
            let fresh = closed.insert(board.hash());
            if fresh {
                let ng = g + cost;
                let h = reveal_h(&board);
                proof {
                    assert(weight * h <= weight * (CARD_LIMIT * REVEAL_MOVE_COST)) by (nonlinear_arith)
                        requires
                            h <= CARD_LIMIT * REVEAL_MOVE_COST,
                    ;
                }
                let pri = ng + weight * h;
                let ci = arena.len() as u32;
                proof {
                    lemma_arena_push(s, arena@, idx, m);
                    lemma_path_push(arena@, Node { parent: idx, mv: m }, idx as int);
                }
                arena.push(Node { parent: idx, mv: m });
                let ghost before_push = open.contents();
                open.push((pri, ng, ci));
                proof {
                    assert forall|e: Entry| #[trigger] open.contents().contains(e) implies reveal_entry_ok(e, arena@.len()) by {
                        if e != (pri, ng, ci) {
                            assert(before_push.contains(e));
                        }
                    }
                    let x = Node { parent: idx, mv: m };
                    assert(arena@ == arena_before.push(x));
                    assert forall|i: int| 0 <= i < arena_before.len() implies #[trigger] node_board(s, arena@, i) == node_board(
                        s,
                        arena_before,
                        i,
                    ) by {
                        lemma_path_push(arena_before, x, i);
                    }
                    assert(node_board(s, arena@, ci as int) == child);
                    lemma_reach_hash(s, here.push(m));
                    lemma_hashes_insert(s, closed_before, open_size_before as int, pops, child.hash());
                    assert forall|hh: u64| closed@.contains(hh) implies exists|i: int| 0 <= i < arena@.len() && (#[trigger] node_board(
                        s,
                        arena@,
                        i,
                    )).hash() == hh by {
                        if hh == child.hash() {
                            assert(node_board(s, arena@, ci as int).hash() == hh);
                        } else {
                            assert(closed_before.contains(hh));
                            let i = choose|i: int| 0 <= i < arena_before.len() && (#[trigger] node_board(s, arena_before, i)).hash() == hh;
                            assert(node_board(s, arena@, i) == node_board(s, arena_before, i));
                        }
                    }
                    if s.exposed_unknowns() == 0 {
                        assert forall|i: int| 0 <= i < arena@.len() && expanded.contains(i) implies explored(
                            #[trigger] node_board(s, arena@, i),
                            closed@,
                            reveal_goal(),
                        ) by {
                            assert(node_board(s, arena@, i) == node_board(s, arena_before, i));
                            lemma_explored_grows(node_board(s, arena_before, i), closed_before, closed@, reveal_goal());
                        }
                    }
                    assert forall|i: int| 0 <= i < arena@.len() && !expanded.contains(i) && i != idx implies exists|e: Entry| #[trigger] open.contents().contains(e) && e.2 == i by {
                        if i == ci {
                            assert(open.contents().contains((pri, ng, ci)));
                        } else {
                            let e = choose|e: Entry| #[trigger] open_before.contains(e) && e.2 == i;
                            assert(open.contents().contains(e));
                        }
                    }
                }
            }
            proof {
                if !fresh {
                    assert(closed@ =~= closed_before);
                }
                assert(closed@.contains(child.hash()));
                assert(closed_before.subset_of(closed@));
            }
            board.undo(&undo);
            mi = mi + 1;
            proof {
                assert forall|j: int| 0 <= j < mi implies closed@.contains(#[trigger] board@.after(moves@[j]).hash()) by {
                    if j < mi - 1 {
                        assert(closed_before.contains(board@.after(moves@[j]).hash()));
                    }
                }
            }
        }
        proof {
            if at_root {
                assert(first_revealing_from(s, moves@.len() as int) is None);
            }
            at_root = false;
            assert(board@ == node_board(s, arena@, idx as int));
            if s.exposed_unknowns() == 0 {
                assert forall|mv: Move| board@.moves().contains(mv) implies closed@.contains(#[trigger] board@.after(mv).hash()) by {
                    let j = choose|j: int| 0 <= j < moves@.len() && moves@[j] == mv;
                    assert(closed@.contains(board@.after(moves@[j]).hash()));
                }
                assert(explored(board@, closed@, reveal_goal()));
            }
            expanded = expanded.insert(idx as int);
        }
    }
}


/// Whether the next row a deal would turn up (the top `COLS` cards of the
/// stock, which a deal pops from the end) is fully known.
pub fn next_row_known(b: &Board) -> (r: bool)
    ensures
        r == row_known(b@),
{
    let n = b.stock.len();
    if n < COLS {
        return false;
    }
    let mut i = n - COLS;
    while i < n
        invariant
            n == b@.stock.len(),
            n >= COLS,
            n - COLS <= i <= n,
            forall|j: int| n - COLS <= j < i ==> #[trigger] b@.stock[j] != UNKNOWN,
        decreases n - i,
    {
        if is_unknown(b.stock[i]) {
            return false;
        }
        i = i + 1;
    }
    true
}

/// What the board `b` gains over a start with `start_completed` runs done.
/// The key of a search state: a board's hash and the run that led to it.
fn key_of(h: u64, run: u32) -> (k: u128)
    ensures
        k == state_key(h, run),
{
    h as u128 + run as u128 * 0x1_0000_0000_0000_0000u128
}

fn reward_of(b: &Board, start_completed: u8) -> (r: i64)
    requires
        b@.wf(),
        b@.completed >= start_completed,
    ensures
        r == b@.exposed_unknowns() + 20 * (b@.completed - start_completed),
{
    proof {
        crate::board::lemma_exposed_bound(b@);
    }
    b.exposed_unknowns() as i64 + (b.completed - start_completed) as i64 * 20
}

/// No proper prefix of the plan gains as much as the whole plan: it ends at
/// the first point where it gains what it gains.
pub open spec fn no_early_gain(s: BoardState, p: Seq<Move>) -> bool {
    forall|j: int| 0 <= j < p.len() ==> #[trigger] reward(s.completed, replay(s, p.take(j))) < reward(
        s.completed,
        replay(s, p),
    )
}

/// What node `i` of the tree gains.
spec fn node_reward(s: BoardState, arena: Seq<Node>, i: int) -> int {
    reward(s.completed, replay(s, path(arena, i)))
}

/// The plan may still be extended: it does not end in a deal that turned up
/// cards nobody has seen.
pub open spec fn expandable(s: BoardState, p: Seq<Move>) -> bool {
    p.len() == 0 || p.last() != Move::Deal || row_known(replay(s, p.drop_last()))
}

/// What every node of the breadth-first tree satisfies: its recorded run of
/// reversible moves is right, and its plan is capped, plans only past known
/// deals, and holds no deal unless deals are allowed.
spec fn bfs_node_ok(s: BoardState, arena: Seq<Node>, revs: Seq<u32>, allow_deals: bool, i: int) -> bool {
    let p = path(arena, i);
    &&& revs[i] == rev_run(s, p)
    &&& capped(s, p, MAX_CONSEC_REVERSIBLE as nat)
    &&& deals_planned(s, p)
    &&& (!allow_deals ==> deal_free(p))
}

/// Extending a plan by one move: the new run of reversible moves, and the
/// plan properties carried over from the shorter plan.
proof fn lemma_plan_push(s: BoardState, p: Seq<Move>, m: Move, cap: nat)
    requires
        s.wf(),
        legal_plan(s, p),
        replay(s, p).moves().contains(m),
        capped(s, p, cap),
        deals_planned(s, p),
        expandable(s, p),
        (if made_progress(replay(s, p), replay(s, p).after(m)) { 0 } else { rev_run(s, p) + 1 }) <= cap,
    ensures
        legal_plan(s, p.push(m)),
        replay(s, p.push(m)) == replay(s, p).after(m),
        rev_run(s, p.push(m)) == (if made_progress(replay(s, p), replay(s, p).after(m)) { 0 } else { rev_run(s, p) + 1 }),
        capped(s, p.push(m), cap),
        deals_planned(s, p.push(m)),
{
    let q = p.push(m);
    lemma_legal_plan_push(s, p, m);
    assert(q.drop_last() =~= p);
    assert forall|j: int| 0 <= j <= q.len() implies #[trigger] rev_run(s, q.take(j)) <= cap by {
        if j <= p.len() {
            assert(q.take(j) =~= p.take(j));
        } else {
            assert(q.take(j) =~= q);
        }
    }
    assert forall|j: int| 0 <= j < q.len() - 1 && #[trigger] q[j] == Move::Deal implies row_known(replay(s, q.take(j))) by {
        assert(q.take(j) =~= p.take(j));
        assert(q[j] == p[j]);
        if j == p.len() - 1 {
            assert(p.take(j) =~= p.drop_last());
        }
    }
}

/// Whether the search may play `m`: a deal only when deals are allowed.
pub open spec fn allowed(m: Move, allow_deals: bool) -> bool {
    allow_deals || m != Move::Deal
}

/// Listed move `j` from `s` gains, it lies within the budget, and its board
/// hashes apart from `s` and from the boards of the allowed moves listed before
/// it; the breadth-first search then records it and owes a plan.
pub open spec fn first_move_gains(s: BoardState, allow_deals: bool, node_limit: u64, j: int) -> bool {
    let ms = s.moves();
    &&& 0 <= j < ms.len()
    &&& j < node_limit
    &&& allowed(ms[j], allow_deals)
    &&& reward(s.completed, s.after(ms[j])) > 0
    &&& s.after(ms[j]).hash() != s.hash()
    &&& forall|i: int|
        0 <= i < j && allowed(ms[i], allow_deals) ==> #[trigger] s.after(ms[i]).hash() != s.after(ms[j]).hash()
}

/// The states the breadth-first search can keep from `s`: a board some legal
/// plan reaches, with a run of at most `MAX_CONSEC_REVERSIBLE` reversible
/// moves.
pub open spec fn reach_keys(s: BoardState) -> Set<u128> {
    Set::new(
        |k: u128|
            exists|p: Seq<Move>, r: u32|
                legal_plan(s, p) && r <= MAX_CONSEC_REVERSIBLE && k == #[trigger] state_key(replay(s, p).hash(), r),
    )
}

/// The budget covers the whole breadth-first search from `s`: its states fit
/// in a finite set that, with `MOVES_BOUND` moves tried from each, stays
/// within `node_limit`.
pub open spec fn bfs_fits(s: BoardState, node_limit: u64) -> bool {
    exists|ks: Set<u128>| ks.finite() && reach_keys(s).subset_of(ks) && ks.len() * MOVES_BOUND <= node_limit
}

/// The kept states: finitely many, each reachable, one per state popped or
/// still queued.
#[verifier::opaque]
spec fn keys_counted(s: BoardState, keys: Set<u128>, qlen: int, pops: int) -> bool {
    &&& keys.finite()
    &&& pops + qlen == keys.len()
    &&& keys.subset_of(reach_keys(s))
}

proof fn lemma_reach_key(s: BoardState, p: Seq<Move>, r: u32)
    requires
        legal_plan(s, p),
        r <= MAX_CONSEC_REVERSIBLE,
    ensures
        reach_keys(s).contains(state_key(replay(s, p).hash(), r)),
{
}

proof fn lemma_keys_start(s: BoardState)
    ensures
        keys_counted(s, set![state_key(s.hash(), 0)], 1, 0),
{
    reveal(keys_counted);
    assert(replay(s, Seq::<Move>::empty()) == s);
    lemma_reach_key(s, Seq::<Move>::empty(), 0);
    assert(set![state_key(s.hash(), 0)].len() == 1);
}

proof fn lemma_keys_pop(s: BoardState, keys: Set<u128>, qlen: int, pops: int)
    requires
        keys_counted(s, keys, qlen, pops),
    ensures
        keys_counted(s, keys, qlen - 1, pops + 1),
{
    reveal(keys_counted);
}

proof fn lemma_keys_insert(s: BoardState, keys: Set<u128>, qlen: int, pops: int, k: u128)
    requires
        keys_counted(s, keys, qlen, pops),
        !keys.contains(k),
        reach_keys(s).contains(k),
    ensures
        keys_counted(s, keys.insert(k), qlen + 1, pops),
{
    reveal(keys_counted);
}

proof fn lemma_keys_fit(s: BoardState, keys: Set<u128>, qlen: int, pops: int, node_limit: u64)
    requires
        keys_counted(s, keys, qlen, pops),
        qlen >= 0,
        bfs_fits(s, node_limit),
    ensures
        pops * MOVES_BOUND <= node_limit,
{
    reveal(keys_counted);
    let ks = choose|ks: Set<u128>| ks.finite() && reach_keys(s).subset_of(ks) && ks.len() * MOVES_BOUND <= node_limit;
    vstd::set_lib::lemma_len_subset(keys, ks);
}

/// Breadth-first search for the shortest plan that reveals unknown cards (or
/// completes runs). With `allow_deals`, a deal may be a plan step: a deal whose
/// row is fully known is a look-ahead the search plans past, while a deal that
/// turns up unknown cards is a terminal reveal (recorded but not expanded). At
/// most `MAX_CONSEC_REVERSIBLE` reversible moves run consecutively. Returns
/// `None` if no plan it reached gains anything.
#[verifier::spinoff_prover]
#[verifier::rlimit(100)]
pub fn search_reveals_counted(start_board: &Board, node_limit: u64, allow_deals: bool) -> (res: (Option<Advice>, u64))
    requires
        start_board@.wf(),
        node_limit <= MAX_NODE_LIMIT,
    ensures
        bfs_fits(start_board@, node_limit) ==> res.1 <= node_limit,
        ({
            let (r, used) = res;
            &&& used <= node_limit + 1
            &&& used <= node_limit && hash_separates(start_board@) ==> forall|p: Seq<Move>| #[trigger] search_plan(
                start_board@,
                p,
                allow_deals,
            ) ==> match r {
                Some(a) => {
                    &&& reward(start_board@.completed, replay(start_board@, p)) <= reward(
                        start_board@.completed,
                        replay(start_board@, a.moves@),
                    )
                    &&& (reward(start_board@.completed, replay(start_board@, p)) == reward(
                        start_board@.completed,
                        replay(start_board@, a.moves@),
                    ) ==> a.moves@.len() <= p.len())
                },
                None => reward(start_board@.completed, replay(start_board@, p)) <= 0,
            }
        }),
        res.0 matches Some(a) ==> {
            &&& advice_fits(start_board@, a)
            &&& reward(start_board@.completed, replay(start_board@, a.moves@)) > 0
            &&& capped(start_board@, a.moves@, MAX_CONSEC_REVERSIBLE as nat)
            &&& deals_planned(start_board@, a.moves@)
            &&& (!allow_deals ==> deal_free(a.moves@))
            &&& reward(start_board@.completed, replay(start_board@, a.moves@)) >= start_board@.exposed_unknowns()
            &&& no_early_gain(start_board@, a.moves@)
        },
        start_board@.exposed_unknowns() > 0 ==> res.0 is Some,
        forall|j: int| #[trigger] first_move_gains(start_board@, allow_deals, node_limit, j) ==> (res.0 matches Some(a)
            && reward(start_board@.completed, replay(start_board@, a.moves@)) >= reward(
            start_board@.completed,
            start_board@.after(start_board@.moves()[j]),
        )),
{
    let start = start_board.clone();
    let ghost s = start@;
    let start_completed = start.completed;
    let mut arena: Vec<Node> = Vec::new();
    arena.push(Node { parent: ROOT, mv: Move::Deal });
    // `reversibles[i]` = how many reversible moves run consecutively into node i.
    let mut reversibles: Vec<u32> = Vec::new();
    reversibles.push(0);
    // A search state is a board with the run of reversible moves that led to
    // it: the same board reached with another run may allow other plans.
    let mut visited: HashSet<u128> = HashSet::new();
    let mut queue: VecDeque<u32> = VecDeque::new();
    let mut nodes: u64 = 0;
    visited.insert(key_of(start.hash(), 0));
    queue.push_back(0);
    let mut best_reward = reward_of(&start, start_completed);  // 0 unless unknowns already show
    let mut best_idx: u32 = 0;
    proof {
        assert(path(arena@, 0) == Seq::<Move>::empty());
        assert(Seq::<Move>::empty().take(0) =~= Seq::<Move>::empty());
        assert(bfs_node_ok(s, arena@, reversibles@, allow_deals, 0));
    }
    let mut out_of_budget = false;
    let ghost mut at_root = true;
    let ghost mut expanded: Set<int> = Set::empty();
    let ghost mut dlast: int = 0;
    let ghost mut pops: int = 0;
    proof {
        assert(visited@ =~= set![state_key(s.hash(), 0)]);
        assert(queue@ =~= seq![0u32]);
        lemma_bfs_start(s, allow_deals, arena@, reversibles@);
        lemma_keys_start(s);
    }
    while !out_of_budget
        invariant
            keys_counted(s, visited@, queue@.len() as int, pops),
            nodes <= pops * MOVES_BOUND,
            at_root ==> queue@ == seq![0u32] && arena@.len() == 1 && nodes == 0 && visited@ == set![state_key(s.hash(), 0)]
                && !out_of_budget,
            !out_of_budget ==> bfs_ok(s, allow_deals, arena@, reversibles@, visited@, queue@, expanded, dlast, -1),
            out_of_budget ==> nodes > node_limit,
            !at_root ==> forall|j: int| #[trigger] first_move_gains(s, allow_deals, node_limit, j) ==> best_reward >= reward(s.completed, s.after(s.moves()[j])),
            s == start@,
            s == start_board@,
            s.wf(),
            start_completed == s.completed,
            node_limit <= MAX_NODE_LIMIT,
            arena_ok(s, arena@),
            reversibles@.len() == arena@.len(),
            forall|i: int| 0 <= i < arena@.len() ==> #[trigger] bfs_node_ok(s, arena@, reversibles@, allow_deals, i),
            forall|k: int| 0 <= k < queue@.len() ==> (#[trigger] queue@[k]) < arena@.len() && expandable(s, path(arena@, queue@[k] as int)),
            !out_of_budget ==> nodes <= node_limit,
            nodes <= node_limit + 1,
            arena@.len() <= nodes + 1,
            best_idx < arena@.len(),
            best_reward == reward(s.completed, replay(s, path(arena@, best_idx as int))),
            best_reward >= s.exposed_unknowns(),
            forall|i: int| 0 <= i < arena@.len() ==> #[trigger] node_reward(s, arena@, i) <= best_reward,
            forall|i: int| 0 <= i < best_idx ==> #[trigger] node_reward(s, arena@, i) < best_reward,
        ensures
            s == start@,
            arena_ok(s, arena@),
            reversibles@.len() == arena@.len(),
            forall|i: int| 0 <= i < arena@.len() ==> #[trigger] bfs_node_ok(s, arena@, reversibles@, allow_deals, i),
            best_idx < arena@.len(),
            best_reward == reward(s.completed, replay(s, path(arena@, best_idx as int))),
            best_reward >= s.exposed_unknowns(),
            forall|i: int| 0 <= i < arena@.len() ==> #[trigger] node_reward(s, arena@, i) <= best_reward,
            forall|i: int| 0 <= i < best_idx ==> #[trigger] node_reward(s, arena@, i) < best_reward,
            forall|j: int| #[trigger] first_move_gains(s, allow_deals, node_limit, j) ==> best_reward >= reward(s.completed, s.after(s.moves()[j])),
            out_of_budget <==> nodes > node_limit,
            nodes <= node_limit + 1,
            !out_of_budget ==> bfs_ok(s, allow_deals, arena@, reversibles@, visited@, Seq::empty(), expanded, dlast, -1),
            keys_counted(s, visited@, queue@.len() as int, pops),
            nodes <= pops * MOVES_BOUND,
        decreases 2 * (node_limit + 1 - nodes) + queue@.len() + if out_of_budget { 0int } else { 1 },
    {
        let ghost measure = 2 * (node_limit + 1 - nodes) + queue@.len() + 1;
        let ghost q_before = queue@;
        let popped = queue.pop_front();
        let idx = match popped {
            Some(i) => i,
            None => {
                proof {
                    assert(queue@ =~= Seq::<u32>::empty());
                }
                break;
            },
        };
        proof {
            assert(queue@ =~= q_before.drop_first());
            lemma_keys_pop(s, visited@, q_before.len() as int, pops);
            pops = pops + 1;
            lemma_bfs_pop(s, allow_deals, arena@, reversibles@, visited@, q_before, expanded, dlast);
            dlast = ndepth(arena@, idx as int);
        }
        proof {
            if at_root {
                assert(idx == 0);
            }
        }
        let mut b = board_at(&start, &arena, idx);
        let ghost here = path(arena@, idx as int);
        proof {
            lemma_legal_plan_wf(s, here);
            assert(expandable(s, here));
            assert(bfs_node_ok(s, arena@, reversibles@, allow_deals, idx as int));
            assert(here.take(here.len() as int) =~= here);
        }
        let run = reversibles[idx as usize];
        // A deal that turns up unknown cards is itself the reveal, so planning
        // stops past it; a fully-known-row deal is a look-ahead step.
        let terminal_deal = !next_row_known(&b);
        let mut moves: Vec<Move> = Vec::new();
        b.gen_moves(&mut moves);
        proof {
            lemma_moves_can_make(b@);
            lemma_moves_bound(b@);
            assert(moves@ =~= b@.moves());
            if at_root {
                assert(here == Seq::<Move>::empty());
                assert(b@ == s);
                assert(bfs_node_ok(s, arena@, reversibles@, allow_deals, 0));
                assert(run == 0);
            }
        }
        let mut mi: usize = 0;
        proof {
            lemma_covered_upto_zero(s, allow_deals, arena@, reversibles@, idx as int, moves@);
        }
        while mi < moves.len()
            invariant_except_break
                nodes <= node_limit,
                !out_of_budget,
                bfs_ok(s, allow_deals, arena@, reversibles@, visited@, queue@, expanded, dlast, idx as int),
                covered_upto(s, allow_deals, arena@, reversibles@, idx as int, moves@, mi as int),
            invariant
                keys_counted(s, visited@, queue@.len() as int, pops),
                pops >= 1,
                nodes <= (pops - 1) * MOVES_BOUND + mi,
                moves@.len() <= MOVES_BOUND,
                dlast == ndepth(arena@, idx as int),
                out_of_budget ==> nodes > node_limit,
                run == reversibles@[idx as int],
                at_root ==> idx == 0 && here == Seq::<Move>::empty() && moves@ == s.moves() && nodes <= mi && run == 0,
                at_root ==> forall|j: int|
                    mi <= j && #[trigger] first_move_gains(s, allow_deals, node_limit, j) ==> forall|r: u32| !visited@.contains(
                        #[trigger] state_key(s.after(s.moves()[j]).hash(), r),
                    ),
                at_root ==> forall|j: int| j < mi && #[trigger] first_move_gains(s, allow_deals, node_limit, j) ==> best_reward >= reward(s.completed, s.after(s.moves()[j])),
                !at_root ==> forall|j: int| #[trigger] first_move_gains(s, allow_deals, node_limit, j) ==> best_reward >= reward(s.completed, s.after(s.moves()[j])),
                s == start@,
                s.wf(),
                start_completed == s.completed,
                node_limit <= MAX_NODE_LIMIT,
                arena_ok(s, arena@),
                reversibles@.len() == arena@.len(),
                forall|i: int| 0 <= i < arena@.len() ==> #[trigger] bfs_node_ok(s, arena@, reversibles@, allow_deals, i),
                forall|k: int| 0 <= k < queue@.len() ==> (#[trigger] queue@[k]) < arena@.len() && expandable(s, path(arena@, queue@[k] as int)),
                nodes <= node_limit + 1,
                arena@.len() <= nodes + 1,
                best_idx < arena@.len(),
                best_reward == reward(s.completed, replay(s, path(arena@, best_idx as int))),
                best_reward >= s.exposed_unknowns(),
                forall|i: int| 0 <= i < arena@.len() ==> #[trigger] node_reward(s, arena@, i) <= best_reward,
                forall|i: int| 0 <= i < best_idx ==> #[trigger] node_reward(s, arena@, i) < best_reward,
                2 * (node_limit + 1 - nodes) + queue@.len() + 1 < measure,
                idx < arena@.len(),
                here == path(arena@, idx as int),
                legal_plan(s, here),
                expandable(s, here),
                capped(s, here, MAX_CONSEC_REVERSIBLE as nat),
                deals_planned(s, here),
                !allow_deals ==> deal_free(here),
                run == rev_run(s, here),
                run <= MAX_CONSEC_REVERSIBLE,
                b@ == replay(s, here),
                b@.wf(),
                b@.completed >= s.completed,
                terminal_deal == !row_known(b@),
                moves@ == b@.moves(),
                forall|i: int| 0 <= i < moves@.len() ==> b@.can_make(#[trigger] moves@[i]),
                mi <= moves@.len(),
            ensures
                keys_counted(s, visited@, queue@.len() as int, pops),
                nodes <= pops * MOVES_BOUND,
                forall|j: int| #[trigger] first_move_gains(s, allow_deals, node_limit, j) ==> best_reward >= reward(s.completed, s.after(s.moves()[j])),
                out_of_budget || nodes <= node_limit,
                nodes <= node_limit + 1,
                arena_ok(s, arena@),
                reversibles@.len() == arena@.len(),
                forall|i: int| 0 <= i < arena@.len() ==> #[trigger] bfs_node_ok(s, arena@, reversibles@, allow_deals, i),
                forall|k: int| 0 <= k < queue@.len() ==> (#[trigger] queue@[k]) < arena@.len() && expandable(s, path(arena@, queue@[k] as int)),
                arena@.len() <= nodes + 1,
                best_idx < arena@.len(),
                best_reward == reward(s.completed, replay(s, path(arena@, best_idx as int))),
                best_reward >= s.exposed_unknowns(),
                forall|i: int| 0 <= i < arena@.len() ==> #[trigger] node_reward(s, arena@, i) <= best_reward,
                forall|i: int| 0 <= i < best_idx ==> #[trigger] node_reward(s, arena@, i) < best_reward,
                2 * (node_limit + 1 - nodes) + queue@.len() + 1 < measure,
                dlast == ndepth(arena@, idx as int),
                out_of_budget ==> nodes > node_limit,
                !out_of_budget ==> bfs_ok(s, allow_deals, arena@, reversibles@, visited@, queue@, expanded, dlast, idx as int),
                !out_of_budget ==> covered_upto(s, allow_deals, arena@, reversibles@, idx as int, moves@, moves@.len() as int),
            decreases moves@.len() - mi,
        {
            let m = moves[mi];
            let ghost k = mi as int;
            mi = mi + 1;
            proof {
                assert(nboard(s, arena@, idx as int) == b@);
            }
            if matches!(m, Move::Deal) && !allow_deals {
                proof {
                    lemma_bfs_skip(s, allow_deals, arena@, reversibles@, idx as int, m);
                    lemma_covered_upto_next(s, allow_deals, arena@, reversibles@, idx as int, moves@, k);
                }
                continue;
            }
            nodes = nodes + 1;
            if nodes > node_limit {
                out_of_budget = true;
                break;
            }
            let ghost parent = b@;
            proof {
                assert(parent.moves().contains(m)) by {
                    assert(parent.moves()[mi - 1] == m);
                }
                assert(parent.can_make(moves@[mi - 1]));
                lemma_step_legal(parent, m);
                lemma_legal_plan_wf(s, here);
            }
            let ghost old_visited = visited@;
            let before = progress_key(&b);
            let undo = b.make(m);
            let committal = is_committal(before, progress_key(&b));
            proof {
                if at_root {
                    assert(b@ == s.after(s.moves()[k]));
                }
            }
            proof {
                assert(committal == made_progress(parent, parent.after(m)));
                assert(run == reversibles@[idx as int]);
            }
            // Cap consecutive reversible moves: don't wander.
            if !committal && run >= MAX_CONSEC_REVERSIBLE {
                proof {
                    lemma_bfs_skip(s, allow_deals, arena@, reversibles@, idx as int, m);
                    lemma_covered_upto_next(s, allow_deals, arena@, reversibles@, idx as int, moves@, k);
                }
                b.undo(&undo);
                continue;
            }
            let rc: u32 = if committal { 0 } else { run + 1 };
            // A deal that turns up unknown cards is recorded, never expanded,
            // and keeps no state; any other outcome is kept once per state.
            let terminal_child = matches!(m, Move::Deal) && terminal_deal;
            let ghost keys_before = visited@;
            let ghost q_arena = queue@;
            proof {
                assert(rc == next_run(parent, m, run as int));
                assert(terminal_child == terminal_step(parent, m));
            }
            if terminal_child || visited.insert(key_of(b.hash(), rc)) {
                let ci = arena.len() as u32;
                let ghost child = here.push(m);
                proof {
                    lemma_plan_push(s, here, m, MAX_CONSEC_REVERSIBLE as nat);
                    lemma_arena_push(s, arena@, idx, m);
                    lemma_legal_plan_wf(s, child);
                }
                let ghost old_arena = arena@;
                let ghost old_revs = reversibles@;
                let node = Node { parent: idx, mv: m };
                arena.push(node);
                reversibles.push(rc);
                proof {
                    assert forall|i: int| 0 <= i < arena@.len() implies #[trigger] bfs_node_ok(s, arena@, reversibles@, allow_deals, i) by {
                        if i < old_arena.len() {
                            lemma_path_push(old_arena, node, i);
                            assert(bfs_node_ok(s, old_arena, old_revs, allow_deals, i));
                        } else {
                            assert(path(arena@, i) == child);
                            if !allow_deals {
                                assert forall|j: int| 0 <= j < child.len() implies #[trigger] child[j] != Move::Deal by {
                                    if j < here.len() {
                                        assert(child[j] == here[j]);
                                    }
                                }
                            }
                        }
                    }
                    assert forall|k: int| 0 <= k < queue@.len() implies (#[trigger] queue@[k]) < arena@.len() && expandable(s, path(arena@, queue@[k] as int)) by {
                        lemma_path_push(old_arena, node, queue@[k] as int);
                    }
                    lemma_path_push(old_arena, node, best_idx as int);
                    lemma_path_push(old_arena, node, idx as int);
                    assert forall|i: int| 0 <= i < old_arena.len() implies #[trigger] node_reward(s, arena@, i)
                        == node_reward(s, old_arena, i) by {
                        lemma_path_push(old_arena, node, i);
                    }
                }
                let ghost old_best = best_reward;
                let r = reward_of(&b, start_completed);
                proof {
                    if at_root && first_move_gains(s, allow_deals, node_limit, k) {
                        assert(r == reward(s.completed, s.after(s.moves()[k])));
                    }
                }
                assert(node_reward(s, arena@, ci as int) == r);
                if r > best_reward {
                    best_reward = r;
                    best_idx = ci;
                }
                proof {
                    assert forall|i: int| 0 <= i < arena@.len() implies #[trigger] node_reward(s, arena@, i) <= best_reward by {
                        if i < old_arena.len() {
                            assert(node_reward(s, old_arena, i) <= old_best);
                        }
                    }
                    assert forall|i: int| 0 <= i < best_idx implies #[trigger] node_reward(s, arena@, i) < best_reward by {
                        if i < old_arena.len() {
                            assert(node_reward(s, old_arena, i) <= old_best);
                        }
                    }
                }
                // Don't expand past a deal that revealed unknown cards.
                if !terminal_child {
                    proof {
                        assert(child.drop_last() =~= here);
                    }
                    queue.push_back(ci);
                }
                proof {
                    lemma_bfs_record(s, allow_deals, old_arena, old_revs, keys_before, q_arena, expanded, idx as int, m, rc);
                    assert(arena@ == old_arena.push(node));
                    assert(reversibles@ == old_revs.push(rc));
                    if !terminal_child {
                        assert(visited@ == keys_before.insert(state_key(parent.after(m).hash(), rc)));
                        assert(queue@ == q_arena.push(ci));
                        lemma_reach_key(s, child, rc);
                        lemma_keys_insert(s, keys_before, q_arena.len() as int, pops, state_key(parent.after(m).hash(), rc));
                    } else {
                        assert(visited@ == keys_before);
                        assert(queue@ == q_arena);
                    }
                    assert(moves@[k] == m);
                    lemma_covered_upto_grows(s, allow_deals, old_arena, old_revs, node, rc, idx as int, moves@, k);
                    lemma_covered_upto_next(s, allow_deals, arena@, reversibles@, idx as int, moves@, k);
                }
            } else {
                proof {
                    assert(moves@[k] == m);
                    assert(visited@ =~= keys_before);
                    lemma_bfs_seen(s, allow_deals, arena@, reversibles@, visited@, queue@, expanded, idx as int, m);
                    lemma_covered_upto_next(s, allow_deals, arena@, reversibles@, idx as int, moves@, k);
                }
            }
            proof {
                if at_root {
                    assert forall|j: int| mi <= j && #[trigger] first_move_gains(s, allow_deals, node_limit, j) implies forall|r: u32| !visited@.contains(
                        #[trigger] state_key(s.after(s.moves()[j]).hash(), r),
                    ) by {
                        assert forall|r: u32| !visited@.contains(#[trigger] state_key(s.after(s.moves()[j]).hash(), r)) by {
                            if visited@.contains(state_key(s.after(s.moves()[j]).hash(), r)) {
                                assert(keys_before.contains(state_key(s.after(s.moves()[j]).hash(), r)) || state_key(s.after(s.moves()[j]).hash(), r) == state_key(parent.after(m).hash(), rc));
                                if state_key(s.after(s.moves()[j]).hash(), r) == state_key(parent.after(m).hash(), rc) {
                                    lemma_state_key_injective(s.after(s.moves()[j]).hash(), r, parent.after(m).hash(), rc);
                                    assert(s.moves()[k] == m);
                                }
                            }
                        }
                    }
                }
            }
            b.undo(&undo);
        }
        proof {
            at_root = false;
            if !out_of_budget {
                assert(nboard(s, arena@, idx as int) == b@);
                lemma_covered_upto_all(s, allow_deals, arena@, reversibles@, idx as int, moves@);
                lemma_bfs_finish(s, allow_deals, arena@, reversibles@, visited@, queue@, expanded, idx as int);
                expanded = expanded.insert(idx as int);
            }
        }
        if out_of_budget {
            break;
        }
    }
    proof {
        if bfs_fits(s, node_limit) {
            lemma_keys_fit(s, visited@, queue@.len() as int, pops, node_limit);
        }
        if !out_of_budget && hash_separates(s) {
            assert forall|i: int| 0 <= i < arena@.len() implies #[trigger] reversibles@[i] == rev_run(s, path(arena@, i)) by {
                assert(bfs_node_ok(s, arena@, reversibles@, allow_deals, i));
            }
            assert forall|p: Seq<Move>| #[trigger] search_plan(s, p, allow_deals) implies {
                &&& reward(s.completed, replay(s, p)) <= best_reward
                &&& (reward(s.completed, replay(s, p)) == best_reward ==> ndepth(arena@, best_idx as int) <= p.len())
            } by {
                lemma_bfs_complete(s, allow_deals, arena@, reversibles@, visited@, expanded, dlast, p);
                let f = choose|f: int| 0 <= f < arena@.len() && #[trigger] nboard(s, arena@, f) == replay(s, p) && ndepth(arena@, f) <= p.len();
                assert(node_reward(s, arena@, f) <= best_reward);
                if reward(s.completed, replay(s, p)) == best_reward {
                    if f < best_idx {
                        assert(node_reward(s, arena@, f) < best_reward);
                    }
                    lemma_bfs_depth_order(s, allow_deals, arena@, reversibles@, visited@, Seq::empty(), expanded, dlast, -1, best_idx as int, f);
                }
            }
        }
    }
    if best_reward <= 0 {
        return (None, nodes);
    }
    let moves = path_to(&arena, best_idx);
    let mut end = start.clone();
    proof {
        assert(bfs_node_ok(s, arena@, reversibles@, allow_deals, best_idx as int));
        lemma_legal_plan_wf(s, moves@);
        assert forall|j: int| 0 <= j < moves@.len() implies #[trigger] reward(s.completed, replay(s, moves@.take(j)))
            < reward(s.completed, replay(s, moves@)) by {
            let anc = lemma_path_prefix(arena@, best_idx as int, j);
            assert(node_reward(s, arena@, anc) < best_reward);
        }
    }
    play_all(&mut end, &moves);
    proof {
        crate::board::lemma_exposed_bound(end@);
    }
    (Some(Advice {
        uncovers: end.exposed_unknowns(),
        completes: (end.completed - start_completed) as u32,
        empties: end.empty_columns(),
        moves,
    }), nodes)
}

/// Breadth-first search for the shortest plan that reveals unknown cards (or
/// completes runs); see `search_reveals_counted`, which also reports the
/// nodes spent.
pub fn search_reveals(start_board: &Board, node_limit: u64, allow_deals: bool) -> (r: Option<Advice>)
    requires
        start_board@.wf(),
        node_limit <= MAX_NODE_LIMIT,
    ensures
        r matches Some(a) ==> {
            &&& advice_fits(start_board@, a)
            &&& reward(start_board@.completed, replay(start_board@, a.moves@)) > 0
            &&& capped(start_board@, a.moves@, MAX_CONSEC_REVERSIBLE as nat)
            &&& deals_planned(start_board@, a.moves@)
            &&& (!allow_deals ==> deal_free(a.moves@))
            &&& reward(start_board@.completed, replay(start_board@, a.moves@)) >= start_board@.exposed_unknowns()
            &&& no_early_gain(start_board@, a.moves@)
        },
        start_board@.exposed_unknowns() > 0 ==> r is Some,
        forall|j: int| #[trigger] first_move_gains(start_board@, allow_deals, node_limit, j) ==> (r matches Some(a)
            && reward(start_board@.completed, replay(start_board@, a.moves@)) >= reward(
            start_board@.completed,
            start_board@.after(start_board@.moves()[j]),
        )),
        bfs_fits(start_board@, node_limit) && hash_separates(start_board@) ==> best_plan(
            start_board@,
            allow_deals,
            match r {
                Some(a) => Some(a.moves@),
                None => None,
            },
        ),
{
    search_reveals_counted(start_board, node_limit, allow_deals).0
}

/// No plan the search is after (deals as `allow_deals` says) gains more than
/// `q`, and none that gains as much is shorter; with no plan `q` gains nothing.
pub open spec fn best_plan(s: BoardState, allow_deals: bool, q: Option<Seq<Move>>) -> bool {
    forall|p: Seq<Move>| #[trigger] search_plan(s, p, allow_deals) ==> match q {
        Some(m) => {
            &&& reward(s.completed, replay(s, p)) <= reward(s.completed, replay(s, m))
            &&& (reward(s.completed, replay(s, p)) == reward(s.completed, replay(s, m)) ==> m.len() <= p.len())
        },
        None => reward(s.completed, replay(s, p)) <= 0,
    }
}

/// The advice's plan is legal from `s` and its counts describe where it ends:
/// unknown cards face up, runs completed along the way, empty columns.
pub open spec fn advice_fits(s: BoardState, a: Advice) -> bool {
    let end = replay(s, a.moves@);
    &&& legal_plan(s, a.moves@)
    &&& a.uncovers == end.exposed_unknowns()
    &&& a.completes == end.completed - s.completed
    &&& a.empties == end.empty_columns()
}



/// A reveal plan this short is already fine for a deep line; the cap ladder
/// does not spend budget chasing a few fewer moves.
pub const GOOD_ENOUGH: usize = 60;

/// The advice given when no plan was found: no moves, and the empty columns
/// of the board as it stands.
pub open spec fn no_plan(s: BoardState, a: Advice) -> bool {
    &&& a.moves@.len() == 0
    &&& a.uncovers == 0
    &&& a.completes == 0
    &&& a.empties == s.empty_columns()
}

impl Solver {
    /// Partial-information advisor: a short plan that reveals unknown cards
    /// (or completes runs). It first looks for a plan without deals (dealing is
    /// committal); if none gains anything, it searches again allowing deals, so
    /// a deal needed on the way is built into the plan. A deal whose row is
    /// fully known is a look-ahead step the plan continues past; a deal that
    /// would turn up unknown cards is itself the reveal, so the plan stops there.
    pub fn advise(board: &Board, node_limit: u64) -> (a: Advice)
        requires
            board@.wf(),
            node_limit <= MAX_NODE_LIMIT,
        ensures
            no_plan(board@, a) || {
                &&& advice_fits(board@, a)
                &&& reward(board@.completed, replay(board@, a.moves@)) > 0
                &&& capped(board@, a.moves@, MAX_CONSEC_REVERSIBLE as nat)
                &&& deals_planned(board@, a.moves@)
                &&& no_early_gain(board@, a.moves@)
            },
            board@.exposed_unknowns() > 0 ==> advice_fits(board@, a) && reward(
                board@.completed,
                replay(board@, a.moves@),
            ) >= board@.exposed_unknowns(),
            forall|j: int| #[trigger] first_move_gains(board@, false, node_limit, j) ==> {
                &&& advice_fits(board@, a)
                &&& reward(board@.completed, replay(board@, a.moves@)) >= reward(
                    board@.completed,
                    board@.after(board@.moves()[j]),
                )
                &&& deal_free(a.moves@)
            },
            forall|j: int| #[trigger] first_move_gains(board@, true, node_limit, j) ==> {
                &&& advice_fits(board@, a)
                &&& reward(board@.completed, replay(board@, a.moves@)) > 0
            },
            bfs_fits(board@, node_limit) && hash_separates(board@) && (exists|p: Seq<Move>| #[trigger] search_plan(board@, p, false)
                && reward(board@.completed, replay(board@, p)) > 0) ==> deal_free(a.moves@) && best_plan(board@, false, Some(a.moves@)),
            bfs_fits(board@, node_limit) && hash_separates(board@) && best_plan(board@, false, None) ==> best_plan(
                board@,
                true,
                if no_plan(board@, a) { None } else { Some(a.moves@) },
            ),
    {
        Solver::advise_counted(board, node_limit).0
    }

    /// `advise`, also reporting the nodes its searches spent. When they spent
    /// no more than `node_limit` and hashes separate the boards reached: if
    /// some plan without deals gains, the advice is such a plan and gains the
    /// most among them (the shortest of those that gain as much); otherwise it
    /// is the best plan allowing deals, and an empty advice means no plan the
    /// search is after gains anything.
    pub fn advise_counted(board: &Board, node_limit: u64) -> (r: (Advice, u64))
        requires
            board@.wf(),
            node_limit <= MAX_NODE_LIMIT,
        ensures
            no_plan(board@, r.0) || {
                &&& advice_fits(board@, r.0)
                &&& reward(board@.completed, replay(board@, r.0.moves@)) > 0
                &&& capped(board@, r.0.moves@, MAX_CONSEC_REVERSIBLE as nat)
                &&& deals_planned(board@, r.0.moves@)
                &&& no_early_gain(board@, r.0.moves@)
            },
            board@.exposed_unknowns() > 0 ==> advice_fits(board@, r.0) && reward(
                board@.completed,
                replay(board@, r.0.moves@),
            ) >= board@.exposed_unknowns(),
            forall|j: int| #[trigger] first_move_gains(board@, false, node_limit, j) ==> {
                &&& advice_fits(board@, r.0)
                &&& reward(board@.completed, replay(board@, r.0.moves@)) >= reward(
                    board@.completed,
                    board@.after(board@.moves()[j]),
                )
                &&& deal_free(r.0.moves@)
            },
            forall|j: int| #[trigger] first_move_gains(board@, true, node_limit, j) ==> {
                &&& advice_fits(board@, r.0)
                &&& reward(board@.completed, replay(board@, r.0.moves@)) > 0
            },
            r.1 <= 2 * node_limit + 2,
            r.1 <= node_limit && hash_separates(board@) && (exists|p: Seq<Move>| #[trigger] search_plan(board@, p, false)
                && reward(board@.completed, replay(board@, p)) > 0) ==> {
                &&& deal_free(r.0.moves@)
                &&& forall|p: Seq<Move>| #[trigger] search_plan(board@, p, false) ==> reward(board@.completed, replay(board@, p))
                    <= reward(board@.completed, replay(board@, r.0.moves@)) && (reward(board@.completed, replay(board@, p))
                    == reward(board@.completed, replay(board@, r.0.moves@)) ==> r.0.moves@.len() <= p.len())
            },
            r.1 <= node_limit && hash_separates(board@) && (forall|p: Seq<Move>| #[trigger] search_plan(board@, p, false)
                ==> reward(board@.completed, replay(board@, p)) <= 0) ==> forall|p: Seq<Move>| #[trigger] search_plan(
                board@,
                p,
                true,
            ) ==> reward(board@.completed, replay(board@, p)) <= reward(board@.completed, replay(board@, r.0.moves@)) && (reward(
                board@.completed,
                replay(board@, p),
            ) == reward(board@.completed, replay(board@, r.0.moves@)) ==> r.0.moves@.len() <= p.len()),
            bfs_fits(board@, node_limit) && hash_separates(board@) && (exists|p: Seq<Move>| #[trigger] search_plan(board@, p, false)
                && reward(board@.completed, replay(board@, p)) > 0) ==> deal_free(r.0.moves@) && best_plan(board@, false, Some(r.0.moves@)),
            bfs_fits(board@, node_limit) && hash_separates(board@) && best_plan(board@, false, None) ==> best_plan(
                board@,
                true,
                if no_plan(board@, r.0) { None } else { Some(r.0.moves@) },
            ),
    {
        // Phase 1: tableau moves only; deals are skipped, so the stock plays no part.
        let (first, u1) = search_reveals_counted(board, node_limit, false);
        if let Some(advice) = first {
            proof {
                assert(search_plan(board@, advice.moves@, false));
            }
            return (advice, u1);
        }
        // Phase 2: allow deals, chaining as many known-row deals as it takes.
        let (second, u2) = search_reveals_counted(board, node_limit, true);
        let used = u1 + u2;
        proof {
            assert forall|p: Seq<Move>| #[trigger] search_plan(board@, p, false) implies search_plan(board@, p, true) by {}
        }
        if let Some(advice) = second {
            return (advice, used);
        }
        let a = Advice { uncovers: 0, completes: 0, empties: board.empty_columns(), moves: Vec::new() };
        proof {
            assert(a.moves@ =~= Seq::<Move>::empty());
            assert(replay(board@, a.moves@) == board@);
        }
        (a, used)
    }

    /// Deeper reveal search for positions where `advise` finds nothing. A
    /// best-first search heads for the shallowest buried unknown; only if it
    /// comes up empty within budget does a ladder of depth-first passes with
    /// growing reversible-move caps run, sharing what is left of the budget and
    /// keeping the shortest line found. The line is then stripped of wasted
    /// motion. Returns an empty plan if nothing is found within budget.
    pub fn advise_deep(board: &Board, node_limit: u64, depth_limit: usize) -> (a: Advice)
        requires
            board@.wf(),
            reveal_settings_ok(node_limit, REVEAL_ASTAR_WEIGHT),
        ensures
            no_plan(board@, a) || {
                &&& advice_fits(board@, a)
                &&& a.uncovers > 0
                &&& simplified(board@, a.moves@)
            },
            no_plan(board@, a) || exists|q: Seq<Move>| #[trigger] reveals(board@, q) && a.moves@ == simplified_from(board@, q),
            first_revealing_from(board@, 0) matches Some(j) ==> (j < node_limit ==> a.moves@ == seq![
                board@.moves()[j],
            ]),
            search_fits(board@, node_limit) && no_plan(board@, a) && board@.exposed_unknowns() == 0 && hash_separates(board@)
                ==> forall|p: Seq<Move>| !#[trigger] reveals(board@, p),
    {
        Solver::advise_deep_counted(board, node_limit, depth_limit).0
    }

    /// `advise_deep`, also reporting the nodes its searches spent. An empty
    /// advice spent within budget means the best-first search ran dry: when
    /// nothing shows at the start and hashes separate the boards reached, no
    /// legal plan reveals a card.
    pub fn advise_deep_counted(board: &Board, node_limit: u64, depth_limit: usize) -> (r: (Advice, u64))
        requires
            board@.wf(),
            reveal_settings_ok(node_limit, REVEAL_ASTAR_WEIGHT),
        ensures
            no_plan(board@, r.0) || {
                &&& advice_fits(board@, r.0)
                &&& r.0.uncovers > 0
                &&& simplified(board@, r.0.moves@)
            },
            no_plan(board@, r.0) || exists|q: Seq<Move>| #[trigger] reveals(board@, q) && r.0.moves@ == simplified_from(board@, q),
            first_revealing_from(board@, 0) matches Some(j) ==> (j < node_limit ==> r.0.moves@ == seq![
                board@.moves()[j],
            ]),
            r.1 <= node_limit && no_plan(board@, r.0) && board@.exposed_unknowns() == 0 && hash_separates(board@)
                ==> forall|p: Seq<Move>| !#[trigger] reveals(board@, p),
            no_plan(board@, r.0) && depth_limit >= 1 ==> forall|n: nat| !(#[trigger] dive_reveals(board@, n, 2, depth_limit)
                && n + r.1 <= node_limit),
            search_fits(board@, node_limit) && no_plan(board@, r.0) && board@.exposed_unknowns() == 0 && hash_separates(board@)
                ==> forall|p: Seq<Move>| !#[trigger] reveals(board@, p),
    {
        let start_completed = board.completed;
        let (astar, used) = search_reveals_astar(board, node_limit, REVEAL_ASTAR_WEIGHT);
        let astar_found = astar.is_some();
        let mut spent = used;
        let best = match astar {
            Some(p) => Some(p),
            None => {
                let mut remaining = node_limit.saturating_sub(used);
                let mut best: Option<Vec<Move>> = None;
                let caps: [u32; 6] = [2, 3, 4, 5, 6, 8];
                let mut ci: usize = 0;
                let ghost mut settled = false;
                while ci < 6
                    invariant
                        board@.wf(),
                        remaining <= node_limit,
                        reveal_settings_ok(node_limit, REVEAL_ASTAR_WEIGHT),
                        spent >= used,
                        best matches Some(p) ==> reveals(board@, p@),
                        caps@ == seq![2u32, 3, 4, 5, 6, 8],
                        ci == 0 ==> best is None && remaining == (if used <= node_limit { node_limit - used } else { 0 }),
                        ci >= 1 ==> settled,
                        best is None && settled && depth_limit >= 1 ==> forall|n: nat| !(#[trigger] dive_reveals(
                            board@,
                            n,
                            2,
                            depth_limit,
                        ) && n + used <= node_limit),
                    ensures
                        settled,
                        spent >= used,
                        best matches Some(p) ==> reveals(board@, p@),
                        best is None && depth_limit >= 1 ==> forall|n: nat| !(#[trigger] dive_reveals(
                            board@,
                            n,
                            2,
                            depth_limit,
                        ) && n + used <= node_limit),
                    decreases 6 - ci,
                {
                    let cap = caps[ci];
                    let good_enough = match &best {
                        Some(p) => p.len() <= GOOD_ENOUGH,
                        None => false,
                    };
                    if remaining == 0 || good_enough {
                        proof {
                            settled = true;
                        }
                        break;
                    }
                    let depth = match &best {
                        Some(p) => p.len().saturating_sub(1),
                        None => depth_limit,
                    };
                    if depth == 0 {
                        proof {
                            settled = true;
                        }
                        break;
                    }
                    let (found, u) = search_reveals_deep(board, remaining, depth, cap);
                    remaining = remaining.saturating_sub(u);
                    spent = spent.saturating_add(u);
                    if let Some(moves) = found {
                        let shorter = match &best {
                            Some(b) => moves.len() < b.len(),
                            None => true,
                        };
                        if shorter {
                            best = Some(moves);
                        }
                    }
                    proof {
                        settled = true;
                    }
                    ci = ci + 1;
                }
                best
            },
        };
        match best {
            Some(moves) => {
                proof {
                    if moves@.len() == 1 {
                        assert(simplified(board@, moves@));
                    }
                }
                let ghost line = moves@;
                assert(reveals(board@, line));
                // Drop wasted round trips before reporting.
                let moves = simplify_reveal_plan(board, moves);
                let mut end = board.clone();
                proof {
                    lemma_legal_plan_wf(board@, moves@);
                }
                play_all(&mut end, &moves);
                proof {
                    crate::board::lemma_exposed_bound(end@);
                }
                (Advice {
                    uncovers: end.exposed_unknowns(),
                    completes: (end.completed - start_completed) as u32,
                    empties: end.empty_columns(),
                    moves,
                }, spent)
            },
            None => {
                proof {
                    assert(!astar_found);
                }
                (Advice { uncovers: 0, completes: 0, empties: board.empty_columns(), moves: Vec::new() }, spent)
            },
        }
    }
}

} // verus!
