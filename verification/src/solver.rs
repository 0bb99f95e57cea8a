//! Solver that returns a short solution.
//!
//! - The primary search is a weighted-A* ordered by `g + w*h`, where `g` is the
//!   number of moves made and `h` estimates the moves remaining.
//! - The fallback is a plain make/undo depth-first search, run only when A*
//!   comes up empty.
//! - A portfolio runs several `(weight, fd_weight)` configurations side by
//!   side; each is `Solver::search_config`, and `Solver::finish_portfolio`
//!   combines what they report.
use vstd::prelude::*;
use vstd::multiset::Multiset;
use std::collections::HashSet;
use crate::board::{
    Board, BoardState, Move, Undo, COLS, replay, legal_plan, same_suit_step, lemma_step_legal,
    lemma_legal_plan_wf, lemma_legal_plan_push, lemma_moves_can_make, MOVES_BOUND, lemma_moves_bound, search_fits, hashes_counted,
    lemma_reach_hash, lemma_hashes_start, lemma_hashes_pop, lemma_hashes_insert, lemma_hashes_fit,
};
use crate::card::{rank, suit, Card};
use crate::dfs::{hash_separates, reaches, explored, accounts_for, won_goal, lemma_exhausted, lemma_explored_grows};
use crate::search::{
    Node, OpenSet, ROOT, path, arena_ok, lemma_arena_push, lemma_path_push, board_at, reconstruct,
    Entry,
};

verus! {

/// Default weight on the heuristic.
pub const DEFAULT_WEIGHT: u32 = 2;

/// Default weight on face-down cards in the heuristic.
pub const DEFAULT_FD_WEIGHT: u32 = 4;

/// The most cards (counting 13 per completed run) a board may hold for the
/// solver: with more, a ninth run could complete and the run count in the
/// heuristic (`8 - completed`) would go below zero.
pub const MAX_SOLVE_CARDS: usize = 116;

/// The largest node budget whose node indices and totals fit in 32 bits.
pub const MAX_NODE_LIMIT: u64 = 0xFFFF_FFF0;

/// A board small enough for the solver.
pub open spec fn solver_sized(s: BoardState) -> bool {
    s.card_count() + 13 * s.completed <= MAX_SOLVE_CARDS
}

/// Adjacent face-up pairs `(j, j + 1)` with `fd <= j < i` that are not in
/// same-suit descending order.
pub open spec fn col_breaks(col: Seq<Card>, fd: int, i: int) -> nat
    decreases i,
{
    if i <= fd || i <= 0 {
        0
    } else {
        col_breaks(col, fd, i - 1) + if !same_suit_step(col[i - 1], col[i]) {
            1nat
        } else {
            0nat
        }
    }
}

impl BoardState {
    /// Face-down cards in the non-empty columns among `0..n`.
    pub open spec fn fd_nonempty_upto(self, n: int) -> nat
        decreases n,
    {
        if n <= 0 {
            0
        } else {
            self.fd_nonempty_upto(n - 1) + if self.cols[n - 1].len() == 0 {
                0nat
            } else {
                self.face_down[n - 1] as nat
            }
        }
    }

    /// Sequence breaks among the face-up cards of columns `0..n`.
    pub open spec fn breaks_upto(self, n: int) -> nat
        decreases n,
    {
        if n <= 0 {
            0
        } else {
            self.breaks_upto(n - 1) + if self.cols[n - 1].len() == 0 {
                0nat
            } else {
                col_breaks(self.cols[n - 1], self.face_down[n - 1] as int, self.cols[n - 1].len() - 1)
            }
        }
    }
}

/// Estimated moves remaining: every hidden card (weighted by `fd_weight`),
/// every break, every stock card and every remaining run costs, and each empty
/// column takes some off; never below zero.
pub open spec fn heuristic_spec(s: BoardState, fd_weight: u32) -> int {
    let base = s.fd_nonempty_upto(COLS as int) * fd_weight + s.breaks_upto(COLS as int) * 3 + s.stock.len() * 2
        + (8 - s.completed) * 6;
    let off = s.empties_upto(COLS as int) * 3;
    if base >= off {
        base - off
    } else {
        0
    }
}

/// An upper bound of the heuristic on solver-sized boards.
pub open spec fn heuristic_bound(fd_weight: u32) -> int {
    MAX_SOLVE_CARDS * fd_weight + MAX_SOLVE_CARDS * 5 + 48
}

proof fn lemma_col_breaks_bound(col: Seq<Card>, fd: int, i: int)
    ensures
        col_breaks(col, fd, i) <= (if i > 0 { i } else { 0 }),
    decreases i,
{
    if i > fd && i > 0 {
        lemma_col_breaks_bound(col, fd, i - 1);
    }
}

proof fn lemma_heuristic_parts(s: BoardState, n: int)
    requires
        s.wf(),
        0 <= n <= COLS,
    ensures
        s.fd_nonempty_upto(n) <= crate::board::sum_lens(s.cols, n),
        s.breaks_upto(n) <= crate::board::sum_lens(s.cols, n),
        s.empties_upto(n) <= n,
    decreases n,
{
    if n > 0 {
        lemma_heuristic_parts(s, n - 1);
        assert(s.col_wf(n - 1));
        lemma_col_breaks_bound(s.cols[n - 1], s.face_down[n - 1] as int, s.cols[n - 1].len() - 1);
    }
}

proof fn lemma_empty_columns_count_nothing(s: BoardState, n: int)
    requires
        0 <= n <= s.cols.len(),
        forall|c: int| 0 <= c < s.cols.len() ==> (#[trigger] s.cols[c]).len() == 0,
    ensures
        s.fd_nonempty_upto(n) == 0,
        s.breaks_upto(n) == 0,
    decreases n,
{
    if n > 0 {
        lemma_empty_columns_count_nothing(s, n - 1);
        assert(s.cols[n - 1].len() == 0);
    }
}

/// The estimate is zero on a won board with nothing left in the tableau or
/// the stock, whatever weight face-down cards are given.
pub proof fn lemma_heuristic_zero_at_win(s: BoardState, fd_weight: u32)
    requires
        s.cols.len() == COLS,
        s.completed == 8,
        s.stock.len() == 0,
        forall|c: int| 0 <= c < COLS ==> (#[trigger] s.cols[c]).len() == 0,
    ensures
        heuristic_spec(s, fd_weight) == 0,
{
    lemma_empty_columns_count_nothing(s, COLS as int);
}

/// Where the heuristic's bound fits in a `u32`, so does its value on every
/// solver-sized board.
proof fn lemma_heuristic_fits(s: BoardState, fd_weight: u32)
    requires
        s.wf(),
        solver_sized(s),
        heuristic_bound(fd_weight) <= u32::MAX,
    ensures
        s.fd_nonempty_upto(COLS as int) * fd_weight + MAX_SOLVE_CARDS * 5 + 48 <= u32::MAX,
{
    lemma_heuristic_parts(s, COLS as int);
    let fd = s.fd_nonempty_upto(COLS as int);
    assert(fd <= MAX_SOLVE_CARDS);
    assert(fd * fd_weight <= MAX_SOLVE_CARDS * fd_weight) by (nonlinear_arith)
        requires
            fd <= MAX_SOLVE_CARDS,
    ;
}

/// Estimated moves remaining (0 exactly at a win). Not admissible: it is tuned
/// to guide the search, not to prove optimality.
fn heuristic(b: &Board, fd_weight: u32) -> (h: u32)
    requires
        b@.wf(),
        solver_sized(b@),
        b@.fd_nonempty_upto(COLS as int) * fd_weight + MAX_SOLVE_CARDS * 5 + 48 <= u32::MAX,
    ensures
        h == heuristic_spec(b@, fd_weight),
        h <= heuristic_bound(fd_weight),
{
    let ghost s = b@;
    proof {
        lemma_heuristic_parts(s, COLS as int);
    }
    let mut face_down: u32 = 0;
    let mut breaks: u32 = 0;
    let mut empties: u32 = 0;
    let mut c: usize = 0;
    while c < COLS
        invariant
            s == b@,
            s.wf(),
            solver_sized(s),
            c <= COLS,
            face_down == s.fd_nonempty_upto(c as int),
            breaks == s.breaks_upto(c as int),
            empties == s.empties_upto(c as int),
        decreases COLS - c,
    {
        proof {
            lemma_heuristic_parts(s, c as int + 1);
            crate::board::lemma_sum_lens_mono(s.cols, c as int + 1, COLS as int);
        }
        let col = &b.cols[c];
        if col.len() == 0 {
            empties = empties + 1;
            c = c + 1;
            continue;
        }
        let fd = b.face_down[c] as usize;
        face_down = face_down + fd as u32;
        let end = col.len() - 1;
        let mut i = fd;
        let ghost base = breaks;
        proof {
            assert(s.col_wf(c as int));
            lemma_col_breaks_bound(col@, fd as int, end as int);
        }
        while i < end
            invariant
                col@ == s.cols[c as int],
                end == col@.len() - 1,
                fd <= i || i >= end,
                fd == s.face_down[c as int],
                breaks == base + col_breaks(col@, fd as int, i as int),
                base + col_breaks(col@, fd as int, end as int) <= MAX_SOLVE_CARDS,
                i <= end || i == fd,
            decreases end - i,
        {
            proof {
                lemma_col_breaks_mono(col@, fd as int, i as int + 1, end as int);
            }
            let upper = col[i];
            let lower = col[i + 1];
            if !(suit(upper) == suit(lower) && rank(upper) == rank(lower) + 1) {
                breaks = breaks + 1;
            }
            i = i + 1;
        }
        proof {
            if i > end {
                assert(col_breaks(col@, fd as int, end as int) == 0);
            }
        }
        c = c + 1;
    }
    proof {
        assert(face_down <= MAX_SOLVE_CARDS);
        assert(breaks <= MAX_SOLVE_CARDS);
        assert(face_down * fd_weight <= MAX_SOLVE_CARDS * fd_weight) by (nonlinear_arith)
            requires
                face_down <= MAX_SOLVE_CARDS,
        ;
    }
    let stock = b.stock.len() as u32;
    let remaining_runs = 8 - b.completed as u32;
    let base = face_down * fd_weight + breaks * 3 + stock * 2 + remaining_runs * 6;
    if base >= empties * 3 { base - empties * 3 } else { 0 }
}

proof fn lemma_col_breaks_mono(col: Seq<Card>, fd: int, a: int, b: int)
    requires
        a <= b,
    ensures
        col_breaks(col, fd, a) <= col_breaks(col, fd, b),
    decreases b - a,
{
    if a < b {
        lemma_col_breaks_mono(col, fd, a, b - 1);
    }
}

/// Whether another search has asked this one to stop.
fn stop_requested(stop: &std::sync::atomic::AtomicBool) -> bool {
    stop.load(std::sync::atomic::Ordering::Relaxed)
}


/// The index of the first listed move from `s`, from index `k` on, after
/// which all eight runs are complete.
pub open spec fn first_winning_from(s: BoardState, k: int) -> Option<int>
    decreases s.moves().len() - k,
{
    if k < 0 || k >= s.moves().len() {
        None
    } else if s.after(s.moves()[k]).completed == 8 {
        Some(k)
    } else {
        first_winning_from(s, k + 1)
    }
}

proof fn lemma_first_winning_from(s: BoardState, k: int)
    requires
        0 <= k,
    ensures
        first_winning_from(s, k) matches Some(j) ==> k <= j < s.moves().len() && s.after(s.moves()[j]).completed == 8,
    decreases s.moves().len() - k,
{
    if k < s.moves().len() {
        lemma_first_winning_from(s, k + 1);
    }
}

/// Whether a tree entry is sound: its node exists and its `g` is at most its index.
pub open spec fn entry_ok(e: Entry, arena_len: nat) -> bool {
    e.2 < arena_len && e.1 <= e.2
}

/// The board at tree node `i`.
pub open spec fn node_board(s: BoardState, arena: Seq<Node>, i: int) -> BoardState {
    replay(s, path(arena, i))
}

/// Weighted-A* search ordered by `g + w*h`. Returns the solution (if found)
/// and whether the open set was exhausted within budget (converged).
///
/// Memory-lean: nodes hold no board, and expansion uses make/undo on one
/// working board instead of cloning per child.
#[verifier::spinoff_prover]
#[verifier::rlimit(60)]
fn astar_short(
    start: &Board,
    node_limit: u64,
    nodes: &mut u64,
    w: u32,
    fdw: u32,
    stop: Option<&std::sync::atomic::AtomicBool>,
) -> (r: (Option<Vec<Move>>, bool))
    requires
        start@.wf(),
        solver_sized(start@),
        *old(nodes) <= node_limit,
        heuristic_bound(fdw) <= u32::MAX,
        node_limit + w * heuristic_bound(fdw) + 3 <= u32::MAX,
    ensures
        r.0 matches Some(p) ==> legal_plan(start@, p@) && replay(start@, p@).completed == 8,
        *old(nodes) <= *final(nodes) <= node_limit + 1,
        first_winning_from(start@, 0) matches Some(j) ==> (*old(nodes) + j < node_limit && stop is None ==> (
        r.0 matches Some(p) && p@ == seq![start@.moves()[j]] && *final(nodes) == *old(nodes) + j + 1)),
        *final(nodes) > node_limit ==> r.0 is None && !r.1,
        r.0 is Some || r.1 ==> *final(nodes) <= node_limit,
        r.0 is None && r.1 ==> first_winning_from(start@, 0) is None,
        r.0 is None && r.1 && start@.completed != 8 && hash_separates(start@) ==> forall|p: Seq<Move>| !#[trigger] wins(start@, p),
        stop is None && r.0 is None && !r.1 ==> *final(nodes) > node_limit,
        search_fits(start@, node_limit) && *old(nodes) == 0 ==> *final(nodes) <= node_limit,
{
    broadcast use vstd::multiset::group_multiset_axioms;

    let ghost s = start@;
    let ghost n0 = *nodes;
    let mut arena: Vec<Node> = Vec::new();
    arena.push(Node { parent: ROOT, mv: Move::Deal });
    let mut closed: HashSet<u64> = HashSet::new();
    let mut open = OpenSet::new();
    proof {
        lemma_heuristic_fits(start@, fdw);
    }
    let h0 = heuristic(start, fdw);
    closed.insert(start.hash());
    proof {
        assert(path(arena@, 0) == Seq::<Move>::empty());
        assert(w * h0 <= w * heuristic_bound(fdw)) by (nonlinear_arith)
            requires
                h0 <= heuristic_bound(fdw),
        ;
    }
    let pri0 = w * h0;
    open.push((pri0, 0, 0));
    let ghost root_entry: Entry = (pri0, 0, 0);
    let ghost mut at_root = true;
    let ghost mut expanded: Set<int> = Set::empty();
    assert(open.contents() =~= Multiset::<Entry>::empty().insert(root_entry));
    let ghost mut pops: int = 0;
    proof {
        assert(closed@ =~= set![s.hash()]);
        assert(node_board(s, arena@, 0) == s);
        assert(open.contents().contains(root_entry));
        lemma_hashes_start(s);
    }
    loop
        invariant
            hashes_counted(s, closed@, open.size() as int, pops),
            *nodes - n0 <= pops * MOVES_BOUND,
            s == start@,
            s.wf(),
            solver_sized(s),
            heuristic_bound(fdw) <= u32::MAX,
            node_limit + w * heuristic_bound(fdw) + 3 <= u32::MAX,
            arena_ok(s, arena@),
            n0 <= *nodes <= node_limit,
            n0 == *old(nodes),
            arena@.len() <= *nodes - n0 + 1,
            forall|e: Entry| #[trigger] open.contents().contains(e) ==> entry_ok(e, arena@.len()),
            at_root ==> *nodes == n0 && open.contents() == Multiset::<Entry>::empty().insert(root_entry),
            root_entry.1 == 0 && root_entry.2 == 0,
            !at_root ==> first_winning_from(s, 0) is None,
            closed@.contains(s.hash()),
            forall|h: u64| closed@.contains(h) ==> exists|i: int| 0 <= i < arena@.len() && (#[trigger] node_board(s, arena@, i)).hash() == h,
            s.completed != 8 ==> forall|i: int| 0 <= i < arena@.len() ==> (#[trigger] node_board(s, arena@, i)).completed != 8,
            s.completed != 8 ==> forall|i: int| 0 <= i < arena@.len() && expanded.contains(i) ==> explored(
                #[trigger] node_board(s, arena@, i),
                closed@,
                won_goal(),
            ),
            forall|i: int| expanded.contains(i) ==> 0 <= i < arena@.len(),
            forall|i: int| 0 <= i < arena@.len() && !expanded.contains(i) ==> exists|e: Entry| #[trigger] open.contents().contains(e) && e.2 == i,
        decreases 2 * (node_limit - *nodes) + open.size(),
    {
        let ghost measure = 2 * (node_limit - *nodes) + open.size();
        let ghost before = open.contents();
        let ghost size_before = open.size();
        let popped = open.pop();
        let (g, idx) = match popped {
            Some(e) => {
                assert(before.contains(e));
                (e.1, e.2)
            },
            None => {
                proof {
                    if at_root {
                        assert(before.count(root_entry) > 0);
                    }
                    if s.completed != 8 && hash_separates(s) {
                        assert forall|h: u64| closed@.contains(h) && !Set::<u64>::empty().contains(h) implies exists|y: BoardState| #[trigger] accounts_for(s, y, h, closed@, won_goal()) by {
                            let i = choose|i: int| 0 <= i < arena@.len() && (#[trigger] node_board(s, arena@, i)).hash() == h;
                            if !expanded.contains(i) {
                                let e = choose|e: Entry| #[trigger] before.contains(e) && e.2 == i;
                                assert(before.contains(e));
                            }
                            assert(legal_plan(s, path(arena@, i)));
                            assert(reaches(s, node_board(s, arena@, i)));
                            assert(accounts_for(s, node_board(s, arena@, i), h, closed@, won_goal()));
                        }
                        assert forall|p: Seq<Move>| !#[trigger] wins(s, p) by {
                            lemma_exhausted(s, closed@, p, won_goal());
                        }
                    }
                }
                return (None, true);  // open exhausted: no (further) solution reachable
            },
        };
        proof {
            lemma_hashes_pop(s, closed@, size_before as int, pops);
            pops = pops + 1;
            assert forall|e: Entry| #[trigger] open.contents().contains(e) implies entry_ok(e, arena@.len()) by {
                assert(open.contents().count(e) <= before.count(e));
                assert(before.contains(e));
            }
            assert forall|i: int| 0 <= i < arena@.len() && !expanded.contains(i) && i != idx implies exists|e: Entry| #[trigger] open.contents().contains(e) && e.2 == i by {
                let e = choose|e: Entry| #[trigger] before.contains(e) && e.2 == i;
                assert(e != popped->0);
                assert(open.contents().contains(e));
            }
        }
        proof {
            if at_root {
                assert(idx == 0 && g == 0) by {
                    let e = popped->0;
                    assert(before.contains(e));
                    assert(e == root_entry);
                }
            }
        }
        // Another portfolio worker already won: abandon this search.
        if let Some(flag) = stop {
            if stop_requested(flag) {
                return (None, false);
            }
        }
        // Rebuild this node's board once, then expand with make/undo.
        let mut board = board_at(start, &arena, idx);
        let ghost here = path(arena@, idx as int);
        let mut moves: Vec<Move> = Vec::new();
        board.gen_moves(&mut moves);
        proof {
            lemma_legal_plan_wf(s, here);
            lemma_moves_bound(board@);
            if at_root {
                assert(here == Seq::<Move>::empty());
                assert(moves@ =~= s.moves());
            }
        }
        let mut mi: usize = 0;
        while mi < moves.len()
            invariant
                hashes_counted(s, closed@, open.size() as int, pops),
                pops >= 1,
                *nodes - n0 <= (pops - 1) * MOVES_BOUND + mi,
                moves@.len() <= MOVES_BOUND,
                s == start@,
                s.wf(),
                solver_sized(s),
                at_root ==> idx == 0 && here == Seq::<Move>::empty() && moves@ == s.moves() && *nodes == n0 + mi
                    && first_winning_from(s, 0) == first_winning_from(s, mi as int),
                !at_root ==> first_winning_from(s, 0) is None,
                heuristic_bound(fdw) <= u32::MAX,
                node_limit + w * heuristic_bound(fdw) + 3 <= u32::MAX,
                arena_ok(s, arena@),
                n0 <= *nodes <= node_limit,
                n0 == *old(nodes),
                arena@.len() <= *nodes - n0 + 1,
                forall|e: Entry| #[trigger] open.contents().contains(e) ==> entry_ok(e, arena@.len()),
                2 * (node_limit - *nodes) + open.size() < measure,
                idx < arena@.len(),
                g <= idx,
                here == path(arena@, idx as int),
                legal_plan(s, here),
                board@ == replay(s, here),
                board@.wf(),
                board@.card_count() + 13 * board@.completed == s.card_count() + 13 * s.completed,
                moves@ == board@.moves(),
                mi <= moves@.len(),
                closed@.contains(s.hash()),
                forall|h: u64| closed@.contains(h) ==> exists|i: int| 0 <= i < arena@.len() && (#[trigger] node_board(s, arena@, i)).hash() == h,
                s.completed != 8 ==> forall|i: int| 0 <= i < arena@.len() ==> (#[trigger] node_board(s, arena@, i)).completed != 8,
                s.completed != 8 ==> forall|i: int| 0 <= i < arena@.len() && expanded.contains(i) ==> explored(
                    #[trigger] node_board(s, arena@, i),
                    closed@,
                    won_goal(),
                ),
                forall|i: int| expanded.contains(i) ==> 0 <= i < arena@.len(),
                forall|i: int| 0 <= i < arena@.len() && !expanded.contains(i) && i != idx ==> exists|e: Entry| #[trigger] open.contents().contains(e) && e.2 == i,
                forall|j: int| 0 <= j < mi ==> closed@.contains(#[trigger] board@.after(moves@[j]).hash()),
            decreases moves@.len() - mi,
        {
            let m = moves[mi];
            *nodes = *nodes + 1;
            if *nodes > node_limit {
                proof {
                    if at_root {
                        lemma_first_winning_from(s, mi as int);
                    }
                    if search_fits(s, node_limit) {
                        lemma_hashes_fit(s, closed@, open.size() as int, pops, node_limit);
                    }
                }
                return (None, false);
            }
            let ghost parent = board@;
            proof {
                assert(parent.moves().contains(m)) by {
                    assert(parent.moves()[mi as int] == m);
                }
                lemma_step_legal(parent, m);
                lemma_legal_plan_push(s, here, m);
            }
            let undo = board.make(m);
            if board.is_won() {
                let line = reconstruct(&arena, idx, m);
                proof {
                    if at_root {
                        assert(line@ =~= seq![m]);
                        assert(first_winning_from(s, mi as int) == Some(mi as int));
                    }
                }
                // Converged only if nothing is left to explore.
                let converged = open.is_empty() && mi + 1 == moves.len();
                return (Some(line), converged);
            }
            proof {
                if at_root {
                    assert(first_winning_from(s, mi as int) == first_winning_from(s, mi + 1));
                }
            }
            let ghost closed_before = closed@;
            let ghost arena_before = arena@;
            let ghost open_before = open.contents();
            let ghost open_size_before = open.size();
            let ghost child = board@;
            proof {
                assert(board@ == parent.after(m));
                assert(moves@[mi as int] == m);
            }
            let fresh = closed.insert(board.hash());
            if fresh {
                let ci = arena.len() as u32;
                proof {
                    lemma_heuristic_fits(board@, fdw);
                }
                let h = heuristic(&board, fdw);
                proof {
                    assert(w * h <= w * heuristic_bound(fdw)) by (nonlinear_arith)
                        requires
                            h <= heuristic_bound(fdw),
                    ;
                }
                let pri = (g + 1) + w * h;
                proof {
                    lemma_arena_push(s, arena@, idx, m);
                    lemma_path_push(arena@, Node { parent: idx, mv: m }, idx as int);
                }
                arena.push(Node { parent: idx, mv: m });
                let ghost before_push = open.contents();
                let g1 = g + 1;
                open.push((pri, g1, ci));
                proof {
                    assert forall|e: Entry| #[trigger] open.contents().contains(e) implies entry_ok(e, arena@.len()) by {
                        if e != (pri, g1, ci) {
                            assert(before_push.contains(e));
                        }
                    }
                    let x = Node { parent: idx, mv: m };
                    assert(arena@ == arena_before.push(x));
                    assert forall|i: int| 0 <= i < arena_before.len() implies #[trigger] node_board(s, arena@, i) == node_board(
                        s,
                        arena_before,
                        i,
                    ) by {
                        lemma_path_push(arena_before, x, i);
                    }
                    assert(node_board(s, arena@, ci as int) == child);
                    lemma_reach_hash(s, here.push(m));
                    lemma_hashes_insert(s, closed_before, open_size_before as int, pops, child.hash());
                    assert forall|hh: u64| closed@.contains(hh) implies exists|i: int| 0 <= i < arena@.len() && (#[trigger] node_board(
                        s,
                        arena@,
                        i,
                    )).hash() == hh by {
                        if hh == child.hash() {
                            assert(node_board(s, arena@, ci as int).hash() == hh);
                        } else {
                            assert(closed_before.contains(hh));
                            let i = choose|i: int| 0 <= i < arena_before.len() && (#[trigger] node_board(s, arena_before, i)).hash() == hh;
                            assert(node_board(s, arena@, i) == node_board(s, arena_before, i));
                        }
                    }
                    if s.completed != 8 {
                        assert forall|i: int| 0 <= i < arena@.len() && expanded.contains(i) implies explored(
                            #[trigger] node_board(s, arena@, i),
                            closed@,
                            won_goal(),
                        ) by {
                            assert(node_board(s, arena@, i) == node_board(s, arena_before, i));
                            lemma_explored_grows(node_board(s, arena_before, i), closed_before, closed@, won_goal());
                        }
                    }
                    assert forall|i: int| 0 <= i < arena@.len() && !expanded.contains(i) && i != idx implies exists|e: Entry| #[trigger] open.contents().contains(e) && e.2 == i by {
                        if i == ci {
                            assert(open.contents().contains((pri, g1, ci)));
                        } else {
                            let e = choose|e: Entry| #[trigger] open_before.contains(e) && e.2 == i;
                            assert(open.contents().contains(e));
                        }
                    }
                }
            }
            proof {
                if !fresh {
                    assert(closed@ =~= closed_before);
                }
                assert(closed@.contains(child.hash()));
                assert(closed_before.subset_of(closed@));
            }
            board.undo(&undo);
            mi = mi + 1;
            proof {
                assert forall|j: int| 0 <= j < mi implies closed@.contains(#[trigger] board@.after(moves@[j]).hash()) by {
                    if j < mi - 1 {
                        assert(closed_before.contains(board@.after(moves@[j]).hash()));
                    }
                }
            }
        }
        proof {
            if at_root {
                assert(first_winning_from(s, moves@.len() as int) is None);
            }
            at_root = false;
            assert(board@ == node_board(s, arena@, idx as int));
            if s.completed != 8 {
                assert forall|mv: Move| board@.moves().contains(mv) implies closed@.contains(#[trigger] board@.after(mv).hash()) by {
                    let j = choose|j: int| 0 <= j < moves@.len() && moves@[j] == mv;
                    assert(closed@.contains(board@.after(moves@[j]).hash()));
                }
                assert(explored(board@, closed@, won_goal()));
            }
            expanded = expanded.insert(idx as int);
        }
    }
}


/// How promising a move looks to the depth-first fallback (lower is tried
/// first): emptying a column or flipping a face-down card 0, building a
/// same-suit run 1, any other tableau move 3, dealing 4.
pub open spec fn move_key_spec(s: BoardState, m: Move) -> u8 {
    match m {
        Move::Deal => 4,
        Move::Tableau { from, to, count } => {
            let remaining = s.cols[from as int].len() - count;
            let fd = s.face_down[from as int];
            if remaining == 0 {
                0
            } else if remaining == fd {
                0
            } else if to < COLS && s.cols[to as int].len() > 0 && same_suit_step(
                s.cols[to as int].last(),
                s.cols[from as int][remaining],
            ) {
                1
            } else {
                3
            }
        },
    }
}

/// The moves among the first `n` of `ms` whose key is `v`, in their order.
pub open spec fn with_key(s: BoardState, ms: Seq<Move>, v: u8, n: int) -> Seq<Move>
    decreases n,
{
    if n <= 0 {
        Seq::empty()
    } else {
        with_key(s, ms, v, n - 1) + if move_key_spec(s, ms[n - 1]) == v {
            seq![ms[n - 1]]
        } else {
            Seq::empty()
        }
    }
}

/// `ms` stably sorted by key: all key-0 moves in their order, then key 1, and
/// so on up to key `v - 1`.
pub open spec fn keys_below(s: BoardState, ms: Seq<Move>, v: int) -> Seq<Move>
    decreases v,
{
    if v <= 0 {
        Seq::empty()
    } else {
        keys_below(s, ms, v - 1) + with_key(s, ms, (v - 1) as u8, ms.len() as int)
    }
}

/// The legal moves of `s`, stably sorted by `move_key_spec`.
pub open spec fn ordered_moves(s: BoardState) -> Seq<Move> {
    keys_below(s, s.moves(), 5)
}

proof fn lemma_with_key_sub(s: BoardState, ms: Seq<Move>, v: u8, n: int)
    requires
        0 <= n <= ms.len(),
    ensures
        forall|i: int| 0 <= i < with_key(s, ms, v, n).len() ==> ms.contains(#[trigger] with_key(s, ms, v, n)[i]),
    decreases n,
{
    if n > 0 {
        lemma_with_key_sub(s, ms, v, n - 1);
        let a = with_key(s, ms, v, n - 1);
        let b = if move_key_spec(s, ms[n - 1]) == v {
            seq![ms[n - 1]]
        } else {
            Seq::empty()
        };
        assert forall|i: int| 0 <= i < (a + b).len() implies ms.contains(#[trigger] (a + b)[i]) by {
            if i < a.len() {
                assert((a + b)[i] == a[i]);
            } else {
                assert((a + b)[i] == ms[n - 1]);
            }
        }
    }
}

proof fn lemma_keys_below_sub(s: BoardState, ms: Seq<Move>, v: int)
    ensures
        forall|i: int| 0 <= i < keys_below(s, ms, v).len() ==> ms.contains(#[trigger] keys_below(s, ms, v)[i]),
    decreases v,
{
    if v > 0 {
        lemma_keys_below_sub(s, ms, v - 1);
        lemma_with_key_sub(s, ms, (v - 1) as u8, ms.len() as int);
        let a = keys_below(s, ms, v - 1);
        let b = with_key(s, ms, (v - 1) as u8, ms.len() as int);
        assert forall|i: int| 0 <= i < (a + b).len() implies ms.contains(#[trigger] (a + b)[i]) by {
            if i < a.len() {
                assert((a + b)[i] == a[i]);
            } else {
                assert((a + b)[i] == b[i - a.len()]);
            }
        }
    }
}

/// Every move of `ordered_moves` is a legal move.
proof fn lemma_with_key_lens(s: BoardState, ms: Seq<Move>, n: int)
    requires
        0 <= n <= ms.len(),
    ensures
        with_key(s, ms, 0, n).len() + with_key(s, ms, 1, n).len() + with_key(s, ms, 2, n).len() + with_key(s, ms, 3, n).len()
            + with_key(s, ms, 4, n).len() == n,
    decreases n,
{
    if n > 0 {
        lemma_with_key_lens(s, ms, n - 1);
    }
}

/// Ordering the moves keeps how many there are.
pub proof fn lemma_ordered_moves_len(s: BoardState)
    ensures
        ordered_moves(s).len() == s.moves().len(),
{
    let ms = s.moves();
    lemma_with_key_lens(s, ms, ms.len() as int);
    reveal_with_fuel(keys_below, 6);
}

pub proof fn lemma_ordered_moves_legal(s: BoardState)
    ensures
        forall|i: int| 0 <= i < ordered_moves(s).len() ==> s.moves().contains(#[trigger] ordered_moves(s)[i]),
{
    lemma_keys_below_sub(s, s.moves(), 5);
}

proof fn lemma_with_key_has(s: BoardState, ms: Seq<Move>, v: u8, n: int, i: int)
    requires
        0 <= i < n <= ms.len(),
        move_key_spec(s, ms[i]) == v,
    ensures
        with_key(s, ms, v, n).contains(ms[i]),
    decreases n,
{
    let a = with_key(s, ms, v, n - 1);
    let b = if move_key_spec(s, ms[n - 1]) == v { seq![ms[n - 1]] } else { Seq::<Move>::empty() };
    assert(with_key(s, ms, v, n) == a + b);
    if i < n - 1 {
        lemma_with_key_has(s, ms, v, n - 1, i);
        let k = choose|k: int| 0 <= k < a.len() && a[k] == ms[i];
        assert((a + b)[k] == ms[i]);
    } else {
        assert((a + b)[a.len() as int] == ms[i]);
    }
}

proof fn lemma_keys_below_has(s: BoardState, ms: Seq<Move>, v: int, i: int)
    requires
        0 <= i < ms.len(),
        move_key_spec(s, ms[i]) < v,
    ensures
        keys_below(s, ms, v).contains(ms[i]),
    decreases v,
{
    let a = keys_below(s, ms, v - 1);
    let b = with_key(s, ms, (v - 1) as u8, ms.len() as int);
    assert(keys_below(s, ms, v) == a + b);
    if move_key_spec(s, ms[i]) < v - 1 {
        lemma_keys_below_has(s, ms, v - 1, i);
        let k = choose|k: int| 0 <= k < a.len() && a[k] == ms[i];
        assert((a + b)[k] == ms[i]);
    } else {
        lemma_with_key_has(s, ms, (v - 1) as u8, ms.len() as int, i);
        let k = choose|k: int| 0 <= k < b.len() && b[k] == ms[i];
        assert((a + b)[a.len() + k] == ms[i]);
    }
}

/// The ordering leaves no legal move out.
pub proof fn lemma_ordered_moves_complete(s: BoardState, m: Move)
    requires
        s.moves().contains(m),
    ensures
        ordered_moves(s).contains(m),
{
    let i = choose|i: int| 0 <= i < s.moves().len() && s.moves()[i] == m;
    lemma_keys_below_has(s, s.moves(), 5, i);
}

/// Lower key = tried first. Prefer moves that make real progress (empty a
/// column, flip a face-down card, or extend a same-suit run), and deal from
/// the stock only as a last resort.
fn move_key(b: &Board, m: &Move) -> (k: u8)
    requires
        b@.wf(),
        b@.can_make(*m),
    ensures
        k == move_key_spec(b@, *m),
{
    match *m {
        Move::Deal => 4,
        Move::Tableau { from, to, count } => {
            let (from, to, count) = (from as usize, to as usize, count as usize);
            let remaining = b.cols[from].len() - count;
            let fd = b.face_down[from] as usize;
            if remaining == 0 {
                return 0;  // empties a column
            }
            if remaining == fd {
                return 0;  // flips a face-down card
            }
            if to < COLS && b.cols[to].len() > 0 {
                let top = b.cols[to][b.cols[to].len() - 1];
                let moved_bottom = b.cols[from][remaining];
                if suit(top) == suit(moved_bottom) && rank(top) == rank(moved_bottom) + 1 {
                    return 1;  // builds a genuine same-suit run
                }
            }
            3
        },
    }
}

/// The legal moves at the current state, ordered best-first so the
/// depth-first fallback finds a first solution quickly.
pub fn generate(board: &Board) -> (moves: Vec<Move>)
    requires
        board@.wf(),
    ensures
        moves@ == ordered_moves(board@),
{
    let ghost s = board@;
    let mut all: Vec<Move> = Vec::new();
    board.gen_moves(&mut all);
    assert(all@ =~= s.moves());
    proof {
        lemma_moves_can_make(s);
    }
    let mut out: Vec<Move> = Vec::new();
    let mut v: u8 = 0;
    while v < 5
        invariant
            s == board@,
            s.wf(),
            all@ == s.moves(),
            forall|i: int| 0 <= i < all@.len() ==> s.can_make(#[trigger] all@[i]),
            v <= 5,
            out@ == keys_below(s, all@, v as int),
        decreases 5 - v,
    {
        let ghost base = out@;
        let mut i: usize = 0;
        while i < all.len()
            invariant
                s == board@,
                s.wf(),
                all@ == s.moves(),
                forall|i: int| 0 <= i < all@.len() ==> s.can_make(#[trigger] all@[i]),
                v < 5,
                i <= all@.len(),
                out@ == base + with_key(s, all@, v, i as int),
            decreases all@.len() - i,
        {
            assert(s.can_make(all@[i as int]));
            if move_key(board, &all[i]) == v {
                out.push(all[i]);
            }
            assert(out@ =~= base + with_key(s, all@, v, i + 1));
            i = i + 1;
        }
        v = v + 1;
    }
    out
}

/// The board is not won, and the first move the depth-first searches try
/// (in `ordered_moves` order) wins it.
pub open spec fn first_try_wins(s: BoardState) -> bool {
    &&& s.completed != 8
    &&& ordered_moves(s).len() > 0
    &&& s.after(ordered_moves(s)[0]).completed == 8
}

/// The line the depth-first searches follow first from `s`: `n` times over, the first
/// move of `ordered_moves` on the board reached so far.
pub open spec fn first_choice_line(s: BoardState, n: nat) -> Seq<Move>
    decreases n,
{
    if n == 0 {
        Seq::empty()
    } else {
        let m = ordered_moves(s)[0];
        seq![m] + first_choice_line(s.after(m), (n - 1) as nat)
    }
}

/// The hashes of the boards that line starts its `n` moves from.
pub open spec fn first_choice_hashes(s: BoardState, n: nat) -> Seq<u64>
    decreases n,
{
    if n == 0 {
        Seq::empty()
    } else {
        seq![s.hash()] + first_choice_hashes(s.after(ordered_moves(s)[0]), (n - 1) as nat)
    }
}

/// Following the first choices from `s` wins after exactly `n` moves: each
/// board before the last is unwon and lists a move.
pub open spec fn first_choices_win(s: BoardState, n: nat) -> bool
    decreases n,
{
    if n == 0 {
        s.completed == 8
    } else {
        &&& s.completed != 8
        &&& ordered_moves(s).len() > 0
        &&& first_choices_win(s.after(ordered_moves(s)[0]), (n - 1) as nat)
    }
}

/// Entered at `s` with the boards `visited` already seen and `nodes` of
/// `node_limit` spent, the solver can follow its first choices to a win in
/// `n` moves: they win, the boards they start from are new and distinct, and
/// the budget covers one node for each.
pub open spec fn first_choices_fit(s: BoardState, n: nat, visited: Set<u64>, nodes: u64, node_limit: u64) -> bool {
    &&& first_choices_win(s, n)
    &&& first_choice_hashes(s, n).no_duplicates()
    &&& forall|i: int| 0 <= i < n ==> !visited.contains(#[trigger] first_choice_hashes(s, n)[i])
    &&& nodes + n <= node_limit
}

proof fn lemma_first_choice_hashes_len(s: BoardState, n: nat)
    ensures
        first_choice_hashes(s, n).len() == n,
    decreases n,
{
    if n > 0 {
        lemma_first_choice_hashes_len(s.after(ordered_moves(s)[0]), (n - 1) as nat);
    }
}

/// One step along the first choices: what fits from `s` in `n` moves fits
/// from the next board in `n - 1`, once `s` is seen and its node spent.
pub proof fn lemma_first_choices_step(s: BoardState, n: nat, visited: Set<u64>, nodes: u64, node_limit: u64)
    requires
        n >= 1,
        first_choices_fit(s, n, visited, nodes, node_limit),
    ensures
        first_choices_fit(s.after(ordered_moves(s)[0]), (n - 1) as nat, visited.insert(s.hash()), (nodes + 1) as u64, node_limit),
        first_choice_line(s, n) == seq![ordered_moves(s)[0]] + first_choice_line(s.after(ordered_moves(s)[0]), (n - 1) as nat),
        !visited.contains(s.hash()),
{
    let t = s.after(ordered_moves(s)[0]);
    let hs = first_choice_hashes(s, n);
    let ht = first_choice_hashes(t, (n - 1) as nat);
    lemma_first_choice_hashes_len(t, (n - 1) as nat);
    assert(hs == seq![s.hash()] + ht);
    assert(hs[0] == s.hash());
    assert forall|i: int, j: int| 0 <= i < ht.len() && 0 <= j < ht.len() && i != j implies ht[i] != ht[j] by {
        assert(ht[i] == hs[i + 1]);
        assert(ht[j] == hs[j + 1]);
    }
    assert forall|i: int| 0 <= i < n - 1 implies !visited.insert(s.hash()).contains(#[trigger] ht[i]) by {
        assert(ht[i] == hs[i + 1]);
        assert(!visited.contains(hs[i + 1]));
    }
}

/// The board after `k` first choices from `s`.
pub open spec fn choice_board(s: BoardState, k: nat) -> BoardState {
    replay(s, first_choice_line(s, k))
}

proof fn lemma_replay_prepend(s: BoardState, m: Move, q: Seq<Move>)
    ensures
        replay(s, seq![m] + q) == replay(s.after(m), q),
    decreases q.len(),
{
    if q.len() == 0 {
        assert(seq![m] + q =~= seq![m]);
        assert(seq![m].drop_last() =~= Seq::<Move>::empty());
        assert(replay(s, seq![m]) == replay(s, Seq::<Move>::empty()).after(m));
    } else {
        lemma_replay_prepend(s, m, q.drop_last());
        let r = seq![m] + q;
        assert(r.drop_last() =~= seq![m] + q.drop_last());
        assert(r.last() == q.last());
        assert(replay(s, r) == replay(s, r.drop_last()).after(r.last()));
        assert(replay(s.after(m), q) == replay(s.after(m), q.drop_last()).after(q.last()));
    }
}

/// The first-choice line grows at its end: one more first choice, made on
/// the board the line has reached.
proof fn lemma_choice_back(s: BoardState, k: nat)
    ensures
        first_choice_line(s, k + 1) == first_choice_line(s, k).push(ordered_moves(choice_board(s, k))[0]),
        choice_board(s, k + 1) == choice_board(s.after(ordered_moves(s)[0]), k),
    decreases k,
{
    let m0 = ordered_moves(s)[0];
    let t = s.after(m0);
    lemma_replay_prepend(s, m0, first_choice_line(t, k));
    if k == 0 {
        assert(first_choice_line(t, 0) =~= Seq::<Move>::empty());
        assert(first_choice_line(s, 1) =~= seq![m0]);
        assert(first_choice_line(s, 0).push(m0) =~= seq![m0]);
    } else {
        lemma_choice_back(t, (k - 1) as nat);
        lemma_replay_prepend(s, m0, first_choice_line(t, (k - 1) as nat));
        assert(choice_board(s, k) == choice_board(t, (k - 1) as nat));
        assert(first_choice_line(s, k + 1) =~= first_choice_line(s, k).push(ordered_moves(choice_board(s, k))[0]));
    }
}

/// Read step by step, first choices that win in `n` moves pass unwon boards
/// that each list a move, and the hashes they record are those boards'.
proof fn lemma_choices_win_steps(s: BoardState, n: nat)
    requires
        first_choices_win(s, n),
    ensures
        forall|k: nat| k < n ==> (#[trigger] choice_board(s, k)).completed != 8 && ordered_moves(choice_board(s, k)).len() > 0,
        choice_board(s, n).completed == 8,
        forall|k: int| 0 <= k < n ==> (#[trigger] first_choice_hashes(s, n)[k]) == choice_board(s, k as nat).hash(),
    decreases n,
{
    if n == 0 {
        assert(first_choice_line(s, 0) =~= Seq::<Move>::empty());
    } else {
        let t = s.after(ordered_moves(s)[0]);
        lemma_choices_win_steps(t, (n - 1) as nat);
        lemma_first_choice_hashes_len(t, (n - 1) as nat);
        assert(first_choice_line(s, 0) =~= Seq::<Move>::empty());
        assert(choice_board(s, 0) == s);
        assert forall|k: nat| 0 < k <= n implies #[trigger] choice_board(s, k) == choice_board(t, (k - 1) as nat) by {
            lemma_choice_back(s, (k - 1) as nat);
        }
        assert forall|k: nat| k < n implies (#[trigger] choice_board(s, k)).completed != 8 && ordered_moves(
            choice_board(s, k),
        ).len() > 0 by {
            if k > 0 {
                assert(choice_board(s, k) == choice_board(t, (k - 1) as nat));
            }
        }
        assert(choice_board(s, n) == choice_board(t, (n - 1) as nat));
        assert forall|k: int| 0 <= k < n implies (#[trigger] first_choice_hashes(s, n)[k]) == choice_board(s, k as nat).hash() by {
            if k > 0 {
                assert(first_choice_hashes(s, n)[k] == first_choice_hashes(t, (n - 1) as nat)[k - 1]);
                assert(choice_board(s, k as nat) == choice_board(t, (k - 1) as nat));
            }
        }
    }
}

/// A frame of the depth-first search: the moves at one depth and the next to try.
struct Frame {
    moves: Vec<Move>,
    idx: usize,
}

/// Frame `k` holds the ordered moves of the board after the first `k` moves of `p`.
spec fn frames_ok(s: BoardState, p: Seq<Move>, st: Seq<Frame>) -> bool {
    &&& forall|k: int| 0 <= k < st.len() ==> (#[trigger] st[k]).moves@ == ordered_moves(replay(s, p.take(k)))
    &&& forall|k: int| 0 <= k < st.len() ==> (#[trigger] st[k]).idx <= st[k].moves@.len()
}

/// Record `k` takes the board after `k + 1` moves of `p` back to the board after `k`.
spec fn undos_ok(s: BoardState, p: Seq<Move>, us: Seq<Undo>) -> bool {
    forall|k: int| 0 <= k < us.len() ==> {
        &&& replay(s, p.take(k + 1)).undoes(#[trigger] us[k])
        &&& replay(s, p.take(k + 1)).unmake(us[k]) == replay(s, p.take(k))
    }
}

/// Every board hash in `visited` is that of a board met in the first `k`
/// first choices from `s`.
#[verifier::opaque]
spec fn seen_on_dive(s: BoardState, visited: Set<u64>, k: nat) -> bool {
    forall|h: u64| visited.contains(h) ==> exists|j: nat| j <= k && (#[trigger] choice_board(s, j)).hash() == h
}

/// Any winning first-choice line that fits the budget is longer than `k`.
#[verifier::opaque]
spec fn dive_ahead(s: BoardState, n0: u64, node_limit: u64, k: nat) -> bool {
    forall|n: nat| #[trigger] first_choices_fit(s, n, Set::empty(), n0, node_limit) ==> k < n
}

/// No winning first-choice line fits the budget.
#[verifier::opaque]
spec fn no_dive(s: BoardState, n0: u64, node_limit: u64) -> bool {
    forall|n: nat| !#[trigger] first_choices_fit(s, n, Set::empty(), n0, node_limit)
}

proof fn lemma_dive_start(s: BoardState, n0: u64, node_limit: u64)
    requires
        s.completed != 8,
    ensures
        seen_on_dive(s, set![s.hash()], 0),
        dive_ahead(s, n0, node_limit, 0),
{
    reveal(seen_on_dive);
    reveal(dive_ahead);
    assert(first_choice_line(s, 0) =~= Seq::<Move>::empty());
    assert(choice_board(s, 0) == s);
    assert forall|n: nat| #[trigger] first_choices_fit(s, n, Set::empty(), n0, node_limit) implies 0 < n by {
        if n == 0 {
            assert(first_choices_win(s, n));
        }
    }
}

/// The dive's next board is won: the only line that fits ends there.
proof fn lemma_dive_won(s: BoardState, n0: u64, node_limit: u64, k: nat, n: nat)
    requires
        dive_ahead(s, n0, node_limit, k),
        choice_board(s, k + 1).completed == 8,
        first_choices_fit(s, n, Set::empty(), n0, node_limit),
    ensures
        n == k + 1,
{
    reveal(dive_ahead);
    if n > k + 1 {
        lemma_choices_win_steps(s, n);
        assert(choice_board(s, k + 1).completed != 8);
    }
}

/// The dive goes on to a new, unwon board.
proof fn lemma_dive_step(s: BoardState, n0: u64, node_limit: u64, k: nat, visited: Set<u64>)
    requires
        dive_ahead(s, n0, node_limit, k),
        seen_on_dive(s, visited, k),
        choice_board(s, k + 1).completed != 8,
    ensures
        dive_ahead(s, n0, node_limit, k + 1),
        seen_on_dive(s, visited.insert(choice_board(s, k + 1).hash()), k + 1),
{
    reveal(dive_ahead);
    reveal(seen_on_dive);
    assert forall|n: nat| #[trigger] first_choices_fit(s, n, Set::empty(), n0, node_limit) implies k + 1 < n by {
        if n == k + 1 {
            lemma_choices_win_steps(s, n);
        }
    }
    let v = visited.insert(choice_board(s, k + 1).hash());
    assert forall|h: u64| v.contains(h) implies exists|j: nat| j <= k + 1 && (#[trigger] choice_board(s, j)).hash() == h by {
        if h == choice_board(s, k + 1).hash() {
            assert(choice_board(s, k + 1).hash() == h);
        } else {
            assert(visited.contains(h));
        }
    }
}

/// The dive's next board was seen before: no winning line fits.
proof fn lemma_dive_blocked(s: BoardState, n0: u64, node_limit: u64, k: nat, visited: Set<u64>)
    requires
        dive_ahead(s, n0, node_limit, k),
        seen_on_dive(s, visited, k),
        choice_board(s, k + 1).completed != 8,
        visited.contains(choice_board(s, k + 1).hash()),
    ensures
        no_dive(s, n0, node_limit),
{
    reveal(dive_ahead);
    reveal(seen_on_dive);
    reveal(no_dive);
    assert forall|n: nat| !#[trigger] first_choices_fit(s, n, Set::empty(), n0, node_limit) by {
        if first_choices_fit(s, n, Set::empty(), n0, node_limit) {
            lemma_choices_win_steps(s, n);
            lemma_first_choice_hashes_len(s, n);
            assert(n != k + 1);
            let j = choose|j: nat| j <= k && (#[trigger] choice_board(s, j)).hash() == choice_board(s, k + 1).hash();
            let hs = first_choice_hashes(s, n);
            assert(hs[j as int] == choice_board(s, j).hash());
            assert(hs[k + 1 as int] == choice_board(s, k + 1).hash());
            assert(hs.no_duplicates());
        }
    }
}

/// The dive runs out of budget or of moves: no winning line fits.
proof fn lemma_dive_stops(s: BoardState, n0: u64, node_limit: u64, k: nat)
    requires
        dive_ahead(s, n0, node_limit, k),
        n0 + k + 1 > node_limit || ordered_moves(choice_board(s, k)).len() == 0,
    ensures
        no_dive(s, n0, node_limit),
{
    reveal(dive_ahead);
    reveal(no_dive);
    assert forall|n: nat| !#[trigger] first_choices_fit(s, n, Set::empty(), n0, node_limit) by {
        if first_choices_fit(s, n, Set::empty(), n0, node_limit) {
            lemma_choices_win_steps(s, n);
        }
    }
}

proof fn lemma_no_dive(s: BoardState, n0: u64, node_limit: u64, n: nat)
    requires
        no_dive(s, n0, node_limit),
    ensures
        !first_choices_fit(s, n, Set::empty(), n0, node_limit),
{
    reveal(no_dive);
}

/// The board the depth-first search holds at depth `k` of its line `p`.
spec fn frame_board(s: BoardState, p: Seq<Move>, k: int) -> BoardState {
    replay(s, p.take(k))
}

/// Every hash the search has seen belongs to a board it has explored, or to
/// one of the first `depth` boards of its current line.
#[verifier::opaque]
spec fn dfs_accounted(s: BoardState, visited: Set<u64>, p: Seq<Move>, depth: int) -> bool {
    forall|h: u64|
        visited.contains(h) ==> (exists|y: BoardState| #[trigger] accounts_for(s, y, h, visited, won_goal())) || (exists|k: int|
            0 <= k < depth && (#[trigger] frame_board(s, p, k)).hash() == h)
}

/// Every move a frame has already tried leads to a seen board.
#[verifier::opaque]
spec fn frames_tried(s: BoardState, visited: Set<u64>, p: Seq<Move>, st: Seq<Frame>) -> bool {
    forall|k: int, j: int|
        0 <= k < st.len() && 0 <= j < st[k].idx && j < st[k].moves@.len() ==> visited.contains(
            #[trigger] frame_board(s, p, k).after(st[k].moves@[j]).hash(),
        )
}

/// The search starts from an unwon board with one untried frame.
proof fn lemma_dfs_closed_start(s: BoardState, st: Seq<Frame>)
    requires
        st.len() == 1,
        st[0].idx == 0,
    ensures
        dfs_accounted(s, set![s.hash()], Seq::empty(), 1),
        frames_tried(s, set![s.hash()], Seq::empty(), st),
{
    reveal(dfs_accounted);
    reveal(frames_tried);
    assert(Seq::<Move>::empty().take(0) =~= Seq::<Move>::empty());
    assert(frame_board(s, Seq::empty(), 0) == s);
}

/// The top frame tries its next move, whose board's hash is then seen.
proof fn lemma_dfs_tried(s: BoardState, v: Set<u64>, w: Set<u64>, p: Seq<Move>, st: Seq<Frame>, st2: Seq<Frame>, t: int)
    requires
        frames_tried(s, v, p, st),
        v.subset_of(w),
        0 <= t < st.len(),
        st2.len() == st.len(),
        forall|k: int| 0 <= k < st.len() && k != t ==> st2[k] == st[k],
        st2[t].moves@ == st[t].moves@,
        st2[t].idx == st[t].idx + 1,
        st[t].idx < st[t].moves@.len(),
        w.contains(frame_board(s, p, t).after(st[t].moves@[st[t].idx as int]).hash()),
    ensures
        frames_tried(s, w, p, st2),
{
    reveal(frames_tried);
    assert forall|k: int, j: int|
        0 <= k < st2.len() && 0 <= j < st2[k].idx && j < st2[k].moves@.len() implies w.contains(
        #[trigger] frame_board(s, p, k).after(st2[k].moves@[j]).hash(),
    ) by {
        if k != t || j < st[t].idx {
            assert(v.contains(frame_board(s, p, k).after(st[k].moves@[j]).hash()));
        }
    }
}

/// The search descends one move `m`: its new board is the next frame.
proof fn lemma_dfs_descend(s: BoardState, v: Set<u64>, p: Seq<Move>, st: Seq<Frame>, m: Move, f: Frame)
    requires
        dfs_accounted(s, v, p, p.len() + 1 as int),
        frames_tried(s, v.insert(replay(s, p).after(m).hash()), p, st),
        st.len() == p.len() + 1,
        f.idx == 0,
    ensures
        dfs_accounted(s, v.insert(replay(s, p).after(m).hash()), p.push(m), p.len() + 2 as int),
        frames_tried(s, v.insert(replay(s, p).after(m).hash()), p.push(m), st.push(f)),
{
    reveal(dfs_accounted);
    reveal(frames_tried);
    let q = p.push(m);
    let w = v.insert(replay(s, p).after(m).hash());
    assert forall|k: int| 0 <= k <= p.len() implies #[trigger] frame_board(s, q, k) == frame_board(s, p, k) by {
        assert(q.take(k) =~= p.take(k));
    }
    assert(q.take(p.len() + 1 as int) =~= q);
    assert(q.drop_last() =~= p);
    assert(frame_board(s, q, p.len() + 1 as int) == replay(s, p).after(m));
    assert forall|k: int, j: int|
        0 <= k < st.push(f).len() && 0 <= j < st.push(f)[k].idx && j < st.push(f)[k].moves@.len() implies w.contains(
        #[trigger] frame_board(s, q, k).after(st.push(f)[k].moves@[j]).hash(),
    ) by {
        assert(st.push(f)[k] == st[k]);
        assert(w.contains(frame_board(s, p, k).after(st[k].moves@[j]).hash()));
    }
    assert forall|h: u64| w.contains(h) implies (exists|y: BoardState| #[trigger] accounts_for(s, y, h, w, won_goal())) || (exists|k: int|
        0 <= k < p.len() + 2 && (#[trigger] frame_board(s, q, k)).hash() == h) by {
        if h == replay(s, p).after(m).hash() {
            assert(frame_board(s, q, p.len() + 1 as int).hash() == h);
        } else if exists|y: BoardState| #[trigger] accounts_for(s, y, h, v, won_goal()) {
            let y = choose|y: BoardState| #[trigger] accounts_for(s, y, h, v, won_goal());
            lemma_explored_grows(y, v, w, won_goal());
            assert(accounts_for(s, y, h, w, won_goal()));
        } else {
            let k = choose|k: int| 0 <= k < p.len() + 1 && (#[trigger] frame_board(s, p, k)).hash() == h;
            assert(frame_board(s, q, k) == frame_board(s, p, k));
        }
    }
}

/// The top frame has tried every move: its board is explored, and the frame
/// is dropped.
proof fn lemma_dfs_pop(s: BoardState, v: Set<u64>, p: Seq<Move>, st: Seq<Frame>)
    requires
        s.wf(),
        legal_plan(s, p),
        dfs_accounted(s, v, p, p.len() + 1 as int),
        frames_tried(s, v, p, st),
        st.len() == p.len() + 1,
        st.last().idx >= st.last().moves@.len(),
        st.last().moves@ == ordered_moves(replay(s, p)),
        replay(s, p).completed != 8,
    ensures
        p.len() > 0 ==> dfs_accounted(s, v, p.drop_last(), p.len() as int),
        p.len() > 0 ==> frames_tried(s, v, p.drop_last(), st.drop_last()),
        p.len() == 0 ==> dfs_accounted(s, v, p, 0),
{
    reveal(dfs_accounted);
    reveal(frames_tried);
    let t = p.len() as int;
    let x = replay(s, p);
    assert(p.take(t) =~= p);
    assert(frame_board(s, p, t) == x);
    assert forall|mv: Move| x.moves().contains(mv) implies v.contains(#[trigger] x.after(mv).hash()) by {
        lemma_ordered_moves_complete(x, mv);
        let j = choose|j: int| 0 <= j < ordered_moves(x).len() && ordered_moves(x)[j] == mv;
        assert(st[t].moves@[j] == mv);
        assert(v.contains(frame_board(s, p, t).after(st[t].moves@[j]).hash()));
    }
    assert(explored(x, v, won_goal()));
    assert(reaches(s, x));
    let q = if t > 0 { p.drop_last() } else { p };
    assert forall|k: int| 0 <= k < t implies #[trigger] frame_board(s, q, k) == frame_board(s, p, k) by {
        assert(q.take(k) =~= p.take(k));
    }
    assert forall|h: u64| v.contains(h) implies (exists|y: BoardState| #[trigger] accounts_for(s, y, h, v, won_goal())) || (exists|k: int|
        0 <= k < t && (#[trigger] frame_board(s, q, k)).hash() == h) by {
        if !(exists|y: BoardState| #[trigger] accounts_for(s, y, h, v, won_goal())) {
            let k = choose|k: int| 0 <= k < t + 1 && (#[trigger] frame_board(s, p, k)).hash() == h;
            if k == t {
                assert(accounts_for(s, x, h, v, won_goal()));
            } else {
                assert(frame_board(s, q, k) == frame_board(s, p, k));
            }
        }
    }
    if t > 0 {
        assert forall|k: int, j: int|
            0 <= k < st.drop_last().len() && 0 <= j < st.drop_last()[k].idx && j < st.drop_last()[k].moves@.len() implies v.contains(
            #[trigger] frame_board(s, q, k).after(st.drop_last()[k].moves@[j]).hash(),
        ) by {
            assert(st.drop_last()[k] == st[k]);
            assert(v.contains(frame_board(s, p, k).after(st[k].moves@[j]).hash()));
        }
    }
}

/// With nothing left on its line, everything the search saw is explored: no
/// legal line wins, if hashes separate the boards reached.
proof fn lemma_dfs_done(s: BoardState, v: Set<u64>, p: Seq<Move>, plan: Seq<Move>)
    requires
        s.wf(),
        v.contains(s.hash()),
        dfs_accounted(s, v, p, 0),
        hash_separates(s),
    ensures
        !wins(s, plan),
{
    reveal(dfs_accounted);
    assert forall|h: u64| v.contains(h) && !Set::<u64>::empty().contains(h) implies exists|y: BoardState| #[trigger] accounts_for(
        s,
        y,
        h,
        v,
        won_goal(),
    ) by {}
    lemma_exhausted(s, v, plan, won_goal());
}

/// Plain depth-first search for the first solution (never re-expands a state).
#[verifier::spinoff_prover]
#[verifier::rlimit(100)]
fn dfs_first(start: &Board, node_limit: u64, nodes: &mut u64) -> (r: Option<Vec<Move>>)
    requires
        start@.wf(),
        *old(nodes) <= node_limit,
        node_limit < u64::MAX,
    ensures
        r matches Some(p) ==> legal_plan(start@, p@) && replay(start@, p@).completed == 8,
        *old(nodes) <= *final(nodes) <= node_limit + 1,
        start@.completed == 8 ==> (r matches Some(p) && p@.len() == 0) && *final(nodes) == *old(nodes),
        *final(nodes) > node_limit ==> r is None,
        first_try_wins(start@) && *old(nodes) < node_limit ==> (r matches Some(p) && p@ == seq![
            ordered_moves(start@)[0],
        ]),
        forall|n: nat| #[trigger] first_choices_fit(start@, n, Set::empty(), *old(nodes), node_limit) ==> (r matches Some(
            p,
        ) && p@ == first_choice_line(start@, n)) && *final(nodes) == *old(nodes) + n,
        r is None && *final(nodes) <= node_limit && hash_separates(start@) ==> forall|p: Seq<Move>| !#[trigger] wins(start@, p),
{
    let ghost s = start@;
    let mut board = start.clone();
    let mut visited: HashSet<u64> = HashSet::new();
    let mut path: Vec<Move> = Vec::new();
    let mut undos: Vec<Undo> = Vec::new();
    let mut stack: Vec<Frame> = Vec::new();
    if board.is_won() {
        assert(path@ =~= Seq::<Move>::empty());
        assert forall|n: nat| #[trigger] first_choices_fit(s, n, Set::empty(), *nodes, node_limit) implies n == 0 by {
            if n > 0 {
                assert(first_choices_win(s, n));
            }
        }
        assert(first_choice_line(s, 0) =~= Seq::<Move>::empty());
        return Some(path);
    }
    visited.insert(board.hash());
    stack.push(Frame { moves: generate(&board), idx: 0 });
    proof {
        assert(path@ =~= Seq::<Move>::empty());
        assert(path@.take(0) =~= path@);
        assert(first_choice_line(s, 0) =~= Seq::<Move>::empty());
        assert(visited@ =~= set![s.hash()]);
        lemma_dive_start(s, *nodes, node_limit);
        lemma_dfs_closed_start(s, stack@);
        assert(path@.take(0) =~= Seq::<Move>::empty());
    }
    let ghost n0 = *nodes;
    let ghost mut at_first = true;
    let ghost mut diving = true;
    let ghost mut dk: nat = 0;
    loop
        invariant
            diving ==> stack@.len() == dk + 1 && path@ == first_choice_line(s, dk) && *nodes == n0 + dk && stack@[dk as int].idx
                == 0,
            diving ==> seen_on_dive(s, visited@, dk) && dive_ahead(s, n0, node_limit, dk),
            !diving ==> no_dive(s, n0, node_limit),
            at_first ==> stack@.len() == 1 && stack@[0].idx == 0 && path@.len() == 0 && *nodes == n0,
            !at_first ==> !(first_try_wins(s) && n0 < node_limit),
            s == start@,
            s.completed != 8,
            s.wf(),
            n0 == *old(nodes),
            n0 <= *nodes <= node_limit,
            node_limit < u64::MAX,
            stack@.len() == path@.len() + 1 || (stack@.len() == 0 && path@.len() == 0),
            undos@.len() == path@.len(),
            legal_plan(s, path@),
            board@ == replay(s, path@),
            board@.wf(),
            frames_ok(s, path@, stack@),
            undos_ok(s, path@, undos@),
            visited@.contains(s.hash()),
            stack@.len() > 0 ==> dfs_accounted(s, visited@, path@, path@.len() + 1 as int) && frames_tried(s, visited@, path@, stack@),
            stack@.len() == 0 ==> dfs_accounted(s, visited@, path@, 0),
            stack@.len() > 0 ==> forall|k: int| 0 <= k <= path@.len() ==> (#[trigger] replay(s, path@.take(k))).completed != 8,
        decreases 2 * (node_limit - *nodes) + stack@.len(),
    {
        if stack.len() == 0 {
            proof {
                assert forall|n: nat| !#[trigger] first_choices_fit(s, n, Set::empty(), n0, node_limit) by {
                    lemma_no_dive(s, n0, node_limit, n);
                }
                if hash_separates(s) {
                    assert forall|p: Seq<Move>| !#[trigger] wins(s, p) by {
                        lemma_dfs_done(s, visited@, path@, p);
                    }
                }
            }
            return None;
        }
        let t = stack.len() - 1;
        let mut descend: Option<Undo> = None;
        let ghost m_entry = 2 * (node_limit - *nodes) + stack@.len();
        let ghost mut v_pre: Set<u64> = visited@;
        let ghost mut m_pre: Move = Move::Deal;
        proof {
            if diving {
                assert(path@.take(t as int) =~= path@);
                assert(stack@[t as int].moves@ == ordered_moves(replay(s, path@.take(t as int))));
            }
        }
        while stack[t].idx < stack[t].moves.len()
            invariant_except_break
                diving ==> t == dk && path@ == first_choice_line(s, dk) && *nodes == n0 + dk && stack@[t as int].idx == 0
                    && stack@[t as int].moves@ == ordered_moves(choice_board(s, dk)),
                diving ==> seen_on_dive(s, visited@, dk) && dive_ahead(s, n0, node_limit, dk),
                stack@.len() == path@.len() + 1,
                undos@.len() == path@.len(),
                descend is None,
                frames_ok(s, path@, stack@),
                undos_ok(s, path@, undos@),
                dfs_accounted(s, visited@, path@, t + 1),
                frames_tried(s, visited@, path@, stack@),
                forall|k: int| 0 <= k <= path@.len() ==> (#[trigger] replay(s, path@.take(k))).completed != 8,
            invariant
                visited@.contains(s.hash()),
                !diving ==> no_dive(s, n0, node_limit),
                at_first ==> t == 0 && stack@[0].idx == 0 && path@.len() == 0 && *nodes == n0,
                at_first ==> stack@[0].moves@ == ordered_moves(s),
                !at_first ==> !(first_try_wins(s) && n0 < node_limit),
                s == start@,
                s.completed != 8,
                s.wf(),
                n0 == *old(nodes),
                n0 <= *nodes <= node_limit,
                node_limit < u64::MAX,
                t == stack@.len() - 1,
                legal_plan(s, path@),
                board@ == replay(s, path@),
                board@.wf(),
                2 * (node_limit - *nodes) + stack@.len() <= m_entry,
            ensures
                descend is None && diving ==> ordered_moves(choice_board(s, dk)).len() == 0 && dive_ahead(s, n0, node_limit, dk),
                descend is Some && diving ==> t == dk && path@ == first_choice_line(s, dk + 1) && *nodes == n0 + dk + 1,
                descend is Some && diving ==> seen_on_dive(s, visited@, dk + 1) && dive_ahead(s, n0, node_limit, dk + 1),
                !diving ==> no_dive(s, n0, node_limit),
                at_first ==> ordered_moves(s).len() == 0,
                !at_first ==> !(first_try_wins(s) && n0 < node_limit),
                n0 <= *nodes <= node_limit,
                stack@.len() == t + 1,
                undos@.len() == t,
                legal_plan(s, path@),
                board@ == replay(s, path@),
                board@.wf(),
                descend is None ==> {
                    &&& path@.len() == t
                    &&& frames_ok(s, path@, stack@)
                    &&& undos_ok(s, path@, undos@)
                    &&& 2 * (node_limit - *nodes) + stack@.len() <= m_entry
                    &&& dfs_accounted(s, visited@, path@, t + 1)
                    &&& frames_tried(s, visited@, path@, stack@)
                    &&& stack@[t as int].idx >= stack@[t as int].moves@.len()
                    &&& forall|k: int| 0 <= k <= path@.len() ==> (#[trigger] replay(s, path@.take(k))).completed != 8
                },
                descend is Some ==> {
                    &&& dfs_accounted(s, v_pre, path@.drop_last(), t + 1)
                    &&& visited@ == v_pre.insert(replay(s, path@.drop_last()).after(m_pre).hash())
                    &&& frames_tried(s, visited@, path@.drop_last(), stack@)
                    &&& path@ == path@.drop_last().push(m_pre)
                    &&& replay(s, path@).completed != 8
                    &&& forall|k: int| 0 <= k <= path@.drop_last().len() ==> (#[trigger] replay(s, path@.drop_last().take(k))).completed != 8
                },
                descend matches Some(u) ==> {
                    &&& path@.len() == t + 1
                    &&& frames_ok(s, path@.drop_last(), stack@)
                    &&& undos_ok(s, path@.drop_last(), undos@)
                    &&& 2 * (node_limit - *nodes) + stack@.len() < m_entry
                    &&& board@.undoes(u)
                    &&& board@.unmake(u) == replay(s, path@.drop_last())
                },
            decreases stack@[t as int].moves@.len() - stack@[t as int].idx,
        {
            let m = stack[t].moves[stack[t].idx];
            proof {
                assert(path@.take(t as int) =~= path@);
                lemma_ordered_moves_legal(board@);
                assert(ordered_moves(board@)[stack@[t as int].idx as int] == m);
                assert(ordered_moves(board@).contains(m));
                lemma_step_legal(board@, m);
                lemma_legal_plan_push(s, path@, m);
            }
            let ghost before_path = path@;
            let ghost before_stack = stack@;
            let ghost dive_now = diving;
            proof {
                if dive_now {
                    assert(replay(s, path@) == choice_board(s, dk));
                    assert(m == ordered_moves(choice_board(s, dk))[0]);
                    lemma_choice_back(s, dk);
                    assert(path@.push(m) == first_choice_line(s, dk + 1));
                }
            }
            stack[t].idx = stack[t].idx + 1;
            proof {
                assert forall|k: int| 0 <= k < stack@.len() implies (#[trigger] stack@[k]).moves@ == ordered_moves(replay(s, path@.take(k))) by {
                    assert(before_stack[k].moves@ == ordered_moves(replay(s, path@.take(k))));
                }
                assert forall|k: int| 0 <= k < stack@.len() implies (#[trigger] stack@[k]).idx <= stack@[k].moves@.len() by {
                    assert(before_stack[k].idx <= before_stack[k].moves@.len());
                }
            }
            *nodes = *nodes + 1;
            if *nodes > node_limit {
                proof {
                    if dive_now {
                        lemma_dive_stops(s, n0, node_limit, dk);
                    }
                    assert forall|n: nat| !#[trigger] first_choices_fit(s, n, Set::empty(), n0, node_limit) by {
                        lemma_no_dive(s, n0, node_limit, n);
                    }
                }
                return None;
            }
            proof {
                if at_first {
                    assert(path@ =~= Seq::<Move>::empty());
                    assert(replay(s, path@) == s);
                    assert(m == ordered_moves(s)[0]);
                }
            }
            let undo = board.make(m);
            proof {
                if dive_now {
                    assert(board@ == choice_board(s, dk + 1));
                }
            }
            if board.is_won() {
                path.push(m);
                proof {
                    if at_first {
                        assert(path@ =~= seq![m]);
                    }
                    assert forall|n: nat| #[trigger] first_choices_fit(s, n, Set::empty(), n0, node_limit) implies dive_now && n
                        == dk + 1 by {
                        if dive_now {
                            lemma_dive_won(s, n0, node_limit, dk, n);
                        } else {
                            lemma_no_dive(s, n0, node_limit, n);
                        }
                    }
                }
                return Some(path);
            }
            proof {
                at_first = false;
            }
            let ghost old_visited = visited@;
            proof {
                assert(before_path.take(t as int) =~= before_path);
                assert(frame_board(s, before_path, t as int) == replay(s, before_path));
                assert(before_stack[t as int].moves@[before_stack[t as int].idx as int] == m);
                assert(board@ == replay(s, before_path).after(m));
            }
            if visited.insert(board.hash()) {
                path.push(m);
                descend = Some(undo);
                proof {
                    if dive_now {
                        lemma_dive_step(s, n0, node_limit, dk, old_visited);
                    }
                    lemma_dfs_tried(s, old_visited, visited@, before_path, before_stack, stack@, t as int);
                    v_pre = old_visited;
                    m_pre = m;
                    assert(path@.drop_last() =~= before_path);
                }
                proof {
                    assert(path@.drop_last() =~= before_path);
                    assert(path@.take(t as int) =~= before_path);
                }
                break;
            }
            proof {
                if dive_now {
                    lemma_dive_blocked(s, n0, node_limit, dk, old_visited);
                }
                diving = false;
                assert(visited@ =~= old_visited);
                lemma_dfs_tried(s, old_visited, visited@, before_path, before_stack, stack@, t as int);
            }
            board.undo(&undo);
        }
        proof {
            at_first = false;
            if descend is None {
                if diving {
                    lemma_dive_stops(s, n0, node_limit, dk);
                }
                diving = false;
            }
        }
        match descend {
            Some(undo) => {
                let ghost p0 = path@.drop_last();
                let ghost st0 = stack@;
                let ghost us0 = undos@;
                undos.push(undo);
                let ms = generate(&board);
                stack.push(Frame { moves: ms, idx: 0 });
                proof {
                    if diving {
                        dk = dk + 1;
                    }
                    assert(stack@ == st0.push(stack@.last()));
                    lemma_dfs_descend(s, v_pre, p0, st0, m_pre, stack@.last());
                    assert forall|k: int| 0 <= k <= path@.len() implies (#[trigger] replay(s, path@.take(k))).completed != 8 by {
                        if k < path@.len() {
                            assert(path@.take(k) =~= p0.take(k));
                        } else {
                            assert(path@.take(k) =~= path@);
                        }
                    }
                    assert forall|k: int| 0 <= k < stack@.len() implies (#[trigger] stack@[k]).moves@ == ordered_moves(replay(s, path@.take(k))) by {
                        if k < t + 1 {
                            assert(path@.take(k) =~= p0.take(k));
                            assert(stack@[k] == st0[k]);
                        } else {
                            assert(path@.take(k) =~= path@);
                        }
                    }
                    assert forall|k: int| 0 <= k < stack@.len() implies (#[trigger] stack@[k]).idx <= stack@[k].moves@.len() by {
                        if k < t + 1 {
                            assert(stack@[k] == st0[k]);
                        }
                    }
                    assert forall|k: int| 0 <= k < undos@.len() implies {
                        &&& replay(s, path@.take(k + 1)).undoes(#[trigger] undos@[k])
                        &&& replay(s, path@.take(k + 1)).unmake(undos@[k]) == replay(s, path@.take(k))
                    } by {
                        if k < t {
                            assert(path@.take(k + 1) =~= p0.take(k + 1));
                            assert(path@.take(k) =~= p0.take(k));
                            assert(undos@[k] == us0[k]);
                        } else {
                            assert(path@.take(k + 1) =~= path@);
                            assert(path@.take(k) =~= p0);
                        }
                    }
                }
            },
            None => {
                let ghost p0 = path@;
                let ghost st0 = stack@;
                let ghost us0 = undos@;
                proof {
                    assert(p0.take(t as int) =~= p0);
                    assert(st0.last().moves@ == ordered_moves(replay(s, p0)));
                    assert(replay(s, p0.take(p0.len() as int)).completed != 8);
                    lemma_dfs_pop(s, visited@, p0, st0);
                }
                stack.pop();
                if let Some(undo) = undos.pop() {
                    proof {
                        assert(p0.take(t as int) =~= p0);
                    }
                    board.undo(&undo);
                    path.pop();
                    proof {
                        assert(path@ =~= p0.take(t - 1));
                        crate::search::lemma_legal_prefix_wf(s, p0, t - 1);
                    }
                }
                proof {
                    if t > 0 {
                        assert(path@ =~= p0.drop_last());
                        assert(stack@ =~= st0.drop_last());
                        assert forall|k: int| 0 <= k <= path@.len() implies (#[trigger] replay(s, path@.take(k))).completed != 8 by {
                            assert(path@.take(k) =~= p0.take(k));
                        }
                    }
                    assert forall|k: int| 0 <= k < stack@.len() implies (#[trigger] stack@[k]).moves@ == ordered_moves(replay(s, path@.take(k))) by {
                        assert(path@.take(k) =~= p0.take(k));
                        assert(stack@[k] == st0[k]);
                    }
                    assert forall|k: int| 0 <= k < stack@.len() implies (#[trigger] stack@[k]).idx <= stack@[k].moves@.len() by {
                        assert(stack@[k] == st0[k]);
                    }
                    assert forall|k: int| 0 <= k < undos@.len() implies {
                        &&& replay(s, path@.take(k + 1)).undoes(#[trigger] undos@[k])
                        &&& replay(s, path@.take(k + 1)).unmake(undos@[k]) == replay(s, path@.take(k))
                    } by {
                        assert(path@.take(k + 1) =~= p0.take(k + 1));
                        assert(path@.take(k) =~= p0.take(k));
                        assert(undos@[k] == us0[k]);
                    }
                }
            },
        }
    }
}


/// The outcome of a solve.
pub struct SolveResult {
    pub moves: Option<Vec<Move>>,
    pub nodes: u64,
    pub hit_limit: bool,
    /// True when A* fully explored its space within budget. Meaningful only
    /// when `moves` came from A*.
    pub converged: bool,
    /// True when the answer came from the depth-first fallback (A* found
    /// nothing), so the solution is valid but not short.
    pub from_fallback: bool,
    /// The `(weight, fd_weight)` configuration that produced the answer, when
    /// several ran side by side.
    pub winning_config: Option<(u32, u32)>,
}

/// How an answer stands, as the solve service labels it.
#[derive(Clone, Copy, Debug, PartialEq, Eq, Structural)]
pub enum Quality {
    /// No solution was found.
    Unsolved,
    /// The solution came from the depth-first fallback: valid, not short.
    Fallback,
    /// The best-first search ran out of states to explore.
    Converged,
    /// The best-first search stopped at a solution with states left over.
    Budget,
}

impl SolveResult {
    /// The label of this answer: unsolved without a line, then fallback,
    /// converged or budget, in that order of precedence.
    pub fn quality(&self) -> (q: Quality)
        ensures
            q == (if self.moves is None {
                Quality::Unsolved
            } else if self.from_fallback {
                Quality::Fallback
            } else if self.converged {
                Quality::Converged
            } else {
                Quality::Budget
            }),
    {
        if self.moves.is_none() {
            Quality::Unsolved
        } else if self.from_fallback {
            Quality::Fallback
        } else if self.converged {
            Quality::Converged
        } else {
            Quality::Budget
        }
    }
}

/// A recommendation from the partial-information advisor.
pub struct Advice {
    /// The recommended sequence of moves to play now.
    pub moves: Vec<Move>,
    /// How many unknown cards the plan turns face up.
    pub uncovers: u32,
    /// How many K..A runs the plan completes.
    pub completes: u32,
    /// How many columns are empty at the end of the plan.
    pub empties: u32,
}

/// The solver's entry points.
pub struct Solver;

/// A winning line from `s`: legal, and every run completed at its end.
pub open spec fn wins(s: BoardState, p: Seq<Move>) -> bool {
    legal_plan(s, p) && replay(s, p).completed == 8
}

/// The search settings a solve accepts: every priority `g + weight*h` of a
/// node (with `g` at most the node budget) fits in 32 bits, and so does every
/// node index.
pub open spec fn search_settings_ok(node_limit: u64, weight: u32, fd_weight: u32) -> bool {
    &&& heuristic_bound(fd_weight) <= u32::MAX
    &&& node_limit + weight * heuristic_bound(fd_weight) + 3 <= u32::MAX
}

/// Whether a search with this budget and these weights keeps its priorities
/// and node indices within 32 bits (see `search_settings_ok`).
pub fn settings_fit(node_limit: u64, weight: u32, fd_weight: u32) -> (ok: bool)
    ensures
        ok == search_settings_ok(node_limit, weight, fd_weight),
{
    let bound: u128 = 116 * fd_weight as u128 + 116 * 5 + 48;
    if bound > u32::MAX as u128 {
        return false;
    }
    assert(weight * bound <= 0x1_0000_0000 * 0x1_0000_0000) by (nonlinear_arith)
        requires
            weight <= u32::MAX,
            bound <= u32::MAX,
    ;
    let spread: u128 = weight as u128 * bound;
    node_limit as u128 + spread + 3 <= u32::MAX as u128
}

impl Solver {
    /// Single-configuration search: weighted-A* primary, depth-first fallback
    /// with its own fresh budget.
    pub fn solve(board: &Board, node_limit: u64, weight: u32, fd_weight: u32) -> (r: SolveResult)
        requires
            board@.wf(),
            solver_sized(board@),
            search_settings_ok(node_limit, weight, fd_weight),
        ensures
            r.moves matches Some(p) ==> wins(board@, p@),
            r.moves is None <==> r.hit_limit,
            r.from_fallback ==> r.moves is Some && !r.converged,
            r.moves is None ==> !r.converged && !r.from_fallback,
            r.winning_config is None,
            r.nodes <= 2 * node_limit + 2,
            first_winning_from(board@, 0) matches Some(j) ==> (j < node_limit ==> (r.moves matches Some(p) && p@
                == seq![board@.moves()[j]])),
            r.converged ==> r.moves is Some && !r.from_fallback && r.nodes <= node_limit,
            r.moves is None && r.nodes <= node_limit && hash_separates(board@) ==> forall|p: Seq<Move>| !#[trigger] wins(
                board@,
                p,
            ),
            r.hit_limit && hash_separates(board@) ==> r.nodes > node_limit || forall|p: Seq<Move>| !#[trigger] wins(
                board@,
                p,
            ),
            forall|n: nat| #[trigger] first_choices_fit(board@, n, Set::empty(), 0, node_limit) ==> r.moves is Some,
            search_fits(board@, node_limit) && hash_separates(board@) && r.moves is None ==> forall|p: Seq<Move>|
                !#[trigger] wins(board@, p),
    {
        let mut nodes: u64 = 0;
        // Primary: weighted-A* for a short solution (no other search can stop it).
        let (astar, converged) = astar_short(board, node_limit, &mut nodes, weight, fd_weight, None);
        if let Some(p) = astar {
            return SolveResult {
                moves: Some(p),
                nodes,
                hit_limit: false,
                converged,
                from_fallback: false,
                winning_config: None,
            };
        }
        // Fallback: plain depth-first search for any solution.
        let mut dfs_nodes: u64 = 0;
        let fallback = dfs_first(board, node_limit, &mut dfs_nodes);
        nodes = nodes + dfs_nodes;
        match fallback {
            Some(p) => SolveResult {
                moves: Some(p),
                nodes,
                hit_limit: false,
                converged: false,
                from_fallback: true,
                winning_config: None,
            },
            None => SolveResult {
                moves: None,
                nodes,
                hit_limit: true,
                converged: false,
                from_fallback: false,
                winning_config: None,
            },
        }
    }
}


/// Default portfolio of `(weight, fd_weight)` configurations run side by side.
/// Chosen for diversity: different settings crack largely different deals.
pub const DEFAULT_PORTFOLIO: [(u32, u32); 6] = [(2, 4), (3, 4), (3, 2), (3, 8), (3, 12), (2, 2)];

/// What one portfolio worker found.
pub struct ConfigReport {
    /// The `(weight, fd_weight)` it ran with.
    pub config: (u32, u32),
    pub moves: Option<Vec<Move>>,
    pub converged: bool,
    pub nodes: u64,
}

/// Index of the first report that holds a solution, looking at `i..`.
pub open spec fn first_solved_from(reports: Seq<ConfigReport>, i: int) -> Option<int>
    decreases reports.len() - i,
{
    if i >= reports.len() || i < 0 {
        None
    } else if reports[i].moves is Some {
        Some(i)
    } else {
        first_solved_from(reports, i + 1)
    }
}

/// Total nodes of the first `n` reports.
pub open spec fn report_nodes(reports: Seq<ConfigReport>, n: int) -> int
    decreases n,
{
    if n <= 0 {
        0
    } else {
        report_nodes(reports, n - 1) + reports[n - 1].nodes
    }
}

proof fn lemma_first_solved(reports: Seq<ConfigReport>, i: int)
    requires
        0 <= i <= reports.len(),
    ensures
        first_solved_from(reports, i) matches Some(k) ==> i <= k < reports.len() && reports[k].moves is Some
            && forall|j: int| i <= j < k ==> (#[trigger] reports[j]).moves is None,
        first_solved_from(reports, i) is None ==> forall|j: int| i <= j < reports.len() ==> (#[trigger] reports[j]).moves is None,
    decreases reports.len() - i,
{
    if i < reports.len() {
        lemma_first_solved(reports, i + 1);
    }
}

impl Solver {
    /// One portfolio worker: a weighted-A* search with `(weight, fd_weight)`
    /// that gives up as soon as `stop` is set.
    pub fn search_config(
        board: &Board,
        node_limit: u64,
        weight: u32,
        fd_weight: u32,
        stop: &std::sync::atomic::AtomicBool,
    ) -> (r: ConfigReport)
        requires
            board@.wf(),
            solver_sized(board@),
            search_settings_ok(node_limit, weight, fd_weight),
        ensures
            r.config == (weight, fd_weight),
            r.moves matches Some(p) ==> wins(board@, p@),
            r.nodes <= node_limit + 1,
            r.nodes > node_limit ==> r.moves is None && !r.converged,
            r.moves is None && r.converged ==> first_winning_from(board@, 0) is None,
            r.moves is None && r.converged && board@.completed != 8 && hash_separates(board@) ==> forall|p: Seq<Move>|
                !#[trigger] wins(board@, p),
    {
        let mut nodes: u64 = 0;
        let (res, converged) = astar_short(board, node_limit, &mut nodes, weight, fd_weight, Some(stop));
        ConfigReport { config: (weight, fd_weight), moves: res, converged, nodes }
    }

    /// Combine the workers' reports, in the order they arrived: the first
    /// solution wins and all nodes are tallied; when no report holds a
    /// solution, a depth-first search looks for any solution.
    pub fn finish_portfolio(board: &Board, node_limit: u64, reports: Vec<ConfigReport>) -> (r: SolveResult)
        requires
            board@.wf(),
            node_limit <= MAX_NODE_LIMIT,
            reports@.len() < 0x1_0000_0000,
            forall|i: int| 0 <= i < reports@.len() ==> (#[trigger] reports@[i]).nodes <= node_limit + 1,
            forall|i: int| 0 <= i < reports@.len() ==> ((#[trigger] reports@[i]).moves matches Some(p) ==> wins(board@, p@)),
        ensures
            first_solved_from(reports@, 0) matches Some(k) ==> {
                &&& r.moves == reports@[k].moves
                &&& r.winning_config == Some(reports@[k].config)
                &&& r.converged == reports@[k].converged
                &&& !r.from_fallback
                &&& !r.hit_limit
                &&& r.nodes == report_nodes(reports@, reports@.len() as int)
            },
            first_solved_from(reports@, 0) is None ==> {
                &&& r.winning_config is None
                &&& !r.converged
                &&& (r.moves is Some <==> r.from_fallback)
                &&& (r.moves is None <==> r.hit_limit)
                &&& r.nodes >= report_nodes(reports@, reports@.len() as int)
                &&& r.nodes <= report_nodes(reports@, reports@.len() as int) + node_limit + 1
                &&& (board@.completed == 8 ==> (r.moves matches Some(p) && p@.len() == 0))
                &&& (first_try_wins(board@) && node_limit >= 1 ==> (r.moves matches Some(p) && p@ == seq![
                    ordered_moves(board@)[0],
                ]))
                &&& forall|n: nat| #[trigger] first_choices_fit(board@, n, Set::empty(), 0, node_limit) ==> (r.moves matches Some(
                    p,
                ) && p@ == first_choice_line(board@, n)) && r.nodes == report_nodes(reports@, reports@.len() as int) + n
                &&& (r.moves is None && r.nodes <= report_nodes(reports@, reports@.len() as int) + node_limit && hash_separates(
                    board@,
                ) ==> forall|p: Seq<Move>| !#[trigger] wins(board@, p))
            },
            r.moves matches Some(p) ==> wins(board@, p@),
    {
        let mut reports = reports;
        let ghost orig = reports@;
        let mut total: u64 = 0;
        let mut win: Option<usize> = None;
        let mut i: usize = 0;
        while i < reports.len()
            invariant
                reports@ == orig,
                orig.len() < 0x1_0000_0000,
                node_limit <= MAX_NODE_LIMIT,
                forall|j: int| 0 <= j < orig.len() ==> (#[trigger] orig[j]).nodes <= node_limit + 1,
                i <= orig.len(),
                total == report_nodes(orig, i as int),
                total <= i * (node_limit + 1),
                win is None ==> forall|j: int| 0 <= j < i ==> (#[trigger] orig[j]).moves is None,
                win matches Some(k) ==> first_solved_from(orig, 0) == Some(k as int),
            decreases orig.len() - i,
        {
            proof {
                assert(i * (node_limit + 1) <= 0x1_0000_0000 * (MAX_NODE_LIMIT + 1)) by (nonlinear_arith)
                    requires
                        i < 0x1_0000_0000,
                        node_limit <= MAX_NODE_LIMIT,
                ;
                assert((i + 1) * (node_limit + 1) == i * (node_limit + 1) + node_limit + 1) by (nonlinear_arith);
            }
            total = total + reports[i].nodes;
            if win.is_none() && reports[i].moves.is_some() {
                proof {
                    lemma_first_solved(orig, 0);
                    assert(first_solved_from(orig, 0) == Some(i as int)) by {
                        if first_solved_from(orig, 0) != Some(i as int) {
                            let k = first_solved_from(orig, 0);
                            if k is None {
                                assert(orig[i as int].moves is None);
                            } else {
                                assert(orig[k->0].moves is Some);
                            }
                        }
                    }
                }
                win = Some(i);
            }
            i = i + 1;
        }
        proof {
            assert(i * (node_limit + 1) <= 0x1_0000_0000 * (MAX_NODE_LIMIT + 1)) by (nonlinear_arith)
                requires
                    i <= 0x1_0000_0000,
                    node_limit <= MAX_NODE_LIMIT,
            ;
            lemma_first_solved(orig, 0);
            if win is None {
                if first_solved_from(orig, 0) is Some {
                    let k = first_solved_from(orig, 0)->0;
                    assert(orig[k].moves is None);
                }
            }
        }
        if let Some(k) = win {
            let rep = reports.remove(k);
            return SolveResult {
                moves: rep.moves,
                nodes: total,
                hit_limit: false,
                converged: rep.converged,
                from_fallback: false,
                winning_config: Some(rep.config),
            };
        }
        // No configuration solved it: last-resort depth-first search.
        let mut dfs_nodes: u64 = 0;
        let fallback = dfs_first(board, node_limit, &mut dfs_nodes);
        total = total + dfs_nodes;
        match fallback {
            Some(p) => SolveResult {
                moves: Some(p),
                nodes: total,
                hit_limit: false,
                converged: false,
                from_fallback: true,
                winning_config: None,
            },
            None => SolveResult {
                moves: None,
                nodes: total,
                hit_limit: true,
                converged: false,
                from_fallback: false,
                winning_config: None,
            },
        }
    }
}

} // verus!
