//! A plain recursive depth-first solver with a transposition table: a global
//! `visited` set so no state is explored twice, a light move ordering that
//! tries productive moves first, and a node budget so hard or unsolvable
//! deals terminate.
use vstd::prelude::*;
use std::collections::HashSet;
use crate::board::{
    Board, BoardState, Move, replay, legal_plan, lemma_step_legal, reach_hashes, search_fits, MOVES_BOUND, lemma_moves_bound,
    lemma_reach_hash,
};
use crate::search::lemma_legal_prefix;
use crate::solver::{
    generate, ordered_moves, lemma_ordered_moves_legal, wins, first_try_wins, first_choice_line, first_choice_hashes,
    first_choices_win, first_choices_fit, lemma_first_choices_step, lemma_ordered_moves_complete,
};

verus! {

/// The outcome of a depth-first solve.
pub struct SolveResult {
    pub moves: Option<Vec<Move>>,
    pub nodes: u64,
    pub hit_limit: bool,
}

/// The search state of one solve.
pub struct Solver {
    visited: HashSet<u64>,
    nodes: u64,
    node_limit: u64,
    path: Vec<Move>,
    hit_limit: bool,
}

/// `y` is reached from `s` by a legal plan.
pub open spec fn reaches(s: BoardState, y: BoardState) -> bool {
    exists|q: Seq<Move>| legal_plan(s, q) && replay(s, q) == y
}

/// No two boards reached from `s` share a hash.
pub open spec fn hash_separates(s: BoardState) -> bool {
    forall|x: BoardState, y: BoardState| reaches(s, x) && reaches(s, y) && x.hash() == y.hash() ==> x == y
}

/// What the depth-first and best-first solvers look for: a won board.
pub open spec fn won_goal() -> spec_fn(BoardState) -> bool {
    |b: BoardState| b.completed == 8
}

/// `x` is explored within `visited` in a search for `goal`: it does not meet
/// the goal, and every board one legal move away has its hash in `visited`.
pub open spec fn explored(x: BoardState, visited: Set<u64>, goal: spec_fn(BoardState) -> bool) -> bool {
    &&& !goal(x)
    &&& forall|m: Move| x.moves().contains(m) ==> visited.contains(#[trigger] x.after(m).hash())
}

/// `y` accounts for hash `h` in `visited`: a board reached from `s` with that
/// hash, explored within `visited`.
pub open spec fn accounts_for(s: BoardState, y: BoardState, h: u64, visited: Set<u64>, goal: spec_fn(BoardState) -> bool) -> bool {
    reaches(s, y) && y.hash() == h && explored(y, visited, goal)
}

/// Every hash that `visited` gained over `before` belongs to an explored board
/// reached from `s`.
pub open spec fn gains_explored(s: BoardState, before: Set<u64>, visited: Set<u64>, goal: spec_fn(BoardState) -> bool) -> bool {
    forall|h: u64|
        visited.contains(h) && !before.contains(h) ==> exists|y: BoardState| #[trigger] accounts_for(s, y, h, visited, goal)
}

/// A search that ends with the start's hash seen and every seen hash
/// belonging to an explored board has shown, when hashes separate the boards
/// reached, that no legal plan reaches the goal.
pub proof fn lemma_exhausted(s: BoardState, visited: Set<u64>, p: Seq<Move>, goal: spec_fn(BoardState) -> bool)
    requires
        s.wf(),
        visited.contains(s.hash()),
        gains_explored(s, Set::empty(), visited, goal),
        hash_separates(s),
    ensures
        !(legal_plan(s, p) && goal(replay(s, p))),
{
    if legal_plan(s, p) && goal(replay(s, p)) {
        assert forall|k: int| 0 <= k <= p.len() implies visited.contains(#[trigger] replay(s, p.take(k)).hash()) by {
            lemma_prefix_seen(s, visited, p, k, goal);
        }
        let x = replay(s, p);
        assert(p.take(p.len() as int) =~= p);
        assert(visited.contains(x.hash()));
        let y = choose|y: BoardState| #[trigger] accounts_for(s, y, x.hash(), visited, goal);
        assert(reaches(s, x));
        assert(x == y);
    }
}

proof fn lemma_prefix_seen(s: BoardState, visited: Set<u64>, p: Seq<Move>, k: int, goal: spec_fn(BoardState) -> bool)
    requires
        s.wf(),
        visited.contains(s.hash()),
        gains_explored(s, Set::empty(), visited, goal),
        hash_separates(s),
        legal_plan(s, p),
        0 <= k <= p.len(),
    ensures
        visited.contains(replay(s, p.take(k)).hash()),
    decreases k,
{
    if k == 0 {
        assert(p.take(0) =~= Seq::<Move>::empty());
    } else {
        lemma_prefix_seen(s, visited, p, k - 1, goal);
        lemma_legal_prefix(s, p, k - 1);
        let x = replay(s, p.take(k - 1));
        assert(reaches(s, x));
        let y = choose|y: BoardState| #[trigger] accounts_for(s, y, x.hash(), visited, goal);
        assert(x == y);
        assert(x.moves().contains(p[k - 1]));
        assert(visited.contains(x.after(p[k - 1]).hash()));
        assert(p.take(k).drop_last() =~= p.take(k - 1));
        assert(p.take(k).last() == p[k - 1]);
    }
}

/// Exploring more keeps an explored board explored.
pub proof fn lemma_explored_grows(x: BoardState, v: Set<u64>, w: Set<u64>, goal: spec_fn(BoardState) -> bool)
    requires
        explored(x, v, goal),
        v.subset_of(w),
    ensures
        explored(x, w, goal),
{
    assert forall|m: Move| x.moves().contains(m) implies w.contains(#[trigger] x.after(m).hash()) by {
        assert(v.contains(x.after(m).hash()));
    }
}

/// After the search from the board one move `m` past `s` returns, what it
/// gained (`v1` to `v2`) and what was gained before (`vb` to `v1`) belong to
/// explored boards reached from `s`.
proof fn lemma_gains_extend(s: BoardState, m: Move, vb: Set<u64>, v1: Set<u64>, v2: Set<u64>)
    requires
        s.wf(),
        s.moves().contains(m),
        vb.subset_of(v1),
        v1.subset_of(v2),
        gains_explored(s, vb, v1, won_goal()),
        gains_explored(s.after(m), v1, v2, won_goal()),
    ensures
        vb.subset_of(v2),
        gains_explored(s, vb, v2, won_goal()),
{
    let goal = won_goal();
    assert forall|h: u64| v2.contains(h) && !vb.contains(h) implies exists|y: BoardState| #[trigger] accounts_for(s, y, h, v2, goal) by {
        if v1.contains(h) {
            let y = choose|y: BoardState| #[trigger] accounts_for(s, y, h, v1, goal);
            lemma_explored_grows(y, v1, v2, goal);
            assert(accounts_for(s, y, h, v2, goal));
        } else {
            let y = choose|y: BoardState| #[trigger] accounts_for(s.after(m), y, h, v2, goal);
            let q = choose|q: Seq<Move>| legal_plan(s.after(m), q) && replay(s.after(m), q) == y;
            lemma_prepend(s, m, q);
            assert(reaches(s, y));
            assert(accounts_for(s, y, h, v2, goal));
        }
    }
}

/// Once every move from `s` leads to a seen board, `s` itself is explored,
/// and what the search from `s` gained over `v0` is accounted for.
proof fn lemma_gains_close(s: BoardState, v0: Set<u64>, vb: Set<u64>, v: Set<u64>)
    requires
        s.completed != 8,
        vb == v0.insert(s.hash()),
        vb.subset_of(v),
        gains_explored(s, vb, v, won_goal()),
        forall|mv: Move| s.moves().contains(mv) ==> v.contains(#[trigger] s.after(mv).hash()),
    ensures
        v0.subset_of(v),
        v.contains(s.hash()),
        gains_explored(s, v0, v, won_goal()),
{
    let goal = won_goal();
    assert(legal_plan(s, Seq::<Move>::empty()) && replay(s, Seq::<Move>::empty()) == s);
    assert(reaches(s, s));
    assert(explored(s, v, goal));
    assert forall|h: u64| v.contains(h) && !v0.contains(h) implies exists|y: BoardState| #[trigger] accounts_for(s, y, h, v, goal) by {
        if h == s.hash() {
            assert(accounts_for(s, s, h, v, goal));
        } else {
            assert(!vb.contains(h));
        }
    }
}

/// Playing `m` and then `q` from where it leads is a plan from `s`.
proof fn lemma_prepend(s: BoardState, m: Move, q: Seq<Move>)
    requires
        s.wf(),
        s.moves().contains(m),
        legal_plan(s.after(m), q),
    ensures
        legal_plan(s, seq![m] + q),
        replay(s, seq![m] + q) == replay(s.after(m), q),
    decreases q.len(),
{
    assert(legal_plan(s, Seq::<Move>::empty()));
    assert(replay(s, Seq::<Move>::empty()) == s);
    if q.len() == 0 {
        assert(seq![m] + q =~= seq![m]);
        assert(seq![m].drop_last() =~= Seq::<Move>::empty());
        assert(legal_plan(s, seq![m]));
        assert(replay(s, seq![m]) == s.after(m));
        assert(replay(s.after(m), q) == s.after(m));
    } else {
        lemma_prepend(s, m, q.drop_last());
        assert((seq![m] + q).drop_last() =~= seq![m] + q.drop_last());
        assert((seq![m] + q).last() == q.last());
        assert(legal_plan(s.after(m), q.drop_last()) && replay(s.after(m), q.drop_last()).moves().contains(q.last()));
        assert(legal_plan(s, seq![m] + q));
        assert(replay(s, seq![m] + q) == replay(s, seq![m] + q.drop_last()).after(q.last()));
    }
}

proof fn lemma_scaled_sum(d1: int, d2: int)
    ensures
        (MOVES_BOUND + 1) * d1 + (MOVES_BOUND + 1) * d2 == (MOVES_BOUND + 1) * (d1 + d2),
        (MOVES_BOUND + 1) * (d1 - 1) + MOVES_BOUND + 1 == (MOVES_BOUND + 1) * d1,
{
    assert((MOVES_BOUND + 1) * d1 + (MOVES_BOUND + 1) * d2 == (MOVES_BOUND + 1) * (d1 + d2)) by (nonlinear_arith);
    assert((MOVES_BOUND + 1) * (d1 - 1) + MOVES_BOUND + 1 == (MOVES_BOUND + 1) * d1) by (nonlinear_arith);
}

/// What is reachable after a listed move is reachable from `s`.
proof fn lemma_reach_after(s: BoardState, m: Move)
    requires
        s.wf(),
        s.moves().contains(m),
    ensures
        reach_hashes(s.after(m)).subset_of(reach_hashes(s)),
{
    assert forall|h: u64| reach_hashes(s.after(m)).contains(h) implies reach_hashes(s).contains(h) by {
        let q = choose|q: Seq<Move>| legal_plan(s.after(m), q) && h == #[trigger] replay(s.after(m), q).hash();
        lemma_prepend(s, m, q);
        lemma_reach_hash(s, seq![m] + q);
    }
}

impl Solver {
    /// Search from `board` for a winning line within `node_limit` nodes.
    pub fn solve(board: &Board, node_limit: u64) -> (r: SolveResult)
        requires
            board@.wf(),
            node_limit < u64::MAX,
        ensures
            r.moves matches Some(p) ==> wins(board@, p@),
            r.moves is Some ==> !r.hit_limit,
            r.hit_limit ==> r.moves is None && r.nodes == node_limit + 1,
            r.nodes <= node_limit + 1,
            board@.completed == 8 ==> (r.moves matches Some(p) && p@.len() == 0) && r.nodes == 0,
            first_try_wins(board@) && node_limit >= 1 ==> (r.moves matches Some(p) && p@ == seq![
                ordered_moves(board@)[0],
            ]),
            forall|n: nat| #[trigger] first_choices_win(board@, n) && first_choice_hashes(board@, n).no_duplicates() && n
                <= node_limit ==> (r.moves matches Some(p) && p@ == first_choice_line(board@, n)) && r.nodes == n,
            r.moves is None && !r.hit_limit && hash_separates(board@) ==> forall|p: Seq<Move>| !#[trigger] wins(board@, p),
            search_fits(board@, node_limit) ==> !r.hit_limit,
            search_fits(board@, node_limit) && hash_separates(board@) && r.moves is None ==> forall|p: Seq<Move>|
                !#[trigger] wins(board@, p),
    {
        let mut s = Solver { visited: HashSet::new(), nodes: 0, node_limit, path: Vec::new(), hit_limit: false };
        proof {
            assert forall|n: nat| #[trigger] first_choices_win(board@, n) && first_choice_hashes(board@, n).no_duplicates()
                && n <= node_limit implies first_choices_fit(board@, n, s.visited@, 0, node_limit) by {
                assert(s.visited@ =~= Set::<u64>::empty());
            }
        }
        let mut b = board.clone();
        let ghost v_start = s.visited@;
        let won = s.dfs(&mut b);
        assert(Seq::<Move>::empty() + s.path@ =~= s.path@);
        proof {
            if search_fits(board@, node_limit) {
                let hs = choose|hs: Set<u64>| hs.finite() && reach_hashes(board@).subset_of(hs) && hs.len() * (MOVES_BOUND + 1)
                    + 1 <= node_limit;
                assert(v_start =~= Set::<u64>::empty());
                assert(s.visited@.subset_of(hs));
                vstd::set_lib::lemma_len_subset(s.visited@, hs);
                let k = s.visited@.len() as int;
                let kh = hs.len() as int;
                assert(k * (MOVES_BOUND + 1) <= kh * (MOVES_BOUND + 1)) by (nonlinear_arith)
                    requires
                        k <= kh,
                ;
            }
        }
        proof {
            if !won && !s.hit_limit && hash_separates(board@) {
                assert(v_start =~= Set::<u64>::empty());
                assert forall|p: Seq<Move>| !#[trigger] wins(board@, p) by {
                    lemma_exhausted(board@, s.visited@, p, won_goal());
                }
            }
        }
        assert forall|n: nat| #[trigger] first_choices_win(board@, n) && first_choice_hashes(board@, n).no_duplicates() && n
            <= node_limit implies s.path@ == first_choice_line(board@, n) by {
            assert(Seq::<Move>::empty() + first_choice_line(board@, n) =~= first_choice_line(board@, n));
        }
        let mut path: Vec<Move> = Vec::new();
        std::mem::swap(&mut path, &mut s.path);
        SolveResult {
            moves: if won {
                Some(path)
            } else {
                None
            },
            nodes: s.nodes,
            hit_limit: s.hit_limit,
        }
    }

    #[verifier::spinoff_prover]
    #[verifier::rlimit(60)]
    fn dfs(&mut self, b: &mut Board) -> (won: bool)
        requires
            old(b)@.wf(),
            !old(self).hit_limit,
            old(self).nodes <= old(self).node_limit,
            old(self).node_limit < u64::MAX,
            old(self).visited@.finite(),
        ensures
            final(self).visited@.finite(),
            old(self).visited@.subset_of(final(self).visited@),
            forall|h: u64| #[trigger] final(self).visited@.contains(h) && !old(self).visited@.contains(h) ==> reach_hashes(
                old(b)@,
            ).contains(h),
            final(self).nodes - old(self).nodes <= (MOVES_BOUND + 1) * (final(self).visited@.len() - old(
                self,
            ).visited@.len()) + 1,
            final(self).node_limit == old(self).node_limit,
            old(self).nodes <= final(self).nodes <= final(self).node_limit + 1,
            final(self).hit_limit ==> final(self).nodes == final(self).node_limit + 1,
            !final(self).hit_limit ==> final(self).nodes <= final(self).node_limit,
            won ==> !final(self).hit_limit,
            won ==> exists|q: Seq<Move>| final(self).path@ == old(self).path@ + q && #[trigger] wins(old(b)@, q),
            !won ==> final(self).path@ == old(self).path@ && final(b)@ == old(b)@,
            old(b)@.completed == 8 ==> won && final(self).path@ == old(self).path@ && final(self).nodes == old(
                self,
            ).nodes,
            first_try_wins(old(b)@) && !old(self).visited@.contains(old(b)@.hash()) && old(self).nodes < old(
                self,
            ).node_limit ==> won && final(self).path@ == old(self).path@.push(ordered_moves(old(b)@)[0]),
            forall|n: nat| #[trigger] first_choices_fit(old(b)@, n, old(self).visited@, old(self).nodes, old(self).node_limit)
                ==> won && final(self).path@ == old(self).path@ + first_choice_line(old(b)@, n) && final(self).nodes == old(
                self,
            ).nodes + n,
            !won && !final(self).hit_limit ==> {
                &&& old(self).visited@.subset_of(final(self).visited@)
                &&& final(self).visited@.contains(old(b)@.hash())
                &&& gains_explored(old(b)@, old(self).visited@, final(self).visited@, won_goal())
            },
        decreases old(self).node_limit - old(self).nodes,
    {
        let ghost b0 = b@;
        let ghost path0 = self.path@;
        let ghost n0 = self.nodes;
        let ghost v0 = self.visited@;
        if b.is_won() {
            assert(legal_plan(b0, Seq::<Move>::empty()));
            assert(self.path@ == path0 + Seq::<Move>::empty());
            assert(wins(b0, Seq::<Move>::empty()));
            assert forall|n: nat| #[trigger] first_choices_fit(b0, n, v0, n0, self.node_limit) implies n == 0 by {
                if n > 0 {
                    assert(first_choices_win(b0, n));
                }
            }
            assert(first_choice_line(b0, 0) =~= Seq::<Move>::empty());
            return true;
        }
        proof {
            assert forall|n: nat| #[trigger] first_choices_fit(b0, n, v0, n0, self.node_limit) implies n >= 1 by {
                if n == 0 {
                    assert(first_choices_win(b0, n));
                }
            }
        }
        self.nodes = self.nodes + 1;
        if self.nodes > self.node_limit {
            self.hit_limit = true;
            return false;
        }
        let ghost vb = v0.insert(b0.hash());
        if !self.visited.insert(b.hash()) {
            proof {
                assert(self.visited@ =~= v0);
                assert forall|n: nat| !#[trigger] first_choices_fit(b0, n, v0, n0, self.node_limit) by {
                    if first_choices_fit(b0, n, v0, n0, self.node_limit) {
                        lemma_first_choices_step(b0, n, v0, n0, self.node_limit);
                    }
                }
            }
            return false;  // already fully explored from a previous path
        }
        let moves = generate(b);
        proof {
            lemma_ordered_moves_legal(b0);
            crate::solver::lemma_ordered_moves_len(b0);
            lemma_moves_bound(b0);
            assert(replay(b0, Seq::<Move>::empty()) == b0);
            lemma_reach_hash(b0, Seq::<Move>::empty());
            assert(self.visited@ == vb);
        }
        let mut i: usize = 0;
        while i < moves.len()
            invariant
                self.visited@.finite(),
                vb.subset_of(self.visited@),
                v0.finite(),
                !v0.contains(b0.hash()),
                self.visited@.len() >= v0.len() + 1,
                forall|h: u64| #[trigger] self.visited@.contains(h) && !v0.contains(h) ==> reach_hashes(b0).contains(h),
                self.nodes - n0 <= 1 + i + (MOVES_BOUND + 1) * (self.visited@.len() - v0.len() - 1),
                moves@.len() <= MOVES_BOUND,
                b@ == b0,
                b0 == old(b)@,
                b0.completed != 8,
                path0 == old(self).path@,
                b0.wf(),
                self.path@ == path0,
                self.node_limit == old(self).node_limit,
                self.node_limit < u64::MAX,
                n0 == old(self).nodes,
                n0 < self.nodes <= self.node_limit + 1,
                self.hit_limit ==> self.nodes == self.node_limit + 1,
                !self.hit_limit ==> self.nodes <= self.node_limit,
                moves@ == ordered_moves(b0),
                forall|j: int| 0 <= j < ordered_moves(b0).len() ==> b0.moves().contains(#[trigger] ordered_moves(b0)[j]),
                i <= moves@.len(),
                first_try_wins(b0) && !old(self).visited@.contains(b0.hash()) && n0 < self.node_limit ==> i == 0
                    && !self.hit_limit,
                v0 == old(self).visited@,
                self.visited@ == v0.insert(b0.hash()) || !(exists|n: nat| #[trigger] first_choices_fit(b0, n, v0, n0, self.node_limit)),
                forall|n: nat| #[trigger] first_choices_fit(b0, n, v0, n0, self.node_limit) ==> i == 0 && !self.hit_limit
                    && self.nodes == n0 + 1 && n >= 1,
                vb == v0.insert(b0.hash()),
                !self.hit_limit ==> {
                    &&& vb.subset_of(self.visited@)
                    &&& gains_explored(b0, vb, self.visited@, won_goal())
                    &&& forall|j: int| 0 <= j < i ==> self.visited@.contains(#[trigger] b0.after(moves@[j]).hash())
                },
            decreases moves@.len() - i,
        {
            if self.hit_limit {
                proof {
                    lemma_scaled_sum(self.visited@.len() - v0.len(), 0);
                }
                return false;
            }
            let m = moves[i];
            proof {
                assert(ordered_moves(b0)[i as int] == m);
                lemma_step_legal(b0, m);
            }
            let saved = b.clone();
            b.apply(m);
            self.path.push(m);
            let ghost mid = self.path@;
            let ghost v1 = self.visited@;
            let ghost n1 = self.nodes;
            proof {
                lemma_reach_after(b0, m);
            }
            proof {
                assert forall|n: nat| #[trigger] first_choices_fit(b0, n, v0, n0, self.node_limit) implies first_choices_fit(
                    b0.after(m),
                    (n - 1) as nat,
                    v1,
                    n1,
                    self.node_limit,
                ) by {
                    lemma_first_choices_step(b0, n, v0, n0, self.node_limit);
                }
            }
            let child_won = self.dfs(b);
            proof {
                vstd::set_lib::lemma_len_subset(v1, self.visited@);
                lemma_scaled_sum(v1.len() - v0.len() - 1, self.visited@.len() - v1.len());
                lemma_scaled_sum(self.visited@.len() - v0.len(), 0);
            }
            if child_won {
                proof {
                    if i == 0 && first_try_wins(b0) {
                        assert(self.path@ == mid);
                    }
                    assert forall|n: nat| #[trigger] first_choices_fit(b0, n, v0, n0, self.node_limit) implies self.path@
                        == path0 + first_choice_line(b0, n) && self.nodes == n0 + n by {
                        lemma_first_choices_step(b0, n, v0, n0, self.node_limit);
                        assert(first_choices_fit(b0.after(m), (n - 1) as nat, v1, n1, self.node_limit));
                        assert(self.path@ =~= path0 + first_choice_line(b0, n));
                    }
                    let q2 = choose|q: Seq<Move>| self.path@ == mid + q && #[trigger] wins(b0.after(m), q);
                    lemma_prepend(b0, m, q2);
                    let q = seq![m] + q2;
                    assert(self.path@ =~= path0 + q);
                    assert(wins(b0, q));
                }
                return true;
            }
            self.path.pop();
            assert(self.path@ =~= path0);
            proof {
                assert forall|n: nat| !#[trigger] first_choices_fit(b0, n, v0, n0, self.node_limit) by {
                    if first_choices_fit(b0, n, v0, n0, self.node_limit) {
                        assert(first_choices_fit(b0.after(m), (n - 1) as nat, v1, n1, self.node_limit));
                    }
                }
                if !self.hit_limit {
                    lemma_gains_extend(b0, m, vb, v1, self.visited@);
                    assert forall|j: int| 0 <= j < i + 1 implies self.visited@.contains(#[trigger] b0.after(moves@[j]).hash()) by {
                        if j < i {
                            assert(v1.contains(b0.after(moves@[j]).hash()));
                        }
                    }
                }
            }
            *b = saved;
            i = i + 1;
        }
        proof {
            lemma_scaled_sum(self.visited@.len() - v0.len(), 0);
            assert forall|n: nat| !#[trigger] first_choices_fit(b0, n, v0, n0, self.node_limit) by {
                if first_choices_fit(b0, n, v0, n0, self.node_limit) {
                    assert(first_choices_win(b0, n));
                }
            }
            if !self.hit_limit {
                assert forall|mv: Move| b0.moves().contains(mv) implies self.visited@.contains(#[trigger] b0.after(mv).hash()) by {
                    lemma_ordered_moves_complete(b0, mv);
                    let j = choose|j: int| 0 <= j < moves@.len() && moves@[j] == mv;
                    assert(self.visited@.contains(b0.after(moves@[j]).hash()));
                }
                lemma_gains_close(b0, v0, vb, self.visited@);
            }
        }
        false
    }
}

} // verus!
