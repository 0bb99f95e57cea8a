//! Spider board state, rules, move generation, and canonical hashing.
use vstd::prelude::*;
use crate::rng::{Rng, shuffled, lemma_shuffle_keeps, lemma_shuffle_permutes, SEED_MIX};
use vstd::relations::{sorted_by, total_ordering};
use crate::card::{Card, is_card, UNKNOWN, card_ok, rank_of, suit_of, make_card, rank, suit, is_unknown, lemma_card_parts};

verus! {

/// Number of tableau columns.
pub const COLS: usize = 10;

/// Upper bound on the cards a board may hold (counting each completed run as 13).
/// It keeps the completed-run counter far inside a byte.
pub const CARD_LIMIT: usize = 3000;

/// A single move. `Deal` deals one card from the stock to every column.
#[derive(Clone, Copy, Debug, PartialEq, Eq, Structural)]
pub enum Move {
    Tableau { from: u8, to: u8, count: u8 },
    Deal,
}

/// Records a completed K..A run that was removed, so `undo` can put it back.
/// The 13 removed cards are always K, Q, .., A of `suit`.
#[derive(Clone, Copy, Debug, PartialEq, Eq, Structural)]
pub struct Completion {
    pub col: u8,
    pub suit: u8,
    /// Whether removing the run turned a face-down card up.
    pub flipped: bool,
}

/// Everything needed to reverse one `make`.
#[derive(Clone, Copy)]
pub enum Undo {
    Tableau { from: u8, to: u8, count: u8, flipped_from: bool, completion: Option<Completion> },
    Deal {
        /// `completions[c]` is set if column `c` completed a run during the deal.
        completions: [Option<Completion>; COLS],
    },
}

pub struct Board {
    /// Each column, bottom of the pile at index 0, top (playable end) at the back.
    pub cols: [Vec<Card>; COLS],
    /// Number of face-down cards at the bottom of each column.
    pub face_down: [u8; COLS],
    /// Remaining stock; a `Deal` pops 10 cards from the back.
    pub stock: Vec<Card>,
    /// Count of completed K..A suit runs removed from play (win at 8).
    pub completed: u8,
}

/// The mathematical content of a board.
#[verifier::ext_equal]
pub struct BoardState {
    pub cols: Seq<Seq<Card>>,
    pub face_down: Seq<u8>,
    pub stock: Seq<Card>,
    pub completed: u8,
}

impl View for Board {
    type V = BoardState;

    open spec fn view(&self) -> BoardState {
        BoardState {
            cols: Seq::new(COLS as nat, |c: int| self.cols@[c]@),
            face_down: self.face_down@,
            stock: self.stock@,
            completed: self.completed,
        }
    }
}

/// Total length of the first `n` columns.
pub open spec fn sum_lens(cols: Seq<Seq<Card>>, n: int) -> nat
    decreases n,
{
    if n <= 0 {
        0
    } else {
        sum_lens(cols, n - 1) + cols[n - 1].len()
    }
}

/// The 13 cards of a completed run of `suit`, King at index 0 down to Ace at index 12.
pub open spec fn full_run(suit: u8) -> Seq<Card> {
    Seq::new(13, |i: int| (suit * 16 + (13 - i)) as u8)
}

proof fn lemma_sum_lens_update(cols: Seq<Seq<Card>>, c: int, col: Seq<Card>, n: int)
    requires
        0 <= c,
        c < cols.len(),
        n <= cols.len(),
    ensures
        c < n ==> sum_lens(cols.update(c, col), n) == sum_lens(cols, n) - cols[c].len() + col.len(),
        c >= n ==> sum_lens(cols.update(c, col), n) == sum_lens(cols, n),
        sum_lens(cols, n) >= (if c < n { cols[c].len() } else { 0 }),
    decreases n,
{
    if n > 0 {
        lemma_sum_lens_update(cols, c, col, n - 1);
    }
}

impl BoardState {
    /// Number of cards on the board (columns and stock).
    pub open spec fn card_count(self) -> nat {
        sum_lens(self.cols, COLS as int) + self.stock.len()
    }

    /// A column's face-down count never exceeds its length, and a column whose
    /// cards are all face down shows an unknown card on top.
    pub open spec fn col_wf(self, c: int) -> bool {
        &&& self.face_down[c] <= self.cols[c].len()
        &&& (self.face_down[c] == self.cols[c].len() && self.cols[c].len() > 0) ==> self.cols[c].last() == UNKNOWN
    }

    /// Everything but the per-column face-down condition.
    pub open spec fn base_ok(self) -> bool {
        &&& self.cols.len() == COLS
        &&& self.face_down.len() == COLS
        &&& forall|c: int, i: int| 0 <= c < COLS && 0 <= i < self.cols[c].len() ==> card_ok(#[trigger] self.cols[c][i])
        &&& forall|i: int| 0 <= i < self.stock.len() ==> card_ok(#[trigger] self.stock[i])
        &&& self.stock.len() % 10 == 0
        &&& self.card_count() + 13 * self.completed <= CARD_LIMIT
    }

    /// Well-formed board.
    pub open spec fn wf(self) -> bool {
        &&& self.base_ok()
        &&& forall|c: int| 0 <= c < COLS ==> #[trigger] self.col_wf(c)
    }

    /// Whether turning the top face-down card of column `c` up is due.
    pub open spec fn flips(self, c: int) -> bool {
        self.face_down[c] > 0 && self.cols[c].len() == self.face_down[c]
    }

    /// Turn the top card of column `c` face up when every card left in it is face down.
    pub open spec fn flip(self, c: int) -> BoardState {
        if self.flips(c) {
            BoardState { face_down: self.face_down.update(c, (self.face_down[c] - 1) as u8), ..self }
        } else {
            self
        }
    }

    /// Whether the top 13 cards of column `c` are face up and form K..A of one suit.
    pub open spec fn completes(self, c: int) -> bool {
        let col = self.cols[c];
        let n = col.len() as int;
        &&& n >= 13
        &&& n - 13 >= self.face_down[c]
        &&& forall|i: int| 0 <= i < 13 ==> #[trigger] col[n - 13 + i] == full_run(suit_of(col[n - 13]))[i]
    }

    /// Column `c` after a K..A run is cut from its top (before any flip).
    pub open spec fn cut_run(self, c: int) -> BoardState {
        BoardState {
            cols: self.cols.update(c, self.cols[c].subrange(0, self.cols[c].len() - 13)),
            completed: (self.completed + 1) as u8,
            ..self
        }
    }

    /// Remove a completed run from the top of column `c`, if there is one.
    pub open spec fn complete(self, c: int) -> BoardState {
        if self.completes(c) {
            self.cut_run(c).flip(c)
        } else {
            self
        }
    }

    /// The record of `complete(c)`.
    pub open spec fn completion(self, c: int) -> Option<Completion> {
        if self.completes(c) {
            Some(
                Completion {
                    col: c as u8,
                    suit: suit_of(self.cols[c][self.cols[c].len() - 13]),
                    flipped: self.cut_run(c).flips(c),
                },
            )
        } else {
            None
        }
    }

    /// Move the top `k` cards of column `f` onto column `t`.
    pub open spec fn move_cards(self, f: int, t: int, k: int) -> BoardState {
        let src = self.cols[f];
        let n = src.len() as int;
        BoardState {
            cols: self.cols.update(f, src.subrange(0, n - k)).update(t, self.cols[t] + src.subrange(n - k, n)),
            ..self
        }
    }

    /// Deal one card from the back of the stock onto each column, column 0 first.
    pub open spec fn deal_row(self) -> BoardState {
        let n = self.stock.len() as int;
        BoardState {
            cols: Seq::new(COLS as nat, |c: int| self.cols[c].push(self.stock[n - 1 - c])),
            stock: self.stock.subrange(0, n - 10),
            ..self
        }
    }

    /// Run `complete` on columns `0..n` in order.
    pub open spec fn complete_upto(self, n: int) -> BoardState
        decreases n,
    {
        if n <= 0 {
            self
        } else {
            self.complete_upto(n - 1).complete(n - 1)
        }
    }

    /// Whether `m` may be applied: a tableau move takes face-up cards between two
    /// distinct columns, a deal needs a full row in the stock.
    pub open spec fn can_make(self, m: Move) -> bool {
        match m {
            Move::Tableau { from, to, count } => {
                &&& from < COLS
                &&& to < COLS
                &&& from != to
                &&& 1 <= count
                &&& count + self.face_down[from as int] <= self.cols[from as int].len()
            },
            Move::Deal => self.stock.len() >= 10,
        }
    }

    /// The board after `m`.
    pub open spec fn after(self, m: Move) -> BoardState {
        match m {
            Move::Tableau { from, to, count } => self.move_cards(from as int, to as int, count as int).flip(
                from as int,
            ).complete(to as int),
            Move::Deal => self.deal_row().complete_upto(COLS as int),
        }
    }

    /// Whether `u` is exactly the record that `make(m)` returns on this board.
    pub open spec fn records(self, m: Move, u: Undo) -> bool {
        match m {
            Move::Tableau { from, to, count } => {
                let s1 = self.move_cards(from as int, to as int, count as int);
                let s2 = s1.flip(from as int);
                u == Undo::Tableau {
                    from,
                    to,
                    count,
                    flipped_from: s1.flips(from as int),
                    completion: s2.completion(to as int),
                }
            },
            Move::Deal => match u {
                Undo::Deal { completions } => forall|c: int|
                    0 <= c < COLS ==> #[trigger] completions@[c] == self.deal_row().complete_upto(c).completion(c),
                _ => false,
            },
        }
    }

    /// Put a removed run back on top of its column.
    pub open spec fn uncomplete(self, comp: Completion) -> BoardState {
        let c = comp.col as int;
        BoardState {
            cols: self.cols.update(c, self.cols[c] + full_run(comp.suit)),
            face_down: if comp.flipped {
                self.face_down.update(c, (self.face_down[c] + 1) as u8)
            } else {
                self.face_down
            },
            completed: (self.completed - 1) as u8,
            ..self
        }
    }

    pub open spec fn uncomplete_opt(self, comp: Option<Completion>) -> BoardState {
        match comp {
            Some(cp) => self.uncomplete(cp),
            None => self,
        }
    }

    /// Undo the completions of columns `n-1` down to `0`.
    pub open spec fn uncomplete_downfrom(self, comps: Seq<Option<Completion>>, n: int) -> BoardState
        decreases n,
    {
        if n <= 0 {
            self
        } else {
            self.uncomplete_opt(comps[n - 1]).uncomplete_downfrom(comps, n - 1)
        }
    }

    /// Take the top card of each column back to the stock, column 9 first.
    pub open spec fn undeal_row(self) -> BoardState {
        BoardState {
            cols: Seq::new(COLS as nat, |c: int| self.cols[c].drop_last()),
            stock: self.stock + Seq::new(COLS as nat, |i: int| self.cols[COLS - 1 - i].last()),
            ..self
        }
    }

    /// The board that `undo(u)` leaves.
    pub open spec fn unmake(self, u: Undo) -> BoardState {
        match u {
            Undo::Tableau { from, to, count, flipped_from, completion } => {
                let s1 = self.uncomplete_opt(completion);
                let s2 = if flipped_from {
                    BoardState {
                        face_down: s1.face_down.update(from as int, (s1.face_down[from as int] + 1) as u8),
                        ..s1
                    }
                } else {
                    s1
                };
                s2.move_cards(to as int, from as int, count as int)
            },
            Undo::Deal { completions } => self.uncomplete_downfrom(completions@, COLS as int).undeal_row(),
        }
    }
}


impl BoardState {
    /// `u` reverses a move made on some well-formed board that led here.
    pub open spec fn undoes(self, u: Undo) -> bool {
        exists|s0: BoardState, m: Move| #[trigger] s0.records(m, u) && s0.wf() && s0.can_make(m) && s0.after(m) == self
    }
}

proof fn lemma_flip(s: BoardState, c: int)
    requires
        s.base_ok(),
        0 <= c < COLS,
    ensures
        s.flip(c).base_ok(),
        s.face_down[c] <= s.cols[c].len() ==> s.flip(c).col_wf(c),
        forall|d: int| 0 <= d < COLS && d != c ==> s.flip(c).face_down[d] == s.face_down[d],
        s.flip(c).cols == s.cols,
        s.flip(c).stock == s.stock,
        s.flip(c).completed == s.completed,
{
}

proof fn lemma_complete(s: BoardState, c: int)
    requires
        s.base_ok(),
        0 <= c < COLS,
        s.col_wf(c),
    ensures
        s.complete(c).base_ok(),
        s.complete(c).col_wf(c),
        forall|d: int| 0 <= d < COLS && d != c ==> #[trigger] s.complete(c).cols[d] == s.cols[d],
        forall|d: int| 0 <= d < COLS && d != c ==> #[trigger] s.complete(c).face_down[d] == s.face_down[d],
        s.complete(c).stock == s.stock,
        s.completes(c) ==> s.completed < 255 && s.complete(c).completed == s.completed + 1,
        !s.completes(c) ==> s.complete(c) == s,
        s.completes(c) ==> s.complete(c).uncomplete(s.completion(c).unwrap()) == s,
        s.completes(c) ==> s.completion(c).unwrap().col == c && s.completion(c).unwrap().suit < 16,
        s.completes(c) && s.completion(c).unwrap().flipped ==> s.complete(c).face_down[c] < 255,
        s.complete(c).card_count() + 13 * s.complete(c).completed == s.card_count() + 13 * s.completed,
{
    if s.completes(c) {
        let col = s.cols[c];
        let n = col.len() as int;
        lemma_sum_lens_update(s.cols, c, col.subrange(0, n - 13), COLS as int);
        let t = s.cut_run(c);
        assert(t.cols[c].len() == n - 13);
        lemma_flip(t, c);
        let r = s.complete(c);
        let comp = s.completion(c).unwrap();
        lemma_card_parts(col[n - 13]);
        let back = r.uncomplete(comp);
        assert forall|j: int| 0 <= j < 13 implies #[trigger] full_run(suit_of(col[n - 13]))[j] == col.subrange(n - 13, n)[j] by {
            assert(col[n - 13 + j] == full_run(suit_of(col[n - 13]))[j]);
        }
        assert(full_run(suit_of(col[n - 13])) =~= col.subrange(n - 13, n));
        assert(back.cols[c] =~= col);
        assert(back.cols =~= s.cols);
        assert(back.face_down =~= s.face_down);
        assert(back =~= s);
    }
}

proof fn lemma_complete_upto(s: BoardState, n: int)
    requires
        s.wf(),
        0 <= n <= COLS,
    ensures
        s.complete_upto(n).wf(),
        s.complete_upto(n).card_count() + 13 * s.complete_upto(n).completed == s.card_count() + 13 * s.completed,
        s.complete_upto(n).stock == s.stock,
        s.complete_upto(n).completed >= s.completed,
        forall|d: int| n <= d < COLS ==> #[trigger] s.complete_upto(n).cols[d] == s.cols[d],
        forall|d: int| n <= d < COLS ==> #[trigger] s.complete_upto(n).face_down[d] == s.face_down[d],
    decreases n,
{
    if n > 0 {
        lemma_complete_upto(s, n - 1);
        let x = s.complete_upto(n - 1);
        assert(x.col_wf(n - 1));
        lemma_complete(x, n - 1);
        let y = x.complete(n - 1);
        assert forall|d: int| 0 <= d < COLS implies #[trigger] y.col_wf(d) by {
            if d != n - 1 {
                assert(x.col_wf(d));
            }
        }
    }
}

proof fn lemma_uncomplete_roundtrip(s: BoardState, comps: Seq<Option<Completion>>, n: int)
    requires
        s.wf(),
        0 <= n <= COLS,
        forall|c: int| 0 <= c < n ==> #[trigger] comps[c] == s.complete_upto(c).completion(c),
    ensures
        s.complete_upto(n).uncomplete_downfrom(comps, n) == s,
    decreases n,
{
    if n > 0 {
        lemma_complete_upto(s, n - 1);
        let x = s.complete_upto(n - 1);
        assert(x.col_wf(n - 1));
        lemma_complete(x, n - 1);
        assert(s.complete_upto(n).uncomplete_opt(comps[n - 1]) == x);
        lemma_uncomplete_roundtrip(s, comps, n - 1);
    }
}

proof fn lemma_deal_row(s: BoardState)
    requires
        s.wf(),
        s.stock.len() >= 10,
    ensures
        s.deal_row().wf(),
        s.deal_row().undeal_row() == s,
        s.deal_row().completed == s.completed,
        s.deal_row().card_count() == s.card_count(),
{
    let d = s.deal_row();
    let n = s.stock.len() as int;
    assert forall|c: int| 0 <= c < COLS implies #[trigger] d.col_wf(c) by {
        assert(s.col_wf(c));
    }
    assert(sum_lens(d.cols, COLS as int) == sum_lens(s.cols, COLS as int) + 10) by {
        assert forall|k: int| 0 <= k <= COLS implies sum_lens(d.cols, k) == sum_lens(s.cols, k) + k by {
            lemma_sum_lens_grow(s.cols, d.cols, k);
        }
    }
    assert forall|c: int, i: int| 0 <= c < COLS && 0 <= i < d.cols[c].len() implies card_ok(#[trigger] d.cols[c][i]) by {
        if i < s.cols[c].len() {
            assert(card_ok(s.cols[c][i]));
        } else {
            assert(card_ok(s.stock[n - 1 - c]));
        }
    }
    assert(n % 10 == 0);
    assert((n - 10) % 10 == 0);
    let u = d.undeal_row();
    assert(u.cols =~= s.cols) by {
        assert forall|c: int| 0 <= c < COLS implies u.cols[c] == s.cols[c] by {
            assert(u.cols[c] =~= s.cols[c]);
        }
    }
    assert(u.stock =~= s.stock);
    assert(u =~= s);
}

proof fn lemma_sum_lens_grow(a: Seq<Seq<Card>>, b: Seq<Seq<Card>>, k: int)
    requires
        0 <= k <= a.len(),
        k <= b.len(),
        forall|c: int| 0 <= c < k ==> #[trigger] b[c].len() == a[c].len() + 1,
    ensures
        sum_lens(b, k) == sum_lens(a, k) + k,
    decreases k,
{
    if k > 0 {
        lemma_sum_lens_grow(a, b, k - 1);
    }
}

/// Making a move on a well-formed board keeps it well formed, and the record
/// that `make` returns takes the board back exactly to where it was.
pub proof fn lemma_make_then_undo(s: BoardState, m: Move, u: Undo)
    requires
        s.wf(),
        s.can_make(m),
        s.records(m, u),
    ensures
        s.after(m).wf(),
        s.after(m).unmake(u) == s,
        s.after(m).undoes(u),
{
    match m {
        Move::Tableau { from, to, count } => {
            let (f, t, k) = (from as int, to as int, count as int);
            let n = s.cols[f].len() as int;
            let s1 = s.move_cards(f, t, k);
            lemma_sum_lens_update(s.cols, f, s.cols[f].subrange(0, n - k), COLS as int);
            lemma_sum_lens_update(s.cols.update(f, s.cols[f].subrange(0, n - k)), t, s.cols[t] + s.cols[f].subrange(n - k, n), COLS as int);
            assert forall|c: int, i: int| 0 <= c < COLS && 0 <= i < s1.cols[c].len() implies card_ok(#[trigger] s1.cols[c][i]) by {
                if c == t && i >= s.cols[t].len() {
                    assert(card_ok(s.cols[f][n - k + (i - s.cols[t].len())]));
                } else if c == f {
                    assert(card_ok(s.cols[f][i]));
                } else {
                    assert(card_ok(s.cols[c][i]));
                }
            }
            assert(s1.base_ok());
            lemma_flip(s1, f);
            let s2 = s1.flip(f);
            assert forall|c: int| 0 <= c < COLS implies #[trigger] s2.col_wf(c) by {
                if c != f && c != t {
                    assert(s.col_wf(c));
                }
                if c == t {
                    assert(s.col_wf(t));
                }
            }
            lemma_complete(s2, t);
            let s3 = s2.complete(t);
            assert forall|c: int| 0 <= c < COLS implies #[trigger] s3.col_wf(c) by {
                if c != t {
                    assert(s2.col_wf(c));
                }
            }
            assert(s3 == s.after(m));
            // Going back.
            let b1 = s3.uncomplete_opt(s2.completion(t));
            assert(b1 == s2);
            let b2 = if s1.flips(f) {
                BoardState { face_down: b1.face_down.update(f, (b1.face_down[f] + 1) as u8), ..b1 }
            } else {
                b1
            };
            assert(b2.face_down =~= s1.face_down);
            assert(b2 =~= s1);
            let b3 = b2.move_cards(t, f, k);
            assert(b3.cols[f] =~= s.cols[f]);
            assert(b3.cols[t] =~= s.cols[t]);
            assert(b3.cols =~= s.cols);
            assert(b3 =~= s);
            assert(s3.unmake(u) == s);
        },
        Move::Deal => {
            lemma_deal_row(s);
            let d = s.deal_row();
            lemma_complete_upto(d, COLS as int);
            match u {
                Undo::Deal { completions } => {
                    lemma_uncomplete_roundtrip(d, completions@, COLS as int);
                },
                _ => {},
            }
        },
    }
}

impl Clone for Board {
    fn clone(&self) -> (r: Board)
        ensures
            r@ == self@,
    {
        let r = Board {
            cols: [
                self.cols[0].clone(),
                self.cols[1].clone(),
                self.cols[2].clone(),
                self.cols[3].clone(),
                self.cols[4].clone(),
                self.cols[5].clone(),
                self.cols[6].clone(),
                self.cols[7].clone(),
                self.cols[8].clone(),
                self.cols[9].clone(),
            ],
            face_down: self.face_down,
            stock: self.stock.clone(),
            completed: self.completed,
        };
        assert(r@.cols =~= self@.cols);
        r
    }
}

impl Board {
    /// If every card left in column `c` is face down, turn the top one up.
    /// Returns whether a flip happened.
    fn flip_if_needed(&mut self, c: usize) -> (flipped: bool)
        requires
            c < COLS,
        ensures
            final(self)@ == old(self)@.flip(c as int),
            flipped == old(self)@.flips(c as int),
    {
        let fd = self.face_down[c] as usize;
        if fd > 0 && self.cols[c].len() == fd {
            self.face_down[c] = self.face_down[c] - 1;
            assert(self@ =~= old(self)@.flip(c as int));
            true
        } else {
            false
        }
    }

    /// Remove a completed K..A same-suit run from the top of column `c`, if any.
    fn try_complete(&mut self, c: usize) -> (comp: Option<Completion>)
        requires
            c < COLS,
            old(self)@.completes(c as int) ==> old(self).completed < 255,
        ensures
            final(self)@ == old(self)@.complete(c as int),
            comp == old(self)@.completion(c as int),
    {
        let ghost s = self@;
        let n = self.cols[c].len();
        if n < 13 {
            return None;
        }
        if (n - 13) < self.face_down[c] as usize {
            return None;
        }
        let s_suit = suit(self.cols[c][n - 13]);
        let ghost run = full_run(s_suit);
        let mut i: usize = 0;
        while i < 13
            invariant
                self@ == s,
                n == s.cols[c as int].len(),
                n >= 13,
                c < COLS,
                s_suit == suit_of(s.cols[c as int][n - 13]),
                run == full_run(s_suit),
                0 <= i <= 13,
                forall|j: int| 0 <= j < i ==> #[trigger] s.cols[c as int][n - 13 + j] == run[j],
            decreases 13 - i,
        {
            let card = self.cols[c][n - 13 + i];
            proof {
                lemma_card_parts(card);
                assert(s.cols[c as int][n - 13 + i] == card);
            }
            if suit(card) != s_suit || rank(card) != (13 - i) as u8 {
                assert(card != run[i as int]);
                return None;
            }
            i = i + 1;
        }
        assert(s.completes(c as int));
        self.cols[c].truncate(n - 13);
        self.completed = self.completed + 1;
        assert(self@ =~= s.cut_run(c as int));
        let flipped = self.flip_if_needed(c);
        Some(Completion { col: c as u8, suit: s_suit, flipped })
    }

    /// Reverse a completion: put the removed K..A run back and undo its flip.
    fn uncomplete(&mut self, comp: Completion)
        requires
            comp.col < COLS,
            comp.suit < 16,
            old(self).completed >= 1,
            comp.flipped ==> old(self).face_down@[comp.col as int] < 255,
        ensures
            final(self)@ == old(self)@.uncomplete(comp),
    {
        let c = comp.col as usize;
        if comp.flipped {
            self.face_down[c] = self.face_down[c] + 1;
        }
        let ghost base = self.cols@[c as int]@;
        let mut r: u8 = 13;
        while r >= 1
            invariant
                c < COLS,
                comp.suit < 16,
                r <= 13,
                self.cols@[c as int]@ =~= base + full_run(comp.suit).subrange(0, 13 - r),
                forall|d: int| 0 <= d < COLS && d != c ==> self.cols@[d]@ == old(self).cols@[d]@,
                self.stock@ == old(self).stock@,
                self.completed == old(self).completed,
                self.face_down@ == (if comp.flipped {
                    old(self).face_down@.update(c as int, (old(self).face_down@[c as int] + 1) as u8)
                } else {
                    old(self).face_down@
                }),
                base == old(self).cols@[c as int]@,
            decreases r,
        {
            let card = make_card(r, comp.suit);
            self.cols[c].push(card);
            r = r - 1;
        }
        self.completed = self.completed - 1;
        assert(full_run(comp.suit).subrange(0, 13) =~= full_run(comp.suit));
        assert(self@.cols =~= old(self)@.uncomplete(comp).cols);
        assert(self@ =~= old(self)@.uncomplete(comp));
    }

    /// Apply a move in place, returning an `Undo` that exactly reverses it.
    pub fn make(&mut self, m: Move) -> (u: Undo)
        requires
            old(self)@.wf(),
            old(self)@.can_make(m),
        ensures
            final(self)@ == old(self)@.after(m),
            final(self)@.wf(),
            old(self)@.records(m, u),
            final(self)@.undoes(u),
            final(self)@.unmake(u) == old(self)@,
    {
        let ghost s = self@;
        let u = match m {
            Move::Tableau { from, to, count } => {
                let (f, t, k) = (from as usize, to as usize, count as usize);
                let n = self.cols[f].len();
                let mut i = n - k;
                while i < n
                    invariant
                        f < COLS,
                        t < COLS,
                        f != t,
                        n == s.cols[f as int].len(),
                        k <= n,
                        n - k <= i <= n,
                        self.cols@[t as int]@ =~= s.cols[t as int] + s.cols[f as int].subrange(n - k, i as int),
                        forall|d: int| 0 <= d < COLS && d != t ==> self.cols@[d]@ == s.cols[d],
                        self.face_down@ == s.face_down,
                        self.stock@ == s.stock,
                        self.completed == s.completed,
                    decreases n - i,
                {
                    let card = self.cols[f][i];
                    self.cols[t].push(card);
                    i = i + 1;
                }
                self.cols[f].truncate(n - k);
                assert(self@.cols =~= s.move_cards(f as int, t as int, k as int).cols);
                assert(self@ =~= s.move_cards(f as int, t as int, k as int));
                proof {
                    lemma_make_then_undo_parts(s, m);
                }
                let flipped_from = self.flip_if_needed(f);
                let completion = self.try_complete(t);
                Undo::Tableau { from, to, count, flipped_from, completion }
            },
            Move::Deal => {
                let mut c: usize = 0;
                let ghost n = s.stock.len() as int;
                while c < COLS
                    invariant
                        n == s.stock.len(),
                        n >= 10,
                        c <= COLS,
                        self.stock@ =~= s.stock.subrange(0, n - c as int),
                        forall|d: int| 0 <= d < c ==> #[trigger] self.cols@[d]@ == s.cols[d].push(s.stock[n - 1 - d]),
                        forall|d: int| c <= d < COLS ==> #[trigger] self.cols@[d]@ == s.cols[d],
                        self.face_down@ == s.face_down,
                        self.completed == s.completed,
                    decreases COLS - c,
                {
                    let card = self.stock.pop().unwrap();
                    self.cols[c].push(card);
                    c = c + 1;
                }
                assert(self@.cols =~= s.deal_row().cols);
                assert(self@ =~= s.deal_row());
                proof {
                    lemma_deal_row(s);
                }
                let ghost d = s.deal_row();
                let mut completions: [Option<Completion>; COLS] = [None; COLS];
                let mut c: usize = 0;
                while c < COLS
                    invariant
                        d.wf(),
                        d == s.deal_row(),
                        c <= COLS,
                        self@ == d.complete_upto(c as int),
                        forall|e: int| 0 <= e < c ==> #[trigger] completions@[e] == d.complete_upto(e).completion(e),
                    decreases COLS - c,
                {
                    proof {
                        lemma_complete_upto(d, c as int);
                        assert(d.complete_upto(c as int).col_wf(c as int));
                        lemma_complete(d.complete_upto(c as int), c as int);
                    }
                    let comp = self.try_complete(c);
                    completions[c] = comp;
                    c = c + 1;
                }
                Undo::Deal { completions }
            },
        };
        proof {
            lemma_make_then_undo(s, m, u);
        }
        u
    }
}

impl Board {
    /// Reverse a previously made move, restoring the exact prior board.
    pub fn undo(&mut self, u: &Undo)
        requires
            old(self)@.undoes(*u),
        ensures
            final(self)@ == old(self)@.unmake(*u),
            final(self)@.wf(),
    {
        let ghost s3 = self@;
        let ghost (s0, m) = choose|s0: BoardState, m: Move| #[trigger] s0.records(m, *u) && s0.wf() && s0.can_make(m) && s0.after(m) == s3;
        proof {
            lemma_make_then_undo(s0, m, *u);
        }
        match *u {
            Undo::Tableau { from, to, count, flipped_from, completion } => {
                let (f, t, k) = (from as usize, to as usize, count as usize);
                let ghost s1 = s0.move_cards(f as int, t as int, k as int);
                let ghost s2 = s1.flip(f as int);
                proof {
                    let n = s0.cols[f as int].len() as int;
                    lemma_sum_lens_update(s0.cols, f as int, s0.cols[f as int].subrange(0, n - k), COLS as int);
                    lemma_sum_lens_update(s0.cols.update(f as int, s0.cols[f as int].subrange(0, n - k)), t as int, s0.cols[t as int] + s0.cols[f as int].subrange(n - k, n), COLS as int);
                    assert forall|c: int, i: int| 0 <= c < COLS && 0 <= i < s1.cols[c].len() implies card_ok(#[trigger] s1.cols[c][i]) by {
                        if c == t && i >= s0.cols[t as int].len() {
                            assert(card_ok(s0.cols[f as int][n - k + (i - s0.cols[t as int].len())]));
                        } else if c == f {
                            assert(card_ok(s0.cols[f as int][i]));
                        } else {
                            assert(card_ok(s0.cols[c][i]));
                        }
                    }
                    lemma_flip(s1, f as int);
                    assert(s0.col_wf(t as int));
                    assert(s2.col_wf(t as int));
                    lemma_complete(s2, t as int);
                }
                if let Some(comp) = completion {
                    self.uncomplete(comp);
                }
                assert(self@ == s2);
                if flipped_from {
                    self.face_down[f] = self.face_down[f] + 1;
                }
                assert(self@.face_down =~= s1.face_down);
                assert(self@ =~= s1);
                let n = self.cols[t].len();
                let mut i = n - k;
                while i < n
                    invariant
                        f < COLS,
                        t < COLS,
                        f != t,
                        n == s1.cols[t as int].len(),
                        k <= n,
                        n - k <= i <= n,
                        self.cols@[f as int]@ =~= s1.cols[f as int] + s1.cols[t as int].subrange(n - k, i as int),
                        forall|d: int| 0 <= d < COLS && d != f ==> self.cols@[d]@ == s1.cols[d],
                        self.face_down@ == s1.face_down,
                        self.stock@ == s1.stock,
                        self.completed == s1.completed,
                    decreases n - i,
                {
                    let card = self.cols[t][i];
                    self.cols[f].push(card);
                    i = i + 1;
                }
                self.cols[t].truncate(n - k);
                assert(self@.cols =~= s0.cols) by {
                    assert(self@.cols[f as int] =~= s0.cols[f as int]);
                    assert(self@.cols[t as int] =~= s0.cols[t as int]);
                }
                assert(self@ =~= s0);
            },
            Undo::Deal { completions } => {
                let ghost d = s0.deal_row();
                proof {
                    lemma_deal_row(s0);
                }
                let mut c: usize = COLS;
                while c > 0
                    invariant
                        d.wf(),
                        d == s0.deal_row(),
                        c <= COLS,
                        self@ == d.complete_upto(c as int),
                        forall|e: int| 0 <= e < COLS ==> #[trigger] completions@[e] == d.complete_upto(e).completion(e),
                    decreases c,
                {
                    proof {
                        lemma_complete_upto(d, c - 1);
                        assert(d.complete_upto(c - 1).col_wf(c - 1));
                        lemma_complete(d.complete_upto(c - 1), c - 1);
                    }
                    if let Some(comp) = completions[c - 1] {
                        self.uncomplete(comp);
                    }
                    c = c - 1;
                }
                let ghost n = d.stock.len() as int;
                let mut c: usize = COLS;
                while c > 0
                    invariant
                        d.wf(),
                        d == s0.deal_row(),
                        s0.wf(),
                        n == d.stock.len(),
                        c <= COLS,
                        self.stock@ =~= d.stock + Seq::new((COLS - c) as nat, |i: int| d.cols[COLS - 1 - i].last()),
                        forall|e: int| 0 <= e < c ==> #[trigger] self.cols@[e]@ == d.cols[e],
                        forall|e: int| c <= e < COLS ==> #[trigger] self.cols@[e]@ == d.cols[e].drop_last(),
                        self.face_down@ == d.face_down,
                        self.completed == d.completed,
                    decreases c,
                {
                    assert(d.cols[c - 1] == s0.cols[c - 1].push(s0.stock[s0.stock.len() - 1 - (c - 1)]));
                    let card = self.cols[c - 1].pop().unwrap();
                    self.stock.push(card);
                    c = c - 1;
                }
                assert(self@.cols =~= d.undeal_row().cols);
                assert(self@ =~= d.undeal_row());
            },
        }
    }
}

/// Facts about the intermediate boards of a tableau move.
proof fn lemma_make_then_undo_parts(s: BoardState, m: Move)
    requires
        s.wf(),
        s.can_make(m),
        m is Tableau,
    ensures
        ({
            let s2 = s.move_cards(m->from as int, m->to as int, m->count as int).flip(m->from as int);
            s2.completes(m->to as int) ==> s2.completed < 255
        }),
{
    let (f, t, k) = (m->from as int, m->to as int, m->count as int);
    let n = s.cols[f].len() as int;
    let s1 = s.move_cards(f, t, k);
    lemma_sum_lens_update(s.cols, f, s.cols[f].subrange(0, n - k), COLS as int);
    lemma_sum_lens_update(s.cols.update(f, s.cols[f].subrange(0, n - k)), t, s.cols[t] + s.cols[f].subrange(n - k, n), COLS as int);
    let s2 = s1.flip(f);
    if s2.completes(t) {
        lemma_sum_lens_update(s2.cols, t, s2.cols[t], COLS as int);
    }
}


/// Whether `upper` sits directly under `lower` in a movable run: same suit, one rank higher.
pub open spec fn same_suit_step(upper: Card, lower: Card) -> bool {
    suit_of(upper) == suit_of(lower) && rank_of(upper) == rank_of(lower) + 1
}

/// Grow a run of length `len` at the top of `col` while the next card below is
/// face up and continues it.
pub open spec fn extend_run(col: Seq<Card>, fd: int, len: int) -> int
    decreases col.len() - len,
{
    if 1 <= len < col.len() && col.len() - len > fd && same_suit_step(col[col.len() - len - 1], col[col.len() - len]) {
        extend_run(col, fd, len + 1)
    } else {
        len
    }
}

impl BoardState {
    /// Length of the maximal same-suit descending run of face-up cards at the top
    /// of column `c` (0 when the column is empty or its top card is unknown).
    pub open spec fn run_len(self, c: int) -> int {
        let col = self.cols[c];
        if col.len() == 0 || col.last() == UNKNOWN {
            0
        } else {
            extend_run(col, self.face_down[c] as int, 1)
        }
    }

    /// The moves of `k` cards from column `f` onto the non-empty columns `0..n`
    /// whose top card is one rank above the moving bottom card.
    pub open spec fn onto_upto(self, f: int, k: int, n: int) -> Seq<Move>
        decreases n,
    {
        if n <= 0 {
            Seq::empty()
        } else {
            let t = n - 1;
            let src = self.cols[f];
            let rest = self.onto_upto(f, k, n - 1);
            if t != f && self.cols[t].len() > 0 && rank_of(self.cols[t].last()) == rank_of(src[src.len() - k]) + 1 {
                rest.push(Move::Tableau { from: f as u8, to: t as u8, count: k as u8 })
            } else {
                rest
            }
        }
    }

    /// The first empty column among `c..COLS`, if any.
    pub open spec fn first_empty_from(self, c: int) -> Option<int>
        decreases COLS - c,
    {
        if c >= COLS {
            None
        } else if self.cols[c].len() == 0 {
            Some(c)
        } else {
            self.first_empty_from(c + 1)
        }
    }

    /// The move of `k` cards from `f` to the first empty column, unless `f` is
    /// that column or the move would relocate the whole pile.
    pub open spec fn to_empty(self, f: int, k: int) -> Seq<Move> {
        match self.first_empty_from(0) {
            Some(e) => if e != f && k != self.cols[f].len() {
                seq![Move::Tableau { from: f as u8, to: e as u8, count: k as u8 }]
            } else {
                Seq::empty()
            },
            None => Seq::empty(),
        }
    }

    /// Moves of runs of size `1..=j` from column `f`, in order of size.
    pub open spec fn from_upto(self, f: int, j: int) -> Seq<Move>
        decreases j,
    {
        if j <= 0 {
            Seq::empty()
        } else {
            self.from_upto(f, j - 1) + self.onto_upto(f, j, COLS as int) + self.to_empty(f, j)
        }
    }

    /// All tableau moves from columns `0..n`, in the order `gen_moves` lists them.
    pub open spec fn tableau_upto(self, n: int) -> Seq<Move>
        decreases n,
    {
        if n <= 0 {
            Seq::empty()
        } else {
            let f = n - 1;
            self.tableau_upto(n - 1) + if self.cols[f].len() == 0 {
                Seq::empty()
            } else {
                self.from_upto(f, self.run_len(f))
            }
        }
    }

    /// Whether dealing is allowed: the stock is non-empty and no column is empty.
    pub open spec fn may_deal(self) -> bool {
        self.stock.len() > 0 && forall|c: int| 0 <= c < COLS ==> #[trigger] self.cols[c].len() > 0
    }

    /// All legal moves, in the order `gen_moves` lists them.
    pub open spec fn moves(self) -> Seq<Move> {
        self.tableau_upto(COLS as int) + if self.may_deal() {
            seq![Move::Deal]
        } else {
            Seq::empty()
        }
    }
}

impl BoardState {
    /// Moving `count` cards from column `from` to column `to` follows the
    /// rules: the cards form the top run of `from`, and they go onto a card
    /// one rank above the run's bottom card, or into the first empty column
    /// when they are not the whole pile.
    pub open spec fn tableau_legal(self, from: int, to: int, count: int) -> bool {
        &&& 0 <= from < COLS
        &&& 0 <= to < COLS
        &&& from != to
        &&& 1 <= count <= self.run_len(from)
        &&& if self.cols[to].len() > 0 {
            rank_of(self.cols[to].last()) == rank_of(self.cols[from][self.cols[from].len() - count]) + 1
        } else {
            self.first_empty_from(0) == Some(to) && count != self.cols[from].len()
        }
    }
}

proof fn lemma_onto_has(s: BoardState, f: int, k: int, n: int, m: Move)
    requires
        0 <= f < COLS,
        1 <= k <= 13,
        0 <= n <= COLS,
    ensures
        s.onto_upto(f, k, n).contains(m) <==> (m matches Move::Tableau { from, to, count } && from == f && count == k
            && to < n && to != f && s.cols[to as int].len() > 0 && rank_of(s.cols[to as int].last()) == rank_of(
            s.cols[f][s.cols[f].len() - k],
        ) + 1),
    decreases n,
{
    broadcast use vstd::seq_lib::lemma_seq_contains_after_push;
    broadcast use vstd::seq_lib::lemma_seq_empty_contains_nothing;

    if n > 0 {
        lemma_onto_has(s, f, k, n - 1, m);
    }
}

proof fn lemma_from_has(s: BoardState, f: int, j: int, m: Move)
    requires
        s.cols.len() == COLS,
        0 <= f < COLS,
        0 <= j <= 13,
    ensures
        s.from_upto(f, j).contains(m) <==> (m matches Move::Tableau { from, to, count } && from == f && 1 <= count <= j
            && to < COLS && to != f && if s.cols[to as int].len() > 0 {
            rank_of(s.cols[to as int].last()) == rank_of(s.cols[f][s.cols[f].len() - count]) + 1
        } else {
            s.first_empty_from(0) == Some(to as int) && count != s.cols[f].len()
        }),
    decreases j,
{
    broadcast use vstd::seq_lib::lemma_seq_concat_contains_all_elements;
    broadcast use vstd::seq_lib::lemma_seq_empty_contains_nothing;
    broadcast use vstd::seq_lib::lemma_seq_contains;

    if j > 0 {
        lemma_from_has(s, f, j - 1, m);
        lemma_onto_has(s, f, j, COLS as int, m);
        lemma_first_empty(s, 0);
        let a = s.from_upto(f, j - 1);
        let b = s.onto_upto(f, j, COLS as int);
        let c = s.to_empty(f, j);
        assert(s.from_upto(f, j) == a + b + c);
        if let Move::Tableau { from, to, count } = m {
            if c.contains(m) {
                assert(c.len() == 1 && c[0] == m);
            }
            if count == j && from == f && s.cols[to as int].len() == 0 && s.first_empty_from(0) == Some(to as int) && count
                != s.cols[f].len() && to != f {
                assert(c[0] == m);
            }
        } else {
            if c.contains(m) {
                assert(c[0] == m);
            }
        }
    }
}

proof fn lemma_tableau_has(s: BoardState, n: int, m: Move)
    requires
        s.wf(),
        0 <= n <= COLS,
    ensures
        s.tableau_upto(n).contains(m) <==> (m matches Move::Tableau { from, to, count } && from < n && s.tableau_legal(
            from as int,
            to as int,
            count as int,
        )),
    decreases n,
{
    broadcast use vstd::seq_lib::lemma_seq_concat_contains_all_elements;
    broadcast use vstd::seq_lib::lemma_seq_empty_contains_nothing;

    if n > 0 {
        let f = n - 1;
        lemma_tableau_has(s, n - 1, m);
        lemma_run_len(s, f);
        lemma_from_has(s, f, s.run_len(f), m);
    }
}

proof fn lemma_onto_distinct(s: BoardState, f: int, k: int, n: int)
    requires
        0 <= f < COLS,
        1 <= k <= 13,
        0 <= n <= COLS,
    ensures
        s.onto_upto(f, k, n).no_duplicates(),
    decreases n,
{
    if n > 0 {
        lemma_onto_distinct(s, f, k, n - 1);
        let rest = s.onto_upto(f, k, n - 1);
        assert forall|i: int| 0 <= i < rest.len() implies rest[i] != Move::Tableau { from: f as u8, to: (n - 1) as u8, count: k as u8 } by {
            assert(rest.contains(rest[i]));
            lemma_onto_has(s, f, k, n - 1, rest[i]);
        }
    }
}

proof fn lemma_from_distinct(s: BoardState, f: int, j: int)
    requires
        s.cols.len() == COLS,
        0 <= f < COLS,
        0 <= j <= 13,
    ensures
        s.from_upto(f, j).no_duplicates(),
    decreases j,
{
    if j > 0 {
        lemma_from_distinct(s, f, j - 1);
        lemma_onto_distinct(s, f, j, COLS as int);
        let a = s.from_upto(f, j - 1);
        let b = s.onto_upto(f, j, COLS as int);
        let c = s.to_empty(f, j);
        assert forall|x: int, y: int| 0 <= x < a.len() && 0 <= y < b.len() implies a[x] != b[y] by {
            assert(a.contains(a[x]));
            assert(b.contains(b[y]));
            lemma_from_has(s, f, j - 1, a[x]);
            lemma_onto_has(s, f, j, COLS as int, b[y]);
        }
        vstd::seq_lib::lemma_no_dup_in_concat(a, b);
        lemma_first_empty(s, 0);
        assert forall|x: int, y: int| 0 <= x < (a + b).len() && 0 <= y < c.len() implies (a + b)[x] != c[y] by {
            let e = (a + b)[x];
            if x < a.len() {
                assert(a.contains(e));
                lemma_from_has(s, f, j - 1, e);
            } else {
                assert(b.contains(e));
                lemma_onto_has(s, f, j, COLS as int, e);
            }
        }
        vstd::seq_lib::lemma_no_dup_in_concat(a + b, c);
    }
}

proof fn lemma_tableau_distinct(s: BoardState, n: int)
    requires
        s.wf(),
        0 <= n <= COLS,
    ensures
        s.tableau_upto(n).no_duplicates(),
    decreases n,
{
    if n > 0 {
        let f = n - 1;
        lemma_tableau_distinct(s, n - 1);
        lemma_run_len(s, f);
        if s.cols[f].len() != 0 {
            let a = s.tableau_upto(n - 1);
            let b = s.from_upto(f, s.run_len(f));
            lemma_from_distinct(s, f, s.run_len(f));
            assert forall|x: int, y: int| 0 <= x < a.len() && 0 <= y < b.len() implies a[x] != b[y] by {
                assert(a.contains(a[x]));
                assert(b.contains(b[y]));
                lemma_tableau_has(s, n - 1, a[x]);
                lemma_from_has(s, f, s.run_len(f), b[y]);
            }
            vstd::seq_lib::lemma_no_dup_in_concat(a, b);
        } else {
            assert(s.tableau_upto(n) =~= s.tableau_upto(n - 1));
        }
    }
}

/// `moves` lists each move once.
pub proof fn lemma_moves_distinct(s: BoardState)
    requires
        s.wf(),
    ensures
        s.moves().no_duplicates(),
{
    let a = s.tableau_upto(COLS as int);
    lemma_tableau_distinct(s, COLS as int);
    if s.may_deal() {
        assert forall|x: int, y: int| 0 <= x < a.len() && 0 <= y < 1 implies a[x] != seq![Move::Deal][y] by {
            assert(a.contains(a[x]));
            lemma_tableau_has(s, COLS as int, a[x]);
        }
        vstd::seq_lib::lemma_no_dup_in_concat(a, seq![Move::Deal]);
    } else {
        assert(s.moves() =~= a);
    }
}

/// `moves` lists exactly the legal moves: each tableau move that follows the
/// rules, and the deal when it is allowed, as the last move.
pub proof fn lemma_moves_has(s: BoardState, m: Move)
    requires
        s.wf(),
    ensures
        s.moves().contains(m) <==> match m {
            Move::Tableau { from, to, count } => s.tableau_legal(from as int, to as int, count as int),
            Move::Deal => s.may_deal(),
        },
        s.may_deal() ==> s.moves().last() == Move::Deal,
{
    broadcast use vstd::seq_lib::lemma_seq_concat_contains_all_elements;
    broadcast use vstd::seq_lib::lemma_seq_empty_contains_nothing;
    broadcast use vstd::seq_lib::lemma_seq_contains;

    lemma_tableau_has(s, COLS as int, m);
    if s.may_deal() {
        assert(seq![Move::Deal][0] == Move::Deal);
    }
}

proof fn lemma_extend_run(col: Seq<Card>, fd: int, len: int)
    requires
        1 <= len <= col.len() - fd,
        0 <= fd,
        forall|i: int| 0 <= i < col.len() ==> card_ok(#[trigger] col[i]),
        col.last() != UNKNOWN,
        rank_of(col[col.len() - len]) == rank_of(col.last()) + len - 1,
    ensures
        len <= extend_run(col, fd, len) <= col.len() - fd,
        extend_run(col, fd, len) <= 13,
        rank_of(col[col.len() - extend_run(col, fd, len)]) == rank_of(col.last()) + extend_run(col, fd, len) - 1,
    decreases col.len() - len,
{
    let n = col.len() as int;
    assert(card_ok(col[n - 1]));
    assert(card_ok(col[n - len]));
    if 1 <= len < n && n - len > fd && same_suit_step(col[n - len - 1], col[n - len]) {
        assert(card_ok(col[n - len - 1]));
        lemma_extend_run(col, fd, len + 1);
    }
}

/// Whatever the cards, a run's ranks climb by one from the top card, so it
/// stops within sixteen cards.
proof fn lemma_extend_run_any(col: Seq<Card>, fd: int, len: int)
    requires
        1 <= len <= col.len(),
        rank_of(col[col.len() - len]) == rank_of(col.last()) + len - 1,
    ensures
        len <= extend_run(col, fd, len) <= col.len(),
        extend_run(col, fd, len) <= 16,
    decreases col.len() - len,
{
    let n = col.len() as int;
    if 1 <= len < n && n - len > fd && same_suit_step(col[n - len - 1], col[n - len]) {
        lemma_extend_run_any(col, fd, len + 1);
    }
}

proof fn lemma_run_len(s: BoardState, c: int)
    requires
        s.wf(),
        0 <= c < COLS,
    ensures
        0 <= s.run_len(c) <= 13,
        s.run_len(c) + s.face_down[c] <= s.cols[c].len(),
        s.cols[c].len() > 0 && s.cols[c].last() != UNKNOWN ==> s.run_len(c) >= 1,
{
    assert(s.col_wf(c));
    let col = s.cols[c];
    if col.len() > 0 && col.last() != UNKNOWN {
        assert forall|i: int| 0 <= i < col.len() implies card_ok(#[trigger] col[i]) by {
            assert(card_ok(s.cols[c][i]));
        }
        lemma_extend_run(col, s.face_down[c] as int, 1);
    }
}

proof fn lemma_onto_upto(s: BoardState, f: int, k: int, n: int)
    requires
        s.wf(),
        0 <= f < COLS,
        1 <= k <= s.run_len(f),
        0 <= n <= COLS,
    ensures
        forall|i: int| 0 <= i < s.onto_upto(f, k, n).len() ==> s.can_make(#[trigger] s.onto_upto(f, k, n)[i]),
    decreases n,
{
    lemma_run_len(s, f);
    if n > 0 {
        lemma_onto_upto(s, f, k, n - 1);
        let t = n - 1;
        let rest = s.onto_upto(f, k, n - 1);
        let mv = Move::Tableau { from: f as u8, to: t as u8, count: k as u8 };
        if s.onto_upto(f, k, n) != rest {
            assert(s.onto_upto(f, k, n) == rest.push(mv));
            assert(s.can_make(mv));
            assert forall|i: int| 0 <= i < rest.push(mv).len() implies s.can_make(#[trigger] rest.push(mv)[i]) by {
                if i < rest.len() {
                    assert(rest.push(mv)[i] == rest[i]);
                }
            }
        }
    }
}

proof fn lemma_from_upto(s: BoardState, f: int, j: int)
    requires
        s.wf(),
        0 <= f < COLS,
        0 <= j <= s.run_len(f),
    ensures
        forall|i: int| 0 <= i < s.from_upto(f, j).len() ==> s.can_make(#[trigger] s.from_upto(f, j)[i]),
    decreases j,
{
    lemma_run_len(s, f);
    if j > 0 {
        lemma_from_upto(s, f, j - 1);
        lemma_onto_upto(s, f, j, COLS as int);
        lemma_first_empty(s, 0);
        let a = s.from_upto(f, j - 1);
        let b = s.onto_upto(f, j, COLS as int);
        let e = s.to_empty(f, j);
        assert forall|i: int| 0 <= i < (a + b + e).len() implies s.can_make(#[trigger] (a + b + e)[i]) by {
            if i < a.len() {
                assert((a + b + e)[i] == a[i]);
            } else if i < a.len() + b.len() {
                assert((a + b + e)[i] == b[i - a.len()]);
            } else {
                assert((a + b + e)[i] == e[i - a.len() - b.len()]);
            }
        }
    }
}

proof fn lemma_first_empty(s: BoardState, c: int)
    requires
        s.cols.len() == COLS,
        0 <= c <= COLS,
    ensures
        s.first_empty_from(c) matches Some(e) ==> c <= e < COLS && s.cols[e].len() == 0,
        s.first_empty_from(c) is None ==> forall|d: int| c <= d < COLS ==> #[trigger] s.cols[d].len() > 0,
        s.first_empty_from(c) matches Some(e) ==> forall|d: int| c <= d < e ==> #[trigger] s.cols[d].len() > 0,
    decreases COLS - c,
{
    if c < COLS {
        lemma_first_empty(s, c + 1);
    }
}

proof fn lemma_tableau_upto(s: BoardState, n: int)
    requires
        s.wf(),
        0 <= n <= COLS,
    ensures
        forall|i: int| 0 <= i < s.tableau_upto(n).len() ==> s.can_make(#[trigger] s.tableau_upto(n)[i]),
    decreases n,
{
    if n > 0 {
        lemma_tableau_upto(s, n - 1);
        let f = n - 1;
        lemma_run_len(s, f);
        let a = s.tableau_upto(n - 1);
        let b = if s.cols[f].len() == 0 {
            Seq::empty()
        } else {
            s.from_upto(f, s.run_len(f))
        };
        if s.cols[f].len() > 0 {
            lemma_from_upto(s, f, s.run_len(f));
        }
        assert forall|i: int| 0 <= i < (a + b).len() implies s.can_make(#[trigger] (a + b)[i]) by {
            if i < a.len() {
                assert((a + b)[i] == a[i]);
            } else {
                assert((a + b)[i] == b[i - a.len()]);
            }
        }
    }
}

/// An upper bound on how many moves `gen_moves` lists on a well-formed board:
/// at most 13 run sizes from each of the ten columns, each onto at most nine
/// other columns or the first empty one, and the deal.
pub const MOVES_BOUND: u64 = 1431;

proof fn lemma_onto_len(s: BoardState, f: int, k: int, n: int)
    ensures
        s.onto_upto(f, k, n).len() <= (if n > 0 { n } else { 0 }),
    decreases n,
{
    if n > 0 {
        lemma_onto_len(s, f, k, n - 1);
    }
}

proof fn lemma_from_len(s: BoardState, f: int, j: int)
    ensures
        s.from_upto(f, j).len() <= (if j > 0 { j * (COLS + 1) } else { 0 }),
    decreases j,
{
    if j > 0 {
        lemma_from_len(s, f, j - 1);
        lemma_onto_len(s, f, j, COLS as int);
    }
}

proof fn lemma_tableau_len(s: BoardState, n: int)
    requires
        s.wf(),
        n <= COLS,
    ensures
        s.tableau_upto(n).len() <= (if n > 0 { n * 13 * (COLS + 1) } else { 0 }),
    decreases n,
{
    if n > 0 {
        lemma_tableau_len(s, n - 1);
        let f = n - 1;
        if s.cols[f].len() != 0 {
            lemma_run_len(s, f);
            lemma_from_len(s, f, s.run_len(f));
            assert(s.run_len(f) * (COLS + 1) <= 13 * (COLS + 1)) by (nonlinear_arith)
                requires
                    s.run_len(f) <= 13,
            ;
        }
    }
}

/// No well-formed board offers more than `MOVES_BOUND` moves.
pub proof fn lemma_moves_bound(s: BoardState)
    requires
        s.wf(),
    ensures
        s.moves().len() <= MOVES_BOUND,
{
    lemma_tableau_len(s, COLS as int);
}

/// The hashes of the boards some legal plan reaches from `s`.
pub open spec fn reach_hashes(s: BoardState) -> Set<u64> {
    Set::new(|h: u64| exists|p: Seq<Move>| legal_plan(s, p) && h == #[trigger] replay(s, p).hash())
}

/// The budget covers a whole search from `s` that keeps one state per board
/// hash: the reachable hashes fit in a finite set that, counting each state
/// and the `MOVES_BOUND` moves tried from it, stays below `node_limit`.
pub open spec fn search_fits(s: BoardState, node_limit: u64) -> bool {
    exists|hs: Set<u64>| hs.finite() && reach_hashes(s).subset_of(hs) && hs.len() * (MOVES_BOUND + 1) + 1 <= node_limit
}

/// The hashes a search has kept: finitely many, each reachable, one per state
/// it popped or still holds in its queue.
#[verifier::opaque]
pub open spec fn hashes_counted(s: BoardState, hs: Set<u64>, qlen: int, pops: int) -> bool {
    &&& hs.finite()
    &&& pops + qlen == hs.len()
    &&& hs.subset_of(reach_hashes(s))
}

pub proof fn lemma_reach_hash(s: BoardState, p: Seq<Move>)
    requires
        legal_plan(s, p),
    ensures
        reach_hashes(s).contains(replay(s, p).hash()),
{
}

pub proof fn lemma_hashes_start(s: BoardState)
    ensures
        hashes_counted(s, set![s.hash()], 1, 0),
{
    reveal(hashes_counted);
    assert(replay(s, Seq::<Move>::empty()) == s);
    lemma_reach_hash(s, Seq::<Move>::empty());
    assert(set![s.hash()].len() == 1);
}

pub proof fn lemma_hashes_pop(s: BoardState, hs: Set<u64>, qlen: int, pops: int)
    requires
        hashes_counted(s, hs, qlen, pops),
    ensures
        hashes_counted(s, hs, qlen - 1, pops + 1),
{
    reveal(hashes_counted);
}

pub proof fn lemma_hashes_insert(s: BoardState, hs: Set<u64>, qlen: int, pops: int, h: u64)
    requires
        hashes_counted(s, hs, qlen, pops),
        !hs.contains(h),
        reach_hashes(s).contains(h),
    ensures
        hashes_counted(s, hs.insert(h), qlen + 1, pops),
{
    reveal(hashes_counted);
}

pub proof fn lemma_hashes_fit(s: BoardState, hs: Set<u64>, qlen: int, pops: int, node_limit: u64)
    requires
        hashes_counted(s, hs, qlen, pops),
        qlen >= 0,
        search_fits(s, node_limit),
    ensures
        pops * MOVES_BOUND <= node_limit,
{
    reveal(hashes_counted);
    let ks = choose|ks: Set<u64>| ks.finite() && reach_hashes(s).subset_of(ks) && ks.len() * (MOVES_BOUND + 1) + 1 <= node_limit;
    vstd::set_lib::lemma_len_subset(hs, ks);
    let k = ks.len() as int;
    assert(pops * MOVES_BOUND <= k * (MOVES_BOUND + 1)) by (nonlinear_arith)
        requires
            pops <= k,
            k >= 0,
    ;
}

/// Every move `gen_moves` lists can be made.
pub proof fn lemma_moves_can_make(s: BoardState)
    requires
        s.wf(),
    ensures
        forall|i: int| 0 <= i < s.moves().len() ==> s.can_make(#[trigger] s.moves()[i]),
{
    lemma_tableau_upto(s, COLS as int);
    let a = s.tableau_upto(COLS as int);
    let b = if s.may_deal() {
        seq![Move::Deal]
    } else {
        Seq::empty()
    };
    assert forall|i: int| 0 <= i < (a + b).len() implies s.can_make(#[trigger] (a + b)[i]) by {
        if i < a.len() {
            assert((a + b)[i] == a[i]);
        } else {
            assert((a + b)[i] == b[i - a.len()]);
            assert(s.stock.len() % 10 == 0);
        }
    }
}

impl Board {
    /// Length of the maximal same-suit descending run at the top (playable end)
    /// of a column, considering only face-up cards.
    fn movable_run_len(&self, c: usize) -> (len: usize)
        requires
            c < COLS,
        ensures
            len == self@.run_len(c as int),
            len <= 16,
            self@.wf() ==> len <= 13,
    {
        proof {
            if self@.wf() {
                lemma_run_len(self@, c as int);
            }
            let col = self@.cols[c as int];
            if col.len() > 0 {
                lemma_extend_run_any(col, self@.face_down[c as int] as int, 1);
            }
        }
        let col = &self.cols[c];
        let n = col.len();
        let fd = self.face_down[c] as usize;
        if n == 0 {
            return 0;
        }
        if is_unknown(col[n - 1]) {
            return 0;
        }
        let ghost sc = self@.cols[c as int];
        let mut len: usize = 1;
        while n - len > fd
            invariant
                n == sc.len(),
                sc == col@,
                1 <= len <= n,
                fd == self@.face_down[c as int],
                extend_run(sc, fd as int, len as int) == extend_run(sc, fd as int, 1),
            ensures
                extend_run(sc, fd as int, len as int) == len,
                extend_run(sc, fd as int, len as int) == extend_run(sc, fd as int, 1),
            decreases n - len,
        {
            let upper = col[n - len - 1];
            let lower = col[n - len];
            if suit(upper) == suit(lower) && rank(upper) == rank(lower) + 1 {
                len = len + 1;
            } else {
                break;
            }
        }
        len
    }

    /// The first empty column, if any.
    fn first_empty(&self) -> (e: Option<usize>)
        ensures
            e is None <==> self@.first_empty_from(0) is None,
            e matches Some(x) ==> self@.first_empty_from(0) == Some(x as int) && x < COLS,
    {
        proof {
            lemma_first_empty(self@, 0);
        }
        let mut c: usize = 0;
        while c < COLS
            invariant
                c <= COLS,
                self@.first_empty_from(0) == self@.first_empty_from(c as int),
            decreases COLS - c,
        {
            if self.cols[c].len() == 0 {
                return Some(c);
            }
            c = c + 1;
        }
        None
    }

    /// Append all legal moves from this state to `out`.
    pub fn gen_moves(&self, out: &mut Vec<Move>)
        requires
            self@.wf(),
        ensures
            final(out)@ == old(out)@ + self@.moves(),
    {
        let ghost s = self@;
        let ghost base = out@;
        let first_empty = self.first_empty();
        let mut from: usize = 0;
        while from < COLS
            invariant
                s == self@,
                s.wf(),
                from <= COLS,
                out@ == base + s.tableau_upto(from as int),
                first_empty is None <==> s.first_empty_from(0) is None,
                first_empty matches Some(x) ==> s.first_empty_from(0) == Some(x as int) && x < COLS,
            decreases COLS - from,
        {
            let n = self.cols[from].len();
            if n == 0 {
                from = from + 1;
                continue;
            }
            let run = self.movable_run_len(from);
            proof {
                lemma_run_len(s, from as int);
            }
            let ghost before = out@;
            let mut k: usize = 1;
            while k <= run
                invariant
                    s == self@,
                    s.wf(),
                    from < COLS,
                    n == s.cols[from as int].len(),
                    n > 0,
                    run == s.run_len(from as int),
                    run <= 13,
                    run + s.face_down[from as int] <= n,
                    1 <= k <= run + 1,
                    out@ == before + s.from_upto(from as int, k - 1),
                    first_empty is None <==> s.first_empty_from(0) is None,
                    first_empty matches Some(x) ==> s.first_empty_from(0) == Some(x as int) && x < COLS,
                decreases run + 1 - k,
            {
                let moving_bottom_rank = rank(self.cols[from][n - k]);
                let ghost mid = out@;
                let mut to: usize = 0;
                while to < COLS
                    invariant
                        s == self@,
                        from < COLS,
                        n == s.cols[from as int].len(),
                        1 <= k <= n,
                        k <= 13,
                        moving_bottom_rank == rank_of(s.cols[from as int][n - k]),
                        to <= COLS,
                        out@ == mid + s.onto_upto(from as int, k as int, to as int),
                    decreases COLS - to,
                {
                    if to != from && self.cols[to].len() > 0 {
                        let top = self.cols[to][self.cols[to].len() - 1];
                        if rank(top) == moving_bottom_rank + 1 {
                            out.push(Move::Tableau { from: from as u8, to: to as u8, count: k as u8 });
                        }
                    }
                    to = to + 1;
                }
                if let Some(e) = first_empty {
                    if e != from && k != n {
                        out.push(Move::Tableau { from: from as u8, to: e as u8, count: k as u8 });
                    }
                }
                assert(out@ =~= before + s.from_upto(from as int, k as int));
                k = k + 1;
            }
            assert(out@ =~= base + s.tableau_upto(from as int + 1));
            from = from + 1;
        }
        if self.stock.len() > 0 {
            let mut c: usize = 0;
            while c < COLS && self.cols[c].len() > 0
                invariant
                    c <= COLS,
                    forall|d: int| 0 <= d < c ==> #[trigger] s.cols[d].len() > 0,
                    s == self@,
                decreases COLS - c,
            {
                c = c + 1;
            }
            if c == COLS {
                out.push(Move::Deal);
                assert(s.may_deal());
            } else {
                assert(s.cols[c as int].len() == 0);
                assert(!s.may_deal());
            }
        } else {
            assert(!s.may_deal());
        }
        assert(out@ =~= base + s.moves());
    }

    /// Apply a move in place. Assumes the move is one that `gen_moves` lists.
    pub fn apply(&mut self, m: Move)
        requires
            old(self)@.wf(),
            old(self)@.can_make(m),
        ensures
            final(self)@ == old(self)@.after(m),
            final(self)@.wf(),
    {
        let _ = self.make(m);
    }

    /// Whether all eight K..A runs are complete.
    pub fn is_won(&self) -> (won: bool)
        ensures
            won == (self.completed == 8),
    {
        self.completed == 8
    }
}


/// The unshuffled 104-card deck for `suits` suits: for each suit in turn, its
/// `8 / suits` copies of Ace..King.
pub open spec fn fresh_deck(suits: u8) -> Seq<Card> {
    Seq::new(104, |i: int| ((i / 13) / (8int / suits as int) * 16 + i % 13 + 1) as u8)
}

/// Where column `c`'s cards start in the shuffled deck.
pub open spec fn col_start(c: int) -> int {
    if c < 4 {
        6 * c
    } else {
        24 + 5 * (c - 4)
    }
}

/// How many cards column `c` is dealt: 6 for the first four columns, 5 for the rest.
pub open spec fn col_target(c: int) -> int {
    if c < 4 {
        6
    } else {
        5
    }
}

/// The shuffled deck of the game `(suits, seed)`.
pub open spec fn shuffled_deck(suits: u8, seed: u64) -> Seq<Card> {
    shuffled(seed ^ SEED_MIX, fresh_deck(suits)).1
}

/// The opening board of the game `(suits, seed)`: 54 cards dealt to the
/// columns with only each top card face up, the other 50 left in the stock.
pub open spec fn dealt(suits: u8, seed: u64) -> BoardState {
    let deck = shuffled_deck(suits, seed);
    BoardState {
        cols: Seq::new(COLS as nat, |c: int| deck.subrange(col_start(c), col_start(c) + col_target(c))),
        face_down: Seq::new(COLS as nat, |c: int| (col_target(c) - 1) as u8),
        stock: deck.subrange(54, 104),
        completed: 0,
    }
}

/// The cards of columns `0..n`, column after column.
pub open spec fn cols_cards(cols: Seq<Seq<Card>>, n: int) -> Seq<Card>
    decreases n,
{
    if n <= 0 {
        Seq::empty()
    } else {
        cols_cards(cols, n - 1) + cols[n - 1]
    }
}

/// Every card on the board: the columns in order, then the stock.
pub open spec fn board_cards(s: BoardState) -> Seq<Card> {
    cols_cards(s.cols, COLS as int) + s.stock
}

proof fn lemma_dealt_prefix(suits: u8, seed: u64, n: int)
    requires
        0 <= n <= COLS,
        shuffled_deck(suits, seed).len() == 104,
    ensures
        cols_cards(dealt(suits, seed).cols, n) == shuffled_deck(suits, seed).subrange(0, col_start(n)),
    decreases n,
{
    let deck = shuffled_deck(suits, seed);
    if n == 0 {
        assert(deck.subrange(0, 0) =~= Seq::<Card>::empty());
    } else {
        lemma_dealt_prefix(suits, seed, n - 1);
        assert(col_start(n - 1) + col_target(n - 1) == col_start(n));
        assert(deck.subrange(0, col_start(n - 1)) + deck.subrange(col_start(n - 1), col_start(n)) =~= deck.subrange(
            0,
            col_start(n),
        ));
    }
}

/// A dealt game holds exactly the cards of the deck it was shuffled from:
/// each card as often as in the unshuffled deck.
pub proof fn lemma_deal_holds_the_deck(suits: u8, seed: u64)
    requires
        suits == 1 || suits == 2 || suits == 4,
    ensures
        board_cards(dealt(suits, seed)).to_multiset() == fresh_deck(suits).to_multiset(),
{
    let deck = shuffled_deck(suits, seed);
    lemma_shuffle_permutes(seed ^ SEED_MIX, fresh_deck(suits), 103);
    lemma_shuffle_keeps(seed ^ SEED_MIX, fresh_deck(suits), 103, |c: Card| true);
    lemma_dealt_prefix(suits, seed, COLS as int);
    assert(deck.subrange(0, 54) + deck.subrange(54, 104) =~= deck);
}

proof fn lemma_fresh_deck_card(suits: u8, i: int)
    requires
        suits == 1 || suits == 2 || suits == 4,
        0 <= i < 104,
    ensures
        is_card(fresh_deck(suits)[i]),
{
    let q = i / 13;
    assert(0 <= q <= 7);
    let cp = 8int / suits as int;
    let s = q / cp;
    assert(0 <= s < suits) by {
        if suits == 1 {
            assert(cp == 8);
            assert(s == q / 8);
        } else if suits == 2 {
            assert(cp == 4);
            assert(s == q / 4);
        } else {
            assert(cp == 2);
            assert(s == q / 2);
        }
    }
    let r = i % 13 + 1;
    let c = (s * 16 + r) as u8;
    assert(c == s * 16 + r);
    vstd::arithmetic::div_mod::lemma_fundamental_div_mod_converse(c as int, 16, s, r);
}

proof fn lemma_deck_index(suits: u8, s: int, cp: int, copy: int, r: int)
    requires
        suits == 1 || suits == 2 || suits == 4,
        cp == 8int / suits as int,
        0 <= s < suits,
        0 <= copy < cp,
        1 <= r <= 13,
    ensures
        ({
            let i = (s * cp + copy) * 13 + (r - 1);
            &&& 0 <= i < 104
            &&& fresh_deck(suits)[i] == s * 16 + r
        }),
{
    let i = (s * cp + copy) * 13 + (r - 1);
    assert(0 <= s * cp + copy < 8) by (nonlinear_arith)
        requires
            0 <= s < suits,
            0 <= copy < cp,
            suits * cp == 8,
    ;
    vstd::arithmetic::div_mod::lemma_fundamental_div_mod_converse(i, 13, s * cp + copy, r - 1);
    vstd::arithmetic::div_mod::lemma_fundamental_div_mod_converse(s * cp + copy, cp, s, copy);
}

impl Board {
    /// Deal a fresh game. `suits` must be 1, 2, or 4.
    pub fn deal(suits: u8, seed: u64) -> (b: Board)
        requires
            suits == 1 || suits == 2 || suits == 4,
        ensures
            b@ == dealt(suits, seed),
            b@.wf(),
    {
        let copies_per_suit = 8 / suits;
        let mut deck: Vec<Card> = Vec::with_capacity(104);
        let mut s: u8 = 0;
        while s < suits
            invariant
                suits == 1 || suits == 2 || suits == 4,
                copies_per_suit == 8u8 / suits,
                s <= suits,
                deck@.len() == s * copies_per_suit * 13,
                deck@ == fresh_deck(suits).subrange(0, deck@.len() as int),
            decreases suits - s,
        {
            let mut copy: u8 = 0;
            while copy < copies_per_suit
                invariant
                    suits == 1 || suits == 2 || suits == 4,
                    copies_per_suit == 8u8 / suits,
                    s < suits,
                    copy <= copies_per_suit,
                    deck@.len() == (s * copies_per_suit + copy) * 13,
                    deck@ == fresh_deck(suits).subrange(0, deck@.len() as int),
                decreases copies_per_suit - copy,
            {
                let mut r: u8 = 1;
                while r <= 13
                    invariant
                        suits == 1 || suits == 2 || suits == 4,
                        copies_per_suit == 8u8 / suits,
                        s < suits,
                        copy < copies_per_suit,
                        1 <= r <= 14,
                        deck@.len() == (s * copies_per_suit + copy) * 13 + (r - 1),
                        deck@ == fresh_deck(suits).subrange(0, deck@.len() as int),
                    decreases 14 - r,
                {
                    proof {
                        lemma_deck_index(suits, s as int, copies_per_suit as int, copy as int, r as int);
                    }
                    let card = make_card(r, s);
                    deck.push(card);
                    assert(deck@ =~= fresh_deck(suits).subrange(0, deck@.len() as int));
                    r = r + 1;
                }
                copy = copy + 1;
                assert(deck@.len() == (s * copies_per_suit + copy) * 13) by (nonlinear_arith)
                    requires
                        deck@.len() == (s * copies_per_suit + (copy - 1)) * 13 + 13,
                ;
            }
            s = s + 1;
            assert(deck@.len() == s * copies_per_suit * 13) by (nonlinear_arith)
                requires
                    deck@.len() == ((s - 1) * copies_per_suit + copies_per_suit) * 13,
            ;
        }
        assert(deck@.len() == 104) by (nonlinear_arith)
            requires
                deck@.len() == suits * copies_per_suit * 13,
                copies_per_suit == 8u8 / suits,
                suits == 1 || suits == 2 || suits == 4,
        ;
        assert(deck@ =~= fresh_deck(suits));
        let mut rng = Rng::new(seed);
        rng.shuffle(deck.as_mut_slice());
        let ghost sd = shuffled_deck(suits, seed);
        proof {
            assert forall|k: int| 0 <= k < fresh_deck(suits).len() implies #[trigger] card_ok(fresh_deck(suits)[k]) by {
                lemma_fresh_deck_card(suits, k);
            }
            let p = |c: u8| card_ok(c);
            lemma_shuffle_keeps(seed ^ SEED_MIX, fresh_deck(suits), 103, p);
            assert forall|k: int| 0 <= k < 104 implies #[trigger] card_ok(sd[k]) by {
                assert(p(shuffled(seed ^ SEED_MIX, fresh_deck(suits)).1[k]));
            }
        }
        assert(deck@ == sd);
        let mut cols: [Vec<Card>; COLS] = [
            Vec::new(),
            Vec::new(),
            Vec::new(),
            Vec::new(),
            Vec::new(),
            Vec::new(),
            Vec::new(),
            Vec::new(),
            Vec::new(),
            Vec::new(),
        ];
        let mut face_down = [0u8; COLS];
        let mut idx: usize = 0;
        let mut c: usize = 0;
        while c < COLS
            invariant
                deck@ == sd,
                sd.len() == 104,
                c <= COLS,
                idx == col_start(c as int),
                forall|d: int| 0 <= d < c ==> #[trigger] cols@[d]@ == sd.subrange(col_start(d), col_start(d) + col_target(d)),
                forall|d: int| c <= d < COLS ==> #[trigger] cols@[d]@.len() == 0,
                forall|d: int| 0 <= d < c ==> #[trigger] face_down@[d] == col_target(d) - 1,
            decreases COLS - c,
        {
            let target: usize = if c < 4 { 6 } else { 5 };
            let mut t: usize = 0;
            while t < target
                invariant
                    deck@ == sd,
                    sd.len() == 104,
                    c < COLS,
                    target == col_target(c as int),
                    t <= target,
                    idx == col_start(c as int) + t,
                    cols@[c as int]@ == sd.subrange(col_start(c as int), idx as int),
                    forall|d: int| 0 <= d < c ==> #[trigger] cols@[d]@ == sd.subrange(col_start(d), col_start(d) + col_target(d)),
                    forall|d: int| c < d < COLS ==> #[trigger] cols@[d]@.len() == 0,
                    forall|d: int| 0 <= d < c ==> #[trigger] face_down@[d] == col_target(d) - 1,
                decreases target - t,
            {
                let card = deck[idx];
                cols[c].push(card);
                assert(cols@[c as int]@ =~= sd.subrange(col_start(c as int), idx + 1));
                idx = idx + 1;
                t = t + 1;
            }
            face_down[c] = (target - 1) as u8;
            c = c + 1;
        }
        let mut stock: Vec<Card> = Vec::new();
        while idx < 104
            invariant
                deck@ == sd,
                sd.len() == 104,
                54 <= idx <= 104,
                stock@ == sd.subrange(54, idx as int),
            decreases 104 - idx,
        {
            stock.push(deck[idx]);
            assert(stock@ =~= sd.subrange(54, idx + 1));
            idx = idx + 1;
        }
        let b = Board { cols, face_down, stock, completed: 0 };
        assert(b@.cols =~= dealt(suits, seed).cols);
        assert(b@.face_down =~= dealt(suits, seed).face_down);
        assert(b@ =~= dealt(suits, seed));
        proof {
            let st = b@;
            reveal_with_fuel(sum_lens, 11);
            assert(st.card_count() == 104);
            assert forall|c: int, i: int| 0 <= c < COLS && 0 <= i < st.cols[c].len() implies card_ok(#[trigger] st.cols[c][i]) by {
                assert(st.cols[c][i] == sd[col_start(c) + i]);
            }
            assert forall|i: int| 0 <= i < st.stock.len() implies card_ok(#[trigger] st.stock[i]) by {
                assert(st.stock[i] == sd[54 + i]);
            }
            assert forall|c: int| 0 <= c < COLS implies #[trigger] st.col_wf(c) by {
            }
        }
        b
    }
}


/// Sum of the first `n` face-down counts.
pub open spec fn fd_sum(fd: Seq<u8>, n: int) -> nat
    decreases n,
{
    if n <= 0 {
        0
    } else {
        fd_sum(fd, n - 1) + fd[n - 1] as nat
    }
}

/// Number of face-up unknown cards in a column: those at index `fd` or above, before `n`.
pub open spec fn exposed_in(col: Seq<Card>, fd: int, n: int) -> nat
    decreases n,
{
    if n <= fd || n <= 0 {
        0
    } else {
        exposed_in(col, fd, n - 1) + if col[n - 1] == UNKNOWN {
            1nat
        } else {
            0nat
        }
    }
}

impl BoardState {
    /// Number of empty columns among `0..n`.
    pub open spec fn empties_upto(self, n: int) -> nat
        decreases n,
    {
        if n <= 0 {
            0
        } else {
            self.empties_upto(n - 1) + if self.cols[n - 1].len() == 0 {
                1nat
            } else {
                0nat
            }
        }
    }

    /// Sum over columns `0..n` of (run length - 1), floored at 0.
    pub open spec fn run_bonus_upto(self, n: int) -> nat
        decreases n,
    {
        if n <= 0 {
            0
        } else {
            self.run_bonus_upto(n - 1) + if self.run_len(n - 1) >= 1 {
                (self.run_len(n - 1) - 1) as nat
            } else {
                0nat
            }
        }
    }

    /// Face-up unknown cards in columns `0..n`.
    pub open spec fn exposed_upto(self, n: int) -> nat
        decreases n,
    {
        if n <= 0 {
            0
        } else {
            self.exposed_upto(n - 1) + exposed_in(self.cols[n - 1], self.face_down[n - 1] as int, self.cols[n - 1].len() as int)
        }
    }

    pub open spec fn face_down_total(self) -> nat {
        fd_sum(self.face_down, COLS as int)
    }

    pub open spec fn empty_columns(self) -> nat {
        self.empties_upto(COLS as int)
    }

    pub open spec fn exposed_unknowns(self) -> nat {
        self.exposed_upto(COLS as int)
    }
}

proof fn lemma_exposed_in_bound(col: Seq<Card>, fd: int, n: int)
    ensures
        exposed_in(col, fd, n) <= (if n > 0 { n } else { 0 }),
    decreases n,
{
    if n > fd && n > 0 {
        lemma_exposed_in_bound(col, fd, n - 1);
    }
}

proof fn lemma_exposed_upto_bound(s: BoardState, n: int)
    requires
        s.base_ok(),
        0 <= n <= COLS,
    ensures
        s.exposed_upto(n) <= sum_lens(s.cols, n),
    decreases n,
{
    if n > 0 {
        lemma_exposed_upto_bound(s, n - 1);
        lemma_exposed_in_bound(s.cols[n - 1], s.face_down[n - 1] as int, s.cols[n - 1].len() as int);
    }
}

/// No more unknown cards lie face up than the board holds.
pub proof fn lemma_exposed_bound(s: BoardState)
    requires
        s.base_ok(),
    ensures
        s.exposed_unknowns() <= CARD_LIMIT,
{
    lemma_exposed_upto_bound(s, COLS as int);
}

proof fn lemma_fd_sum_bound(fd: Seq<u8>, n: int)
    ensures
        fd_sum(fd, n) <= 255 * (if n > 0 { n } else { 0 }),
    decreases n,
{
    if n > 0 {
        lemma_fd_sum_bound(fd, n - 1);
    }
}

impl Board {
    /// Total face-down (unknown) cards remaining.
    pub fn face_down_total(&self) -> (t: u32)
        ensures
            t == self@.face_down_total(),
    {
        let mut t: u32 = 0;
        let mut c: usize = 0;
        while c < COLS
            invariant
                c <= COLS,
                t == fd_sum(self@.face_down, c as int),
            decreases COLS - c,
        {
            proof {
                lemma_fd_sum_bound(self@.face_down, c as int);
            }
            t = t + self.face_down[c] as u32;
            c = c + 1;
        }
        t
    }

    /// Number of empty columns (powerful: they accept any card).
    pub fn empty_columns(&self) -> (e: u32)
        ensures
            e == self@.empty_columns(),
    {
        let mut e: u32 = 0;
        let mut c: usize = 0;
        while c < COLS
            invariant
                c <= COLS,
                e == self@.empties_upto(c as int),
                e <= c,
            decreases COLS - c,
        {
            if self.cols[c].len() == 0 {
                e = e + 1;
            }
            c = c + 1;
        }
        e
    }

    /// Sum of (movable same-suit run length - 1) across columns; rewards
    /// consolidating cards into ordered runs.
    pub fn run_bonus(&self) -> (b: u32)
        ensures
            b == self@.run_bonus_upto(COLS as int),
    {
        let mut b: u32 = 0;
        let mut c: usize = 0;
        while c < COLS
            invariant
                c <= COLS,
                b == self@.run_bonus_upto(c as int),
                b <= 16 * c,
            decreases COLS - c,
        {
            let r = self.movable_run_len(c);
            b = b + if r >= 1 { (r - 1) as u32 } else { 0 };
            c = c + 1;
        }
        b
    }

    /// Number of unknown cards lying face up: each is a card the player has
    /// just uncovered and can now read.
    pub fn exposed_unknowns(&self) -> (n: u32)
        requires
            self@.base_ok(),
        ensures
            n == self@.exposed_unknowns(),
    {
        let mut total: u32 = 0;
        let mut c: usize = 0;
        while c < COLS
            invariant
                self@.base_ok(),
                c <= COLS,
                total == self@.exposed_upto(c as int),
            decreases COLS - c,
        {
            let col = &self.cols[c];
            let fd = self.face_down[c] as usize;
            let mut i: usize = fd;
            let mut k: u32 = 0;
            proof {
                lemma_exposed_upto_bound(self@, c as int + 1);
                lemma_sum_lens_update(self@.cols, c as int, self@.cols[c as int], COLS as int);
                lemma_sum_lens_mono(self@.cols, c as int + 1, COLS as int);
            }
            while i < col.len()
                invariant
                    self@.base_ok(),
                    c < COLS,
                    col@ == self@.cols[c as int],
                    fd == self@.face_down[c as int],
                    fd <= i <= col@.len() || (i == fd && fd > col@.len()),
                    k == exposed_in(col@, fd as int, i as int),
                    total == self@.exposed_upto(c as int),
                    total + exposed_in(col@, fd as int, col@.len() as int) <= CARD_LIMIT,
                decreases col@.len() - i,
            {
                proof {
                    lemma_exposed_mono(col@, fd as int, i as int + 1, col@.len() as int);
                }
                if is_unknown(col[i]) {
                    k = k + 1;
                }
                i = i + 1;
            }
            proof {
                if fd > col@.len() {
                    assert(exposed_in(col@, fd as int, col@.len() as int) == 0);
                }
            }
            total = total + k;
            c = c + 1;
        }
        total
    }
}

proof fn lemma_exposed_mono(col: Seq<Card>, fd: int, a: int, b: int)
    requires
        a <= b,
    ensures
        exposed_in(col, fd, a) <= exposed_in(col, fd, b),
    decreases b - a,
{
    if a < b {
        lemma_exposed_mono(col, fd, a, b - 1);
    }
}

/// The first `a` columns hold no more cards than the first `b >= a`.
pub proof fn lemma_sum_lens_mono(cols: Seq<Seq<Card>>, a: int, b: int)
    requires
        a <= b,
    ensures
        sum_lens(cols, a) <= sum_lens(cols, b),
    decreases b - a,
{
    if a < b {
        lemma_sum_lens_mono(cols, a, b - 1);
    }
}


/// FNV-1a offset basis.
pub const FNV_OFFSET: u64 = 0xcbf2_9ce4_8422_2325;

/// FNV-1a prime.
pub const FNV_PRIME: u64 = 0x0000_0100_0000_01b3;

/// One FNV-1a step: xor in a byte, then multiply by the prime modulo 2^64.
pub open spec fn fnv_step(h: u64, byte: u8) -> u64 {
    (((h ^ (byte as u64)) as nat * FNV_PRIME as nat) % 0x1_0000_0000_0000_0000) as u64
}

/// FNV-1a over `bytes`, starting from `h`.
pub open spec fn fnv_fold(h: u64, bytes: Seq<u8>) -> u64
    decreases bytes.len(),
{
    if bytes.len() == 0 {
        h
    } else {
        fnv_step(fnv_fold(h, bytes.drop_last()), bytes.last())
    }
}

/// The little-endian bytes of `k`.
pub open spec fn le_bytes(k: u64) -> Seq<u8> {
    Seq::new(8, |i: int| (k >> ((8 * i) as u64)) as u8)
}

/// The little-endian bytes of each key in turn.
pub open spec fn key_bytes(ks: Seq<u64>) -> Seq<u8>
    decreases ks.len(),
{
    if ks.len() == 0 {
        Seq::empty()
    } else {
        key_bytes(ks.drop_last()) + le_bytes(ks.last())
    }
}

/// The order keys are sorted by.
pub open spec fn key_le() -> spec_fn(u64, u64) -> bool {
    |a: u64, b: u64| a <= b
}

impl BoardState {
    /// The hash of column `c` alone: its face-down count, a separator, then its cards.
    pub open spec fn col_key(self, c: int) -> u64 {
        fnv_fold(FNV_OFFSET, seq![self.face_down[c], 0xFFu8] + self.cols[c])
    }

    /// The per-column hashes, in column order.
    pub open spec fn col_keys(self) -> Seq<u64> {
        Seq::new(COLS as nat, |c: int| self.col_key(c))
    }

    /// Canonical hash: the column hashes in ascending order, then the completed
    /// count and the stock's length (as a byte).
    pub open spec fn hash(self) -> u64 {
        fnv_step(
            fnv_step(fnv_fold(FNV_OFFSET, key_bytes(self.col_keys().sort_by(key_le()))), self.completed),
            self.stock.len() as u8,
        )
    }

    /// This board with columns `i` and `j` exchanged (cards and face-down counts).
    pub open spec fn swap_cols(self, i: int, j: int) -> BoardState {
        BoardState {
            cols: self.cols.update(i, self.cols[j]).update(j, self.cols[i]),
            face_down: self.face_down.update(i, self.face_down[j]).update(j, self.face_down[i]),
            ..self
        }
    }
}

proof fn lemma_key_le_total()
    ensures
        total_ordering(key_le()),
{
}

proof fn lemma_swap_multiset(s: Seq<u64>, i: int, j: int)
    requires
        0 <= i < s.len(),
        0 <= j < s.len(),
    ensures
        s.update(i, s[j]).update(j, s[i]).to_multiset() == s.to_multiset(),
{
    broadcast use vstd::seq_lib::to_multiset_update;
    broadcast use vstd::multiset::group_multiset_axioms;
    broadcast use vstd::seq_lib::to_multiset_contains;

    if i != j {
        let m = s.to_multiset();
        let t = s.update(i, s[j]);
        assert(t[j] == s[j]);
        assert(t.to_multiset() == m.insert(s[j]).remove(s[i]));
        assert(t.update(j, s[i]).to_multiset() == t.to_multiset().insert(s[i]).remove(t[j]));
        assert(s.contains(s[i]));
        assert(m.count(s[i]) > 0);
        assert(m.insert(s[j]).remove(s[i]).insert(s[i]).remove(s[j]) =~= m);
    } else {
        assert(s.update(i, s[j]).update(j, s[i]) =~= s);
    }
}

/// Two key sequences with the same multiset sort to the same sequence.
proof fn lemma_sorted_keys_eq(a: Seq<u64>, b: Seq<u64>)
    requires
        a.to_multiset() == b.to_multiset(),
    ensures
        a.sort_by(key_le()) == b.sort_by(key_le()),
{
    lemma_key_le_total();
    a.lemma_sort_by_ensures(key_le());
    b.lemma_sort_by_ensures(key_le());
    vstd::seq_lib::lemma_sorted_unique(a.sort_by(key_le()), b.sort_by(key_le()), key_le());
}

/// Exchanging two columns leaves the canonical hash unchanged, so boards that
/// differ only by the order of their columns hash alike.
pub proof fn lemma_hash_column_swap(s: BoardState, i: int, j: int)
    requires
        s.cols.len() == COLS,
        s.face_down.len() == COLS,
        0 <= i < COLS,
        0 <= j < COLS,
    ensures
        s.swap_cols(i, j).hash() == s.hash(),
{
    let t = s.swap_cols(i, j);
    let ks = s.col_keys();
    assert(t.col_keys() =~= ks.update(i, ks[j]).update(j, ks[i])) by {
        assert forall|c: int| 0 <= c < COLS implies #[trigger] t.col_keys()[c] == ks.update(i, ks[j]).update(j, ks[i])[c] by {
            if c == j {
                assert(seq![t.face_down[c], 0xFFu8] + t.cols[c] == seq![s.face_down[i], 0xFFu8] + s.cols[i]);
            } else if c == i {
                assert(seq![t.face_down[c], 0xFFu8] + t.cols[c] == seq![s.face_down[j], 0xFFu8] + s.cols[j]);
            } else {
                assert(seq![t.face_down[c], 0xFFu8] + t.cols[c] == seq![s.face_down[c], 0xFFu8] + s.cols[c]);
            }
        }
    }
    lemma_swap_multiset(ks, i, j);
    lemma_sorted_keys_eq(t.col_keys(), ks);
}

/// Sequences with the same elements, counted with multiplicity, still have
/// the same elements after the same function is applied to each.
proof fn lemma_map_keeps_multiset<A, B>(a: Seq<A>, b: Seq<A>, f: spec_fn(A) -> B)
    requires
        a.to_multiset() == b.to_multiset(),
    ensures
        a.map_values(f).to_multiset() == b.map_values(f).to_multiset(),
    decreases a.len(),
{
    broadcast use vstd::seq_lib::to_multiset_len;
    broadcast use vstd::seq_lib::to_multiset_remove;
    broadcast use vstd::seq_lib::to_multiset_build;
    broadcast use vstd::seq_lib::to_multiset_contains;
    broadcast use vstd::multiset::group_multiset_axioms;

    if a.len() == 0 {
        assert(a.to_multiset().len() == 0);
        assert(b.to_multiset().len() == b.len());
        assert(b.len() == 0);
        assert(a.map_values(f) =~= Seq::<B>::empty());
        assert(b.map_values(f) =~= Seq::<B>::empty());
    } else {
        let x = a.last();
        let a1 = a.drop_last();
        assert(a1.push(x) =~= a);
        assert(a.to_multiset() == a1.to_multiset().insert(x));
        assert(b.to_multiset().count(x) > 0);
        assert(b.contains(x));
        let i = choose|i: int| 0 <= i < b.len() && b[i] == x;
        let b1 = b.remove(i);
        assert(b1.to_multiset() == b.to_multiset().remove(x));
        assert(a1.to_multiset() =~= b1.to_multiset());
        lemma_map_keeps_multiset(a1, b1, f);
        assert(a.map_values(f) =~= a1.map_values(f).push(f(x)));
        assert(b.map_values(f).remove(i) =~= b1.map_values(f));
        let bm = b.map_values(f);
        assert(bm[i] == f(x));
        assert(bm.remove(i).to_multiset() == bm.to_multiset().remove(f(x)));
        assert(bm.contains(f(x)));
        assert(bm.to_multiset().count(f(x)) > 0);
        assert(bm.to_multiset() =~= bm.to_multiset().remove(f(x)).insert(f(x)));
    }
}

impl BoardState {
    /// The columns as (face-down count, cards) pairs, in column order.
    pub open spec fn columns(self) -> Seq<(u8, Seq<Card>)> {
        Seq::new(COLS as nat, |c: int| (self.face_down[c], self.cols[c]))
    }
}

/// Boards that hold the same columns in any order, with the same number of
/// completed runs and the same stock size, share the canonical hash.
pub proof fn lemma_hash_column_permutation(s: BoardState, t: BoardState)
    requires
        s.columns().to_multiset() == t.columns().to_multiset(),
        s.completed == t.completed,
        s.stock.len() == t.stock.len(),
    ensures
        s.hash() == t.hash(),
{
    let f = |p: (u8, Seq<Card>)| fnv_fold(FNV_OFFSET, seq![p.0, 0xFFu8] + p.1);
    assert(s.col_keys() =~= s.columns().map_values(f));
    assert(t.col_keys() =~= t.columns().map_values(f));
    lemma_map_keeps_multiset(s.columns(), t.columns(), f);
    lemma_sorted_keys_eq(s.col_keys(), t.col_keys());
}

proof fn lemma_hash_permuted_upto(s: BoardState, t: BoardState, pi: spec_fn(int) -> int, n: int)
    requires
        0 <= n <= COLS,
        s.cols.len() == COLS,
        s.face_down.len() == COLS,
        t.cols.len() == COLS,
        t.face_down.len() == COLS,
        forall|i: int| 0 <= i < n ==> 0 <= #[trigger] pi(i) < n,
        forall|i: int, j: int| 0 <= i < n && 0 <= j < n && i != j ==> #[trigger] pi(i) != #[trigger] pi(j),
        forall|i: int| 0 <= i < n ==> t.cols[i] == s.cols[#[trigger] pi(i)] && t.face_down[i] == s.face_down[pi(i)],
        forall|i: int| n <= i < COLS ==> #[trigger] t.cols[i] == s.cols[i] && t.face_down[i] == s.face_down[i],
        s.completed == t.completed,
        s.stock.len() == t.stock.len(),
    ensures
        s.hash() == t.hash(),
    decreases n,
{
    if n == 0 {
        assert(s.columns() =~= t.columns());
        lemma_hash_column_permutation(s, t);
    } else {
        let j = pi(n - 1);
        let s2 = s.swap_cols(j, n - 1);
        lemma_hash_column_swap(s, j, n - 1);
        let pi2 = |i: int| if pi(i) == n - 1 { j } else { pi(i) };
        assert forall|i: int| 0 <= i < n - 1 implies 0 <= #[trigger] pi2(i) < n - 1 by {
            assert(pi(i) != pi(n - 1));
            if pi(i) == n - 1 {
                assert(j != n - 1);
            }
        }
        assert forall|a: int, b: int| 0 <= a < n - 1 && 0 <= b < n - 1 && a != b implies #[trigger] pi2(a) != #[trigger] pi2(b) by {
            assert(pi(a) != pi(b));
            assert(pi(a) != pi(n - 1));
            assert(pi(b) != pi(n - 1));
        }
        assert forall|i: int| 0 <= i < n - 1 implies t.cols[i] == s2.cols[#[trigger] pi2(i)] && t.face_down[i] == s2.face_down[pi2(i)] by {
            assert(pi(i) != pi(n - 1));
            assert(t.cols[i] == s.cols[pi(i)]);
        }
        assert forall|i: int| n - 1 <= i < COLS implies #[trigger] t.cols[i] == s2.cols[i] && t.face_down[i] == s2.face_down[i] by {
            if i == n - 1 {
                assert(t.cols[i] == s.cols[pi(i)]);
            }
        }
        lemma_hash_permuted_upto(s2, t, pi2, n - 1);
    }
}

/// Boards whose columns are those of another board in the order `pi`
/// (column `i` with its face-down count is column `pi(i)` of the other), with
/// the same number of completed runs and the same stock size, share the
/// canonical hash.
pub proof fn lemma_hash_index_permutation(s: BoardState, t: BoardState, pi: spec_fn(int) -> int)
    requires
        s.cols.len() == COLS,
        s.face_down.len() == COLS,
        t.cols.len() == COLS,
        t.face_down.len() == COLS,
        forall|i: int| 0 <= i < COLS ==> 0 <= #[trigger] pi(i) < COLS,
        forall|i: int, j: int| 0 <= i < COLS && 0 <= j < COLS && i != j ==> #[trigger] pi(i) != #[trigger] pi(j),
        forall|i: int| 0 <= i < COLS ==> t.cols[i] == s.cols[#[trigger] pi(i)] && t.face_down[i] == s.face_down[pi(i)],
        s.completed == t.completed,
        s.stock.len() == t.stock.len(),
    ensures
        t.hash() == s.hash(),
{
    lemma_hash_permuted_upto(s, t, pi, COLS as int);
}

/// One FNV-1a step.
fn fnv(h: u64, byte: u8) -> (r: u64)
    ensures
        r == fnv_step(h, byte),
{
    proof {
        assert(fnv_step(h, byte) == vstd::wrapping::u64_specs::wrapping_mul(h ^ (byte as u64), FNV_PRIME));
    }
    (h ^ byte as u64).wrapping_mul(FNV_PRIME)
}

impl Board {
    /// Canonical hash for the transposition table: columns are hashed
    /// independently and then sorted, so states that differ only by a
    /// permutation of columns collapse to the same key.
    pub fn hash(&self) -> (h: u64)
        ensures
            h == self@.hash(),
    {
        let ghost s = self@;
        let mut keys = [0u64; COLS];
        let mut c: usize = 0;
        while c < COLS
            invariant
                s == self@,
                c <= COLS,
                forall|d: int| 0 <= d < c ==> #[trigger] keys@[d] == s.col_key(d),
            decreases COLS - c,
        {
            let mut h = FNV_OFFSET;
            h = fnv(h, self.face_down[c]);
            h = fnv(h, 0xFF);
            let ghost head = seq![s.face_down[c as int], 0xFFu8];
            assert(fnv_fold(FNV_OFFSET, head) == h) by {
                reveal_with_fuel(fnv_fold, 3);
                assert(head.drop_last() =~= seq![s.face_down[c as int]]);
                assert(head.drop_last().drop_last() =~= Seq::<u8>::empty());
            }
            let col = &self.cols[c];
            let mut i: usize = 0;
            while i < col.len()
                invariant
                    col@ == s.cols[c as int],
                    c < COLS,
                    i <= col@.len(),
                    h == fnv_fold(FNV_OFFSET, head + col@.subrange(0, i as int)),
                decreases col@.len() - i,
            {
                let ghost prev = head + col@.subrange(0, i as int);
                h = fnv(h, col[i]);
                assert((head + col@.subrange(0, i + 1)).drop_last() =~= prev);
                i = i + 1;
            }
            assert(head + col@.subrange(0, col@.len() as int) =~= head + s.cols[c as int]);
            keys[c] = h;
            c = c + 1;
        }
        assert(keys@ =~= s.col_keys());
        // Insertion sort.
        let ghost orig = keys@;
        let mut i: usize = 1;
        while i < COLS
            invariant
                1 <= i <= COLS,
                keys@.len() == COLS,
                keys@.to_multiset() == orig.to_multiset(),
                forall|a: int, b: int| 0 <= a < b < i ==> #[trigger] keys@[a] <= #[trigger] keys@[b],
            decreases COLS - i,
        {
            let mut j: usize = i;
            while j > 0 && keys[j - 1] > keys[j]
                invariant
                    0 <= j <= i < COLS,
                    keys@.len() == COLS,
                    keys@.to_multiset() == orig.to_multiset(),
                    forall|a: int, b: int| 0 <= a < b <= i && a != j && b != j ==> #[trigger] keys@[a] <= #[trigger] keys@[b],
                    forall|b: int| j < b <= i ==> keys@[j as int] < #[trigger] keys@[b],
                decreases j,
            {
                let ghost before = keys@;
                let tmp = keys[j];
                keys[j] = keys[j - 1];
                keys[j - 1] = tmp;
                proof {
                    assert(keys@ =~= before.update(j as int, before[j - 1]).update(j - 1, before[j as int]));
                    lemma_swap_multiset(before, j as int, j - 1);
                    assert(before.update(j as int, before[j - 1]).update(j - 1, before[j as int]) =~= before.update(j as int, before[j - 1]).update(j - 1, before[j as int]));
                }
                j = j - 1;
            }
            i = i + 1;
        }
        proof {
            assert(sorted_by(keys@, key_le()));
            lemma_key_le_total();
            orig.lemma_sort_by_ensures(key_le());
            vstd::seq_lib::lemma_sorted_unique(keys@, orig.sort_by(key_le()), key_le());
        }
        let ghost sorted = keys@;
        let mut h = FNV_OFFSET;
        let mut k: usize = 0;
        while k < COLS
            invariant
                k <= COLS,
                keys@ == sorted,
                sorted.len() == COLS,
                h == fnv_fold(FNV_OFFSET, key_bytes(sorted.subrange(0, k as int))),
            decreases COLS - k,
        {
            let key = keys[k];
            let ghost start = key_bytes(sorted.subrange(0, k as int));
            let mut b: u64 = 0;
            while b < 8
                invariant
                    b <= 8,
                    key == sorted[k as int],
                    h == fnv_fold(FNV_OFFSET, start + le_bytes(key).subrange(0, b as int)),
                decreases 8 - b,
            {
                let byte = (key >> (8 * b)) as u8;
                assert(byte == le_bytes(key)[b as int]);
                h = fnv(h, byte);
                assert((start + le_bytes(key).subrange(0, b + 1)).drop_last() =~= start + le_bytes(key).subrange(0, b as int));
                b = b + 1;
            }
            assert(sorted.subrange(0, k + 1).drop_last() =~= sorted.subrange(0, k as int));
            assert(le_bytes(key).subrange(0, 8) =~= le_bytes(key));
            k = k + 1;
        }
        assert(sorted.subrange(0, COLS as int) =~= sorted);
        h = fnv(h, self.completed);
        h = fnv(h, self.stock.len() as u8);
        h
    }
}


/// The board after playing `moves` in order from `s`.
pub open spec fn replay(s: BoardState, moves: Seq<Move>) -> BoardState
    decreases moves.len(),
{
    if moves.len() == 0 {
        s
    } else {
        replay(s, moves.drop_last()).after(moves.last())
    }
}

/// Whether every move of `moves` is one that `gen_moves` lists at the point it is played.
pub open spec fn legal_plan(s: BoardState, moves: Seq<Move>) -> bool
    decreases moves.len(),
{
    if moves.len() == 0 {
        true
    } else {
        legal_plan(s, moves.drop_last()) && replay(s, moves.drop_last()).moves().contains(moves.last())
    }
}

/// A legal plan from a well-formed board only passes through well-formed boards.
pub proof fn lemma_legal_plan_wf(s: BoardState, moves: Seq<Move>)
    requires
        s.wf(),
        legal_plan(s, moves),
    ensures
        replay(s, moves).wf(),
        replay(s, moves).card_count() + 13 * replay(s, moves).completed == s.card_count() + 13 * s.completed,
        replay(s, moves).completed >= s.completed,
    decreases moves.len(),
{
    if moves.len() > 0 {
        let pre = moves.drop_last();
        lemma_legal_plan_wf(s, pre);
        lemma_step_legal(replay(s, pre), moves.last());
    }
}

/// A move that `gen_moves` lists keeps the board well formed and the total of
/// cards (with 13 per completed run) unchanged.
pub proof fn lemma_step_legal(s: BoardState, m: Move)
    requires
        s.wf(),
        s.moves().contains(m),
    ensures
        s.can_make(m),
        s.after(m).wf(),
        s.after(m).card_count() + 13 * s.after(m).completed == s.card_count() + 13 * s.completed,
        s.after(m).completed >= s.completed,
{
    lemma_moves_can_make(s);
    let i = choose|i: int| 0 <= i < s.moves().len() && s.moves()[i] == m;
    assert(s.can_make(s.moves()[i]));
    lemma_after_conserves(s, m);
}

/// Extending a legal plan by a listed move keeps it legal.
pub proof fn lemma_legal_plan_push(s: BoardState, moves: Seq<Move>, m: Move)
    requires
        legal_plan(s, moves),
        replay(s, moves).moves().contains(m),
    ensures
        legal_plan(s, moves.push(m)),
        replay(s, moves.push(m)) == replay(s, moves).after(m),
{
    assert(moves.push(m).drop_last() =~= moves);
}

/// `us[i]` is the record that `make` hands back for move `ms[i]` of the plan.
pub open spec fn recorded_plan(s: BoardState, ms: Seq<Move>, us: Seq<Undo>) -> bool {
    &&& ms.len() == us.len()
    &&& forall|i: int| 0 <= i < ms.len() ==> #[trigger] replay(s, ms.take(i)).records(ms[i], us[i])
}

/// The board after undoing the records `us`, the last one first.
pub open spec fn undo_records(b: BoardState, us: Seq<Undo>) -> BoardState
    decreases us.len(),
{
    if us.len() == 0 {
        b
    } else {
        undo_records(b.unmake(us.last()), us.drop_last())
    }
}

/// Undoing every move of a legal plan, last move first, with the records that
/// `make` handed back gives back the board the plan started from: deals and
/// completed runs included.
pub proof fn lemma_undo_all(s: BoardState, ms: Seq<Move>, us: Seq<Undo>)
    requires
        s.wf(),
        legal_plan(s, ms),
        recorded_plan(s, ms, us),
    ensures
        undo_records(replay(s, ms), us) == s,
    decreases ms.len(),
{
    if ms.len() > 0 {
        let n = ms.len() - 1;
        let p = ms.drop_last();
        let q = us.drop_last();
        assert(ms.take(n) =~= p);
        lemma_legal_plan_wf(s, p);
        lemma_step_legal(replay(s, p), ms[n]);
        assert(replay(s, ms.take(n)).records(ms[n], us[n]));
        lemma_make_then_undo(replay(s, p), ms[n], us[n]);
        assert forall|i: int| 0 <= i < p.len() implies #[trigger] replay(s, p.take(i)).records(p[i], q[i]) by {
            assert(p.take(i) =~= ms.take(i));
            assert(replay(s, ms.take(i)).records(ms[i], us[i]));
        }
        lemma_undo_all(s, p, q);
    }
}

/// `after` keeps the card total (with 13 per completed run).
pub proof fn lemma_after_conserves(s: BoardState, m: Move)
    requires
        s.wf(),
        s.can_make(m),
    ensures
        s.after(m).wf(),
        s.after(m).card_count() + 13 * s.after(m).completed == s.card_count() + 13 * s.completed,
        s.after(m).completed >= s.completed,
{
    match m {
        Move::Tableau { from, to, count } => {
            let (f, t, k) = (from as int, to as int, count as int);
            let n = s.cols[f].len() as int;
            let s1 = s.move_cards(f, t, k);
            lemma_sum_lens_update(s.cols, f, s.cols[f].subrange(0, n - k), COLS as int);
            lemma_sum_lens_update(s.cols.update(f, s.cols[f].subrange(0, n - k)), t, s.cols[t] + s.cols[f].subrange(n - k, n), COLS as int);
            assert(s1.card_count() == s.card_count());
            assert forall|c: int, i: int| 0 <= c < COLS && 0 <= i < s1.cols[c].len() implies card_ok(#[trigger] s1.cols[c][i]) by {
                if c == t && i >= s.cols[t].len() {
                    assert(card_ok(s.cols[f][n - k + (i - s.cols[t].len())]));
                } else if c == f {
                    assert(card_ok(s.cols[f][i]));
                } else {
                    assert(card_ok(s.cols[c][i]));
                }
            }
            lemma_flip(s1, f);
            let s2 = s1.flip(f);
            assert forall|c: int| 0 <= c < COLS implies #[trigger] s2.col_wf(c) by {
                if c != f && c != t {
                    assert(s.col_wf(c));
                }
                if c == t {
                    assert(s.col_wf(t));
                }
            }
            lemma_complete(s2, t);
            let s3 = s2.complete(t);
            assert forall|c: int| 0 <= c < COLS implies #[trigger] s3.col_wf(c) by {
                if c != t {
                    assert(s2.col_wf(c));
                }
            }
        },
        Move::Deal => {
            lemma_deal_row(s);
            lemma_complete_upto(s.deal_row(), COLS as int);
        },
    }
}



impl Board {
    /// Whether the board holds at most `limit` cards, counting each completed
    /// run as its 13 cards.
    pub fn holds_at_most(&self, limit: usize) -> (ok: bool)
        ensures
            ok == (self@.card_count() + 13 * self@.completed <= limit),
    {
        let ghost s = self@;
        let runs = 13 * self.completed as usize;
        if runs > limit || self.stock.len() > limit - runs {
            return false;
        }
        let mut total: usize = runs + self.stock.len();
        let mut c: usize = 0;
        while c < COLS
            invariant
                s == self@,
                c <= COLS,
                total == sum_lens(s.cols, c as int) + s.stock.len() + 13 * s.completed,
                total <= limit,
            decreases COLS - c,
        {
            let n = self.cols[c].len();
            if n > limit - total {
                proof {
                    lemma_sum_lens_mono(s.cols, c as int + 1, COLS as int);
                }
                return false;
            }
            total = total + n;
            c = c + 1;
        }
        true
    }
}

} // verus!
