//! Boards built from what a player can see or knows, and a text dump of a board.
use vstd::prelude::*;
use crate::board::{Board, BoardState, COLS, CARD_LIMIT, sum_lens};
use crate::card::{Card, UNKNOWN, is_card, card_ok, rank, suit, card_name, name, rank_of, suit_of};
use crate::text::{decimal, push_decimal};

verus! {

broadcast use vstd::slice::group_slice_axioms;

/// The first card of `cards`, from index `k` on, that is not a real card.
pub open spec fn first_invalid(cards: Seq<Card>, k: int) -> Option<Card>
    decreases cards.len() - k,
{
    if k < 0 || k >= cards.len() {
        None
    } else if !is_card(cards[k]) {
        Some(cards[k])
    } else {
        first_invalid(cards, k + 1)
    }
}

/// The first card of `cards`, from index `k` on, that may not stand on a board.
pub open spec fn first_unplayable(cards: Seq<Card>, k: int) -> Option<Card>
    decreases cards.len() - k,
{
    if k < 0 || k >= cards.len() {
        None
    } else if !card_ok(cards[k]) {
        Some(cards[k])
    } else {
        first_unplayable(cards, k + 1)
    }
}

/// The first column, from `i` on, whose face-up cards hold an invalid card,
/// with that card.
pub open spec fn first_bad_visible(columns: Seq<(u8, Vec<Card>)>, i: int) -> Option<(int, Card)>
    decreases columns.len() - i,
{
    if i < 0 || i >= columns.len() {
        None
    } else {
        match first_invalid(columns[i].1@, 0) {
            Some(c) => Some((i, c)),
            None => first_bad_visible(columns, i + 1),
        }
    }
}

/// The board a player sees: in each column its face-down cards (all unknown)
/// under its face-up cards; no stock, no completed run.
pub open spec fn visible_board(columns: Seq<(u8, Vec<Card>)>) -> BoardState {
    BoardState {
        cols: Seq::new(COLS as nat, |c: int| Seq::new(columns[c].0 as nat, |i: int| UNKNOWN) + columns[c].1@),
        face_down: Seq::new(COLS as nat, |c: int| columns[c].0),
        stock: Seq::empty(),
        completed: 0,
    }
}

/// Column `c` of a board built from what a player sees holds, bottom to top,
/// as many unknown cards as the column has face down and then its face-up
/// cards exactly as given, in the given order; nothing is dealt or completed.
pub proof fn lemma_visible_layout(columns: Seq<(u8, Vec<Card>)>)
    requires
        columns.len() == COLS,
    ensures
        ({
            let b = visible_board(columns);
            &&& b.stock.len() == 0
            &&& b.completed == 0
            &&& forall|c: int| 0 <= c < COLS ==> {
                &&& #[trigger] b.face_down[c] == columns[c].0
                &&& b.cols[c].len() == columns[c].0 + columns[c].1@.len()
                &&& forall|i: int| 0 <= i < columns[c].0 ==> #[trigger] b.cols[c][i] == UNKNOWN
                &&& forall|k: int| 0 <= k < columns[c].1@.len() ==> #[trigger] b.cols[c][columns[c].0 + k] == columns[c].1@[k]
            }
        }),
{
}

/// `"column "`, the column number and `": "`.
pub open spec fn column_prefix(i: int) -> Seq<char> {
    "column "@ + decimal(i as nat) + ": "@
}

/// Why `from_visible` refuses `columns`, if it does.
pub open spec fn visible_error(columns: Seq<(u8, Vec<Card>)>) -> Option<Seq<char>> {
    if columns.len() != COLS {
        Some("expected 10 columns, got "@ + decimal(columns.len()))
    } else {
        match first_bad_visible(columns, 0) {
            Some((i, c)) => Some(column_prefix(i) + "invalid card code "@ + decimal(c as nat)),
            None => None,
        }
    }
}

/// What is wrong with column `i`, given as its face-down count and all its
/// cards bottom to top, if anything.
pub open spec fn column_error(i: int, fd: u8, cards: Seq<Card>) -> Option<Seq<char>> {
    if fd > cards.len() {
        Some(
            column_prefix(i) + decimal(fd as nat) + " face-down cards but only "@ + decimal(cards.len())
                + " cards"@,
        )
    } else {
        match first_unplayable(cards, 0) {
            Some(c) => Some(column_prefix(i) + "invalid card code "@ + decimal(c as nat)),
            None => if fd == cards.len() && cards.len() > 0 && cards.last() != UNKNOWN {
                Some(column_prefix(i) + "every card is face down but the top one is known"@)
            } else {
                None
            },
        }
    }
}

/// The first column error from column `i` on.
pub open spec fn first_column_error(columns: Seq<(u8, Vec<Card>)>, i: int) -> Option<Seq<char>>
    decreases columns.len() - i,
{
    if i < 0 || i >= columns.len() {
        None
    } else {
        match column_error(i, columns[i].0, columns[i].1@) {
            Some(e) => Some(e),
            None => first_column_error(columns, i + 1),
        }
    }
}

/// The board given by its columns (face-down count and cards) and its stock.
pub open spec fn parts_board(columns: Seq<(u8, Vec<Card>)>, stock: Seq<Card>) -> BoardState {
    BoardState {
        cols: Seq::new(COLS as nat, |c: int| columns[c].1@),
        face_down: Seq::new(COLS as nat, |c: int| columns[c].0),
        stock: stock,
        completed: 0,
    }
}

/// Why `from_parts` refuses its input, if it does.
pub open spec fn parts_error(columns: Seq<(u8, Vec<Card>)>, stock: Seq<Card>) -> Option<Seq<char>> {
    if columns.len() != COLS {
        Some("expected 10 columns, got "@ + decimal(columns.len()))
    } else {
        match first_column_error(columns, 0) {
            Some(e) => Some(e),
            None => match first_unplayable(stock, 0) {
                Some(c) => Some("stock: invalid card code "@ + decimal(c as nat)),
                None => if stock.len() % 10 != 0 {
                    Some("stock: "@ + decimal(stock.len()) + " cards is not a whole number of rows"@)
                } else if parts_board(columns, stock).card_count() > CARD_LIMIT {
                    Some("the board holds more than 3000 cards"@)
                } else {
                    None
                },
            },
        }
    }
}

proof fn lemma_first_invalid(cards: Seq<Card>, k: int)
    requires
        0 <= k,
    ensures
        first_invalid(cards, k) is None ==> forall|j: int| k <= j < cards.len() ==> is_card(#[trigger] cards[j]),
    decreases cards.len() - k,
{
    if k < cards.len() {
        lemma_first_invalid(cards, k + 1);
    }
}

proof fn lemma_first_unplayable(cards: Seq<Card>, k: int)
    requires
        0 <= k,
    ensures
        first_unplayable(cards, k) is None ==> forall|j: int| k <= j < cards.len() ==> card_ok(#[trigger] cards[j]),
    decreases cards.len() - k,
{
    if k < cards.len() {
        lemma_first_unplayable(cards, k + 1);
    }
}

proof fn lemma_first_bad_visible(columns: Seq<(u8, Vec<Card>)>, i: int)
    requires
        0 <= i,
    ensures
        first_bad_visible(columns, i) is None ==> forall|c: int| i <= c < columns.len() ==> first_invalid(
            #[trigger] columns[c].1@,
            0,
        ) is None,
    decreases columns.len() - i,
{
    if i < columns.len() {
        lemma_first_bad_visible(columns, i + 1);
    }
}

proof fn lemma_first_column_error(columns: Seq<(u8, Vec<Card>)>, i: int)
    requires
        0 <= i,
    ensures
        first_column_error(columns, i) is None ==> forall|c: int| i <= c < columns.len() ==> column_error(
            c,
            #[trigger] columns[c].0,
            columns[c].1@,
        ) is None,
    decreases columns.len() - i,
{
    if i < columns.len() {
        lemma_first_column_error(columns, i + 1);
    }
}

/// `"column "`, the number `i` and `": "`.
fn column_text(i: usize) -> (s: String)
    ensures
        s@ == column_prefix(i as int),
{
    let mut s = String::from_str("column ");
    push_decimal(&mut s, i as u64);
    s.append(": ");
    s
}

/// Ten empty columns.
fn empty_columns() -> (cols: [Vec<Card>; COLS])
    ensures
        forall|c: int| 0 <= c < COLS ==> (#[trigger] cols@[c])@.len() == 0,
{
    [Vec::new(), Vec::new(), Vec::new(), Vec::new(), Vec::new(), Vec::new(), Vec::new(), Vec::new(), Vec::new(), Vec::new()]
}

impl Board {
    /// Build a partially known board from what a player can see: for each of
    /// the 10 columns, its face-down count and its face-up cards bottom to top.
    /// Face-down cards become `UNKNOWN` and the stock is left empty (a
    /// partial-information advisor never deals). Face-up card codes are checked.
    pub fn from_visible(columns: &[(u8, Vec<Card>)]) -> (r: Result<Board, String>)
        ensures
            r is Ok <==> visible_error(columns@) is None,
            r matches Err(e) ==> visible_error(columns@) == Some(e@),
            r matches Ok(b) ==> b@ == visible_board(columns@),
            r matches Ok(b) ==> forall|c: int, i: int| 0 <= c < COLS && 0 <= i < b@.cols[c].len() ==> #[trigger] b@.cols[c][i] == (
            if i < columns@[c].0 {
                UNKNOWN
            } else {
                columns@[c].1@[i - columns@[c].0]
            }),
            r matches Ok(b) ==> forall|c: int| 0 <= c < COLS ==> (#[trigger] b@.cols[c]).len() == columns@[c].0 + columns@[c].1@.len()
                && b@.face_down[c] == columns@[c].0,
            r matches Ok(b) ==> b@.base_ok() || b@.card_count() > CARD_LIMIT,
            r matches Ok(b) ==> (b@.card_count() <= CARD_LIMIT ==> b@.wf()),
    {
        if columns.len() != COLS {
            let mut e = String::from_str("expected 10 columns, got ");
            push_decimal(&mut e, columns.len() as u64);
            return Err(e);
        }
        let mut cols = empty_columns();
        let mut face_down = [0u8; COLS];
        let mut i: usize = 0;
        while i < COLS
            invariant
                columns@.len() == COLS,
                i <= COLS,
                first_bad_visible(columns@, 0) == first_bad_visible(columns@, i as int),
                forall|c: int| 0 <= c < i ==> (#[trigger] cols@[c])@ == visible_board(columns@).cols[c],
                forall|c: int| 0 <= c < i ==> #[trigger] face_down@[c] == columns@[c].0,
            decreases COLS - i,
        {
            let fd = columns[i].0;
            let up = &columns[i].1;
            let mut v: Vec<Card> = Vec::new();
            let mut k: u8 = 0;
            while k < fd
                invariant
                    k <= fd,
                    v@ == Seq::new(k as nat, |j: int| UNKNOWN),
                decreases fd - k,
            {
                v.push(UNKNOWN);
                k = k + 1;
                assert(v@ =~= Seq::new(k as nat, |j: int| UNKNOWN));
            }
            let ghost down = v@;
            let mut j: usize = 0;
            while j < up.len()
                invariant
                    columns@.len() == COLS,
                    i < COLS,
                    up@ == columns@[i as int].1@,
                    first_bad_visible(columns@, 0) == first_bad_visible(columns@, i as int),
                    j <= up@.len(),
                    v@ == down + up@.take(j as int),
                    first_invalid(up@, 0) == first_invalid(up@, j as int),
                decreases up@.len() - j,
            {
                let card = up[j];
                let (r, s) = (rank(card), suit(card));
                if !(1 <= r && r <= 13) || s > 3 {
                    let mut e = column_text(i);
                    e.append("invalid card code ");
                    push_decimal(&mut e, card as u64);
                    return Err(e);
                }
                v.push(card);
                j = j + 1;
                assert(v@ =~= down + up@.take(j as int));
            }
            assert(up@.take(up@.len() as int) =~= up@);
            let ghost before = cols@;
            cols[i] = v;
            face_down[i] = fd;
            proof {
                assert forall|c: int| 0 <= c <= i implies (#[trigger] cols@[c])@ == visible_board(columns@).cols[c] by {
                    if c < i {
                        assert(cols@[c] == before[c]);
                    }
                }
            }
            i = i + 1;
        }
        let b = Board { cols, face_down, stock: Vec::new(), completed: 0 };
        proof {
            let s = b@;
            let vb = visible_board(columns@);
            assert(s.cols =~= vb.cols);
            assert(s.face_down =~= vb.face_down);
            assert(s =~= vb);
            lemma_first_bad_visible(columns@, 0);
            assert forall|c: int, i: int| 0 <= c < COLS && 0 <= i < s.cols[c].len() implies card_ok(#[trigger] s.cols[c][i]) by {
                let fd = columns@[c].0 as int;
                assert(first_invalid(columns@[c].1@, 0) is None);
                lemma_first_invalid(columns@[c].1@, 0);
                if i >= fd {
                    assert(s.cols[c][i] == columns@[c].1@[i - fd]);
                }
            }
            assert forall|c: int| 0 <= c < COLS implies #[trigger] s.col_wf(c) by {
                let fd = columns@[c].0 as int;
                if s.face_down[c] == s.cols[c].len() && s.cols[c].len() > 0 {
                    assert(columns@[c].1@.len() == 0);
                    assert(s.cols[c].last() == s.cols[c][fd - 1]);
                }
            }
        }
        Ok(b)
    }

    /// Build a board from each column's face-down count and all its cards
    /// (bottom to top; face-down cards may be `UNKNOWN`) and from the stock (a
    /// deal pops from its end). Refuses a column with more face-down cards than
    /// cards, a code that is neither a card nor `UNKNOWN`, a column whose cards
    /// are all face down under a known top card, a stock that is not whole rows
    /// of 10, and more cards than a board may hold.
    pub fn from_parts(columns: &[(u8, Vec<Card>)], stock: &[Card]) -> (r: Result<Board, String>)
        ensures
            r is Ok <==> parts_error(columns@, stock@) is None,
            r matches Err(e) ==> parts_error(columns@, stock@) == Some(e@),
            r matches Ok(b) ==> b@ == parts_board(columns@, stock@) && b@.wf(),
            r matches Ok(b) ==> forall|c: int| 0 <= c < COLS ==> #[trigger] b@.cols[c] == columns@[c].1@ && b@.face_down[c]
                == columns@[c].0,
            r matches Ok(b) ==> b@.stock == stock@ && b@.completed == 0,
    {
        if columns.len() != COLS {
            let mut e = String::from_str("expected 10 columns, got ");
            push_decimal(&mut e, columns.len() as u64);
            return Err(e);
        }
        let mut cols = empty_columns();
        let mut face_down = [0u8; COLS];
        let mut i: usize = 0;
        while i < COLS
            invariant
                columns@.len() == COLS,
                i <= COLS,
                first_column_error(columns@, 0) == first_column_error(columns@, i as int),
                forall|c: int| 0 <= c < i ==> (#[trigger] cols@[c])@ == columns@[c].1@,
                forall|c: int| 0 <= c < i ==> #[trigger] face_down@[c] == columns@[c].0,
            decreases COLS - i,
        {
            let fd = columns[i].0;
            let cards = &columns[i].1;
            let n = cards.len();
            if fd as usize > n {
                let mut e = column_text(i);
                push_decimal(&mut e, fd as u64);
                e.append(" face-down cards but only ");
                push_decimal(&mut e, n as u64);
                e.append(" cards");
                return Err(e);
            }
            let mut v: Vec<Card> = Vec::new();
            let mut j: usize = 0;
            while j < n
                invariant
                    columns@.len() == COLS,
                    i < COLS,
                    n == cards@.len(),
                    cards@ == columns@[i as int].1@,
                    fd == columns@[i as int].0,
                    fd <= n,
                    first_column_error(columns@, 0) == first_column_error(columns@, i as int),
                    j <= n,
                    v@ == cards@.take(j as int),
                    first_unplayable(cards@, 0) == first_unplayable(cards@, j as int),
                decreases n - j,
            {
                let card = cards[j];
                let (r, s) = (rank(card), suit(card));
                if card != UNKNOWN && (!(1 <= r && r <= 13) || s > 3) {
                    let mut e = column_text(i);
                    e.append("invalid card code ");
                    push_decimal(&mut e, card as u64);
                    return Err(e);
                }
                v.push(card);
                j = j + 1;
                assert(v@ =~= cards@.take(j as int));
            }
            assert(cards@.take(n as int) =~= cards@);
            if fd as usize == n && n > 0 && cards[n - 1] != UNKNOWN {
                let mut e = column_text(i);
                e.append("every card is face down but the top one is known");
                return Err(e);
            }
            let ghost before = cols@;
            cols[i] = v;
            face_down[i] = fd;
            proof {
                assert forall|c: int| 0 <= c <= i implies (#[trigger] cols@[c])@ == columns@[c].1@ by {
                    if c < i {
                        assert(cols@[c] == before[c]);
                    }
                }
            }
            i = i + 1;
        }
        proof {
            lemma_first_column_error(columns@, 0);
        }
        let mut k: usize = 0;
        while k < stock.len()
            invariant
                columns@.len() == COLS,
                first_column_error(columns@, 0) is None,
                k <= stock@.len(),
                first_unplayable(stock@, 0) == first_unplayable(stock@, k as int),
            decreases stock@.len() - k,
        {
            let card = stock[k];
            let (r, s) = (rank(card), suit(card));
            if card != UNKNOWN && (!(1 <= r && r <= 13) || s > 3) {
                let mut e = String::from_str("stock: invalid card code ");
                push_decimal(&mut e, card as u64);
                return Err(e);
            }
            k = k + 1;
        }
        if stock.len() % 10 != 0 {
            let mut e = String::from_str("stock: ");
            push_decimal(&mut e, stock.len() as u64);
            e.append(" cards is not a whole number of rows");
            return Err(e);
        }
        let ghost pb = parts_board(columns@, stock@);
        let mut total: usize = stock.len();
        let mut c: usize = 0;
        let mut too_many = total > CARD_LIMIT;
        while c < COLS && !too_many
            invariant
                columns@.len() == COLS,
                c <= COLS,
                forall|d: int| 0 <= d < COLS ==> (#[trigger] cols@[d])@ == columns@[d].1@,
                pb == parts_board(columns@, stock@),
                !too_many ==> total == sum_lens(pb.cols, c as int) + stock@.len() && total <= CARD_LIMIT,
                too_many ==> pb.card_count() > CARD_LIMIT,
            decreases COLS - c,
        {
            proof {
                crate::board::lemma_sum_lens_mono(pb.cols, c as int + 1, COLS as int);
            }
            let len = cols[c].len();
            if len > CARD_LIMIT - total {
                too_many = true;
            } else {
                total = total + len;
            }
            c = c + 1;
        }
        if too_many {
            let e = String::from_str("the board holds more than 3000 cards");
            return Err(e);
        }
        let mut st: Vec<Card> = Vec::new();
        let mut k: usize = 0;
        while k < stock.len()
            invariant
                k <= stock@.len(),
                st@ == stock@.take(k as int),
            decreases stock@.len() - k,
        {
            st.push(stock[k]);
            k = k + 1;
            assert(st@ =~= stock@.take(k as int));
        }
        assert(stock@.take(stock@.len() as int) =~= stock@);
        let b = Board { cols, face_down, stock: st, completed: 0 };
        proof {
            let s = b@;
            assert(s.cols =~= pb.cols);
            assert(s.face_down =~= pb.face_down);
            assert(s =~= pb);
            lemma_first_unplayable(stock@, 0);
            assert forall|c: int, i: int| 0 <= c < COLS && 0 <= i < s.cols[c].len() implies card_ok(#[trigger] s.cols[c][i]) by {
                assert(column_error(c, columns@[c].0, columns@[c].1@) is None);
                lemma_first_unplayable(columns@[c].1@, 0);
            }
            assert forall|c: int| 0 <= c < COLS implies #[trigger] s.col_wf(c) by {
                assert(column_error(c, columns@[c].0, columns@[c].1@) is None);
            }
        }
        Ok(b)
    }
}


/// The first `n` cards of a column as printed: `[] ` for a face-down card,
/// the card's name and a space for a face-up one.
pub open spec fn cards_text(col: Seq<Card>, fd: int, n: int) -> Seq<char>
    decreases n,
{
    if n <= 0 {
        Seq::empty()
    } else {
        cards_text(col, fd, n - 1) + if n - 1 < fd {
            "[] "@
        } else {
            card_name(col[n - 1]) + " "@
        }
    }
}

/// The printed lines of columns `0..n`: the column number right-aligned in two
/// places, a colon, the column's cards, a line break.
pub open spec fn column_lines(s: BoardState, n: int) -> Seq<char>
    decreases n,
{
    if n <= 0 {
        Seq::empty()
    } else {
        column_lines(s, n - 1) + " "@ + decimal((n - 1) as nat) + ": "@ + cards_text(
            s.cols[n - 1],
            s.face_down[n - 1] as int,
            s.cols[n - 1].len() as int,
        ) + "\n"@
    }
}

impl BoardState {
    /// The text dump of the board: one line per column, then the stock size,
    /// the deals left and the completed runs.
    pub open spec fn rendered(self) -> Seq<char> {
        column_lines(self, COLS as int) + "stock: "@ + decimal(self.stock.len()) + " cards ("@ + decimal(
            self.stock.len() / 10,
        ) + " deals left) | completed runs: "@ + decimal(self.completed as nat) + "/8\n"@
    }
}

proof fn lemma_cards_text_hides(a: Seq<Card>, b: Seq<Card>, fd: int, n: int)
    requires
        n <= a.len(),
        n <= b.len(),
        forall|i: int| fd <= i < n ==> #[trigger] a[i] == b[i],
    ensures
        cards_text(a, fd, n) == cards_text(b, fd, n),
    decreases n,
{
    if n > 0 {
        lemma_cards_text_hides(a, b, fd, n - 1);
    }
}

proof fn lemma_column_lines_hide(s: BoardState, t: BoardState, n: int)
    requires
        0 <= n <= COLS,
        s.cols.len() == COLS,
        t.cols.len() == COLS,
        forall|c: int| 0 <= c < COLS ==> #[trigger] s.face_down[c] == t.face_down[c] && s.cols[c].len() == t.cols[c].len(),
        forall|c: int, i: int| 0 <= c < COLS && s.face_down[c] <= i < s.cols[c].len() ==> #[trigger] s.cols[c][i] == t.cols[c][i],
    ensures
        column_lines(s, n) == column_lines(t, n),
    decreases n,
{
    if n > 0 {
        lemma_column_lines_hide(s, t, n - 1);
        let c = n - 1;
        assert(s.face_down[c] == t.face_down[c]);
        lemma_cards_text_hides(s.cols[c], t.cols[c], s.face_down[c] as int, s.cols[c].len() as int);
    }
}

/// The face-down cards at the bottom of a column print as `[] ` each,
/// whatever their values.
pub proof fn lemma_face_down_text(col: Seq<Card>, fd: int, n: int)
    requires
        0 <= n <= fd,
    ensures
        cards_text(col, fd, n) == Seq::new((3 * n) as nat, |k: int| if k % 3 == 0 { '[' } else if k % 3 == 1 { ']' } else { ' ' }),
    decreases n,
{
    reveal_strlit("[] ");
    if n > 0 {
        lemma_face_down_text(col, fd, n - 1);
        assert(cards_text(col, fd, n) =~= Seq::new((3 * n) as nat, |k: int| if k % 3 == 0 { '[' } else if k % 3 == 1 { ']' } else { ' ' }));
    } else {
        assert(cards_text(col, fd, n) =~= Seq::new((3 * n) as nat, |k: int| if k % 3 == 0 { '[' } else if k % 3 == 1 { ']' } else { ' ' }));
    }
}

/// The dump never shows a face-down card: boards that differ only in the
/// values of face-down cards (known or not) print the same text, since each
/// face-down card prints as `[] ` whatever it is.
pub proof fn lemma_render_hides_face_down(s: BoardState, t: BoardState)
    requires
        s.cols.len() == COLS,
        t.cols.len() == COLS,
        forall|c: int| 0 <= c < COLS ==> #[trigger] s.face_down[c] == t.face_down[c] && s.cols[c].len() == t.cols[c].len(),
        forall|c: int, i: int| 0 <= c < COLS && s.face_down[c] <= i < s.cols[c].len() ==> #[trigger] s.cols[c][i] == t.cols[c][i],
        s.stock.len() == t.stock.len(),
        s.completed == t.completed,
    ensures
        s.rendered() == t.rendered(),
{
    lemma_column_lines_hide(s, t, COLS as int);
}

impl BoardState {
    /// Every face-up card of the tableau has a name: a rank up to king and
    /// one of the four suits.
    pub open spec fn face_up_named(self) -> bool {
        forall|c: int, i: int|
            0 <= c < COLS && self.face_down[c] <= i < self.cols[c].len() ==> rank_of(#[trigger] self.cols[c][i]) <= 13
                && suit_of(self.cols[c][i]) <= 3
    }
}

impl Board {
    /// A quick text dump of the tableau.
    pub fn render(&self) -> (text: String)
        requires
            self@.face_up_named(),
        ensures
            text@ == self@.rendered(),
    {
        let ghost st = self@;
        let mut s = String::new();
        let mut c: usize = 0;
        while c < COLS
            invariant
                st == self@,
                st.face_up_named(),
                c <= COLS,
                s@ == column_lines(st, c as int),
            decreases COLS - c,
        {
            s.append(" ");
            push_decimal(&mut s, c as u64);
            s.append(": ");
            let col = &self.cols[c];
            let fd = self.face_down[c] as usize;
            let ghost head = s@;
            let mut i: usize = 0;
            while i < col.len()
                invariant
                    st == self@,
                    st.face_up_named(),
                    c < COLS,
                    col@ == st.cols[c as int],
                    fd == st.face_down[c as int],
                    i <= col@.len(),
                    s@ == head + cards_text(col@, fd as int, i as int),
                decreases col@.len() - i,
            {
                let card = col[i];
                if i < fd {
                    s.append("[] ");
                } else {
                    assert(st.face_down[c as int] <= i);
                    let n = name(card);
                    s.append(n.as_str());
                    s.append(" ");
                }
                i = i + 1;
                assert(s@ =~= head + cards_text(col@, fd as int, i as int));
            }
            s.append("\n");
            c = c + 1;
            assert(s@ =~= column_lines(st, c as int));
        }
        s.append("stock: ");
        push_decimal(&mut s, self.stock.len() as u64);
        s.append(" cards (");
        push_decimal(&mut s, (self.stock.len() / COLS) as u64);
        s.append(" deals left) | completed runs: ");
        push_decimal(&mut s, self.completed as u64);
        s.append("/8\n");
        assert(s@ =~= st.rendered());
        s
    }
}

} // verus!
