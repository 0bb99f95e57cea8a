//! Card encoding.
//!
//! A card is packed into a single byte: `(suit << 4) | rank`, with rank in
//! `1..=13` (Ace = 1, King = 13) and suit in `0..=3`. Spider uses two full
//! decks, so duplicate cards are normal. The byte `UNKNOWN` stands for a card
//! whose face has not been seen yet.
use vstd::prelude::*;

verus! {

/// A card packed into one byte: the low four bits hold the rank, the next bits the suit.
pub type Card = u8;

/// Sentinel for a card whose face is not known (rank 0 is no real card).
pub const UNKNOWN: Card = 0;

/// The rank bits of a card.
pub open spec fn rank_of(c: u8) -> u8 {
    (c % 16) as u8
}

/// The suit bits of a card.
pub open spec fn suit_of(c: u8) -> u8 {
    (c / 16) as u8
}

/// A real card: rank Ace..King, suit 0..=3.
pub open spec fn is_card(c: u8) -> bool {
    1 <= rank_of(c) <= 13 && suit_of(c) <= 3
}

/// A value that may stand in a column or in the stock: a real card or `UNKNOWN`.
pub open spec fn card_ok(c: u8) -> bool {
    c == UNKNOWN || is_card(c)
}

/// Packing a card's own rank and suit gives the card back.
pub proof fn lemma_card_parts(c: u8)
    ensures
        c == suit_of(c) * 16 + rank_of(c),
        rank_of(c) < 16,
        suit_of(c) < 16,
{
}

/// Whether a card of this rank and suit belongs in a game dealt with `suits`
/// suits: ranks run from ace (1) to king (13), suits from 0.
pub fn fits_suits(rank: u8, suit: u8, suits: u8) -> (ok: bool)
    ensures
        ok == (1 <= rank <= 13 && suit < suits),
{
    1 <= rank && rank <= 13 && suit < suits
}

/// Pack a rank and a suit into a card.
pub fn make_card(rank: u8, suit: u8) -> (c: Card)
    ensures
        c == (suit << 4u8) | rank,
        rank < 16 && suit < 16 ==> c == suit * 16 + rank && rank_of(c) == rank && suit_of(c) == suit,
{
    if rank < 16 && suit < 16 {
        assert((suit << 4u8) | rank == suit * 16 + rank) by (bit_vector)
            requires
                rank < 16u8,
                suit < 16u8,
        ;
    }
    (suit << 4) | rank
}

/// The rank of a card (1 = Ace .. 13 = King; 0 for `UNKNOWN`).
pub fn rank(c: Card) -> (r: u8)
    ensures
        r == rank_of(c),
{
    assert(c & 0x0Fu8 == c % 16) by (bit_vector);
    c & 0x0F
}

/// The suit of a card.
pub fn suit(c: Card) -> (s: u8)
    ensures
        s == suit_of(c),
{
    assert(c >> 4u8 == c / 16) by (bit_vector);
    c >> 4
}

/// Whether a card is the `UNKNOWN` sentinel.
pub fn is_unknown(c: Card) -> (b: bool)
    ensures
        b == (c == UNKNOWN),
{
    c == UNKNOWN
}


/// The printed rank: `?` for an unknown card, then A, 2..10, J, Q, K.
pub open spec fn rank_name(r: u8) -> Seq<char> {
    if r == 0 {
        seq!['?']
    } else if r == 1 {
        seq!['A']
    } else if r == 10 {
        seq!['1', '0']
    } else if r == 11 {
        seq!['J']
    } else if r == 12 {
        seq!['Q']
    } else if r == 13 {
        seq!['K']
    } else {
        seq![crate::text::digit_char(r as int)]
    }
}

/// The printed suit: spades, hearts, clubs, diamonds.
pub open spec fn suit_name(s: u8) -> Seq<char> {
    if s == 0 {
        seq!['\u{2660}']
    } else if s == 1 {
        seq!['\u{2665}']
    } else if s == 2 {
        seq!['\u{2663}']
    } else {
        seq!['\u{2666}']
    }
}

/// The printed card, e.g. `K` then the spade sign.
pub open spec fn card_name(c: u8) -> Seq<char> {
    rank_name(rank_of(c)) + suit_name(suit_of(c))
}

/// How ranks print: the ace as `A`, two to ten as their decimal numerals, and
/// the court cards by their initials, jack (11) `J`, queen (12) `Q`, king (13)
/// `K`; an unknown card as `?`. No two ranks print alike.
pub proof fn lemma_rank_names()
    ensures
        rank_name(0) == seq!['?'],
        rank_name(1) == seq!['A'],
        forall|r: u8| 2 <= r <= 10 ==> #[trigger] rank_name(r) == crate::text::decimal(r as nat),
        rank_name(11) == seq!['J'],
        rank_name(12) == seq!['Q'],
        rank_name(13) == seq!['K'],
        forall|a: u8, b: u8| a <= 13 && b <= 13 && #[trigger] rank_name(a) == #[trigger] rank_name(b) ==> a == b,
{
    assert forall|r: u8| 2 <= r <= 10 implies #[trigger] rank_name(r) == crate::text::decimal(r as nat) by {
        if r == 10 {
            assert(crate::text::decimal(1) == seq!['1']);
            assert(crate::text::decimal(10) =~= seq!['1', '0']);
        }
    }
    assert forall|a: u8, b: u8| a <= 13 && b <= 13 && #[trigger] rank_name(a) == #[trigger] rank_name(b) implies a == b by {
        if a != b {
            assert(rank_name(a).len() != rank_name(b).len() || rank_name(a)[0] != rank_name(b)[0]);
        }
    }
}

/// How cards print: the rank's name, then the suit's sign, spades (0),
/// hearts (1), clubs (2), diamonds (3); the four signs differ.
pub proof fn lemma_card_names(c: u8)
    requires
        is_card(c),
    ensures
        card_name(c).len() == rank_name(rank_of(c)).len() + 1,
        card_name(c).subrange(0, card_name(c).len() - 1) == rank_name(rank_of(c)),
        card_name(c).last() == (if suit_of(c) == 0 {
            '\u{2660}'
        } else if suit_of(c) == 1 {
            '\u{2665}'
        } else if suit_of(c) == 2 {
            '\u{2663}'
        } else {
            '\u{2666}'
        }),
{
    let n = card_name(c);
    assert(n.subrange(0, n.len() - 1) =~= rank_name(rank_of(c)));
}

fn rank_str(r: u8) -> (s: &'static str)
    requires
        r <= 13,
    ensures
        s@ == rank_name(r),
{
    if r == 0 {
        proof { reveal_strlit("?"); }
        "?"
    } else if r == 1 {
        proof { reveal_strlit("A"); }
        "A"
    } else if r == 2 {
        proof { reveal_strlit("2"); }
        "2"
    } else if r == 3 {
        proof { reveal_strlit("3"); }
        "3"
    } else if r == 4 {
        proof { reveal_strlit("4"); }
        "4"
    } else if r == 5 {
        proof { reveal_strlit("5"); }
        "5"
    } else if r == 6 {
        proof { reveal_strlit("6"); }
        "6"
    } else if r == 7 {
        proof { reveal_strlit("7"); }
        "7"
    } else if r == 8 {
        proof { reveal_strlit("8"); }
        "8"
    } else if r == 9 {
        proof { reveal_strlit("9"); }
        "9"
    } else if r == 10 {
        proof { reveal_strlit("10"); }
        "10"
    } else if r == 11 {
        proof { reveal_strlit("J"); }
        "J"
    } else if r == 12 {
        proof { reveal_strlit("Q"); }
        "Q"
    } else {
        proof { reveal_strlit("K"); }
        "K"
    }
}

fn suit_str(s: u8) -> (t: &'static str)
    requires
        s <= 3,
    ensures
        t@ == suit_name(s),
{
    if s == 0 {
        proof { reveal_strlit("\u{2660}"); }
        "\u{2660}"
    } else if s == 1 {
        proof { reveal_strlit("\u{2665}"); }
        "\u{2665}"
    } else if s == 2 {
        proof { reveal_strlit("\u{2663}"); }
        "\u{2663}"
    } else {
        proof { reveal_strlit("\u{2666}"); }
        "\u{2666}"
    }
}

/// Human-readable card, e.g. "K" followed by the spade sign, or "10" and a heart.
pub fn name(c: Card) -> (s: String)
    requires
        rank_of(c) <= 13,
        suit_of(c) <= 3,
    ensures
        s@ == card_name(c),
{
    let mut s = String::from_str(rank_str(rank(c)));
    s.append(suit_str(suit(c)));
    s
}

} // verus!
