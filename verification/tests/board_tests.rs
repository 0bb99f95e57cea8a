use spider_core::board::{Board, Move, COLS};
use spider_core::card::{make_card, name, rank, suit, Card, UNKNOWN};
use spider_core::rng::{Rng, SEED_MIX};

fn parse_card(tok: &str) -> Card {
    if tok == "?" {
        return UNKNOWN;
    }
    let (rank_str, suit_ch) = tok.split_at(tok.len() - 1);
    let rank = match rank_str {
        "A" => 1,
        "J" => 11,
        "Q" => 12,
        "K" => 13,
        n => n.parse().expect("rank"),
    };
    let suit = match suit_ch {
        "s" => 0,
        "h" => 1,
        "c" => 2,
        "d" => 3,
        _ => panic!("suit"),
    };
    make_card(rank, suit)
}

fn cards(s: &str) -> Vec<Card> {
    s.split_whitespace().map(parse_card).collect()
}

fn same_board(a: &Board, b: &Board) -> bool {
    a.cols == b.cols && a.face_down == b.face_down && a.stock == b.stock && a.completed == b.completed
}

/// Four runs, one empty column and six kings.
fn small_board() -> Board {
    let cols: Vec<(u8, Vec<Card>)> = vec![
        (0, cards("5h 4h")),
        (0, cards("6s")),
        (0, cards("")),
        (0, cards("5c")),
        (0, cards("Kd")),
        (0, cards("Kd")),
        (0, cards("Kd")),
        (0, cards("Kd")),
        (0, cards("Kd")),
        (0, cards("Kd")),
    ];
    Board::from_parts(&cols, &[]).expect("valid board")
}

#[test]
fn card_packing_round_trips() {
    let c = make_card(12, 3);
    assert_eq!(c, 0x3C);
    assert_eq!(rank(c), 12);
    assert_eq!(suit(c), 3);
    assert_eq!(rank(UNKNOWN), 0);
}

#[test]
fn card_names() {
    assert_eq!(name(make_card(13, 0)), "K\u{2660}");
    assert_eq!(name(make_card(10, 1)), "10\u{2665}");
    assert_eq!(name(make_card(1, 2)), "A\u{2663}");
    assert_eq!(name(make_card(7, 3)), "7\u{2666}");
    assert_eq!(name(UNKNOWN), "?\u{2660}");
}

#[test]
fn rng_matches_xorshift64_star() {
    let mut x: u64 = 5 ^ 0x9E37_79B9_7F4A_7C15;
    let mut rng = Rng::new(5);
    for _ in 0..4 {
        x ^= x >> 12;
        x ^= x << 25;
        x ^= x >> 27;
        assert_eq!(rng.next_u64(), x.wrapping_mul(0x2545_F491_4F6C_DD1D));
    }
    let v = Rng::new(9).below(7);
    assert!(v < 7);
}

#[test]
fn shuffle_permutes_and_is_reproducible() {
    let unshuffled: Vec<u32> = (0..52).collect();
    let mut a = unshuffled.clone();
    let mut b = unshuffled.clone();
    Rng::new(3).shuffle(&mut a);
    Rng::new(3).shuffle(&mut b);
    assert_eq!(a, b, "same seed, same order");
    assert_ne!(a, unshuffled, "a shuffle of 52 items moves something");
    let mut sorted = a.clone();
    sorted.sort();
    assert_eq!(sorted, unshuffled, "a shuffle keeps every item");
}

#[test]
fn deal_lays_out_a_fresh_game() {
    let b = Board::deal(4, 7);
    assert_eq!(b.face_down, [5, 5, 5, 5, 4, 4, 4, 4, 4, 4]);
    for c in 0..COLS {
        assert_eq!(b.cols[c].len(), if c < 4 { 6 } else { 5 });
    }
    assert_eq!(b.stock.len(), 50);
    assert_eq!(b.completed, 0);
    // Two copies of each of the 52 cards.
    let mut all: Vec<Card> = b.cols.iter().flatten().copied().collect();
    all.extend(&b.stock);
    for s in 0..4u8 {
        for r in 1..=13u8 {
            assert_eq!(all.iter().filter(|&&c| c == make_card(r, s)).count(), 2);
        }
    }
    // One suit: eight copies of each rank of spades.
    let one = Board::deal(1, 7);
    let mut all: Vec<Card> = one.cols.iter().flatten().copied().collect();
    all.extend(&one.stock);
    for r in 1..=13u8 {
        assert_eq!(all.iter().filter(|&&c| c == make_card(r, 0)).count(), 8);
    }
}

#[test]
fn deal_is_reproducible() {
    assert!(same_board(&Board::deal(2, 11), &Board::deal(2, 11)));
    assert!(!same_board(&Board::deal(2, 11), &Board::deal(2, 12)));
}

#[test]
fn gen_moves_lists_runs_onto_one_higher_and_into_the_empty_column() {
    let b = small_board();
    let mut moves = Vec::new();
    b.gen_moves(&mut moves);
    assert_eq!(
        moves,
        vec![
            Move::Tableau { from: 0, to: 3, count: 1 },
            Move::Tableau { from: 0, to: 2, count: 1 },
            Move::Tableau { from: 0, to: 1, count: 2 },
            Move::Tableau { from: 3, to: 1, count: 1 },
        ]
    );
}

#[test]
fn deal_is_offered_only_without_empty_columns() {
    let b = Board::deal(1, 42);
    let mut moves = Vec::new();
    b.gen_moves(&mut moves);
    assert_eq!(moves.last(), Some(&Move::Deal));

    let mut with_stock = small_board();
    with_stock.stock = cards("As As As As As As As As As As");
    let mut moves = Vec::new();
    with_stock.gen_moves(&mut moves);
    assert!(!moves.contains(&Move::Deal), "an empty column blocks dealing");
}

#[test]
fn make_then_undo_restores_every_board_along_a_game() {
    let mut b = Board::deal(2, 5);
    for _ in 0..40 {
        let mut moves = Vec::new();
        b.gen_moves(&mut moves);
        if moves.is_empty() {
            break;
        }
        for &m in &moves {
            let saved = b.clone();
            let u = b.make(m);
            b.undo(&u);
            assert!(same_board(&b, &saved), "undo of {m:?} must restore the board");
        }
        b.make(moves[0]);
    }
}

#[test]
fn completing_a_run_removes_it_and_undo_puts_it_back() {
    let cols: Vec<(u8, Vec<Card>)> = vec![
        (0, cards("Ks Qs Js 10s 9s 8s 7s 6s 5s 4s 3s 2s")),
        (1, cards("? As")),
        (0, cards("Kd")),
        (0, cards("Kd")),
        (0, cards("Kd")),
        (0, cards("Kd")),
        (0, cards("Kd")),
        (0, cards("Kd")),
        (0, cards("Kd")),
        (0, cards("Kd")),
    ];
    let mut b = Board::from_parts(&cols, &[]).expect("valid board");
    let before = b.clone();
    let u = b.make(Move::Tableau { from: 1, to: 0, count: 1 });
    assert_eq!(b.completed, 1);
    assert!(b.cols[0].is_empty());
    assert_eq!(b.cols[1], vec![UNKNOWN]);
    assert_eq!(b.face_down[1], 0, "the hidden card turned up");
    assert_eq!(b.exposed_unknowns(), 1);
    assert_eq!(b.empty_columns(), 1);
    b.undo(&u);
    assert!(same_board(&b, &before));
}

#[test]
fn apply_and_is_won() {
    let mut b = small_board();
    assert!(!b.is_won());
    b.apply(Move::Tableau { from: 0, to: 1, count: 2 });
    assert_eq!(b.cols[1], cards("6s 5h 4h"));
    assert!(b.cols[0].is_empty());
    b.completed = 8;
    assert!(b.is_won());
}

#[test]
fn hash_ignores_the_order_of_columns() {
    let a = small_board();
    let mut b = small_board();
    b.cols.swap(0, 3);
    b.face_down.swap(0, 3);
    assert_eq!(a.hash(), b.hash());
    let mut c = small_board();
    c.apply(Move::Tableau { from: 3, to: 1, count: 1 });
    assert_ne!(a.hash(), c.hash());
}

#[test]
fn board_counters() {
    let b = small_board();
    assert_eq!(b.face_down_total(), 0);
    assert_eq!(b.empty_columns(), 1);
    assert_eq!(b.run_bonus(), 1);
    assert_eq!(b.exposed_unknowns(), 0);
    let d = Board::deal(1, 1);
    assert_eq!(d.face_down_total(), 44);
    assert_eq!(d.empty_columns(), 0);
}

#[test]
fn render_dumps_columns_and_stock() {
    let cols: Vec<(u8, Vec<Card>)> = vec![
        (1, cards("? Ks")),
        (0, cards("10h")),
        (0, cards("")),
        (0, cards("")),
        (0, cards("")),
        (0, cards("")),
        (0, cards("")),
        (0, cards("")),
        (0, cards("")),
        (0, cards("")),
    ];
    let b = Board::from_parts(&cols, &cards("As As As As As As As As As As")).expect("valid board");
    let expected = " 0: [] K\u{2660} \n 1: 10\u{2665} \n 2: \n 3: \n 4: \n 5: \n 6: \n 7: \n 8: \n 9: \n\
                    stock: 10 cards (1 deals left) | completed runs: 0/8\n";
    assert_eq!(b.render(), expected);
}

#[test]
fn from_visible_builds_unknown_face_down_cards() {
    let mut columns: Vec<(u8, Vec<Card>)> = Vec::new();
    for c in 0..10u8 {
        columns.push((c % 3, vec![make_card(c + 1, 1)]));
    }
    let b = Board::from_visible(&columns).expect("valid");
    assert_eq!(b.cols[2], vec![UNKNOWN, UNKNOWN, make_card(3, 1)]);
    assert_eq!(b.face_down[2], 2);
    assert!(b.stock.is_empty());
    assert_eq!(b.completed, 0);
    assert_eq!(b.face_down_total(), 9);
}

#[test]
fn from_visible_errors() {
    let three: Vec<(u8, Vec<Card>)> = vec![(0, vec![]), (0, vec![]), (0, vec![])];
    assert_eq!(Board::from_visible(&three).err(), Some("expected 10 columns, got 3".to_string()));
    let mut columns: Vec<(u8, Vec<Card>)> = vec![(0, vec![make_card(1, 0)]); 10];
    columns[2].1.push(14);
    assert_eq!(Board::from_visible(&columns).err(), Some("column 2: invalid card code 14".to_string()));
    let mut columns: Vec<(u8, Vec<Card>)> = vec![(0, vec![make_card(1, 0)]); 10];
    columns[7].1 = vec![UNKNOWN];
    assert_eq!(Board::from_visible(&columns).err(), Some("column 7: invalid card code 0".to_string()));
}

#[test]
fn from_parts_errors() {
    let ok: Vec<(u8, Vec<Card>)> = vec![(0, cards("Ks")); 10];
    assert!(Board::from_parts(&ok, &[]).is_ok());

    assert_eq!(Board::from_parts(&ok[..4], &[]).err(), Some("expected 10 columns, got 4".to_string()));

    let mut bad = ok.clone();
    bad[4] = (3, cards("? Ks"));
    assert_eq!(
        Board::from_parts(&bad, &[]).err(),
        Some("column 4: 3 face-down cards but only 2 cards".to_string())
    );

    let mut bad = ok.clone();
    bad[1].1.push(77);
    assert_eq!(Board::from_parts(&bad, &[]).err(), Some("column 1: invalid card code 77".to_string()));

    let mut bad = ok.clone();
    bad[0] = (1, cards("Ks"));
    assert_eq!(
        Board::from_parts(&bad, &[]).err(),
        Some("column 0: every card is face down but the top one is known".to_string())
    );

    assert_eq!(Board::from_parts(&ok, &[14]).err(), Some("stock: invalid card code 14".to_string()));
    assert_eq!(
        Board::from_parts(&ok, &cards("As As As As As")).err(),
        Some("stock: 5 cards is not a whole number of rows".to_string())
    );

    let mut big = ok.clone();
    big[0] = (0, vec![make_card(1, 0); 2995]);
    assert_eq!(
        Board::from_parts(&big, &cards("As As As As As As As As As As")).err(),
        Some("the board holds more than 3000 cards".to_string())
    );
}

#[test]
fn hash_ignores_any_reordering_of_columns() {
    let a = Board::deal(2, 7);
    let mut b = a.clone();
    b.cols.reverse();
    b.face_down.reverse();
    b.cols.rotate_left(3);
    b.face_down.rotate_left(3);
    assert_eq!(a.hash(), b.hash());
}

#[test]
fn undoing_a_whole_game_in_reverse_restores_the_deal() {
    let start = Board::deal(2, 11);
    let mut b = start.clone();
    let mut undos = Vec::new();
    for _ in 0..60 {
        let mut moves = Vec::new();
        b.gen_moves(&mut moves);
        if moves.is_empty() {
            break;
        }
        let m = moves[moves.len() / 2];
        undos.push(b.make(m));
    }
    assert!(!undos.is_empty());
    while let Some(u) = undos.pop() {
        b.undo(&u);
    }
    assert!(same_board(&b, &start));
}

#[test]
fn rng_outputs_are_zero_only_for_the_mixing_seed() {
    let mut zero = Rng::new(SEED_MIX);
    for _ in 0..5 {
        assert_eq!(zero.next_u64(), 0);
    }
    for seed in [0u64, 1, 5, u64::MAX] {
        let mut g = Rng::new(seed);
        for _ in 0..20 {
            assert_ne!(g.next_u64(), 0);
        }
    }
}

#[test]
fn gen_moves_lists_each_move_once_with_the_deal_last() {
    let mut b = Board::deal(4, 3);
    for _ in 0..30 {
        let mut moves = Vec::new();
        b.gen_moves(&mut moves);
        if moves.is_empty() {
            break;
        }
        for (i, m) in moves.iter().enumerate() {
            assert!(!moves[i + 1..].contains(m), "{m:?} listed twice");
            if *m == Move::Deal {
                assert_eq!(i, moves.len() - 1, "the deal comes last");
            }
        }
        b.make(moves[moves.len() - 1]);
    }
}
