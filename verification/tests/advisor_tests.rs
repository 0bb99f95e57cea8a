use spider_core::advisor::{
    easiest_unknown_column, gen_moves_toward_reveal, is_committal, plan_reveals, progress_key, reveal_move_cost,
    search_reveals, search_reveals_astar, search_reveals_counted, MAX_CONSEC_REVERSIBLE, REVEAL_ASTAR_WEIGHT, REVEAL_MOVE_COST, SUIT_BREAK_COST,
};
use spider_core::board::{Board, Move};
use spider_core::card::{make_card, Card, UNKNOWN};
use spider_core::deep::search_reveals_deep;
use spider_core::simplify::simplify_reveal_plan;
use spider_core::solver::Solver;

fn parse_card(tok: &str) -> Card {
    if tok == "?" {
        return UNKNOWN;
    }
    let (rank_str, suit_ch) = tok.split_at(tok.len() - 1);
    let rank = match rank_str {
        "A" => 1,
        "J" => 11,
        "Q" => 12,
        "K" => 13,
        n => n.parse().expect("rank"),
    };
    let suit = match suit_ch {
        "s" => 0,
        "h" => 1,
        "c" => 2,
        "d" => 3,
        _ => panic!("suit"),
    };
    make_card(rank, suit)
}

fn cards(s: &str) -> Vec<Card> {
    s.split_whitespace().map(parse_card).collect()
}

/// A real reported position: fully-known stock, tableau frozen. The only
/// columns whose next hidden card is unknown are under immovable Kings, so no
/// tableau move (or single deal) reaches an unknown: a reveal needs a couple
/// of deals plus setup moves.
fn frozen_known_stock_board() -> Board {
    let cols: Vec<(u8, Vec<Card>)> = vec![
        (5, cards("5c 6c Jd 8h Qs 10c")),
        (5, cards("? ? ? ? 6d 9h")),
        (5, cards("? ? Jd Ac 8c 3c")),
        (5, cards("? ? ? ? 2c Ac")),
        (4, cards("? ? ? ? Ks")),
        (4, cards("? ? ? ? Kc")),
        (4, cards("? ? ? 10h 3h")),
        (4, cards("9d Js Ah 9c 3d")),
        (4, cards("? ? 8s 2h 3d")),
        (4, cards("? ? 10s 4d 6h")),
    ];
    // Stock in engine order: a deal pops from the end, so reverse deal order.
    let mut stock = cards(
        "8c 5s 7s 5c 7h 4s 7s 5d Qd Kd 5h 2s 6h 9s As 4h 10d Qs Kh 6d 7d 2c 4d Ah Jc \
         As 4s Qh 2d 2s 3c 5d 5s 7c 2h 10h 6s 10s Ad 9s Qd 7h Kc Jh 9h 8d 8d 8s Ks 5h",
    );
    stock.reverse();
    Board::from_parts(&cols, &stock).expect("valid board")
}

#[test]
fn advise_builds_necessary_deals_into_a_reveal_plan() {
    let board = frozen_known_stock_board();
    assert_eq!(board.exposed_unknowns(), 0, "no unknown starts face-up");

    let advice = Solver::advise(&board, 2_000_000);

    assert!(!advice.moves.is_empty(), "expected a reveal plan, not stuck");
    assert!(advice.moves.iter().any(|m| matches!(m, Move::Deal)), "a deal must be built into the plan");
    assert!(advice.uncovers >= 1, "the plan must reveal an unknown");

    // The plan is legal, exposes exactly the promised unknown count when
    // replayed, and never wanders: no more than MAX_CONSEC_REVERSIBLE
    // reversible moves run in a row.
    let mut end = board.clone();
    let mut run = 0u32;
    for &m in &advice.moves {
        let before = progress_key(&end);
        end.make(m);
        if is_committal(before, progress_key(&end)) {
            run = 0;
        } else {
            run += 1;
            assert!(run <= MAX_CONSEC_REVERSIBLE, "plan wandered: {run} reversible moves in a row");
        }
    }
    assert_eq!(end.exposed_unknowns(), advice.uncovers);
}

#[test]
fn advise_deep_finds_a_reveal() {
    let board = frozen_known_stock_board();
    let advice = Solver::advise_deep(&board, 25_000_000, 200);

    assert!(!advice.moves.is_empty(), "deep search should find a reveal");
    assert!(advice.uncovers >= 1);
    assert!(advice.moves.len() <= 200, "deep plan too long: {}", advice.moves.len());
    assert!(plan_reveals(&board, &advice.moves));

    let mut end = board.clone();
    for &m in &advice.moves {
        end.make(m);
    }
    assert_eq!(end.exposed_unknowns(), advice.uncovers);
}

#[test]
fn deep_search_respects_the_reversible_cap() {
    // The raw depth-first search (before simplification) must never run more
    // than its `max_reversible` reversible moves in a row.
    let board = frozen_known_stock_board();
    let (found, _) = search_reveals_deep(&board, 25_000_000, 200, MAX_CONSEC_REVERSIBLE);
    let moves = found.expect("deep search should find a reveal at the loosest cap");

    let mut end = board.clone();
    let mut run = 0u32;
    for &m in &moves {
        let before = progress_key(&end);
        end.make(m);
        if is_committal(before, progress_key(&end)) {
            run = 0;
        } else {
            run += 1;
            assert!(run <= MAX_CONSEC_REVERSIBLE, "search wandered: {run} in a row");
        }
    }
}

#[test]
fn simplify_strips_a_no_op_round_trip() {
    // A card sent out and brought straight back, while the actual reveal
    // happens elsewhere, should be cut, leaving just the revealing move.
    let cols: Vec<(u8, Vec<Card>)> = vec![
        (1, cards("? 9h")),  // moving 9h off flips the hidden card -> reveal
        (0, cards("10s")),   // 9h lands here
        (0, cards("9c 8h")), // 8h can bounce to col 3 and come back onto 9c
        (0, cards("9s")),    // ...bouncing through here
        (0, cards("2s")),
        (0, cards("3s")),
        (0, cards("4s")),
        (0, cards("5s")),
        (0, cards("6s")),
        (0, cards("7s")),
    ];
    let board = Board::from_parts(&cols, &[]).expect("valid board");
    assert_eq!(board.exposed_unknowns(), 0);

    let bounce = vec![
        Move::Tableau { from: 2, to: 3, count: 1 }, // 8h out
        Move::Tableau { from: 3, to: 2, count: 1 }, // 8h back: pure no-op
        Move::Tableau { from: 0, to: 1, count: 1 }, // 9h off -> reveal
    ];
    // The bounce line is itself a legal, revealing plan...
    assert!(plan_reveals(&board, &bounce));
    // ...but the round trip is redundant, so only the reveal survives.
    assert_eq!(simplify_reveal_plan(&board, bounce), vec![Move::Tableau { from: 0, to: 1, count: 1 }],);
}

#[test]
fn astar_reveal_finds_a_short_line() {
    // The best-first reveal search should return a short, legal, revealing line.
    let board = frozen_known_stock_board();
    let (found, _) = search_reveals_astar(&board, 25_000_000, REVEAL_ASTAR_WEIGHT);
    let moves = found.expect("best-first search should find a reveal");
    assert!(moves.len() <= 20, "expected a short line, got {}", moves.len());
    assert!(plan_reveals(&board, &moves));
}

#[test]
fn reveal_move_cost_penalizes_splitting_a_suited_run() {
    // Moving 8h off a 9h-8h run (col 0) splits a suit and costs extra; moving
    // 8h off an unrelated card (col 1) does not.
    let cols: Vec<(u8, Vec<Card>)> = vec![
        (0, cards("9h 8h")), // 8h sits on same-suit 9h -> splitting it is penalized
        (0, cards("2s 8h")), // 8h sits on unrelated 2s -> no penalty
        (0, cards("10s")),
        (0, cards("10c")),
        (0, cards("3s")),
        (0, cards("4s")),
        (0, cards("5s")),
        (0, cards("6s")),
        (0, cards("7s")),
        (0, cards("Jh")),
    ];
    let board = Board::from_parts(&cols, &[]).expect("valid");
    let split = Move::Tableau { from: 0, to: 2, count: 1 }; // 8h off the 9h-8h run
    let clean = Move::Tableau { from: 1, to: 3, count: 1 }; // 8h off an unrelated card
    assert_eq!(reveal_move_cost(&board, split), REVEAL_MOVE_COST + SUIT_BREAK_COST);
    assert_eq!(reveal_move_cost(&board, clean), REVEAL_MOVE_COST);
}

#[test]
fn reveal_search_orders_digging_before_burying() {
    // With an unknown buried under 9h in col 0, the ordered move list must put
    // the move that clears col 0 (9h -> col 1) ahead of one that piles onto it
    // (8h -> col 0).
    let cols: Vec<(u8, Vec<Card>)> = vec![
        (1, cards("? 9h")), // col 0: unknown buried under 9h -> the dig target
        (0, cards("10s")),  // 9h can move here (clears col 0)
        (0, cards("8h")),   // 8h can move onto 9h (buries col 0 deeper)
        (0, cards("2s")),
        (0, cards("3s")),
        (0, cards("4s")),
        (0, cards("5s")),
        (0, cards("6s")),
        (0, cards("7s")),
        (0, cards("Ah")),
    ];
    let board = Board::from_parts(&cols, &[]).expect("valid");
    assert_eq!(easiest_unknown_column(&board), Some(0));

    let mut mv = Vec::new();
    gen_moves_toward_reveal(&board, &mut mv);
    let dig = mv.iter().position(|m| matches!(m, Move::Tableau { from: 0, to: 1, .. }));
    let bury = mv.iter().position(|m| matches!(m, Move::Tableau { from: 2, to: 0, .. }));
    assert!(dig < bury, "digging col 0 ({dig:?}) should be ordered before burying it ({bury:?})",);
}

#[test]
fn simplify_never_breaks_a_real_deep_plan() {
    // advise_deep already runs the simplifier; its output must stay a legal,
    // revealing line, and simplifying again must be a fixpoint.
    let board = frozen_known_stock_board();
    let advice = Solver::advise_deep(&board, 25_000_000, 200);
    assert!(!advice.moves.is_empty());
    assert!(plan_reveals(&board, &advice.moves));
    assert_eq!(
        simplify_reveal_plan(&board, advice.moves.clone()),
        advice.moves,
        "simplify should be idempotent: nothing left to cut",
    );
}

#[test]
fn simplify_collapses_a_run_split_through_a_temp_column() {
    // A suited pair (9h,8h) relocated to col 1 via a temp column in three
    // moves collapses to the single 2-card move that does the same thing.
    let cols: Vec<(u8, Vec<Card>)> = vec![
        (1, cards("? 9h 8h")), // moving the 9h-8h run off flips the hidden card
        (0, cards("10s")),     // the run lands here
        (0, cards("")),        // an empty temp column
        (0, cards("2s")),
        (0, cards("3s")),
        (0, cards("4s")),
        (0, cards("5s")),
        (0, cards("6s")),
        (0, cards("7s")),
        (0, cards("8s")),
    ];
    let board = Board::from_parts(&cols, &[]).expect("valid board");
    let split = vec![
        Move::Tableau { from: 0, to: 2, count: 1 }, // 8h -> temp
        Move::Tableau { from: 0, to: 1, count: 1 }, // 9h -> col1 (reveal)
        Move::Tableau { from: 2, to: 1, count: 1 }, // 8h -> col1, rejoining 9h
    ];
    assert!(plan_reveals(&board, &split));
    assert_eq!(simplify_reveal_plan(&board, split), vec![Move::Tableau { from: 0, to: 1, count: 2 }],);
}

#[test]
fn simplify_cancels_an_interleaved_round_trip() {
    // 8h is parked on col 1 and brought back later, with two unrelated reveals
    // in between. The inverse-pair cancel must strip the bounce.
    let cols: Vec<(u8, Vec<Card>)> = vec![
        (0, cards("8h")),   // bounces to col1 and back: pure waste
        (0, cards("9s")),   // ...parking on 9s
        (1, cards("? 7d")), // reveal A: 7d -> col3
        (0, cards("8c")),
        (1, cards("? 6s")), // reveal B: 6s -> col5
        (0, cards("7h")),
        (0, cards("2s")),
        (0, cards("3s")),
        (0, cards("4s")),
        (0, cards("5s")),
    ];
    let board = Board::from_parts(&cols, &[]).expect("valid board");
    let plan = vec![
        Move::Tableau { from: 0, to: 1, count: 1 }, // 8h out (waste)
        Move::Tableau { from: 2, to: 3, count: 1 }, // reveal A
        Move::Tableau { from: 4, to: 5, count: 1 }, // reveal B
        Move::Tableau { from: 1, to: 0, count: 1 }, // 8h back (waste)
    ];
    assert!(plan_reveals(&board, &plan));
    assert_eq!(
        simplify_reveal_plan(&board, plan),
        vec![Move::Tableau { from: 2, to: 3, count: 1 }, Move::Tableau { from: 4, to: 5, count: 1 },],
    );
}

#[test]
fn advise_with_unknown_stock_recommends_exactly_one_deal() {
    // Same tableau, but the stock is unknown: the deal itself is the reveal,
    // so the plan is a single Deal; it never plans past cards nobody has seen.
    let mut board = frozen_known_stock_board();
    for c in board.stock.iter_mut() {
        *c = UNKNOWN;
    }
    let advice = Solver::advise(&board, 2_000_000);
    assert_eq!(advice.moves, vec![Move::Deal]);
    assert_eq!(advice.uncovers, 10);
}

/// Col 0 hides an unknown under 9h, which can go onto 10s in col 1.
fn one_dig_board() -> Board {
    let cols: Vec<(u8, Vec<Card>)> = vec![
        (1, cards("? 9h")),
        (0, cards("10s")),
        (0, cards("8h")),
        (0, cards("2s")),
        (0, cards("3s")),
        (0, cards("4s")),
        (0, cards("5s")),
        (0, cards("6s")),
        (0, cards("7s")),
        (0, cards("Ah")),
    ];
    Board::from_parts(&cols, &[]).expect("valid")
}

#[test]
fn astar_reveal_takes_a_one_move_reveal() {
    let board = one_dig_board();
    let (found, nodes) = search_reveals_astar(&board, 1000, REVEAL_ASTAR_WEIGHT);
    assert_eq!(found, Some(vec![Move::Tableau { from: 0, to: 1, count: 1 }]));
    assert_eq!(nodes, 1);
}

#[test]
fn advise_deep_reports_a_one_move_reveal() {
    let board = one_dig_board();
    let advice = Solver::advise_deep(&board, 1000, 200);
    assert_eq!(advice.moves, vec![Move::Tableau { from: 0, to: 1, count: 1 }]);
    assert_eq!(advice.uncovers, 1);
    assert_eq!(advice.completes, 0);
    assert_eq!(advice.empties, 0);
}

#[test]
fn advise_finds_the_one_move_reveal() {
    let board = one_dig_board();
    let advice = Solver::advise(&board, 1000);
    assert_eq!(advice.moves, vec![Move::Tableau { from: 0, to: 1, count: 1 }]);
    assert_eq!(advice.uncovers, 1);
}

#[test]
fn deep_search_takes_its_first_ordered_reveal() {
    let board = one_dig_board();
    let (found, nodes) = search_reveals_deep(&board, 1000, 5, 1);
    assert_eq!(found, Some(vec![Move::Tableau { from: 0, to: 1, count: 1 }]));
    assert_eq!(nodes, 1);
}

#[test]
fn advise_with_a_face_up_unknown_always_gives_a_plan() {
    let cols: Vec<(u8, Vec<Card>)> = vec![
        (0, cards("?")),
        (0, cards("Kd")),
        (0, cards("Kd")),
        (0, cards("Kd")),
        (0, cards("Kd")),
        (0, cards("Kd")),
        (0, cards("Kd")),
        (0, cards("Kd")),
        (0, cards("Kd")),
        (0, cards("Kd")),
    ];
    let board = Board::from_parts(&cols, &[]).expect("valid");
    assert_eq!(board.exposed_unknowns(), 1);
    let advice = Solver::advise(&board, 1000);
    assert!(advice.uncovers >= 1);
}

#[test]
fn nothing_to_reveal_gives_no_plan() {
    let cols: Vec<(u8, Vec<Card>)> = vec![(0, cards("Kd")); 10];
    let board = Board::from_parts(&cols, &[]).expect("valid");
    let advice = Solver::advise(&board, 1000);
    assert!(advice.moves.is_empty());
    assert_eq!((advice.uncovers, advice.completes, advice.empties), (0, 0, 0));
    let deep = Solver::advise_deep(&board, 1000, 50);
    assert!(deep.moves.is_empty());
    assert_eq!((deep.uncovers, deep.completes, deep.empties), (0, 0, 0));
}

#[test]
fn progress_and_committal_moves() {
    let mut board = one_dig_board();
    let before = progress_key(&board);
    assert_eq!(before, (1, 0, 0, 0));
    board.make(Move::Tableau { from: 0, to: 1, count: 1 });
    let after = progress_key(&board);
    assert_eq!(after, (0, 0, 0, 0));
    assert!(is_committal(before, after), "flipping a face-down card is progress");
    assert!(!is_committal(after, after));
}

#[test]
fn search_reveals_keeps_the_plan_that_reveals_most() {
    // Two buried unknowns, each dug out by one move: the breadth-first search
    // goes on past the first reveal and returns the two-move plan that shows both.
    let cols: Vec<(u8, Vec<Card>)> = vec![
        (1, cards("? 9h")),
        (0, cards("10s")),
        (1, cards("? 9d")),
        (0, cards("10c")),
        (0, cards("Ks")),
        (0, cards("Ks")),
        (0, cards("Ks")),
        (0, cards("Ks")),
        (0, cards("Ks")),
        (0, cards("Ks")),
    ];
    let board = Board::from_parts(&cols, &[]).expect("valid");
    let advice = search_reveals(&board, 1000, false).expect("a plan");
    assert_eq!(
        advice.moves,
        vec![Move::Tableau { from: 0, to: 1, count: 1 }, Move::Tableau { from: 2, to: 3, count: 1 }],
    );
    assert_eq!((advice.uncovers, advice.completes, advice.empties), (2, 0, 0));
}

/// Follow the deep search's first choices from `board`: the first ordered move
/// each time, as long as the search would take it and dive on. Returns the
/// line if it ends in a reveal.
fn first_choice_dive(board: &Board, max_reversible: u32, depth_limit: usize) -> Option<Vec<Move>> {
    let mut b = board.clone();
    let mut seen = vec![b.hash()];
    let mut line = Vec::new();
    let mut run = 0u32;
    loop {
        let mut ordered = Vec::new();
        gen_moves_toward_reveal(&b, &mut ordered);
        let m = *ordered.first()?;
        let stock_before = b.stock.clone();
        let before = progress_key(&b);
        b.make(m);
        let committal = is_committal(before, progress_key(&b));
        if !committal && run >= max_reversible {
            return None;
        }
        line.push(m);
        if b.exposed_unknowns() > 0 {
            return Some(line);
        }
        let terminal = matches!(m, Move::Deal) && stock_before.iter().rev().take(10).any(|&c| c == UNKNOWN);
        if terminal || line.len() >= depth_limit || seen.contains(&b.hash()) {
            return None;
        }
        seen.push(b.hash());
        run = if committal { 0 } else { run + 1 };
    }
}

#[test]
fn deep_search_returns_its_first_choice_dive() {
    // Positions a few moves into a deal, as a player sees them: face-up cards
    // only, the rest unknown. Wherever following the first choices reveals,
    // the search returns that very line, having spent one node per move.
    let mut longest = 0;
    for seed in 0..30u64 {
        for warmup in 0..8usize {
            let mut played = Board::deal(2, seed);
            for i in 0..warmup {
                let mut listed = Vec::new();
                played.gen_moves(&mut listed);
                if listed.is_empty() {
                    break;
                }
                let m = listed[(i * 7 + seed as usize) % listed.len()];
                played.make(m);
            }
            let visible: Vec<(u8, Vec<Card>)> = (0..10)
                .map(|c| {
                    let fd = played.face_down[c];
                    (fd, played.cols[c][fd as usize..].to_vec())
                })
                .collect();
            let board = match Board::from_visible(&visible) {
                Ok(b) => b,
                Err(_) => continue,
            };
            if let Some(dive) = first_choice_dive(&board, 2, 50) {
                let (found, nodes) = search_reveals_deep(&board, 100_000, 50, 2);
                assert_eq!(nodes as usize, dive.len(), "seed {seed}, warmup {warmup}");
                longest = longest.max(dive.len());
                assert_eq!(found, Some(dive), "seed {seed}, warmup {warmup}");
            }
        }
    }
    assert!(longest >= 2, "some position needs more than one move to reveal");
}

#[test]
fn counted_reveal_search_reports_its_budget() {
    let cols: Vec<(u8, Vec<Card>)> = vec![
        (1, cards("? 9h")),
        (0, cards("10s")),
        (1, cards("? 9d")),
        (0, cards("10c")),
        (0, cards("Ks")),
        (0, cards("Ks")),
        (0, cards("Ks")),
        (0, cards("Ks")),
        (0, cards("Ks")),
        (0, cards("Ks")),
    ];
    let board = Board::from_parts(&cols, &[]).expect("valid");
    let (found, used) = search_reveals_counted(&board, 1000, false);
    let advice = found.expect("a plan");
    assert_eq!(
        advice.moves,
        vec![Move::Tableau { from: 0, to: 1, count: 1 }, Move::Tableau { from: 2, to: 3, count: 1 }],
    );
    assert_eq!(advice.uncovers, 2);
    assert!(used >= 1 && used <= 1000, "nodes used: {used}");

    // Nothing can be revealed: no plan, and the search ends inside its budget.
    let still: Vec<(u8, Vec<Card>)> = vec![(0, cards("Kd")); 10];
    let still = Board::from_parts(&still, &[]).expect("valid");
    let (none, used) = search_reveals_counted(&still, 1000, false);
    assert!(none.is_none());
    assert!(used <= 1000);
}

#[test]
fn counted_advisors_match_the_plain_ones() {
    let board = one_dig_board();
    let (a, used) = Solver::advise_counted(&board, 1000);
    let plain = Solver::advise(&board, 1000);
    assert_eq!(a.moves, plain.moves);
    assert_eq!((a.uncovers, a.completes, a.empties), (plain.uncovers, plain.completes, plain.empties));
    assert!(used <= 2 * 1000 + 2);

    let (d, spent) = Solver::advise_deep_counted(&board, 1000, 50);
    let plain = Solver::advise_deep(&board, 1000, 50);
    assert_eq!(d.moves, plain.moves);
    assert!(!d.moves.is_empty());
    assert!(spent <= 1000);

    let still: Vec<(u8, Vec<Card>)> = vec![(0, cards("Kd")); 10];
    let still = Board::from_parts(&still, &[]).expect("valid");
    let (d, spent) = Solver::advise_deep_counted(&still, 1000, 50);
    assert!(d.moves.is_empty());
    assert!(spent <= 1000);
}
