use std::sync::atomic::AtomicBool;

use spider_core::advisor::plan_wins;
use spider_core::board::{Board, Move};
use spider_core::card::{fits_suits, make_card};
use spider_core::dfs;
use spider_core::solver::{
    generate, ConfigReport, Quality, Solver, DEFAULT_FD_WEIGHT, DEFAULT_PORTFOLIO, DEFAULT_WEIGHT,
};

/// Replay `moves` on `board`, checking that each one is listed as legal, and
/// say whether the game ends won.
fn replays_to_a_win(board: &Board, moves: &[Move]) -> bool {
    let mut b = board.clone();
    for &m in moves {
        let mut legal = Vec::new();
        b.gen_moves(&mut legal);
        if !legal.contains(&m) {
            return false;
        }
        b.make(m);
    }
    b.is_won()
}

#[test]
fn solve_finds_a_short_win_on_a_one_suit_deal() {
    let board = Board::deal(1, 42);
    let r = Solver::solve(&board, 2_000_000, DEFAULT_WEIGHT, DEFAULT_FD_WEIGHT);
    let moves = r.moves.expect("a one-suit deal is solved");
    assert!(!r.hit_limit);
    assert!(!r.from_fallback);
    assert!(r.winning_config.is_none());
    assert!(replays_to_a_win(&board, &moves));
    assert!(moves.len() < 400, "A* returns a short line, got {}", moves.len());
}

#[test]
fn solve_reports_the_node_limit() {
    let board = Board::deal(4, 3);
    let r = Solver::solve(&board, 5, DEFAULT_WEIGHT, DEFAULT_FD_WEIGHT);
    assert!(r.moves.is_none());
    assert!(r.hit_limit);
    assert!(!r.converged);
    assert!(r.nodes <= 12);
}

#[test]
fn portfolio_takes_the_first_solution_and_tallies_nodes() {
    let board = Board::deal(1, 42);
    let never = AtomicBool::new(false);
    let (w, fdw) = DEFAULT_PORTFOLIO[0];
    let solved = Solver::search_config(&board, 2_000_000, w, fdw, &never);
    assert_eq!(solved.config, (w, fdw));
    let line = solved.moves.clone().expect("a one-suit deal is solved");
    let reports = vec![
        ConfigReport { config: (3, 4), moves: None, converged: false, nodes: 7 },
        solved,
        ConfigReport { config: (3, 2), moves: None, converged: false, nodes: 5 },
    ];
    let nodes: u64 = reports.iter().map(|r| r.nodes).sum();
    let r = Solver::finish_portfolio(&board, 2_000_000, reports);
    assert_eq!(r.moves, Some(line));
    assert_eq!(r.winning_config, Some((w, fdw)));
    assert_eq!(r.nodes, nodes);
    assert!(!r.from_fallback);
    assert!(!r.hit_limit);
}

#[test]
fn a_stopped_search_gives_up() {
    let board = Board::deal(4, 3);
    let stop = AtomicBool::new(true);
    let r = Solver::search_config(&board, 2_000_000, 2, 4, &stop);
    assert!(r.moves.is_none());
    assert!(!r.converged);
}

#[test]
fn portfolio_without_a_solution_falls_back_to_depth_first() {
    let board = Board::deal(1, 42);
    let reports = vec![ConfigReport { config: (2, 4), moves: None, converged: false, nodes: 3 }];
    let r = Solver::finish_portfolio(&board, 100_000, reports);
    match &r.moves {
        Some(moves) => {
            assert!(r.from_fallback);
            assert!(replays_to_a_win(&board, moves));
        }
        None => assert!(r.hit_limit),
    }
    assert!(r.winning_config.is_none());
    assert!(r.nodes >= 3);
}

#[test]
fn depth_first_solver_wins_or_reports_the_limit() {
    let board = Board::deal(1, 42);
    let r = dfs::Solver::solve(&board, 500);
    match &r.moves {
        Some(moves) => {
            assert!(!r.hit_limit);
            assert!(replays_to_a_win(&board, moves));
        }
        None => assert!(r.hit_limit),
    }
    let tiny = dfs::Solver::solve(&board, 3);
    assert!(tiny.moves.is_none());
    assert!(tiny.hit_limit);
    assert_eq!(tiny.nodes, 4);
}

#[test]
fn depth_first_solver_on_a_won_board_returns_no_moves() {
    let mut board = Board::deal(1, 1);
    board.completed = 8;
    let r = dfs::Solver::solve(&board, 10);
    assert_eq!(r.moves, Some(vec![]));
    assert_eq!(r.nodes, 0);
}

#[test]
fn solve_takes_a_one_move_win() {
    let run: Vec<u8> = (2..=13u8).rev().map(|r| make_card(r, 0)).collect();
    let mut cols: Vec<(u8, Vec<u8>)> = vec![(0, Vec::new()); 10];
    cols[0] = (0, run);
    cols[1] = (0, vec![make_card(1, 0)]);
    let mut board = Board::from_parts(&cols, &[]).expect("valid");
    board.completed = 7;
    let r = Solver::solve(&board, 100, DEFAULT_WEIGHT, DEFAULT_FD_WEIGHT);
    assert_eq!(r.moves, Some(vec![Move::Tableau { from: 1, to: 0, count: 1 }]));
    assert!(!r.converged);
    assert_eq!(r.nodes, 12);
}

#[test]
fn depth_first_solver_takes_a_first_try_win() {
    let run: Vec<u8> = (2..=13u8).rev().map(|r| make_card(r, 0)).collect();
    let mut cols: Vec<(u8, Vec<u8>)> = vec![(0, Vec::new()); 10];
    cols[0] = (0, run);
    cols[1] = (0, vec![make_card(1, 0)]);
    let mut board = Board::from_parts(&cols, &[]).expect("valid");
    board.completed = 7;
    let r = dfs::Solver::solve(&board, 10);
    assert_eq!(r.moves, Some(vec![Move::Tableau { from: 1, to: 0, count: 1 }]));
    assert!(!r.hit_limit);
    assert_eq!(r.nodes, 1);
}

/// Seven runs done, a king-to-two run in column 0 and its ace in column 1.
fn one_move_from_a_win() -> Board {
    let run: Vec<u8> = (2..=13u8).rev().map(|r| make_card(r, 0)).collect();
    let mut cols: Vec<(u8, Vec<u8>)> = vec![(0, Vec::new()); 10];
    cols[0] = (0, run);
    cols[1] = (0, vec![make_card(1, 0)]);
    let mut board = Board::from_parts(&cols, &[]).expect("valid");
    board.completed = 7;
    board
}

#[test]
fn quality_labels_each_kind_of_answer() {
    let board = one_move_from_a_win();
    let found = Solver::solve(&board, 100, DEFAULT_WEIGHT, DEFAULT_FD_WEIGHT);
    assert_eq!(found.quality(), Quality::Budget);
    let none = Solver::solve(&Board::deal(4, 3), 5, DEFAULT_WEIGHT, DEFAULT_FD_WEIGHT);
    assert_eq!(none.quality(), Quality::Unsolved);
    let mut fallback = Solver::solve(&board, 100, DEFAULT_WEIGHT, DEFAULT_FD_WEIGHT);
    fallback.from_fallback = true;
    fallback.converged = true;
    assert_eq!(fallback.quality(), Quality::Fallback);
    let mut converged = Solver::solve(&board, 100, DEFAULT_WEIGHT, DEFAULT_FD_WEIGHT);
    converged.converged = true;
    assert_eq!(converged.quality(), Quality::Converged);
}

#[test]
fn plan_wins_accepts_only_a_legal_winning_line() {
    let board = one_move_from_a_win();
    assert!(plan_wins(&board, &vec![Move::Tableau { from: 1, to: 0, count: 1 }]));
    assert!(!plan_wins(&board, &vec![]));
    assert!(!plan_wins(&board, &vec![Move::Tableau { from: 0, to: 1, count: 1 }]));
    assert!(!plan_wins(&board, &vec![Move::Tableau { from: 1, to: 2, count: 1 }]));
}

#[test]
fn fits_suits_bounds_rank_and_suit() {
    assert!(fits_suits(1, 0, 1));
    assert!(fits_suits(13, 3, 4));
    assert!(!fits_suits(0, 0, 4));
    assert!(!fits_suits(14, 0, 4));
    assert!(!fits_suits(5, 2, 2));
}

/// Follow the depth-first solver's first choices from `board` while they
/// reach new boards; the line if it wins.
fn first_choices(board: &Board, limit: usize) -> Option<Vec<Move>> {
    let mut b = board.clone();
    let mut seen = Vec::new();
    let mut line = Vec::new();
    while !b.is_won() {
        if seen.contains(&b.hash()) || line.len() >= limit {
            return None;
        }
        seen.push(b.hash());
        let m = *generate(&b).first()?;
        b.make(m);
        line.push(m);
    }
    Some(line)
}

/// Two suits each one ace short of a full run, six runs already done.
fn two_aces_from_a_win() -> Board {
    let spades: Vec<u8> = (2..=13u8).rev().map(|r| make_card(r, 0)).collect();
    let hearts: Vec<u8> = (2..=13u8).rev().map(|r| make_card(r, 1)).collect();
    let mut cols: Vec<(u8, Vec<u8>)> = vec![(0, Vec::new()); 10];
    cols[0] = (0, spades);
    cols[1] = (0, vec![make_card(1, 0)]);
    cols[2] = (0, hearts);
    cols[3] = (0, vec![make_card(1, 1)]);
    let mut board = Board::from_parts(&cols, &[]).expect("valid");
    board.completed = 6;
    board
}

#[test]
fn depth_first_solver_follows_winning_first_choices() {
    let board = two_aces_from_a_win();
    let line = first_choices(&board, 20).expect("the first choices win");
    assert!(line.len() >= 2);
    let r = dfs::Solver::solve(&board, 100);
    assert_eq!(r.moves, Some(line.clone()));
    assert_eq!(r.nodes as usize, line.len());
}

#[test]
fn portfolio_fallback_follows_winning_first_choices() {
    let board = two_aces_from_a_win();
    let line = first_choices(&board, 20).expect("the first choices win");
    let reports = vec![
        ConfigReport { config: (2, 4), moves: None, converged: false, nodes: 9 },
        ConfigReport { config: (1, 4), moves: None, converged: false, nodes: 4 },
    ];
    let r = Solver::finish_portfolio(&board, 100, reports);
    assert_eq!(r.moves, Some(line.clone()));
    assert!(r.from_fallback);
    assert_eq!(r.nodes as usize, 13 + line.len());
}

#[test]
fn depth_first_solver_exhausts_a_dead_position() {
    // Ten lone kings, nothing in the stock: no move exists, so no solution
    // exists, and the search says so without hitting its budget.
    let cols: Vec<(u8, Vec<u8>)> = vec![(0, vec![make_card(13, 0)]); 10];
    let board = Board::from_parts(&cols, &[]).expect("valid");
    let mut listed = Vec::new();
    board.gen_moves(&mut listed);
    assert!(listed.is_empty());
    let r = dfs::Solver::solve(&board, 1000);
    assert!(r.moves.is_none());
    assert!(!r.hit_limit);
    assert_eq!(r.nodes, 1);
}
