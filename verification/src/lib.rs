//! Spider Solitaire engine: cards, board rules, and solvers.
use vstd::prelude::*;

pub mod card;
pub mod board;
pub mod rng;
pub mod search;
pub mod solver;
pub mod advisor;
pub mod bfs;
pub mod deep;
pub mod simplify;
pub mod dfs;
pub mod text;
pub mod setup;

verus! {
}
