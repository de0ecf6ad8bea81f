//! Exact solver for a tic-tac-toe variant with a sliding window of live
//! pieces: each player keeps at most a fixed number of pieces on the board,
//! and placing one more evicts that player's oldest surviving piece.
//!
//! The crate models the game rules, canonicalizes board states under the
//! board's symmetry group, and solves reachable positions by retrograde
//! analysis, producing a table from canonical state to exact outcome.

pub mod board;
pub mod dict;
pub mod game;
pub mod outcome;
pub mod setting;
pub mod solver;
pub mod statemap;

pub use board::{BoardState, Take};
pub use dict::AnalysisDictionary;
pub use game::{CellView, Game, GameResult};
pub use outcome::GameAnalysis;
pub use setting::GameSetting;
pub use solver::analyze;
