//! A verified checkers engine: a padded-array board with an incrementally
//! maintained random-table fingerprint, a legal-move generator whose output
//! is proved sound and complete (captures mandatory, capture chains maximal),
//! exactly reversible move application for in-place tree search, pluggable
//! static evaluations, and minimax search with alpha-beta pruning, a
//! transposition table, quiescence extension and iterative deepening.

use vstd::prelude::*;

pub mod ai;
pub mod board;
pub mod minimax;
pub mod movegen;
pub mod moves;
pub mod zobrist;

pub use board::{Board, Piece, Player, Square};
pub use moves::{Movement, SquareState};

verus! {

} // verus!
