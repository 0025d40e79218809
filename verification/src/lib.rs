//! A solver for match-3 tile puzzles.
//!
//! A board is a rectangular grid of cells: `0` is an empty cell, a value in
//! `1..=10` is a colored, movable tile, and a negative value is an immovable
//! blocker.  The solver looks for a sequence of adjacent swaps that clears
//! every tile from the board, where each swap must create a run of at least
//! three equal tiles in a row or column, and each match is removed and the
//! remaining tiles fall before the next swap.
//!
//! The solver's answer is exact in both directions: a returned sequence
//! provably plays out to a cleared board (`search::play_solves`), and a
//! refusal provably means that no sequence of adjacent swaps can clear the
//! board (`search::no_engine_solution`, `search::lemma_no_adjacent_solution`).

pub mod board;
pub mod cascade;
pub mod counting;
pub mod goal;
pub mod matching;
pub mod search;

pub use board::GameBoard;
pub use board::Swap;
pub use cascade::calculate_gravity;
pub use cascade::recalculate_board;
pub use cascade::remove_given_blocks;
pub use goal::check_for_loss;
pub use goal::check_for_win;
pub use matching::check_if_blocks_removed;
pub use matching::check_what_blocks_to_remove;
pub use search::check_if_valid_move;
pub use search::execute_move;
pub use search::solve;
pub use search::solve_board;
