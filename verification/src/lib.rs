pub mod console_log_box;
pub mod game_cell;
pub mod grid_cell;
pub mod layout;
pub mod line;
pub mod move_engine;
pub mod score;
pub mod turns_history;

use vstd::prelude::*;

verus! {

/// Lifecycle of one game. A game starts in `GameInitialized`, enters `InGame`
/// when a new game is started, and ends in `GameOver` (board stuck) or
/// `GameWon` (a cell reached the winning value) until the next new game.
#[derive(Clone, Copy, Debug, PartialEq, Eq, Structural)]
pub enum GameState {
    GameOver,
    GameWon,
    InGame,
    GameInitialized,
}

/// One of the four directions a move can slide the tiles in.
#[derive(Clone, Copy, Debug, PartialEq, Eq, Structural)]
pub enum Direction {
    Left,
    Right,
    Down,
    Up,
}

} // verus!
