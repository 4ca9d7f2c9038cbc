//! The search for the best move and the control of a running search.

pub mod controller;
pub mod model;
pub mod nega_scout_bot;
pub mod soundness;
pub mod table;

pub use controller::{BotState, NegaScoutBot};

use vstd::prelude::*;
use crate::game::{Game, Move};

verus! {

/// The move that a search has chosen and the score it expects, counted
/// for the side to move.
#[derive(Clone, Debug)]
pub struct SearchResult {
    pub best_move: Move,
    pub game_evaluation: i32,
}

/// A player that searches for its moves while its caller goes on.
///
/// An implementor runs the searches that a [`NegaScoutBot`] hands out and
/// brings back what they find.
pub trait Bot {
    /// Starts a search of the position; a search that runs is replaced.
    fn start_search(&mut self, game: Game, game_move: i32);

    /// What the search has come to, without waiting for it.
    fn poll(&mut self) -> &BotState;

    /// Stops the running search.
    fn stop(&mut self);

    /// Starts afresh, with an empty table.
    fn recreate(&mut self);
}

} // verus!
