//! Scores and limits shared by the rules and the search.

use vstd::prelude::*;

verus! {

/// A score no position can reach; the widest search window is `(-INFINITY, INFINITY)`.
pub const INFINITY: i32 = 1_000_000_000;

/// Base of the score of a position in which the side to move has no move.
pub const HALF_OF_INFINITY: i32 = 500_000_000;

/// Material value of a man.
pub const PAWN_COST: i32 = 1000;

/// Material value of a king.
pub const QUEEN_COST: i32 = 3000;

/// Number of quiet king moves in a row after which the game is drawn.
pub const DRAW_AFTER_QUIET_KING_MOVES: u8 = 15;

/// Number of entries at which the transposition table is thinned out.
pub const MAX_NEGA_SCOUT_HASH_MAP_SIZE: usize = 5_000_000;

/// Least remaining depth at which a search result is stored in the table.
pub const MIN_HASH_MAP_SAVE_SEARCH_DEPTH: i32 = 4;

/// Number of search calls from one checkpoint to the next. At a
/// checkpoint the search asks whether it was cancelled and thins out a
/// full table.
pub const CANCEL_CHECK_INTERVAL: u32 = 1024;

/// Extra penalty, per ply of remaining depth, for having no move.
pub const LOSS_DEPTH_PENALTY: i32 = 100_000;

/// Largest search depth the engine accepts.
pub const MAX_SEARCH_DEPTH: i32 = 4_000;

/// Largest move number the engine accepts at the root of a search.
pub const MAX_MOVE_NUMBER: i32 = 1_000_000_000;

} // verus!
