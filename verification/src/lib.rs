//! Rules engine and search engine for 8x8 checkers with flying kings.
//!
//! The board is held as three 64-bit masks. Every rule is stated over a
//! mathematical board (a sequence of 64 cells) and the bit-level code is
//! proved against it.

pub mod bot;
pub mod captures;
pub mod cells;
pub mod chains;
pub mod constants;
pub mod diagonals;
pub mod game;
pub mod legal;
pub mod movegen;
pub mod moves;
pub mod position_params;
pub mod rules;
pub mod useful_functions;
