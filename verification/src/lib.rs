//! A verified move-selection engine for the 3x3 two-mark board game.
//!
//! The library models the board as a value type, enumerates legal moves in a
//! fixed row-major order, and offers four engines of increasing strength:
//! a uniform-random legal move, immediate-win detection, immediate-win-or-block
//! detection, and exhaustive minimax search with a memoization cache.

pub mod ai;
pub mod board;
pub mod game;
pub mod hash;
pub mod player;
