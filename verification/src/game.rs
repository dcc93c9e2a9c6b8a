//! Engine selection and the error kind the engines report.

use std::collections::HashMap;

use vstd::prelude::*;

use crate::ai::{cache_ok, one_mark_added};
use crate::board::{grid, spec_full, spec_proper, Board};
use crate::player::Player;

verus! {

/// The move-selection strategies a player can be driven by.
#[derive(Debug, Clone, Copy, PartialEq, Eq, Structural)]
pub enum Engine {
    Human,
    RandomMove,
    WinningMove,
    WinningAndNotLosingMove,
    MinMax,
}

/// The failures the library reports instead of panicking.
#[derive(Debug, Clone, Copy, PartialEq, Eq, Structural)]
pub enum GameError {
    /// A move was aimed at a cell that is already occupied.
    InvalidMove,
    /// An engine was asked to move on a board with no empty cell.
    NoLegalMove,
    /// A textual move did not name a coordinate pair within the board.
    BadCoordinates,
}

impl GameError {
    /// A human-readable description of the error.
    pub fn message(&self) -> (r: &'static str)
        ensures
            *self is InvalidMove ==> r@ == "Invalid move !"@,
            *self is NoLegalMove ==> r@ == "no legal move available"@,
            *self is BadCoordinates ==> r@ == "Coordinates not included in [0..2],[0..2]"@,
    {
        match self {
            GameError::InvalidMove => "Invalid move !",
            GameError::NoLegalMove => "no legal move available",
            GameError::BadCoordinates => "Coordinates not included in [0..2],[0..2]",
        }
    }
}

/// One turn of the selected engine: the board after `active_player`'s move,
/// or the no-legal-move error on a full board. The human engine reads its
/// move from the outside world and is dispatched there, not here.
pub fn play_move(
    board: &Board,
    active_player: &Player,
    engine: &Engine,
    cache: &mut HashMap<u64, i8>,
) -> (r: Result<Board, GameError>)
    requires
        !(*engine is Human),
        *engine is MinMax ==> spec_proper(grid(*board)) && cache_ok(old(cache)@),
    ensures
        r is Ok <==> !spec_full(grid(*board)),
        r matches Ok(nb) ==> one_mark_added(grid(*board), grid(nb), *active_player),
        r matches Err(e) ==> e == GameError::NoLegalMove,
        *engine is MinMax ==> cache_ok(final(cache)@) && old(cache)@.submap_of(final(cache)@),
        !(*engine is MinMax) ==> final(cache)@ == old(cache)@,
{
    match engine {
        Engine::Human => vstd::pervasive::unreached(),
        Engine::RandomMove => crate::ai::random_ai(board, active_player),
        Engine::WinningMove => crate::ai::finds_winning_moves_ai(board, active_player),
        Engine::WinningAndNotLosingMove => crate::ai::finds_winning_and_not_losing_moves_ai(
            board,
            active_player,
        ),
        Engine::MinMax => crate::ai::minimax_algo_ai(board, active_player, cache),
    }
}

/// The player whose turn comes after `active_player`'s.
pub fn switch_player(active_player: &Player) -> (r: Player)
    ensures
        r == crate::player::spec_opponent(*active_player),
{
    match active_player {
        Player::PlayerX => Player::PlayerO,
        Player::PlayerO => Player::PlayerX,
    }
}

} // verus!
