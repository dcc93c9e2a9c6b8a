//! The cache-key derivation the orchestrating caller may use: a position is
//! serialized to ten bytes and hashed with std's default hasher.
//!
//! The minimax search in `crate::ai` keys its own cache with an exact,
//! collision-free encoding instead; this module offers a hashed key to
//! callers that want one.

use std::collections::hash_map::DefaultHasher;
use std::hash::Hasher;

use vstd::prelude::*;
use vstd::std_specs::hash::DefaultHasherAdditionalSpecFns;

use crate::board::{grid, spec_proper, Board};
use crate::player::Player;

verus! {

/// The byte standing for a cell: the mark's ASCII code, or 0 when empty.
pub open spec fn byte_of_cell(c: Option<char>) -> u8 {
    match c {
        Some(ch) => if ch == 'X' {
            88
        } else {
            79
        },
        None => 0,
    }
}

/// The byte standing for a player: the ASCII code of the player's mark.
pub open spec fn byte_of_player(p: Player) -> u8 {
    match p {
        Player::PlayerX => 88,
        Player::PlayerO => 79,
    }
}

/// The serialized form of a position: its nine cell bytes in row-major
/// order, then the player byte.
pub open spec fn spec_position_bytes(s: Seq<Option<char>>, p: Player) -> Seq<u8> {
    Seq::new(9, |i: int| byte_of_cell(s[i])).push(byte_of_player(p))
}

/// A board paired with a player: the unit the cache key is derived from.
#[derive(Debug, Clone, Copy)]
pub struct Position {
    pub board: Board,
    pub player: Player,
}

impl Position {
    /// The serialized form of the position, per `spec_position_bytes`.
    pub fn bytes(&self) -> (r: Vec<u8>)
        requires
            spec_proper(grid(self.board)),
        ensures
            r@ == spec_position_bytes(grid(self.board), self.player),
    {
        let ghost s = grid(self.board);
        let mut b: Vec<u8> = Vec::new();
        let mut f: usize = 0;
        while f < 9
            invariant
                f <= 9,
                s == grid(self.board),
                spec_proper(s),
                b@.len() == f,
                forall|i: int| 0 <= i < f ==> b@[i] == byte_of_cell(s[i]),
            decreases 9 - f,
        {
            proof {
                crate::board::lemma_flat_bounds(f as int);
            }
            match crate::board::cell_at(&self.board, f / 3, f % 3) {
                Some(ch) => {
                    if ch == 'X' {
                        b.push(88);
                    } else {
                        b.push(79);
                    }
                },
                None => b.push(0),
            }
            f += 1;
        }
        match self.player {
            Player::PlayerX => b.push(88),
            Player::PlayerO => b.push(79),
        }
        proof {
            assert(b@ =~= spec_position_bytes(s, self.player));
        }
        b
    }
}

/// The cache key std's default hasher derives from the serialized position.
pub open spec fn spec_cache_key(s: Seq<Option<char>>, p: Player) -> u64 {
    DefaultHasher::spec_finish(seq![spec_position_bytes(s, p)])
}

/// The cache key of (board, player): the default hash of the position's ten
/// serialized bytes, written in one stroke.
pub fn compute_cache(board: &Board, player: &Player) -> (r: u64)
    requires
        spec_proper(grid(*board)),
    ensures
        r == spec_cache_key(grid(*board), *player),
{
    let mut hasher = DefaultHasher::new();
    let s = Position { board: *board, player: *player };
    let b = s.bytes();
    hasher.write(b.as_slice());
    proof {
        assert(hasher@ =~= seq![spec_position_bytes(grid(*board), *player)]);
    }
    hasher.finish()
}

} // verus!
