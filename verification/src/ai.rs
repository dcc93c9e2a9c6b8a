//! The move-selection engines: uniform-random, immediate win, immediate win
//! or block, and exhaustive minimax with a memoization cache.
//!
//! All contracts are stated over the flat cell model of `crate::board`. The
//! score of a position is the classic fixed-sign minimax value: +10 when
//! PlayerX forces a win, -10 when PlayerO does, 0 for a draw, with PlayerX
//! maximizing and PlayerO minimizing regardless of depth.

use std::collections::HashMap;

use rand::Rng;
use vstd::prelude::*;

use crate::board;
use crate::board::{
    count_empty, count_empty_upto, grid, spec_full, spec_proper, spec_winner, Board,
};
use crate::game::GameError;
use crate::player::{spec_mark, spec_opponent, Player};

verus! {

/// The board after `p` marks the empty cell at flat index `f`.
pub open spec fn child_board(s: Seq<Option<char>>, f: int, p: Player) -> Seq<Option<char>> {
    s.update(f, Some(spec_mark(p)))
}

/// The flat index of a (row, column) move.
pub open spec fn flat_of(m: (usize, usize)) -> int {
    3 * (m.0 as int) + (m.1 as int)
}

/// A move addresses a cell of the board that is still empty.
pub open spec fn valid_move(s: Seq<Option<char>>, m: (usize, usize)) -> bool {
    m.0 < 3 && m.1 < 3 && s[flat_of(m)] is None
}

/// Every move of the list addresses an empty cell of the board.
pub open spec fn valid_moves(s: Seq<Option<char>>, ms: Seq<(usize, usize)>) -> bool {
    forall|k: int| 0 <= k < ms.len() ==> valid_move(s, #[trigger] ms[k])
}

/// The result grid of an engine: the input grid with exactly one further
/// mark, placed by `p` on a cell that was empty.
pub open spec fn one_mark_added(s: Seq<Option<char>>, t: Seq<Option<char>>, p: Player) -> bool {
    exists|f: int| 0 <= f < 9 && (#[trigger] s[f]) is None && t == child_board(s, f, p)
}

/// The worst score from `p`'s point of view: the identity of `combine_score`.
pub open spec fn bottom_score(p: Player) -> int {
    match p {
        Player::PlayerX => -10,
        Player::PlayerO => 10,
    }
}

/// The better of two scores from `p`'s point of view: PlayerX maximizes,
/// PlayerO minimizes.
pub open spec fn combine_score(p: Player, a: int, b: int) -> int {
    match p {
        Player::PlayerX => if a >= b {
            a
        } else {
            b
        },
        Player::PlayerO => if a <= b {
            a
        } else {
            b
        },
    }
}

/// The minimax value of the position in which `mover` is about to move on
/// `s`: +10 when the grid is (or can be forced by PlayerX into) a PlayerX
/// win, -10 for PlayerO, 0 for a draw, each side playing optimally.
pub open spec fn spec_score(s: Seq<Option<char>>, mover: Player) -> int
    decreases count_empty(s), 10int,
{
    match spec_winner(s) {
        Some(Player::PlayerX) => 10,
        Some(Player::PlayerO) => -10,
        None => if spec_full(s) {
            0
        } else {
            spec_best_from(s, mover, 0)
        },
    }
}

/// The best score `mover` can reach on `s` using only the empty cells at
/// flat index `f` or later.
pub open spec fn spec_best_from(s: Seq<Option<char>>, mover: Player, f: int) -> int
    decreases count_empty(s), 9 - f,
    via spec_best_from_decreases
{
    if s.len() != 9 || f < 0 || f >= 9 {
        bottom_score(mover)
    } else if s[f] is None {
        combine_score(
            mover,
            spec_score(child_board(s, f, mover), spec_opponent(mover)),
            spec_best_from(s, mover, f + 1),
        )
    } else {
        spec_best_from(s, mover, f + 1)
    }
}

#[via_fn]
proof fn spec_best_from_decreases(s: Seq<Option<char>>, mover: Player, f: int) {
    if s.len() == 9 && 0 <= f < 9 && s[f] is None {
        lemma_count_empty_update(s, f, spec_mark(mover));
    }
}

/// The score of the move at flat index `f` for `p`: the value of the
/// resulting position, in which the opponent moves next.
pub open spec fn child_score(s: Seq<Option<char>>, p: Player, f: int) -> int {
    spec_score(child_board(s, f, p), spec_opponent(p))
}

/// `a` beats `b` from `p`'s point of view.
pub open spec fn strictly_better(p: Player, a: int, b: int) -> bool {
    match p {
        Player::PlayerX => a > b,
        Player::PlayerO => a < b,
    }
}

/// Marking one empty cell lowers the number of empty cells by one. The count
/// over any prefix drops by one once the prefix covers the marked cell.
proof fn lemma_count_empty_upto_update(s: Seq<Option<char>>, f: int, c: char, k: int)
    requires
        s.len() == 9,
        0 <= f < 9,
        s[f] is None,
        k <= 9,
    ensures
        count_empty_upto(s, k) == count_empty_upto(s.update(f, Some(c)), k) + (if f < k {
            1nat
        } else {
            0nat
        }),
    decreases k,
{
    if k > 0 {
        lemma_count_empty_upto_update(s, f, c, k - 1);
    }
}

/// Marking one empty cell lowers the number of empty cells by one.
pub proof fn lemma_count_empty_update(s: Seq<Option<char>>, f: int, c: char)
    requires
        s.len() == 9,
        0 <= f < 9,
        s[f] is None,
    ensures
        count_empty(s) == count_empty(s.update(f, Some(c))) + 1,
{
    lemma_count_empty_upto_update(s, f, c, 9);
}

/// No cell below `k` is empty exactly when the count up to `k` is zero.
proof fn lemma_count_empty_upto_zero(s: Seq<Option<char>>, k: int)
    requires
        k <= 9,
    ensures
        (count_empty_upto(s, k) == 0) <==> (forall|i: int| 0 <= i < k ==> !(#[trigger] s[i] is None)),
    decreases k,
{
    if k > 0 {
        lemma_count_empty_upto_zero(s, k - 1);
    }
}

/// A board is full exactly when it has no empty cell to count.
pub proof fn lemma_count_empty_zero(s: Seq<Option<char>>)
    ensures
        (count_empty(s) == 0) <==> spec_full(s),
{
    lemma_count_empty_upto_zero(s, 9);
}

/// Minimax scores stay within the terminal magnitudes.
pub proof fn lemma_score_bounds(s: Seq<Option<char>>, mover: Player)
    ensures
        -10 <= spec_score(s, mover) <= 10,
    decreases count_empty(s), 10int,
{
    if spec_winner(s) is None && !spec_full(s) {
        lemma_best_from_bounds(s, mover, 0);
    }
}

proof fn lemma_best_from_bounds(s: Seq<Option<char>>, mover: Player, f: int)
    ensures
        -10 <= spec_best_from(s, mover, f) <= 10,
    decreases count_empty(s), 9 - f,
{
    if s.len() == 9 && 0 <= f < 9 {
        if s[f] is None {
            lemma_count_empty_update(s, f, spec_mark(mover));
            lemma_score_bounds(child_board(s, f, mover), spec_opponent(mover));
        }
        lemma_best_from_bounds(s, mover, f + 1);
    }
}

/// The moves, in row-major order, onto the empty cells below flat index `k`.
pub open spec fn moves_upto(s: Seq<Option<char>>, k: int) -> Seq<(usize, usize)>
    decreases k,
{
    if k <= 0 {
        Seq::empty()
    } else {
        moves_upto(s, k - 1) + if s[k - 1] is None {
            seq![(((k - 1) / 3) as usize, ((k - 1) % 3) as usize)]
        } else {
            Seq::empty()
        }
    }
}

/// All legal moves of the board, in row-major order.
pub open spec fn spec_legal_moves(s: Seq<Option<char>>) -> Seq<(usize, usize)> {
    moves_upto(s, 9)
}

/// The move list below `k` is exactly the empty cells below `k`, in strictly
/// increasing flat order, one move per empty cell.
pub proof fn lemma_moves_upto_props(s: Seq<Option<char>>, k: int)
    requires
        0 <= k <= 9,
    ensures
        moves_upto(s, k).len() == count_empty_upto(s, k),
        forall|j: int|
            0 <= j < moves_upto(s, k).len() ==> valid_move(s, #[trigger] moves_upto(s, k)[j])
                && flat_of(moves_upto(s, k)[j]) < k,
        forall|j1: int, j2: int|
            0 <= j1 < j2 < moves_upto(s, k).len() ==> flat_of(#[trigger] moves_upto(s, k)[j1])
                < flat_of(#[trigger] moves_upto(s, k)[j2]),
        forall|f: int|
            0 <= f < k && (#[trigger] s[f]) is None ==> exists|j: int|
                0 <= j < moves_upto(s, k).len() && flat_of(moves_upto(s, k)[j]) == f,
    decreases k,
{
    if k > 0 {
        lemma_moves_upto_props(s, k - 1);
        board::lemma_flat_bounds(k - 1);
        let ms = moves_upto(s, k);
        let prev = moves_upto(s, k - 1);
        if s[k - 1] is None {
            assert(flat_of(ms[ms.len() - 1]) == k - 1);
        } else {
            assert(ms =~= prev);
        }
        assert forall|f: int| 0 <= f < k && (#[trigger] s[f]) is None implies exists|j: int|
            0 <= j < ms.len() && flat_of(ms[j]) == f by {
            if f < k - 1 {
                let j0 = choose|j: int|
                    0 <= j < prev.len() && flat_of(#[trigger] prev[j]) == f;
                assert(flat_of(ms[j0]) == f);
            } else {
                assert(flat_of(ms[ms.len() - 1]) == f);
            }
        }
    }
}

/// The list of the possible (row, column) moves: one for every empty cell,
/// scanning rows top to bottom and columns left to right.
pub fn find_all_legal_moves(board: &Board) -> (r: Vec<(usize, usize)>)
    ensures
        r@ == spec_legal_moves(grid(*board)),
{
    let ghost s = grid(*board);
    let mut legal_moves: Vec<(usize, usize)> = Vec::new();
    let mut y: usize = 0;
    while y < 3
        invariant
            y <= 3,
            s == grid(*board),
            legal_moves@ == moves_upto(s, 3 * y),
        decreases 3 - y,
    {
        let mut x: usize = 0;
        while x < 3
            invariant
                y < 3,
                x <= 3,
                s == grid(*board),
                legal_moves@ == moves_upto(s, 3 * y + x),
            decreases 3 - x,
        {
            proof {
                board::lemma_flat_bounds(3 * y + x);
            }
            if board::cell_at(board, y, x).is_none() {
                legal_moves.push((y, x));
            }
            x += 1;
        }
        y += 1;
    }
    legal_moves
}

/// The position of the first move in `ms` at or after position `k` whose
/// placement by `p` yields a board with a winner, if any.
pub open spec fn win_at(s: Seq<Option<char>>, ms: Seq<(usize, usize)>, p: Player, k: int) -> Option<
    int,
>
    decreases ms.len() - k,
{
    if k < 0 || k >= ms.len() {
        None
    } else if spec_winner(child_board(s, flat_of(ms[k]), p)) is Some {
        Some(k)
    } else {
        win_at(s, ms, p, k + 1)
    }
}

/// What a found winning position means: the index lies in the list and the
/// move there yields a board with a winner.
pub proof fn lemma_win_at_some(s: Seq<Option<char>>, ms: Seq<(usize, usize)>, p: Player, k0: int)
    requires
        win_at(s, ms, p, k0) is Some,
    ensures
        ({
            let k = win_at(s, ms, p, k0)->0;
            &&& k0 <= k < ms.len()
            &&& spec_winner(child_board(s, flat_of(ms[k]), p)) is Some
        }),
    decreases ms.len() - k0,
{
    if !(k0 < 0 || k0 >= ms.len()) && !(spec_winner(child_board(s, flat_of(ms[k0]), p)) is Some) {
        lemma_win_at_some(s, ms, p, k0 + 1);
    }
}

/// The first move of the list whose placement by `player` yields a board
/// with a winner, applied; `None` when no listed move wins at once.
pub fn find_a_winning_move(
    legal_moves: &Vec<(usize, usize)>,
    board: &Board,
    player: &Player,
) -> (r: Option<Board>)
    requires
        valid_moves(grid(*board), legal_moves@),
    ensures
        ({
            let w = win_at(grid(*board), legal_moves@, *player, 0);
            match r {
                Some(nb) => w is Some && grid(nb) == child_board(
                    grid(*board),
                    flat_of(legal_moves@[w->0]),
                    *player,
                ),
                None => w is None,
            }
        }),
{
    let ghost s = grid(*board);
    let mut k: usize = 0;
    while k < legal_moves.len()
        invariant
            k <= legal_moves@.len(),
            s == grid(*board),
            valid_moves(s, legal_moves@),
            win_at(s, legal_moves@, *player, 0) == win_at(s, legal_moves@, *player, k as int),
        decreases legal_moves@.len() - k,
    {
        let m = legal_moves[k];
        let new_board = match board::make_move(board, m, player) {
            Ok(b) => b,
            Err(_) => vstd::pervasive::unreached(),
        };
        if board::is_move_win(&new_board).is_some() {
            return Some(new_board);
        }
        k += 1;
    }
    None
}

/// Relies on rand::thread_rng: it hands out the calling thread's lazily
/// seeded random number generator.
#[verifier::external_body]
fn fresh_rng() -> rand::rngs::ThreadRng {
    rand::thread_rng()
}

/// The rand crate's thread-local generator, declared opaquely so values of it
/// can pass through signatures.
#[verifier::external_type_specification]
#[verifier::external_body]
pub struct ExThreadRng(rand::rngs::ThreadRng);

/// Relies on Rng::gen_range of rand: a sample from the range `0..n` lies
/// strictly below `n`; the range is nonempty, so the call does not panic.
/// Nothing is assumed about which value comes back.
#[verifier::external_body]
fn rng_below(rng: &mut rand::rngs::ThreadRng, n: usize) -> (r: usize)
    requires
        n >= 1,
    ensures
        r < n,
{
    rng.gen_range(0..n)
}

/// One of the listed moves, chosen at random, applied to the board. Which
/// move is chosen is left open; every outcome applies exactly one listed
/// move for `player`.
pub fn select_one_random_move(
    legal_moves: &Vec<(usize, usize)>,
    board: &Board,
    player: &Player,
) -> (r: Option<Board>)
    requires
        valid_moves(grid(*board), legal_moves@),
        legal_moves@.len() >= 1,
    ensures
        ({
            &&& r is Some
            &&& exists|k: int|
                0 <= k < legal_moves@.len() && grid(r->0) == child_board(
                    grid(*board),
                    flat_of(#[trigger] legal_moves@[k]),
                    *player,
                )
        }),
{
    let mut rng = fresh_rng();
    let idx = rng_below(&mut rng, legal_moves.len());
    let chosen_move = legal_moves[idx];
    let new_board = match board::make_move(board, chosen_move, player) {
        Ok(b) => b,
        Err(_) => vstd::pervasive::unreached(),
    };
    proof {
        assert(grid(new_board) == child_board(
            grid(*board),
            flat_of(legal_moves@[idx as int]),
            *player,
        ));
    }
    Some(new_board)
}

/// Legality: the grid an engine hands back differs from its input in exactly
/// one cell; that cell was empty in the input and now holds the mover's mark.
pub proof fn lemma_one_mark_added(s: Seq<Option<char>>, t: Seq<Option<char>>, p: Player)
    requires
        s.len() == 9,
        one_mark_added(s, t, p),
    ensures
        exists|f: int|
            0 <= f < 9 && (#[trigger] s[f]) is None && t[f] == Some(spec_mark(p)) && (forall|
                g: int,
            |
                0 <= g < 9 && g != f ==> #[trigger] t[g] == s[g]),
{
    let f = choose|f: int| 0 <= f < 9 && (#[trigger] s[f]) is None && t == child_board(s, f, p);
    assert(t[f] == Some(spec_mark(p)));
    assert(forall|g: int| 0 <= g < 9 && g != f ==> #[trigger] t[g] == s[g]);
}

/// One line of a winner-free board cannot become monochrome for anybody but
/// the player who places the next mark.
proof fn lemma_line_after_mark(s: Seq<Option<char>>, f: int, p: Player, a: int, b: int, c: int)
    requires
        s.len() == 9,
        0 <= f < 9,
        0 <= a < 9,
        0 <= b < 9,
        0 <= c < 9,
        s[f] is None,
        board::win_of(s, a, b, c) is None,
    ensures
        board::win_of(child_board(s, f, p), a, b, c) is None || board::win_of(
            child_board(s, f, p),
            a,
            b,
            c,
        ) == Some(p),
{
    let t = child_board(s, f, p);
    if board::win_of(t, a, b, c) is Some {
        if f != a && f != b && f != c {
            assert(t[a] == s[a] && t[b] == s[b] && t[c] == s[c]);
        } else {
            assert(t[f] == Some(spec_mark(p)));
            assert(t[a] == t[b] && t[b] == t[c]);
            assert(t[a] == Some(spec_mark(p)));
            match p {
                Player::PlayerX => assert(board::player_for('X') == Player::PlayerX),
                Player::PlayerO => assert(board::player_for('O') == Player::PlayerO),
            }
        }
    }
}

/// Win-now correctness, first half: on a board that nobody has won yet, a
/// mark placed by `p` can only crown `p` itself.
pub proof fn lemma_new_winner_is_mover(s: Seq<Option<char>>, f: int, p: Player)
    requires
        s.len() == 9,
        0 <= f < 9,
        s[f] is None,
        spec_winner(s) is None,
        spec_winner(child_board(s, f, p)) is Some,
    ensures
        spec_winner(child_board(s, f, p)) == Some(p),
{
    lemma_line_after_mark(s, f, p, 0, 1, 2);
    lemma_line_after_mark(s, f, p, 3, 4, 5);
    lemma_line_after_mark(s, f, p, 6, 7, 8);
    lemma_line_after_mark(s, f, p, 0, 3, 6);
    lemma_line_after_mark(s, f, p, 1, 4, 7);
    lemma_line_after_mark(s, f, p, 2, 5, 8);
    lemma_line_after_mark(s, f, p, 0, 4, 8);
    lemma_line_after_mark(s, f, p, 2, 4, 6);
}

/// The first immediately winning move for `player`, or - when none exists -
/// a random legal move; the no-legal-move error on a full board.
pub fn finds_winning_moves_ai(board: &Board, player: &Player) -> (r: Result<Board, GameError>)
    ensures
        r is Ok <==> !spec_full(grid(*board)),
        r matches Ok(nb) ==> one_mark_added(grid(*board), grid(nb), *player),
        r matches Err(e) ==> e == GameError::NoLegalMove,
        ({
            let s = grid(*board);
            let ms = spec_legal_moves(s);
            win_at(s, ms, *player, 0) matches Some(k) ==> (r matches Ok(nb) && grid(nb)
                == child_board(s, flat_of(ms[k]), *player))
        }),
        ({
            let s = grid(*board);
            (spec_winner(s) is None && win_at(s, spec_legal_moves(s), *player, 0) is Some) ==> (
            r matches Ok(nb) && spec_winner(grid(nb)) == Some(*player))
        }),
{
    let ghost s = grid(*board);
    proof {
        lemma_moves_upto_props(s, 9);
        lemma_count_empty_upto_zero(s, 9);
    }
    let legal_moves = find_all_legal_moves(board);

    if let Some(b) = find_a_winning_move(&legal_moves, board, player) {
        proof {
            lemma_win_at_some(s, legal_moves@, *player, 0);
            let k = win_at(s, legal_moves@, *player, 0)->0;
            let fk = flat_of(legal_moves@[k]);
            assert(valid_move(s, legal_moves@[k]));
            if spec_winner(s) is None {
                lemma_new_winner_is_mover(s, fk, *player);
            }
        }
        return Ok(b);
    }

    if legal_moves.len() == 0 {
        return Err(GameError::NoLegalMove);
    }
    let new_board = match select_one_random_move(&legal_moves, board, player) {
        Some(b) => b,
        None => return Err(GameError::NoLegalMove),
    };
    Ok(new_board)
}

/// The first move with which the opponent of `active_player` would win at
/// once, occupied by `active_player`'s own mark instead; `None` when the
/// opponent has no immediately winning move.
pub fn find_a_blocking_move(
    legal_moves: &Vec<(usize, usize)>,
    board: &Board,
    active_player: &Player,
) -> (r: Option<Board>)
    requires
        valid_moves(grid(*board), legal_moves@),
    ensures
        ({
            let s = grid(*board);
            let w = win_at(s, legal_moves@, spec_opponent(*active_player), 0);
            match r {
                Some(nb) => w is Some && grid(nb) == child_board(
                    s,
                    flat_of(legal_moves@[w->0]),
                    *active_player,
                ),
                None => w is None,
            }
        }),
{
    let ghost s = grid(*board);
    let other_player = match active_player {
        Player::PlayerX => Player::PlayerO,
        Player::PlayerO => Player::PlayerX,
    };
    let winning_move = find_a_winning_move(legal_moves, board, &other_player);
    let mut new_board = match winning_move {
        Some(b) => b,
        None => {
            return None;
        },
    };
    let ghost k = win_at(s, legal_moves@, other_player, 0)->0;
    let ghost fk = flat_of(legal_moves@[k]);
    proof {
        lemma_win_at_some(s, legal_moves@, other_player, 0);
        assert(valid_move(s, legal_moves@[k]));
        board::lemma_first_diff_single_update(s, fk, spec_mark(other_player));
    }
    let diff = match board::get_difference_between_board_and_next_board(board, &new_board) {
        Some(d) => d,
        None => vstd::pervasive::unreached(),
    };
    let ((dx, dy), _old_cell) = diff;
    let mark = match active_player {
        Player::PlayerO => 'O',
        Player::PlayerX => 'X',
    };
    board::set_cell(&mut new_board, dy, dx, Some(mark));
    proof {
        assert(3 * dy + dx == fk);
        assert(grid(new_board) =~= child_board(s, fk, *active_player));
    }
    Some(new_board)
}

/// The first immediately winning move for `player`; else the block of the
/// opponent's first immediately winning move; else a random legal move; the
/// no-legal-move error on a full board.
pub fn finds_winning_and_not_losing_moves_ai(board: &Board, player: &Player) -> (r: Result<
    Board,
    GameError,
>)
    ensures
        r is Ok <==> !spec_full(grid(*board)),
        r matches Ok(nb) ==> one_mark_added(grid(*board), grid(nb), *player),
        r matches Err(e) ==> e == GameError::NoLegalMove,
        ({
            let s = grid(*board);
            let ms = spec_legal_moves(s);
            win_at(s, ms, *player, 0) matches Some(k) ==> (r matches Ok(nb) && grid(nb)
                == child_board(s, flat_of(ms[k]), *player))
        }),
        ({
            let s = grid(*board);
            (spec_winner(s) is None && win_at(s, spec_legal_moves(s), *player, 0) is Some) ==> (
            r matches Ok(nb) && spec_winner(grid(nb)) == Some(*player))
        }),
        ({
            let s = grid(*board);
            let ms = spec_legal_moves(s);
            win_at(s, ms, *player, 0) is None ==> (win_at(s, ms, spec_opponent(*player), 0)
                matches Some(k) ==> (r matches Ok(nb) && grid(nb) == child_board(
                s,
                flat_of(ms[k]),
                *player,
            )))
        }),
{
    let ghost s = grid(*board);
    proof {
        lemma_moves_upto_props(s, 9);
        lemma_count_empty_upto_zero(s, 9);
    }
    let legal_moves = find_all_legal_moves(board);

    if let Some(b) = find_a_winning_move(&legal_moves, board, player) {
        proof {
            lemma_win_at_some(s, legal_moves@, *player, 0);
            let k = win_at(s, legal_moves@, *player, 0)->0;
            let fk = flat_of(legal_moves@[k]);
            assert(valid_move(s, legal_moves@[k]));
            if spec_winner(s) is None {
                lemma_new_winner_is_mover(s, fk, *player);
            }
        }
        return Ok(b);
    }

    if let Some(b) = find_a_blocking_move(&legal_moves, board, player) {
        proof {
            lemma_win_at_some(s, legal_moves@, spec_opponent(*player), 0);
            let k = win_at(s, legal_moves@, spec_opponent(*player), 0)->0;
            assert(valid_move(s, legal_moves@[k]));
        }
        return Ok(b);
    }

    if legal_moves.len() == 0 {
        return Err(GameError::NoLegalMove);
    }
    let new_board = match select_one_random_move(&legal_moves, board, player) {
        Some(b) => b,
        None => return Err(GameError::NoLegalMove),
    };
    Ok(new_board)
}

/// A random legal move for `player`, or the no-legal-move error on a full
/// board.
pub fn random_ai(board: &Board, player: &Player) -> (r: Result<Board, GameError>)
    ensures
        r is Ok <==> !spec_full(grid(*board)),
        r matches Ok(nb) ==> one_mark_added(grid(*board), grid(nb), *player),
        r matches Err(e) ==> e == GameError::NoLegalMove,
{
    let ghost s = grid(*board);
    proof {
        lemma_moves_upto_props(s, 9);
        lemma_count_empty_zero(s);
    }
    let legal_moves = find_all_legal_moves(board);
    if legal_moves.len() == 0 {
        return Err(GameError::NoLegalMove);
    }
    let new_board = match select_one_random_move(&legal_moves, board, player) {
        Some(b) => b,
        None => return Err(GameError::NoLegalMove),
    };
    Ok(new_board)
}

/// The score of a finished board: +10 for a PlayerX win, -10 for a PlayerO
/// win, 0 for a full board without a winner; `None` while play can go on.
pub open spec fn spec_terminal_score(s: Seq<Option<char>>) -> Option<int> {
    match spec_winner(s) {
        Some(Player::PlayerX) => Some(10),
        Some(Player::PlayerO) => Some(-10),
        None => if spec_full(s) {
            Some(0)
        } else {
            None
        },
    }
}

/// The score of the board if it is a victory or a draw, `None` otherwise.
/// On a finished board the score is independent of whose turn it would be.
pub fn minimax_score_win_or_draw(board: &Board) -> (r: Option<i8>)
    ensures
        match r {
            Some(v) => spec_terminal_score(grid(*board)) == Some(v as int),
            None => spec_terminal_score(grid(*board)) is None,
        },
{
    if let Some(player) = board::is_move_win(board) {
        if player == Player::PlayerX {
            return Some(10);
        } else {
            return Some(-10);
        }
    } else if board::is_board_full(board) {
        return Some(0);
    }
    None
}

/// Terminal scores: a board already won by PlayerX scores +10 and one won by
/// PlayerO scores -10, whatever cells are still empty and whoever would
/// move; a full board without a winner scores 0.
pub proof fn lemma_terminal_scores(s: Seq<Option<char>>, mover: Player)
    ensures
        spec_winner(s) == Some(Player::PlayerX) ==> spec_score(s, mover) == 10,
        spec_winner(s) == Some(Player::PlayerO) ==> spec_score(s, mover) == -10,
        spec_winner(s) is None && spec_full(s) ==> spec_score(s, mover) == 0,
        spec_terminal_score(s) matches Some(v) ==> spec_score(s, mover) == v,
{
}

/// Four to the power of `n`: the weight of the cell at flat index `n` in the
/// cache-key encoding.
pub open spec fn pow4(n: int) -> int
    decreases n,
{
    if n <= 0 {
        1
    } else {
        4 * pow4(n - 1)
    }
}

/// The encoding digit of a cell: 0 empty, 1 a PlayerX mark, 2 a PlayerO
/// mark; 3 stands for any foreign mark, which a well-formed grid excludes.
pub open spec fn cell_digit(c: Option<char>) -> int {
    match c {
        None => 0,
        Some(ch) => if ch == 'X' {
            1
        } else if ch == 'O' {
            2
        } else {
            3
        },
    }
}

/// The base-4 encoding of the cells at flat index `f` and later.
pub open spec fn encode_from(s: Seq<Option<char>>, f: int) -> int
    decreases 9 - f,
{
    if f < 0 || f >= 9 {
        0
    } else {
        cell_digit(s[f]) + 4 * encode_from(s, f + 1)
    }
}

/// The cache key of a position: the board encoding, plus a flag for the
/// player whose mark was placed last. The key determines the position on
/// well-formed grids, so a cache hit is always the position's own score.
pub open spec fn position_key(s: Seq<Option<char>>, p: Player) -> int {
    encode_from(s, 0) + if p is PlayerX {
        0int
    } else {
        262144int
    }
}

proof fn lemma_pow4_pos(n: int)
    ensures
        pow4(n) >= 1,
    decreases (if n > 0 {
        n
    } else {
        0
    }),
{
    if n > 0 {
        lemma_pow4_pos(n - 1);
    }
}

proof fn lemma_pow4_mono(a: int, b: int)
    requires
        0 <= a <= b,
    ensures
        1 <= pow4(a) <= pow4(b),
    decreases b - a,
{
    lemma_pow4_pos(a);
    if a < b {
        lemma_pow4_mono(a, b - 1);
    }
}

/// The encoding of the cells from `f` on fits below the weight of cell `f`'s
/// position: in particular every full key is below 262144.
proof fn lemma_encode_bound(s: Seq<Option<char>>, f: int)
    ensures
        0 <= encode_from(s, f),
        encode_from(s, f) < pow4(9 - f),
        encode_from(s, f) <= 262143,
    decreases 9 - f,
{
    assert(pow4(9) == 262144) by {
        reveal_with_fuel(pow4, 10);
    }
    if f < 0 || f >= 9 {
        lemma_pow4_pos(9 - f);
    } else {
        lemma_encode_bound(s, f + 1);
        lemma_pow4_mono(9 - f, 9);
    }
}

/// Two well-formed boards with the same encoding agree on every cell.
proof fn lemma_encode_inj(s1: Seq<Option<char>>, s2: Seq<Option<char>>, f: int)
    requires
        0 <= f <= 9,
        s1.len() == 9,
        s2.len() == 9,
        spec_proper(s1),
        spec_proper(s2),
        encode_from(s1, f) == encode_from(s2, f),
    ensures
        forall|i: int| f <= i < 9 ==> s1[i] == s2[i],
    decreases 9 - f,
{
    if f < 9 {
        let d1 = cell_digit(s1[f]);
        let d2 = cell_digit(s2[f]);
        lemma_encode_bound(s1, f + 1);
        lemma_encode_bound(s2, f + 1);
        assert(0 <= d1 <= 2 && 0 <= d2 <= 2);
        assert(d1 == d2 && encode_from(s1, f + 1) == encode_from(s2, f + 1));
        assert(s1[f] == s2[f]);
        lemma_encode_inj(s1, s2, f + 1);
    }
}

/// The cache key determines the position: equal keys of well-formed boards
/// mean equal boards and the same player.
pub proof fn lemma_position_key_inj(
    s1: Seq<Option<char>>,
    p1: Player,
    s2: Seq<Option<char>>,
    p2: Player,
)
    requires
        s1.len() == 9,
        s2.len() == 9,
        spec_proper(s1),
        spec_proper(s2),
        position_key(s1, p1) == position_key(s2, p2),
    ensures
        s1 == s2,
        p1 == p2,
{
    lemma_encode_bound(s1, 0);
    lemma_encode_bound(s2, 0);
    lemma_encode_inj(s1, s2, 0);
    assert(s1 =~= s2);
}

/// A faithful memoization cache: every entry keyed like a well-formed
/// position holds that position's minimax score. The empty map qualifies.
pub open spec fn cache_ok(m: Map<u64, i8>) -> bool {
    forall|s: Seq<Option<char>>, p: Player|
        (s.len() == 9 && spec_proper(s) && #[trigger] m.dom().contains(
            (position_key(s, p) as u64),
        )) ==> m[position_key(s, p) as u64] as int == spec_score(s, spec_opponent(p))
}

/// The cache key of (board, last mover), computed cell by cell.
fn compute_key(board: &Board, player: &Player) -> (k: u64)
    requires
        spec_proper(grid(*board)),
    ensures
        k as int == position_key(grid(*board), *player),
{
    let ghost s = grid(*board);
    let mut k: u64 = 0;
    let mut f: usize = 9;
    while f > 0
        invariant
            f <= 9,
            s == grid(*board),
            spec_proper(s),
            k as int == encode_from(s, f as int),
            k <= 262143,
        decreases f,
    {
        f -= 1;
        proof {
            board::lemma_flat_bounds(f as int);
            lemma_encode_bound(s, f as int);
        }
        let c = board::cell_at(board, f / 3, f % 3);
        let d: u64 = match c {
            None => 0,
            Some(ch) => if ch == 'X' {
                1
            } else {
                2
            },
        };
        k = 4 * k + d;
    }
    match player {
        Player::PlayerX => k,
        Player::PlayerO => k + 262144,
    }
}

/// The best possible score for the position in which `player` has just
/// moved and the opponent moves next, over the whole remaining game tree.
///
/// The score is a function of the position alone: repeated calls agree, and
/// the cache - any faithful cache - only short-circuits the recursion. The
/// cache grows append-only and stays faithful.
pub fn minimax_score(board: &Board, player: &Player, cache: &mut HashMap<u64, i8>) -> (r: i8)
    requires
        spec_proper(grid(*board)),
        cache_ok(old(cache)@),
    ensures
        r as int == spec_score(grid(*board), spec_opponent(*player)),
        cache_ok(final(cache)@),
        old(cache)@.submap_of(final(cache)@),
    decreases count_empty(grid(*board)),
{
    broadcast use vstd::map_lib::lemma_submap_of_trans;

    let ghost s = grid(*board);
    let key = compute_key(board, player);
    if let Some(score) = cache.get(&key) {
        proof {
            assert(cache@.dom().contains(position_key(s, *player) as u64));
        }
        return *score;
    }

    if let Some(score) = minimax_score_win_or_draw(board) {
        let ghost pre = cache@;
        cache.insert(key, score);
        proof {
            lemma_cache_insert_ok(pre, s, *player, score);
            assert(pre.submap_of(cache@));
        }
        return score;
    }

    let opponent = crate::game::switch_player(player);
    let ghost q = spec_opponent(*player);
    let mut acc: i8 = match opponent {
        Player::PlayerX => -10,
        Player::PlayerO => 10,
    };
    proof {
        lemma_best_from_bounds(s, q, 0);
    }
    let mut f: usize = 0;
    while f < 9
        invariant
            f <= 9,
            s == grid(*board),
            spec_proper(s),
            q == spec_opponent(*player),
            opponent == q,
            spec_winner(s) is None,
            !spec_full(s),
            cache_ok(cache@),
            old(cache)@.submap_of(cache@),
            -10 <= acc <= 10,
            combine_score(q, acc as int, spec_best_from(s, q, f as int)) == spec_best_from(
                s,
                q,
                0,
            ),
        decreases 9 - f,
    {
        proof {
            board::lemma_flat_bounds(f as int);
        }
        if board::is_valid_move(board, (f / 3, f % 3)) {
            let new_board = match board::make_move(board, (f / 3, f % 3), &opponent) {
                Ok(b) => b,
                Err(_) => vstd::pervasive::unreached(),
            };
            proof {
                lemma_count_empty_update(s, f as int, spec_mark(q));
                assert(spec_proper(grid(new_board)));
                lemma_score_bounds(grid(new_board), spec_opponent(q));
            }
            let ghost pre_rec = cache@;
            let sc = minimax_score(&new_board, &opponent, cache);
            proof {
                vstd::map_lib::lemma_submap_of_trans(old(cache)@, pre_rec, cache@);
            }
            match opponent {
                Player::PlayerX => if sc > acc {
                    acc = sc;
                },
                Player::PlayerO => if sc < acc {
                    acc = sc;
                },
            }
        }
        f += 1;
    }

    let ghost pre = cache@;
    let key2 = compute_key(board, player);
    cache.insert(key2, acc);
    proof {
        assert(acc as int == spec_best_from(s, q, 0));
        lemma_cache_insert_ok(pre, s, *player, acc);
        if pre.dom().contains(position_key(s, *player) as u64) {
            assert(pre[position_key(s, *player) as u64] as int == spec_score(
                s,
                spec_opponent(*player),
            ));
        }
        assert(pre.submap_of(cache@));
        vstd::map_lib::lemma_submap_of_trans(old(cache)@, pre, cache@);
    }
    acc
}

/// Inserting a position's true score keeps a cache faithful.
proof fn lemma_cache_insert_ok(pre: Map<u64, i8>, s: Seq<Option<char>>, p: Player, v: i8)
    requires
        cache_ok(pre),
        s.len() == 9,
        spec_proper(s),
        v as int == spec_score(s, spec_opponent(p)),
    ensures
        cache_ok(pre.insert(position_key(s, p) as u64, v)),
{
    let key = position_key(s, p) as u64;
    let post = pre.insert(key, v);
    assert forall|s2: Seq<Option<char>>, p2: Player|
        (s2.len() == 9 && spec_proper(s2) && #[trigger] post.dom().contains(
            (position_key(s2, p2) as u64),
        )) implies post[position_key(s2, p2) as u64] as int == spec_score(
        s2,
        spec_opponent(p2),
    ) by {
        lemma_encode_bound(s, 0);
        lemma_encode_bound(s2, 0);
        if position_key(s2, p2) as u64 == key {
            lemma_position_key_inj(s2, p2, s, p);
        } else {
            assert(pre.dom().contains(position_key(s2, p2) as u64));
        }
    }
}

/// `f` is the first move, in row-major order, whose score equals the best
/// score `p` can reach on `s`: every earlier legal move scores strictly
/// worse for `p`.
pub open spec fn picked_first_best(s: Seq<Option<char>>, p: Player, f: int) -> bool {
    &&& 0 <= f < 9
    &&& s[f] is None
    &&& child_score(s, p, f) == spec_best_from(s, p, 0)
    &&& forall|g: int|
        0 <= g < f && (#[trigger] s[g]) is None ==> strictly_better(
            p,
            spec_best_from(s, p, 0),
            child_score(s, p, g),
        )
}

/// The best continuation for `player` under exhaustive minimax search: every
/// legal move is scored and the first best-scoring one is played. The cache
/// speeds the search and stays faithful. On a full board, the no-legal-move
/// error.
pub fn minimax_algo_ai(board: &Board, player: &Player, cache: &mut HashMap<u64, i8>) -> (r: Result<
    Board,
    GameError,
>)
    requires
        spec_proper(grid(*board)),
        cache_ok(old(cache)@),
    ensures
        cache_ok(final(cache)@),
        old(cache)@.submap_of(final(cache)@),
        r is Ok <==> !spec_full(grid(*board)),
        r matches Err(e) ==> e == GameError::NoLegalMove,
        r matches Ok(nb) ==> one_mark_added(grid(*board), grid(nb), *player) && spec_proper(
            grid(nb),
        ),
        r matches Ok(nb) ==> exists|f: int|
            #[trigger] picked_first_best(grid(*board), *player, f) && grid(nb) == child_board(
                grid(*board),
                f,
                *player,
            ),
        ({
            let s = grid(*board);
            (spec_winner(s) is None && !spec_full(s)) ==> (r matches Ok(nb) && spec_score(
                grid(nb),
                spec_opponent(*player),
            ) == spec_score(s, *player))
        }),
{
    broadcast use vstd::map_lib::lemma_submap_of_trans;

    let ghost s = grid(*board);
    let mut best_board: Board = board::duplicate_board(board);
    let mut best_score: i8 = 0;
    let mut found = false;
    let ghost mut best_f: int = 0;
    let mut f: usize = 0;
    while f < 9
        invariant
            f <= 9,
            s == grid(*board),
            spec_proper(s),
            cache_ok(cache@),
            old(cache)@.submap_of(cache@),
            !found ==> forall|g: int| 0 <= g < f ==> !((#[trigger] s[g]) is None),
            !found ==> spec_best_from(s, *player, f as int) == spec_best_from(s, *player, 0),
            found ==> {
                &&& 0 <= best_f < f
                &&& s[best_f] is None
                &&& grid(best_board) == child_board(s, best_f, *player)
                &&& best_score as int == child_score(s, *player, best_f)
                &&& -10 <= best_score <= 10
                &&& combine_score(
                    *player,
                    best_score as int,
                    spec_best_from(s, *player, f as int),
                ) == spec_best_from(s, *player, 0)
                &&& forall|g: int|
                    0 <= g < f && (#[trigger] s[g]) is None ==> !strictly_better(
                        *player,
                        child_score(s, *player, g),
                        best_score as int,
                    )
                &&& forall|g: int|
                    0 <= g < best_f && (#[trigger] s[g]) is None ==> strictly_better(
                        *player,
                        best_score as int,
                        child_score(s, *player, g),
                    )
            },
        decreases 9 - f,
    {
        proof {
            board::lemma_flat_bounds(f as int);
        }
        if board::is_valid_move(board, (f / 3, f % 3)) {
            let new_board = match board::make_move(board, (f / 3, f % 3), player) {
                Ok(b) => b,
                Err(_) => vstd::pervasive::unreached(),
            };
            proof {
                lemma_count_empty_update(s, f as int, spec_mark(*player));
                assert(spec_proper(grid(new_board)));
                lemma_score_bounds(grid(new_board), spec_opponent(*player));
            }
            let ghost pre_rec = cache@;
            let sc = minimax_score(&new_board, player, cache);
            proof {
                vstd::map_lib::lemma_submap_of_trans(old(cache)@, pre_rec, cache@);
            }
            let improves = match player {
                Player::PlayerX => sc > best_score,
                Player::PlayerO => sc < best_score,
            };
            if !found || improves {
                best_board = new_board;
                best_score = sc;
                found = true;
                proof {
                    best_f = f as int;
                }
            }
        }
        f += 1;
    }

    if !found {
        proof {
            lemma_count_empty_upto_zero(s, 9);
        }
        return Err(GameError::NoLegalMove);
    }
    proof {
        assert(best_score as int == spec_best_from(s, *player, 0));
        assert(picked_first_best(s, *player, best_f));
        assert(grid(best_board) == child_board(s, best_f, *player));
    }
    Ok(best_board)
}

} // verus!
