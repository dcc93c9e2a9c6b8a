//! The 3x3 board: a value type, its mathematical model, and the total
//! operations the engines are built from.
//!
//! The model of a board is the flat sequence of its nine cells in row-major
//! order; cell (y, x) sits at flat index `3 * y + x`.

use vstd::array::ArrayAdditionalExecFns;
use vstd::prelude::*;
use vstd::string::StringExecFns;

use crate::game::GameError;
use crate::player::{spec_mark, Player};

verus! {

broadcast use vstd::array::group_array_axioms;

/// A 3x3 grid of cells; a cell is empty or holds a mark.
pub type Board = [[Option<char>; 3]; 3];

/// The difference between two boards: a ((x, y), old cell) pair.
pub type DiffBoard = ((usize, usize), Option<char>);

/// The flat row-major cell sequence of a board: cell (y, x) at index 3*y + x.
pub open spec fn grid(b: Board) -> Seq<Option<char>> {
    Seq::new(9, |i: int| b[i / 3][i % 3])
}

/// How many of the first `k` cells are empty.
pub open spec fn count_empty_upto(s: Seq<Option<char>>, k: int) -> nat
    decreases k,
{
    if k <= 0 {
        0
    } else {
        count_empty_upto(s, k - 1) + (if s[k - 1] is None {
            1nat
        } else {
            0nat
        })
    }
}

/// How many cells of the board are empty.
pub open spec fn count_empty(s: Seq<Option<char>>) -> nat {
    count_empty_upto(s, 9)
}

/// True iff no cell is empty.
pub open spec fn spec_full(s: Seq<Option<char>>) -> bool {
    forall|i: int| 0 <= i < 9 ==> !(#[trigger] s[i] is None)
}

/// True iff every occupied cell holds one of the two marks.
pub open spec fn spec_proper(s: Seq<Option<char>>) -> bool {
    forall|i: int|
        0 <= i < 9 ==> (#[trigger] s[i] is None || s[i] == Some('X') || s[i] == Some('O'))
}

/// The player owning a mark: 'X' belongs to PlayerX, any other mark to PlayerO.
pub open spec fn player_for(c: char) -> Player {
    if c == 'X' {
        Player::PlayerX
    } else {
        Player::PlayerO
    }
}

/// The winner a monochrome line of three cells crowns, if any.
pub open spec fn spec_line_winner(a: Option<char>, b: Option<char>, c: Option<char>) -> Option<
    Player,
> {
    if a is Some && a == b && b == c {
        Some(player_for(a->0))
    } else {
        None
    }
}

/// The winner the line through cells `a`, `b`, `c` crowns, if any.
pub open spec fn win_of(s: Seq<Option<char>>, a: int, b: int, c: int) -> Option<Player> {
    spec_line_winner(s[a], s[b], s[c])
}

/// The winner of the board: the first monochrome line in the fixed scan order
/// (rows top to bottom, then columns left to right, then the two diagonals).
pub open spec fn spec_winner(s: Seq<Option<char>>) -> Option<Player> {
    if win_of(s, 0, 1, 2) is Some {
        win_of(s, 0, 1, 2)
    } else if win_of(s, 3, 4, 5) is Some {
        win_of(s, 3, 4, 5)
    } else if win_of(s, 6, 7, 8) is Some {
        win_of(s, 6, 7, 8)
    } else if win_of(s, 0, 3, 6) is Some {
        win_of(s, 0, 3, 6)
    } else if win_of(s, 1, 4, 7) is Some {
        win_of(s, 1, 4, 7)
    } else if win_of(s, 2, 5, 8) is Some {
        win_of(s, 2, 5, 8)
    } else if win_of(s, 0, 4, 8) is Some {
        win_of(s, 0, 4, 8)
    } else if win_of(s, 2, 4, 6) is Some {
        win_of(s, 2, 4, 6)
    } else {
        None
    }
}

/// A board with every cell empty.
pub fn generate_new_board() -> (r: Board)
    ensures
        grid(r) =~= Seq::new(9, |i: int| None::<char>),
{
    let b: Board = [[None, None, None], [None, None, None], [None, None, None]];
    proof {
        assert forall|i: int| 0 <= i < 9 implies grid(b)[i] is None by {
            lemma_flat_bounds(i);
        }
    }
    b
}

/// The cell of `b` at row `y`, column `x`.
pub fn cell_at(b: &Board, y: usize, x: usize) -> (c: Option<char>)
    requires
        y < 3,
        x < 3,
    ensures
        c == grid(*b)[3 * y + x],
{
    let c = b[y][x];
    proof {
        lemma_flat_index(y as int, x as int);
    }
    c
}

/// An exact copy of the board.
pub fn duplicate_board(board: &Board) -> (r: Board)
    ensures
        grid(r) == grid(*board),
        r == *board,
{
    *board
}

/// True iff the addressed cell is still empty.
pub fn is_valid_move(board: &Board, new_move: (usize, usize)) -> (r: bool)
    requires
        new_move.0 < 3,
        new_move.1 < 3,
    ensures
        r == (grid(*board)[3 * new_move.0 + new_move.1] is None),
{
    cell_at(board, new_move.0, new_move.1).is_none()
}

/// True iff no cell of the board is empty.
pub fn is_board_full(board: &Board) -> (r: bool)
    ensures
        r == spec_full(grid(*board)),
{
    let mut y: usize = 0;
    while y < 3
        invariant
            y <= 3,
            forall|i: int| 0 <= i < 3 * y ==> !(#[trigger] grid(*board)[i] is None),
        decreases 3 - y,
    {
        let mut x: usize = 0;
        while x < 3
            invariant
                y < 3,
                x <= 3,
                forall|i: int| 0 <= i < 3 * y + x ==> !(#[trigger] grid(*board)[i] is None),
            decreases 3 - x,
        {
            if cell_at(board, y, x).is_none() {
                return false;
            }
            x += 1;
        }
        y += 1;
    }
    true
}

/// True iff every occupied cell holds one of the two marks: the grids the
/// game produces are of this shape, and the search engine expects it.
pub fn is_proper_board(board: &Board) -> (r: bool)
    ensures
        r == spec_proper(grid(*board)),
{
    let mut y: usize = 0;
    while y < 3
        invariant
            y <= 3,
            forall|i: int|
                0 <= i < 3 * y ==> (#[trigger] grid(*board)[i] is None || grid(*board)[i] == Some(
                    'X',
                ) || grid(*board)[i] == Some('O')),
        decreases 3 - y,
    {
        let mut x: usize = 0;
        while x < 3
            invariant
                y < 3,
                x <= 3,
                forall|i: int|
                    0 <= i < 3 * y + x ==> (#[trigger] grid(*board)[i] is None || grid(
                        *board,
                    )[i] == Some('X') || grid(*board)[i] == Some('O')),
            decreases 3 - x,
        {
            match cell_at(board, y, x) {
                None => {},
                Some(ch) => {
                    if ch != 'X' && ch != 'O' {
                        return false;
                    }
                },
            }
            x += 1;
        }
        y += 1;
    }
    true
}

/// Writes `c` into cell (y, x), leaving every other cell unchanged.
pub(crate) fn set_cell(b: &mut Board, y: usize, x: usize, c: Option<char>)
    requires
        y < 3,
        x < 3,
    ensures
        grid(*final(b)) =~= grid(*old(b)).update(3 * y + x, c),
{
    let mut row: [Option<char>; 3] = b[y];
    row[x] = c;
    b[y] = row;
    proof {
        let s0 = grid(*old(b));
        let s1 = grid(*b);
        assert forall|i: int| 0 <= i < 9 implies s1[i] == s0.update(3 * y + x, c)[i] by {
            lemma_flat_bounds(i);
            lemma_flat_index(y as int, x as int);
            if i == 3 * y + x {
            } else {
                assert(i / 3 != y || i % 3 != x);
            }
        }
    }
}

/// The board after `player` marks the addressed cell; an error if the cell is
/// already occupied.
pub fn make_move(board: &Board, new_move: (usize, usize), player: &Player) -> (r: Result<
    Board,
    GameError,
>)
    requires
        new_move.0 < 3,
        new_move.1 < 3,
    ensures
        ({
            let idx = 3 * new_move.0 + new_move.1;
            match r {
                Ok(nb) => grid(*board)[idx] is None && grid(nb) == grid(*board).update(
                    idx,
                    Some(spec_mark(*player)),
                ),
                Err(e) => !(grid(*board)[idx] is None) && e == GameError::InvalidMove,
            }
        }),
        r is Ok <==> grid(*board)[3 * new_move.0 + new_move.1] is None,
{
    if !is_valid_move(board, new_move) {
        return Err(GameError::InvalidMove);
    }
    let mut new_board = duplicate_board(board);
    match player {
        Player::PlayerO => set_cell(&mut new_board, new_move.0, new_move.1, Some('O')),
        Player::PlayerX => set_cell(&mut new_board, new_move.0, new_move.1, Some('X')),
    }
    Ok(new_board)
}

/// The winner of a single line, computed cell-wise.
fn line_winner(a: Option<char>, b: Option<char>, c: Option<char>) -> (r: Option<Player>)
    ensures
        r == spec_line_winner(a, b, c),
{
    match (a, b, c) {
        (Some(ca), Some(cb), Some(cc)) => {
            if ca == cb && cb == cc {
                if ca == 'X' {
                    Some(Player::PlayerX)
                } else {
                    Some(Player::PlayerO)
                }
            } else {
                None
            }
        },
        _ => None,
    }
}

/// The winner of the board, if one of its eight lines is monochrome: the first
/// such line in the fixed scan order decides.
pub fn is_move_win(board: &Board) -> (r: Option<Player>)
    ensures
        r == spec_winner(grid(*board)),
{
    let c0 = cell_at(board, 0, 0);
    let c1 = cell_at(board, 0, 1);
    let c2 = cell_at(board, 0, 2);
    let c3 = cell_at(board, 1, 0);
    let c4 = cell_at(board, 1, 1);
    let c5 = cell_at(board, 1, 2);
    let c6 = cell_at(board, 2, 0);
    let c7 = cell_at(board, 2, 1);
    let c8 = cell_at(board, 2, 2);
    if let Some(p) = line_winner(c0, c1, c2) {
        return Some(p);
    }
    if let Some(p) = line_winner(c3, c4, c5) {
        return Some(p);
    }
    if let Some(p) = line_winner(c6, c7, c8) {
        return Some(p);
    }
    if let Some(p) = line_winner(c0, c3, c6) {
        return Some(p);
    }
    if let Some(p) = line_winner(c1, c4, c7) {
        return Some(p);
    }
    if let Some(p) = line_winner(c2, c5, c8) {
        return Some(p);
    }
    if let Some(p) = line_winner(c0, c4, c8) {
        return Some(p);
    }
    if let Some(p) = line_winner(c2, c4, c6) {
        return Some(p);
    }
    None
}

/// The comparison key of a cell: its mark, or the NUL character when empty.
/// An empty cell and a cell marked NUL therefore compare equal, as they do in
/// the executable comparison.
pub open spec fn cell_key(c: Option<char>) -> char {
    match c {
        Some(ch) => ch,
        None => '\u{0}',
    }
}

/// The first flat index at or after `k` where the two boards' cell keys
/// differ, if any.
pub open spec fn first_diff_from(s1: Seq<Option<char>>, s2: Seq<Option<char>>, k: int) -> Option<
    int,
>
    decreases 9 - k,
{
    if k >= 9 {
        None
    } else if cell_key(s1[k]) != cell_key(s2[k]) {
        Some(k)
    } else {
        first_diff_from(s1, s2, k + 1)
    }
}

/// While the cell keys agree on [k, m), the first difference at or after `k`
/// is the first difference at or after `m`.
proof fn lemma_first_diff_skip(s1: Seq<Option<char>>, s2: Seq<Option<char>>, k: int, m: int)
    requires
        0 <= k <= m <= 9,
        forall|i: int| k <= i < m ==> cell_key(#[trigger] s1[i]) == cell_key(s2[i]),
    ensures
        first_diff_from(s1, s2, k) == first_diff_from(s1, s2, m),
    decreases m - k,
{
    if k < m {
        lemma_first_diff_skip(s1, s2, k + 1, m);
    }
}

/// A board and the same board with one further mark on a formerly empty cell
/// differ first - and only - at that cell.
pub proof fn lemma_first_diff_single_update(s: Seq<Option<char>>, f: int, c: char)
    requires
        s.len() == 9,
        0 <= f < 9,
        cell_key(s[f]) != c,
    ensures
        first_diff_from(s, s.update(f, Some(c)), 0) == Some(f),
{
    lemma_first_diff_skip(s, s.update(f, Some(c)), 0, f);
}

/// The first cell, in row-major scan order, where the two boards differ:
/// returned as ((x, y), old cell). Cells are compared by their keys, so an
/// empty cell equals a NUL-marked one. `None` when no cell differs.
pub fn get_difference_between_board_and_next_board(board: &Board, next_board: &Board) -> (r: Option<
    DiffBoard,
>)
    ensures
        ({
            let d = first_diff_from(grid(*board), grid(*next_board), 0);
            match r {
                Some(((x, y), c)) => d == Some(3 * y + x) && y < 3 && x < 3 && c == grid(
                    *board,
                )[3 * y + x],
                None => d is None,
            }
        }),
{
    let ghost s1 = grid(*board);
    let ghost s2 = grid(*next_board);
    let mut y: usize = 0;
    while y < 3
        invariant
            y <= 3,
            s1 == grid(*board),
            s2 == grid(*next_board),
            forall|i: int| 0 <= i < 3 * y ==> cell_key(#[trigger] s1[i]) == cell_key(s2[i]),
        decreases 3 - y,
    {
        let mut x: usize = 0;
        while x < 3
            invariant
                y < 3,
                x <= 3,
                s1 == grid(*board),
                s2 == grid(*next_board),
                forall|i: int| 0 <= i < 3 * y + x ==> cell_key(#[trigger] s1[i]) == cell_key(s2[i]),
            decreases 3 - x,
        {
            let c1 = cell_at(board, y, x);
            let c2 = cell_at(next_board, y, x);
            let k1 = match c1 {
                Some(ch) => ch,
                None => '\u{0}',
            };
            let k2 = match c2 {
                Some(ch) => ch,
                None => '\u{0}',
            };
            if k1 != k2 {
                proof {
                    lemma_first_diff_skip(s1, s2, 0, 3 * y + x);
                }
                return Some(((x, y), c1));
            }
            x += 1;
        }
        y += 1;
    }
    proof {
        lemma_first_diff_skip(s1, s2, 0, 9);
    }
    None
}

/// How a cell is drawn: its mark, or a blank when empty.
pub open spec fn show_cell(c: Option<char>) -> char {
    match c {
        Some(ch) => ch,
        None => ' ',
    }
}

/// The digit labelling row `y`.
pub open spec fn digit_char(y: int) -> char {
    if y == 0 {
        '0'
    } else if y == 1 {
        '1'
    } else {
        '2'
    }
}

/// The characters drawn for row `y` of the board.
pub open spec fn spec_render_row(s: Seq<Option<char>>, y: int) -> Seq<char> {
    seq![
        digit_char(y),
        ' ',
        show_cell(s[3 * y]),
        ' ',
        show_cell(s[3 * y + 1]),
        ' ',
        show_cell(s[3 * y + 2]),
        '\n',
    ]
}

/// The full text rendering of a board: a column header, a separator, and one
/// labelled line per row.
pub open spec fn spec_render(s: Seq<Option<char>>) -> Seq<char> {
    "  0 1 2\n"@ + " -------\n"@ + spec_render_row(s, 0) + spec_render_row(s, 1) + spec_render_row(
        s,
        2,
    )
}

/// Relies on String::push from std: it appends the given character to the end
/// of the string.
#[verifier::external_body]
fn push_char(s: &mut String, c: char)
    ensures
        final(s)@ == old(s)@.push(c),
{
    s.push(c);
}

/// Appends the rendering of row `y` to `out`.
fn append_row(out: &mut String, board: &Board, y: usize)
    requires
        y < 3,
    ensures
        final(out)@ == old(out)@ + spec_render_row(grid(*board), y as int),
{
    let digit = if y == 0 {
        '0'
    } else if y == 1 {
        '1'
    } else {
        '2'
    };
    push_char(out, digit);
    push_char(out, ' ');
    let d0 = match cell_at(board, y, 0) {
        Some(ch) => ch,
        None => ' ',
    };
    push_char(out, d0);
    push_char(out, ' ');
    let d1 = match cell_at(board, y, 1) {
        Some(ch) => ch,
        None => ' ',
    };
    push_char(out, d1);
    push_char(out, ' ');
    let d2 = match cell_at(board, y, 2) {
        Some(ch) => ch,
        None => ' ',
    };
    push_char(out, d2);
    push_char(out, '\n');
    proof {
        assert(out@ =~= old(out)@ + spec_render_row(grid(*board), y as int));
    }
}

/// The text rendering of the board, per `spec_render`. Rendering never fails;
/// the `Result` is kept for the callers' sake.
pub fn render_board(board: &Board) -> (r: Result<String, GameError>)
    ensures
        r matches Ok(out) && out@ == spec_render(grid(*board)),
{
    let mut output = "  0 1 2\n".to_owned();
    output.append(" -------\n");
    append_row(&mut output, board, 0);
    append_row(&mut output, board, 1);
    append_row(&mut output, board, 2);
    Ok(output)
}

/// For 0 <= i < 9, the row i/3 and the column i%3 are both within the board.
pub proof fn lemma_flat_bounds(i: int)
    requires
        0 <= i < 9,
    ensures
        0 <= i / 3 < 3,
        0 <= i % 3 < 3,
        i == 3 * (i / 3) + (i % 3),
{
    assert(0 <= i / 3 < 3 && 0 <= i % 3 < 3 && i == 3 * (i / 3) + (i % 3)) by (nonlinear_arith)
        requires
            0 <= i < 9,
    ;
}

/// Cell (y, x) is the flat index 3*y + x.
proof fn lemma_flat_index(y: int, x: int)
    requires
        0 <= y < 3,
        0 <= x < 3,
    ensures
        (3 * y + x) / 3 == y,
        (3 * y + x) % 3 == x,
{
    assert((3 * y + x) / 3 == y && (3 * y + x) % 3 == x) by (nonlinear_arith)
        requires
            0 <= y < 3 && 0 <= x < 3,
    ;
}

} // verus!
