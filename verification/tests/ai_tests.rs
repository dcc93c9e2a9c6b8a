use std::collections::HashMap;

use tictactoe::ai::{
    find_a_blocking_move, find_a_winning_move, find_all_legal_moves,
    finds_winning_and_not_losing_moves_ai, finds_winning_moves_ai, minimax_algo_ai, minimax_score,
    minimax_score_win_or_draw, random_ai, select_one_random_move,
};
use tictactoe::board::Board;
use tictactoe::game::GameError;
use tictactoe::player::Player;

#[test]
fn test_random_ai() {
    let board: [[Option<char>; 3]; 3] = [
        [Some('O'), Some('X'), None],
        [None, Some('O'), None],
        [None, Some('X'), Some('X')],
    ];
    for _ in 0..33 {
        let new_board = random_ai(&board, &Player::PlayerO).unwrap();
        assert_ne!(new_board, board);
    }
}

#[test]
fn test_find_all_legal_moves() {
    let board: [[Option<char>; 3]; 3] = [
        [Some('O'), Some('X'), None],
        [None, Some('O'), None],
        [None, Some('X'), None],
    ];
    let legal_moves = find_all_legal_moves(&board);
    let expected_moves = vec![(0, 2), (1, 0), (1, 2), (2, 0), (2, 2)];
    assert_eq!(legal_moves, expected_moves);
}

#[test]
fn test_select_one_random_move() {
    let board: [[Option<char>; 3]; 3] = [
        [Some('O'), Some('X'), None],
        [None, Some('O'), None],
        [None, Some('X'), None],
    ];
    let legal_moves = vec![(0, 2), (1, 0), (1, 2), (2, 0), (2, 2)];
    let _new_board = select_one_random_move(&legal_moves, &board, &Player::PlayerX);
}

#[test]
fn test_find_winning_move() {
    let board: [[Option<char>; 3]; 3] = [
        [Some('O'), Some('X'), None],
        [None, None, Some('O')],
        [None, Some('X'), None],
    ];
    let expected_winning_board = [
        [Some('O'), Some('X'), None],
        [None, Some('X'), Some('O')],
        [None, Some('X'), None],
    ];
    let legal_moves = vec![(0, 2), (1, 0), (1, 1), (2, 0), (2, 2)];
    for _ in 1..10 {
        let winning_board =
            find_a_winning_move(&legal_moves, &board, &Player::PlayerX).expect("unexpected ...");
        assert_eq!(expected_winning_board, winning_board);
    }
}

#[test]
fn test_finds_winning_moves_ai() {
    let board: [[Option<char>; 3]; 3] = [
        [Some('O'), Some('X'), None],
        [None, None, Some('O')],
        [None, Some('X'), None],
    ];
    let expected_winning_board = [
        [Some('O'), Some('X'), None],
        [None, Some('X'), Some('O')],
        [None, Some('X'), None],
    ];
    let winning_board = finds_winning_moves_ai(&board, &Player::PlayerX).unwrap();
    assert_eq!(expected_winning_board, winning_board);
}

#[test]
fn test_find_a_blocking_move() {
    let board: [[Option<char>; 3]; 3] = [
        [Some('O'), Some('X'), None],
        [None, Some('X'), Some('O')],
        [None, None, None],
    ];
    let expected_board = [
        [Some('O'), Some('X'), None],
        [None, Some('X'), Some('O')],
        [None, Some('O'), None],
    ];
    let legal_moves = vec![(0, 2), (1, 0), (2, 0), (2, 1), (2, 2)];
    let new_board = find_a_blocking_move(&legal_moves, &board, &Player::PlayerO).unwrap();
    assert_eq!(expected_board, new_board);
}

#[test]
fn test_finds_winning_and_not_losing_moves_ai() {
    let board: [[Option<char>; 3]; 3] = [
        [Some('O'), Some('X'), None],
        [None, Some('X'), Some('O')],
        [None, None, None],
    ];
    let expected_board = [
        [Some('O'), Some('X'), None],
        [None, Some('X'), Some('O')],
        [None, Some('O'), None],
    ];
    let new_board = finds_winning_and_not_losing_moves_ai(&board, &Player::PlayerO).unwrap();
    assert_eq!(expected_board, new_board);
}

#[test]
fn test_minimax_score() {
    let board = [
        [Some('O'), Some('O'), Some('X')],
        [Some('X'), Some('X'), Some('O')],
        [None, Some('O'), Some('X')],
    ];
    let active_player: Player = Player::PlayerO;
    let mut cache: HashMap<u64, i8> = HashMap::new();

    let s = minimax_score(&board, &active_player, &mut cache);
    assert_eq!(10, s);
    cache.clear();

    let full_board = [
        [Some('O'), Some('X'), Some('X')],
        [Some('X'), Some('X'), Some('O')],
        [Some('O'), Some('O'), Some('X')],
    ];
    let s = minimax_score(&full_board, &active_player, &mut cache);
    assert_eq!(0, s);
    cache.clear();

    let loosing_board = [
        [Some('O'), None, Some('X')],
        [None, Some('O'), Some('O')],
        [None, Some('X'), Some('X')],
    ];
    let s = minimax_score(&loosing_board, &active_player, &mut cache);
    assert_eq!(10, s);
    cache.clear();

    let draw_board = [
        [Some('O'), None, Some('X')],
        [Some('X'), Some('O'), Some('O')],
        [None, Some('X'), None],
    ];
    let s = minimax_score(&draw_board, &active_player, &mut cache);
    assert_eq!(0, s);
    cache.clear();
}

#[test]
fn test_find_all_legal_moves_empty_and_full() {
    let empty = tictactoe::board::generate_new_board();
    let moves = find_all_legal_moves(&empty);
    assert_eq!(9, moves.len());
    assert_eq!((0, 0), moves[0]);
    assert_eq!((2, 2), moves[8]);
    let full: Board = [
        [Some('X'), Some('O'), Some('X')],
        [Some('X'), Some('O'), Some('O')],
        [Some('O'), Some('X'), Some('X')],
    ];
    assert!(find_all_legal_moves(&full).is_empty());
}

#[test]
fn test_winning_engine_takes_first_win() {
    // Two cells win at once for X: the column through (1,1) and the row
    // through (2,0). The enumeration order reaches (1,1) first.
    let board: Board = [
        [Some('O'), Some('X'), None],
        [None, None, Some('O')],
        [None, Some('X'), Some('X')],
    ];
    let expected: Board = [
        [Some('O'), Some('X'), None],
        [None, Some('X'), Some('O')],
        [None, Some('X'), Some('X')],
    ];
    let won = finds_winning_moves_ai(&board, &Player::PlayerX).unwrap();
    assert_eq!(expected, won);
    let won = finds_winning_and_not_losing_moves_ai(&board, &Player::PlayerX).unwrap();
    assert_eq!(expected, won);
}

#[test]
fn test_engines_report_no_legal_move_on_full_board() {
    let full_board: Board = [
        [Some('X'), Some('O'), Some('X')],
        [Some('X'), Some('O'), Some('O')],
        [Some('O'), Some('X'), Some('X')],
    ];
    let mut cache: HashMap<u64, i8> = HashMap::new();
    assert_eq!(GameError::NoLegalMove, random_ai(&full_board, &Player::PlayerX).unwrap_err());
    assert_eq!(
        GameError::NoLegalMove,
        finds_winning_moves_ai(&full_board, &Player::PlayerX).unwrap_err()
    );
    assert_eq!(
        GameError::NoLegalMove,
        finds_winning_and_not_losing_moves_ai(&full_board, &Player::PlayerX).unwrap_err()
    );
    let e = minimax_algo_ai(&full_board, &Player::PlayerX, &mut cache).unwrap_err();
    assert_eq!(GameError::NoLegalMove, e);
    assert_eq!("no legal move available", e.message());
}

#[test]
fn test_random_ai_single_empty_cell() {
    // Only one legal move is left, so the random choice is forced.
    let board: Board = [
        [Some('X'), Some('O'), Some('X')],
        [Some('X'), Some('O'), Some('O')],
        [None, Some('X'), Some('O')],
    ];
    let expected: Board = [
        [Some('X'), Some('O'), Some('X')],
        [Some('X'), Some('O'), Some('O')],
        [Some('X'), Some('X'), Some('O')],
    ];
    for _ in 0..17 {
        assert_eq!(expected, random_ai(&board, &Player::PlayerX).unwrap());
    }
}

#[test]
fn test_minimax_win_or_draw_values() {
    let won_by_x = [
        [Some('X'), Some('X'), Some('X')],
        [None, Some('O'), Some('O')],
        [None, None, None],
    ];
    assert_eq!(Some(10), minimax_score_win_or_draw(&won_by_x));
    let won_by_o = [
        [Some('O'), Some('O'), Some('O')],
        [None, Some('X'), Some('X')],
        [None, None, Some('X')],
    ];
    assert_eq!(Some(-10), minimax_score_win_or_draw(&won_by_o));
    let full_draw = [
        [Some('O'), Some('X'), Some('X')],
        [Some('X'), Some('X'), Some('O')],
        [Some('O'), Some('O'), Some('X')],
    ];
    assert_eq!(Some(0), minimax_score_win_or_draw(&full_draw));
    let open_board = [
        [Some('O'), Some('X'), None],
        [None, None, None],
        [None, None, None],
    ];
    assert_eq!(None, minimax_score_win_or_draw(&open_board));
}

#[test]
fn test_terminal_scores_ignore_empty_cells_and_mover() {
    // A board already won keeps its score whoever would move next.
    let mut cache: HashMap<u64, i8> = HashMap::new();
    let won_by_o = [
        [Some('O'), Some('O'), Some('O')],
        [None, Some('X'), Some('X')],
        [None, None, None],
    ];
    assert_eq!(-10, minimax_score(&won_by_o, &Player::PlayerX, &mut cache));
    cache.clear();
    assert_eq!(-10, minimax_score(&won_by_o, &Player::PlayerO, &mut cache));
    cache.clear();
    let won_by_x = [
        [Some('X'), Some('X'), Some('X')],
        [None, Some('O'), Some('O')],
        [None, None, None],
    ];
    assert_eq!(10, minimax_score(&won_by_x, &Player::PlayerX, &mut cache));
    cache.clear();
    assert_eq!(10, minimax_score(&won_by_x, &Player::PlayerO, &mut cache));
}

#[test]
fn test_minimax_score_idempotent_and_cache_independent() {
    // The same position scores the same with a warm cache, and clearing the
    // cache only costs recomputation.
    let board = [
        [Some('O'), None, Some('X')],
        [Some('X'), Some('O'), Some('O')],
        [None, Some('X'), None],
    ];
    let mut cache: HashMap<u64, i8> = HashMap::new();
    let first = minimax_score(&board, &Player::PlayerO, &mut cache);
    let second = minimax_score(&board, &Player::PlayerO, &mut cache);
    assert_eq!(first, second);
    cache.clear();
    let third = minimax_score(&board, &Player::PlayerO, &mut cache);
    assert_eq!(first, third);
}

#[test]
fn test_minimax_from_empty_board_reaches_a_draw() {
    // The classic result: perfect play from the empty board is a draw.
    let board = tictactoe::board::generate_new_board();
    let mut cache: HashMap<u64, i8> = HashMap::new();
    let new_board = minimax_algo_ai(&board, &Player::PlayerX, &mut cache).unwrap();
    let score = minimax_score(&new_board, &Player::PlayerX, &mut cache);
    assert_eq!(0, score);
}

#[test]
fn test_minimax_fills_the_last_cell_to_a_draw() {
    let board: Board = [
        [Some('O'), Some('O'), Some('X')],
        [Some('X'), Some('X'), Some('O')],
        [None, Some('O'), Some('X')],
    ];
    let expected: Board = [
        [Some('O'), Some('O'), Some('X')],
        [Some('X'), Some('X'), Some('O')],
        [Some('O'), Some('O'), Some('X')],
    ];
    let mut cache: HashMap<u64, i8> = HashMap::new();
    let new_board = minimax_algo_ai(&board, &Player::PlayerO, &mut cache).unwrap();
    assert_eq!(expected, new_board);
    let score = minimax_score(&new_board, &Player::PlayerO, &mut cache);
    assert_eq!(0, score);
}

#[test]
fn test_minimax_takes_an_immediate_win() {
    // X wins at once at (1,1); minimax must not settle for less.
    let board: Board = [
        [Some('O'), Some('X'), None],
        [None, None, Some('O')],
        [None, Some('X'), None],
    ];
    let expected: Board = [
        [Some('O'), Some('X'), None],
        [None, Some('X'), Some('O')],
        [None, Some('X'), None],
    ];
    let mut cache: HashMap<u64, i8> = HashMap::new();
    let new_board = minimax_algo_ai(&board, &Player::PlayerX, &mut cache).unwrap();
    assert_eq!(expected, new_board);
    assert_eq!(10, minimax_score(&new_board, &Player::PlayerX, &mut cache));
}
