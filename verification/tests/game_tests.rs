use std::collections::HashMap;

use tictactoe::board::Board;
use tictactoe::game::{play_move, switch_player, Engine};
use tictactoe::player::Player;

#[test]
fn test_switch_player() {
    let active_player = Player::PlayerO;
    let next_player = switch_player(&active_player);
    assert_ne!(active_player, next_player);
}

#[test]
fn test_play_move() {
    let active_player = Player::PlayerX;
    let board: Board = [
        [Some('X'), None, Some('O')],
        [None, Some('O'), Some('X')],
        [Some('X'), None, Some('0')],
    ];
    let engine = Engine::RandomMove;
    let mut cache: HashMap<u64, i8> = HashMap::new();
    let new_board = play_move(&board, &active_player, &engine, &mut cache).unwrap();
    assert!(
        new_board[0][1] == Some('X') || new_board[1][0] == Some('X')
            || new_board[2][1] == Some('X')
    );
    cache.clear();

    let engine = Engine::MinMax;
    let active_player = Player::PlayerO;
    let new_new_board = play_move(&new_board, &active_player, &engine, &mut cache).unwrap();
    assert!(
        new_new_board[0][1] == Some('O') || new_new_board[1][0] == Some('O')
            || new_new_board[2][1] == Some('O')
    );
}

#[test]
fn test_play_move_all_engines_place_one_mark() {
    let board: Board = [
        [Some('X'), None, Some('O')],
        [None, Some('O'), Some('X')],
        [Some('X'), None, None],
    ];
    let engines = vec![
        Engine::RandomMove,
        Engine::WinningMove,
        Engine::WinningAndNotLosingMove,
        Engine::MinMax,
    ];
    for engine in engines {
        let mut cache: HashMap<u64, i8> = HashMap::new();
        let new_board = play_move(&board, &Player::PlayerX, &engine, &mut cache).unwrap();
        let mut changed = 0;
        for y in 0..3 {
            for x in 0..3 {
                if new_board[y][x] != board[y][x] {
                    assert_eq!(None, board[y][x]);
                    assert_eq!(Some('X'), new_board[y][x]);
                    changed += 1;
                }
            }
        }
        assert_eq!(1, changed);
    }
}
