use std::collections::hash_map::DefaultHasher;
use std::hash::Hasher;

use tictactoe::board::Board;
use tictactoe::hash::{compute_cache, Position};
use tictactoe::player::Player;

#[test]
fn test_compute_cache() {
    let board: Board = [
        [Some('X'), None, Some('O')],
        [None, Some('O'), Some('X')],
        [Some('X'), None, Some('O')],
    ];
    let player = Player::PlayerX;
    let mut v = Vec::new();
    const ASCII_X: u8 = 88;
    const ASCII_O: u8 = 79;
    const ASCII_NONE: u8 = 0;
    v.push(ASCII_X);
    v.push(ASCII_NONE);
    v.push(ASCII_O);
    v.push(ASCII_NONE);
    v.push(ASCII_O);
    v.push(ASCII_X);
    v.push(ASCII_X);
    v.push(ASCII_NONE);
    v.push(ASCII_O);
    v.push(ASCII_X);

    let mut hasher = DefaultHasher::new();
    hasher.write(&v);
    let expected_cache = hasher.finish();

    assert_eq!(expected_cache, compute_cache(&board, &player));
}

#[test]
fn test_position_bytes() {
    let board: Board = [
        [Some('X'), None, Some('O')],
        [None, Some('O'), Some('X')],
        [Some('X'), None, Some('O')],
    ];
    let position = Position { board, player: Player::PlayerO };
    let expected: Vec<u8> = vec![88, 0, 79, 0, 79, 88, 88, 0, 79, 79];
    assert_eq!(expected, position.bytes());
}

#[test]
fn test_compute_cache_distinguishes_the_player() {
    let board: Board = [
        [Some('X'), None, None],
        [None, Some('O'), None],
        [None, None, None],
    ];
    let kx = compute_cache(&board, &Player::PlayerX);
    let ko = compute_cache(&board, &Player::PlayerO);
    assert_ne!(kx, ko);
}
