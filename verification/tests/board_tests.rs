use tictactoe::board::{
    duplicate_board, generate_new_board, get_difference_between_board_and_next_board,
    is_board_full, is_move_win, is_valid_move, make_move, render_board, Board,
};
use tictactoe::player::Player;

#[test]
fn test_generate_new_board() {
    let expected: Board = [[None, None, None], [None, None, None], [None, None, None]];
    let actual: Board = generate_new_board();
    assert_eq!(expected, actual);
}

#[test]
fn test_render_board() {
    let board: Board = [
        [Some('A'), None, Some('C')],
        [None, Some('E'), Some('F')],
        [Some('G'), Some('H'), Some('I')],
    ];

    let expected_output =
        "  0 1 2\n".to_owned() + " -------\n" + "0 A   C\n" + "1   E F\n" + "2 G H I\n";
    let output = render_board(&board).unwrap();
    assert_eq!(expected_output, output);
}

#[test]
fn test_duplicate_board() {
    let board: [[Option<char>; 3]; 3] = [
        [Some('O'), Some('X'), Some('O')],
        [None, Some('O'), Some('X')],
        [None, Some('X'), Some('X')],
    ];
    let new_board = duplicate_board(&board);
    assert_eq!(board, new_board);
}

#[test]
fn test_make_move() {
    let mut board: [[Option<char>; 3]; 3] = [
        [Some('O'), Some('X'), Some('O')],
        [None, Some('O'), Some('X')],
        [None, Some('X'), Some('X')],
    ];

    let new_move: (usize, usize) = (1, 0);
    let p1 = Player::PlayerO;
    let new_board = make_move(&board, new_move, &p1).unwrap();
    board[1][0] = Some('O');
    assert_eq!(new_board, board);

    let new_new_move: (usize, usize) = (2, 0);
    let p2 = Player::PlayerX;
    let new_new_board = make_move(&new_board, new_new_move, &p2).unwrap();
    board[2][0] = Some('X');
    assert_eq!(new_new_board, board);

    let last_move = (2, 0);
    let error = make_move(&new_new_board, last_move, &p1).unwrap_err();
    assert_eq!(error.message(), "Invalid move !");
}

#[test]
fn test_is_valid_move() {
    let board: [[Option<char>; 3]; 3] = [
        [Some('O'), Some('X'), Some('O')],
        [None, None, Some('X')],
        [None, Some('X'), None],
    ];
    let mv: (usize, usize) = (1, 1);
    assert_eq!(true, is_valid_move(&board, mv));
    let mv: (usize, usize) = (0, 0);
    assert_eq!(false, is_valid_move(&board, mv));
}

#[test]
fn test_is_board_full() {
    let board_full: [[Option<char>; 3]; 3] = [
        [Some('X'), Some('X'), Some('X')],
        [Some('X'), Some('O'), Some('O')],
        [Some('O'), Some('X'), Some('O')],
    ];
    let board_not_full: [[Option<char>; 3]; 3] = [
        [Some('X'), Some('X'), Some('X')],
        [None, Some('O'), Some('O')],
        [None, Some('X'), Some('O')],
    ];
    assert_eq!(true, is_board_full(&board_full));
    assert_eq!(false, is_board_full(&board_not_full));
}

#[test]
fn test_is_move_win() {
    let board_win: [[Option<char>; 3]; 3] = [
        [Some('X'), Some('X'), Some('X')],
        [None, Some('O'), Some('O')],
        [None, Some('X'), Some('O')],
    ];
    let another_board_win: [[Option<char>; 3]; 3] = [
        [Some('X'), None, Some('O')],
        [None, Some('O'), Some('X')],
        [Some('O'), Some('X'), Some('X')],
    ];
    let board_not_win: [[Option<char>; 3]; 3] = [
        [Some('O'), Some('X'), Some('O')],
        [None, Some('O'), Some('X')],
        [None, Some('X'), Some('X')],
    ];
    let p1 = is_move_win(&board_win).unwrap();
    let p2 = is_move_win(&another_board_win).unwrap();
    let p3 = is_move_win(&board_not_win);

    assert_eq!(p1, Player::PlayerX);
    assert_eq!(p2, Player::PlayerO);
    assert!(p3.is_none());
}

#[test]
fn test_board_difference() {
    let board: Board = [
        [Some('O'), Some('X'), None],
        [None, Some('X'), Some('O')],
        [None, None, None],
    ];
    let next_board = make_move(&board, (2, 1), &Player::PlayerO).unwrap();
    // The difference comes back as ((column, row), old cell).
    let diff = get_difference_between_board_and_next_board(&board, &next_board).unwrap();
    assert_eq!(((1, 2), None), diff);
    assert!(get_difference_between_board_and_next_board(&board, &board).is_none());
}
