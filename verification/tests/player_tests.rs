use tictactoe::game::GameError;
use tictactoe::player::get_input_from_keyboard;

#[test]
fn test_get_input_from_keyboard() {
    let input = "1,2";
    assert_eq!((2, 1), get_input_from_keyboard(input).unwrap());
    let input = "1 , 2";
    assert_eq!((2, 1), get_input_from_keyboard(input).unwrap());
    let input = "1, 2 ";
    assert_eq!((2, 1), get_input_from_keyboard(input).unwrap());
    let input = " 1 , 2";
    assert_eq!((2, 1), get_input_from_keyboard(input).unwrap());
}

#[test]
fn test_get_out_of_range_input_from_keyboard() {
    let error = get_input_from_keyboard("1,3").unwrap_err();
    assert_eq!(GameError::BadCoordinates, error);
    assert_eq!("Coordinates not included in [0..2],[0..2]", error.message());
    assert_eq!(GameError::BadCoordinates, get_input_from_keyboard("-1,2").unwrap_err());
    assert_eq!(GameError::BadCoordinates, get_input_from_keyboard("3,1").unwrap_err());
}

#[test]
fn test_get_malformed_input_from_keyboard() {
    assert_eq!(GameError::BadCoordinates, get_input_from_keyboard("").unwrap_err());
    assert_eq!(GameError::BadCoordinates, get_input_from_keyboard("1").unwrap_err());
    assert_eq!(GameError::BadCoordinates, get_input_from_keyboard("a,b").unwrap_err());
    assert_eq!(GameError::BadCoordinates, get_input_from_keyboard("1,,2").unwrap_err());
    assert_eq!(GameError::BadCoordinates, get_input_from_keyboard(",").unwrap_err());
}

#[test]
fn test_get_input_last_number_wins_the_row() {
    // Several commas behave like repeated assignment to the row coordinate.
    assert_eq!((0, 1), get_input_from_keyboard("1,2,0").unwrap());
    assert_eq!((2, 1), get_input_from_keyboard("1,99,2").unwrap());
}
