use reversi::board::init_board;
use reversi::board::is_inside_board;
use reversi::board::Cell;
use reversi::board::MoveError;
use reversi::board::Player;
use reversi::game::parse_move;

#[test]
fn initial_board_counts() {
    let b = init_board();
    let (black, white) = b.count_colors();
    assert_eq!(black, 2);
    assert_eq!(white, 2);
}

#[test]
fn initial_board_layout() {
    let b = init_board();
    assert_eq!(b.at(3, 3), Cell::White);
    assert_eq!(b.at(4, 4), Cell::White);
    assert_eq!(b.at(3, 4), Cell::Black);
    assert_eq!(b.at(4, 3), Cell::Black);
    assert_eq!(b.at(0, 0), Cell::Empty);
    assert_eq!(b.at(7, 7), Cell::Empty);
}

#[test]
fn get_in_range() {
    let b = init_board();
    assert_eq!(b.get(3, 3), Ok(Cell::White));
    assert_eq!(b.get(0, 7), Ok(Cell::Empty));
}

#[test]
fn get_out_of_range() {
    let b = init_board();
    assert_eq!(b.get(8, 0), Err(MoveError::OutOfRange));
    assert_eq!(b.get(0, 8), Err(MoveError::OutOfRange));
    assert_eq!(b.get(100, 100), Err(MoveError::OutOfRange));
}

#[test]
fn set_then_get() {
    let mut b = init_board();
    b.set(0, 0, Cell::Black);
    assert_eq!(b.at(0, 0), Cell::Black);
    b.set(0, 0, Cell::White);
    assert_eq!(b.at(0, 0), Cell::White);
    let (black, white) = b.count_colors();
    assert_eq!(black, 2);
    assert_eq!(white, 3);
}

#[test]
fn inside_board_bounds() {
    assert!(is_inside_board(0, 0));
    assert!(is_inside_board(7, 7));
    assert!(!is_inside_board(-1, 0));
    assert!(!is_inside_board(0, -1));
    assert!(!is_inside_board(8, 0));
    assert!(!is_inside_board(0, 8));
}

#[test]
fn opponent_swaps() {
    assert_eq!(Player::Black.opponent(), Player::White);
    assert_eq!(Player::White.opponent(), Player::Black);
}

#[test]
fn parse_move_valid() {
    assert_eq!(parse_move("aa"), Some((0, 0)));
    assert_eq!(parse_move("cd"), Some((2, 3)));
    assert_eq!(parse_move("hh"), Some((7, 7)));
}

#[test]
fn parse_move_rejects_bad_length() {
    assert_eq!(parse_move(""), None);
    assert_eq!(parse_move("a"), None);
    assert_eq!(parse_move("abc"), None);
}

#[test]
fn parse_move_rejects_bad_letters() {
    assert_eq!(parse_move("ij"), None);
    assert_eq!(parse_move("a1"), None);
    assert_eq!(parse_move("AZ"), None);
}
