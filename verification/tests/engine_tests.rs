use reversi::board::init_board;
use reversi::board::Board;
use reversi::board::Cell;
use reversi::board::MoveError;
use reversi::board::Player;
use reversi::engine::analyze_board;
use reversi::engine::check;
use reversi::engine::has_any_move;
use reversi::engine::is_valid_move;
use reversi::engine::try_apply_move;

fn empty_board() -> Board {
    let mut b = init_board();
    b.set(3, 3, Cell::Empty);
    b.set(3, 4, Cell::Empty);
    b.set(4, 3, Cell::Empty);
    b.set(4, 4, Cell::Empty);
    b
}

#[test]
fn check_counts_one_bracketed_stone() {
    let b = init_board();
    // scanning south from (2,3): one White stone at (3,3), then Black at (4,3)
    assert_eq!(check(&b, 2, 3, 1, 0, Player::Black), 1);
    // scanning east from (2,3): the adjacent square is empty
    assert_eq!(check(&b, 2, 3, 0, 1, Player::Black), 0);
    // scanning north from (2,3): off the board before any bracket
    assert_eq!(check(&b, 2, 3, -1, 0, Player::Black), 0);
}

#[test]
fn check_counts_longer_run() {
    let mut b = empty_board();
    b.set(0, 0, Cell::Black);
    b.set(0, 1, Cell::White);
    b.set(0, 2, Cell::White);
    // placing at (0,3) and scanning west: two White stones, then Black
    assert_eq!(check(&b, 0, 3, 0, -1, Player::Black), 2);
    // scanning east from (0,3) there is nothing to bracket
    assert_eq!(check(&b, 0, 3, 0, 1, Player::Black), 0);
}

#[test]
fn initial_legal_moves_for_black() {
    let b = init_board();
    assert!(is_valid_move(&b, 2, 3, Player::Black));
    assert!(is_valid_move(&b, 3, 2, Player::Black));
    assert!(is_valid_move(&b, 4, 5, Player::Black));
    assert!(is_valid_move(&b, 5, 4, Player::Black));
    assert!(!is_valid_move(&b, 0, 0, Player::Black));
    assert!(!is_valid_move(&b, 2, 2, Player::Black));
    // occupied squares are never legal
    assert!(!is_valid_move(&b, 3, 3, Player::Black));
    // out of range is never legal
    assert!(!is_valid_move(&b, 8, 8, Player::Black));
}

#[test]
fn apply_move_flips_one_stone() {
    let mut b = init_board();
    let res = try_apply_move(&mut b, 2, 3, Player::Black);
    assert_eq!(res, Ok(1));
    assert_eq!(b.at(2, 3), Cell::Black);
    assert_eq!(b.at(3, 3), Cell::Black);
    let (black, white) = b.count_colors();
    assert_eq!(black, 4);
    assert_eq!(white, 1);
}

#[test]
fn bracketing_one_white_stone_gives_four_one() {
    // one White stone directly between the new Black stone and an old one
    let mut b = empty_board();
    b.set(0, 0, Cell::Black);
    b.set(0, 1, Cell::White);
    b.set(5, 5, Cell::Black);
    b.set(7, 7, Cell::White);
    let res = try_apply_move(&mut b, 0, 2, Player::Black);
    assert_eq!(res, Ok(1));
    assert_eq!(b.at(0, 1), Cell::Black);
    assert_eq!(b.at(0, 2), Cell::Black);
    let (black, white) = b.count_colors();
    assert_eq!(black, 4);
    assert_eq!(white, 1);
}

#[test]
fn apply_move_flips_two_directions() {
    let mut b = empty_board();
    b.set(2, 0, Cell::Black);
    b.set(2, 1, Cell::White);
    b.set(0, 2, Cell::Black);
    b.set(1, 2, Cell::White);
    let res = try_apply_move(&mut b, 2, 2, Player::Black);
    assert_eq!(res, Ok(2));
    assert_eq!(b.at(2, 1), Cell::Black);
    assert_eq!(b.at(1, 2), Cell::Black);
    let (black, white) = b.count_colors();
    assert_eq!(black, 5);
    assert_eq!(white, 0);
}

#[test]
fn occupied_cell_is_rejected() {
    let mut b = init_board();
    let res = try_apply_move(&mut b, 3, 3, Player::Black);
    assert_eq!(res, Err(MoveError::CellOccupied));
    let (black, white) = b.count_colors();
    assert_eq!(black, 2);
    assert_eq!(white, 2);
}

#[test]
fn out_of_range_is_rejected() {
    let mut b = init_board();
    let res = try_apply_move(&mut b, 8, 0, Player::Black);
    assert_eq!(res, Err(MoveError::OutOfRange));
    let res2 = try_apply_move(&mut b, 0, 9, Player::White);
    assert_eq!(res2, Err(MoveError::OutOfRange));
}

#[test]
fn no_capture_is_rejected_and_board_kept() {
    let mut b = init_board();
    let res = try_apply_move(&mut b, 0, 0, Player::Black);
    assert_eq!(res, Err(MoveError::NoCapture));
    for r in 0..8 {
        for c in 0..8 {
            assert_eq!(b.at(r, c), init_board().at(r, c));
        }
    }
}

#[test]
fn analyze_initial_board() {
    let b = init_board();
    let (black, white, cur_can, opp_can) = analyze_board(&b, Player::Black);
    assert_eq!(black, 2);
    assert_eq!(white, 2);
    assert!(cur_can);
    assert!(opp_can);
}

#[test]
fn lone_stone_allows_no_moves() {
    let mut b = empty_board();
    b.set(0, 0, Cell::Black);
    assert!(!has_any_move(&b, Player::Black));
    assert!(!has_any_move(&b, Player::White));
}
