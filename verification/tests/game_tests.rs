use reversi::board::init_board;
use reversi::board::Board;
use reversi::board::Cell;
use reversi::board::MoveError;
use reversi::board::Player;
use reversi::engine::has_any_move;
use reversi::engine::is_valid_move;
use reversi::game::compute_outcome;
use reversi::game::GameState;
use reversi::game::Outcome;
use reversi::game::Status;

fn empty_board() -> Board {
    let mut b = init_board();
    b.set(3, 3, Cell::Empty);
    b.set(3, 4, Cell::Empty);
    b.set(4, 3, Cell::Empty);
    b.set(4, 4, Cell::Empty);
    b
}

fn count_empty(b: &Board) -> u64 {
    let mut n = 0;
    for r in 0..8 {
        for c in 0..8 {
            if b.at(r, c) == Cell::Empty {
                n += 1;
            }
        }
    }
    n
}

#[test]
fn new_game_is_black_to_move_two_two() {
    let gs = GameState::new();
    assert_eq!(gs.status, Status::ToMove(Player::Black));
    assert_eq!(gs.pass_count, 0);
    let (black, white) = gs.board.count_colors();
    assert_eq!(black, 2);
    assert_eq!(white, 2);
}

#[test]
fn counts_partition_the_board() {
    let mut gs = GameState::new();
    let (black, white) = gs.board.count_colors();
    assert_eq!(black + white + count_empty(&gs.board), 64);
    gs.try_move(2, 3).unwrap();
    let (black, white) = gs.board.count_colors();
    assert_eq!(black + white + count_empty(&gs.board), 64);
}

#[test]
fn no_cell_returns_to_empty_after_a_move() {
    let mut gs = GameState::new();
    let before = gs.board.cells.clone();
    gs.try_move(2, 3).unwrap();
    for r in 0..8 {
        for c in 0..8 {
            if before[r * 8 + c] != Cell::Empty {
                assert_ne!(gs.board.at(r, c), Cell::Empty);
            }
        }
    }
}

#[test]
fn rejected_move_changes_nothing() {
    let mut gs = GameState::new();
    let before = gs.board.cells.clone();
    let res = gs.try_move(0, 0);
    assert_eq!(res, Err(MoveError::NoCapture));
    assert_eq!(gs.status, Status::ToMove(Player::Black));
    assert_eq!(gs.pass_count, 0);
    for r in 0..8 {
        for c in 0..8 {
            assert_eq!(gs.board.at(r, c), before[r * 8 + c]);
        }
    }
}

#[test]
fn occupied_cell_rejected_with_cell_occupied() {
    let mut gs = GameState::new();
    let res = gs.try_move(3, 3);
    assert_eq!(res, Err(MoveError::CellOccupied));
    assert_eq!(gs.status, Status::ToMove(Player::Black));
    assert_eq!(gs.pass_count, 0);
    let (black, white) = gs.board.count_colors();
    assert_eq!(black, 2);
    assert_eq!(white, 2);
}

#[test]
fn legal_move_advances_by_one_stone_plus_flips() {
    let mut gs = GameState::new();
    let (black_before, white_before) = gs.board.count_colors();
    let occupied_before = black_before + white_before;
    let flips = gs.try_move(2, 3).unwrap();
    assert!(flips >= 1);
    let (black_after, white_after) = gs.board.count_colors();
    assert_eq!(black_after, black_before + flips as u64 + 1);
    assert_eq!(white_after + flips as u64, white_before);
    assert_eq!(black_after + white_after, occupied_before + 1);
    assert_eq!(gs.status, Status::ToMove(Player::White));
}

#[test]
fn forced_pass_leaves_board_alone() {
    let mut b = empty_board();
    b.set(0, 0, Cell::Black);
    assert!(!has_any_move(&b, Player::White));
    let mut gs = GameState { board: b, status: Status::ToMove(Player::White), pass_count: 0 };
    gs.pass_turn();
    assert_eq!(gs.pass_count, 1);
    assert_eq!(gs.status, Status::ToMove(Player::Black));
    let (black, white) = gs.board.count_colors();
    assert_eq!(black, 1);
    assert_eq!(white, 0);
}

#[test]
fn double_pass_ends_the_game_on_counts() {
    let mut b = empty_board();
    b.set(0, 0, Cell::Black);
    let mut gs = GameState { board: b, status: Status::ToMove(Player::White), pass_count: 0 };
    gs.pass_turn();
    assert_eq!(gs.status, Status::ToMove(Player::Black));
    gs.pass_turn();
    assert_eq!(gs.pass_count, 2);
    assert_eq!(gs.status, Status::GameOver(Outcome::BlackWins(1)));
}

#[test]
fn successful_move_resets_pass_count() {
    let mut gs = GameState::new();
    gs.pass_count = 1;
    gs.try_move(2, 3).unwrap();
    assert_eq!(gs.pass_count, 0);
}

#[test]
fn outcome_comparison_rules() {
    assert_eq!(compute_outcome(5, 3), Outcome::BlackWins(2));
    assert_eq!(compute_outcome(3, 5), Outcome::WhiteWins(2));
    assert_eq!(compute_outcome(4, 4), Outcome::Draw);
    assert_eq!(compute_outcome(0, 0), Outcome::Draw);
    assert_eq!(compute_outcome(64, 0), Outcome::BlackWins(64));
}

#[test]
fn full_game_terminates() {
    let mut gs = GameState::new();
    let mut steps = 0;
    loop {
        match gs.status {
            Status::GameOver(_) => break,
            Status::ToMove(p) => {
                if has_any_move(&gs.board, p) {
                    let mut played = false;
                    'outer: for r in 0..8 {
                        for c in 0..8 {
                            if is_valid_move(&gs.board, r, c, p) {
                                gs.try_move(r, c).unwrap();
                                played = true;
                                break 'outer;
                            }
                        }
                    }
                    assert!(played);
                } else {
                    gs.pass_turn();
                }
            },
        }
        steps += 1;
        assert!(steps <= 200, "game loop failed to terminate");
    }
    // the final outcome follows from the final counts
    let (black, white) = gs.board.count_colors();
    let expected = compute_outcome(black, white);
    assert_eq!(gs.status, Status::GameOver(expected));
    assert_eq!(gs.pass_count, 2);
}
