//! The turn state machine: turn order, pass counting, double-pass
//! termination, and scoring; plus parsing of two-letter move input.

use vstd::prelude::*;
use vstd::pervasive::unreached;
use vstd::string::StrSliceExecFns;

use crate::board::Board;
use crate::board::Cell;
use crate::board::MoveError;
use crate::board::Player;
use crate::board::cell_at;
use crate::board::count_cells;
use crate::board::in_range;
use crate::board::init_board;
use crate::board::init_cells;
use crate::board::lemma_count_partition;
use crate::engine::apply_spec;
use crate::engine::has_move_spec;
use crate::engine::is_legal;
use crate::engine::move_error;
use crate::engine::try_apply_move;

verus! {

/// How a finished game ended: a winner by its positive margin, or a draw.
#[derive(Clone, Copy, PartialEq, Eq, Structural, Debug)]
pub enum Outcome {
    BlackWins(u64),
    WhiteWins(u64),
    Draw,
}

/// The outcome derived from final stone counts: the greater count wins by
/// the difference; equal counts draw. This is the sole score rule.
pub open spec fn outcome_of(black: int, white: int) -> Outcome {
    if black > white {
        Outcome::BlackWins((black - white) as u64)
    } else if white > black {
        Outcome::WhiteWins((white - black) as u64)
    } else {
        Outcome::Draw
    }
}

/// Compare the final counts and produce the outcome.
pub fn compute_outcome(black: u64, white: u64) -> (o: Outcome)
    ensures
        o == outcome_of(black as int, white as int),
{
    if black > white {
        Outcome::BlackWins(black - white)
    } else if white > black {
        Outcome::WhiteWins(white - black)
    } else {
        Outcome::Draw
    }
}

/// Where the turn state machine stands: a player to move, or the game over.
#[derive(Clone, Copy, PartialEq, Eq, Structural, Debug)]
pub enum Status {
    ToMove(Player),
    GameOver(Outcome),
}

/// One running game: its board, whose turn it is (or the outcome), and how
/// many consecutive passes have just happened.
pub struct GameState {
    pub board: Board,
    pub status: Status,
    pub pass_count: u64,
}

impl GameState {
    /// The invariant every reachable game state satisfies: a full 64-square
    /// grid; a pass counter in {0, 1, 2}; the game over exactly when two
    /// consecutive passes happened, its recorded outcome then following from
    /// the stone counts.
    pub open spec fn wf(self) -> bool {
        &&& self.board.wf()
        &&& self.pass_count <= 2
        &&& match self.status {
            Status::ToMove(_) => self.pass_count < 2,
            Status::GameOver(o) => self.pass_count == 2 && o == outcome_of(
                count_cells(self.board@, Cell::Black) as int,
                count_cells(self.board@, Cell::White) as int,
            ),
        }
    }

    /// How much play remains possible. Every resolved turn (legal move or
    /// pass) strictly decreases it while the game runs, and it never goes
    /// below zero, so every game reaches `GameOver` in finitely many turns.
    pub open spec fn measure(self) -> int {
        3 * count_cells(self.board@, Cell::Empty) + 2 - self.pass_count
    }

    /// A fresh game: starting board, Black to move, no passes yet.
    pub fn new() -> (gs: GameState)
        ensures
            gs.wf(),
            gs.board@ == init_cells(),
            gs.status == Status::ToMove(Player::Black),
            gs.pass_count == 0,
    {
        GameState { board: init_board(), status: Status::ToMove(Player::Black), pass_count: 0 }
    }

    /// Resolve a turn on which the current player has no legal move: count a
    /// pass. On the second consecutive pass the game ends with the outcome
    /// computed from the stone counts; otherwise the opponent is to move.
    /// The board is never touched by a pass.
    pub fn pass_turn(&mut self)
        requires
            old(self).wf(),
            old(self).status is ToMove,
            !has_move_spec(old(self).board@, old(self).status->ToMove_0),
        ensures
            final(self).wf(),
            final(self).board@ == old(self).board@,
            final(self).pass_count == old(self).pass_count + 1,
            old(self).pass_count == 0 ==> final(self).status == Status::ToMove(
                old(self).status->ToMove_0.spec_opponent(),
            ),
            old(self).pass_count == 1 ==> final(self).status == Status::GameOver(
                outcome_of(
                    count_cells(old(self).board@, Cell::Black) as int,
                    count_cells(old(self).board@, Cell::White) as int,
                ),
            ),
            final(self).status is GameOver || final(self).measure() < old(self).measure(),
    {
        let p = match self.status {
            Status::ToMove(q) => q,
            Status::GameOver(_) => unreached(),
        };
        self.pass_count = self.pass_count + 1;
        if self.pass_count == 2 {
            let (black, white) = self.board.count_colors();
            self.status = Status::GameOver(compute_outcome(black, white));
        } else {
            self.status = Status::ToMove(p.opponent());
        }
    }

    /// Attempt a move for the player to move. A legal move places the stone,
    /// flips every bracketed opponent stone, resets the pass counter and
    /// hands the turn to the opponent; an illegal one is rejected with the
    /// reason and changes nothing at all.
    pub fn try_move(&mut self, r: usize, c: usize) -> (res: Result<usize, MoveError>)
        requires
            old(self).wf(),
            old(self).status is ToMove,
        ensures
            final(self).wf(),
            match res {
                Result::Err(e) => {
                    &&& move_error(
                        old(self).board@,
                        r as int,
                        c as int,
                        old(self).status->ToMove_0,
                    ) == Some(e)
                    &&& final(self).board@ == old(self).board@
                    &&& final(self).status == old(self).status
                    &&& final(self).pass_count == old(self).pass_count
                },
                Result::Ok(f) => {
                    &&& is_legal(old(self).board@, r as int, c as int, old(self).status->ToMove_0)
                    &&& final(self).board@ == apply_spec(
                        old(self).board@,
                        r as int,
                        c as int,
                        old(self).status->ToMove_0,
                    )
                    &&& final(self).status == Status::ToMove(
                        old(self).status->ToMove_0.spec_opponent(),
                    )
                    &&& final(self).pass_count == 0
                    &&& 1 <= f <= 48
                    &&& count_cells(final(self).board@, old(self).status->ToMove_0.stone())
                        == count_cells(old(self).board@, old(self).status->ToMove_0.stone()) + f + 1
                    &&& count_cells(
                        final(self).board@,
                        old(self).status->ToMove_0.spec_opponent().stone(),
                    ) + f == count_cells(
                        old(self).board@,
                        old(self).status->ToMove_0.spec_opponent().stone(),
                    )
                    &&& count_cells(final(self).board@, Cell::Empty) + 1 == count_cells(
                        old(self).board@,
                        Cell::Empty,
                    )
                    &&& forall|rr: int, cc: int|
                        in_range(rr, cc) && cell_at(old(self).board@, rr, cc) != Cell::Empty
                            ==> #[trigger] cell_at(final(self).board@, rr, cc) != Cell::Empty
                    &&& final(self).measure() < old(self).measure()
                },
            },
    {
        let p = match self.status {
            Status::ToMove(q) => q,
            Status::GameOver(_) => unreached(),
        };
        let res = try_apply_move(&mut self.board, r, c, p);
        match res {
            Ok(f) => {
                self.pass_count = 0;
                self.status = Status::ToMove(p.opponent());
                Ok(f)
            },
            Err(e) => Err(e),
        }
    }
}

/// The stone and empty counts of a well-formed game partition its 64
/// squares: black + white + empty is always 64.
pub proof fn lemma_stone_partition(gs: GameState)
    requires
        gs.wf(),
    ensures
        count_cells(gs.board@, Cell::Black) + count_cells(gs.board@, Cell::White) + count_cells(
            gs.board@,
            Cell::Empty,
        ) == 64,
{
    lemma_count_partition(gs.board@);
}

/// The progress measure of a well-formed game never goes below zero.
/// Together with its strict decrease on every resolved turn this bounds the
/// number of turns before `GameOver`.
pub proof fn lemma_measure_nonneg(gs: GameState)
    requires
        gs.wf(),
    ensures
        gs.measure() >= 0,
{
}

/// The coordinate pair a two-letter move string encodes: each letter in
/// 'a'..='h' names a row or a column, 'a' being 0.
pub open spec fn parse_move_spec(s: Seq<char>) -> Option<(usize, usize)> {
    if s.len() == 2 && 'a' <= s[0] && s[0] <= 'h' && 'a' <= s[1] && s[1] <= 'h' {
        Some((((s[0] as int - 'a' as int) as usize, (s[1] as int - 'a' as int) as usize)))
    } else {
        None
    }
}

/// Parse a move given as two letters, row letter then column letter.
pub fn parse_move(s: &str) -> (res: Option<(usize, usize)>)
    ensures
        res == parse_move_spec(s@),
        res is Some ==> in_range(res->Some_0.0 as int, res->Some_0.1 as int),
{
    let n = s.unicode_len();
    if n != 2 {
        return None;
    }
    let c0 = s.get_char(0);
    let c1 = s.get_char(1);
    let v0 = c0 as u32;
    let v1 = c1 as u32;
    if 97 <= v0 && v0 <= 104 && 97 <= v1 && v1 <= 104 {
        Some((((v0 - 97) as usize, (v1 - 97) as usize)))
    } else {
        None
    }
}

} // verus!
