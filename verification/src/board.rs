//! The board data model: cells, players, the 8x8 grid, and stone counting.

use vstd::prelude::*;

verus! {

/// One square of the grid.
#[derive(Clone, Copy, PartialEq, Eq, Structural, Debug)]
pub enum Cell {
    Empty,
    Black,
    White,
}

/// A mover; alternates strictly each resolved turn.
#[derive(Clone, Copy, PartialEq, Eq, Structural, Debug)]
pub enum Player {
    Black,
    White,
}

/// Why a move request was rejected. The board is never modified on rejection.
#[derive(Clone, Copy, PartialEq, Eq, Structural, Debug)]
pub enum MoveError {
    /// A coordinate lies outside [0,8); rejected before any legality check.
    OutOfRange,
    /// The target cell is already colored.
    CellOccupied,
    /// The target cell is empty but no direction brackets an opponent run.
    NoCapture,
}

impl Player {
    /// The other player.
    pub open spec fn spec_opponent(self) -> Player {
        match self {
            Player::Black => Player::White,
            Player::White => Player::Black,
        }
    }

    /// The stone this player places.
    pub open spec fn stone(self) -> Cell {
        match self {
            Player::Black => Cell::Black,
            Player::White => Cell::White,
        }
    }

    pub fn opponent(self) -> (r: Player)
        ensures
            r == self.spec_opponent(),
    {
        match self {
            Player::Black => Player::White,
            Player::White => Player::Black,
        }
    }

    pub fn stone_of(self) -> (v: Cell)
        ensures
            v == self.stone(),
    {
        match self {
            Player::Black => Cell::Black,
            Player::White => Cell::White,
        }
    }
}

/// True when (r, c) addresses one of the 64 squares.
pub open spec fn in_range(r: int, c: int) -> bool {
    0 <= r < 8 && 0 <= c < 8
}

/// The flat index of square (r, c) in row-major order.
pub open spec fn idx(r: int, c: int) -> int {
    8 * r + c
}

/// The cell at square (r, c) of a 64-cell grid.
pub open spec fn cell_at(b: Seq<Cell>, r: int, c: int) -> Cell {
    b[idx(r, c)]
}

/// How many cells of `b` hold `cl`.
pub open spec fn count_cells(b: Seq<Cell>, cl: Cell) -> nat
    decreases b.len(),
{
    if b.len() == 0 {
        0
    } else {
        count_cells(b.drop_last(), cl) + if b.last() == cl {
            1nat
        } else {
            0nat
        }
    }
}

/// Updating one cell moves one unit of count from the old value to the new.
pub proof fn lemma_count_update(b: Seq<Cell>, i: int, v: Cell, cl: Cell)
    requires
        0 <= i < b.len(),
    ensures
        count_cells(b.update(i, v), cl) + (if b[i] == cl {
            1int
        } else {
            0int
        }) == count_cells(b, cl) + (if v == cl {
            1int
        } else {
            0int
        }),
    decreases b.len(),
{
    let u = b.update(i, v);
    if i == b.len() - 1 {
        assert(u.drop_last() =~= b.drop_last());
        assert(u.last() == v);
    } else {
        assert(u.drop_last() =~= b.drop_last().update(i, v));
        assert(u.last() == b.last());
        lemma_count_update(b.drop_last(), i, v, cl);
    }
}

/// The three cell kinds partition the grid: their counts sum to its length.
pub proof fn lemma_count_partition(b: Seq<Cell>)
    ensures
        count_cells(b, Cell::Black) + count_cells(b, Cell::White) + count_cells(b, Cell::Empty)
            == b.len(),
    decreases b.len(),
{
    if b.len() > 0 {
        lemma_count_partition(b.drop_last());
    }
}

/// The starting grid: White on (3,3) and (4,4), Black on (3,4) and (4,3),
/// every other square empty.
pub open spec fn init_cells() -> Seq<Cell> {
    Seq::new(64, |i: int|
        if i == idx(3, 3) || i == idx(4, 4) {
            Cell::White
        } else if i == idx(3, 4) || i == idx(4, 3) {
            Cell::Black
        } else {
            Cell::Empty
        })
}

/// The 8x8 grid of cells, stored row-major.
pub struct Board {
    pub cells: Vec<Cell>,
}

impl View for Board {
    type V = Seq<Cell>;

    open spec fn view(&self) -> Seq<Cell> {
        self.cells@
    }
}

impl Board {
    /// The grid holds exactly its 64 squares.
    pub open spec fn wf(self) -> bool {
        self@.len() == 64
    }

    /// The cell at (r, c); both coordinates must be on the board.
    pub fn at(&self, r: usize, c: usize) -> (v: Cell)
        requires
            self.wf(),
            in_range(r as int, c as int),
        ensures
            v == cell_at(self@, r as int, c as int),
    {
        self.cells[r * 8 + c]
    }

    /// The cell at (r, c), or `OutOfRange` when a coordinate is off the board.
    pub fn get(&self, r: usize, c: usize) -> (res: Result<Cell, MoveError>)
        requires
            self.wf(),
        ensures
            in_range(r as int, c as int) ==> res == Result::<Cell, MoveError>::Ok(
                cell_at(self@, r as int, c as int),
            ),
            !in_range(r as int, c as int) ==> res == Result::<Cell, MoveError>::Err(
                MoveError::OutOfRange,
            ),
    {
        if r < 8 && c < 8 {
            Ok(self.at(r, c))
        } else {
            Err(MoveError::OutOfRange)
        }
    }

    /// Direct mutation of one square; performs no legality checking.
    /// Used by the move engine's apply step (and by tests building positions).
    pub fn set(&mut self, r: usize, c: usize, v: Cell)
        requires
            old(self).wf(),
            in_range(r as int, c as int),
        ensures
            final(self).wf(),
            final(self)@ == old(self)@.update(idx(r as int, c as int), v),
            forall|cl: Cell|
                count_cells(final(self)@, cl) + (if cell_at(old(self)@, r as int, c as int) == cl {
                    1int
                } else {
                    0int
                }) == count_cells(old(self)@, cl) + (if v == cl {
                    1int
                } else {
                    0int
                }),
    {
        let i = r * 8 + c;
        self.cells[i] = v;
        proof {
            assert forall|cl: Cell|
                count_cells(self@, cl) + (if cell_at(old(self)@, r as int, c as int) == cl {
                    1int
                } else {
                    0int
                }) == count_cells(old(self)@, cl) + (if v == cl {
                    1int
                } else {
                    0int
                }) by {
                lemma_count_update(old(self)@, idx(r as int, c as int), v, cl);
            }
        }
    }

    /// Scan all 64 squares and report (black stones, white stones).
    pub fn count_colors(&self) -> (res: (u64, u64))
        requires
            self.wf(),
        ensures
            res.0 == count_cells(self@, Cell::Black),
            res.1 == count_cells(self@, Cell::White),
    {
        let mut black: u64 = 0;
        let mut white: u64 = 0;
        let mut i: usize = 0;
        while i < 64
            invariant
                self.wf(),
                0 <= i <= 64,
                black == count_cells(self@.take(i as int), Cell::Black),
                white == count_cells(self@.take(i as int), Cell::White),
                black <= i,
                white <= i,
            decreases 64 - i,
        {
            proof {
                assert(self@.take(i + 1).drop_last() =~= self@.take(i as int));
                assert(self@.take(i + 1).last() == self@[i as int]);
            }
            match self.cells[i] {
                Cell::Black => {
                    black = black + 1;
                },
                Cell::White => {
                    white = white + 1;
                },
                Cell::Empty => {},
            }
            i = i + 1;
        }
        proof {
            assert(self@.take(64) =~= self@);
        }
        (black, white)
    }
}

/// The board in its starting configuration.
pub fn init_board() -> (b: Board)
    ensures
        b.wf(),
        b@ == init_cells(),
{
    let mut cells: Vec<Cell> = Vec::new();
    let mut i: usize = 0;
    while i < 64
        invariant
            0 <= i <= 64,
            cells@.len() == i,
            forall|j: int| 0 <= j < i ==> cells@[j] == Cell::Empty,
        decreases 64 - i,
    {
        cells.push(Cell::Empty);
        i = i + 1;
    }
    let mut b = Board { cells };
    b.set(3, 3, Cell::White);
    b.set(4, 4, Cell::White);
    b.set(3, 4, Cell::Black);
    b.set(4, 3, Cell::Black);
    proof {
        assert(b@ =~= init_cells());
    }
    b
}

/// Whether (i, j) lies on the board; tolerates the negative probes the
/// direction scan produces.
pub fn is_inside_board(i: i32, j: i32) -> (r: bool)
    ensures
        r == in_range(i as int, j as int),
{
    i >= 0 && i < 8 && j >= 0 && j < 8
}

} // verus!
