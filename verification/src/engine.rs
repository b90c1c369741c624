//! The move engine: given a board, a target cell and a mover, decide
//! legality by the bracketing rule and compute which opponent stones flip.
//!
//! A move at an empty cell is legal when, along at least one of the eight
//! compass directions, one or more contiguous opponent stones immediately
//! adjacent to the cell are followed by a stone of the mover's color before
//! the scan runs off the board or meets an empty cell.

use vstd::prelude::*;

use crate::board::Board;
use crate::board::Cell;
use crate::board::MoveError;
use crate::board::Player;
use crate::board::cell_at;
use crate::board::count_cells;
use crate::board::idx;
use crate::board::in_range;
use crate::board::is_inside_board;

verus! {

/// Row step of compass direction `d` (directions are numbered 0..8).
pub open spec fn dir_dr(d: int) -> int {
    if d == 0 {
        -1
    } else if d == 1 {
        1
    } else if d == 2 {
        0
    } else if d == 3 {
        0
    } else if d == 4 {
        -1
    } else if d == 5 {
        -1
    } else if d == 6 {
        1
    } else {
        1
    }
}

/// Column step of compass direction `d`.
pub open spec fn dir_dc(d: int) -> int {
    if d == 0 {
        0
    } else if d == 1 {
        0
    } else if d == 2 {
        -1
    } else if d == 3 {
        1
    } else if d == 4 {
        -1
    } else if d == 5 {
        1
    } else if d == 6 {
        -1
    } else {
        1
    }
}

/// A unit step along a row, column or diagonal.
pub open spec fn dir_ok(dr: int, dc: int) -> bool {
    -1 <= dr <= 1 && -1 <= dc <= 1 && !(dr == 0 && dc == 0)
}

/// Row of the k-th square out from row `r` in a direction with row step `dr`.
pub open spec fn ray_r(r: int, dr: int, k: int) -> int {
    r + k * dr
}

/// Column of the k-th square out from column `c` with column step `dc`.
pub open spec fn ray_c(c: int, dc: int, k: int) -> int {
    c + k * dc
}

/// Whether the k-th square out from (r, c) in direction (dr, dc) is on the board.
pub open spec fn ray_in(r: int, c: int, dr: int, dc: int, k: int) -> bool {
    in_range(ray_r(r, dr, k), ray_c(c, dc, k))
}

/// The cell on the k-th square out from (r, c) in direction (dr, dc).
pub open spec fn ray_cell(b: Seq<Cell>, r: int, c: int, dr: int, dc: int, k: int) -> Cell {
    cell_at(b, ray_r(r, dr, k), ray_c(c, dc, k))
}

/// The flat index of the k-th square out from (r, c) in direction (dr, dc).
pub open spec fn flip_idx(r: int, c: int, dr: int, dc: int, k: int) -> int {
    idx(ray_r(r, dr, k), ray_c(c, dc, k))
}

/// Placing at (r, c) brackets exactly `n` opponent stones in direction
/// (dr, dc): the squares 1..=n out from (r, c) hold the opponent and square
/// n + 1 holds the mover's color.
pub open spec fn bracket_at(
    b: Seq<Cell>,
    r: int,
    c: int,
    dr: int,
    dc: int,
    p: Player,
    n: int,
) -> bool {
    &&& n >= 1
    &&& forall|k: int| 1 <= k <= n ==> #[trigger] ray_in(r, c, dr, dc, k)
    &&& forall|k: int|
        1 <= k <= n ==> #[trigger] ray_cell(b, r, c, dr, dc, k) == p.spec_opponent().stone()
    &&& ray_in(r, c, dr, dc, n + 1)
    &&& ray_cell(b, r, c, dr, dc, n + 1) == p.stone()
}

/// Direction (dr, dc) contributes flips to a move at (r, c).
pub open spec fn has_bracket(b: Seq<Cell>, r: int, c: int, dr: int, dc: int, p: Player) -> bool {
    exists|n: int| bracket_at(b, r, c, dr, dc, p, n)
}

/// Compass direction `d` contributes flips to a move at (r, c).
pub open spec fn dir_has_bracket(b: Seq<Cell>, r: int, c: int, d: int, p: Player) -> bool {
    has_bracket(b, r, c, dir_dr(d), dir_dc(d), p)
}

/// A move at (r, c) by `p` is legal: the cell is on the board, empty, and
/// at least one direction brackets an opponent run.
pub open spec fn is_legal(b: Seq<Cell>, r: int, c: int, p: Player) -> bool {
    &&& in_range(r, c)
    &&& cell_at(b, r, c) == Cell::Empty
    &&& exists|d: int| 0 <= d < 8 && #[trigger] dir_has_bracket(b, r, c, d, p)
}

/// Why a move at (r, c) by `p` is rejected, or `None` when it is legal.
pub open spec fn move_error(b: Seq<Cell>, r: int, c: int, p: Player) -> Option<MoveError> {
    if !in_range(r, c) {
        Some(MoveError::OutOfRange)
    } else if cell_at(b, r, c) != Cell::Empty {
        Some(MoveError::CellOccupied)
    } else if !(exists|d: int| 0 <= d < 8 && #[trigger] dir_has_bracket(b, r, c, d, p)) {
        Some(MoveError::NoCapture)
    } else {
        None
    }
}

/// Square k out from (r, c) in direction (dr, dc) flips: the direction
/// brackets a run that square k belongs to.
pub open spec fn flips_to(
    b: Seq<Cell>,
    r: int,
    c: int,
    dr: int,
    dc: int,
    p: Player,
    k: int,
) -> bool {
    exists|n: int| bracket_at(b, r, c, dr, dc, p, n) && 1 <= k <= n
}

/// Flat index `i` is flipped by a move at (r, c), looking only at compass
/// directions numbered below `lim`.
pub open spec fn move_flips_upto_idx(
    b: Seq<Cell>,
    r: int,
    c: int,
    p: Player,
    lim: int,
    i: int,
) -> bool {
    exists|d: int, k: int|
        #![trigger flips_to(b, r, c, dir_dr(d), dir_dc(d), p, k)]
        0 <= d < lim && flips_to(b, r, c, dir_dr(d), dir_dc(d), p, k) && i == flip_idx(
            r,
            c,
            dir_dr(d),
            dir_dc(d),
            k,
        )
}

/// Flat index `i` is flipped by a move at (r, c) by `p` on board `b`.
pub open spec fn move_flips_idx(b: Seq<Cell>, r: int, c: int, p: Player, i: int) -> bool {
    move_flips_upto_idx(b, r, c, p, 8, i)
}

/// The board after a legal move at (r, c) by `p`: the target square and every
/// bracketed opponent square take the mover's color, all else is unchanged.
pub open spec fn apply_spec(b: Seq<Cell>, r: int, c: int, p: Player) -> Seq<Cell> {
    Seq::new(64, |i: int|
        if i == idx(r, c) {
            p.stone()
        } else if move_flips_idx(b, r, c, p, i) {
            p.stone()
        } else {
            b[i]
        })
}

/// Rays of two different directions share no square: the k1-th square one way
/// and the k2-th square another way never coincide (k1, k2 >= 1).
proof fn lemma_ray_disjoint(dr1: int, dc1: int, dr2: int, dc2: int, k1: int, k2: int)
    requires
        dir_ok(dr1, dc1),
        dir_ok(dr2, dc2),
        !(dr1 == dr2 && dc1 == dc2),
        k1 >= 1,
        k2 >= 1,
    ensures
        k1 * dr1 != k2 * dr2 || k1 * dc1 != k2 * dc2,
{
    assert(k1 * dr1 != k2 * dr2 || k1 * dc1 != k2 * dc2) by (nonlinear_arith)
        requires
            -1 <= dr1 <= 1,
            -1 <= dc1 <= 1,
            !(dr1 == 0 && dc1 == 0),
            -1 <= dr2 <= 1,
            -1 <= dc2 <= 1,
            !(dr2 == 0 && dc2 == 0),
            !(dr1 == dr2 && dc1 == dc2),
            k1 >= 1,
            k2 >= 1,
    ;
}

/// Distinct steps along one ray land on distinct squares.
proof fn lemma_same_ray_distinct(dr: int, dc: int, k1: int, k2: int)
    requires
        dir_ok(dr, dc),
        k1 != k2,
    ensures
        k1 * dr != k2 * dr || k1 * dc != k2 * dc,
{
    assert(k1 * dr != k2 * dr || k1 * dc != k2 * dc) by (nonlinear_arith)
        requires
            -1 <= dr <= 1,
            -1 <= dc <= 1,
            !(dr == 0 && dc == 0),
            k1 != k2,
    ;
}

/// Two boards that agree on every on-board square of a ray have the same
/// brackets along that ray.
proof fn lemma_bracket_agree(
    b1: Seq<Cell>,
    b2: Seq<Cell>,
    r: int,
    c: int,
    dr: int,
    dc: int,
    p: Player,
)
    requires
        forall|k: int|
            k >= 1 && #[trigger] ray_in(r, c, dr, dc, k) ==> ray_cell(b1, r, c, dr, dc, k)
                == ray_cell(b2, r, c, dr, dc, k),
    ensures
        forall|n: int|
            #[trigger] bracket_at(b1, r, c, dr, dc, p, n) == bracket_at(b2, r, c, dr, dc, p, n),
{
    assert forall|n: int|
        #[trigger] bracket_at(b1, r, c, dr, dc, p, n) == bracket_at(b2, r, c, dr, dc, p, n) by {
        if bracket_at(b1, r, c, dr, dc, p, n) {
            assert forall|k: int| 1 <= k <= n implies #[trigger] ray_cell(b2, r, c, dr, dc, k)
                == p.spec_opponent().stone() by {
                assert(ray_in(r, c, dr, dc, k));
                assert(ray_cell(b1, r, c, dr, dc, k) == ray_cell(b2, r, c, dr, dc, k));
            }
            assert(ray_in(r, c, dr, dc, n + 1));
            assert(ray_cell(b1, r, c, dr, dc, n + 1) == ray_cell(b2, r, c, dr, dc, n + 1));
            assert(bracket_at(b2, r, c, dr, dc, p, n));
        }
        if bracket_at(b2, r, c, dr, dc, p, n) {
            assert forall|k: int| 1 <= k <= n implies #[trigger] ray_cell(b1, r, c, dr, dc, k)
                == p.spec_opponent().stone() by {
                assert(ray_in(r, c, dr, dc, k));
                assert(ray_cell(b1, r, c, dr, dc, k) == ray_cell(b2, r, c, dr, dc, k));
            }
            assert(ray_in(r, c, dr, dc, n + 1));
            assert(ray_cell(b1, r, c, dr, dc, n + 1) == ray_cell(b2, r, c, dr, dc, n + 1));
            assert(bracket_at(b1, r, c, dr, dc, p, n));
        }
    }
}

/// A direction brackets a run of one length only.
proof fn lemma_bracket_unique(
    b: Seq<Cell>,
    r: int,
    c: int,
    dr: int,
    dc: int,
    p: Player,
    n1: int,
    n2: int,
)
    requires
        bracket_at(b, r, c, dr, dc, p, n1),
        bracket_at(b, r, c, dr, dc, p, n2),
    ensures
        n1 == n2,
{
    if n1 < n2 {
        assert(ray_in(r, c, dr, dc, n1 + 1));
        assert(ray_cell(b, r, c, dr, dc, n1 + 1) == p.spec_opponent().stone());
        assert(ray_cell(b, r, c, dr, dc, n1 + 1) == p.stone());
        assert(false);
    } else if n2 < n1 {
        assert(ray_in(r, c, dr, dc, n2 + 1));
        assert(ray_cell(b, r, c, dr, dc, n2 + 1) == p.spec_opponent().stone());
        assert(ray_cell(b, r, c, dr, dc, n2 + 1) == p.stone());
        assert(false);
    }
}

/// The unit step of compass direction `d`.
pub fn dir_step(d: usize) -> (s: (i32, i32))
    requires
        d < 8,
    ensures
        s.0 as int == dir_dr(d as int),
        s.1 as int == dir_dc(d as int),
        dir_ok(s.0 as int, s.1 as int),
{
    if d == 0 {
        (-1, 0)
    } else if d == 1 {
        (1, 0)
    } else if d == 2 {
        (0, -1)
    } else if d == 3 {
        (0, 1)
    } else if d == 4 {
        (-1, -1)
    } else if d == 5 {
        (-1, 1)
    } else if d == 6 {
        (1, -1)
    } else {
        (1, 1)
    }
}

/// Scan one direction out from (r, c): the number of opponent stones a move
/// by `p` at (r, c) would bracket there, or 0 when that direction contributes
/// no flips.
pub fn check(board: &Board, r: usize, c: usize, dr: i32, dc: i32, p: Player) -> (n: usize)
    requires
        board.wf(),
        in_range(r as int, c as int),
        dir_ok(dr as int, dc as int),
    ensures
        n >= 1 ==> bracket_at(board@, r as int, c as int, dr as int, dc as int, p, n as int),
        n == 0 ==> !has_bracket(board@, r as int, c as int, dr as int, dc as int, p),
        n <= 6,
{
    let mine = p.stone_of();
    let opp = p.opponent().stone_of();
    let mut k: usize = 0;
    let mut ri: i32 = r as i32 + dr;
    let mut ci: i32 = c as i32 + dc;
    while is_inside_board(ri, ci) && board.at(ri as usize, ci as usize) == opp
        invariant
            board.wf(),
            in_range(r as int, c as int),
            dir_ok(dr as int, dc as int),
            mine == p.stone(),
            opp == p.spec_opponent().stone(),
            k <= 7,
            -1 <= ri <= 8,
            -1 <= ci <= 8,
            ri as int == ray_r(r as int, dr as int, k + 1),
            ci as int == ray_c(c as int, dc as int, k + 1),
            forall|j: int|
                1 <= j <= k ==> #[trigger] ray_in(r as int, c as int, dr as int, dc as int, j),
            forall|j: int|
                1 <= j <= k ==> #[trigger] ray_cell(board@, r as int, c as int, dr as int, dc as int, j)
                    == p.spec_opponent().stone(),
        decreases 8 - k,
    {
        proof {
            assert(ri as usize as int == ri as int);
            assert(ci as usize as int == ci as int);
            assert(ray_in(r as int, c as int, dr as int, dc as int, k + 1));
            assert(ray_cell(board@, r as int, c as int, dr as int, dc as int, k + 1)
                == p.spec_opponent().stone());
            lemma_step_bound(r as int, c as int, dr as int, dc as int, (k + 1) as int);
            assert((k + 2) * (dr as int) == (k + 1) * (dr as int) + dr as int) by (nonlinear_arith);
            assert((k + 2) * (dc as int) == (k + 1) * (dc as int) + dc as int) by (nonlinear_arith);
        }
        k = k + 1;
        ri = ri + dr;
        ci = ci + dc;
    }
    let ghost b = board@;
    let ghost gr = r as int;
    let ghost gc = c as int;
    let ghost gdr = dr as int;
    let ghost gdc = dc as int;
    if k >= 1 && is_inside_board(ri, ci) {
        if board.at(ri as usize, ci as usize) == mine {
            proof {
                assert(ray_in(gr, gc, gdr, gdc, k + 1));
                assert(ray_cell(b, gr, gc, gdr, gdc, k + 1) == p.stone());
                assert(bracket_at(b, gr, gc, gdr, gdc, p, k as int));
                lemma_step_bound(gr, gc, gdr, gdc, (k + 1) as int);
            }
            return k;
        }
    }
    proof {
        assert forall|n: int| !#[trigger] bracket_at(b, gr, gc, gdr, gdc, p, n) by {
            if bracket_at(b, gr, gc, gdr, gdc, p, n) {
                assert(p.stone() != p.spec_opponent().stone());
                if n <= k - 1 {
                    assert(ray_in(gr, gc, gdr, gdc, n + 1));
                    assert(ray_cell(b, gr, gc, gdr, gdc, n + 1) == p.spec_opponent().stone());
                    assert(ray_cell(b, gr, gc, gdr, gdc, n + 1) == p.stone());
                } else if n == k {
                    assert(ray_in(gr, gc, gdr, gdc, k + 1));
                    assert(ray_cell(b, gr, gc, gdr, gdc, k + 1) == p.stone());
                    assert(false);
                } else {
                    assert(1 <= k + 1 <= n);
                    assert(ray_in(gr, gc, gdr, gdc, k + 1));
                    assert(ray_cell(b, gr, gc, gdr, gdc, k + 1) == p.spec_opponent().stone());
                    assert(false);
                }
            }
        }
    }
    0
}

/// A square `k` steps out that is still on the board bounds `k` by 8.
proof fn lemma_step_bound(r: int, c: int, dr: int, dc: int, k: int)
    requires
        in_range(r, c),
        dir_ok(dr, dc),
        k >= 0,
        ray_in(r, c, dr, dc, k),
    ensures
        k <= 7,
{
    if dr == 1 {
        assert(k * dr == k) by (nonlinear_arith)
            requires
                dr == 1,
        ;
    } else if dr == -1 {
        assert(k * dr == -k) by (nonlinear_arith)
            requires
                dr == -1,
        ;
    } else if dc == 1 {
        assert(k * dc == k) by (nonlinear_arith)
            requires
                dc == 1,
        ;
    } else {
        assert(dc == -1);
        assert(k * dc == -k) by (nonlinear_arith)
            requires
                dc == -1,
        ;
    }
}

/// Whether placing `p`'s stone at (r, c) is legal by the bracketing rule.
pub fn is_valid_move(board: &Board, r: usize, c: usize, p: Player) -> (legal: bool)
    requires
        board.wf(),
    ensures
        legal == is_legal(board@, r as int, c as int, p),
{
    if r >= 8 || c >= 8 {
        return false;
    }
    if board.at(r, c) != Cell::Empty {
        return false;
    }
    let mut d: usize = 0;
    while d < 8
        invariant
            board.wf(),
            in_range(r as int, c as int),
            cell_at(board@, r as int, c as int) == Cell::Empty,
            d <= 8,
            forall|j: int|
                0 <= j < d ==> !#[trigger] dir_has_bracket(board@, r as int, c as int, j, p),
        decreases 8 - d,
    {
        let (dr, dc) = dir_step(d);
        let n = check(board, r, c, dr, dc, p);
        if n > 0 {
            proof {
                assert(bracket_at(
                    board@,
                    r as int,
                    c as int,
                    dir_dr(d as int),
                    dir_dc(d as int),
                    p,
                    n as int,
                ));
                assert(0 <= (d as int) && (d as int) < 8);
                assert(dir_has_bracket(board@, r as int, c as int, d as int, p));
            }
            return true;
        }
        proof {
            assert(!dir_has_bracket(board@, r as int, c as int, d as int, p));
        }
        d = d + 1;
    }
    proof {
        assert(!(exists|j: int|
            0 <= j < 8 && #[trigger] dir_has_bracket(board@, r as int, c as int, j, p)));
    }
    false
}

/// `p` has at least one legal move somewhere on the board.
pub open spec fn has_move_spec(b: Seq<Cell>, p: Player) -> bool {
    exists|r: int, c: int| #[trigger] is_legal(b, r, c, p)
}

/// Scan the empty squares for a legal move of `p`, stopping at the first.
pub fn has_any_move(board: &Board, p: Player) -> (found: bool)
    requires
        board.wf(),
    ensures
        found == has_move_spec(board@, p),
{
    let mut r: usize = 0;
    while r < 8
        invariant
            board.wf(),
            r <= 8,
            forall|rr: int, cc: int| 0 <= rr < r ==> !#[trigger] is_legal(board@, rr, cc, p),
        decreases 8 - r,
    {
        let mut c: usize = 0;
        while c < 8
            invariant
                board.wf(),
                r < 8,
                c <= 8,
                forall|rr: int, cc: int| 0 <= rr < r ==> !#[trigger] is_legal(board@, rr, cc, p),
                forall|cc: int| 0 <= cc < c ==> !#[trigger] is_legal(board@, r as int, cc, p),
            decreases 8 - c,
        {
            if is_valid_move(board, r, c, p) {
                proof {
                    assert(is_legal(board@, r as int, c as int, p));
                }
                return true;
            }
            c = c + 1;
        }
        proof {
            assert forall|cc: int| !#[trigger] is_legal(board@, r as int, cc, p) by {
                if 0 <= cc < 8 {
                    assert(!is_legal(board@, r as int, cc, p));
                } else {
                    assert(!in_range(r as int, cc));
                }
            }
        }
        r = r + 1;
    }
    proof {
        assert(!has_move_spec(board@, p)) by {
            if has_move_spec(board@, p) {
                let (rr, cc) = choose|rr: int, cc: int| is_legal(board@, rr, cc, p);
                assert(in_range(rr, cc));
                assert(!is_legal(board@, rr, cc, p));
            }
        }
    }
    false
}

/// Square `i` is among the first `n` squares out from (r, c) in direction
/// (dr, dc).
pub open spec fn on_ray_prefix(r: int, c: int, dr: int, dc: int, n: int, i: int) -> bool {
    exists|k: int| 1 <= k <= n && i == #[trigger] flip_idx(r, c, dr, dc, k)
}

/// A ray square at step k >= 1 is never the origin square.
proof fn lemma_ray_off_origin(dr: int, dc: int, k: int)
    requires
        dir_ok(dr, dc),
        k >= 1,
    ensures
        k * dr != 0 || k * dc != 0,
{
    assert(k * dr != 0 || k * dc != 0) by (nonlinear_arith)
        requires
            -1 <= dr <= 1,
            -1 <= dc <= 1,
            !(dr == 0 && dc == 0),
            k >= 1,
    ;
}

/// Two distinct compass directions take distinct unit steps.
proof fn lemma_dirs_injective(d1: int, d2: int)
    requires
        0 <= d1 < 8,
        0 <= d2 < 8,
        d1 != d2,
    ensures
        !(dir_dr(d1) == dir_dr(d2) && dir_dc(d1) == dir_dc(d2)),
{
}

/// Adding one compass direction to the flip set: with a bracket of length `n`
/// in direction `d`, the squares flipped by directions below `d + 1` are
/// those flipped below `d` plus the run of direction `d`.
proof fn lemma_upto_step(b: Seq<Cell>, r: int, c: int, p: Player, d: int, n: int)
    requires
        0 <= d < 8,
        bracket_at(b, r, c, dir_dr(d), dir_dc(d), p, n),
    ensures
        forall|i: int|
            #[trigger] move_flips_upto_idx(b, r, c, p, d + 1, i) == (move_flips_upto_idx(
                b,
                r,
                c,
                p,
                d,
                i,
            ) || on_ray_prefix(r, c, dir_dr(d), dir_dc(d), n, i)),
{
    assert forall|i: int|
        #[trigger] move_flips_upto_idx(b, r, c, p, d + 1, i) == (move_flips_upto_idx(b, r, c, p, d, i)
            || on_ray_prefix(r, c, dir_dr(d), dir_dc(d), n, i)) by {
        if move_flips_upto_idx(b, r, c, p, d + 1, i) {
            let (d2, k2) = choose|d2: int, k2: int|
                0 <= d2 < d + 1 && #[trigger] flips_to(b, r, c, dir_dr(d2), dir_dc(d2), p, k2) && i
                    == flip_idx(r, c, dir_dr(d2), dir_dc(d2), k2);
            if d2 == d {
                let n2 = choose|n2: int|
                    #[trigger] bracket_at(b, r, c, dir_dr(d), dir_dc(d), p, n2) && 1 <= k2 <= n2;
                lemma_bracket_unique(b, r, c, dir_dr(d), dir_dc(d), p, n2, n);
                assert(i == flip_idx(r, c, dir_dr(d), dir_dc(d), k2));
                assert(on_ray_prefix(r, c, dir_dr(d), dir_dc(d), n, i));
            } else {
                assert(move_flips_upto_idx(b, r, c, p, d, i));
            }
        }
        if move_flips_upto_idx(b, r, c, p, d, i) {
            let (d2, k2) = choose|d2: int, k2: int|
                0 <= d2 < d && #[trigger] flips_to(b, r, c, dir_dr(d2), dir_dc(d2), p, k2) && i
                    == flip_idx(r, c, dir_dr(d2), dir_dc(d2), k2);
            assert(move_flips_upto_idx(b, r, c, p, d + 1, i));
        }
        if on_ray_prefix(r, c, dir_dr(d), dir_dc(d), n, i) {
            let k2 = choose|k2: int| 1 <= k2 <= n && i == #[trigger] flip_idx(r, c, dir_dr(d), dir_dc(d), k2);
            assert(flips_to(b, r, c, dir_dr(d), dir_dc(d), p, k2));
            assert(move_flips_upto_idx(b, r, c, p, d + 1, i));
        }
    }
}

/// A direction with no bracket adds nothing to the flip set.
proof fn lemma_upto_skip(b: Seq<Cell>, r: int, c: int, p: Player, d: int)
    requires
        0 <= d < 8,
        !dir_has_bracket(b, r, c, d, p),
    ensures
        forall|i: int|
            #[trigger] move_flips_upto_idx(b, r, c, p, d + 1, i) == move_flips_upto_idx(
                b,
                r,
                c,
                p,
                d,
                i,
            ),
{
    assert forall|i: int|
        #[trigger] move_flips_upto_idx(b, r, c, p, d + 1, i) == move_flips_upto_idx(
            b,
            r,
            c,
            p,
            d,
            i,
        ) by {
        if move_flips_upto_idx(b, r, c, p, d + 1, i) {
            let (d2, k2) = choose|d2: int, k2: int|
                0 <= d2 < d + 1 && #[trigger] flips_to(b, r, c, dir_dr(d2), dir_dc(d2), p, k2) && i
                    == flip_idx(r, c, dir_dr(d2), dir_dc(d2), k2);
            if d2 == d {
                let n2 = choose|n2: int|
                    #[trigger] bracket_at(b, r, c, dir_dr(d), dir_dc(d), p, n2) && 1 <= k2 <= n2;
                assert(has_bracket(b, r, c, dir_dr(d), dir_dc(d), p));
                assert(false);
            } else {
                assert(move_flips_upto_idx(b, r, c, p, d, i));
            }
        }
        if move_flips_upto_idx(b, r, c, p, d, i) {
            let (d2, k2) = choose|d2: int, k2: int|
                0 <= d2 < d && #[trigger] flips_to(b, r, c, dir_dr(d2), dir_dc(d2), p, k2) && i
                    == flip_idx(r, c, dir_dr(d2), dir_dc(d2), k2);
            assert(move_flips_upto_idx(b, r, c, p, d + 1, i));
        }
    }
}

/// Recolor a bracketed run: the squares 1..=n out from (r, c) in direction
/// (dr, dc), all currently the opponent's, take `p`'s stone.
fn flip_run(board: &mut Board, r: usize, c: usize, dr: i32, dc: i32, p: Player, n: usize)
    requires
        old(board).wf(),
        in_range(r as int, c as int),
        dir_ok(dr as int, dc as int),
        1 <= n <= 6,
        forall|k: int|
            1 <= k <= n ==> #[trigger] ray_in(r as int, c as int, dr as int, dc as int, k),
        forall|k: int|
            1 <= k <= n ==> #[trigger] ray_cell(old(board)@, r as int, c as int, dr as int, dc as int, k)
                == p.spec_opponent().stone(),
    ensures
        final(board).wf(),
        forall|i: int|
            0 <= i < 64 ==> #[trigger] final(board)@[i] == (if on_ray_prefix(
                r as int,
                c as int,
                dr as int,
                dc as int,
                n as int,
                i,
            ) {
                p.stone()
            } else {
                old(board)@[i]
            }),
        count_cells(final(board)@, p.stone()) == count_cells(old(board)@, p.stone()) + n,
        count_cells(final(board)@, p.spec_opponent().stone()) + n == count_cells(
            old(board)@,
            p.spec_opponent().stone(),
        ),
        count_cells(final(board)@, Cell::Empty) == count_cells(old(board)@, Cell::Empty),
{
    let ghost b0 = board@;
    let ghost gr = r as int;
    let ghost gc = c as int;
    let ghost gdr = dr as int;
    let ghost gdc = dc as int;
    let mine = p.stone_of();
    let mut k: usize = 1;
    let mut ri: i32 = r as i32 + dr;
    let mut ci: i32 = c as i32 + dc;
    while k <= n
        invariant
            board.wf(),
            b0.len() == 64,
            in_range(gr, gc),
            dir_ok(gdr, gdc),
            gr == r as int,
            gc == c as int,
            gdr == dr as int,
            gdc == dc as int,
            1 <= n <= 6,
            1 <= k <= n + 1,
            mine == p.stone(),
            ri as int == ray_r(gr, gdr, k as int),
            ci as int == ray_c(gc, gdc, k as int),
            -1 <= ri <= 8,
            -1 <= ci <= 8,
            forall|k2: int| 1 <= k2 <= n ==> #[trigger] ray_in(gr, gc, gdr, gdc, k2),
            forall|k2: int|
                1 <= k2 <= n ==> #[trigger] ray_cell(b0, gr, gc, gdr, gdc, k2)
                    == p.spec_opponent().stone(),
            forall|k2: int|
                k <= k2 <= n ==> #[trigger] ray_cell(board@, gr, gc, gdr, gdc, k2)
                    == p.spec_opponent().stone(),
            forall|i: int|
                0 <= i < 64 ==> #[trigger] board@[i] == (if on_ray_prefix(
                    gr,
                    gc,
                    gdr,
                    gdc,
                    k - 1,
                    i,
                ) {
                    p.stone()
                } else {
                    b0[i]
                }),
            count_cells(board@, p.stone()) == count_cells(b0, p.stone()) + k - 1,
            count_cells(board@, p.spec_opponent().stone()) + k - 1 == count_cells(
                b0,
                p.spec_opponent().stone(),
            ),
            count_cells(board@, Cell::Empty) == count_cells(b0, Cell::Empty),
        decreases n + 1 - k,
    {
        let ghost prev = board@;
        proof {
            assert(ray_in(gr, gc, gdr, gdc, k as int));
            assert(ray_cell(board@, gr, gc, gdr, gdc, k as int) == p.spec_opponent().stone());
            assert(ri as usize as int == ri as int);
            assert(ci as usize as int == ci as int);
            assert(p.stone() != p.spec_opponent().stone());
            assert(p.stone() != Cell::Empty);
            assert(p.spec_opponent().stone() != Cell::Empty);
        }
        board.set(ri as usize, ci as usize, mine);
        proof {
            let ghost ik = flip_idx(gr, gc, gdr, gdc, k as int);
            assert(ik == idx(ri as int, ci as int));
            assert(board@ == prev.update(ik, p.stone()));
            // the flipped square joins the prefix; everything else keeps its case
            assert(on_ray_prefix(gr, gc, gdr, gdc, k as int, ik));
            assert forall|i: int| 0 <= i < 64 implies #[trigger] board@[i] == (if on_ray_prefix(
                gr,
                gc,
                gdr,
                gdc,
                k as int,
                i,
            ) {
                p.stone()
            } else {
                b0[i]
            }) by {
                if i == ik {
                } else {
                    assert(board@[i] == prev[i]);
                    if on_ray_prefix(gr, gc, gdr, gdc, k as int, i) {
                        let k2 = choose|k2: int|
                            1 <= k2 <= k && i == #[trigger] flip_idx(gr, gc, gdr, gdc, k2);
                        assert(k2 != k);
                        assert(on_ray_prefix(gr, gc, gdr, gdc, k - 1, i));
                    } else {
                        if on_ray_prefix(gr, gc, gdr, gdc, k - 1, i) {
                            let k2 = choose|k2: int|
                                1 <= k2 <= k - 1 && i == #[trigger] flip_idx(gr, gc, gdr, gdc, k2);
                            assert(on_ray_prefix(gr, gc, gdr, gdc, k as int, i));
                        }
                    }
                }
            }
            // squares further out on the ray are untouched
            assert forall|k2: int| k + 1 <= k2 <= n implies #[trigger] ray_cell(
                board@,
                gr,
                gc,
                gdr,
                gdc,
                k2,
            ) == p.spec_opponent().stone() by {
                lemma_same_ray_distinct(gdr, gdc, k2, k as int);
                assert(ray_in(gr, gc, gdr, gdc, k2));
                assert(flip_idx(gr, gc, gdr, gdc, k2) != ik);
                assert(ray_cell(prev, gr, gc, gdr, gdc, k2) == p.spec_opponent().stone());
            }
            assert(((k + 1) as int) * gdr == (k as int) * gdr + gdr) by (nonlinear_arith);
            assert(((k + 1) as int) * gdc == (k as int) * gdc + gdc) by (nonlinear_arith);
        }
        k = k + 1;
        ri = ri + dr;
        ci = ci + dc;
    }
}

/// One pass of bookkeeping over a position: the stone counts, and whether
/// the mover and the opponent each still have a legal move.
pub fn analyze_board(board: &Board, p: Player) -> (res: (u64, u64, bool, bool))
    requires
        board.wf(),
    ensures
        res.0 == count_cells(board@, Cell::Black),
        res.1 == count_cells(board@, Cell::White),
        res.2 == has_move_spec(board@, p),
        res.3 == has_move_spec(board@, p.spec_opponent()),
{
    let (black, white) = board.count_colors();
    let valid_cur = has_any_move(board, p);
    let valid_opp = has_any_move(board, p.opponent());
    (black, white, valid_cur, valid_opp)
}

/// Attempt the move (r, c) for `p`: on a legal move, place the stone, flip
/// every bracketed opponent stone, and return how many flipped; on an illegal
/// move, leave the board exactly as it was and say why.
pub fn try_apply_move(board: &mut Board, r: usize, c: usize, p: Player) -> (res: Result<
    usize,
    MoveError,
>)
    requires
        old(board).wf(),
    ensures
        final(board).wf(),
        match res {
            Result::Err(e) => {
                &&& move_error(old(board)@, r as int, c as int, p) == Some(e)
                &&& final(board)@ == old(board)@
            },
            Result::Ok(f) => {
                &&& move_error(old(board)@, r as int, c as int, p) is None
                &&& is_legal(old(board)@, r as int, c as int, p)
                &&& final(board)@ == apply_spec(old(board)@, r as int, c as int, p)
                &&& 1 <= f <= 48
                &&& count_cells(final(board)@, p.stone()) == count_cells(old(board)@, p.stone())
                    + f + 1
                &&& count_cells(final(board)@, p.spec_opponent().stone()) + f == count_cells(
                    old(board)@,
                    p.spec_opponent().stone(),
                )
                &&& count_cells(final(board)@, Cell::Empty) + 1 == count_cells(
                    old(board)@,
                    Cell::Empty,
                )
                &&& forall|rr: int, cc: int|
                    in_range(rr, cc) && cell_at(old(board)@, rr, cc) != Cell::Empty
                        ==> #[trigger] cell_at(final(board)@, rr, cc) != Cell::Empty
            },
        },
{
    if r >= 8 || c >= 8 {
        return Err(MoveError::OutOfRange);
    }
    if board.at(r, c) != Cell::Empty {
        return Err(MoveError::CellOccupied);
    }
    let ghost b0 = board@;
    let ghost gr = r as int;
    let ghost gc = c as int;
    let mine = p.stone_of();
    let mut flips: usize = 0;
    let mut d: usize = 0;
    while d < 8
        invariant
            board.wf(),
            b0.len() == 64,
            in_range(gr, gc),
            gr == r as int,
            gc == c as int,
            cell_at(b0, gr, gc) == Cell::Empty,
            cell_at(board@, gr, gc) == Cell::Empty,
            mine == p.stone(),
            d <= 8,
            flips <= 6 * d,
            forall|i: int|
                0 <= i < 64 ==> #[trigger] board@[i] == (if move_flips_upto_idx(
                    b0,
                    gr,
                    gc,
                    p,
                    d as int,
                    i,
                ) {
                    p.stone()
                } else {
                    b0[i]
                }),
            flips == 0 ==> (forall|j: int|
                0 <= j < d ==> !#[trigger] dir_has_bracket(b0, gr, gc, j, p)),
            flips > 0 ==> (exists|j: int|
                0 <= j < d && #[trigger] dir_has_bracket(b0, gr, gc, j, p)),
            count_cells(board@, p.stone()) == count_cells(b0, p.stone()) + flips,
            count_cells(board@, p.spec_opponent().stone()) + flips == count_cells(
                b0,
                p.spec_opponent().stone(),
            ),
            count_cells(board@, Cell::Empty) == count_cells(b0, Cell::Empty),
        decreases 8 - d,
    {
        let (dr, dc) = dir_step(d);
        let ghost gdr = dr as int;
        let ghost gdc = dc as int;
        proof {
            // directions already processed never touched this direction's ray
            assert forall|k: int| k >= 1 && #[trigger] ray_in(gr, gc, gdr, gdc, k) implies ray_cell(
                board@,
                gr,
                gc,
                gdr,
                gdc,
                k,
            ) == ray_cell(b0, gr, gc, gdr, gdc, k) by {
                let i = flip_idx(gr, gc, gdr, gdc, k);
                assert(0 <= i < 64);
                if move_flips_upto_idx(b0, gr, gc, p, d as int, i) {
                    let (d2, k2) = choose|d2: int, k2: int|
                        0 <= d2 < d && #[trigger] flips_to(b0, gr, gc, dir_dr(d2), dir_dc(d2), p, k2)
                            && i == flip_idx(gr, gc, dir_dr(d2), dir_dc(d2), k2);
                    let n2 = choose|n2: int|
                        #[trigger] bracket_at(b0, gr, gc, dir_dr(d2), dir_dc(d2), p, n2) && 1 <= k2
                            <= n2;
                    assert(ray_in(gr, gc, dir_dr(d2), dir_dc(d2), k2));
                    lemma_dirs_injective(d2, d as int);
                    lemma_ray_disjoint(dir_dr(d2), dir_dc(d2), gdr, gdc, k2, k);
                    assert(false);
                }
            }
            lemma_bracket_agree(board@, b0, gr, gc, gdr, gdc, p);
        }
        let n = check(board, r, c, dr, dc, p);
        if n > 0 {
            proof {
                assert(bracket_at(board@, gr, gc, gdr, gdc, p, n as int));
                assert(bracket_at(b0, gr, gc, gdr, gdc, p, n as int));
                assert(dir_has_bracket(b0, gr, gc, d as int, p));
                assert(0 <= (d as int) && (d as int) < 8);
            }
            let ghost mid = board@;
            flip_run(board, r, c, dr, dc, p, n);
            flips = flips + n;
            proof {
                lemma_upto_step(b0, gr, gc, p, d as int, n as int);
                assert forall|i: int| 0 <= i < 64 implies #[trigger] board@[i] == (if
                move_flips_upto_idx(b0, gr, gc, p, d + 1, i) {
                    p.stone()
                } else {
                    b0[i]
                }) by {
                    assert(board@[i] == (if on_ray_prefix(gr, gc, gdr, gdc, n as int, i) {
                        p.stone()
                    } else {
                        mid[i]
                    }));
                }
                // the origin is on no ray
                assert(cell_at(board@, gr, gc) == Cell::Empty) by {
                    let io = idx(gr, gc);
                    assert(0 <= io < 64);
                    if on_ray_prefix(gr, gc, gdr, gdc, n as int, io) {
                        let k2 = choose|k2: int|
                            1 <= k2 <= n && io == #[trigger] flip_idx(gr, gc, gdr, gdc, k2);
                        assert(ray_in(gr, gc, gdr, gdc, k2));
                        lemma_ray_off_origin(gdr, gdc, k2);
                        assert(false);
                    }
                }
            }
        } else {
            proof {
                assert(!has_bracket(board@, gr, gc, gdr, gdc, p));
                assert forall|n2: int| !#[trigger] bracket_at(b0, gr, gc, gdr, gdc, p, n2) by {
                    if bracket_at(b0, gr, gc, gdr, gdc, p, n2) {
                        assert(bracket_at(board@, gr, gc, gdr, gdc, p, n2));
                    }
                }
                assert(!dir_has_bracket(b0, gr, gc, d as int, p));
                lemma_upto_skip(b0, gr, gc, p, d as int);
            }
        }
        d = d + 1;
    }
    if flips == 0 {
        proof {
            assert forall|i: int| 0 <= i < 64 implies #[trigger] board@[i] == b0[i] by {
                if move_flips_upto_idx(b0, gr, gc, p, 8, i) {
                    let (d2, k2) = choose|d2: int, k2: int|
                        0 <= d2 < 8 && #[trigger] flips_to(b0, gr, gc, dir_dr(d2), dir_dc(d2), p, k2)
                            && i == flip_idx(gr, gc, dir_dr(d2), dir_dc(d2), k2);
                    let n2 = choose|n2: int|
                        #[trigger] bracket_at(b0, gr, gc, dir_dr(d2), dir_dc(d2), p, n2) && 1 <= k2
                            <= n2;
                    assert(dir_has_bracket(b0, gr, gc, d2, p));
                    assert(false);
                }
            }
            assert(board@ =~= b0);
            assert(!(exists|j: int| 0 <= j < 8 && #[trigger] dir_has_bracket(b0, gr, gc, j, p)));
        }
        return Err(MoveError::NoCapture);
    }
    proof {
        assert(p.stone() != Cell::Empty);
        assert(p.spec_opponent().stone() != Cell::Empty);
    }
    board.set(r, c, mine);
    proof {
        assert(move_error(b0, gr, gc, p) is None);
        assert forall|i: int| 0 <= i < 64 implies #[trigger] board@[i] == apply_spec(b0, gr, gc, p)[i]
            by {
            assert(apply_spec(b0, gr, gc, p)[i] == (if i == idx(gr, gc) {
                p.stone()
            } else if move_flips_idx(b0, gr, gc, p, i) {
                p.stone()
            } else {
                b0[i]
            }));
        }
        assert(board@ =~= apply_spec(b0, gr, gc, p));
        assert forall|rr: int, cc: int|
            in_range(rr, cc) && cell_at(b0, rr, cc) != Cell::Empty implies #[trigger] cell_at(
            board@,
            rr,
            cc,
        ) != Cell::Empty by {
            assert(0 <= idx(rr, cc) < 64);
        }
    }
    Ok(flips)
}

} // verus!
