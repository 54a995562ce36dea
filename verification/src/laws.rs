//! What holds of every placement that the move generator lists.
use crate::bits::{
    fall, first_row, has_row, lemma_has_row_ops, lemma_has_row_shift, lemma_resting_rows,
    lemma_rows_equal, lemma_within, lemma_within_rows, low_rows, resting, within, ALL_ROWS,
};
use crate::board::lemma_height;
use crate::collision::lemma_blocked_rows;
use crate::data::{Board, Piece, PieceLocation, Rotation, Spin};
use crate::movegen::{list_rows, other_piece, placements, placements_of_both};
use crate::least::lemma_reach_least;
use crate::reach::{
    lemma_closed_slot, lemma_kick_slot, lemma_seed_free, lemma_shut_resting,
    lemma_slot_ok_nothing, Marks, Setup,
};
use vstd::prelude::*;

verus! {

/// Whether `loc` is a placement of `piece` in which it rests on `board`: the
/// piece is within the columns of the board and above the floor, none of its
/// cells lies on a filled cell, and one row lower it would not fit.
pub open spec fn rests_on(board: Board, piece: Piece, loc: PieceLocation) -> bool {
    &&& loc.piece == piece
    &&& 0 <= loc.x < 10
    &&& 0 <= loc.y < 64
    &&& board.rests(piece, loc.rotation, loc.x as int, loc.y as int)
    &&& !board.overlaps(loc)
}

/// One of the four cells of every piece in every orientation is the
/// reference cell itself.
pub proof fn lemma_reference_cell(piece: Piece, rot: Rotation) -> (i: int)
    ensures
        0 <= i < 4,
        piece.offset(rot, i) == (0int, 0int),
{
    match piece {
        Piece::Z => 2,
        Piece::O => 0,
        _ => 1,
    }
}

/// A piece that does not fit has a cell on a closed cell; one that fits and
/// lies in the rows up to 61 is on the board, and overlaps nothing.
pub proof fn lemma_fits(board: Board, loc: PieceLocation)
    requires
        !board.blocks(loc.piece, loc.rotation, loc.x as int, loc.y as int),
    ensures
        !board.overlaps(loc),
        0 <= loc.y,
        loc.y <= 61 ==> loc.on_board(),
{
    let k = lemma_reference_cell(loc.piece, loc.rotation);
    assert(!board.solid(
        loc.x + loc.piece.offset(loc.rotation, k).0,
        loc.y + loc.piece.offset(loc.rotation, k).1,
    ));
    assert forall|i: int| 0 <= i < 4 implies !board.filled(
        (#[trigger] loc.cell(i)).0,
        loc.cell(i).1,
    ) by {
        assert(!board.solid(
            loc.x + loc.piece.offset(loc.rotation, i).0,
            loc.y + loc.piece.offset(loc.rotation, i).1,
        ));
    }
    if loc.y <= 61 {
        assert forall|i: int| 0 <= i < 4 implies 0 <= (#[trigger] loc.cell(i)).0 < 10 && 0
            <= loc.cell(i).1 < 64 by {
            assert(!board.solid(
                loc.x + loc.piece.offset(loc.rotation, i).0,
                loc.y + loc.piece.offset(loc.rotation, i).1,
            ));
        }
    }
}

/// Two placements that cover the same cells, the cells of one in the
/// opposite order of the other, are blocked together.
pub proof fn lemma_same_cells(
    board: Board,
    piece: Piece,
    ra: Rotation,
    xa: int,
    ya: int,
    rb: Rotation,
    xb: int,
    yb: int,
)
    requires
        forall|i: int|
            0 <= i < 4 ==> xa + (#[trigger] piece.offset(ra, i)).0 == xb + piece.offset(rb, 3 - i).0
                && ya + piece.offset(ra, i).1 == yb + piece.offset(rb, 3 - i).1,
    ensures
        board.blocks(piece, ra, xa, ya) == board.blocks(piece, rb, xb, yb),
{
    if board.blocks(piece, ra, xa, ya) {
        let i = choose|i: int|
            0 <= i < 4 && board.solid(
                xa + (#[trigger] piece.offset(ra, i)).0,
                ya + piece.offset(ra, i).1,
            );
        let j = 3 - i;
        assert(board.solid(xb + piece.offset(rb, j).0, yb + piece.offset(rb, j).1));
    }
    if board.blocks(piece, rb, xb, yb) {
        let j = choose|j: int|
            0 <= j < 4 && board.solid(
                xb + (#[trigger] piece.offset(rb, j)).0,
                yb + piece.offset(rb, j).1,
            );
        let i = 3 - j;
        assert(piece.offset(ra, i) == piece.offset(ra, i));
        assert(board.solid(xa + piece.offset(ra, i).0, ya + piece.offset(ra, i).1));
    }
}

/// The S, Z and I piece cover the same cells facing South as facing North,
/// and facing West as facing East, one step apart.
pub proof fn lemma_twins(board: Board, piece: Piece, x: int, y: int)
    requires
        piece == Piece::S || piece == Piece::Z || piece == Piece::I,
    ensures
        piece != Piece::I ==> board.blocks(piece, Rotation::South, x, y) == board.blocks(
            piece,
            Rotation::North,
            x,
            y - 1,
        ),
        piece != Piece::I ==> board.blocks(piece, Rotation::West, x, y) == board.blocks(
            piece,
            Rotation::East,
            x - 1,
            y,
        ),
        piece == Piece::I ==> board.blocks(piece, Rotation::South, x, y) == board.blocks(
            piece,
            Rotation::North,
            x - 1,
            y,
        ),
        piece == Piece::I ==> board.blocks(piece, Rotation::West, x, y) == board.blocks(
            piece,
            Rotation::East,
            x,
            y + 1,
        ),
{
    if piece != Piece::I {
        lemma_same_cells(board, piece, Rotation::South, x, y, Rotation::North, x, y - 1);
        lemma_same_cells(board, piece, Rotation::West, x, y, Rotation::East, x - 1, y);
    } else {
        lemma_same_cells(board, piece, Rotation::South, x, y, Rotation::North, x - 1, y);
        lemma_same_cells(board, piece, Rotation::West, x, y, Rotation::East, x, y + 1);
    }
}

/// In a resting row of a slot the piece rests.
pub proof fn lemma_resting_row(su: Setup, t: int, y: int)
    requires
        0 <= t < 40,
        has_row(resting(su.blocked(t)), y),
    ensures
        0 <= y < 64,
        su.board.rests(su.piece, Setup::rot(t), t / 4, y),
{
    lemma_resting_rows(0, su.blocked(t), y);
    lemma_blocked_rows(su.board, su.piece, Setup::rot(t), t / 4, y);
    if y > 0 {
        lemma_blocked_rows(su.board, su.piece, Setup::rot(t), t / 4, y - 1);
    } else {
        let k = lemma_reference_cell(su.piece, Setup::rot(t));
        assert(su.board.solid(
            t / 4 + su.piece.offset(Setup::rot(t), k).0,
            -1 + su.piece.offset(Setup::rot(t), k).1,
        ));
    }
}

/// A row of a slot in which the piece rests is a resting row of the slot.
pub proof fn lemma_rests_row(su: Setup, t: int, y: int)
    requires
        0 <= t < 40,
        0 <= y < 64,
        su.board.rests(su.piece, Setup::rot(t), t / 4, y),
    ensures
        has_row(resting(su.blocked(t)), y),
{
    lemma_resting_rows(0, su.blocked(t), y);
    lemma_blocked_rows(su.board, su.piece, Setup::rot(t), t / 4, y);
    if y > 0 {
        lemma_blocked_rows(su.board, su.piece, Setup::rot(t), t / 4, y - 1);
    }
}

/// In a found resting row of a slot the piece rests.
proof fn lemma_rest_row(su: Setup, m: Marks, t: int, y: int)
    requires
        0 <= t < 40,
        has_row(su.rest(m, t), y),
    ensures
        0 <= y < 64,
        su.board.rests(su.piece, Setup::rot(t), t / 4, y),
{
    lemma_has_row_ops(m.found[t], resting(su.blocked(t)), y);
    lemma_resting_row(su, t, y);
}

/// Where the S or Z piece rests facing South or West, it rests one step
/// apart facing North or East.
proof fn lemma_twin_rests_sz(board: Board, piece: Piece, x: int, y: int)
    requires
        piece == Piece::S || piece == Piece::Z,
    ensures
        board.rests(piece, Rotation::South, x, y) == board.rests(piece, Rotation::North, x, y - 1),
        board.rests(piece, Rotation::West, x, y) == board.rests(piece, Rotation::East, x - 1, y),
{
    lemma_twins(board, piece, x, y);
    lemma_twins(board, piece, x, y - 1);
}

/// Where the I piece rests facing South or West, it rests one step apart
/// facing North or East.
proof fn lemma_twin_rests_i(board: Board, x: int, y: int)
    ensures
        board.rests(Piece::I, Rotation::South, x, y) == board.rests(
            Piece::I,
            Rotation::North,
            x - 1,
            y,
        ),
        board.rests(Piece::I, Rotation::West, x, y) == board.rests(
            Piece::I,
            Rotation::East,
            x,
            y + 1,
        ),
{
    lemma_twins(board, Piece::I, x, y);
    lemma_twins(board, Piece::I, x, y - 1);
}

/// In a row listed under a slot for the orientation across, the S or Z
/// piece rests in the orientation of the slot.
proof fn lemma_listed_twin_sz(su: Setup, m: Marks, s: int, y: int)
    requires
        0 <= s < 40,
        0 <= y < 64,
        su.piece == Piece::S || su.piece == Piece::Z,
        s % 4 == 0 && has_row(su.rest(m, s + 2) >> 1, y) || s % 4 == 1 && s < 36 && has_row(
            su.rest(m, s + 6),
            y,
        ),
    ensures
        su.board.rests(su.piece, Setup::rot(s), s / 4, y),
{
    let x = s / 4;
    if s % 4 == 0 {
        lemma_has_row_shift(su.rest(m, s + 2), 1, y);
        lemma_rest_row(su, m, s + 2, y + 1);
        lemma_twin_rests_sz(su.board, su.piece, x, y + 1);
    } else {
        lemma_rest_row(su, m, s + 6, y);
        lemma_twin_rests_sz(su.board, su.piece, x + 1, y);
    }
}

/// In a row listed under a slot for the orientation across, the I piece
/// rests in the orientation of the slot.
proof fn lemma_listed_twin_i(su: Setup, m: Marks, s: int, y: int)
    requires
        0 <= s < 40,
        0 <= y < 64,
        su.piece == Piece::I,
        s % 4 == 0 && s < 36 && has_row(su.rest(m, s + 6), y) || s % 4 == 1 && has_row(
            su.rest(m, s + 2) << 1,
            y,
        ),
    ensures
        su.board.rests(su.piece, Setup::rot(s), s / 4, y),
{
    let x = s / 4;
    if s % 4 == 0 {
        lemma_rest_row(su, m, s + 6, y);
        lemma_twin_rests_i(su.board, x + 1, y);
    } else {
        lemma_has_row_shift(su.rest(m, s + 2), 1, y);
        lemma_rest_row(su, m, s + 2, y - 1);
        lemma_twin_rests_i(su.board, x, y - 1);
    }
}

/// In a row listed under a slot the piece rests, in the orientation of the slot.
pub proof fn lemma_listed_row(su: Setup, m: Marks, s: int, y: int)
    requires
        0 <= s < 40,
        has_row(su.listed(m, s), y),
    ensures
        0 <= y < 64,
        su.board.rests(su.piece, Setup::rot(s), s / 4, y),
{
    let own = su.rest(m, s);
    lemma_has_row_ops(0, 0, y);
    if has_row(own, y) {
        lemma_rest_row(su, m, s, y);
    } else if su.piece == Piece::S || su.piece == Piece::Z {
        if s % 4 == 0 {
            lemma_has_row_ops(own, su.rest(m, s + 2) >> 1, y);
            lemma_listed_twin_sz(su, m, s, y);
        } else if s % 4 == 1 {
            if s < 36 {
                lemma_has_row_ops(own, su.rest(m, s + 6), y);
                lemma_listed_twin_sz(su, m, s, y);
            } else {
                lemma_has_row_ops(own, 0, y);
            }
        }
    } else if su.piece == Piece::I {
        if s % 4 == 0 {
            if s < 36 {
                lemma_has_row_ops(own, su.rest(m, s + 6), y);
                lemma_listed_twin_i(su, m, s, y);
            } else {
                lemma_has_row_ops(own, 0, y);
            }
        } else if s % 4 == 1 {
            lemma_has_row_ops(own, su.rest(m, s + 2) << 1, y);
            lemma_listed_twin_i(su, m, s, y);
        }
    }
}

/// Every entry of a list of rows is a placement in one of the rows.
pub proof fn lemma_list_entry(
    piece: Piece,
    x: int,
    rot: Rotation,
    rows: u64,
    marked: u64,
    low: Spin,
    high: Spin,
    n: int,
    i: int,
)
    requires
        0 <= n <= 64,
        0 <= i < list_rows(piece, x, rot, rows, marked, low, high, n).len(),
    ensures
        ({
            let loc = list_rows(piece, x, rot, rows, marked, low, high, n)[i];
            &&& loc.piece == piece
            &&& loc.x == x as i8
            &&& loc.rotation == rot
            &&& 0 <= loc.y < n
            &&& has_row(rows, loc.y as int)
            &&& loc.spin == if has_row(marked, loc.y as int) {
                high
            } else {
                low
            }
        }),
    decreases n,
{
    if n > 0 {
        let before = list_rows(piece, x, rot, rows, marked, low, high, n - 1);
        if i < before.len() {
            lemma_list_entry(piece, x, rot, rows, marked, low, high, n - 1, i);
        }
    }
}

/// Every placement listed under a slot is one in which the piece rests.
pub proof fn lemma_slot_moves_rest(su: Setup, m: Marks, s: int, i: int)
    requires
        0 <= s < 40,
        0 <= i < su.moves_at(m, s).len(),
    ensures
        rests_on(su.board, su.piece, su.moves_at(m, s)[i]),
{
    let x = s / 4;
    let rot = Setup::rot(s);
    let loc = su.moves_at(m, s)[i];
    if su.piece == Piece::T {
        let r = su.rest(m, s);
        let a = list_rows(su.piece, x, rot, r & m.plain[s], 0, Spin::NoSpin, Spin::NoSpin, 64);
        let b = list_rows(su.piece, x, rot, r & m.mini[s], 0, Spin::Mini, Spin::Mini, 64);
        let c = list_rows(su.piece, x, rot, r & m.full[s], 0, Spin::Full, Spin::Full, 64);
        if i < a.len() {
            lemma_list_entry(su.piece, x, rot, r & m.plain[s], 0, Spin::NoSpin, Spin::NoSpin, 64, i);
            lemma_has_row_ops(r, m.plain[s], loc.y as int);
        } else if i < a.len() + b.len() {
            lemma_list_entry(
                su.piece,
                x,
                rot,
                r & m.mini[s],
                0,
                Spin::Mini,
                Spin::Mini,
                64,
                i - a.len(),
            );
            lemma_has_row_ops(r, m.mini[s], loc.y as int);
        } else {
            lemma_list_entry(
                su.piece,
                x,
                rot,
                r & m.full[s],
                0,
                Spin::Full,
                Spin::Full,
                64,
                i - a.len() - b.len(),
            );
            lemma_has_row_ops(r, m.full[s], loc.y as int);
        }
        lemma_has_row_ops(m.found[s], resting(su.blocked(s)), loc.y as int);
        lemma_resting_row(su, s, loc.y as int);
    } else if su.piece == Piece::O {
        lemma_list_entry(su.piece, x, rot, su.listed(m, s), 0, Spin::NoSpin, Spin::NoSpin, 64, i);
        lemma_listed_row(su, m, s, loc.y as int);
    } else {
        lemma_list_entry(
            su.piece,
            x,
            rot,
            su.listed(m, s),
            su.immobile(s),
            Spin::NoSpin,
            Spin::Mini,
            64,
            i,
        );
        lemma_listed_row(su, m, s, loc.y as int);
    }
    lemma_fits(su.board, loc);
}

/// Every placement listed under the slots `0 .. n` is one in which the piece rests.
pub proof fn lemma_moves_rest(su: Setup, m: Marks, n: int, i: int)
    requires
        0 <= n <= 40,
        0 <= i < su.moves_upto(m, n).len(),
    ensures
        rests_on(su.board, su.piece, su.moves_upto(m, n)[i]),
    decreases n,
{
    if n > 0 {
        let before = su.moves_upto(m, n - 1);
        if i < before.len() {
            lemma_moves_rest(su, m, n - 1, i);
        } else {
            lemma_slot_moves_rest(su, m, n - 1, i - before.len());
        }
    }
}

/// In every placement that the move generator lists the piece rests on the
/// board: it overlaps nothing, and one more step down would not move it.
pub proof fn lemma_placements_rest(board: Board, piece: Piece, force: bool, i: int)
    requires
        0 <= i < placements(board, piece, force).len(),
    ensures
        rests_on(board, piece, placements(board, piece, force)[i]),
{
    let su = Setup { board, piece, force };
    lemma_moves_rest(su, su.reach(), 40, i);
}

/// A placement in which the piece rests on the board, in the rows up to 61,
/// lies on four cells of the board that are all empty and no two of which
/// are the same: placing it fills these four and no other cell.
pub proof fn lemma_placement_fills(board: Board, piece: Piece, loc: PieceLocation)
    requires
        rests_on(board, piece, loc),
        loc.y <= 61,
    ensures
        loc.in_range(),
        loc.on_board(),
        forall|i: int| 0 <= i < 4 ==> !board.filled((#[trigger] loc.cell(i)).0, loc.cell(i).1),
        forall|i: int, j: int| 0 <= i < j < 4 ==> loc.cell(i) != loc.cell(j),
        forall|x: int, y: int| loc.covers(x, y) ==> !board.filled(x, y),
{
    lemma_fits(board, loc);
    assert forall|i: int| 0 <= i < 4 implies !board.filled(
        (#[trigger] loc.cell(i)).0,
        loc.cell(i).1,
    ) by {
        assert(!board.solid(
            loc.x + loc.piece.offset(loc.rotation, i).0,
            loc.y + loc.piece.offset(loc.rotation, i).1,
        ));
    }
}

/// A row of a list of rows is the row of one of its entries.
pub proof fn lemma_list_has(
    piece: Piece,
    x: int,
    rot: Rotation,
    rows: u64,
    marked: u64,
    low: Spin,
    high: Spin,
    n: int,
    y: int,
) -> (i: int)
    requires
        0 <= y < n <= 64,
        has_row(rows, y),
    ensures
        0 <= i < list_rows(piece, x, rot, rows, marked, low, high, n).len(),
        list_rows(piece, x, rot, rows, marked, low, high, n)[i] == (PieceLocation {
            piece,
            x: x as i8,
            y: y as i8,
            rotation: rot,
            spin: if has_row(marked, y) {
                high
            } else {
                low
            },
        }),
    decreases n,
{
    let before = list_rows(piece, x, rot, rows, marked, low, high, n - 1);
    if y == n - 1 {
        before.len() as int
    } else {
        lemma_list_has(piece, x, rot, rows, marked, low, high, n - 1, y)
    }
}

/// A list of no rows has no entries.
pub proof fn lemma_list_nothing(
    piece: Piece,
    x: int,
    rot: Rotation,
    marked: u64,
    low: Spin,
    high: Spin,
    n: int,
)
    requires
        0 <= n <= 64,
    ensures
        list_rows(piece, x, rot, 0, marked, low, high, n).len() == 0,
    decreases n,
{
    if n > 0 {
        lemma_list_nothing(piece, x, rot, marked, low, high, n - 1);
        lemma_has_row_ops(0, 0, n - 1);
    }
}

/// A placement listed under a slot is among the placements listed under all slots.
pub proof fn lemma_moves_has(su: Setup, m: Marks, n: int, s: int, j: int) -> (i: int)
    requires
        0 <= s < n <= 40,
        0 <= j < su.moves_at(m, s).len(),
    ensures
        0 <= i < su.moves_upto(m, n).len(),
        su.moves_upto(m, n)[i] == su.moves_at(m, s)[j],
    decreases n,
{
    if s == n - 1 {
        su.moves_upto(m, n - 1).len() + j
    } else {
        lemma_moves_has(su, m, n - 1, s, j)
    }
}

/// What the T piece reaches by a turn it is listed with, under the spin that
/// the turn gives it. If the T piece lands in row `y` with kick `i` of the
/// turn by `q` quarters from a row that it reaches in slot `s`, and rests
/// there, then its placement there is listed: without spin if fewer than
/// three corners around it are filled; else with a full spin if the kick is
/// the last of a quarter turn or both corners in front of the piece are
/// filled; and else with a mini spin.
pub proof fn lemma_turn_is_listed(board: Board, force: bool, s: int, q: int, i: int, y: int) -> (k:
    int)
    requires
        0 <= s < 40,
        1 <= q <= 3,
        0 <= i < Setup::kick_count(q),
        ({
            let su = Setup { board, piece: Piece::T, force };
            &&& su.kick_slot(s, q, i) >= 0
            &&& has_row(su.landed(s, q, i, su.reach().found[s]), y)
            &&& has_row(resting(su.blocked(su.kick_slot(s, q, i))), y)
        }),
    ensures
        ({
            let su = Setup { board, piece: Piece::T, force };
            let t = su.kick_slot(s, q, i);
            &&& 0 <= k < placements(board, Piece::T, force).len()
            &&& placements(board, Piece::T, force)[k] == (PieceLocation {
                piece: Piece::T,
                x: (t / 4) as i8,
                y: y as i8,
                rotation: Setup::rot(t),
                spin: if !has_row(su.spin(t), y) {
                    Spin::NoSpin
                } else if has_row(su.full_mask(s, q, i), y) {
                    Spin::Full
                } else {
                    Spin::Mini
                },
            })
        }),
{
    let su = Setup { board, piece: Piece::T, force };
    let m = su.reach();
    let t = su.kick_slot(s, q, i);
    let x = t / 4;
    let rot = Setup::rot(t);
    let l = su.landed(s, q, i, m.found[s]);
    let fm = su.full_mask(s, q, i);
    let r = resting(su.blocked(t));
    lemma_reach_least(su);
    lemma_kick_slot(su, s, q, i);
    let d = lemma_closed_slot(su, m, s);
    assert(su.turn_ok(s, q, m.found[s], m));
    assert(su.kick_ok(s, q, i, m.found[s], m));
    // the row is found
    let dt = lemma_closed_slot(su, m, t);
    lemma_shut_resting(su, t);
    lemma_has_row_ops(l, !su.shut(t), y);
    lemma_has_row_ops(su.shut(t), su.shut(t), y);
    lemma_has_row_ops(r, su.shut(t), y);
    lemma_within_rows(l & !su.shut(t), m.found[t]);
    lemma_within_rows(r & su.shut(t), su.seed(t));
    lemma_within_rows(su.seed(t), m.found[t]);
    assert(has_row(m.found[t], y));
    lemma_has_row_ops(m.found[t], r, y);
    let rest = su.rest(m, t);
    assert(has_row(rest, y));
    // and marked as the turn marks it
    lemma_has_row_ops(l, !su.spin(t), y);
    lemma_has_row_ops(su.spin(t), su.spin(t), y);
    lemma_has_row_ops(l, su.spin(t), y);
    lemma_has_row_ops(l & su.spin(t), !fm, y);
    lemma_has_row_ops(fm, fm, y);
    lemma_has_row_ops(l & su.spin(t), fm, y);
    lemma_within_rows(l & !su.spin(t), m.plain[t]);
    lemma_within_rows(l & su.spin(t) & !fm, m.mini[t]);
    lemma_within_rows(l & su.spin(t) & fm, m.full[t]);
    let a = list_rows(Piece::T, x, rot, rest & m.plain[t], 0, Spin::NoSpin, Spin::NoSpin, 64);
    let b = list_rows(Piece::T, x, rot, rest & m.mini[t], 0, Spin::Mini, Spin::Mini, 64);
    let c = list_rows(Piece::T, x, rot, rest & m.full[t], 0, Spin::Full, Spin::Full, 64);
    lemma_has_row_ops(rest, m.plain[t], y);
    lemma_has_row_ops(rest, m.mini[t], y);
    lemma_has_row_ops(rest, m.full[t], y);
    lemma_has_row_ops(0, 0, y);
    let j = if !has_row(su.spin(t), y) {
        lemma_list_has(Piece::T, x, rot, rest & m.plain[t], 0, Spin::NoSpin, Spin::NoSpin, 64, y)
    } else if has_row(fm, y) {
        a.len() + b.len() + lemma_list_has(
            Piece::T,
            x,
            rot,
            rest & m.full[t],
            0,
            Spin::Full,
            Spin::Full,
            64,
            y,
        )
    } else {
        a.len() + lemma_list_has(
            Piece::T,
            x,
            rot,
            rest & m.mini[t],
            0,
            Spin::Mini,
            Spin::Mini,
            64,
            y,
        )
    };
    assert(su.moves_at(m, t) == a + b + c);
    lemma_moves_has(su, m, 40, t, j)
}

/// What the T piece reaches by a step to the side it is listed with without
/// spin: if it reaches row `y` of slot `s`, fits in the same row of the slot
/// `t` beside it and rests there, its placement there is listed without spin.
pub proof fn lemma_slide_is_listed(board: Board, force: bool, s: int, t: int, y: int) -> (k: int)
    requires
        0 <= s < 40,
        0 <= t < 40,
        t == s + 4 || t == s - 4,
        ({
            let su = Setup { board, piece: Piece::T, force };
            &&& has_row(su.reach().found[s], y)
            &&& has_row(resting(su.blocked(t)), y)
        }),
    ensures
        0 <= k < placements(board, Piece::T, force).len(),
        placements(board, Piece::T, force)[k] == (PieceLocation {
            piece: Piece::T,
            x: (t / 4) as i8,
            y: y as i8,
            rotation: Setup::rot(t),
            spin: Spin::NoSpin,
        }),
{
    let su = Setup { board, piece: Piece::T, force };
    let m = su.reach();
    let x = t / 4;
    let rot = Setup::rot(t);
    let r = resting(su.blocked(t));
    lemma_reach_least(su);
    let d = lemma_closed_slot(su, m, s);
    assert(su.shift_ok(t, m.found[s], m));
    let dt = lemma_closed_slot(su, m, t);
    lemma_shut_resting(su, t);
    crate::bits::lemma_fall(0, 0, su.blocked(t));
    lemma_within_rows(r, !su.blocked(t));
    lemma_has_row_ops(su.blocked(t), su.blocked(t), y);
    lemma_has_row_ops(m.found[s], !su.shut(t), y);
    lemma_has_row_ops(m.found[s], !su.blocked(t), y);
    lemma_has_row_ops(su.shut(t), su.shut(t), y);
    lemma_has_row_ops(r, su.shut(t), y);
    lemma_within_rows(m.found[s] & !su.shut(t), m.found[t]);
    lemma_within_rows(m.found[s] & !su.blocked(t), m.plain[t]);
    lemma_within_rows(r & su.shut(t), su.seed(t));
    lemma_within_rows(su.seed(t), m.found[t]);
    assert(has_row(m.found[t], y));
    assert(has_row(m.plain[t], y));
    lemma_has_row_ops(m.found[t], r, y);
    let rest = su.rest(m, t);
    lemma_has_row_ops(rest, m.plain[t], y);
    lemma_has_row_ops(0, 0, y);
    let j = lemma_list_has(
        Piece::T,
        x,
        rot,
        rest & m.plain[t],
        0,
        Spin::NoSpin,
        Spin::NoSpin,
        64,
        y,
    );
    lemma_moves_has(su, m, 40, t, j)
}

/// No placement is listed under a slot of a family that has found nothing.
proof fn lemma_nothing_listed(su: Setup, m: Marks, s: int)
    requires
        0 <= s < 40,
        m.wf(),
        forall|t: int| 0 <= t < 40 ==> #[trigger] m.found[t] == 0,
    ensures
        su.moves_at(m, s).len() == 0,
{
    let x = s / 4;
    let rot = Setup::rot(s);
    assert forall|t: int| 0 <= t < 40 implies #[trigger] su.rest(m, t) == 0 by {
        assert(m.found[t] == 0);
        lemma_nothing(resting(su.blocked(t)), 0);
    }
    assert(su.rest(m, s) == 0);
    if s + 2 < 40 {
        assert(su.rest(m, s + 2) == 0);
    }
    if s + 6 < 40 {
        assert(su.rest(m, s + 6) == 0);
    }
    lemma_nothing(m.plain[s], 0);
    lemma_nothing(m.mini[s], 0);
    lemma_nothing(m.full[s], 0);
    assert(su.listed(m, s) == 0);
    lemma_list_nothing(su.piece, x, rot, 0, Spin::NoSpin, Spin::NoSpin, 64);
    lemma_list_nothing(su.piece, x, rot, 0, Spin::Mini, Spin::Mini, 64);
    lemma_list_nothing(su.piece, x, rot, 0, Spin::Full, Spin::Full, 64);
    lemma_list_nothing(su.piece, x, rot, su.immobile(s), Spin::NoSpin, Spin::Mini, 64);
}

/// Nothing and nothing moved is nothing.
proof fn lemma_nothing(a: u64, b: u64)
    by (bit_vector)
    ensures
        0u64 & a == 0,
        0u64 | (0u64 >> 1) == 0,
        0u64 | (0u64 << 1) == 0,
        0u64 | 0u64 == 0,
{
}

/// Where the piece cannot enter the board, nothing is listed: on a board
/// that is not low, with the spawn row blocked, or with `force` with every
/// row from the spawn row up blocked, there is no placement.
pub proof fn lemma_blocked_spawn(board: Board, piece: Piece, force: bool)
    requires
        !(Setup { board, piece, force }).low(),
        (Setup { board, piece, force }).spawn() == 0,
    ensures
        placements(board, piece, force).len() == 0,
{
    let su = Setup { board, piece, force };
    let none = Marks {
        found: Seq::new(40, |t: int| 0u64),
        plain: Seq::new(40, |t: int| 0u64),
        mini: Seq::new(40, |t: int| 0u64),
        full: Seq::new(40, |t: int| 0u64),
    };
    lemma_reach_least(su);
    assert forall|s: int| 0 <= s < 40 implies #[trigger] su.closed_at(none, s) by {
        lemma_slot_ok_nothing(su, s, none);
        lemma_within(0, 0, 0);
        assert(su.seed(s) == 0);
    }
    assert(su.closed(none));
    let m = su.reach();
    assert(m.below(none));
    assert forall|t: int| 0 <= t < 40 implies #[trigger] m.found[t] == 0 by {
        assert(m.below_at(none, t));
        lemma_within(m.found[t], 0, 0);
    }
    lemma_none_listed(su, m, 40);
}

/// No placement is listed under the slots `0 .. n` of a family that has
/// found nothing.
proof fn lemma_none_listed(su: Setup, m: Marks, n: int)
    requires
        0 <= n <= 40,
        m.wf(),
        forall|t: int| 0 <= t < 40 ==> #[trigger] m.found[t] == 0,
    ensures
        su.moves_upto(m, n).len() == 0,
    decreases n,
{
    if n > 0 {
        lemma_none_listed(su, m, n - 1);
        lemma_nothing_listed(su, m, n - 1);
    }
}

/// From a row that a fall passes the piece comes to rest in a row below
/// that is found and plain.
proof fn lemma_descend(su: Setup, m: Marks, s: int, d: u64, y: int) -> (r: int)
    requires
        0 <= s < 40,
        0 <= y < 64,
        su.sink_ok(s, m.found[s], d, m),
        has_row(d, y),
        !has_row(su.blocked(s), y),
    ensures
        0 <= r <= y,
        has_row(su.rest(m, s), r),
        has_row(m.plain[s], r),
    decreases y,
{
    let b = su.blocked(s);
    lemma_resting_rows(d, b, y);
    lemma_within_rows(d, m.plain[s]);
    if has_row(resting(b), y) {
        lemma_has_row_ops(d, resting(b), y);
        lemma_within_rows(d & resting(b), m.found[s]);
        lemma_has_row_ops(m.found[s], resting(b), y);
        y
    } else {
        lemma_resting_rows(d, b, y - 1);
        lemma_within_rows(fall(d, b), d);
        lemma_descend(su, m, s, d, y - 1)
    }
}

/// From a row where the piece starts it comes to rest in a row that is
/// found and plain.
proof fn lemma_seed_lands(su: Setup, s: int, y0: int) -> (r: int)
    requires
        0 <= s < 40,
        0 <= y0 < 64,
        has_row(su.seed(s), y0),
    ensures
        0 <= r <= y0,
        has_row(su.rest(su.reach(), s), r),
        has_row(su.reach().plain[s], r),
{
    let m = su.reach();
    let b = su.blocked(s);
    lemma_reach_least(su);
    let d = lemma_closed_slot(su, m, s);
    lemma_seed_free(su, s);
    lemma_within_rows(su.seed(s), !b);
    lemma_has_row_ops(b, b, y0);
    lemma_within_rows(su.seed(s), m.found[s]);
    lemma_within_rows(su.seed(s), m.plain[s]);
    lemma_resting_rows(m.found[s], b, y0);
    if has_row(resting(b), y0) {
        lemma_has_row_ops(m.found[s], resting(b), y0);
        y0
    } else {
        lemma_resting_rows(m.found[s], b, y0 - 1);
        lemma_within_rows(fall(m.found[s], b), d);
        lemma_descend(su, m, s, d, y0 - 1)
    }
}

/// A word without rows from row 20 up is none of the words with one of the
/// top four rows.
pub proof fn lemma_low_word(b: u64)
    by (bit_vector)
    requires
        b >> 20 == 0,
    ensures
        b <= 0xffff_ffff_ffff_ffffu64 >> 4,
{
}

/// On a low board the piece starts in column 4 facing North, in the lowest
/// row above everything that is blocked there.
proof fn lemma_low_seed(su: Setup) -> (y: int)
    requires
        su.low(),
    ensures
        0 <= y < 64,
        has_row(su.seed(16), y),
{
    let b = su.blocked(16);
    let rot = Setup::rot(16);
    // no row from row 20 up is blocked
    assert forall|r: int| 20 <= r < 64 implies !has_row(b, r) by {
        lemma_blocked_rows(su.board, su.piece, rot, 4, r);
        if su.board.blocks(su.piece, rot, 4, r) {
            let i = choose|i: int|
                0 <= i < 4 && su.board.solid(
                    4 + (#[trigger] su.piece.offset(rot, i)).0,
                    r + su.piece.offset(rot, i).1,
                );
            crate::data::lemma_offsets_small(su.piece, rot, i);
            lemma_height(
                su.board,
                4 + su.piece.offset(rot, i).0,
                r + su.piece.offset(rot, i).1,
            );
        }
    }
    assert forall|r: int| 0 <= r < 64 implies has_row(b >> 20, r) == has_row(0, r) by {
        lemma_has_row_shift(b, 20, r);
        lemma_has_row_ops(0, 0, r);
    }
    lemma_rows_equal(b >> 20, 0);
    lemma_low_word(b);
    assert(su.seeded(16));
    vstd::std_specs::bits::axiom_u64_leading_zeros(b);
    let z = vstd::std_specs::bits::u64_leading_zeros(b);
    let top = 64 - z;
    if top > 0 {
        crate::bits::lemma_single_row(b, (top - 1) as u64);
        assert((b >> ((top - 1) as u64)) & 1u64 != 0u64);
        lemma_top_row(b >> ((top - 1) as u64));
        assert(has_row(b, top - 1));
    }
    assert(top <= 20);
    assert(!has_row(b, top)) by {
        assert((b >> (top as u64)) & 1u64 == 0u64);
    }
    lemma_resting_rows(0, b, top);
    lemma_has_row_shift(0, 21, top);
    lemma_has_row_shift(0, top, top);
    lemma_has_row_ops(low_rows(top), low_rows(top), top);
    lemma_has_row_ops(low_rows(21), !low_rows(top), top);
    lemma_has_row_ops(su.surface(16), resting(b), top);
    top
}

/// A word whose lowest row is not absent has it.
pub proof fn lemma_top_row(w: u64)
    by (bit_vector)
    requires
        w & 1u64 != 0u64,
    ensures
        w & 1 == 1,
{
}

/// Where the piece can enter the board, a placement is listed: on a low
/// board always, and on another board if the row in which the piece enters
/// is free.
pub proof fn lemma_placements_exist(board: Board, piece: Piece, force: bool)
    requires
        (Setup { board, piece, force }).low() || (Setup { board, piece, force }).spawn() != 0,
    ensures
        placements(board, piece, force).len() > 0,
{
    let su = Setup { board, piece, force };
    let m = su.reach();
    let y0 = if su.low() {
        lemma_low_seed(su)
    } else {
        first_row(su.spawn()) as int
    };
    let y = lemma_seed_lands(su, 16, y0);
    let rest = su.rest(m, 16);
    let rot = Setup::rot(16);
    lemma_has_row_ops(0, 0, y);
    let j = if piece == Piece::T {
        lemma_has_row_ops(rest, m.plain[16], y);
        lemma_list_has(piece, 4, rot, rest & m.plain[16], 0, Spin::NoSpin, Spin::NoSpin, 64, y)
    } else {
        let twin = su.listed(m, 16);
        lemma_has_row_ops(rest, su.rest(m, 18) >> 1, y);
        lemma_has_row_ops(rest, su.rest(m, 22), y);
        lemma_has_row_ops(rest, 0, y);
        assert(has_row(twin, y));
        if piece == Piece::O {
            lemma_list_has(piece, 4, rot, twin, 0, Spin::NoSpin, Spin::NoSpin, 64, y)
        } else {
            lemma_list_has(piece, 4, rot, twin, su.immobile(16), Spin::NoSpin, Spin::Mini, 64, y)
        }
    };
    let k = lemma_moves_has(su, m, 40, 16, j);
}

/// A list of the rows `0 .. n` has no more than `n` entries.
pub proof fn lemma_list_len(
    piece: Piece,
    x: int,
    rot: Rotation,
    rows: u64,
    marked: u64,
    low: Spin,
    high: Spin,
    n: int,
)
    requires
        0 <= n,
    ensures
        list_rows(piece, x, rot, rows, marked, low, high, n).len() <= n,
    decreases n,
{
    if n > 0 {
        lemma_list_len(piece, x, rot, rows, marked, low, high, n - 1);
    }
}

/// No more than 192 placements are listed under a slot.
pub proof fn lemma_moves_len(su: Setup, m: Marks, n: int)
    requires
        0 <= n <= 40,
    ensures
        su.moves_upto(m, n).len() <= 192 * n,
    decreases n,
{
    if n > 0 {
        lemma_moves_len(su, m, n - 1);
        let s = n - 1;
        let x = s / 4;
        let rot = Setup::rot(s);
        let r = su.rest(m, s);
        lemma_list_len(su.piece, x, rot, r & m.plain[s], 0, Spin::NoSpin, Spin::NoSpin, 64);
        lemma_list_len(su.piece, x, rot, r & m.mini[s], 0, Spin::Mini, Spin::Mini, 64);
        lemma_list_len(su.piece, x, rot, r & m.full[s], 0, Spin::Full, Spin::Full, 64);
        lemma_list_len(su.piece, x, rot, su.listed(m, s), 0, Spin::NoSpin, Spin::NoSpin, 64);
        lemma_list_len(
            su.piece,
            x,
            rot,
            su.listed(m, s),
            su.immobile(s),
            Spin::NoSpin,
            Spin::Mini,
            64,
        );
    }
}

/// No more than 7680 placements of a piece are listed.
pub proof fn lemma_placements_len(board: Board, piece: Piece, force: bool)
    ensures
        placements(board, piece, force).len() <= 7680,
{
    let su = Setup { board, piece, force };
    lemma_moves_len(su, su.reach(), 40);
}

/// The entries of a list of rows come in rising rows.
pub proof fn lemma_list_rising(
    piece: Piece,
    x: int,
    rot: Rotation,
    rows: u64,
    marked: u64,
    low: Spin,
    high: Spin,
    n: int,
    i: int,
    j: int,
)
    requires
        0 <= n <= 64,
        0 <= i < j < list_rows(piece, x, rot, rows, marked, low, high, n).len(),
    ensures
        list_rows(piece, x, rot, rows, marked, low, high, n)[i].y < list_rows(
            piece,
            x,
            rot,
            rows,
            marked,
            low,
            high,
            n,
        )[j].y,
    decreases n,
{
    if n > 0 {
        let before = list_rows(piece, x, rot, rows, marked, low, high, n - 1);
        if j < before.len() {
            lemma_list_rising(piece, x, rot, rows, marked, low, high, n - 1, i, j);
        } else {
            lemma_list_entry(piece, x, rot, rows, marked, low, high, n - 1, i);
        }
    }
}

/// Every placement listed under a slot is one of the piece, in the column
/// and the orientation of the slot.
pub proof fn lemma_slot_entry(su: Setup, m: Marks, s: int, i: int)
    requires
        0 <= s < 40,
        0 <= i < su.moves_at(m, s).len(),
    ensures
        su.moves_at(m, s)[i].piece == su.piece,
        su.moves_at(m, s)[i].x == s / 4,
        su.moves_at(m, s)[i].rotation == Setup::rot(s),
{
    lemma_slot_moves_rest(su, m, s, i);
    let x = s / 4;
    let rot = Setup::rot(s);
    if su.piece == Piece::T {
        let r = su.rest(m, s);
        let a = list_rows(su.piece, x, rot, r & m.plain[s], 0, Spin::NoSpin, Spin::NoSpin, 64);
        let b = list_rows(su.piece, x, rot, r & m.mini[s], 0, Spin::Mini, Spin::Mini, 64);
        if i < a.len() {
            lemma_list_entry(su.piece, x, rot, r & m.plain[s], 0, Spin::NoSpin, Spin::NoSpin, 64, i);
        } else if i < a.len() + b.len() {
            lemma_list_entry(
                su.piece,
                x,
                rot,
                r & m.mini[s],
                0,
                Spin::Mini,
                Spin::Mini,
                64,
                i - a.len(),
            );
        } else {
            lemma_list_entry(
                su.piece,
                x,
                rot,
                r & m.full[s],
                0,
                Spin::Full,
                Spin::Full,
                64,
                i - a.len() - b.len(),
            );
        }
    } else if su.piece == Piece::O {
        lemma_list_entry(su.piece, x, rot, su.listed(m, s), 0, Spin::NoSpin, Spin::NoSpin, 64, i);
    } else {
        lemma_list_entry(
            su.piece,
            x,
            rot,
            su.listed(m, s),
            su.immobile(s),
            Spin::NoSpin,
            Spin::Mini,
            64,
            i,
        );
    }
}

/// No placement is listed twice under a slot.
pub proof fn lemma_slot_distinct(su: Setup, m: Marks, s: int, i: int, j: int)
    requires
        0 <= s < 40,
        0 <= i < j < su.moves_at(m, s).len(),
    ensures
        su.moves_at(m, s)[i] != su.moves_at(m, s)[j],
{
    let x = s / 4;
    let rot = Setup::rot(s);
    if su.piece == Piece::T {
        let r = su.rest(m, s);
        let ra = r & m.plain[s];
        let rb = r & m.mini[s];
        let rc = r & m.full[s];
        let a = list_rows(su.piece, x, rot, ra, 0, Spin::NoSpin, Spin::NoSpin, 64);
        let b = list_rows(su.piece, x, rot, rb, 0, Spin::Mini, Spin::Mini, 64);
        let c = list_rows(su.piece, x, rot, rc, 0, Spin::Full, Spin::Full, 64);
        assert(su.moves_at(m, s) == a + b + c);
        let la = a.len() as int;
        let lb = b.len() as int;
        if i < la {
            lemma_list_entry(su.piece, x, rot, ra, 0, Spin::NoSpin, Spin::NoSpin, 64, i);
        } else if i < la + lb {
            lemma_list_entry(su.piece, x, rot, rb, 0, Spin::Mini, Spin::Mini, 64, i - la);
        } else {
            lemma_list_entry(su.piece, x, rot, rc, 0, Spin::Full, Spin::Full, 64, i - la - lb);
        }
        if j < la {
            lemma_list_entry(su.piece, x, rot, ra, 0, Spin::NoSpin, Spin::NoSpin, 64, j);
            lemma_list_rising(su.piece, x, rot, ra, 0, Spin::NoSpin, Spin::NoSpin, 64, i, j);
        } else if j < la + lb {
            lemma_list_entry(su.piece, x, rot, rb, 0, Spin::Mini, Spin::Mini, 64, j - la);
            if i >= la {
                lemma_list_rising(su.piece, x, rot, rb, 0, Spin::Mini, Spin::Mini, 64, i - la, j - la);
            }
        } else {
            lemma_list_entry(su.piece, x, rot, rc, 0, Spin::Full, Spin::Full, 64, j - la - lb);
            if i >= la + lb {
                lemma_list_rising(
                    su.piece,
                    x,
                    rot,
                    rc,
                    0,
                    Spin::Full,
                    Spin::Full,
                    64,
                    i - la - lb,
                    j - la - lb,
                );
            }
        }
        lemma_has_row_ops(0, 0, su.moves_at(m, s)[i].y as int);
        lemma_has_row_ops(0, 0, su.moves_at(m, s)[j].y as int);
    } else if su.piece == Piece::O {
        lemma_list_rising(su.piece, x, rot, su.listed(m, s), 0, Spin::NoSpin, Spin::NoSpin, 64, i, j);
    } else {
        lemma_list_rising(
            su.piece,
            x,
            rot,
            su.listed(m, s),
            su.immobile(s),
            Spin::NoSpin,
            Spin::Mini,
            64,
            i,
            j,
        );
    }
}

/// Every placement listed under the slots `0 .. n` is listed under one of them.
pub proof fn lemma_moves_slot(su: Setup, m: Marks, n: int, i: int) -> (s: int)
    requires
        0 <= n <= 40,
        0 <= i < su.moves_upto(m, n).len(),
    ensures
        0 <= s < n,
        su.moves_upto(m, n)[i].piece == su.piece,
        su.moves_upto(m, n)[i].x == s / 4,
        su.moves_upto(m, n)[i].rotation == Setup::rot(s),
    decreases n,
{
    let before = su.moves_upto(m, n - 1);
    if i < before.len() {
        lemma_moves_slot(su, m, n - 1, i)
    } else {
        lemma_slot_entry(su, m, n - 1, i - before.len());
        n - 1
    }
}

/// No placement is listed twice under the slots `0 .. n`.
pub proof fn lemma_moves_distinct(su: Setup, m: Marks, n: int, i: int, j: int)
    requires
        0 <= n <= 40,
        0 <= i < j < su.moves_upto(m, n).len(),
    ensures
        su.moves_upto(m, n)[i] != su.moves_upto(m, n)[j],
    decreases n,
{
    let before = su.moves_upto(m, n - 1);
    if j < before.len() {
        lemma_moves_distinct(su, m, n - 1, i, j);
    } else if i >= before.len() {
        lemma_slot_distinct(su, m, n - 1, i - before.len(), j - before.len());
    } else {
        let s = lemma_moves_slot(su, m, n - 1, i);
        lemma_slot_entry(su, m, n - 1, j - before.len());
    }
}

/// No placement of a piece is listed twice.
pub proof fn lemma_placements_distinct(board: Board, piece: Piece, force: bool, i: int, j: int)
    requires
        0 <= i < j < placements(board, piece, force).len(),
    ensures
        placements(board, piece, force)[i] != placements(board, piece, force)[j],
{
    let su = Setup { board, piece, force };
    lemma_moves_distinct(su, su.reach(), 40, i, j);
}

/// No placement is listed twice for the piece that is up and the piece from
/// the hold slot together: neither for one piece, nor for both when the
/// piece in the hold slot is the piece that is up.
pub proof fn lemma_both_distinct(
    board: Board,
    main_piece: Piece,
    hold_piece: Option<Piece>,
    force: bool,
    i: int,
    j: int,
)
    requires
        0 <= i < j < placements_of_both(board, main_piece, hold_piece, force).len(),
    ensures
        placements_of_both(board, main_piece, hold_piece, force)[i] != placements_of_both(
            board,
            main_piece,
            hold_piece,
            force,
        )[j],
        hold_piece == Some(main_piece) ==> placements_of_both(board, main_piece, hold_piece, force)
            == placements(board, main_piece, force),
{
    let first = placements(board, main_piece, force);
    if j < first.len() {
        lemma_placements_distinct(board, main_piece, force, i, j);
    } else {
        let h = other_piece(main_piece, hold_piece)->0;
        lemma_placements_rest(board, h, force, j - first.len());
        if i < first.len() {
            lemma_placements_rest(board, main_piece, force, i);
        } else {
            lemma_placements_distinct(board, h, force, i - first.len(), j - first.len());
        }
    }
    if hold_piece == Some(main_piece) {
        assert(placements_of_both(board, main_piece, hold_piece, force) =~= first);
    }
}

/// Two runs of the move generator on one board with one piece list the same
/// placements, in the same order.
pub proof fn lemma_placements_repeat(
    board: Board,
    piece: Piece,
    force: bool,
    before1: Seq<PieceLocation>,
    after1: Seq<PieceLocation>,
    before2: Seq<PieceLocation>,
    after2: Seq<PieceLocation>,
)
    requires
        after1 == before1 + placements(board, piece, force),
        after2 == before2 + placements(board, piece, force),
    ensures
        after1.subrange(before1.len() as int, after1.len() as int) == after2.subrange(
            before2.len() as int,
            after2.len() as int,
        ),
        after1.subrange(before1.len() as int, after1.len() as int).to_set() == after2.subrange(
            before2.len() as int,
            after2.len() as int,
        ).to_set(),
{
    let p = placements(board, piece, force);
    assert(after1.subrange(before1.len() as int, after1.len() as int) =~= p);
    assert(after2.subrange(before2.len() as int, after2.len() as int) =~= p);
}

} // verus!
