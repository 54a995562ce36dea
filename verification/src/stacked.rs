//! On a board without holes every position in which a piece rests is listed.
//!
//! A board is stacked if it is low and every filled cell lies on the floor
//! or on a filled cell: each column is filled from the floor up to its
//! height and empty above. On such a board a piece rests in one row only of
//! each column and orientation, the row in which it lands when it falls
//! there from above, and the move generator starts in that row.
use crate::bits::{
    has_row, lemma_has_row_ops, lemma_has_row_shift, lemma_rows_equal, lemma_single_row,
    lemma_within_rows, low_rows, resting, ALL_ROWS,
};
use crate::board::lemma_height;
use crate::collision::lemma_blocked_rows;
use crate::data::{lemma_offsets_small, Board, Piece, PieceLocation, Rotation, Spin};
use crate::laws::{
    lemma_list_has, lemma_low_word, lemma_moves_has, lemma_placements_rest, lemma_reference_cell,
    lemma_rests_row, lemma_top_row,
};
use crate::least::lemma_reach_least;
use crate::movegen::placements;
use crate::reach::{lemma_closed_slot, Marks, Setup, LOW_HEIGHT};
use vstd::prelude::*;

verus! {

impl Board {
    /// Whether the board is low and has no hole: every filled cell lies on
    /// the floor or on a filled cell.
    pub open spec fn stacked(self) -> bool {
        &&& self.height() <= LOW_HEIGHT
        &&& forall|x: int, y: int|
            0 <= x < 10 && 0 < y < 64 && #[trigger] self.filled(x, y) ==> self.filled(x, y - 1)
    }
}

/// The piece at a position, without spin.
pub open spec fn at(piece: Piece, rot: Rotation, x: int, y: int) -> PieceLocation {
    PieceLocation { piece, x: x as i8, y: y as i8, rotation: rot, spin: Spin::NoSpin }
}

/// Whether two placements cover the same cells.
pub open spec fn same_cells(a: PieceLocation, b: PieceLocation) -> bool {
    forall|cx: int, cy: int| #[trigger] a.covers(cx, cy) == b.covers(cx, cy)
}

/// The position under which the cells of a piece at `(x, y)` in orientation
/// `rot` are listed: the position itself in an orientation under which
/// placements are listed, and else the position one step apart in the
/// orientation across, or for the O piece facing North, in which the piece
/// covers the same cells.
pub open spec fn listed_as(piece: Piece, rot: Rotation, x: int, y: int) -> (Rotation, int, int) {
    match piece {
        Piece::S | Piece::Z => match rot {
            Rotation::South => (Rotation::North, x, y - 1),
            Rotation::West => (Rotation::East, x - 1, y),
            _ => (rot, x, y),
        },
        Piece::I => match rot {
            Rotation::South => (Rotation::North, x - 1, y),
            Rotation::West => (Rotation::East, x, y + 1),
            _ => (rot, x, y),
        },
        Piece::O => match rot {
            Rotation::North => (rot, x, y),
            Rotation::East => (Rotation::North, x, y - 1),
            Rotation::South => (Rotation::North, x - 1, y - 1),
            Rotation::West => (Rotation::North, x - 1, y),
        },
        _ => (rot, x, y),
    }
}

/// A piece covers the same cells at a position and at the position under
/// which it is listed.
pub proof fn lemma_listed_as_cells(piece: Piece, rot: Rotation, x: int, y: int)
    requires
        -100 < x < 100,
        -100 < y < 100,
    ensures
        same_cells(
            at(piece, rot, x, y),
            at(
                piece,
                listed_as(piece, rot, x, y).0,
                listed_as(piece, rot, x, y).1,
                listed_as(piece, rot, x, y).2,
            ),
        ),
{
}

/// Two positions of a piece in which it covers the same cells are blocked
/// together.
pub proof fn lemma_cover_blocks(
    board: Board,
    piece: Piece,
    ra: Rotation,
    xa: int,
    ya: int,
    rb: Rotation,
    xb: int,
    yb: int,
)
    requires
        -100 < xa < 100,
        -100 < ya < 100,
        -100 < xb < 100,
        -100 < yb < 100,
        same_cells(at(piece, ra, xa, ya), at(piece, rb, xb, yb)),
    ensures
        board.blocks(piece, ra, xa, ya) == board.blocks(piece, rb, xb, yb),
{
    let a = at(piece, ra, xa, ya);
    let b = at(piece, rb, xb, yb);
    if board.blocks(piece, ra, xa, ya) {
        let i = choose|i: int|
            0 <= i < 4 && board.solid(
                xa + (#[trigger] piece.offset(ra, i)).0,
                ya + piece.offset(ra, i).1,
            );
        let c = a.cell(i);
        assert(a.covers(c.0, c.1));
        assert(b.covers(c.0, c.1));
        let j = if b.cell(0) == c {
            0int
        } else if b.cell(1) == c {
            1
        } else if b.cell(2) == c {
            2
        } else {
            3
        };
        assert(board.solid(xb + piece.offset(rb, j).0, yb + piece.offset(rb, j).1));
    }
    if board.blocks(piece, rb, xb, yb) {
        let j = choose|j: int|
            0 <= j < 4 && board.solid(
                xb + (#[trigger] piece.offset(rb, j)).0,
                yb + piece.offset(rb, j).1,
            );
        let c = b.cell(j);
        assert(b.covers(c.0, c.1));
        assert(a.covers(c.0, c.1));
        let i = if a.cell(0) == c {
            0int
        } else if a.cell(1) == c {
            1
        } else if a.cell(2) == c {
            2
        } else {
            3
        };
        assert(board.solid(xa + piece.offset(ra, i).0, ya + piece.offset(ra, i).1));
    }
}

/// A piece that is not blocked has its reference cell on the board.
pub proof fn lemma_free_on_board(board: Board, piece: Piece, rot: Rotation, x: int, y: int)
    requires
        !board.blocks(piece, rot, x, y),
    ensures
        0 <= x < 10,
        0 <= y,
{
    let k = lemma_reference_cell(piece, rot);
    assert(!board.solid(x + piece.offset(rot, k).0, y + piece.offset(rot, k).1));
}

/// On a stacked board the cell below a closed cell is closed.
proof fn lemma_solid_below(board: Board, cx: int, cy: int)
    requires
        board.stacked(),
        board.solid(cx, cy),
    ensures
        board.solid(cx, cy - 1),
{
    if board.filled(cx, cy) && cy > 0 {
        assert(board.filled(cx, cy - 1));
    }
}

/// On a stacked board a piece that is blocked is blocked in every row below.
proof fn lemma_blocks_below(board: Board, piece: Piece, rot: Rotation, x: int, y: int, d: int)
    requires
        board.stacked(),
        board.blocks(piece, rot, x, y),
        0 <= d,
    ensures
        board.blocks(piece, rot, x, y - d),
    decreases d,
{
    if d > 0 {
        lemma_blocks_below(board, piece, rot, x, y, d - 1);
        let r = y - (d - 1);
        let i = choose|i: int|
            0 <= i < 4 && board.solid(
                x + (#[trigger] piece.offset(rot, i)).0,
                r + piece.offset(rot, i).1,
            );
        lemma_solid_below(board, x + piece.offset(rot, i).0, r + piece.offset(rot, i).1);
        assert(board.solid(x + piece.offset(rot, i).0, r - 1 + piece.offset(rot, i).1));
    }
}

/// On a stacked board a piece rests in a row up to row 20, and in its
/// column and orientation it is blocked in the rows below that row and in no
/// other.
proof fn lemma_stacked_rows(su: Setup, s: int, y: int)
    requires
        su.board.stacked(),
        0 <= s < 40,
        su.board.rests(su.piece, Setup::rot(s), s / 4, y),
    ensures
        0 <= y <= 20,
        forall|r: int| 0 <= r < 64 ==> has_row(su.blocked(s), r) == (r < y),
{
    let rot = Setup::rot(s);
    let x = s / 4;
    lemma_free_on_board(su.board, su.piece, rot, x, y);
    let i = choose|i: int|
        0 <= i < 4 && su.board.solid(
            x + (#[trigger] su.piece.offset(rot, i)).0,
            y - 1 + su.piece.offset(rot, i).1,
        );
    lemma_offsets_small(su.piece, rot, i);
    let cx = x + su.piece.offset(rot, i).0;
    let cy = y - 1 + su.piece.offset(rot, i).1;
    assert(!su.board.solid(cx, cy + 1));
    if su.board.filled(cx, cy) {
        lemma_height(su.board, cx, cy);
    }
    assert(y <= 20);
    assert forall|r: int| 0 <= r < 64 implies has_row(su.blocked(s), r) == (r < y) by {
        lemma_blocked_rows(su.board, su.piece, rot, x, r);
        if r < y {
            lemma_blocks_below(su.board, su.piece, rot, x, y - 1, y - 1 - r);
        } else if su.board.blocks(su.piece, rot, x, r) {
            lemma_blocks_below(su.board, su.piece, rot, x, r, r - y);
        }
    }
}

/// A word that holds the rows below row `y` and no other has `y` rows up to
/// its highest one, and none of the top four rows.
proof fn lemma_top_is(b: u64, y: int)
    requires
        0 <= y <= 20,
        forall|r: int| 0 <= r < 64 ==> has_row(b, r) == (r < y),
    ensures
        64 - vstd::std_specs::bits::u64_leading_zeros(b) == y,
        b <= ALL_ROWS >> 4,
{
    assert forall|r: int| 0 <= r < 64 implies has_row(b >> 20, r) == has_row(0, r) by {
        lemma_has_row_shift(b, 20, r);
        lemma_has_row_ops(0, 0, r);
    }
    lemma_rows_equal(b >> 20, 0);
    lemma_low_word(b);
    vstd::std_specs::bits::axiom_u64_leading_zeros(b);
    let z = vstd::std_specs::bits::u64_leading_zeros(b);
    let top = 64 - z;
    if top > 0 {
        lemma_single_row(b, (top - 1) as u64);
        assert((b >> ((top - 1) as u64)) & 1u64 != 0u64);
        lemma_top_row(b >> ((top - 1) as u64));
        assert(has_row(b, top - 1));
    }
    if top < 64 {
        assert(!has_row(b, top)) by {
            assert((b >> (top as u64)) & 1u64 == 0u64);
        }
    }
    if y > 0 {
        assert(has_row(b, y - 1));
        if y - 1 >= top {
            assert((b >> ((y - 1) as u64)) & 1u64 == 0u64);
        }
    }
}

/// On a stacked board the piece starts in every row in which it rests, but
/// for the O piece in another orientation than North.
proof fn lemma_stacked_seed(su: Setup, s: int, y: int)
    requires
        su.board.stacked(),
        0 <= s < 40,
        su.piece == Piece::O ==> s % 4 == 0,
        su.board.rests(su.piece, Setup::rot(s), s / 4, y),
    ensures
        0 <= y <= 20,
        has_row(su.seed(s), y),
{
    let b = su.blocked(s);
    lemma_stacked_rows(su, s, y);
    lemma_top_is(b, y);
    assert(su.low());
    assert(su.seeded(s));
    lemma_rests_row(su, s, y);
    lemma_has_row_shift(0, 21, y);
    lemma_has_row_shift(0, y, y);
    lemma_has_row_ops(low_rows(y), low_rows(y), y);
    lemma_has_row_ops(low_rows(21), !low_rows(y), y);
    lemma_has_row_ops(su.surface(s), resting(b), y);
}

/// A row in which the piece starts and rests is listed under its slot.
proof fn lemma_seed_is_listed(su: Setup, s: int, y: int) -> (k: int)
    requires
        0 <= s < 40,
        0 <= y < 64,
        su.canonical(s),
        has_row(su.seed(s), y),
        has_row(resting(su.blocked(s)), y),
    ensures
        0 <= k < su.moves_upto(su.reach(), 40).len(),
        su.moves_upto(su.reach(), 40)[k].piece == su.piece,
        su.moves_upto(su.reach(), 40)[k].x == s / 4,
        su.moves_upto(su.reach(), 40)[k].y == y,
        su.moves_upto(su.reach(), 40)[k].rotation == Setup::rot(s),
{
    let m = su.reach();
    lemma_reach_least(su);
    let d = lemma_closed_slot(su, m, s);
    lemma_within_rows(su.seed(s), m.found[s]);
    lemma_within_rows(su.seed(s), m.plain[s]);
    lemma_has_row_ops(m.found[s], resting(su.blocked(s)), y);
    let rest = su.rest(m, s);
    let x = s / 4;
    let rot = Setup::rot(s);
    lemma_has_row_ops(0, 0, y);
    let j = if su.piece == Piece::T {
        lemma_has_row_ops(rest, m.plain[s], y);
        lemma_list_has(su.piece, x, rot, rest & m.plain[s], 0, Spin::NoSpin, Spin::NoSpin, 64, y)
    } else {
        lemma_own_is_listed(su, m, s, y);
        if su.piece == Piece::O {
            lemma_list_has(su.piece, x, rot, su.listed(m, s), 0, Spin::NoSpin, Spin::NoSpin, 64, y)
        } else {
            lemma_list_has(
                su.piece,
                x,
                rot,
                su.listed(m, s),
                su.immobile(s),
                Spin::NoSpin,
                Spin::Mini,
                64,
                y,
            )
        }
    };
    lemma_moves_has(su, m, 40, s, j)
}

/// The found rows of a slot in which the piece rests are listed under the
/// slot, if placements are listed under it.
proof fn lemma_own_is_listed(su: Setup, m: Marks, s: int, y: int)
    requires
        0 <= s < 40,
        0 <= y < 64,
        su.canonical(s),
        has_row(su.rest(m, s), y),
    ensures
        has_row(su.listed(m, s), y),
{
    let rest = su.rest(m, s);
    lemma_has_row_ops(rest, 0, y);
    if s + 2 < 40 {
        lemma_has_row_ops(rest, su.rest(m, s + 2) >> 1, y);
        lemma_has_row_ops(rest, su.rest(m, s + 2) << 1, y);
    }
    if s + 6 < 40 {
        lemma_has_row_ops(rest, su.rest(m, s + 6), y);
    }
}

/// Where a piece rests it rests as well at the position under which it is
/// listed, and placements are listed under the slot of that position.
proof fn lemma_rests_as_listed(board: Board, piece: Piece, rot: Rotation, x: int, y: int)
    requires
        0 <= x < 10,
        0 <= y <= 20,
        board.rests(piece, rot, x, y),
    ensures
        ({
            let (r2, x2, y2) = listed_as(piece, rot, x, y);
            let s = 4 * x2 + r2.index();
            &&& board.rests(piece, r2, x2, y2)
            &&& 0 <= s < 40
            &&& Setup::rot(s) == r2
            &&& s / 4 == x2
            &&& s % 4 == r2.index()
        }),
{
    let (r2, x2, y2) = listed_as(piece, rot, x, y);
    lemma_listed_as_cells(piece, rot, x, y);
    lemma_listed_as_cells(piece, rot, x, y - 1);
    lemma_cover_blocks(board, piece, rot, x, y, r2, x2, y2);
    lemma_cover_blocks(board, piece, rot, x, y - 1, r2, x2, y2 - 1);
    lemma_free_on_board(board, piece, r2, x2, y2);
}

/// On a stacked board a position in which a piece rests, in an orientation
/// under which placements are listed, is listed.
proof fn lemma_stacked_at(su: Setup, s: int, y: int) -> (k: int)
    requires
        su.board.stacked(),
        0 <= s < 40,
        su.canonical(s),
        su.board.rests(su.piece, Setup::rot(s), s / 4, y),
    ensures
        0 <= y <= 20,
        0 <= k < su.moves_upto(su.reach(), 40).len(),
        su.moves_upto(su.reach(), 40)[k].piece == su.piece,
        su.moves_upto(su.reach(), 40)[k].x == s / 4,
        su.moves_upto(su.reach(), 40)[k].y == y,
        su.moves_upto(su.reach(), 40)[k].rotation == Setup::rot(s),
{
    lemma_stacked_seed(su, s, y);
    lemma_rests_row(su, s, y);
    lemma_seed_is_listed(su, s, y)
}

/// Two placements of one piece at one position in one orientation cover the
/// same cells.
proof fn lemma_cells_at(a: PieceLocation, b: PieceLocation)
    requires
        a.piece == b.piece,
        a.x == b.x,
        a.y == b.y,
        a.rotation == b.rotation,
    ensures
        forall|cx: int, cy: int| a.covers(cx, cy) == b.covers(cx, cy),
{
}

/// On a stacked board every position in which a piece rests is listed: the
/// list of placements holds one that covers the same cells, and in an
/// orientation under which placements are listed it holds one at that very
/// position.
pub proof fn lemma_stacked_listed(
    board: Board,
    piece: Piece,
    force: bool,
    rot: Rotation,
    x: int,
    y: int,
) -> (k: int)
    requires
        board.stacked(),
        board.rests(piece, rot, x, y),
    ensures
        0 <= k < placements(board, piece, force).len(),
        placements(board, piece, force)[k].piece == piece,
        same_cells(placements(board, piece, force)[k], at(piece, rot, x, y)),
        placements(board, piece, force)[k].rotation == listed_as(piece, rot, x, y).0,
        placements(board, piece, force)[k].x == listed_as(piece, rot, x, y).1,
        placements(board, piece, force)[k].y == listed_as(piece, rot, x, y).2,
{
    let su = Setup { board, piece, force };
    lemma_free_on_board(board, piece, rot, x, y);
    let s0 = 4 * x + rot.index();
    assert(Setup::rot(s0) == rot && s0 / 4 == x);
    lemma_stacked_rows(su, s0, y);
    lemma_rests_as_listed(board, piece, rot, x, y);
    let twin = listed_as(piece, rot, x, y);
    let s = 4 * twin.1 + twin.0.index();
    let k = lemma_stacked_at(su, s, twin.2);
    let found = placements(board, piece, force)[k];
    let there = at(piece, twin.0, twin.1, twin.2);
    lemma_cells_at(found, there);
    lemma_listed_as_cells(piece, rot, x, y);
    k
}

/// The cells that a placement covers.
pub open spec fn cells(loc: PieceLocation) -> Set<(int, int)> {
    Set::new(|c: (int, int)| loc.covers(c.0, c.1))
}

/// The sets of four cells that the placements listed for a piece cover.
pub open spec fn listed_cells(board: Board, piece: Piece, force: bool) -> Set<Set<(int, int)>> {
    Set::new(
        |c: Set<(int, int)>|
            exists|k: int|
                0 <= k < placements(board, piece, force).len() && cells(
                    #[trigger] placements(board, piece, force)[k],
                ) == c,
    )
}

/// The sets of four cells that a piece covers where it rests on the board, in
/// any orientation.
pub open spec fn resting_cells(board: Board, piece: Piece) -> Set<Set<(int, int)>> {
    Set::new(
        |c: Set<(int, int)>|
            exists|rot: Rotation, x: int, y: int|
                board.rests(piece, rot, x, y) && cells(#[trigger] at(piece, rot, x, y)) == c,
    )
}

/// On a stacked board the move generator lists the positions in which the
/// piece rests and no others: the sets of cells that the listed placements
/// cover are the sets of cells that the piece covers where it rests.
pub proof fn lemma_stacked_cells(board: Board, piece: Piece, force: bool)
    requires
        board.stacked(),
    ensures
        listed_cells(board, piece, force) == resting_cells(board, piece),
{
    let list = placements(board, piece, force);
    assert forall|c: Set<(int, int)>| resting_cells(board, piece).contains(c) implies listed_cells(
        board,
        piece,
        force,
    ).contains(c) by {
        let (rot, x, y): (Rotation, int, int) = choose|rot: Rotation, x: int, y: int|
            board.rests(piece, rot, x, y) && cells(#[trigger] at(piece, rot, x, y)) == c;
        let k = lemma_stacked_listed(board, piece, force, rot, x, y);
        assert(cells(list[k]) =~= cells(at(piece, rot, x, y)));
    }
    assert forall|c: Set<(int, int)>| listed_cells(board, piece, force).contains(c) implies resting_cells(
        board,
        piece,
    ).contains(c) by {
        let k = choose|k: int| 0 <= k < list.len() && cells(#[trigger] list[k]) == c;
        let loc = list[k];
        lemma_placements_rest(board, piece, force, k);
        let there = at(piece, loc.rotation, loc.x as int, loc.y as int);
        lemma_cells_at(loc, there);
        assert(cells(there) =~= cells(loc));
    }
    assert(listed_cells(board, piece, force) =~= resting_cells(board, piece));
}

} // verus!
