//! Where a piece cannot be: one set of rows for each column.
use crate::bits::{
    has_row, lemma_has_row_ops, lemma_has_row_shift, lemma_single_row, ALL_ROWS,
};
use crate::board::BitboardTrait;
use crate::data::{as_cell, Board, Piece, Rotation};
use vstd::prelude::*;

verus! {

/// For one piece in one orientation: row `y` of `cols[x]` is set when the
/// piece cannot have its reference cell at `(x, y)`.
#[derive(Debug, Clone, Copy)]
pub struct CollisionMap {
    pub cols: [u64; 10],
}

impl Board {
    /// Whether cell `(x, y)` is closed to a piece: it is below the floor or
    /// beside the board, or it is filled. Above the rows of the board the
    /// columns are open.
    pub open spec fn solid(self, x: int, y: int) -> bool {
        y < 0 || x < 0 || x >= 10 || self.filled(x, y)
    }

    /// Whether `piece` in orientation `rot` with its reference cell at
    /// `(x, y)` has a cell on a closed cell.
    pub open spec fn blocks(self, piece: Piece, rot: Rotation, x: int, y: int) -> bool {
        exists|i: int|
            0 <= i < 4 && self.solid(
                x + (#[trigger] piece.offset(rot, i)).0,
                y + piece.offset(rot, i).1,
            )
    }

    /// Whether the piece can be at `(x, y)` and cannot be one row lower.
    pub open spec fn rests(self, piece: Piece, rot: Rotation, x: int, y: int) -> bool {
        !self.blocks(piece, rot, x, y) && self.blocks(piece, rot, x, y - 1)
    }
}

/// The rows of column `x` that a single cell at offset `(dx, dy)` closes.
pub open spec fn closed_by_cell(board: Board, x: int, dx: int, dy: int) -> u64 {
    if !(0 <= x + dx < 10) {
        ALL_ROWS
    } else if dy < 0 {
        !(!board.cols[x + dx] << ((-dy) as u64))
    } else {
        board.cols[x + dx] >> (dy as u64)
    }
}

/// The rows of column `x` where `piece` in orientation `rot` cannot have its
/// reference cell: those that one of its four cells closes.
pub open spec fn blocked_rows(board: Board, piece: Piece, rot: Rotation, x: int) -> u64 {
    closed_by_cell(board, x, piece.offset(rot, 0).0, piece.offset(rot, 0).1) | closed_by_cell(
        board,
        x,
        piece.offset(rot, 1).0,
        piece.offset(rot, 1).1,
    ) | closed_by_cell(board, x, piece.offset(rot, 2).0, piece.offset(rot, 2).1) | closed_by_cell(
        board,
        x,
        piece.offset(rot, 3).0,
        piece.offset(rot, 3).1,
    )
}

/// Row `y` is in `blocked_rows` exactly when the piece at `(x, y)` has a cell
/// on a closed cell.
pub proof fn lemma_blocked_rows(board: Board, piece: Piece, rot: Rotation, x: int, y: int)
    requires
        0 <= x < 10,
        0 <= y < 64,
    ensures
        has_row(blocked_rows(board, piece, rot, x), y) == board.blocks(piece, rot, x, y),
{
    let o0 = piece.offset(rot, 0);
    let o1 = piece.offset(rot, 1);
    let o2 = piece.offset(rot, 2);
    let o3 = piece.offset(rot, 3);
    let a = closed_by_cell(board, x, o0.0, o0.1);
    let b = closed_by_cell(board, x, o1.0, o1.1);
    let c = closed_by_cell(board, x, o2.0, o2.1);
    let d = closed_by_cell(board, x, o3.0, o3.1);
    lemma_closed_by_cell(board, x, o0.0, o0.1, y);
    lemma_closed_by_cell(board, x, o1.0, o1.1, y);
    lemma_closed_by_cell(board, x, o2.0, o2.1, y);
    lemma_closed_by_cell(board, x, o3.0, o3.1, y);
    lemma_has_row_ops(a, b, y);
    lemma_has_row_ops(a | b, c, y);
    lemma_has_row_ops(a | b | c, d, y);
    if board.blocks(piece, rot, x, y) {
        let i = choose|i: int|
            0 <= i < 4 && board.solid(
                x + (#[trigger] piece.offset(rot, i)).0,
                y + piece.offset(rot, i).1,
            );
        assert(i == 0 || i == 1 || i == 2 || i == 3);
    }
}

/// Row `y` is closed by a cell exactly when the cell would lie on a closed cell.
pub proof fn lemma_closed_by_cell(board: Board, x: int, dx: int, dy: int, y: int)
    requires
        0 <= x < 10,
        0 <= y < 64,
        -64 < dy < 64,
    ensures
        has_row(closed_by_cell(board, x, dx, dy), y) == board.solid(x + dx, y + dy),
{
    if 0 <= x + dx < 10 {
        let c = board.cols[x + dx];
        if dy < 0 {
            lemma_has_row_shift(c, -dy, y);
        } else {
            lemma_has_row_shift(c, dy, y);
        }
    } else {
        lemma_has_row_ops(0, 0, y);
    }
}

impl CollisionMap {
    /// Whether this is the collision map of `piece` in orientation `rot` on `board`.
    pub open spec fn is_map_of(self, board: Board, piece: Piece, rot: Rotation) -> bool {
        forall|x: int, y: int|
            0 <= x < 10 && 0 <= y < 64 ==> has_row(#[trigger] self.cols[x], y) == #[trigger] board.blocks(
                piece,
                rot,
                x,
                y,
            )
    }

    /// The collision map of `piece` in orientation `rotation` on `board`.
    pub fn new(board: &Board, piece: Piece, rotation: Rotation) -> (cm: Self)
        ensures
            cm.is_map_of(*board, piece, rotation),
            forall|x: int|
                0 <= x < 10 ==> #[trigger] cm.cols[x] == blocked_rows(*board, piece, rotation, x),
    {
        let cells = piece.cells(rotation);
        let mut obstructed = [0u64;10];
        let mut x: usize = 0;
        while x < 10
            invariant
                x <= 10,
                forall|i: int|
                    0 <= i < 4 ==> as_cell(#[trigger] cells[i]) == piece.offset(rotation, i),
                forall|i: int| 0 <= i < 4 ==> -2 <= (#[trigger] cells[i]).0 <= 2 && -2 <= cells[i].1 <= 2,
                forall|j: int|
                    0 <= j < x ==> #[trigger] obstructed[j] == blocked_rows(
                        *board,
                        piece,
                        rotation,
                        j,
                    ),
            decreases 10 - x,
        {
            assert(as_cell(cells[0]) == piece.offset(rotation, 0));
            assert(as_cell(cells[1]) == piece.offset(rotation, 1));
            assert(as_cell(cells[2]) == piece.offset(rotation, 2));
            assert(as_cell(cells[3]) == piece.offset(rotation, 3));
            let a = closed_rows(board, x, cells[0].0, cells[0].1);
            let b = closed_rows(board, x, cells[1].0, cells[1].1);
            let c = closed_rows(board, x, cells[2].0, cells[2].1);
            let d = closed_rows(board, x, cells[3].0, cells[3].1);
            obstructed[x] = a | b | c | d;
            x += 1;
        }
        let cm = CollisionMap { cols: obstructed };
        proof {
            assert forall|x: int, y: int| 0 <= x < 10 && 0 <= y < 64 implies has_row(
                #[trigger] cm.cols[x],
                y,
            ) == #[trigger] board.blocks(piece, rotation, x, y) by {
                lemma_blocked_rows(*board, piece, rotation, x, y);
            }
        }
        cm
    }

    /// Whether the piece cannot have its reference cell at `(x, y)`. Outside
    /// the columns of the board and below the floor it never can.
    pub fn obstructed(&self, x: i8, y: i8) -> (r: bool)
        requires
            y < 64,
        ensures
            r == (x < 0 || x > 9 || y < 0 || has_row(self.cols[x as int], y as int)),
    {
        if x < 0 || x > 9 || y < 0 {
            return true;
        }
        let uy: u64 = y as u64;
        proof {
            lemma_single_row(self.cols[x as int], uy);
        }
        self.cols[x as usize] & (1u64 << uy) > 0
    }

    /// The same columns as a board.
    pub fn as_board(&self) -> (b: Board)
        ensures
            b.cols == self.cols,
    {
        Board { cols: self.cols }
    }
}

impl BitboardTrait for CollisionMap {
    open spec fn lanes(&self) -> Seq<u64> {
        self.cols@
    }

    fn new() -> (b: Self) {
        CollisionMap { cols: [0u64;10] }
    }

    fn fold_and(&self) -> (r: u64) {
        self.cols[0] & self.cols[1] & self.cols[2] & self.cols[3] & self.cols[4] & self.cols[5]
            & self.cols[6] & self.cols[7] & self.cols[8] & self.cols[9]
    }

    fn fold_or(&self) -> (r: u64) {
        self.cols[0] | self.cols[1] | self.cols[2] | self.cols[3] | self.cols[4] | self.cols[5]
            | self.cols[6] | self.cols[7] | self.cols[8] | self.cols[9]
    }

    fn fold_xor(&self) -> (r: u64) {
        self.cols[0] ^ self.cols[1] ^ self.cols[2] ^ self.cols[3] ^ self.cols[4] ^ self.cols[5]
            ^ self.cols[6] ^ self.cols[7] ^ self.cols[8] ^ self.cols[9]
    }
}

/// The rows of column `x` that a cell at offset `(dx, dy)` closes.
fn closed_rows(board: &Board, x: usize, dx: i8, dy: i8) -> (r: u64)
    requires
        x < 10,
        -2 <= dx <= 2,
        -2 <= dy <= 2,
    ensures
        r == closed_by_cell(*board, x as int, dx as int, dy as int),
{
    let cx: i8 = x as i8 + dx;
    if cx < 0 || cx > 9 {
        ALL_ROWS
    } else if dy < 0 {
        !(!board.cols[cx as usize] << ((-dy) as u64))
    } else {
        board.cols[cx as usize] >> (dy as u64)
    }
}

} // verus!
