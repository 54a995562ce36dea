//! Operations on the board: placing a piece, clearing rows, adding garbage.
use crate::bits::{has_row, lemma_has_row_ops, lemma_has_row_shift, lemma_single_row};
use crate::data::{as_cell, Board, PieceLocation};
use crate::squeeze::{lemma_cut_row, lemma_squeeze_nothing, squeeze};
use vstd::prelude::*;

verus! {

/// The rows that are in every one of ten columns.
pub open spec fn and_all(l: Seq<u64>) -> u64 {
    l[0] & l[1] & l[2] & l[3] & l[4] & l[5] & l[6] & l[7] & l[8] & l[9]
}

/// The rows that are in at least one of ten columns.
pub open spec fn or_all(l: Seq<u64>) -> u64 {
    l[0] | l[1] | l[2] | l[3] | l[4] | l[5] | l[6] | l[7] | l[8] | l[9]
}

/// The rows that are in an odd number of ten columns.
pub open spec fn xor_all(l: Seq<u64>) -> u64 {
    l[0] ^ l[1] ^ l[2] ^ l[3] ^ l[4] ^ l[5] ^ l[6] ^ l[7] ^ l[8] ^ l[9]
}

/// The row of the cell `i` of `loc` if that cell is in column `x`, else nothing.
pub open spec fn cell_row(loc: PieceLocation, i: int, x: int) -> u64 {
    if loc.cell(i).0 == x {
        1u64 << (loc.cell(i).1 as u64)
    } else {
        0
    }
}

/// The columns of a board after `loc` is put on it.
pub open spec fn after_piece(cols: Seq<u64>, loc: PieceLocation) -> Seq<u64> {
    Seq::new(
        10,
        |x: int|
            cols[x] | cell_row(loc, 0, x) | cell_row(loc, 1, x) | cell_row(loc, 2, x) | cell_row(
                loc,
                3,
                x,
            ),
    )
}

/// The columns of a board after its full rows are taken out.
pub open spec fn after_clear(cols: Seq<u64>) -> Seq<u64> {
    Seq::new(10, |x: int| squeeze(cols[x], and_all(cols)))
}

/// The columns of a board after `lines` rows of garbage came in, with the
/// gap in column `gap`.
pub open spec fn after_garbage(cols: Seq<u64>, gap: int, lines: u16) -> Seq<u64> {
    Seq::new(
        10,
        |x: int|
            if x == gap {
                cols[x] << (lines as u64)
            } else {
                !(!cols[x] << (lines as u64))
            },
    )
}

/// The columns of one column after the first `i` cells of `loc` are put on it.
pub open spec fn put_upto(c: u64, loc: PieceLocation, x: int, i: int) -> u64 {
    if i <= 0 {
        c
    } else if i == 1 {
        c | cell_row(loc, 0, x)
    } else if i == 2 {
        c | cell_row(loc, 0, x) | cell_row(loc, 1, x)
    } else if i == 3 {
        c | cell_row(loc, 0, x) | cell_row(loc, 1, x) | cell_row(loc, 2, x)
    } else {
        c | cell_row(loc, 0, x) | cell_row(loc, 1, x) | cell_row(loc, 2, x) | cell_row(loc, 3, x)
    }
}

/// Ten columns of rows, with the three folds over the columns.
pub trait BitboardTrait: Sized {
    /// The ten columns.
    spec fn lanes(&self) -> Seq<u64>;

    /// Ten empty columns.
    fn new() -> (b: Self)
        ensures
            b.lanes().len() == 10,
            forall|x: int| 0 <= x < 10 ==> b.lanes()[x] == 0,
    ;

    /// The rows that are in every column.
    fn fold_and(&self) -> (r: u64)
        ensures
            r == and_all(self.lanes()),
    ;

    /// The rows that are in at least one column.
    fn fold_or(&self) -> (r: u64)
        ensures
            r == or_all(self.lanes()),
    ;

    /// The rows that are in an odd number of columns.
    fn fold_xor(&self) -> (r: u64)
        ensures
            r == xor_all(self.lanes()),
    ;
}

impl BitboardTrait for Board {
    open spec fn lanes(&self) -> Seq<u64> {
        self.cols@
    }

    fn new() -> (b: Self) {
        Board { cols: [0u64;10] }
    }

    fn fold_and(&self) -> (r: u64) {
        self.cols[0] & self.cols[1] & self.cols[2] & self.cols[3] & self.cols[4] & self.cols[5]
            & self.cols[6] & self.cols[7] & self.cols[8] & self.cols[9]
    }

    fn fold_or(&self) -> (r: u64) {
        self.cols[0] | self.cols[1] | self.cols[2] | self.cols[3] | self.cols[4] | self.cols[5]
            | self.cols[6] | self.cols[7] | self.cols[8] | self.cols[9]
    }

    fn fold_xor(&self) -> (r: u64) {
        self.cols[0] ^ self.cols[1] ^ self.cols[2] ^ self.cols[3] ^ self.cols[4] ^ self.cols[5]
            ^ self.cols[6] ^ self.cols[7] ^ self.cols[8] ^ self.cols[9]
    }
}

/// A row is in `and_all` exactly when it is in each column, and in `or_all`
/// exactly when it is in one of them.
pub proof fn lemma_fold_rows(l: Seq<u64>, y: int)
    requires
        l.len() == 10,
        0 <= y < 64,
    ensures
        has_row(and_all(l), y) <==> forall|x: int| 0 <= x < 10 ==> has_row(#[trigger] l[x], y),
        has_row(or_all(l), y) <==> exists|x: int| 0 <= x < 10 && has_row(#[trigger] l[x], y),
{
    let a1 = l[0] & l[1];
    let a2 = a1 & l[2];
    let a3 = a2 & l[3];
    let a4 = a3 & l[4];
    let a5 = a4 & l[5];
    let a6 = a5 & l[6];
    let a7 = a6 & l[7];
    let a8 = a7 & l[8];
    lemma_has_row_ops(l[0], l[1], y);
    lemma_has_row_ops(a1, l[2], y);
    lemma_has_row_ops(a2, l[3], y);
    lemma_has_row_ops(a3, l[4], y);
    lemma_has_row_ops(a4, l[5], y);
    lemma_has_row_ops(a5, l[6], y);
    lemma_has_row_ops(a6, l[7], y);
    lemma_has_row_ops(a7, l[8], y);
    lemma_has_row_ops(a8, l[9], y);
    let o1 = l[0] | l[1];
    let o2 = o1 | l[2];
    let o3 = o2 | l[3];
    let o4 = o3 | l[4];
    let o5 = o4 | l[5];
    let o6 = o5 | l[6];
    let o7 = o6 | l[7];
    let o8 = o7 | l[8];
    lemma_has_row_ops(o1, l[2], y);
    lemma_has_row_ops(o2, l[3], y);
    lemma_has_row_ops(o3, l[4], y);
    lemma_has_row_ops(o4, l[5], y);
    lemma_has_row_ops(o5, l[6], y);
    lemma_has_row_ops(o6, l[7], y);
    lemma_has_row_ops(o7, l[8], y);
    lemma_has_row_ops(o8, l[9], y);
    if has_row(or_all(l), y) {
        let x = if has_row(l[0], y) {
            0int
        } else if has_row(l[1], y) {
            1
        } else if has_row(l[2], y) {
            2
        } else if has_row(l[3], y) {
            3
        } else if has_row(l[4], y) {
            4
        } else if has_row(l[5], y) {
            5
        } else if has_row(l[6], y) {
            6
        } else if has_row(l[7], y) {
            7
        } else if has_row(l[8], y) {
            8
        } else {
            9
        };
        assert(0 <= x < 10 && has_row(l[x], y));
    }
}

/// No cell is filled at or above the height of the board.
pub proof fn lemma_height(board: Board, x: int, y: int)
    requires
        board.filled(x, y),
    ensures
        y < board.height(),
{
    let all = or_all(board.cols@);
    vstd::std_specs::bits::axiom_u64_leading_zeros(all);
    lemma_fold_rows(board.cols@, y);
    assert(has_row(board.cols@[x], y));
    if y >= board.height() {
        assert((all >> (y as u64)) & 1u64 == 0u64);
    }
}

impl Board {
    /// Whether cell `(x, y)` is filled.
    pub open spec fn filled(self, x: int, y: int) -> bool {
        0 <= x < 10 && has_row(self.cols[x], y)
    }

    /// Whether a cell of `loc` lies on a filled cell of the board. Cells off
    /// the grid lie on nothing.
    pub open spec fn overlaps(self, loc: PieceLocation) -> bool {
        exists|i: int| 0 <= i < 4 && self.filled(#[trigger] loc.cell(i).0, loc.cell(i).1)
    }

    /// The rows that are filled in every column.
    pub open spec fn full_rows(self) -> u64 {
        and_all(self.cols@)
    }

    /// The number of rows from the floor up to and including the highest filled cell.
    pub open spec fn height(self) -> int {
        64 - vstd::std_specs::bits::u64_leading_zeros(or_all(self.cols@))
    }

    /// How many empty cells lie directly below cell `(x, y)` before a filled
    /// cell or the floor.
    pub open spec fn gap_below(self, x: int, y: int) -> int
        decreases y,
    {
        if y <= 0 || self.filled(x, y - 1) {
            0
        } else {
            1 + self.gap_below(x, y - 1)
        }
    }

    /// The least of four numbers.
    pub open spec fn least(a: int, b: int, c: int, d: int) -> int {
        let ab = if a <= b {
            a
        } else {
            b
        };
        let cd = if c <= d {
            c
        } else {
            d
        };
        if ab <= cd {
            ab
        } else {
            cd
        }
    }

    /// Pushes `lines` rows of garbage in from below: every column but
    /// `garb_col` gets `lines` filled cells at the bottom, `garb_col` gets
    /// empty ones, and what was there moves up.
    pub fn add_garbage(&mut self, garb_col: usize, lines: u16)
        requires
            lines < 64,
        ensures
            forall|x: int|
                0 <= x < 10 ==> #[trigger] final(self).cols[x] == if x == garb_col {
                    old(self).cols[x] << (lines as u64)
                } else {
                    !(!old(self).cols[x] << (lines as u64))
                },
            forall|x: int, y: int|
                0 <= x < 10 && 0 <= y < 64 ==> #[trigger] final(self).filled(x, y) == if y < lines {
                    x != garb_col
                } else {
                    old(self).filled(x, y - lines)
                },
    {
        let k: u64 = lines as u64;
        let mut x: usize = 0;
        while x < 10
            invariant
                x <= 10,
                k == lines,
                k < 64,
                forall|i: int|
                    0 <= i < x ==> #[trigger] self.cols[i] == if i == garb_col {
                        old(self).cols[i] << k
                    } else {
                        !(!old(self).cols[i] << k)
                    },
                forall|i: int| x <= i < 10 ==> #[trigger] self.cols[i] == old(self).cols[i],
            decreases 10 - x,
        {
            let c: u64 = self.cols[x];
            self.cols[x] = if x == garb_col {
                c << k
            } else {
                !(!c << k)
            };
            x += 1;
        }
        proof {
            assert forall|x: int, y: int| 0 <= x < 10 && 0 <= y < 64 implies #[trigger] self.filled(
                x,
                y,
            ) == if y < lines {
                x != garb_col
            } else {
                old(self).filled(x, y - lines)
            } by {
                lemma_has_row_shift(old(self).cols[x], k as int, y);
            }
        }
    }

    /// Fills the four cells of `loc`.
    pub fn put_piece(&mut self, loc: &PieceLocation)
        requires
            loc.in_range(),
            loc.on_board(),
        ensures
            forall|x: int, y: int|
                0 <= x < 10 && 0 <= y < 64 ==> #[trigger] final(self).filled(x, y) == (old(
                    self,
                ).filled(x, y) || loc.covers(x, y)),
            final(self).cols@ == after_piece(old(self).cols@, *loc),
    {
        let cells = loc.blocks();
        let mut i: usize = 0;
        while i < 4
            invariant
                i <= 4,
                loc.on_board(),
                forall|j: int| 0 <= j < 4 ==> as_cell(#[trigger] cells[j]) == loc.cell(j),
                forall|x: int, y: int|
                    0 <= x < 10 && 0 <= y < 64 ==> #[trigger] self.filled(x, y) == (old(
                        self,
                    ).filled(x, y) || exists|j: int| 0 <= j < i && loc.cell(j) == (x, y)),
                forall|x: int|
                    0 <= x < 10 ==> #[trigger] self.cols[x] == put_upto(
                        old(self).cols[x],
                        *loc,
                        x,
                        i as int,
                    ),
            decreases 4 - i,
        {
            let (cx, cy) = cells[i];
            assert(as_cell(cells[i as int]) == loc.cell(i as int));
            assert(0 <= loc.cell(i as int).0 < 10 && 0 <= loc.cell(i as int).1 < 64);
            let ghost before = *self;
            let ux: usize = cx as usize;
            let uy: u64 = cy as u64;
            self.cols[ux] = self.cols[ux] | (1u64 << uy);
            proof {
                assert forall|x: int| 0 <= x < 10 implies #[trigger] self.cols[x] == put_upto(
                    old(self).cols[x],
                    *loc,
                    x,
                    i + 1,
                ) by {
                    crate::bits::lemma_within(before.cols[x], 0, 0);
                }
                assert forall|x: int, y: int| 0 <= x < 10 && 0 <= y < 64 implies #[trigger] self.filled(
                    x,
                    y,
                ) == (old(self).filled(x, y) || exists|j: int|
                    0 <= j < i + 1 && loc.cell(j) == (x, y)) by {
                    let was = before.filled(x, y);
                    assert(was == (old(self).filled(x, y) || exists|j: int|
                        0 <= j < i && loc.cell(j) == (x, y)));
                    lemma_has_row_ops(before.cols[x], 1u64 << uy, y);
                    lemma_has_row_shift(0, uy as int, y);
                    let hit = x == ux && y == uy;
                    assert(self.filled(x, y) == (was || hit));
                    assert(hit == (loc.cell(i as int) == (x, y)));
                    if exists|j: int| 0 <= j < i && loc.cell(j) == (x, y) {
                        let j = choose|j: int| 0 <= j < i && loc.cell(j) == (x, y);
                        assert(0 <= j < i + 1 && loc.cell(j) == (x, y));
                    }
                    if hit {
                        assert(0 <= i < i + 1 && loc.cell(i as int) == (x, y));
                    }
                    if exists|j: int| 0 <= j < i + 1 && loc.cell(j) == (x, y) {
                        let j = choose|j: int| 0 <= j < i + 1 && loc.cell(j) == (x, y);
                        if j < i {
                            assert(0 <= j < i && loc.cell(j) == (x, y));
                        }
                    }
                }
            }
            i += 1;
        }
        proof {
            assert(self.cols@ =~= after_piece(old(self).cols@, *loc));
            assert forall|x: int, y: int| 0 <= x < 10 && 0 <= y < 64 implies #[trigger] self.filled(
                x,
                y,
            ) == (old(self).filled(x, y) || loc.covers(x, y)) by {
                if loc.covers(x, y) {
                    let j = if loc.cell(0) == (x, y) {
                        0int
                    } else if loc.cell(1) == (x, y) {
                        1
                    } else if loc.cell(2) == (x, y) {
                        2
                    } else {
                        3
                    };
                    assert(0 <= j < 4 && loc.cell(j) == (x, y));
                }
            }
        }
    }

    /// Takes the full rows out of every column and closes the gaps. Returns
    /// the rows that were full.
    pub fn remove_lines(&mut self) -> (lines: u64)
        ensures
            lines == old(self).full_rows(),
            forall|x: int|
                0 <= x < 10 ==> #[trigger] final(self).cols[x] == squeeze(old(self).cols[x], lines),
            final(self).cols@ == after_clear(old(self).cols@),
    {
        let lines = self.fold_and();
        let mut x: usize = 0;
        while x < 10
            invariant
                x <= 10,
                forall|i: int|
                    0 <= i < x ==> #[trigger] self.cols[i] == squeeze(old(self).cols[i], lines),
                forall|i: int| x <= i < 10 ==> #[trigger] self.cols[i] == old(self).cols[i],
            decreases 10 - x,
        {
            let mut c: u64 = self.cols[x];
            clear_lines(&mut c, lines);
            self.cols[x] = c;
            x += 1;
        }
        proof {
            assert(self.cols@ =~= after_clear(old(self).cols@));
        }
        lines
    }

    /// Whether no cell of the board is filled.
    pub fn is_empty(&self) -> (r: bool)
        ensures
            r == forall|x: int| 0 <= x < 10 ==> #[trigger] self.cols@[x] == 0,
    {
        let mut x: usize = 0;
        while x < 10
            invariant
                x <= 10,
                forall|i: int| 0 <= i < x ==> #[trigger] self.cols@[i] == 0,
            decreases 10 - x,
        {
            if self.cols[x] != 0 {
                return false;
            }
            x += 1;
        }
        true
    }

    /// Whether a cell of `loc` lies on a filled cell of the board.
    pub fn obstructed(&self, loc: &PieceLocation) -> (r: bool)
        requires
            loc.in_range(),
            forall|i: int| 0 <= i < 4 ==> (#[trigger] loc.cell(i)).1 < 64,
        ensures
            r == self.overlaps(*loc),
    {
        let cells = loc.blocks();
        let mut i: usize = 0;
        while i < 4
            invariant
                i <= 4,
                forall|j: int| 0 <= j < 4 ==> (#[trigger] loc.cell(j)).1 < 64,
                forall|j: int| 0 <= j < 4 ==> as_cell(#[trigger] cells[j]) == loc.cell(j),
                forall|j: int| 0 <= j < i ==> !self.filled(#[trigger] loc.cell(j).0, loc.cell(j).1),
            decreases 4 - i,
        {
            let (x, y) = cells[i];
            assert(as_cell(cells[i as int]) == loc.cell(i as int));
            assert(loc.cell(i as int).1 < 64);
            if !(x < 0 || x > 9 || y < 0) {
                let uy: u64 = y as u64;
                let col: u64 = self.cols[x as usize];
                proof {
                    lemma_has_row_ops(col, 1u64 << uy, y as int);
                    lemma_has_row_shift(0, y as int, y as int);
                    lemma_single_row(col, uy);
                }
                if col & (1u64 << uy) > 0 {
                    assert(self.filled(loc.cell(i as int).0, loc.cell(i as int).1));
                    return true;
                }
            }
            i += 1;
        }
        false
    }

    /// How far `loc` can fall before one of its cells meets a filled cell or
    /// the floor, each cell taken by itself.
    pub fn distance_to_ground(&self, loc: &PieceLocation) -> (d: i8)
        requires
            loc.in_range(),
            forall|i: int|
                0 <= i < 4 ==> 0 <= (#[trigger] loc.cell(i)).0 < 10 && 0 <= loc.cell(i).1 <= 64,
        ensures
            d == Board::least(
                self.gap_below(loc.cell(0).0, loc.cell(0).1),
                self.gap_below(loc.cell(1).0, loc.cell(1).1),
                self.gap_below(loc.cell(2).0, loc.cell(2).1),
                self.gap_below(loc.cell(3).0, loc.cell(3).1),
            ),
    {
        let cells = loc.blocks();
        assert(as_cell(cells[0]) == loc.cell(0));
        assert(as_cell(cells[1]) == loc.cell(1));
        assert(as_cell(cells[2]) == loc.cell(2));
        assert(as_cell(cells[3]) == loc.cell(3));
        let a = self.gap(cells[0].0, cells[0].1);
        let b = self.gap(cells[1].0, cells[1].1);
        let c = self.gap(cells[2].0, cells[2].1);
        let d = self.gap(cells[3].0, cells[3].1);
        let ab = if a <= b {
            a
        } else {
            b
        };
        let cd = if c <= d {
            c
        } else {
            d
        };
        if ab <= cd {
            ab
        } else {
            cd
        }
    }

    /// The number of empty cells directly below cell `(x, y)`.
    fn gap(&self, x: i8, y: i8) -> (d: i8)
        requires
            0 <= x < 10,
            0 <= y <= 64,
        ensures
            d == self.gap_below(x as int, y as int),
            0 <= d <= y,
    {
        let col: u64 = self.cols[x as usize];
        let mut d: i8 = 0;
        while d < y && col & (1u64 << ((y - 1 - d) as u64)) == 0
            invariant
                0 <= d <= y <= 64,
                0 <= x < 10,
                col == self.cols[x as int],
                self.gap_below(x as int, y as int) == d + self.gap_below(x as int, y - d),
            decreases y - d,
        {
            proof {
                let r = (y - 1 - d) as u64;
                lemma_single_row(col, r);
            }
            d += 1;
        }
        proof {
            if d < y {
                let r = (y - 1 - d) as u64;
                lemma_single_row(col, r);
            }
        }
        d
    }

    /// The number of rows from the floor up to and including the highest
    /// filled cell: no cell at or above that row is filled, and one just below
    /// it is, unless the board is empty.
    pub fn max_height(&self) -> (h: i8)
        ensures
            h == self.height(),
            0 <= h <= 64,
            forall|x: int, y: int| self.filled(x, y) ==> y < h,
            h > 0 ==> exists|x: int| #[trigger] self.filled(x, h - 1),
    {
        let all = self.fold_or();
        let z: u32 = all.leading_zeros();
        proof {
            vstd::std_specs::bits::axiom_u64_leading_zeros(all);
            assert forall|x: int, y: int| self.filled(x, y) implies y < 64 - z by {
                lemma_fold_rows(self.cols@, y);
                assert(has_row(self.cols@[x], y));
                if y >= 64 - z {
                    assert((all >> (y as u64)) & 1u64 == 0u64);
                }
            }
            if z < 64 {
                let top = (63 - z) as u64;
                lemma_low_row(all >> top);
                lemma_fold_rows(self.cols@, top as int);
                let x = choose|x: int| 0 <= x < 10 && has_row(#[trigger] self.cols@[x], top as int);
                assert(self.filled(x, 64 - z - 1));
            }
        }
        (64 - z) as i8
    }
}

/// A word whose lowest row is not absent has it.
proof fn lemma_low_row(w: u64)
    by (bit_vector)
    requires
        w & 1u64 != 0u64,
    ensures
        w & 1 == 1,
{
}

/// Takes the rows `lines` out of `col` and closes the gaps.
pub fn clear_lines(col: &mut u64, lines: u64)
    ensures
        *final(col) == squeeze(*old(col), lines),
{
    let mut rest: u64 = lines;
    while rest != 0
        invariant
            squeeze(*col, rest) == squeeze(*old(col), lines),
        decreases rest,
    {
        let i: u64 = rest.trailing_zeros() as u64;
        proof {
            vstd::std_specs::bits::axiom_u64_trailing_zeros(rest);
            lemma_cut_row(*col, rest, i);
            assert((1u64 << i) >= 1) by (bit_vector)
                requires
                    i < 64,
            ;
        }
        let mask: u64 = (1u64 << i) - 1;
        *col = *col & mask | (*col >> 1) & !mask;
        rest = rest & !(1u64 << i);
        rest = rest >> 1;
    }
    proof {
        lemma_squeeze_nothing(*col);
    }
}

} // verus!
