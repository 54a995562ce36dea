//! The pieces, their orientations, the board and a placed piece.
use vstd::prelude::*;

verus! {

/// The seven tetromino shapes.
#[derive(Debug, Copy, Clone, PartialEq, Eq, Structural)]
pub enum Piece {
    I,
    O,
    T,
    L,
    J,
    S,
    Z,
}

/// The four orientations of a piece, in clockwise order.
#[derive(Debug, Copy, Clone, PartialEq, Eq, Structural)]
pub enum Rotation {
    North,
    East,
    South,
    West,
}

/// How a resting placement was reached: by a rotation into a pocket or not.
#[derive(Debug, Copy, Clone, PartialEq, Eq, Structural)]
pub enum Spin {
    NoSpin,
    Full,
    Mini,
}

/// The occupancy grid: bit `y` of `cols[x]` is set when cell `(x, y)` is filled.
#[derive(Debug, Clone, Copy)]
pub struct Board {
    pub cols: [u64; 10],
}

/// A piece at a position: `(x, y)` is where its reference cell lies.
#[derive(Debug, Clone, Copy)]
pub struct PieceLocation {
    pub piece: Piece,
    pub x: i8,
    pub y: i8,
    pub rotation: Rotation,
    pub spin: Spin,
}

/// A cell as a pair of integers.
pub open spec fn as_cell(b: (i8, i8)) -> (int, int) {
    (b.0 as int, b.1 as int)
}

impl Rotation {
    /// The orientation one quarter turn clockwise from `self`.
    pub open spec fn cw(self) -> Rotation {
        match self {
            Rotation::North => Rotation::East,
            Rotation::East => Rotation::South,
            Rotation::South => Rotation::West,
            Rotation::West => Rotation::North,
        }
    }

    /// The orientation one quarter turn counterclockwise from `self`.
    pub open spec fn ccw(self) -> Rotation {
        self.cw().cw().cw()
    }

    /// The opposite orientation.
    pub open spec fn flip(self) -> Rotation {
        self.cw().cw()
    }

    /// The number of quarter turns clockwise from North.
    pub open spec fn index(self) -> int {
        match self {
            Rotation::North => 0,
            Rotation::East => 1,
            Rotation::South => 2,
            Rotation::West => 3,
        }
    }

    /// The orientation that is `i` quarter turns clockwise from North.
    pub open spec fn of_index(i: int) -> Rotation {
        if i % 4 == 0 {
            Rotation::North
        } else if i % 4 == 1 {
            Rotation::East
        } else if i % 4 == 2 {
            Rotation::South
        } else {
            Rotation::West
        }
    }

    /// Where a cell offset goes when the piece is turned from North to `self`.
    pub open spec fn turn(self, c: (int, int)) -> (int, int) {
        match self {
            Rotation::North => (c.0, c.1),
            Rotation::East => (c.1, -c.0),
            Rotation::South => (-c.0, -c.1),
            Rotation::West => (-c.1, c.0),
        }
    }

    /// Where a cell offset goes when the piece is turned from North to `self`.
    pub fn rotate_block(&self, block: (i8, i8)) -> (r: (i8, i8))
        requires
            block.0 > i8::MIN,
            block.1 > i8::MIN,
        ensures
            as_cell(r) == self.turn(as_cell(block)),
    {
        let (x, y) = block;
        match self {
            Rotation::North => (x, y),
            Rotation::East => (y, -x),
            Rotation::South => (-x, -y),
            Rotation::West => (-y, x),
        }
    }

    /// Where four cell offsets go when the piece is turned from North to `self`.
    pub fn rotate_blocks(&self, blocks: [(i8, i8); 4]) -> (r: [(i8, i8); 4])
        requires
            forall|i: int| 0 <= i < 4 ==> blocks[i].0 > i8::MIN && blocks[i].1 > i8::MIN,
        ensures
            forall|i: int| 0 <= i < 4 ==> as_cell(#[trigger] r[i]) == self.turn(as_cell(blocks[i])),
    {
        [
            self.rotate_block(blocks[0]),
            self.rotate_block(blocks[1]),
            self.rotate_block(blocks[2]),
            self.rotate_block(blocks[3]),
        ]
    }

    /// The orientation one quarter turn clockwise from `self`.
    pub fn rotate_cw(&self) -> (r: Rotation)
        ensures
            r == self.cw(),
    {
        match self {
            Rotation::North => Rotation::East,
            Rotation::East => Rotation::South,
            Rotation::South => Rotation::West,
            Rotation::West => Rotation::North,
        }
    }

    /// The orientation one quarter turn counterclockwise from `self`.
    pub fn rotate_ccw(&self) -> (r: Rotation)
        ensures
            r == self.ccw(),
    {
        match self {
            Rotation::North => Rotation::West,
            Rotation::West => Rotation::South,
            Rotation::South => Rotation::East,
            Rotation::East => Rotation::North,
        }
    }

    /// The opposite orientation.
    pub fn rotate_180(&self) -> (r: Rotation)
        ensures
            r == self.flip(),
    {
        match self {
            Rotation::North => Rotation::South,
            Rotation::East => Rotation::West,
            Rotation::South => Rotation::North,
            Rotation::West => Rotation::East,
        }
    }

    /// The number of quarter turns clockwise from North.
    pub fn ordinal(&self) -> (i: usize)
        ensures
            i == self.index(),
    {
        match self {
            Rotation::North => 0,
            Rotation::East => 1,
            Rotation::South => 2,
            Rotation::West => 3,
        }
    }

    /// The orientation with the given number of quarter turns, taken modulo 4.
    pub fn from_ordinal(i: usize) -> (r: Rotation)
        ensures
            r == Rotation::of_index(i as int),
            r.index() == i % 4,
    {
        let k: usize = i % 4;
        if k == 0 {
            Rotation::North
        } else if k == 1 {
            Rotation::East
        } else if k == 2 {
            Rotation::South
        } else {
            Rotation::West
        }
    }
}

impl Piece {
    /// Cell `i` of the piece facing North, relative to its reference cell.
    pub open spec fn cell(self, i: int) -> (int, int) {
        match self {
            Piece::Z => if i == 0 {
                (-1, 1)
            } else if i == 1 {
                (0, 1)
            } else if i == 2 {
                (0, 0)
            } else {
                (1, 0)
            },
            Piece::S => if i == 0 {
                (-1, 0)
            } else if i == 1 {
                (0, 0)
            } else if i == 2 {
                (0, 1)
            } else {
                (1, 1)
            },
            Piece::I => if i == 0 {
                (-1, 0)
            } else if i == 1 {
                (0, 0)
            } else if i == 2 {
                (1, 0)
            } else {
                (2, 0)
            },
            Piece::O => if i == 0 {
                (0, 0)
            } else if i == 1 {
                (1, 0)
            } else if i == 2 {
                (0, 1)
            } else {
                (1, 1)
            },
            Piece::J => if i == 0 {
                (-1, 0)
            } else if i == 1 {
                (0, 0)
            } else if i == 2 {
                (1, 0)
            } else {
                (-1, 1)
            },
            Piece::L => if i == 0 {
                (-1, 0)
            } else if i == 1 {
                (0, 0)
            } else if i == 2 {
                (1, 0)
            } else {
                (1, 1)
            },
            Piece::T => if i == 0 {
                (-1, 0)
            } else if i == 1 {
                (0, 0)
            } else if i == 2 {
                (1, 0)
            } else {
                (0, 1)
            },
        }
    }

    /// Cell `i` of the piece in orientation `rot`, relative to its reference cell.
    pub open spec fn offset(self, rot: Rotation, i: int) -> (int, int) {
        rot.turn(self.cell(i))
    }

    /// The piece that a lower-case letter names.
    pub open spec fn named(p: char) -> Option<Piece> {
        if p == 'i' {
            Some(Piece::I)
        } else if p == 'o' {
            Some(Piece::O)
        } else if p == 'j' {
            Some(Piece::J)
        } else if p == 't' {
            Some(Piece::T)
        } else if p == 'l' {
            Some(Piece::L)
        } else if p == 's' {
            Some(Piece::S)
        } else if p == 'z' {
            Some(Piece::Z)
        } else {
            None
        }
    }

    /// The four cells of the piece facing North, relative to its reference cell.
    pub fn blocks(&self) -> (r: [(i8, i8); 4])
        ensures
            forall|i: int| 0 <= i < 4 ==> as_cell(#[trigger] r[i]) == self.cell(i),
    {
        match self {
            Piece::Z => [(-1, 1), (0, 1), (0, 0), (1, 0)],
            Piece::S => [(-1, 0), (0, 0), (0, 1), (1, 1)],
            Piece::I => [(-1, 0), (0, 0), (1, 0), (2, 0)],
            Piece::O => [(0, 0), (1, 0), (0, 1), (1, 1)],
            Piece::J => [(-1, 0), (0, 0), (1, 0), (-1, 1)],
            Piece::L => [(-1, 0), (0, 0), (1, 0), (1, 1)],
            Piece::T => [(-1, 0), (0, 0), (1, 0), (0, 1)],
        }
    }

    /// The cells of the piece in orientation `rot`, relative to its reference cell.
    pub fn cells(&self, rot: Rotation) -> (r: [(i8, i8); 4])
        ensures
            forall|i: int| 0 <= i < 4 ==> as_cell(#[trigger] r[i]) == self.offset(rot, i),
            forall|i: int| 0 <= i < 4 ==> -2 <= (#[trigger] r[i]).0 <= 2 && -2 <= r[i].1 <= 2,
    {
        let b = self.blocks();
        rot.rotate_blocks(b)
    }

    /// The piece that the lower-case letter `p` names.
    pub fn from_char(p: char) -> (r: Piece)
        requires
            Piece::named(p) is Some,
        ensures
            Some(r) == Piece::named(p),
    {
        if p == 'i' {
            Piece::I
        } else if p == 'o' {
            Piece::O
        } else if p == 'j' {
            Piece::J
        } else if p == 't' {
            Piece::T
        } else if p == 'l' {
            Piece::L
        } else if p == 's' {
            Piece::S
        } else {
            Piece::Z
        }
    }

    /// The piece that `p` names, if it names one.
    pub fn try_from_char(p: char) -> (r: Option<Piece>)
        ensures
            r == Piece::named(p),
    {
        if p == 'i' || p == 'o' || p == 'j' || p == 't' || p == 'l' || p == 's' || p == 'z' {
            Some(Piece::from_char(p))
        } else {
            None
        }
    }
}

/// Whether two pieces are the same.
pub fn piece_eq(a: Piece, b: Piece) -> (r: bool)
    ensures
        r == (a == b),
{
    a == b
}

/// Every cell offset of every piece lies within two steps of the reference cell.
pub proof fn lemma_offsets_small(piece: Piece, rot: Rotation, i: int)
    requires
        0 <= i < 4,
    ensures
        -2 <= piece.offset(rot, i).0 <= 2,
        -2 <= piece.offset(rot, i).1 <= 2,
{
}

impl PieceLocation {
    /// Cell `i` of the placed piece, in board coordinates.
    pub open spec fn cell(self, i: int) -> (int, int) {
        let c = self.piece.offset(self.rotation, i);
        (self.x + c.0, self.y + c.1)
    }

    /// Whether the placed piece has a cell at `(x, y)`.
    pub open spec fn covers(self, x: int, y: int) -> bool {
        self.cell(0) == (x, y) || self.cell(1) == (x, y) || self.cell(2) == (x, y) || self.cell(3)
            == (x, y)
    }

    /// Whether the coordinates of all four cells can be held in an `i8`.
    pub open spec fn in_range(self) -> bool {
        -126 <= self.x <= 125 && -126 <= self.y <= 125
    }

    /// Whether all four cells lie on the board's 10 by 64 grid.
    pub open spec fn on_board(self) -> bool {
        forall|i: int|
            0 <= i < 4 ==> 0 <= (#[trigger] self.cell(i)).0 < 10 && 0 <= self.cell(i).1 < 64
    }

    /// The same piece moved by `(dx, dy)`.
    pub open spec fn moved(self, dx: int, dy: int) -> PieceLocation {
        PieceLocation {
            piece: self.piece,
            x: (self.x + dx) as i8,
            y: (self.y + dy) as i8,
            rotation: self.rotation,
            spin: self.spin,
        }
    }

    /// Whether the coordinates of all four cells can be held in an `i8` and
    /// all four cells lie on the board.
    pub fn lies_on_board(&self) -> (r: bool)
        ensures
            r == (self.in_range() && self.on_board()),
    {
        if self.x < -126 || self.x > 125 || self.y < -126 || self.y > 125 {
            return false;
        }
        let cells = self.blocks();
        let mut i: usize = 0;
        while i < 4
            invariant
                i <= 4,
                forall|j: int| 0 <= j < 4 ==> as_cell(#[trigger] cells[j]) == self.cell(j),
                forall|j: int|
                    0 <= j < i ==> 0 <= (#[trigger] self.cell(j)).0 < 10 && 0 <= self.cell(j).1 < 64,
            decreases 4 - i,
        {
            let (x, y) = cells[i];
            assert(as_cell(cells[i as int]) == self.cell(i as int));
            if x < 0 || x > 9 || y < 0 || y > 63 {
                return false;
            }
            i += 1;
        }
        true
    }

    /// The four cells of the placed piece, in board coordinates.
    pub fn blocks(&self) -> (r: [(i8, i8); 4])
        requires
            self.in_range(),
        ensures
            forall|i: int| 0 <= i < 4 ==> as_cell(#[trigger] r[i]) == self.cell(i),
    {
        let c = self.piece.cells(self.rotation);
        self.translate_blocks(c)
    }

    /// The cell at the offset `block` from the reference cell.
    pub fn translate(&self, block: (i8, i8)) -> (r: (i8, i8))
        requires
            i8::MIN <= block.0 + self.x <= i8::MAX,
            i8::MIN <= block.1 + self.y <= i8::MAX,
        ensures
            as_cell(r) == (block.0 + self.x, block.1 + self.y),
    {
        (block.0 + self.x, block.1 + self.y)
    }

    /// The cells at four offsets from the reference cell.
    pub fn translate_blocks(&self, cells: [(i8, i8); 4]) -> (r: [(i8, i8); 4])
        requires
            forall|i: int|
                0 <= i < 4 ==> i8::MIN <= (#[trigger] cells[i]).0 + self.x <= i8::MAX && i8::MIN
                    <= cells[i].1 + self.y <= i8::MAX,
        ensures
            forall|i: int|
                0 <= i < 4 ==> as_cell(#[trigger] r[i]) == (
                    cells[i].0 + self.x,
                    cells[i].1 + self.y,
                ),
    {
        [
            self.translate(cells[0]),
            self.translate(cells[1]),
            self.translate(cells[2]),
            self.translate(cells[3]),
        ]
    }
}

} // verus!
