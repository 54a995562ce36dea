//! The state of one player and what placing a piece does to it.
use crate::bits::{
    count_ones, count_rows, has_row, lemma_count_four, lemma_has_row_ops, lemma_single_row,
};
use crate::board::{
    after_clear, after_garbage, after_piece, and_all, lemma_fold_rows, BitboardTrait,
};
use crate::data::{as_cell, piece_eq, Board, Piece, PieceLocation, Rotation, Spin};
use crate::squeeze::{lemma_garbage_none_full, lemma_none_full};
use vstd::prelude::*;

verus! {

/// The column that garbage leaves empty.
pub const GARBAGE_COLUMN: usize = 0;

/// The most rows of garbage that come in with one placement.
pub const GARBAGE_CAP: u16 = 8;

/// The back-to-back count from which on a broken streak counts as a surge.
pub const SURGE_START: i16 = 3;

/// Rule switches of a game.
#[derive(Debug, Clone, Copy)]
pub struct GameConfig {
    pub all_spin: bool,
}

/// The state of one player. `b2b` and `combo` are -1 when no streak is on.
#[derive(Debug, Clone, Copy)]
pub struct Game {
    pub board: Board,
    pub hold: Option<Piece>,
    pub b2b: i16,
    pub combo: i8,
    pub incoming_garbage: u16,
}

/// What one placement did.
#[derive(Debug, Clone, Copy)]
pub struct PlacementInfo {
    pub lines_cleared: u8,
    pub lines_received: u16,
    pub pc: bool,
    pub b2b_clear: bool,
    pub broke_surge: bool,
    pub spin: Spin,
    pub outgoing_attack: u16,
}

/// The attack that goes with a combo count, from the second clear of a combo on.
pub open spec fn combo_floor(combo: int) -> int {
    if combo < 2 {
        0
    } else if combo < 6 {
        1
    } else if combo < 16 {
        2
    } else {
        3
    }
}

/// The attack of a clear before the combo is counted in: twice the rows for
/// a full spin, else 0, 1, 2, 4 for one to four rows; then the surge; then 5
/// for a perfect clear, or else 1 for a back-to-back clear.
pub open spec fn base_attack(lines: int, spin: Spin, b2b_clear: bool, pc: bool, surge: int) -> int {
    (if spin == Spin::Full {
        2 * lines
    } else if lines <= 1 {
        0
    } else if lines <= 3 {
        lines - 1
    } else {
        4
    }) + surge + if pc {
        5
    } else if b2b_clear {
        1
    } else {
        0int
    }
}

/// The attack of a clear: nothing without a cleared row; with a combo the
/// base attack times `1 + combo / 4`, rounded down, but at least what the
/// combo count alone gives; never more than a `u16` holds.
pub open spec fn attack(
    lines: int,
    spin: Spin,
    b2b_clear: bool,
    pc: bool,
    surge: int,
    combo: int,
) -> int {
    if lines == 0 {
        0
    } else {
        let base = base_attack(lines, spin, b2b_clear, pc, surge);
        let capped = if base > u16::MAX {
            u16::MAX as int
        } else {
            base
        };
        if combo > 0 {
            let scaled = (capped * (4 + combo)) / 4;
            let floor = combo_floor(
                if combo > 20 {
                    20
                } else {
                    combo
                },
            );
            let best = if floor > scaled {
                floor
            } else {
                scaled
            };
            if best > u16::MAX {
                u16::MAX as int
            } else {
                best
            }
        } else {
            capped
        }
    }
}

/// What a cell of a game shows when the game is drawn: nothing, a filled
/// cell of the board, or a cell of the piece that is placed, with or without
/// spin.
#[derive(Debug, Clone, Copy, PartialEq, Eq, Structural)]
pub enum Cell {
    Empty,
    Filled,
    Placed,
    Spun,
}

/// The board with the given columns.
pub open spec fn board_of(cols: Seq<u64>) -> Board {
    choose|b: Board| b.cols@ == cols
}

/// A board is the board with its columns.
pub proof fn lemma_board_of(b: Board)
    ensures
        board_of(b.cols@) == b,
{
    let c = board_of(b.cols@);
    assert(c.cols@ == b.cols@);
    assert(c.cols =~= b.cols);
}

impl Game {
    /// Whether the game is in a state that a placement can be made from: no
    /// row of the board is full, and neither streak count is at its limit.
    pub open spec fn wf(self) -> bool {
        &&& self.board.full_rows() == 0
        &&& self.b2b < i16::MAX
        &&& self.combo < i8::MAX
    }

    /// The game after `loc` is placed, `next` being the piece that was up.
    pub open spec fn after(self, next: Piece, loc: PieceLocation) -> Game {
        Game {
            board: board_of(self.cols_after(next, loc)),
            hold: self.hold_after(next, loc),
            b2b: self.b2b_after(next, loc) as i16,
            combo: self.combo_after(next, loc) as i8,
            incoming_garbage: self.garbage_after(next, loc) as u16,
        }
    }

    /// Whether `piece` fits where pieces enter the board.
    pub open spec fn spawns(self, piece: Piece) -> bool {
        !self.board.overlaps(
            PieceLocation { piece, rotation: Rotation::North, spin: Spin::NoSpin, x: 4, y: 21 },
        )
    }

    /// The full rows of the board after `loc` is put on it.
    pub open spec fn lines_after(self, loc: PieceLocation) -> u64 {
        and_all(after_piece(self.board.cols@, loc))
    }

    /// The number of rows that putting `loc` on the board clears.
    pub open spec fn cleared_by(self, loc: PieceLocation) -> int {
        count_rows(self.lines_after(loc)) as int
    }

    /// Whether no cell is filled after `loc` is put on the board and the
    /// full rows are taken out.
    pub open spec fn emptied_by(self, loc: PieceLocation) -> bool {
        forall|x: int|
            0 <= x < 10 ==> #[trigger] after_clear(after_piece(self.board.cols@, loc))[x] == 0
    }

    /// What placing `loc` does, `next` being the piece that was up.
    pub open spec fn info_after(self, next: Piece, loc: PieceLocation) -> PlacementInfo {
        let n = self.cleared_by(loc);
        if n > 0 {
            let pc = self.emptied_by(loc);
            let b2b_clear = pc || n == 4 || loc.spin != Spin::NoSpin;
            let surge = if b2b_clear || self.b2b <= SURGE_START {
                0
            } else {
                self.b2b - SURGE_START
            };
            let hit = attack(n, loc.spin, b2b_clear, pc, surge, self.combo + 1);
            PlacementInfo {
                lines_cleared: n as u8,
                lines_received: 0,
                pc,
                b2b_clear,
                broke_surge: !b2b_clear && self.b2b > SURGE_START,
                spin: loc.spin,
                outgoing_attack: if hit >= self.incoming_garbage {
                    (hit - self.incoming_garbage) as u16
                } else {
                    0
                },
            }
        } else {
            PlacementInfo {
                lines_cleared: 0,
                lines_received: if self.incoming_garbage < GARBAGE_CAP {
                    self.incoming_garbage
                } else {
                    GARBAGE_CAP
                },
                pc: false,
                b2b_clear: false,
                broke_surge: false,
                spin: loc.spin,
                outgoing_attack: 0,
            }
        }
    }

    /// The columns of the board after `loc` is placed: the piece is put on
    /// it and the full rows are taken out; if there were none, the garbage
    /// that comes in is pushed in from below.
    pub open spec fn cols_after(self, next: Piece, loc: PieceLocation) -> Seq<u64> {
        let cleared = after_clear(after_piece(self.board.cols@, loc));
        if self.cleared_by(loc) > 0 {
            cleared
        } else {
            after_garbage(
                cleared,
                GARBAGE_COLUMN as int,
                self.info_after(next, loc).lines_received,
            )
        }
    }

    /// The held piece after `loc` is placed: the piece that was up, if
    /// another one was placed.
    pub open spec fn hold_after(self, next: Piece, loc: PieceLocation) -> Option<Piece> {
        if loc.piece != next {
            Some(next)
        } else {
            self.hold
        }
    }

    /// The back-to-back count after `loc` is placed.
    pub open spec fn b2b_after(self, next: Piece, loc: PieceLocation) -> int {
        if self.cleared_by(loc) > 0 {
            if self.info_after(next, loc).b2b_clear {
                self.b2b + 1
            } else {
                -1
            }
        } else {
            self.b2b as int
        }
    }

    /// The combo count after `loc` is placed.
    pub open spec fn combo_after(self, next: Piece, loc: PieceLocation) -> int {
        if self.cleared_by(loc) > 0 {
            self.combo + 1
        } else {
            -1
        }
    }

    /// The garbage still to come after `loc` is placed.
    pub open spec fn garbage_after(self, next: Piece, loc: PieceLocation) -> int {
        let info = self.info_after(next, loc);
        if self.cleared_by(loc) > 0 {
            let hit = attack(
                self.cleared_by(loc),
                loc.spin,
                info.b2b_clear,
                info.pc,
                if info.b2b_clear || self.b2b <= SURGE_START {
                    0
                } else {
                    self.b2b - SURGE_START
                },
                self.combo + 1,
            );
            if self.incoming_garbage >= hit {
                self.incoming_garbage - hit
            } else {
                0
            }
        } else {
            self.incoming_garbage - info.lines_received
        }
    }

    /// Whether a placement can be made from the game.
    pub fn playable(&self) -> (r: bool)
        ensures
            r == self.wf(),
    {
        self.board.fold_and() == 0 && self.b2b < i16::MAX && self.combo < i8::MAX
    }

    /// Places `loc`, `next` being the piece that was up: holds `next` if
    /// another piece is placed, puts the piece on the board, takes the full
    /// rows out, counts streaks and attack, and lets garbage in if no row
    /// was cleared.
    pub fn advance(&mut self, next: Piece, loc: &PieceLocation) -> (info: PlacementInfo)
        requires
            old(self).wf(),
            loc.in_range(),
            loc.on_board(),
        ensures
            info == old(self).info_after(next, *loc),
            info.lines_cleared == count_rows(old(self).lines_after(*loc)),
            info.lines_cleared <= 4,
            final(self).board.cols@ == old(self).cols_after(next, *loc),
            final(self).hold == old(self).hold_after(next, *loc),
            final(self).b2b == old(self).b2b_after(next, *loc),
            final(self).combo == old(self).combo_after(next, *loc),
            final(self).incoming_garbage == old(self).garbage_after(next, *loc),
            final(self).board.full_rows() == 0,
            *final(self) == old(self).after(next, *loc),
    {
        if !piece_eq(loc.piece, next) {
            self.hold = Some(next);
        }
        let ghost start = self.board;
        self.board.put_piece(loc);
        let ghost placed = self.board;
        let line_mask = self.board.remove_lines();
        let n: u32 = count_ones(line_mask);
        proof {
            assert(placed.cols@ =~= after_piece(start.cols@, *loc));
            assert(self.board.cols@ =~= after_clear(placed.cols@));
            lemma_none_full(placed.cols@);
            assert forall|y: int| 0 <= y < 64 && has_row(line_mask, y) implies y == loc.cell(0).1
                || y == loc.cell(1).1 || y == loc.cell(2).1 || y == loc.cell(3).1 by {
                lemma_fold_rows(placed.cols@, y);
                lemma_fold_rows(start.cols@, y);
                lemma_has_row_ops(0, 0, y);
                let x = choose|x: int| 0 <= x < 10 && !has_row(#[trigger] start.cols@[x], y);
                assert(has_row(placed.cols@[x], y));
                assert(placed.filled(x, y));
                assert(!start.filled(x, y));
                assert(loc.covers(x, y));
            }
            lemma_count_four(
                line_mask,
                loc.cell(0).1,
                loc.cell(1).1,
                loc.cell(2).1,
                loc.cell(3).1,
                64,
            );
        }
        let mut info = PlacementInfo {
            lines_cleared: n as u8,
            lines_received: 0,
            pc: false,
            b2b_clear: false,
            broke_surge: false,
            spin: loc.spin,
            outgoing_attack: 0,
        };
        if info.lines_cleared > 0 {
            self.combo = self.combo + 1;
            if self.board.is_empty() {
                info.pc = true;
                info.b2b_clear = true;
            }
            if info.lines_cleared == 4 || !matches!(loc.spin, Spin::NoSpin) {
                info.b2b_clear = true;
            }
            let surge: u16 = if info.b2b_clear || self.b2b <= SURGE_START {
                0
            } else {
                (self.b2b - SURGE_START) as u16
            };
            let hit = self.calculate_attack(
                info.lines_cleared,
                info.spin,
                info.b2b_clear,
                info.pc,
                surge,
                self.combo,
            );
            info.outgoing_attack = hit.saturating_sub(self.incoming_garbage);
            self.incoming_garbage = self.incoming_garbage.saturating_sub(hit);
            if info.b2b_clear {
                self.b2b = self.b2b + 1;
            } else {
                info.broke_surge = self.b2b > SURGE_START;
                self.b2b = -1;
            }
        } else {
            self.combo = -1;
            let lines: u16 = if self.incoming_garbage < GARBAGE_CAP {
                self.incoming_garbage
            } else {
                GARBAGE_CAP
            };
            let ghost cleared = self.board;
            self.board.add_garbage(GARBAGE_COLUMN, lines);
            proof {
                assert(self.board.cols@ =~= after_garbage(cleared.cols@, GARBAGE_COLUMN as int, lines));
                lemma_garbage_none_full(cleared.cols@, GARBAGE_COLUMN as int, lines);
            }
            self.incoming_garbage = self.incoming_garbage - lines;
            info.lines_received = lines;
        }
        proof {
            lemma_board_of(self.board);
        }
        info
    }

    /// What cell `(x, y)` shows when the game is drawn with the piece `loc`.
    pub open spec fn shows(self, loc: Option<PieceLocation>, x: int, y: int) -> Cell {
        if loc is Some && loc->0.covers(x, y) {
            if loc->0.spin != Spin::NoSpin {
                Cell::Spun
            } else {
                Cell::Placed
            }
        } else if self.board.filled(x, y) {
            Cell::Filled
        } else {
            Cell::Empty
        }
    }

    /// What cell `(x, y)` shows when the game is drawn with the piece `loc`.
    pub fn cell_at(&self, loc: Option<&PieceLocation>, x: i8, y: i8) -> (c: Cell)
        requires
            0 <= x < 10,
            0 <= y < 64,
            loc matches Some(l) ==> l.in_range(),
        ensures
            c == self.shows(
                match loc {
                    Some(l) => Some(*l),
                    None => None,
                },
                x as int,
                y as int,
            ),
    {
        if let Some(l) = loc {
            let cells = l.blocks();
            assert(as_cell(cells[0]) == l.cell(0));
            assert(as_cell(cells[1]) == l.cell(1));
            assert(as_cell(cells[2]) == l.cell(2));
            assert(as_cell(cells[3]) == l.cell(3));
            if (cells[0].0 == x && cells[0].1 == y) || (cells[1].0 == x && cells[1].1 == y) || (
            cells[2].0 == x && cells[2].1 == y) || (cells[3].0 == x && cells[3].1 == y) {
                return if matches!(l.spin, Spin::NoSpin) {
                    Cell::Placed
                } else {
                    Cell::Spun
                };
            }
        }
        proof {
            lemma_single_row(self.board.cols[x as int], y as u64);
        }
        if self.board.cols[x as usize] & (1u64 << (y as u64)) > 0 {
            Cell::Filled
        } else {
            Cell::Empty
        }
    }

    /// The number of rows that placing `loc` would clear.
    pub fn would_clear(&self, loc: &PieceLocation) -> (n: u32)
        requires
            loc.in_range(),
            loc.on_board(),
        ensures
            n == self.cleared_by(*loc),
    {
        let mut placed: Board = self.board;
        placed.put_piece(loc);
        count_ones(placed.fold_and())
    }

    /// A game with an empty board, nothing held and no streak.
    pub fn new_empty() -> (g: Self)
        ensures
            forall|x: int| 0 <= x < 10 ==> #[trigger] g.board.cols[x] == 0,
            g.hold == None::<Piece>,
            g.b2b == -1,
            g.combo == -1,
            g.incoming_garbage == 0,
    {
        Game { board: Board::new(), hold: None, b2b: -1, combo: -1, incoming_garbage: 0 }
    }

    /// The attack of a clear of `lines_cleared` rows.
    pub fn calculate_attack(
        &self,
        lines_cleared: u8,
        spin: Spin,
        b2b_clear: bool,
        pc: bool,
        surge: u16,
        combo: i8,
    ) -> (r: u16)
        requires
            lines_cleared <= 4,
        ensures
            r == attack(lines_cleared as int, spin, b2b_clear, pc, surge as int, combo as int),
    {
        if lines_cleared == 0 {
            return 0;
        }
        let mut hit: u32 = if matches!(spin, Spin::Full) {
            2 * lines_cleared as u32
        } else if lines_cleared == 1 {
            0
        } else if lines_cleared == 2 {
            1
        } else if lines_cleared == 3 {
            2
        } else {
            4
        };
        hit = hit + surge as u32;
        if pc {
            hit = hit + 5;
        } else if b2b_clear {
            hit = hit + 1;
        }
        if hit > u16::MAX as u32 {
            hit = u16::MAX as u32;
        }
        if combo > 0 {
            let table: [u32; 21] = [0, 0, 1, 1, 1, 1, 2, 2, 2, 2, 2, 2, 2, 2, 2, 2, 3, 3, 3, 3, 3];
            let at: usize = if combo > 20 {
                20
            } else {
                combo as usize
            };
            let floor: u32 = table[at];
            assert(floor == combo_floor(at as int)) by {
                assert(table[0] == 0 && table[1] == 0 && table[2] == 1 && table[3] == 1);
                assert(table[4] == 1 && table[5] == 1 && table[6] == 2 && table[7] == 2);
                assert(table[8] == 2 && table[9] == 2 && table[10] == 2 && table[11] == 2);
                assert(table[12] == 2 && table[13] == 2 && table[14] == 2 && table[15] == 2);
                assert(table[16] == 3 && table[17] == 3 && table[18] == 3 && table[19] == 3);
                assert(table[20] == 3);
            }
            let scale: u32 = 4 + combo as u32;
            assert(hit * scale <= 65535 * 131) by (nonlinear_arith)
                requires
                    hit <= 65535,
                    scale <= 131,
            ;
            let scaled: u32 = (hit * scale) / 4;
            hit = if floor > scaled {
                floor
            } else {
                scaled
            };
            if hit > u16::MAX as u32 {
                hit = u16::MAX as u32;
            }
        }
        hit as u16
    }

    /// Whether `piece` fits where pieces enter the board.
    pub fn can_spawn_piece(&self, piece: Piece) -> (r: bool)
        ensures
            r == self.spawns(piece),
    {
        let loc = PieceLocation { piece, rotation: Rotation::North, spin: Spin::NoSpin, x: 4, y: 21 };
        proof {
            assert forall|i: int| 0 <= i < 4 implies (#[trigger] loc.cell(i)).1 < 64 by {
                crate::data::lemma_offsets_small(piece, Rotation::North, i);
            }
        }
        !self.board.obstructed(&loc)
    }
}

} // verus!
