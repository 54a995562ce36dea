//! What the move generator finds, stated without saying how it is found.
//!
//! A piece in play is in one of 40 slots, a column and an orientation, and in
//! one row of it. For every slot the generator keeps the set of rows that the
//! piece can reach there. These sets are the least ones that hold the rows
//! where the piece starts and are closed under the moves: falling until the
//! piece rests, a step to either side, and a turn with the first of its kick
//! offsets that fits. Beside them it keeps by which kinds of move a row is
//! entered: the spin of a placement of the T piece goes by that.
use crate::bits::{
    fall, kicked, lemma_fall, lemma_kick, lemma_masked, lemma_within, low_rows, lowest_row,
    resting, unkicked, within, ALL_ROWS,
};
use crate::collision::blocked_rows;
use crate::data::{Board, Piece, Rotation};
use crate::kicks::{kick, kick_180};
use vstd::prelude::*;

verus! {

/// The row in which a piece enters a board that is filled high.
pub const SPAWN_ROW: u64 = 21;

/// The slot in which it enters: column 4, facing North.
pub const SPAWN_SLOT: usize = 16;

/// The greatest height of a board on which a piece may start from any column.
pub const LOW_HEIGHT: i8 = 18;

/// What a generation starts from. There are 40 slots, ten columns times
/// four orientations: slot `s` is column `s / 4` in the orientation with
/// index `s % 4`.
pub struct Setup {
    pub board: Board,
    pub piece: Piece,
    pub force: bool,
}

/// Four families of row sets, one set for each slot: the rows found, and of
/// them those entered by a fall, a step or a turn without spin, by a turn with
/// a mini spin, and by one with a full spin.
pub struct Marks {
    pub found: Seq<u64>,
    pub plain: Seq<u64>,
    pub mini: Seq<u64>,
    pub full: Seq<u64>,
}

/// The cell diagonally next to `(x, y)` for every row `y` of column `x`:
/// corner 0 is up and left, 1 up and right, 2 down and right, 3 down and
/// left. A corner beside the board or below the floor counts as filled.
pub open spec fn corner(board: Board, x: int, j: int) -> u64 {
    if j == 0 {
        if x > 0 {
            board.cols[x - 1] >> 1
        } else {
            ALL_ROWS
        }
    } else if j == 1 {
        if x < 9 {
            board.cols[x + 1] >> 1
        } else {
            ALL_ROWS
        }
    } else if j == 2 {
        if x < 9 {
            (board.cols[x + 1] << 1) | 1
        } else {
            ALL_ROWS
        }
    } else {
        if x > 0 {
            (board.cols[x - 1] << 1) | 1
        } else {
            ALL_ROWS
        }
    }
}

/// The rows of column `x` at which at least three of the four corners are filled.
pub open spec fn three_corners(board: Board, x: int) -> u64 {
    (corner(board, x, 0) & corner(board, x, 1) & (corner(board, x, 2) | corner(board, x, 3))) | (
    corner(board, x, 2) & corner(board, x, 3) & (corner(board, x, 0) | corner(board, x, 1)))
}

impl Setup {
    /// The orientation of slot `s`.
    pub open spec fn rot(s: int) -> Rotation {
        Rotation::of_index(s)
    }

    /// The rows of slot `s` where the piece cannot be.
    pub open spec fn blocked(self, s: int) -> u64 {
        blocked_rows(self.board, self.piece, Setup::rot(s), s / 4)
    }

    /// Whether the board is low enough for the piece to start from any column.
    pub open spec fn low(self) -> bool {
        self.board.height() <= LOW_HEIGHT
    }

    /// Whether, on a low board, the piece starts in slot `s`: the O piece only
    /// facing North, and no piece in a slot that is blocked in its top four rows.
    pub open spec fn seeded(self, s: int) -> bool {
        (self.piece == Piece::O ==> s % 4 == 0) && self.blocked(s) <= ALL_ROWS >> 4
    }

    /// On a low board, the rows of slot `s` from the lowest row above
    /// everything blocked up to the spawn row: the piece is taken to have
    /// passed through them.
    pub open spec fn surface(self, s: int) -> u64 {
        if self.low() && self.seeded(s) {
            low_rows(SPAWN_ROW as int) & !low_rows(
                64 - vstd::std_specs::bits::u64_leading_zeros(self.blocked(s)),
            )
        } else {
            0
        }
    }

    /// On a board that is not low, the row in which the piece enters: the
    /// spawn row if it is free there, or with `force` the lowest free row from
    /// the spawn row up.
    pub open spec fn spawn(self) -> u64 {
        if self.force {
            lowest_row(!self.blocked(SPAWN_SLOT as int) & (ALL_ROWS << SPAWN_ROW))
        } else {
            !self.blocked(SPAWN_SLOT as int) & (1u64 << SPAWN_ROW)
        }
    }

    /// The rows of slot `s` where the piece starts.
    pub open spec fn seed(self, s: int) -> u64 {
        if self.low() {
            self.surface(s) & resting(self.blocked(s))
        } else if s == SPAWN_SLOT {
            self.spawn()
        } else {
            0
        }
    }

    /// The rows of slot `s` that no step and no turn enters: the blocked rows
    /// and the surface.
    pub open spec fn shut(self, s: int) -> u64 {
        self.blocked(s) | self.surface(s)
    }

    /// The rows of slot `s` where a turn of the T piece ends in a spin.
    pub open spec fn spin(self, s: int) -> u64 {
        if self.piece == Piece::T {
            three_corners(self.board, s / 4)
        } else {
            0
        }
    }

    /// Of the rows in `spin`, those where both corners in front of the T
    /// piece are filled.
    pub open spec fn front(self, s: int) -> u64 {
        if self.piece == Piece::T && self.blocked(s) != ALL_ROWS {
            three_corners(self.board, s / 4) & corner(self.board, s / 4, s % 4) & corner(
                self.board,
                s / 4,
                (s + 1) % 4,
            )
        } else {
            0
        }
    }

    /// How many offsets a turn by `q` quarters tries.
    pub open spec fn kick_count(q: int) -> int {
        if q == 2 {
            6
        } else {
            5
        }
    }

    /// Offset `i` of the turn by `q` quarters from slot `s`.
    pub open spec fn kick_at(self, s: int, q: int, i: int) -> (int, int) {
        if q == 2 {
            kick_180(self.piece, Setup::rot(s), Setup::rot(s + q), i)
        } else {
            kick(self.piece, Setup::rot(s), Setup::rot(s + q), i)
        }
    }

    /// The slot that kick `i` of the turn by `q` quarters from slot `s` leads
    /// to, or -1 if it leads off the board.
    pub open spec fn kick_slot(self, s: int, q: int, i: int) -> int {
        let nx = s / 4 + self.kick_at(s, q, i).0;
        if 0 <= nx < 10 {
            4 * nx + (s + q) % 4
        } else {
            -1
        }
    }

    /// By how much `kicked` is to move the rows for that kick.
    pub open spec fn kick_by(self, s: int, q: int, i: int) -> u64 {
        (self.kick_at(s, q, i).1 + 3) as u64
    }

    /// Of `rows` in slot `s`, those for which none of the kicks `0 .. i` of
    /// the turn by `q` quarters fits.
    pub open spec fn left(self, s: int, q: int, i: int, rows: u64) -> u64
        decreases i,
    {
        if i <= 0 {
            rows
        } else {
            let before = self.left(s, q, i - 1, rows);
            let t = self.kick_slot(s, q, i - 1);
            if t < 0 {
                before
            } else {
                unkicked(before, self.kick_by(s, q, i - 1), self.blocked(t))
            }
        }
    }

    /// The rows in which pieces at `rows` of slot `s` land with kick `i`: it
    /// is the first that fits them.
    pub open spec fn landed(self, s: int, q: int, i: int, rows: u64) -> u64 {
        let t = self.kick_slot(s, q, i);
        if t < 0 {
            0
        } else {
            kicked(self.left(s, q, i, rows), self.kick_by(s, q, i), self.blocked(t))
        }
    }

    /// The rows in which a landing with spin is full: with the last kick of a
    /// quarter turn every row, else those with both front corners filled.
    pub open spec fn full_mask(self, s: int, q: int, i: int) -> u64 {
        if q != 2 && i >= 4 {
            ALL_ROWS
        } else {
            self.front(self.kick_slot(s, q, i))
        }
    }

    /// Falling: `d` holds every row below `rows` that a fall passes, the rows
    /// of `d` where the piece rests are found, and all of `d` is plain.
    pub open spec fn sink_ok(self, s: int, rows: u64, d: u64, m: Marks) -> bool {
        &&& within(fall(rows, self.blocked(s)), d)
        &&& within(fall(d, self.blocked(s)), d)
        &&& within(d & resting(self.blocked(s)), m.found[s])
        &&& within(d, m.plain[s])
    }

    /// A step from slot `s` to the slot `t` beside it.
    pub open spec fn shift_ok(self, t: int, rows: u64, m: Marks) -> bool {
        &&& within(rows & !self.shut(t), m.found[t])
        &&& within(rows & !self.blocked(t), m.plain[t])
    }

    /// Kick `i` of the turn by `q` quarters from slot `s`.
    pub open spec fn kick_ok(self, s: int, q: int, i: int, rows: u64, m: Marks) -> bool {
        let t = self.kick_slot(s, q, i);
        let l = self.landed(s, q, i, rows);
        t >= 0 ==> {
            &&& within(l & !self.shut(t), m.found[t])
            &&& within(l & !self.spin(t), m.plain[t])
            &&& within(l & self.spin(t) & !self.full_mask(s, q, i), m.mini[t])
            &&& within(l & self.spin(t) & self.full_mask(s, q, i), m.full[t])
        }
    }

    /// Every kick of the turn by `q` quarters from slot `s`.
    pub open spec fn turn_ok(self, s: int, q: int, rows: u64, m: Marks) -> bool {
        forall|i: int| 0 <= i < Setup::kick_count(q) ==> #[trigger] self.kick_ok(s, q, i, rows, m)
    }

    /// Every move from `rows` of slot `s` leads into `m`.
    pub open spec fn slot_ok(self, s: int, rows: u64, d: u64, m: Marks) -> bool {
        &&& self.sink_ok(s, rows, d, m)
        &&& s >= 4 ==> self.shift_ok(s - 4, rows, m)
        &&& s < 36 ==> self.shift_ok(s + 4, rows, m)
        &&& self.piece != Piece::O ==> self.turn_ok(s, 1, rows, m) && self.turn_ok(s, 3, rows, m)
            && self.turn_ok(s, 2, rows, m)
    }

    /// `m` holds where the piece starts in slot `s`, and every move from a
    /// found row of slot `s` leads into `m`.
    pub open spec fn closed_at(self, m: Marks, s: int) -> bool {
        &&& within(self.seed(s), m.found[s])
        &&& within(self.seed(s), m.plain[s])
        &&& exists|d: u64| #[trigger] self.slot_ok(s, m.found[s], d, m)
    }

    /// `m` holds where the piece starts and is closed under the moves.
    pub open spec fn closed(self, m: Marks) -> bool {
        m.wf() && forall|s: int| 0 <= s < 40 ==> #[trigger] self.closed_at(m, s)
    }

    /// `m` is closed and lies within every closed family.
    pub open spec fn least(self, m: Marks) -> bool {
        self.closed(m) && forall|h: Marks| #[trigger] self.closed(h) ==> m.below(h)
    }

    /// The rows that the piece reaches, with how it enters them.
    pub open spec fn reach(self) -> Marks {
        choose|m: Marks| self.least(m)
    }
}

impl Marks {
    /// Whether each family has a set for each slot.
    pub open spec fn wf(self) -> bool {
        self.found.len() == 40 && self.plain.len() == 40 && self.mini.len() == 40
            && self.full.len() == 40
    }

    /// Whether the sets of slot `t` lie within those of `other`.
    pub open spec fn below_at(self, other: Marks, t: int) -> bool {
        &&& within(self.found[t], other.found[t])
        &&& within(self.plain[t], other.plain[t])
        &&& within(self.mini[t], other.mini[t])
        &&& within(self.full[t], other.full[t])
    }

    /// Whether every set lies within the one of `other`.
    pub open spec fn below(self, other: Marks) -> bool {
        forall|t: int| 0 <= t < 40 ==> #[trigger] self.below_at(other, t)
    }
}

/// What a closed family holds of the moves from slot `s`.
pub proof fn lemma_closed_slot(su: Setup, h: Marks, s: int) -> (d: u64)
    requires
        su.closed(h),
        0 <= s < 40,
    ensures
        su.slot_ok(s, h.found[s], d, h),
        within(su.seed(s), h.found[s]),
        within(su.seed(s), h.plain[s]),
{
    assert(su.closed_at(h, s));
    choose|d: u64| #[trigger] su.slot_ok(s, h.found[s], d, h)
}

/// The rows that are shut and where the piece rests are rows where it starts.
pub proof fn lemma_shut_resting(su: Setup, s: int)
    requires
        0 <= s < 40,
    ensures
        within(resting(su.blocked(s)) & su.shut(s), su.seed(s)),
        within(su.blocked(s), su.shut(s)),
{
    let b = su.blocked(s);
    let sf = su.surface(s);
    let sd = su.seed(s);
    assert(within(resting(b) & (b | sf), sf & resting(b)) && within(b, b | sf)) by (bit_vector);
    if !su.low() {
        assert(sf == 0);
        assert(within(resting(b) & (b | 0u64), sd)) by (bit_vector);
    }
}

/// The piece starts in rows where it can be.
pub proof fn lemma_seed_free(su: Setup, s: int)
    requires
        0 <= s < 40,
    ensures
        within(su.seed(s), !su.blocked(s)),
{
    let b = su.blocked(s);
    if su.low() {
        let sf = su.surface(s);
        assert(within(sf & resting(b), !b)) by (bit_vector);
    } else if s == 16 {
        let free = !b & (ALL_ROWS << 21u64);
        if su.force {
            if free != 0 {
                vstd::std_specs::bits::axiom_u64_trailing_zeros(free);
                let k = vstd::std_specs::bits::u64_trailing_zeros(free) as u64;
                assert(within(1u64 << k, !b)) by (bit_vector)
                    requires
                        k < 64,
                        (free >> k) & 1 == 1,
                        free == !b & (0xffff_ffff_ffff_ffffu64 << 21u64),
                ;
            } else {
                lemma_within(!b, 0, 0);
            }
        } else {
            assert(within(!b & (1u64 << 21u64), !b)) by (bit_vector);
        }
    } else {
        lemma_within(!b, 0, 0);
    }
}

/// A kick leads to one of the 40 slots or off the board.
pub proof fn lemma_kick_slot(su: Setup, s: int, q: int, i: int)
    requires
        0 <= s < 40,
        1 <= q <= 3,
    ensures
        -1 <= su.kick_slot(s, q, i) < 40,
        su.kick_slot(s, q, i) != s,
        1 <= su.kick_by(s, q, i) <= 5,
        -2 <= su.kick_at(s, q, i).0 <= 2,
        -2 <= su.kick_at(s, q, i).1 <= 2,
{
}

/// What is left of a union of row sets after the kicks `0 .. i`, and what
/// lands with kick `i`, is the union of what is left and lands of each.
pub proof fn lemma_left_union(su: Setup, s: int, q: int, i: int, a: u64, c: u64)
    requires
        0 <= s < 40,
        1 <= q <= 3,
        0 <= i,
    ensures
        su.left(s, q, i, a | c) == su.left(s, q, i, a) | su.left(s, q, i, c),
        su.landed(s, q, i, a | c) == su.landed(s, q, i, a) | su.landed(s, q, i, c),
        within(su.left(s, q, i, a), a),
    decreases i,
{
    if i > 0 {
        lemma_left_union(su, s, q, i - 1, a, c);
        lemma_kick_slot(su, s, q, i - 1);
        let t = su.kick_slot(s, q, i - 1);
        if t >= 0 {
            lemma_kick(
                su.left(s, q, i - 1, a),
                su.left(s, q, i - 1, c),
                su.kick_by(s, q, i - 1),
                su.blocked(t),
            );
        }
        lemma_within(su.left(s, q, i, a), su.left(s, q, i - 1, a), a);
    } else {
        lemma_within(a, a, a);
    }
    lemma_kick_slot(su, s, q, i);
    let t = su.kick_slot(s, q, i);
    if t >= 0 {
        lemma_kick(su.left(s, q, i, a), su.left(s, q, i, c), su.kick_by(s, q, i), su.blocked(t));
    } else {
        lemma_within(0, 0, 0);
    }
}

/// Nothing lands from no rows.
pub proof fn lemma_left_nothing(su: Setup, s: int, q: int, i: int)
    requires
        0 <= s < 40,
        1 <= q <= 3,
        0 <= i,
    ensures
        su.left(s, q, i, 0) == 0,
        su.landed(s, q, i, 0) == 0,
    decreases i,
{
    if i > 0 {
        lemma_left_nothing(su, s, q, i - 1);
        lemma_kick_slot(su, s, q, i - 1);
        let t = su.kick_slot(s, q, i - 1);
        if t >= 0 {
            lemma_kick(0, 0, su.kick_by(s, q, i - 1), su.blocked(t));
        }
    }
    lemma_kick_slot(su, s, q, i);
    let t = su.kick_slot(s, q, i);
    if t >= 0 {
        lemma_kick(0, 0, su.kick_by(s, q, i), su.blocked(t));
    }
}

/// What lands from fewer rows lands from more.
pub proof fn lemma_landed_within(su: Setup, s: int, q: int, i: int, a: u64, c: u64)
    requires
        0 <= s < 40,
        1 <= q <= 3,
        0 <= i,
        within(a, c),
    ensures
        within(su.landed(s, q, i, a), su.landed(s, q, i, c)),
{
    lemma_left_union(su, s, q, i, a, c);
    lemma_within(a, c, 0);
    lemma_within(su.landed(s, q, i, a), su.landed(s, q, i, c), 0);
}

/// A kick that leads into `m` leads into every family that `m` lies within.
pub proof fn lemma_kick_ok_grow(su: Setup, s: int, q: int, i: int, rows: u64, m: Marks, m2: Marks)
    requires
        0 <= s < 40,
        1 <= q <= 3,
        m.below(m2),
        su.kick_ok(s, q, i, rows, m),
    ensures
        su.kick_ok(s, q, i, rows, m2),
{
    lemma_kick_slot(su, s, q, i);
    let t = su.kick_slot(s, q, i);
    if t >= 0 {
        assert(m.below_at(m2, t));
        let l = su.landed(s, q, i, rows);
        lemma_within(l & !su.shut(t), m.found[t], m2.found[t]);
        lemma_within(l & !su.spin(t), m.plain[t], m2.plain[t]);
        lemma_within(l & su.spin(t) & !su.full_mask(s, q, i), m.mini[t], m2.mini[t]);
        lemma_within(l & su.spin(t) & su.full_mask(s, q, i), m.full[t], m2.full[t]);
    }
}

/// A turn that leads into `m` leads into every family that `m` lies within.
pub proof fn lemma_turn_ok_grow(su: Setup, s: int, q: int, rows: u64, m: Marks, m2: Marks)
    requires
        0 <= s < 40,
        1 <= q <= 3,
        m.below(m2),
        su.turn_ok(s, q, rows, m),
    ensures
        su.turn_ok(s, q, rows, m2),
{
    assert forall|i: int| 0 <= i < Setup::kick_count(q) implies #[trigger] su.kick_ok(
        s,
        q,
        i,
        rows,
        m2,
    ) by {
        assert(su.kick_ok(s, q, i, rows, m));
        lemma_kick_ok_grow(su, s, q, i, rows, m, m2);
    }
}

/// A fall that leads into `m` leads into every family that `m` lies within.
pub proof fn lemma_sink_ok_grow(su: Setup, s: int, rows: u64, d: u64, m: Marks, m2: Marks)
    requires
        0 <= s < 40,
        m.below(m2),
        su.sink_ok(s, rows, d, m),
    ensures
        su.sink_ok(s, rows, d, m2),
{
    assert(m.below_at(m2, s));
    lemma_within(d & resting(su.blocked(s)), m.found[s], m2.found[s]);
    lemma_within(d, m.plain[s], m2.plain[s]);
}

/// A step that leads into `m` leads into every family that `m` lies within.
pub proof fn lemma_shift_ok_grow(su: Setup, t: int, rows: u64, m: Marks, m2: Marks)
    requires
        0 <= t < 40,
        m.below(m2),
        su.shift_ok(t, rows, m),
    ensures
        su.shift_ok(t, rows, m2),
{
    assert(m.below_at(m2, t));
    lemma_within(rows & !su.shut(t), m.found[t], m2.found[t]);
    lemma_within(rows & !su.blocked(t), m.plain[t], m2.plain[t]);
}

/// Moves that lead into `m` lead into every family that `m` lies within.
pub proof fn lemma_slot_ok_grow(su: Setup, s: int, rows: u64, d: u64, m: Marks, m2: Marks)
    requires
        0 <= s < 40,
        m.below(m2),
        su.slot_ok(s, rows, d, m),
    ensures
        su.slot_ok(s, rows, d, m2),
{
    lemma_sink_ok_grow(su, s, rows, d, m, m2);
    if s >= 4 {
        lemma_shift_ok_grow(su, s - 4, rows, m, m2);
    }
    if s < 36 {
        lemma_shift_ok_grow(su, s + 4, rows, m, m2);
    }
    if su.piece != Piece::O {
        lemma_turn_ok_grow(su, s, 1, rows, m, m2);
        lemma_turn_ok_grow(su, s, 3, rows, m, m2);
        lemma_turn_ok_grow(su, s, 2, rows, m, m2);
    }
}

/// A kick leads into `m` from a union of two row sets if it does from each.
pub proof fn lemma_kick_ok_union(su: Setup, s: int, q: int, i: int, a: u64, c: u64, m: Marks)
    requires
        0 <= s < 40,
        1 <= q <= 3,
        0 <= i,
        su.kick_ok(s, q, i, a, m),
        su.kick_ok(s, q, i, c, m),
    ensures
        su.kick_ok(s, q, i, a | c, m),
{
    lemma_kick_slot(su, s, q, i);
    lemma_left_union(su, s, q, i, a, c);
    let t = su.kick_slot(s, q, i);
    if t >= 0 {
        let la = su.landed(s, q, i, a);
        let lc = su.landed(s, q, i, c);
        lemma_masked(la, lc, !su.shut(t), 0, m.found[t]);
        lemma_masked(la, lc, !su.spin(t), 0, m.plain[t]);
        lemma_masked(la, lc, su.spin(t), !su.full_mask(s, q, i), m.mini[t]);
        lemma_masked(la, lc, su.spin(t), su.full_mask(s, q, i), m.full[t]);
    }
}

/// A turn leads into `m` from a union of two row sets if it does from each.
pub proof fn lemma_turn_ok_union(su: Setup, s: int, q: int, a: u64, c: u64, m: Marks)
    requires
        0 <= s < 40,
        1 <= q <= 3,
        su.turn_ok(s, q, a, m),
        su.turn_ok(s, q, c, m),
    ensures
        su.turn_ok(s, q, a | c, m),
{
    assert forall|i: int| 0 <= i < Setup::kick_count(q) implies #[trigger] su.kick_ok(
        s,
        q,
        i,
        a | c,
        m,
    ) by {
        assert(su.kick_ok(s, q, i, a, m));
        assert(su.kick_ok(s, q, i, c, m));
        lemma_kick_ok_union(su, s, q, i, a, c, m);
    }
}

/// The moves lead into `m` from a union of two row sets if they do from each.
pub proof fn lemma_slot_ok_union(su: Setup, s: int, a: u64, da: u64, c: u64, dc: u64, m: Marks)
    requires
        0 <= s < 40,
        su.slot_ok(s, a, da, m),
        su.slot_ok(s, c, dc, m),
    ensures
        su.slot_ok(s, a | c, da | dc, m),
{
    let b = su.blocked(s);
    lemma_fall(a, c, b);
    lemma_fall(da, dc, b);
    lemma_within(fall(a, b), da, dc);
    lemma_within(fall(c, b), dc, da);
    lemma_within(fall(a, b), fall(c, b), da | dc);
    lemma_within(dc, da | dc, 0);
    lemma_within(da, da | dc, 0);
    lemma_within(fall(a, b), da, da | dc);
    lemma_within(fall(c, b), dc, da | dc);
    lemma_within(fall(da, b), da, da | dc);
    lemma_within(fall(dc, b), dc, da | dc);
    lemma_within(fall(da, b), fall(dc, b), da | dc);
    lemma_masked(da, dc, resting(b), 0, m.found[s]);
    lemma_within(da, dc, m.plain[s]);
    if s >= 4 {
        lemma_masked(a, c, !su.shut(s - 4), 0, m.found[s - 4]);
        lemma_masked(a, c, !su.blocked(s - 4), 0, m.plain[s - 4]);
    }
    if s < 36 {
        lemma_masked(a, c, !su.shut(s + 4), 0, m.found[s + 4]);
        lemma_masked(a, c, !su.blocked(s + 4), 0, m.plain[s + 4]);
    }
    if su.piece != Piece::O {
        lemma_turn_ok_union(su, s, 1, a, c, m);
        lemma_turn_ok_union(su, s, 3, a, c, m);
        lemma_turn_ok_union(su, s, 2, a, c, m);
    }
}

/// From no rows, every move leads into any family.
pub proof fn lemma_slot_ok_nothing(su: Setup, s: int, m: Marks)
    requires
        0 <= s < 40,
    ensures
        su.slot_ok(s, 0, 0, m),
{
    let b = su.blocked(s);
    lemma_fall(0, 0, b);
    lemma_within(0, 0, 0);
    lemma_nothing_masked(resting(b), 0, m.found[s]);
    lemma_within(m.plain[s], 0, 0);
    if s >= 4 {
        lemma_nothing_masked(!su.shut(s - 4), 0, m.found[s - 4]);
        lemma_nothing_masked(!su.blocked(s - 4), 0, m.plain[s - 4]);
    }
    if s < 36 {
        lemma_nothing_masked(!su.shut(s + 4), 0, m.found[s + 4]);
        lemma_nothing_masked(!su.blocked(s + 4), 0, m.plain[s + 4]);
    }
    assert forall|q: int, i: int| 1 <= q <= 3 && 0 <= i implies #[trigger] su.kick_ok(
        s,
        q,
        i,
        0,
        m,
    ) by {
        lemma_left_nothing(su, s, q, i);
        lemma_kick_slot(su, s, q, i);
        let t = su.kick_slot(s, q, i);
        if t >= 0 {
            lemma_nothing_masked(!su.shut(t), 0, m.found[t]);
            lemma_nothing_masked(!su.spin(t), 0, m.plain[t]);
            lemma_nothing_masked(su.spin(t), !su.full_mask(s, q, i), m.mini[t]);
            lemma_nothing_masked(su.spin(t), su.full_mask(s, q, i), m.full[t]);
        }
    }
}

/// No rows under a mask lie within anything.
proof fn lemma_nothing_masked(x: u64, y: u64, c: u64)
    by (bit_vector)
    ensures
        within(0u64 & x, c),
        within(0u64 & x & y, c),
{
}

/// There is at most one least closed family.
pub proof fn lemma_least_unique(su: Setup, a: Marks, b: Marks)
    requires
        su.least(a),
        su.least(b),
    ensures
        a == b,
{
    assert(a.below(b));
    assert(b.below(a));
    assert forall|t: int| 0 <= t < 40 implies a.found[t] == b.found[t] && a.plain[t] == b.plain[t]
        && a.mini[t] == b.mini[t] && a.full[t] == b.full[t] by {
        assert(a.below_at(b, t));
        assert(b.below_at(a, t));
        lemma_within(a.found[t], b.found[t], 0);
        lemma_within(a.plain[t], b.plain[t], 0);
        lemma_within(a.mini[t], b.mini[t], 0);
        lemma_within(a.full[t], b.full[t], 0);
    }
    assert(a.found =~= b.found);
    assert(a.plain =~= b.plain);
    assert(a.mini =~= b.mini);
    assert(a.full =~= b.full);
}

/// A least closed family is what the piece reaches.
pub proof fn lemma_reach_is(su: Setup, m: Marks)
    requires
        su.least(m),
    ensures
        su.reach() == m,
{
    lemma_least_unique(su, su.reach(), m);
}

} // verus!
