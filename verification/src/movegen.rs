//! The move generator: every resting placement that a piece reaches.
use crate::bits::{
    has_row, lemma_cleared, lemma_has_row_ops, lemma_has_row_shift, lemma_single_row,
    lemma_within, lemma_within_rows, low_rows, resting, rows_below, within, ALL_ROWS,
};
use crate::data::{piece_eq, Board, Piece, PieceLocation, Rotation, Spin};
use crate::explore::{explore, Field, Search};
use crate::laws::{lemma_listed_row, lemma_rests_row};
use crate::reach::{Marks, Setup};
use vstd::prelude::*;

verus! {

/// The rows `0 .. n` of `rows` in rising order, each as a placement of `piece`
/// in column `x` and orientation `rot`. A row in `marked` gets the spin
/// `high`, another row the spin `low`.
pub open spec fn list_rows(
    piece: Piece,
    x: int,
    rot: Rotation,
    rows: u64,
    marked: u64,
    low: Spin,
    high: Spin,
    n: int,
) -> Seq<PieceLocation>
    decreases n,
{
    if n <= 0 {
        Seq::empty()
    } else {
        let before = list_rows(piece, x, rot, rows, marked, low, high, n - 1);
        if has_row(rows, n - 1) {
            before.push(
                PieceLocation {
                    piece,
                    x: x as i8,
                    y: (n - 1) as i8,
                    rotation: rot,
                    spin: if has_row(marked, n - 1) {
                        high
                    } else {
                        low
                    },
                },
            )
        } else {
            before
        }
    }
}

impl Setup {
    /// The found rows of slot `t` in which the piece rests.
    pub open spec fn rest(self, m: Marks, t: int) -> u64 {
        m.found[t] & resting(self.blocked(t))
    }

    /// The rows of slot `s` where the piece can be and can move neither to
    /// a side nor up nor down.
    pub open spec fn immobile(self, s: int) -> u64 {
        let b = self.blocked(s);
        let left = if s >= 4 {
            self.blocked(s - 4)
        } else {
            ALL_ROWS
        };
        let right = if s < 36 {
            self.blocked(s + 4)
        } else {
            ALL_ROWS
        };
        !b & (left & right & ((b << 1) | 1) & (b >> 1))
    }

    /// The rows listed under slot `s`. A piece that covers the same cells in
    /// two orientations is listed under the first of them: the S and Z piece
    /// facing South one row lower facing North, and facing West one column
    /// to the left facing East; the I piece facing South one column to the
    /// left facing North, and facing West one row higher facing East.
    pub open spec fn listed(self, m: Marks, s: int) -> u64 {
        match self.piece {
            Piece::S | Piece::Z => if s % 4 == 0 {
                self.rest(m, s) | (self.rest(m, s + 2) >> 1)
            } else if s % 4 == 1 {
                self.rest(m, s) | if s < 36 {
                    self.rest(m, s + 6)
                } else {
                    0
                }
            } else {
                0
            },
            Piece::I => if s % 4 == 0 {
                self.rest(m, s) | if s < 36 {
                    self.rest(m, s + 6)
                } else {
                    0
                }
            } else if s % 4 == 1 {
                self.rest(m, s) | (self.rest(m, s + 2) << 1)
            } else {
                0
            },
            Piece::O => if s % 4 == 0 {
                self.rest(m, s)
            } else {
                0
            },
            _ => self.rest(m, s),
        }
    }

    /// Whether placements are listed under slot `s`.
    pub open spec fn canonical(self, s: int) -> bool {
        match self.piece {
            Piece::S | Piece::Z | Piece::I => s % 4 < 2,
            Piece::O => s % 4 == 0,
            _ => true,
        }
    }

    /// The rows that can be listed under slot `s` at all: those in which
    /// the piece rests.
    pub open spec fn goal(self, s: int) -> u64 {
        if self.canonical(s) {
            resting(self.blocked(s))
        } else {
            0
        }
    }

    /// The placements listed under slot `s`. For the T piece a row is listed
    /// once for every kind of move that enters it: without spin, with a mini
    /// spin, with a full spin. For the other pieces a row is listed once,
    /// with a mini spin if the piece is immobile there; the O piece never
    /// has a spin.
    pub open spec fn moves_at(self, m: Marks, s: int) -> Seq<PieceLocation> {
        let x = s / 4;
        let rot = Setup::rot(s);
        if self.piece == Piece::T {
            list_rows(
                self.piece,
                x,
                rot,
                self.rest(m, s) & m.plain[s],
                0,
                Spin::NoSpin,
                Spin::NoSpin,
                64,
            ) + list_rows(
                self.piece,
                x,
                rot,
                self.rest(m, s) & m.mini[s],
                0,
                Spin::Mini,
                Spin::Mini,
                64,
            ) + list_rows(
                self.piece,
                x,
                rot,
                self.rest(m, s) & m.full[s],
                0,
                Spin::Full,
                Spin::Full,
                64,
            )
        } else if self.piece == Piece::O {
            list_rows(self.piece, x, rot, self.listed(m, s), 0, Spin::NoSpin, Spin::NoSpin, 64)
        } else {
            list_rows(
                self.piece,
                x,
                rot,
                self.listed(m, s),
                self.immobile(s),
                Spin::NoSpin,
                Spin::Mini,
                64,
            )
        }
    }

    /// The placements listed under the slots `0 .. n`.
    pub open spec fn moves_upto(self, m: Marks, n: int) -> Seq<PieceLocation>
        decreases n,
    {
        if n <= 0 {
            Seq::empty()
        } else {
            self.moves_upto(m, n - 1) + self.moves_at(m, n - 1)
        }
    }

    /// All placements: those of what the piece reaches, column by column,
    /// in each column orientation by orientation, and from the lowest row up.
    pub open spec fn moves(self) -> Seq<PieceLocation> {
        self.moves_upto(self.reach(), 40)
    }
}

/// The single row `x`.
pub fn bb(x: i8) -> (r: u64)
    requires
        0 <= x < 64,
    ensures
        r == 1u64 << (x as u64),
        forall|y: int| 0 <= y < 64 ==> #[trigger] has_row(r, y) == (y == x),
{
    let r: u64 = 1u64 << (x as u64);
    proof {
        assert forall|y: int| 0 <= y < 64 implies #[trigger] has_row(r, y) == (y == x) by {
            lemma_has_row_shift(0, x as int, y);
        }
    }
    r
}

/// The rows below row `x`.
pub fn bb_low(x: i8) -> (r: u64)
    requires
        0 <= x < 64,
    ensures
        r == low_rows(x as int),
        forall|y: int| 0 <= y < 64 ==> #[trigger] has_row(r, y) == (y < x),
{
    let r: u64 = rows_below(x as u64);
    proof {
        assert forall|y: int| 0 <= y < 64 implies #[trigger] has_row(r, y) == (y < x) by {
            lemma_has_row_shift(0, x as int, y);
        }
    }
    r
}

/// The bit that stands for column `x` in orientation `rot` in the queue of
/// the search.
pub fn xrot_idx(x: i8, rot: i8) -> (r: u64)
    requires
        0 <= x < 10,
        0 <= rot < 4,
    ensures
        r == 1u64 << ((4 * x + rot) as u64),
{
    bb(4 * x + rot)
}

/// The placements of `piece` on `board`.
pub open spec fn placements(board: Board, piece: Piece, force: bool) -> Seq<PieceLocation> {
    (Setup { board, piece, force }).moves()
}

/// Rows that are not there add nothing to a list.
proof fn lemma_list_skip(
    piece: Piece,
    x: int,
    rot: Rotation,
    rows: u64,
    marked: u64,
    low: Spin,
    high: Spin,
    from: int,
    to: int,
)
    requires
        0 <= from <= to <= 64,
        forall|j: int| from <= j < to ==> !has_row(rows, j),
    ensures
        list_rows(piece, x, rot, rows, marked, low, high, to) == list_rows(
            piece,
            x,
            rot,
            rows,
            marked,
            low,
            high,
            from,
        ),
    decreases to - from,
{
    if from < to {
        lemma_list_skip(piece, x, rot, rows, marked, low, high, from, to - 1);
    }
}

/// Appends the placements of `rows` to `arena`.
fn push_rows(
    arena: &mut Vec<PieceLocation>,
    piece: Piece,
    x: i8,
    rot: Rotation,
    rows: u64,
    marked: u64,
    low: Spin,
    high: Spin,
)
    ensures
        final(arena)@ == old(arena)@ + list_rows(piece, x as int, rot, rows, marked, low, high, 64),
{
    let mut cur: u64 = rows;
    let ghost mut done: int = 0;
    while cur != 0
        invariant
            0 <= done <= 64,
            forall|j: int| 0 <= j < 64 ==> has_row(cur, j) == (has_row(rows, j) && j >= done),
            arena@ == old(arena)@ + list_rows(
                piece,
                x as int,
                rot,
                rows,
                marked,
                low,
                high,
                done,
            ),
        decreases cur,
    {
        let y: u64 = cur.trailing_zeros() as u64;
        proof {
            vstd::std_specs::bits::axiom_u64_trailing_zeros(cur);
            assert(has_row(cur, y as int));
            assert forall|j: int| done <= j < y implies !has_row(rows, j) by {
                assert((cur >> (j as u64)) & 1u64 == 0u64);
                assert(!has_row(cur, j));
            }
            lemma_list_skip(piece, x as int, rot, rows, marked, low, high, done, y as int);
            lemma_single_row(marked, y);
        }
        let spin = if marked & (1u64 << y) > 0 {
            high
        } else {
            low
        };
        let ghost before = arena@;
        arena.push(PieceLocation { piece, x, y: y as i8, rotation: rot, spin });
        let ghost was = cur;
        cur = cur & !(1u64 << y);
        proof {
            assert forall|j: int| 0 <= j < 64 implies has_row(cur, j) == (has_row(rows, j) && j >= y
                + 1) by {
                lemma_has_row_ops(was, !(1u64 << y), j);
                lemma_has_row_ops(1u64 << y, 0, j);
                lemma_has_row_shift(0, y as int, j);
                if j < y {
                    assert((was >> (j as u64)) & 1u64 == 0u64);
                }
            }
            lemma_cleared(was, y);
            assert(arena@ =~= old(arena)@ + list_rows(
                piece,
                x as int,
                rot,
                rows,
                marked,
                low,
                high,
                y + 1,
            ));
            done = y + 1;
        }
    }
    proof {
        assert forall|j: int| done <= j < 64 implies !has_row(rows, j) by {
            lemma_has_row_ops(0, 0, j);
        }
        lemma_list_skip(piece, x as int, rot, rows, marked, low, high, done, 64);
    }
}

/// Unions of resting rows, moved as the rows of twin orientations are.
proof fn lemma_listing(a: u64, b: u64, ra: u64, c: u64, d: u64, rc: u64)
    by (bit_vector)
    requires
        within(a, b),
        within(c, d),
    ensures
        within(a & ra, b & ra),
        within((a & ra) | ((c & rc) >> 1), (b & ra) | ((d & rc) >> 1)),
        within((a & ra) | ((c & rc) << 1), (b & ra) | ((d & rc) << 1)),
        within((a & ra) | (c & rc), (b & ra) | (d & rc)),
        within((a & ra) | 0, (b & ra) | 0),
        within(0u64, 0u64),
{
}

/// Of two families, one within the other, the one within lists fewer rows.
pub proof fn lemma_listed_grows(su: Setup, m: Marks, m2: Marks, s: int)
    requires
        0 <= s < 40,
        m.wf(),
        m2.wf(),
        m.below(m2),
    ensures
        within(su.listed(m, s), su.listed(m2, s)),
{
    assert(m.below_at(m2, s));
    lemma_within(0, 0, 0);
    let ra = resting(su.blocked(s));
    if s + 2 < 40 {
        assert(m.below_at(m2, s + 2));
        lemma_listing(
            m.found[s],
            m2.found[s],
            ra,
            m.found[s + 2],
            m2.found[s + 2],
            resting(su.blocked(s + 2)),
        );
    }
    if s + 6 < 40 {
        assert(m.below_at(m2, s + 6));
        lemma_listing(
            m.found[s],
            m2.found[s],
            ra,
            m.found[s + 6],
            m2.found[s + 6],
            resting(su.blocked(s + 6)),
        );
    }
    lemma_listing(m.found[s], m2.found[s], ra, 0, 0, 0);
}

/// The rows listed under a slot are rows in which the piece rests there.
pub proof fn lemma_listed_goal(su: Setup, m: Marks, s: int)
    requires
        0 <= s < 40,
    ensures
        within(su.listed(m, s), su.goal(s)),
{
    let l = su.listed(m, s);
    let g = su.goal(s);
    assert forall|y: int| 0 <= y < 64 && has_row(l, y) implies has_row(g, y) by {
        lemma_listed_row(su, m, s, y);
        lemma_rests_row(su, s, y);
        if !su.canonical(s) {
            lemma_has_row_ops(0, 0, y);
        }
    }
    lemma_within_rows(l, g);
}

/// Two families that list the same rows list the same placements, of a
/// piece other than T.
pub proof fn lemma_same_listing(su: Setup, m: Marks, m2: Marks, n: int)
    requires
        su.piece != Piece::T,
        0 <= n <= 40,
        forall|c: int| 0 <= c < 40 ==> #[trigger] su.listed(m, c) == su.listed(m2, c),
    ensures
        su.moves_upto(m, n) == su.moves_upto(m2, n),
    decreases n,
{
    if n > 0 {
        lemma_same_listing(su, m, m2, n - 1);
        assert(su.listed(m, n - 1) == su.listed(m2, n - 1));
    }
}

/// The rows listed under slot `c` of everything found so far.
fn listed_so_far(f: &Field, st: &Search, c: usize, Ghost(su): Ghost<Setup>) -> (r: u64)
    requires
        c < 40,
        f.caches(su),
    ensures
        r == su.listed(st.disc(), c as int),
{
    let own = rest_so_far(f, st, c, Ghost(su));
    match f.piece {
        Piece::S | Piece::Z => {
            if c % 4 == 0 {
                own | (rest_so_far(f, st, c + 2, Ghost(su)) >> 1)
            } else if c % 4 == 1 {
                own | if c < 36 {
                    rest_so_far(f, st, c + 6, Ghost(su))
                } else {
                    0
                }
            } else {
                0
            }
        },
        Piece::I => {
            if c % 4 == 0 {
                own | if c < 36 {
                    rest_so_far(f, st, c + 6, Ghost(su))
                } else {
                    0
                }
            } else if c % 4 == 1 {
                own | (rest_so_far(f, st, c + 2, Ghost(su)) << 1)
            } else {
                0
            }
        },
        Piece::O => {
            if c % 4 == 0 {
                own
            } else {
                0
            }
        },
        _ => own,
    }
}

/// The rows found so far in slot `t` in which the piece rests.
fn rest_so_far(f: &Field, st: &Search, t: usize, Ghost(su): Ghost<Setup>) -> (r: u64)
    requires
        t < 40,
        f.caches(su),
    ensures
        r == su.rest(st.disc(), t as int),
{
    assert(f.caches_at(su, t as int));
    let b: u64 = f.blocked[t];
    (st.found[t] | st.pending[t]) & (!b & ((b << 1) | 1))
}

/// Whether every row in which the piece can rest at all is listed by what
/// was found so far.
pub fn all_listed(f: &Field, st: &Search, Ghost(su): Ghost<Setup>) -> (r: bool)
    requires
        f.caches(su),
    ensures
        r == forall|c: int| 0 <= c < 40 ==> #[trigger] su.listed(st.disc(), c) == su.goal(c),
{
    let mut c: usize = 0;
    while c < 40
        invariant
            c <= 40,
            f.caches(su),
            forall|k: int| 0 <= k < c ==> #[trigger] su.listed(st.disc(), k) == su.goal(k),
        decreases 40 - c,
    {
        assert(f.caches_at(su, c as int));
        let b: u64 = f.blocked[c];
        let canonical = match f.piece {
            Piece::S | Piece::Z | Piece::I => c % 4 < 2,
            Piece::O => c % 4 == 0,
            _ => true,
        };
        let goal: u64 = if canonical {
            !b & ((b << 1) | 1)
        } else {
            0
        };
        if listed_so_far(f, st, c, Ghost(su)) != goal {
            return false;
        }
        c += 1;
    }
    true
}

/// The rows of slot `s` where the piece is immobile.
fn immobile_rows(f: &Field, s: usize, Ghost(su): Ghost<Setup>) -> (r: u64)
    requires
        s < 40,
        f.caches(su),
    ensures
        r == su.immobile(s as int),
{
    assert(f.caches_at(su, s as int));
    let b: u64 = f.blocked[s];
    let left: u64 = if s >= 4 {
        assert(f.caches_at(su, s - 4));
        f.blocked[s - 4]
    } else {
        ALL_ROWS
    };
    let right: u64 = if s < 36 {
        assert(f.caches_at(su, s + 4));
        f.blocked[s + 4]
    } else {
        ALL_ROWS
    };
    !b & (left & right & ((b << 1) | 1) & (b >> 1))
}

/// Appends the placements listed under slot `s` to `arena`.
fn emit_slot(
    arena: &mut Vec<PieceLocation>,
    f: &Field,
    st: &Search,
    s: usize,
    Ghost(su): Ghost<Setup>,
)
    requires
        s < 40,
        f.caches(su),
        st.disc() == st.marks(),
    ensures
        final(arena)@ == old(arena)@ + su.moves_at(st.marks(), s as int),
{
    let x: i8 = (s / 4) as i8;
    let rot = Rotation::from_ordinal(s);
    if matches!(f.piece, Piece::T) {
        let rest = rest_so_far(f, st, s, Ghost(su));
        let ghost m = st.marks();
        let ghost a = list_rows(
            Piece::T,
            x as int,
            rot,
            rest & st.plain[s as int],
            0,
            Spin::NoSpin,
            Spin::NoSpin,
            64,
        );
        let ghost b = list_rows(
            Piece::T,
            x as int,
            rot,
            rest & st.mini[s as int],
            0,
            Spin::Mini,
            Spin::Mini,
            64,
        );
        let ghost c = list_rows(
            Piece::T,
            x as int,
            rot,
            rest & st.full[s as int],
            0,
            Spin::Full,
            Spin::Full,
            64,
        );
        push_rows(arena, f.piece, x, rot, rest & st.plain[s], 0, Spin::NoSpin, Spin::NoSpin);
        push_rows(arena, f.piece, x, rot, rest & st.mini[s], 0, Spin::Mini, Spin::Mini);
        push_rows(arena, f.piece, x, rot, rest & st.full[s], 0, Spin::Full, Spin::Full);
        proof {
            assert(su.moves_at(m, s as int) == a + b + c);
            assert(arena@ =~= old(arena)@ + (a + b + c));
        }
    } else if matches!(f.piece, Piece::O) {
        let rows = listed_so_far(f, st, s, Ghost(su));
        push_rows(arena, f.piece, x, rot, rows, 0, Spin::NoSpin, Spin::NoSpin);
    } else {
        let rows = listed_so_far(f, st, s, Ghost(su));
        let marked = immobile_rows(f, s, Ghost(su));
        push_rows(arena, f.piece, x, rot, rows, marked, Spin::NoSpin, Spin::Mini);
    }
}

/// Appends the placements of what was found to `arena`.
fn emit(arena: &mut Vec<PieceLocation>, f: &Field, st: &Search, Ghost(su): Ghost<Setup>)
    requires
        f.caches(su),
        st.disc() == st.marks(),
    ensures
        final(arena)@ == old(arena)@ + su.moves_upto(st.marks(), 40),
{
    let mut s: usize = 0;
    while s < 40
        invariant
            s <= 40,
            f.caches(su),
            st.disc() == st.marks(),
            arena@ == old(arena)@ + su.moves_upto(st.marks(), s as int),
        decreases 40 - s,
    {
        let ghost before = arena@;
        emit_slot(arena, f, st, s, Ghost(su));
        proof {
            let up = su.moves_upto(st.marks(), s as int);
            let at = su.moves_at(st.marks(), s as int);
            assert(su.moves_upto(st.marks(), s + 1) == up + at);
            assert(arena@ =~= old(arena)@ + (up + at));
        }
        s += 1;
    }
}

/// Appends to `arena` every placement of `piece` on `board`, and returns
/// where in `arena` they start.
pub fn movegen_piece(
    arena: &mut Vec<PieceLocation>,
    board: &Board,
    piece: Piece,
    force: bool,
) -> (idx: usize)
    ensures
        idx == old(arena)@.len(),
        final(arena)@ == old(arena)@ + placements(*board, piece, force),
{
    let idx = arena.len();
    match piece {
        Piece::J | Piece::L | Piece::S | Piece::Z | Piece::I => movegen_piece_nospin(
            arena,
            board,
            piece,
            force,
        ),
        Piece::T => movegen_piece_t(arena, board, force),
        Piece::O => movegen_piece_o(arena, board, force),
    }
    idx
}

/// The piece whose placements are listed behind those of `main_piece`: the
/// piece from the hold slot, if there is one and it is another piece.
pub open spec fn other_piece(main_piece: Piece, hold_piece: Option<Piece>) -> Option<Piece> {
    match hold_piece {
        Some(h) => if h != main_piece {
            Some(h)
        } else {
            None
        },
        None => None,
    }
}

/// The placements of `main_piece` on `board`, and behind them those of the
/// piece from the hold slot if it is another piece. No placement is listed
/// for the same piece twice.
pub open spec fn placements_of_both(
    board: Board,
    main_piece: Piece,
    hold_piece: Option<Piece>,
    force: bool,
) -> Seq<PieceLocation> {
    placements(board, main_piece, force) + match other_piece(main_piece, hold_piece) {
        Some(h) => placements(board, h, force),
        None => Seq::empty(),
    }
}

/// Appends to `arena` every placement of `main_piece` on `board` and then,
/// if there is a piece in the hold slot and it is another piece, every
/// placement of that piece. Returns where in `arena` they start.
pub fn movegen(
    arena: &mut Vec<PieceLocation>,
    board: &Board,
    main_piece: Piece,
    hold_piece: Option<Piece>,
    force: bool,
) -> (idx: usize)
    ensures
        idx == old(arena)@.len(),
        final(arena)@ == old(arena)@ + placements_of_both(*board, main_piece, hold_piece, force),
{
    let idx = arena.len();
    movegen_piece(arena, board, main_piece, force);
    if let Some(h) = hold_piece {
        if !piece_eq(h, main_piece) {
            movegen_piece(arena, board, h, force);
        }
    }
    proof {
        assert(arena@ =~= old(arena)@ + placements_of_both(*board, main_piece, hold_piece, force));
    }
    idx
}

/// Appends to `arena` every placement of a piece that is neither T nor O.
pub fn movegen_piece_nospin(
    arena: &mut Vec<PieceLocation>,
    board: &Board,
    piece: Piece,
    force: bool,
)
    requires
        piece != Piece::T,
        piece != Piece::O,
    ensures
        final(arena)@ == old(arena)@ + placements(*board, piece, force),
{
    let f = Field::build(board, piece, force);
    let ghost su = Setup { board: *board, piece, force };
    let st = explore(&f, true, Ghost(su));
    emit(arena, &f, &st, Ghost(su));
    proof {
        lemma_same_listing(su, st.marks(), su.reach(), 40);
    }
}

/// Appends to `arena` every placement of the T piece, with the spins by
/// which it is reached.
pub fn movegen_piece_t(arena: &mut Vec<PieceLocation>, board: &Board, force: bool)
    ensures
        final(arena)@ == old(arena)@ + placements(*board, Piece::T, force),
{
    let f = Field::build(board, Piece::T, force);
    let ghost su = Setup { board: *board, piece: Piece::T, force };
    let st = explore(&f, false, Ghost(su));
    emit(arena, &f, &st, Ghost(su));
}

/// Appends to `arena` every placement of the O piece.
pub fn movegen_piece_o(arena: &mut Vec<PieceLocation>, board: &Board, force: bool)
    ensures
        final(arena)@ == old(arena)@ + placements(*board, Piece::O, force),
{
    let f = Field::build(board, Piece::O, force);
    let ghost su = Setup { board: *board, piece: Piece::O, force };
    let st = explore(&f, true, Ghost(su));
    emit(arena, &f, &st, Ghost(su));
    proof {
        lemma_same_listing(su, st.marks(), su.reach(), 40);
    }
}

} // verus!
