//! Computing the row sets of a generation from the board.
use crate::bits::{rows_below, ALL_ROWS};
use crate::collision::{blocked_rows, CollisionMap};
use crate::data::{Board, Piece, Rotation};
use crate::explore::Field;
use crate::reach::{corner, Setup, LOW_HEIGHT, SPAWN_ROW, SPAWN_SLOT};
use vstd::prelude::*;

verus! {

/// A word with one of its top four rows is greater than the words without them.
proof fn lemma_top_rows(b: u64, j: u64)
    by (bit_vector)
    requires
        60 <= j < 64,
        (b >> j) & 1u64 != 0u64,
    ensures
        b > 0xffff_ffff_ffff_ffffu64 >> 4,
{
}

/// The rows that are blocked for `piece` in all forty slots.
fn blocked_slots(board: &Board, piece: Piece) -> (b: [u64; 40])
    ensures
        forall|s: int|
            0 <= s < 40 ==> #[trigger] b[s] == blocked_rows(
                *board,
                piece,
                Rotation::of_index(s),
                s / 4,
            ),
{
    let mut b = [0u64;40];
    let mut r: usize = 0;
    while r < 4
        invariant
            r <= 4,
            forall|s: int|
                0 <= s < 40 && s % 4 < r ==> #[trigger] b[s] == blocked_rows(
                    *board,
                    piece,
                    Rotation::of_index(s),
                    s / 4,
                ),
        decreases 4 - r,
    {
        let rot = Rotation::from_ordinal(r);
        let cm = CollisionMap::new(board, piece, rot);
        let mut x: usize = 0;
        while x < 10
            invariant
                x <= 10,
                r < 4,
                rot == Rotation::of_index(r as int),
                forall|c: int|
                    0 <= c < 10 ==> #[trigger] cm.cols[c] == blocked_rows(*board, piece, rot, c),
                forall|s: int|
                    0 <= s < 40 && (s % 4 < r || (s % 4 == r && s / 4 < x)) ==> #[trigger] b[s]
                        == blocked_rows(*board, piece, Rotation::of_index(s), s / 4),
            decreases 10 - x,
        {
            b[4 * x + r] = cm.cols[x];
            x += 1;
        }
        r += 1;
    }
    b
}

/// The corners of column `x`.
fn corners(board: &Board, x: usize) -> (c: [u64; 4])
    requires
        x < 10,
    ensures
        forall|j: int| 0 <= j < 4 ==> #[trigger] c[j] == corner(*board, x as int, j),
{
    [
        if x > 0 {
            board.cols[x - 1] >> 1
        } else {
            ALL_ROWS
        },
        if x < 9 {
            board.cols[x + 1] >> 1
        } else {
            ALL_ROWS
        },
        if x < 9 {
            (board.cols[x + 1] << 1) | 1
        } else {
            ALL_ROWS
        },
        if x > 0 {
            (board.cols[x - 1] << 1) | 1
        } else {
            ALL_ROWS
        },
    ]
}

impl Field {
    /// The row sets for generating the placements of `piece` on `board`.
    pub fn build(board: &Board, piece: Piece, force: bool) -> (f: Field)
        ensures
            f.caches(Setup { board: *board, piece, force }),
    {
        let ghost su = Setup { board: *board, piece, force };
        let blocked = blocked_slots(board, piece);
        let low: bool = board.max_height() <= LOW_HEIGHT;
        let is_o: bool = matches!(piece, Piece::O);
        let is_t: bool = matches!(piece, Piece::T);
        let mut f = Field {
            piece,
            blocked,
            shut: [0u64;40],
            seeds: [0u64;40],
            spin: [0u64;40],
            front: [0u64;40],
        };
        let mut s: usize = 0;
        while s < 40
            invariant
                s <= 40,
                su == (Setup { board: *board, piece, force }),
                low == su.low(),
                is_o == (piece == Piece::O),
                is_t == (piece == Piece::T),
                f.piece == piece,
                f.blocked == blocked,
                forall|t: int| 0 <= t < 40 ==> #[trigger] blocked[t] == su.blocked(t),
                forall|t: int| 0 <= t < s ==> #[trigger] f.caches_at(su, t),
                forall|t: int| s <= t < 40 ==> (#[trigger] f.spin[t]) == 0,
                forall|t: int| s <= t < 40 ==> (#[trigger] f.front[t]) == 0,
            decreases 40 - s,
        {
            let ghost before = f;
            let b: u64 = f.blocked[s];
            assert(b == su.blocked(s as int));
            let mut surface: u64 = 0;
            if low && (!is_o || s % 4 == 0) && b <= ALL_ROWS >> 4 {
                let z: u32 = b.leading_zeros();
                proof {
                    vstd::std_specs::bits::axiom_u64_leading_zeros(b);
                    if z < 4 {
                        lemma_top_rows(b, (63 - z) as u64);
                    }
                }
                let top: u64 = 64 - z as u64;
                surface = rows_below(SPAWN_ROW) & !rows_below(top);
            }
            assert(surface == su.surface(s as int));
            f.shut[s] = b | surface;
            f.seeds[s] = if low {
                surface & (!b & ((b << 1) | 1))
            } else if s == SPAWN_SLOT {
                if force {
                    let free: u64 = !b & (ALL_ROWS << SPAWN_ROW);
                    if free == 0 {
                        0
                    } else {
                        1u64 << (free.trailing_zeros() as u64)
                    }
                } else {
                    !b & (1u64 << SPAWN_ROW)
                }
            } else {
                0
            };
            if is_t {
                let c = corners(board, s / 4);
                let spins: u64 = (c[0] & c[1] & (c[2] | c[3])) | (c[2] & c[3] & (c[0] | c[1]));
                f.spin[s] = spins;
                if b != ALL_ROWS {
                    f.front[s] = spins & c[s % 4] & c[(s + 1) % 4];
                }
            }
            assert(f.caches_at(su, s as int));
            assert forall|t: int| 0 <= t < s + 1 implies #[trigger] f.caches_at(su, t) by {
                if t < s {
                    assert(before.caches_at(su, t));
                }
            }
            s += 1;
        }
        f
    }
}

} // verus!
