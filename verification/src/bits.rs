//! Sets of rows packed into one 64-bit word, bit `y` standing for row `y`.
//!
//! Every column of a board, of a collision map and of the move generator's
//! bookkeeping is such a word. The functions here give the words a meaning
//! (`has_row`, `count_rows`) and prove the identities that the rest of the
//! crate uses to go from word operations to statements about single rows.
use vstd::prelude::*;

verus! {

/// All 64 rows.
pub const ALL_ROWS: u64 = 0xffff_ffff_ffff_ffff;

/// Whether row `y` is in `rows`.
pub open spec fn has_row(rows: u64, y: int) -> bool {
    0 <= y < 64 && (rows >> (y as u64)) & 1 == 1
}

/// Whether every row of `a` is a row of `b`.
pub open spec fn within(a: u64, b: u64) -> bool {
    a & !b == 0
}

/// The rows strictly below `y`, for `0 <= y <= 64`.
pub open spec fn low_rows(y: int) -> u64 {
    if y >= 64 {
        ALL_ROWS
    } else if y <= 0 {
        0
    } else {
        ((1u64 << (y as u64)) - 1) as u64
    }
}

/// How many of the rows `0 .. n` are in `rows`.
pub open spec fn count_below(rows: u64, n: int) -> nat
    decreases n,
{
    if n <= 0 {
        0
    } else {
        count_below(rows, n - 1) + if has_row(rows, n - 1) {
            1nat
        } else {
            0nat
        }
    }
}

/// How many rows are in `rows`.
pub open spec fn count_rows(rows: u64) -> nat {
    count_below(rows, 64)
}

/// Single-row facts about the word operations, for one row `y`.
pub proof fn lemma_row_ops(a: u64, b: u64, y: u64)
    by (bit_vector)
    requires
        y < 64,
    ensures
        ((a | b) >> y) & 1 == 1 <==> ((a >> y) & 1 == 1 || (b >> y) & 1 == 1),
        ((a & b) >> y) & 1 == 1 <==> ((a >> y) & 1 == 1 && (b >> y) & 1 == 1),
        ((a ^ b) >> y) & 1 == 1 <==> ((a >> y) & 1 == 1) != ((b >> y) & 1 == 1),
        ((!a) >> y) & 1 == 1 <==> !((a >> y) & 1 == 1),
        (0u64 >> y) & 1 == 0,
        (0xffff_ffff_ffff_ffffu64 >> y) & 1 == 1,
        ((1u64 << y) >> y) & 1 == 1,
        ((a >> y) & 1 == 1) ==> a != 0,
        ((a >> y) & 1 == 1) ==> a >= (1u64 << y),
{
}

/// Single-row facts about shifting a word by `k` rows, for one row `y`.
pub proof fn lemma_row_shift(a: u64, k: u64, y: u64)
    by (bit_vector)
    requires
        y < 64,
        k < 64,
    ensures
        ((a >> k) >> y) & 1 == 1 <==> (y + k < 64 && (a >> ((y + k) as u64)) & 1 == 1),
        ((a << k) >> y) & 1 == 1 <==> (y >= k && (a >> ((y - k) as u64)) & 1 == 1),
        ((!(!a << k)) >> y) & 1 == 1 <==> (y < k || (a >> ((y - k) as u64)) & 1 == 1),
        (((1u64 << k) - 1) as u64 >> y) & 1 == 1 <==> y < k,
        ((1u64 << k) >> y) & 1 == 1 <==> y == k,
{
}

/// Two words with the same rows are the same word.
pub proof fn lemma_rows_equal(a: u64, b: u64)
    requires
        forall|y: int| 0 <= y < 64 ==> has_row(a, y) == has_row(b, y),
    ensures
        a == b,
{
    if a != b {
        let y = differing_row(a, b);
        assert(has_row(a, y as int) != has_row(b, y as int));
    }
}

/// A row on which two different words differ.
proof fn differing_row(a: u64, b: u64) -> (y: u64)
    requires
        a != b,
    ensures
        y < 64,
        ((a >> y) & 1 == 1) != ((b >> y) & 1 == 1),
{
    let d = a ^ b;
    assert(a != b ==> a ^ b != 0) by (bit_vector);
    let y = first_row(d);
    lemma_row_ops(a, b, y);
    y
}

/// The lowest row of a non-empty word.
pub proof fn first_row(d: u64) -> (y: u64)
    requires
        d != 0,
    ensures
        y < 64,
        (d >> y) & 1 == 1,
{
    vstd::std_specs::bits::axiom_u64_trailing_zeros(d);
    let y = vstd::std_specs::bits::u64_trailing_zeros(d) as u64;
    y
}

/// `has_row` of the results of the word operations.
pub proof fn lemma_has_row_ops(a: u64, b: u64, y: int)
    requires
        0 <= y < 64,
    ensures
        has_row(a | b, y) == (has_row(a, y) || has_row(b, y)),
        has_row(a & b, y) == (has_row(a, y) && has_row(b, y)),
        has_row(a ^ b, y) == (has_row(a, y) != has_row(b, y)),
        has_row(!a, y) == !has_row(a, y),
        !has_row(0, y),
        has_row(ALL_ROWS, y),
        has_row(a, y) ==> a != 0,
{
    lemma_row_ops(a, b, y as u64);
}

/// `has_row` of a word moved down by `k` rows, up by `k` rows, and up by `k`
/// rows with the vacated rows filled.
pub proof fn lemma_has_row_shift(a: u64, k: int, y: int)
    requires
        0 <= y < 64,
        0 <= k < 64,
    ensures
        has_row(a >> (k as u64), y) == has_row(a, y + k),
        has_row(a << (k as u64), y) == has_row(a, y - k),
        has_row(!(!a << (k as u64)), y) == (y < k || has_row(a, y - k)),
        has_row(low_rows(k), y) == (y < k),
        has_row(1u64 << (k as u64), y) == (y == k),
{
    lemma_row_shift(a, k as u64, y as u64);
    if k == 0 {
        assert(((1u64 << 0u64) - 1) as u64 == 0u64) by (bit_vector);
    }
}

/// A word lies within another exactly when each of its rows does.
pub proof fn lemma_within_rows(a: u64, b: u64)
    ensures
        within(a, b) <==> forall|y: int| 0 <= y < 64 && has_row(a, y) ==> has_row(b, y),
{
    if within(a, b) {
        assert forall|y: int| 0 <= y < 64 && has_row(a, y) implies has_row(b, y) by {
            lemma_has_row_ops(a, !b, y);
            lemma_has_row_ops(b, b, y);
            lemma_has_row_ops(0, 0, y);
        }
    }
    if forall|y: int| 0 <= y < 64 && has_row(a, y) ==> has_row(b, y) {
        assert forall|y: int| 0 <= y < 64 implies has_row(a & !b, y) == has_row(0, y) by {
            lemma_has_row_ops(a, !b, y);
            lemma_has_row_ops(b, b, y);
            lemma_has_row_ops(0, 0, y);
        }
        lemma_rows_equal(a & !b, 0);
    }
}

/// The rows one step below `rows` that are not in `blocked`: where pieces at
/// `rows` are after falling by one row.
pub open spec fn fall(rows: u64, blocked: u64) -> u64 {
    (rows >> 1) & !blocked
}

/// The rows outside `blocked` with the floor or a row of `blocked` right below.
pub open spec fn resting(blocked: u64) -> u64 {
    !blocked & ((blocked << 1) | 1)
}

/// `rows` moved up by `k - 3` rows, without what leaves the rows `0 ..= 60`
/// and without the rows in `there`.
pub open spec fn kicked(rows: u64, k: u64, there: u64) -> u64 {
    ((rows << k) >> 3) & !there
}

/// The rows of `rows` that `kicked` does not move: those whose target is out
/// of range or in `there`.
pub open spec fn unkicked(rows: u64, k: u64, there: u64) -> u64 {
    rows & !((kicked(rows, k, there) << 3) >> k)
}

/// The single lowest row of `rows`, or nothing when `rows` is empty.
pub open spec fn lowest_row(rows: u64) -> u64 {
    if rows == 0 {
        0
    } else {
        1u64 << (vstd::std_specs::bits::u64_trailing_zeros(rows) as u64)
    }
}

/// The algebra of `within`.
pub proof fn lemma_within(a: u64, b: u64, c: u64)
    by (bit_vector)
    ensures
        within(a, a),
        within(0, a),
        within(a & b, a),
        within(a & b, b),
        within(a, a | b),
        within(b, a | b),
        within(a, b) && within(b, c) ==> within(a, c),
        within(a, c) && within(b, c) ==> within(a | b, c),
        within(a | b, c) ==> within(a, c) && within(b, c),
        within(a, b) ==> within(a & c, b & c),
        within(a, b) ==> within(a & c, b),
        within(a, b) ==> within(a | c, b | c),
        within(a, b) ==> within(a, b | c),
        within(a, b) && within(b, a) ==> a == b,
        within(a, b) ==> a <= b,
        within(a, b) ==> a | b == b,
        a | b == b ==> within(a, b),
        within(a, 0) ==> a == 0,
        a | b >= a,
        a | a == a,
        a | 0 == a,
        a & 0 == 0,
{
}

/// Falling by one row, of a union and of resting rows.
pub proof fn lemma_fall(a: u64, c: u64, b: u64)
    by (bit_vector)
    ensures
        fall(a | c, b) == fall(a, b) | fall(c, b),
        fall(a & resting(b), b) == 0,
        fall(0, b) == 0,
        within(a, c) ==> within(fall(a, b), fall(c, b)),
        within(resting(b), !b),
        within(fall(a, b), !b),
{
}

/// A kick of a union of row sets is the union of the kicks, and the rows
/// that a kick leaves are those that its landing rows do not come from.
pub proof fn lemma_kick(a: u64, c: u64, k: u64, there: u64)
    by (bit_vector)
    requires
        1 <= k <= 5,
    ensures
        kicked(a | c, k, there) == kicked(a, k, there) | kicked(c, k, there),
        unkicked(a | c, k, there) == unkicked(a, k, there) | unkicked(c, k, there),
        a ^ ((kicked(a, k, there) << 3) >> k) == unkicked(a, k, there),
        kicked(0, k, there) == 0,
        unkicked(0, k, there) == 0,
        within(unkicked(a, k, there), a),
        within(kicked(a, k, there), !there),
{
}

/// Unions under one and under two masks.
pub proof fn lemma_masked(a: u64, b: u64, x: u64, y: u64, c: u64)
    by (bit_vector)
    ensures
        within(a & x, c) && within(b & x, c) ==> within((a | b) & x, c),
        within(a & x & y, c) && within(b & x & y, c) ==> within((a | b) & x & y, c),
        within(a, b) && within(b & x, c) ==> within(a & x, c),
        within(a, b) && within(b & x & y, c) ==> within(a & x & y, c),
{
}

/// A word meets the single row `y` exactly when it has that row.
pub proof fn lemma_single_row(col: u64, y: u64)
    by (bit_vector)
    requires
        y < 64,
    ensures
        (col & (1u64 << y) == 0) <==> !((col >> y) & 1 == 1),
        col & (1u64 << y) > 0 <==> (col >> y) & 1 == 1,
{
}

/// One row is at least the number one.
pub proof fn lemma_one_row(y: u64)
    by (bit_vector)
    requires
        y < 64,
    ensures
        (1u64 << y) >= 1,
{
}

/// A word without one of its rows is a smaller number.
pub proof fn lemma_cleared(w: u64, y: u64)
    by (bit_vector)
    requires
        y < 64,
        (w >> y) & 1 == 1,
    ensures
        w & !(1u64 << y) < w,
{
}

/// The rows strictly below `y`.
pub fn rows_below(y: u64) -> (r: u64)
    requires
        y <= 64,
    ensures
        r == low_rows(y as int),
{
    if y >= 64 {
        ALL_ROWS
    } else if y == 0 {
        0
    } else {
        proof {
            lemma_one_row(y);
        }
        (1u64 << y) - 1
    }
}

/// No more than `n` of the rows `0 .. n` are in a set of rows.
pub proof fn lemma_count_bound(rows: u64, n: int)
    requires
        0 <= n,
    ensures
        count_below(rows, n) <= n,
    decreases n,
{
    if n > 0 {
        lemma_count_bound(rows, n - 1);
    }
}

/// Rows that are not there add nothing to a count.
pub proof fn lemma_count_skip(w: u64, from: int, to: int)
    requires
        0 <= from <= to <= 64,
        forall|j: int| from <= j < to ==> !has_row(w, j),
    ensures
        count_below(w, to) == count_below(w, from),
    decreases to - from,
{
    if from < to {
        lemma_count_skip(w, from, to - 1);
    }
}

/// A set of rows that are all among four given rows has at most four rows.
pub proof fn lemma_count_four(w: u64, a: int, b: int, c: int, d: int, n: int)
    requires
        0 <= n <= 64,
        forall|y: int| 0 <= y < 64 && has_row(w, y) ==> y == a || y == b || y == c || y == d,
    ensures
        count_below(w, n) <= (if a < n {
            1int
        } else {
            0
        }) + (if b < n {
            1int
        } else {
            0
        }) + (if c < n {
            1int
        } else {
            0
        }) + (if d < n {
            1int
        } else {
            0
        }),
    decreases n,
{
    if n > 0 {
        lemma_count_four(w, a, b, c, d, n - 1);
    }
}

/// The number of rows in `w`.
pub fn count_ones(w: u64) -> (n: u32)
    ensures
        n == count_rows(w),
        n <= 64,
{
    let mut cur: u64 = w;
    let mut n: u32 = 0;
    let ghost mut done: int = 0;
    while cur != 0
        invariant
            0 <= done <= 64,
            n == count_below(w, done),
            n <= done,
            forall|j: int| 0 <= j < 64 ==> has_row(cur, j) == (has_row(w, j) && j >= done),
        decreases cur,
    {
        let y: u64 = cur.trailing_zeros() as u64;
        proof {
            vstd::std_specs::bits::axiom_u64_trailing_zeros(cur);
            assert(has_row(cur, y as int));
            assert forall|j: int| done <= j < y implies !has_row(w, j) by {
                assert((cur >> (j as u64)) & 1u64 == 0u64);
                assert(!has_row(cur, j));
            }
            lemma_count_skip(w, done, y as int);
        }
        let ghost was = cur;
        cur = cur & !(1u64 << y);
        n = n + 1;
        proof {
            assert forall|j: int| 0 <= j < 64 implies has_row(cur, j) == (has_row(w, j) && j >= y
                + 1) by {
                lemma_has_row_ops(was, !(1u64 << y), j);
                lemma_has_row_ops(1u64 << y, 0, j);
                lemma_has_row_shift(0, y as int, j);
                if j < y {
                    assert((was >> (j as u64)) & 1u64 == 0u64);
                }
            }
            lemma_cleared(was, y);
            done = y + 1;
        }
    }
    proof {
        assert forall|j: int| done <= j < 64 implies !has_row(w, j) by {
            lemma_has_row_ops(0, 0, j);
        }
        lemma_count_skip(w, done, 64);
    }
    n
}

/// A row rests exactly when it is not blocked and the row below it is, or
/// it is the lowest row; a row is reached by a fall of one row exactly when
/// it is not blocked and the row above it is one of the rows that fall.
pub proof fn lemma_resting_rows(rows: u64, blocked: u64, y: int)
    requires
        0 <= y < 64,
    ensures
        has_row(resting(blocked), y) == (!has_row(blocked, y) && (y == 0 || has_row(
            blocked,
            y - 1,
        ))),
        has_row(fall(rows, blocked), y) == (has_row(rows, y + 1) && !has_row(blocked, y)),
{
    lemma_has_row_ops(!blocked, (blocked << 1) | 1, y);
    lemma_has_row_ops(blocked, blocked, y);
    lemma_has_row_ops(blocked << 1, 1, y);
    lemma_has_row_shift(blocked, 1, y);
    lemma_has_row_shift(0, 0, y);
    assert(1u64 << 0u64 == 1u64) by (bit_vector);
    lemma_has_row_ops(rows >> 1, !blocked, y);
    lemma_has_row_shift(rows, 1, y);
}

} // verus!
