//! Taking rows out of a column and closing the gaps.
use crate::bits::{
    count_below, has_row, lemma_count_bound, lemma_has_row_ops, lemma_has_row_shift,
    lemma_rows_equal, low_rows,
};
use crate::board::{after_clear, after_garbage, and_all, lemma_fold_rows};
use vstd::prelude::*;

verus! {

/// The rows `0 .. n` of `col` that are not in `lines`, each moved down by the
/// number of rows of `lines` below it.
pub open spec fn squeeze_below(col: u64, lines: u64, n: int) -> u64
    decreases n,
{
    if n <= 0 {
        0
    } else {
        let rest = squeeze_below(col, lines, n - 1);
        if has_row(col, n - 1) && !has_row(lines, n - 1) {
            rest | (1u64 << ((n - 1 - count_below(lines, n - 1)) as u64))
        } else {
            rest
        }
    }
}

/// `col` without the rows in `lines`, the gaps closed.
pub open spec fn squeeze(col: u64, lines: u64) -> u64 {
    squeeze_below(col, lines, 64)
}

/// The rows of a column after row `i` is cut out of it, and of a set of rows
/// whose lowest row `i` is taken out and the rest moved down by one.
proof fn lemma_cut_rows(col: u64, lines: u64, i: u64, m: u64)
    by (bit_vector)
    requires
        i < 64,
        m < 64,
        (lines >> i) & 1 == 1,
        lines & (((1u64 << i) - 1) as u64) == 0,
    ensures
        (((col & (((1u64 << i) - 1) as u64)) | ((col >> 1) & !(((1u64 << i) - 1) as u64))) >> m)
            & 1 == 1 <==> (if m < i {
            (col >> m) & 1 == 1
        } else {
            m < 63 && (col >> ((m + 1) as u64)) & 1 == 1
        }),
        (((lines & !(1u64 << i)) >> 1) >> m) & 1 == 1 <==> (m >= i && m < 63 && (lines >> ((m
            + 1) as u64)) & 1 == 1),
        m < i ==> (lines >> m) & 1 == 0,
        ((lines & !(1u64 << i)) >> 1) < lines,
{
}

/// A set of rows whose rows below `i` are all absent meets none of them.
proof fn lemma_no_low_rows(lines: u64, i: u64)
    requires
        i <= 64,
        forall|j: u64| 0 <= j < i ==> #[trigger] (lines >> j) & 1u64 == 0u64,
    ensures
        i < 64 ==> lines & (((1u64 << i) - 1) as u64) == 0,
{
    if i < 64 {
        let low = lines & (((1u64 << i) - 1) as u64);
        if low != 0 {
            vstd::std_specs::bits::axiom_u64_trailing_zeros(low);
            let j = vstd::std_specs::bits::u64_trailing_zeros(low) as u64;
            assert((low >> j) & 1 == 1);
            assert(((lines & (((1u64 << i) - 1) as u64)) >> j) & 1 == 1 ==> j < i && (lines >> j)
                & 1 == 1) by (bit_vector)
                requires
                    i < 64,
                    j < 64,
            ;
            assert((lines >> j) & 1u64 == 0u64);
        }
    }
}

/// The squeeze of the rows `0 .. n` before and after the lowest row `i` of
/// `lines` is cut out of both words.
proof fn lemma_cut_below(col: u64, lines: u64, i: u64, n: int)
    requires
        i < 64,
        0 <= n <= 63,
        (lines >> i) & 1 == 1,
        lines & (((1u64 << i) - 1) as u64) == 0,
    ensures
        ({
            let cut = (col & (((1u64 << i) - 1) as u64)) | ((col >> 1) & !(((1u64 << i) - 1) as u64));
            let rest = (lines & !(1u64 << i)) >> 1;
            &&& n <= i ==> count_below(rest, n) == 0 && count_below(lines, n) == 0
                && squeeze_below(cut, rest, n) == squeeze_below(col, lines, n)
            &&& n >= i ==> count_below(rest, n) + 1 == count_below(lines, n + 1) && squeeze_below(
                cut,
                rest,
                n,
            ) == squeeze_below(col, lines, n + 1)
        }),
    decreases n,
{
    let cut = (col & (((1u64 << i) - 1) as u64)) | ((col >> 1) & !(((1u64 << i) - 1) as u64));
    let rest = (lines & !(1u64 << i)) >> 1;
    if n > 0 {
        lemma_cut_below(col, lines, i, n - 1);
        lemma_cut_rows(col, lines, i, (n - 1) as u64);
        if n < 64 {
            lemma_cut_rows(col, lines, i, n as u64);
        }
        if n - 1 >= i {
            // row n - 1 of the cut words is row n of the uncut ones
            assert(has_row(cut, n - 1) == has_row(col, n));
            assert(has_row(rest, n - 1) == has_row(lines, n));
        } else {
            assert(has_row(cut, n - 1) == has_row(col, n - 1));
            assert(!has_row(rest, n - 1));
            assert(!has_row(lines, n - 1));
            if n == i {
                assert(has_row(lines, n));
            }
        }
    } else {
        if i == 0 {
            assert(has_row(lines, 0));
        }
    }
}

/// Cutting the lowest row `i` of `lines` out of `col`, and out of `lines`
/// itself, leaves the squeeze of the column by the lines as it was, and
/// makes the lines a smaller number.
pub proof fn lemma_cut_row(col: u64, lines: u64, i: u64)
    requires
        i < 64,
        (lines >> i) & 1u64 == 1u64,
        forall|j: u64| 0 <= j < i ==> #[trigger] (lines >> j) & 1u64 == 0u64,
    ensures
        ({
            let mask = ((1u64 << i) - 1) as u64;
            let cut = (col & mask) | ((col >> 1) & !mask);
            let rest = (lines & !(1u64 << i)) >> 1;
            squeeze(cut, rest) == squeeze(col, lines) && rest < lines
        }),
{
    let mask = ((1u64 << i) - 1) as u64;
    let cut = (col & mask) | ((col >> 1) & !mask);
    let rest = (lines & !(1u64 << i)) >> 1;
    lemma_no_low_rows(lines, i);
    lemma_cut_below(col, lines, i, 63);
    lemma_cut_rows(col, lines, i, 63);
    assert(!has_row(cut, 63));
}

/// The rows `0 .. n` of `col` with nothing taken out are `col` below row `n`.
proof fn lemma_squeeze_nothing_below(col: u64, n: int)
    requires
        0 <= n <= 64,
    ensures
        count_below(0, n) == 0,
        squeeze_below(col, 0, n) == col & low_rows(n),
    decreases n,
{
    if n > 0 {
        lemma_squeeze_nothing_below(col, n - 1);
        let k = (n - 1) as u64;
        assert((0u64 >> k) & 1 == 0) by (bit_vector)
            requires
                k < 64,
        ;
        assert(!has_row(0, n - 1));
        let lo = low_rows(n - 1);
        let hi = low_rows(n);
        assert(lo == if k == 0 {
            0u64
        } else {
            ((1u64 << k) - 1) as u64
        });
        assert(hi == if k == 63 {
            0xffff_ffff_ffff_ffffu64
        } else {
            ((1u64 << ((k + 1) as u64)) - 1) as u64
        });
        assert(if (col >> k) & 1 == 1 {
            (col & lo) | (1u64 << k) == col & hi
        } else {
            col & lo == col & hi
        }) by (bit_vector)
            requires
                k < 64,
                lo == if k == 0 {
                    0u64
                } else {
                    ((1u64 << k) - 1) as u64
                },
                hi == if k == 63 {
                    0xffff_ffff_ffff_ffffu64
                } else {
                    ((1u64 << ((k + 1) as u64)) - 1) as u64
                },
        ;
    } else {
        assert(col & 0 == 0) by (bit_vector);
    }
}

/// Taking no rows out of a column leaves it as it is.
pub proof fn lemma_squeeze_nothing(col: u64)
    ensures
        squeeze(col, 0) == col,
{
    lemma_squeeze_nothing_below(col, 64);
    assert(col & 0xffff_ffff_ffff_ffffu64 == col) by (bit_vector);
}

/// Of two rows that are kept, the higher one stays the higher one.
pub proof fn lemma_kept_order(lines: u64, low: int, high: int)
    requires
        0 <= low < high,
        !has_row(lines, low),
    ensures
        low - count_below(lines, low) < high - count_below(lines, high),
    decreases high - low,
{
    if high > low + 1 {
        lemma_kept_order(lines, low, high - 1);
    }
}

/// A row of a squeezed column comes from a row of the column that is kept.
pub proof fn lemma_squeezed_row(col: u64, lines: u64, n: int, j: int) -> (r: int)
    requires
        0 <= n <= 64,
        has_row(squeeze_below(col, lines, n), j),
    ensures
        0 <= r < n,
        has_row(col, r),
        !has_row(lines, r),
        r - count_below(lines, r) == j,
    decreases n,
{
    if n <= 0 {
        lemma_has_row_ops(0, 0, j);
        0
    } else {
        let rest = squeeze_below(col, lines, n - 1);
        if has_row(col, n - 1) && !has_row(lines, n - 1) {
            let p = n - 1 - count_below(lines, n - 1);
            lemma_count_bound(lines, n - 1);
            lemma_has_row_ops(rest, 1u64 << (p as u64), j);
            lemma_has_row_shift(0, p, j);
            if has_row(rest, j) {
                lemma_squeezed_row(col, lines, n - 1, j)
            } else {
                n - 1
            }
        } else {
            lemma_squeezed_row(col, lines, n - 1, j)
        }
    }
}

/// After the full rows are taken out of ten columns, no row is full.
pub proof fn lemma_none_full(cols: Seq<u64>)
    requires
        cols.len() == 10,
    ensures
        and_all(after_clear(cols)) == 0,
{
    let lines = and_all(cols);
    let out = after_clear(cols);
    let full = and_all(out);
    assert forall|j: int| 0 <= j < 64 implies has_row(full, j) == has_row(0, j) by {
        lemma_has_row_ops(0, 0, j);
        lemma_fold_rows(out, j);
        if has_row(full, j) {
            assert(has_row(out[0], j));
            let r = lemma_squeezed_row(cols[0], lines, 64, j);
            lemma_fold_rows(cols, r);
            assert forall|x: int| 0 <= x < 10 implies has_row(#[trigger] cols[x], r) by {
                assert(has_row(out[x], j));
                let rx = lemma_squeezed_row(cols[x], lines, 64, j);
                if rx < r {
                    lemma_kept_order(lines, rx, r);
                }
                if r < rx {
                    lemma_kept_order(lines, r, rx);
                }
            }
        }
    }
    lemma_rows_equal(full, 0);
}

/// After garbage came in with its gap in one of the ten columns, no row is
/// full that was not full before.
pub proof fn lemma_garbage_none_full(cols: Seq<u64>, gap: int, lines: u16)
    requires
        cols.len() == 10,
        0 <= gap < 10,
        lines < 64,
        and_all(cols) == 0,
    ensures
        and_all(after_garbage(cols, gap, lines)) == 0,
{
    let out = after_garbage(cols, gap, lines);
    let full = and_all(out);
    assert forall|j: int| 0 <= j < 64 implies has_row(full, j) == has_row(0, j) by {
        lemma_has_row_ops(0, 0, j);
        lemma_fold_rows(out, j);
        if has_row(full, j) {
            assert(has_row(out[gap], j));
            lemma_has_row_shift(cols[gap], lines as int, j);
            assert(j >= lines);
            lemma_fold_rows(cols, j - lines);
            lemma_has_row_ops(0, 0, j - lines);
            assert forall|x: int| 0 <= x < 10 implies has_row(#[trigger] cols[x], j - lines) by {
                assert(has_row(out[x], j));
                lemma_has_row_shift(cols[x], lines as int, j);
            }
        }
    }
    lemma_rows_equal(full, 0);
}

} // verus!
