//! Whole-number measures of a state, of which ratings are made.
//!
//! A rating is a weighted sum of measures. The weights are real numbers and
//! stay outside this library; the measures are computed here.
use crate::bits::{
    count_ones, count_rows, has_row, lemma_cleared, lemma_has_row_ops, lemma_has_row_shift,
    low_rows, rows_below, ALL_ROWS,
};
use crate::data::{Board, Spin};
use crate::game::{Game, PlacementInfo};
use vstd::prelude::*;

verus! {

/// The height that stands for the wall beside the board where the wall is
/// taken to be high.
pub const WALL: i32 = 99;

/// The number of rows of a column from the floor up to and including its
/// highest filled cell.
pub open spec fn col_height(c: u64) -> int {
    64 - vstd::std_specs::bits::u64_leading_zeros(c)
}

/// The empty cells of a column below its highest filled cell.
pub open spec fn holes_of(c: u64) -> u64 {
    !c & low_rows(col_height(c))
}

/// The sum, over the rows `0 .. n` of `holes`, of how far each lies below `h`.
pub open spec fn depth_sum(holes: u64, h: int, n: int) -> int
    decreases n,
{
    if n <= 0 {
        0
    } else {
        depth_sum(holes, h, n - 1) + if has_row(holes, n - 1) {
            h - (n - 1)
        } else {
            0
        }
    }
}

/// The greatest height among the first `n` columns.
pub open spec fn tallest(cols: Seq<u64>, n: int) -> int
    decreases n,
{
    if n <= 0 {
        0
    } else {
        let before = tallest(cols, n - 1);
        if col_height(cols[n - 1]) > before {
            col_height(cols[n - 1])
        } else {
            before
        }
    }
}

/// The number of holes in the first `n` columns.
pub open spec fn holes(cols: Seq<u64>, n: int) -> int
    decreases n,
{
    if n <= 0 {
        0
    } else {
        holes(cols, n - 1) + count_rows(holes_of(cols[n - 1]))
    }
}

/// How deep the holes of the first `n` columns lie below the tops of their
/// columns, in total.
pub open spec fn covered(cols: Seq<u64>, n: int) -> int
    decreases n,
{
    if n <= 0 {
        0
    } else {
        covered(cols, n - 1) + depth_sum(holes_of(cols[n - 1]), col_height(cols[n - 1]), 64)
    }
}

/// The number of cells in which two neighbouring columns differ, over the
/// first `n` pairs of neighbours.
pub open spec fn transitions(cols: Seq<u64>, n: int) -> int
    decreases n,
{
    if n <= 0 {
        0
    } else {
        transitions(cols, n - 1) + count_rows(cols[n - 1] ^ cols[n])
    }
}

/// The index of the first column among the first `n` whose word is the least.
pub open spec fn least_col(cols: Seq<u64>, n: int) -> int
    decreases n,
{
    if n <= 1 {
        0
    } else {
        let w = least_col(cols, n - 1);
        if cols[n - 1] < cols[w] {
            n - 1
        } else {
            w
        }
    }
}

/// The rows that are filled in each of the first `n` columns but `skip`.
pub open spec fn all_but(cols: Seq<u64>, skip: int, n: int) -> u64
    decreases n,
{
    if n <= 0 {
        ALL_ROWS
    } else if n - 1 == skip {
        all_but(cols, skip, n - 1)
    } else {
        all_but(cols, skip, n - 1) & cols[n - 1]
    }
}

/// How many rows in a row are full but for the column with the least word,
/// counted up from the row whose number is that word modulo 64; with that
/// column empty, from the floor.
pub open spec fn well_depth(cols: Seq<u64>) -> int {
    let w = least_col(cols, 10);
    vstd::std_specs::bits::u64_trailing_ones(all_but(cols, w, 10) >> (cols[w] % 64)) as int
}

/// The height of the neighbour of column `x` on the side `dx`; beside the
/// board it is `WALL` if the wall is taken to be high, and else three more
/// than the height of column `x` itself.
pub open spec fn beside(cols: Seq<u64>, x: int, dx: int, high_wall: bool) -> int {
    if 0 <= x + dx < 10 {
        col_height(cols[x + dx])
    } else if high_wall {
        WALL as int
    } else {
        col_height(cols[x]) + 3
    }
}

/// Whether both neighbours of column `x` are higher than it by more than `by`.
pub open spec fn dent(cols: Seq<u64>, x: int, by: int, high_wall: bool) -> bool {
    beside(cols, x, -1, high_wall) - by > col_height(cols[x]) && beside(cols, x, 1, high_wall) - by
        > col_height(cols[x])
}

/// Whether both neighbours of column `x` are lower than it by more than one.
pub open spec fn spike(cols: Seq<u64>, x: int, high_wall: bool) -> bool {
    beside(cols, x, -1, high_wall) + 1 < col_height(cols[x]) && beside(cols, x, 1, high_wall) + 1
        < col_height(cols[x])
}

/// The number of dents among the first `n` columns, column `skip` left out.
pub open spec fn dents(cols: Seq<u64>, skip: int, by: int, high_wall: bool, n: int) -> int
    decreases n,
{
    if n <= 0 {
        0
    } else {
        dents(cols, skip, by, high_wall, n - 1) + if n - 1 != skip && dent(
            cols,
            n - 1,
            by,
            high_wall,
        ) {
            1int
        } else {
            0
        }
    }
}

/// The number of spikes among the first `n` columns, column `skip` left out.
pub open spec fn spikes(cols: Seq<u64>, skip: int, high_wall: bool, n: int) -> int
    decreases n,
{
    if n <= 0 {
        0
    } else {
        spikes(cols, skip, high_wall, n - 1) + if n - 1 != skip && spike(cols, n - 1, high_wall) {
            1int
        } else {
            0
        }
    }
}

/// The sum over the first `n` columns of how much higher the two neighbours
/// of a column are than the column.
pub open spec fn concavity(cols: Seq<u64>, n: int) -> int
    decreases n,
{
    if n <= 0 {
        0
    } else {
        concavity(cols, n - 1) + beside(cols, n - 1, -1, false) - 2 * col_height(cols[n - 1])
            + beside(cols, n - 1, 1, false)
    }
}

/// The sum over the first `n` columns of the difference in height between a
/// column and its left neighbour.
pub open spec fn bumpiness(cols: Seq<u64>, n: int) -> int
    decreases n,
{
    if n <= 0 {
        0
    } else {
        let a = beside(cols, n - 1, -1, false);
        let b = col_height(cols[n - 1]);
        bumpiness(cols, n - 1) + if a >= b {
            a - b
        } else {
            b - a
        }
    }
}

/// One for true, nothing for false.
pub open spec fn flag(b: bool) -> int {
    if b {
        1
    } else {
        0
    }
}

/// The greatest height, and how far it is above row 10 and above row 15.
pub open spec fn height_measures(cols: Seq<u64>) -> (int, int, int) {
    let h = tallest(cols, 10);
    (h, if h > 10 {
        h - 10
    } else {
        0
    }, if h > 15 {
        h - 15
    } else {
        0
    })
}

/// The measures of the plain rating, in the order of its weights: the three
/// height measures, holes, how deep they are covered, transitions, the depth
/// of the well, dents by more than one and by more than two and spikes, all
/// three without the column of the well and with high walls, whether a spin
/// cleared rows, whether a surge was broken, and the attack sent.
pub open spec fn minimal_measure(game: Game, info: PlacementInfo, i: int) -> int {
    let cols = game.board.cols@;
    let w = least_col(cols, 10);
    if i == 0 {
        height_measures(cols).0
    } else if i == 1 {
        height_measures(cols).1
    } else if i == 2 {
        height_measures(cols).2
    } else if i == 3 {
        holes(cols, 10)
    } else if i == 4 {
        covered(cols, 10)
    } else if i == 5 {
        transitions(cols, 9)
    } else if i == 6 {
        well_depth(cols)
    } else if i == 7 {
        dents(cols, w, 1, true, 10)
    } else if i == 8 {
        dents(cols, w, 2, true, 10)
    } else if i == 9 {
        spikes(cols, w, true, 10)
    } else if i == 10 {
        flag(info.spin != Spin::NoSpin && info.lines_cleared > 0)
    } else if i == 11 {
        flag(info.broke_surge)
    } else {
        info.outgoing_attack as int
    }
}

/// The measures of the layered rating, in the order of its inputs: the
/// three height measures, holes, how deep they are covered, transitions,
/// dents by more than one and by more than two, spikes, concavity and
/// bumpiness, all over every column and with walls three above the column
/// beside them, whether the clear keeps the streak, whether a spin cleared
/// one, two, three rows, whether four rows were cleared, the attack sent,
/// the combo count, and the combo count again if the clear keeps the streak.
pub open spec fn layered_measure(game: Game, info: PlacementInfo, i: int) -> int {
    let cols = game.board.cols@;
    let spun = info.spin != Spin::NoSpin;
    if i < 6 {
        minimal_measure(game, info, i)
    } else if i == 6 {
        dents(cols, -1, 1, false, 10)
    } else if i == 7 {
        dents(cols, -1, 2, false, 10)
    } else if i == 8 {
        spikes(cols, -1, false, 10)
    } else if i == 9 {
        concavity(cols, 10)
    } else if i == 10 {
        bumpiness(cols, 10)
    } else if i == 11 {
        flag(info.b2b_clear)
    } else if i == 12 {
        flag(spun && info.lines_cleared == 1)
    } else if i == 13 {
        flag(spun && info.lines_cleared == 2)
    } else if i == 14 {
        flag(spun && info.lines_cleared == 3)
    } else if i == 15 {
        flag(info.lines_cleared == 4)
    } else if i == 16 {
        info.outgoing_attack as int
    } else if i == 17 {
        game.combo as int
    } else {
        game.combo * flag(info.b2b_clear)
    }
}

/// The height of a column.
pub fn height_of(c: u64) -> (h: i32)
    ensures
        h == col_height(c),
        0 <= h <= 64,
{
    proof {
        vstd::std_specs::bits::axiom_u64_leading_zeros(c);
    }
    64 - c.leading_zeros() as i32
}

/// The sum of how far the rows of `holes` lie below `h`.
fn depth_of(holes: u64, h: i32) -> (d: i32)
    requires
        0 <= h <= 64,
    ensures
        d == depth_sum(holes, h as int, 64),
        -4096 <= d <= 4096,
{
    let mut cur: u64 = holes;
    let mut d: i32 = 0;
    let ghost mut done: int = 0;
    while cur != 0
        invariant
            0 <= done <= 64,
            0 <= h <= 64,
            d == depth_sum(holes, h as int, done),
            -64 * done <= d <= 64 * done,
            forall|j: int| 0 <= j < 64 ==> has_row(cur, j) == (has_row(holes, j) && j >= done),
        decreases cur,
    {
        let y: u64 = cur.trailing_zeros() as u64;
        proof {
            vstd::std_specs::bits::axiom_u64_trailing_zeros(cur);
            assert(has_row(cur, y as int));
            assert forall|j: int| done <= j < y implies !has_row(holes, j) by {
                assert((cur >> (j as u64)) & 1u64 == 0u64);
                assert(!has_row(cur, j));
            }
            lemma_depth_skip(holes, h as int, done, y as int);
        }
        let ghost was = cur;
        cur = cur & !(1u64 << y);
        d = d + (h - y as i32);
        proof {
            assert forall|j: int| 0 <= j < 64 implies has_row(cur, j) == (has_row(holes, j) && j
                >= y + 1) by {
                lemma_has_row_ops(was, !(1u64 << y), j);
                lemma_has_row_ops(1u64 << y, 0, j);
                lemma_has_row_shift(0, y as int, j);
                if j < y {
                    assert((was >> (j as u64)) & 1u64 == 0u64);
                }
            }
            lemma_cleared(was, y);
            done = y + 1;
        }
    }
    proof {
        assert forall|j: int| done <= j < 64 implies !has_row(holes, j) by {
            lemma_has_row_ops(0, 0, j);
        }
        lemma_depth_skip(holes, h as int, done, 64);
    }
    d
}

/// Rows that are not there add nothing to a sum of depths.
proof fn lemma_depth_skip(holes: u64, h: int, from: int, to: int)
    requires
        0 <= from <= to <= 64,
        forall|j: int| from <= j < to ==> !has_row(holes, j),
    ensures
        depth_sum(holes, h, to) == depth_sum(holes, h, from),
    decreases to - from,
{
    if from < to {
        lemma_depth_skip(holes, h, from, to - 1);
    }
}

/// The height of the neighbour of column `x` on the side `dx`.
fn beside_of(board: &Board, x: usize, right: bool, high_wall: bool) -> (h: i32)
    requires
        x < 10,
    ensures
        h == beside(
            board.cols@,
            x as int,
            if right {
                1
            } else {
                -1
            },
            high_wall,
        ),
        0 <= h <= 99,
{
    if right && x < 9 {
        height_of(board.cols[x + 1])
    } else if !right && x > 0 {
        height_of(board.cols[x - 1])
    } else if high_wall {
        WALL
    } else {
        height_of(board.cols[x]) + 3
    }
}

/// The greatest height, the number of holes, how deep the holes are
/// covered, and the number of transitions.
pub fn surface_measures(board: &Board) -> (r: (i32, i32, i32, i32))
    ensures
        r.0 == tallest(board.cols@, 10),
        r.1 == holes(board.cols@, 10),
        r.2 == covered(board.cols@, 10),
        r.3 == transitions(board.cols@, 9),
        0 <= r.0 <= 64,
        0 <= r.1 <= 640,
        -40960 <= r.2 <= 40960,
        0 <= r.3 <= 640,
{
    let mut top: i32 = 0;
    let mut gaps: i32 = 0;
    let mut deep: i32 = 0;
    let mut turns: i32 = 0;
    let mut x: usize = 0;
    while x < 10
        invariant
            x <= 10,
            top == tallest(board.cols@, x as int),
            gaps == holes(board.cols@, x as int),
            deep == covered(board.cols@, x as int),
            turns == transitions(
                board.cols@,
                if x == 0 {
                    0
                } else {
                    x - 1
                },
            ),
            0 <= top <= 64,
            0 <= gaps <= 64 * x,
            -4096 * x <= deep <= 4096 * x,
            0 <= turns <= 64 * x,
        decreases 10 - x,
    {
        let c: u64 = board.cols[x];
        let h = height_of(c);
        if h > top {
            top = h;
        }
        let under: u64 = !c & rows_below(h as u64);
        gaps = gaps + count_ones(under) as i32;
        deep = deep + depth_of(under, h);
        if x > 0 {
            turns = turns + count_ones(board.cols[x - 1] ^ c) as i32;
        }
        x += 1;
    }
    (top, gaps, deep, turns)
}

/// The index of the first column whose word is the least.
pub fn well_column(board: &Board) -> (w: usize)
    ensures
        w == least_col(board.cols@, 10),
        w < 10,
{
    let mut w: usize = 0;
    let mut x: usize = 1;
    while x < 10
        invariant
            1 <= x <= 10,
            w < x,
            w == least_col(board.cols@, x as int),
        decreases 10 - x,
    {
        if board.cols[x] < board.cols[w] {
            w = x;
        }
        x += 1;
    }
    w
}

/// How many rows in a row are full but for the column `w`, counted up from
/// the row whose number is the word of that column modulo 64.
pub fn depth_at(board: &Board, w: usize) -> (d: u32)
    requires
        w < 10,
    ensures
        d == vstd::std_specs::bits::u64_trailing_ones(
            all_but(board.cols@, w as int, 10) >> (board.cols@[w as int] % 64),
        ),
        d <= 64,
{
    let mut rows: u64 = ALL_ROWS;
    let mut x: usize = 0;
    while x < 10
        invariant
            x <= 10,
            rows == all_but(board.cols@, w as int, x as int),
        decreases 10 - x,
    {
        if x != w {
            rows = rows & board.cols[x];
        }
        x += 1;
    }
    let from: u64 = board.cols[w] % 64;
    proof {
        vstd::std_specs::bits::axiom_u64_trailing_ones(rows >> from);
    }
    (rows >> from).trailing_ones()
}

/// The number of dents by more than one, of dents by more than two, and of
/// spikes, among the columns other than `skip`.
pub fn dent_measures(board: &Board, skip: Option<usize>, high_wall: bool) -> (r: (i32, i32, i32))
    ensures
        r.0 == dents(
            board.cols@,
            match skip {
                Some(s) => s as int,
                None => -1,
            },
            1,
            high_wall,
            10,
        ),
        r.1 == dents(
            board.cols@,
            match skip {
                Some(s) => s as int,
                None => -1,
            },
            2,
            high_wall,
            10,
        ),
        r.2 == spikes(
            board.cols@,
            match skip {
                Some(s) => s as int,
                None => -1,
            },
            high_wall,
            10,
        ),
        0 <= r.0 <= 10,
        0 <= r.1 <= 10,
        0 <= r.2 <= 10,
{
    let ghost out: int = match skip {
        Some(s) => s as int,
        None => -1,
    };
    let mut one: i32 = 0;
    let mut two: i32 = 0;
    let mut up: i32 = 0;
    let mut x: usize = 0;
    while x < 10
        invariant
            x <= 10,
            out == match skip {
                Some(s) => s as int,
                None => -1,
            },
            one == dents(board.cols@, out, 1, high_wall, x as int),
            two == dents(board.cols@, out, 2, high_wall, x as int),
            up == spikes(board.cols@, out, high_wall, x as int),
            0 <= one <= x,
            0 <= two <= x,
            0 <= up <= x,
        decreases 10 - x,
    {
        let left_out = match skip {
            Some(s) => s == x,
            None => false,
        };
        if !left_out {
            let a = beside_of(board, x, false, high_wall);
            let b = height_of(board.cols[x]);
            let c = beside_of(board, x, true, high_wall);
            if a - 1 > b && c - 1 > b {
                one = one + 1;
            }
            if a - 2 > b && c - 2 > b {
                two = two + 1;
            }
            if a + 1 < b && c + 1 < b {
                up = up + 1;
            }
        }
        x += 1;
    }
    (one, two, up)
}

/// The concavity and the bumpiness of the surface.
pub fn bend_measures(board: &Board) -> (r: (i32, i32))
    ensures
        r.0 == concavity(board.cols@, 10),
        r.1 == bumpiness(board.cols@, 10),
{
    let mut bend: i32 = 0;
    let mut bump: i32 = 0;
    let mut x: usize = 0;
    while x < 10
        invariant
            x <= 10,
            bend == concavity(board.cols@, x as int),
            bump == bumpiness(board.cols@, x as int),
            -400 * x <= bend <= 400 * x,
            0 <= bump <= 100 * x,
        decreases 10 - x,
    {
        let a = beside_of(board, x, false, false);
        let b = height_of(board.cols[x]);
        let c = beside_of(board, x, true, false);
        bend = bend + a - 2 * b + c;
        bump = bump + if a >= b {
            a - b
        } else {
            b - a
        };
        x += 1;
    }
    (bend, bump)
}

/// One for true, nothing for false.
fn flag_of(b: bool) -> (r: i32)
    ensures
        r == flag(b),
{
    if b {
        1
    } else {
        0
    }
}

/// The measures of the plain rating, in the order of its weights.
pub fn minimal_measures(game: &Game, info: &PlacementInfo) -> (r: [i32; 13])
    ensures
        forall|i: int| 0 <= i < 13 ==> #[trigger] r[i] == minimal_measure(*game, *info, i),
        forall|i: int| 0 <= i < 13 ==> -65535 <= #[trigger] r[i] <= 65535,
{
    let (top, gaps, deep, turns) = surface_measures(&game.board);
    let w = well_column(&game.board);
    let well = depth_at(&game.board, w);
    let (one, two, up) = dent_measures(&game.board, Some(w), true);
    let spun = !matches!(info.spin, Spin::NoSpin);
    [
        top,
        if top > 10 {
            top - 10
        } else {
            0
        },
        if top > 15 {
            top - 15
        } else {
            0
        },
        gaps,
        deep,
        turns,
        well as i32,
        one,
        two,
        up,
        flag_of(spun && info.lines_cleared > 0),
        flag_of(info.broke_surge),
        info.outgoing_attack as i32,
    ]
}

/// The measures of the layered rating, in the order of its inputs.
pub fn layered_measures(game: &Game, info: &PlacementInfo) -> (r: [i32; 19])
    ensures
        forall|i: int| 0 <= i < 19 ==> #[trigger] r[i] == layered_measure(*game, *info, i),
{
    let (top, gaps, deep, turns) = surface_measures(&game.board);
    let (one, two, up) = dent_measures(&game.board, None, false);
    let (bend, bump) = bend_measures(&game.board);
    let spun = !matches!(info.spin, Spin::NoSpin);
    let keeps = flag_of(info.b2b_clear);
    let combo: i32 = game.combo as i32;
    [
        top,
        if top > 10 {
            top - 10
        } else {
            0
        },
        if top > 15 {
            top - 15
        } else {
            0
        },
        gaps,
        deep,
        turns,
        one,
        two,
        up,
        bend,
        bump,
        keeps,
        flag_of(spun && info.lines_cleared == 1),
        flag_of(spun && info.lines_cleared == 2),
        flag_of(spun && info.lines_cleared == 3),
        flag_of(info.lines_cleared == 4),
        info.outgoing_attack as i32,
        combo,
        combo * keeps,
    ]
}

} // verus!
