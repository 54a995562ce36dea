//! The offsets tried, in order, when a piece is turned.
use crate::data::{as_cell, Piece, Rotation};
use vstd::prelude::*;

verus! {

/// One row of five offsets.
pub open spec fn five(
    a: (int, int),
    b: (int, int),
    c: (int, int),
    d: (int, int),
    e: (int, int),
    i: int,
) -> (int, int) {
    if i == 0 {
        a
    } else if i == 1 {
        b
    } else if i == 2 {
        c
    } else if i == 3 {
        d
    } else {
        e
    }
}

/// One row of six offsets.
pub open spec fn six(
    a: (int, int),
    b: (int, int),
    c: (int, int),
    d: (int, int),
    e: (int, int),
    f: (int, int),
    i: int,
) -> (int, int) {
    if i == 0 {
        a
    } else if i == 1 {
        b
    } else if i == 2 {
        c
    } else if i == 3 {
        d
    } else if i == 4 {
        e
    } else {
        f
    }
}

/// Offset `i` of the five tried when `piece` makes the quarter turn from
/// `from` to `to`. The I piece has a table of its own, the O piece is never
/// moved, and a pair of orientations that is no quarter turn has no offsets
/// but zero.
pub open spec fn kick(piece: Piece, from: Rotation, to: Rotation, i: int) -> (int, int) {
    match piece {
        Piece::O => (0, 0),
        Piece::I => match (from, to) {
            (Rotation::East, Rotation::North) => five((-1, 0), (-2, 0), (1, 0), (-2, -2), (1, 1), i),
            (Rotation::East, Rotation::South) => five((0, -1), (-1, -1), (2, -1), (-1, 1), (2, -2), i),
            (Rotation::South, Rotation::East) => five((0, 1), (-2, 1), (1, 1), (-2, 2), (1, -1), i),
            (Rotation::South, Rotation::West) => five((-1, 0), (1, 0), (-2, 0), (1, 1), (-2, -2), i),
            (Rotation::West, Rotation::North) => five((0, 1), (1, 1), (-2, 1), (1, -1), (-2, 2), i),
            (Rotation::West, Rotation::South) => five((1, 0), (2, 0), (-1, 0), (2, 2), (-1, -1), i),
            (Rotation::North, Rotation::East) => five((1, 0), (2, 0), (-1, 0), (-1, -1), (2, 2), i),
            (Rotation::North, Rotation::West) => five((0, -1), (-1, -1), (2, -1), (2, -2), (-1, 1), i),
            _ => (0, 0),
        },
        _ => match (from, to) {
            (Rotation::East, Rotation::North) => five((0, 0), (1, 0), (1, -1), (0, 2), (1, 2), i),
            (Rotation::East, Rotation::South) => five((0, 0), (1, 0), (1, -1), (0, 2), (1, 2), i),
            (Rotation::South, Rotation::East) => five((0, 0), (-1, 0), (-1, 1), (0, -2), (-1, -2), i),
            (Rotation::South, Rotation::West) => five((0, 0), (1, 0), (1, 1), (0, -2), (1, -2), i),
            (Rotation::West, Rotation::North) => five((0, 0), (-1, 0), (-1, -1), (0, 2), (-1, 2), i),
            (Rotation::West, Rotation::South) => five((0, 0), (-1, 0), (-1, -1), (0, 2), (-1, 2), i),
            (Rotation::North, Rotation::East) => five((0, 0), (-1, 0), (-1, 1), (0, -2), (-1, -2), i),
            (Rotation::North, Rotation::West) => five((0, 0), (1, 0), (1, 1), (0, -2), (1, -2), i),
            _ => (0, 0),
        },
    }
}

/// Offset `i` of the six tried when `piece` makes the half turn from `from`
/// to `to`.
pub open spec fn kick_180(piece: Piece, from: Rotation, to: Rotation, i: int) -> (int, int) {
    match piece {
        Piece::O => (0, 0),
        Piece::I => match (from, to) {
            (Rotation::East, Rotation::West) => six(
                (-1, -1),
                (0, -1),
                (-1, -1),
                (-1, -1),
                (-1, -1),
                (-1, -1),
                i,
            ),
            (Rotation::South, Rotation::North) => six(
                (-1, 1),
                (-1, 0),
                (-1, 1),
                (-1, 1),
                (-1, 1),
                (-1, 1),
                i,
            ),
            (Rotation::West, Rotation::East) => six((1, 1), (0, 1), (1, 1), (1, 1), (1, 1), (1, 1), i),
            (Rotation::North, Rotation::South) => six(
                (1, -1),
                (1, 0),
                (1, -1),
                (1, -1),
                (1, -1),
                (1, -1),
                i,
            ),
            _ => (0, 0),
        },
        _ => match (from, to) {
            (Rotation::East, Rotation::West) => six((0, 0), (1, 0), (1, 2), (1, 1), (0, 2), (0, 1), i),
            (Rotation::South, Rotation::North) => six(
                (0, 0),
                (0, -1),
                (-1, -1),
                (1, -1),
                (-1, 0),
                (1, 0),
                i,
            ),
            (Rotation::West, Rotation::East) => six(
                (0, 0),
                (-1, 0),
                (-1, 2),
                (-1, 1),
                (0, 2),
                (0, 1),
                i,
            ),
            (Rotation::North, Rotation::South) => six(
                (0, 0),
                (0, 1),
                (1, 1),
                (-1, 1),
                (1, 0),
                (-1, 0),
                i,
            ),
            _ => (0, 0),
        },
    }
}

/// The five offsets tried when `piece` makes the quarter turn from `from` to `to`.
pub fn kicks(piece: Piece, from: Rotation, to: Rotation) -> (r: [(i8, i8); 5])
    ensures
        forall|i: int| 0 <= i < 5 ==> as_cell(#[trigger] r[i]) == kick(piece, from, to, i),
        forall|i: int| 0 <= i < 5 ==> -2 <= (#[trigger] r[i]).0 <= 2 && -2 <= r[i].1 <= 2,
{
    match piece {
        Piece::O => [(0, 0), (0, 0), (0, 0), (0, 0), (0, 0)],
        Piece::I => match (from, to) {
            (Rotation::East, Rotation::North) => [(-1, 0), (-2, 0), (1, 0), (-2, -2), (1, 1)],
            (Rotation::East, Rotation::South) => [(0, -1), (-1, -1), (2, -1), (-1, 1), (2, -2)],
            (Rotation::South, Rotation::East) => [(0, 1), (-2, 1), (1, 1), (-2, 2), (1, -1)],
            (Rotation::South, Rotation::West) => [(-1, 0), (1, 0), (-2, 0), (1, 1), (-2, -2)],
            (Rotation::West, Rotation::North) => [(0, 1), (1, 1), (-2, 1), (1, -1), (-2, 2)],
            (Rotation::West, Rotation::South) => [(1, 0), (2, 0), (-1, 0), (2, 2), (-1, -1)],
            (Rotation::North, Rotation::East) => [(1, 0), (2, 0), (-1, 0), (-1, -1), (2, 2)],
            (Rotation::North, Rotation::West) => [(0, -1), (-1, -1), (2, -1), (2, -2), (-1, 1)],
            _ => [(0, 0), (0, 0), (0, 0), (0, 0), (0, 0)],
        },
        _ => match (from, to) {
            (Rotation::East, Rotation::North) => [(0, 0), (1, 0), (1, -1), (0, 2), (1, 2)],
            (Rotation::East, Rotation::South) => [(0, 0), (1, 0), (1, -1), (0, 2), (1, 2)],
            (Rotation::South, Rotation::East) => [(0, 0), (-1, 0), (-1, 1), (0, -2), (-1, -2)],
            (Rotation::South, Rotation::West) => [(0, 0), (1, 0), (1, 1), (0, -2), (1, -2)],
            (Rotation::West, Rotation::North) => [(0, 0), (-1, 0), (-1, -1), (0, 2), (-1, 2)],
            (Rotation::West, Rotation::South) => [(0, 0), (-1, 0), (-1, -1), (0, 2), (-1, 2)],
            (Rotation::North, Rotation::East) => [(0, 0), (-1, 0), (-1, 1), (0, -2), (-1, -2)],
            (Rotation::North, Rotation::West) => [(0, 0), (1, 0), (1, 1), (0, -2), (1, -2)],
            _ => [(0, 0), (0, 0), (0, 0), (0, 0), (0, 0)],
        },
    }
}

/// The six offsets tried when `piece` makes the half turn from `from` to `to`.
pub fn kicks_180(piece: Piece, from: Rotation, to: Rotation) -> (r: [(i8, i8); 6])
    ensures
        forall|i: int| 0 <= i < 6 ==> as_cell(#[trigger] r[i]) == kick_180(piece, from, to, i),
        forall|i: int| 0 <= i < 6 ==> -2 <= (#[trigger] r[i]).0 <= 2 && -2 <= r[i].1 <= 2,
{
    match piece {
        Piece::O => [(0, 0), (0, 0), (0, 0), (0, 0), (0, 0), (0, 0)],
        Piece::I => match (from, to) {
            (Rotation::East, Rotation::West) => [
                (-1, -1),
                (0, -1),
                (-1, -1),
                (-1, -1),
                (-1, -1),
                (-1, -1),
            ],
            (Rotation::South, Rotation::North) => [
                (-1, 1),
                (-1, 0),
                (-1, 1),
                (-1, 1),
                (-1, 1),
                (-1, 1),
            ],
            (Rotation::West, Rotation::East) => [(1, 1), (0, 1), (1, 1), (1, 1), (1, 1), (1, 1)],
            (Rotation::North, Rotation::South) => [
                (1, -1),
                (1, 0),
                (1, -1),
                (1, -1),
                (1, -1),
                (1, -1),
            ],
            _ => [(0, 0), (0, 0), (0, 0), (0, 0), (0, 0), (0, 0)],
        },
        _ => match (from, to) {
            (Rotation::East, Rotation::West) => [(0, 0), (1, 0), (1, 2), (1, 1), (0, 2), (0, 1)],
            (Rotation::South, Rotation::North) => [
                (0, 0),
                (0, -1),
                (-1, -1),
                (1, -1),
                (-1, 0),
                (1, 0),
            ],
            (Rotation::West, Rotation::East) => [(0, 0), (-1, 0), (-1, 2), (-1, 1), (0, 2), (0, 1)],
            (Rotation::North, Rotation::South) => [
                (0, 0),
                (0, 1),
                (1, 1),
                (-1, 1),
                (1, 0),
                (-1, 0),
            ],
            _ => [(0, 0), (0, 0), (0, 0), (0, 0), (0, 0), (0, 0)],
        },
    }
}

} // verus!
