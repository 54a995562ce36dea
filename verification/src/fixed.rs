//! The placements of a piece in a list of fixed capacity.
use crate::data::{piece_eq, Board, Piece, PieceLocation};
use crate::movegen::placements;
use arrayvec::ArrayVec;
use vstd::prelude::*;

verus! {

/// How many placements a list holds at most.
pub const CAPACITY: usize = 128;

#[verifier::external_type_specification]
#[verifier::external_body]
#[verifier::reject_recursive_types(T)]
pub struct ExArrayVec<T, const CAP: usize>(ArrayVec<T, CAP>);

/// The placements that a list holds, in their order.
pub uninterp spec fn held(list: ArrayVec<PieceLocation, 128>) -> Seq<PieceLocation>;

/// `ArrayVec::new`: a list that holds nothing.
#[verifier::external_body]
fn empty_list() -> (list: ArrayVec<PieceLocation, 128>)
    ensures
        held(list) == Seq::<PieceLocation>::empty(),
{
    ArrayVec::new()
}

/// `ArrayVec::push`: puts `loc` behind what the list holds. It panics on a
/// full list, which the precondition leaves out.
#[verifier::external_body]
fn push_to(list: &mut ArrayVec<PieceLocation, 128>, loc: PieceLocation)
    requires
        held(*old(list)).len() < 128,
    ensures
        held(*final(list)) == held(*old(list)).push(loc),
{
    list.push(loc)
}

/// The placements `moves[from ..]` as a list.
fn listed(moves: &Vec<PieceLocation>, from: usize) -> (list: ArrayVec<PieceLocation, 128>)
    requires
        from <= moves.len(),
        moves.len() - from <= CAPACITY,
    ensures
        held(list) == moves@.subrange(from as int, moves@.len() as int),
{
    let mut list = empty_list();
    let mut i: usize = from;
    while i < moves.len()
        invariant
            from <= i <= moves.len(),
            moves.len() - from <= CAPACITY,
            held(list) == moves@.subrange(from as int, i as int),
        decreases moves.len() - i,
    {
        push_to(&mut list, moves[i]);
        proof {
            assert(moves@.subrange(from as int, i + 1) =~= moves@.subrange(
                from as int,
                i as int,
            ).push(moves@[i as int]));
        }
        i += 1;
    }
    list
}

/// Every placement of `piece` on `board`, if there are no more than the
/// list holds.
pub fn try_movegen_piece(board: &Board, piece: Piece, force: bool) -> (r: Option<
    ArrayVec<PieceLocation, 128>,
>)
    ensures
        match r {
            Some(list) => held(list) == placements(*board, piece, force),
            None => placements(*board, piece, force).len() > CAPACITY,
        },
{
    let mut arena: Vec<PieceLocation> = Vec::new();
    crate::movegen::movegen_piece(&mut arena, board, piece, force);
    proof {
        assert(arena@ =~= placements(*board, piece, force));
        assert(arena@.subrange(0, arena@.len() as int) =~= arena@);
    }
    if arena.len() <= CAPACITY {
        Some(listed(&arena, 0))
    } else {
        None
    }
}

/// Every placement of `piece` on `board`.
pub fn movegen_piece(board: &Board, piece: Piece, force: bool) -> (list: ArrayVec<
    PieceLocation,
    128,
>)
    requires
        placements(*board, piece, force).len() <= CAPACITY,
    ensures
        held(list) == placements(*board, piece, force),
{
    let mut arena: Vec<PieceLocation> = Vec::new();
    crate::movegen::movegen_piece(&mut arena, board, piece, force);
    proof {
        assert(arena@ =~= placements(*board, piece, force));
        assert(arena@.subrange(0, arena@.len() as int) =~= arena@);
    }
    listed(&arena, 0)
}

/// The placements of `piece1` and, if it is another piece, of `piece2`, each
/// in a list of its own; the second list is empty if the pieces are the same.
pub fn movegen(board: &Board, piece1: Piece, piece2: Piece, force: bool) -> (r: (
    ArrayVec<PieceLocation, 128>,
    ArrayVec<PieceLocation, 128>,
))
    requires
        placements(*board, piece1, force).len() <= CAPACITY,
        placements(*board, piece2, force).len() <= CAPACITY,
    ensures
        held(r.0) == placements(*board, piece1, force),
        held(r.1) == if piece1 == piece2 {
            Seq::<PieceLocation>::empty()
        } else {
            placements(*board, piece2, force)
        },
{
    let moves1 = movegen_piece(board, piece1, force);
    let moves2 = if piece_eq(piece1, piece2) {
        empty_list()
    } else {
        movegen_piece(board, piece2, force)
    };
    (moves1, moves2)
}

} // verus!
