//! Counting the states that sequences of placements lead to.
use crate::data::{Piece, PieceLocation};
use crate::game::Game;
use crate::laws::{lemma_fits, lemma_placements_rest};
use crate::movegen::{movegen_piece, placements};
use crate::search::{takes, TOP_ROW};
use vstd::prelude::*;

verus! {

/// The number of sequences of placements that begin with `loc`: a
/// placement that is not taken up counts for nothing.
pub open spec fn leaves_through(
    game: Game,
    queue: Seq<Piece>,
    idx: int,
    depth: int,
    loc: PieceLocation,
) -> nat
    decreases depth, 0int, 0int,
{
    if depth <= 1 || !takes(game, loc) {
        0
    } else {
        leaves(game.after(queue[idx], loc), queue, idx + 1, depth - 1)
    }
}

/// The number of sequences of `depth` placements from `game`, of the pieces
/// of the queue from index `idx` on: each placement but the last is made and
/// counted with what follows it.
pub open spec fn leaves(game: Game, queue: Seq<Piece>, idx: int, depth: int) -> nat
    decreases depth, 2int, 0int,
{
    if depth <= 1 {
        placements(game.board, queue[idx], true).len()
    } else {
        leaves_among(
            game,
            queue,
            idx,
            depth,
            placements(game.board, queue[idx], true).len() as int,
        )
    }
}

/// The part of `leaves` that goes through the first `n` placements.
pub open spec fn leaves_among(game: Game, queue: Seq<Piece>, idx: int, depth: int, n: int) -> nat
    decreases depth, 1int, n,
{
    if n <= 0 || depth <= 1 {
        0
    } else {
        leaves_among(game, queue, idx, depth, n - 1) + leaves_through(
            game,
            queue,
            idx,
            depth,
            placements(game.board, queue[idx], true)[n - 1],
        )
    }
}

/// Counts the sequences of placements that begin with `loc`, if a `usize`
/// holds their number.
fn count_through(
    arena: &mut Vec<PieceLocation>,
    game: &Game,
    queue: &[Piece; 7],
    idx: usize,
    depth: usize,
    loc: &PieceLocation,
) -> (nodes: Option<usize>)
    requires
        1 < depth,
        idx + depth <= 7,
        game.board.full_rows() == 0,
        crate::laws::rests_on(game.board, loc.piece, *loc),
    ensures
        match nodes {
            Some(n) => n == leaves_through(*game, queue@, idx as int, depth as int, *loc),
            None => leaves_through(*game, queue@, idx as int, depth as int, *loc) > usize::MAX,
        },
        final(arena)@.len() >= old(arena)@.len(),
        final(arena)@.subrange(0, old(arena)@.len() as int) == old(arena)@,
    decreases depth, 0int,
{
    if game.b2b < i16::MAX && game.combo < i8::MAX && loc.y <= TOP_ROW {
        proof {
            lemma_fits(game.board, *loc);
        }
        let mut next: Game = *game;
        next.advance(queue[idx], loc);
        try_perft(arena, &next, queue, idx + 1, depth - 1)
    } else {
        proof {
            assert(arena@.subrange(0, arena@.len() as int) =~= arena@);
        }
        Some(0)
    }
}

/// Counts the sequences of `depth` placements from `game`, of the pieces of
/// the queue from index `idx` on, if a `usize` holds their number. The
/// placements are generated into `arena` behind what it holds.
pub fn try_perft(
    arena: &mut Vec<PieceLocation>,
    game: &Game,
    queue: &[Piece; 7],
    idx: usize,
    depth: usize,
) -> (nodes: Option<usize>)
    requires
        1 <= depth,
        idx + depth <= 7,
        game.board.full_rows() == 0,
    ensures
        match nodes {
            Some(n) => n == leaves(*game, queue@, idx as int, depth as int),
            None => leaves(*game, queue@, idx as int, depth as int) > usize::MAX,
        },
        final(arena)@.len() >= old(arena)@.len(),
        final(arena)@.subrange(0, old(arena)@.len() as int) == old(arena)@,
    decreases depth, 1int,
{
    let start = movegen_piece(arena, &game.board, queue[idx], true);
    let end = arena.len();
    let ghost locs = placements(game.board, queue@[idx as int], true);
    proof {
        assert(arena@.subrange(0, start as int) =~= old(arena)@);
        assert(arena@.subrange(start as int, end as int) =~= locs);
    }
    if depth == 1 {
        return Some(end - start);
    }
    let mut nodes: usize = 0;
    let mut i: usize = start;
    while i < end
        invariant
            start <= i <= end <= arena.len(),
            1 < depth,
            idx + depth <= 7,
            game.board.full_rows() == 0,
            locs == placements(game.board, queue@[idx as int], true),
            end - start == locs.len(),
            arena@.subrange(start as int, end as int) == locs,
            arena@.subrange(0, start as int) == old(arena)@,
            start == old(arena)@.len(),
            nodes == leaves_among(*game, queue@, idx as int, depth as int, i - start),
        decreases end - i,
    {
        let loc = arena[i];
        proof {
            assert(locs[i - start] == arena@[i as int]);
            lemma_placements_rest(game.board, queue@[idx as int], true, i - start);
            lemma_leaves_grow(*game, queue@, idx as int, depth as int, i - start + 1, end - start);
            assert(leaves_among(*game, queue@, idx as int, depth as int, i - start + 1)
                == leaves_among(*game, queue@, idx as int, depth as int, i - start)
                + leaves_through(*game, queue@, idx as int, depth as int, loc));
        }
        let ghost kept = arena@;
        let below = count_through(arena, game, queue, idx, depth, &loc);
        proof {
            assert(arena@.subrange(start as int, end as int) =~= kept.subrange(
                start as int,
                end as int,
            ));
            assert(arena@.subrange(0, start as int) =~= kept.subrange(0, start as int));
        }
        let sum = match below {
            Some(n) => nodes.checked_add(n),
            None => None,
        };
        match sum {
            Some(n) => {
                nodes = n;
            },
            None => {
                return None;
            },
        }
        i += 1;
    }
    Some(nodes)
}

/// Counts the sequences of `depth` placements from `game`, of the pieces of
/// the queue from index `idx` on. The placements are generated into `arena`
/// behind what it holds.
pub fn perft(
    arena: &mut Vec<PieceLocation>,
    game: &Game,
    queue: &[Piece; 7],
    idx: usize,
    depth: usize,
) -> (nodes: usize)
    requires
        1 <= depth,
        idx + depth <= 7,
        game.board.full_rows() == 0,
        leaves(*game, queue@, idx as int, depth as int) <= usize::MAX,
    ensures
        nodes == leaves(*game, queue@, idx as int, depth as int),
        final(arena)@.len() >= old(arena)@.len(),
        final(arena)@.subrange(0, old(arena)@.len() as int) == old(arena)@,
{
    match try_perft(arena, game, queue, idx, depth) {
        Some(n) => n,
        None => 0,
    }
}

/// The part of a count that goes through fewer placements is the smaller one.
pub proof fn lemma_leaves_grow(game: Game, queue: Seq<Piece>, idx: int, depth: int, n: int, m: int)
    requires
        0 <= n <= m,
    ensures
        leaves_among(game, queue, idx, depth, n) <= leaves_among(game, queue, idx, depth, m),
    decreases m - n,
{
    if n < m {
        lemma_leaves_grow(game, queue, idx, depth, n, m - 1);
    }
}

} // verus!
