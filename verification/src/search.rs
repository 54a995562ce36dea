//! Beam search over the placements of the pieces to come.
use crate::data::{Piece, PieceLocation};
use crate::game::{Game, PlacementInfo};
use crate::laws::{lemma_fits, lemma_placements_len, lemma_placements_rest, rests_on};
use crate::movegen::{movegen, other_piece, placements, placements_of_both};
use vstd::prelude::*;

verus! {

/// A state that the search has reached, with the index of the first
/// placement on the way to it and the score of the state.
#[derive(Debug, Clone, Copy)]
pub struct Node {
    pub game: Game,
    pub id: usize,
    pub score: i64,
}

/// The nodes that a ply keeps, with the index of the first of them that has
/// the least score.
pub struct Frontier {
    pub nodes: Vec<Node>,
    pub worst: usize,
}

/// A rating of states; the higher the better. The rating of a state depends
/// on the state and on what the last placement did, and on nothing else.
pub trait Eval {
    /// The rating of `game`, reached by a placement that did `info`.
    spec fn rate(&self, game: Game, info: PlacementInfo) -> i64;

    /// Rates `game`, reached by a placement that did `info`.
    fn value(&self, game: &Game, info: &PlacementInfo) -> (score: i64)
        ensures
            score == self.rate(*game, *info),
    ;
}

/// The highest row in which a placement is taken up: above it a piece may
/// have cells beyond the rows of the board.
pub const TOP_ROW: i8 = 61;

/// The index of the first node with the least score among the first `n`.
pub open spec fn worst_upto(front: Seq<Node>, n: int) -> int
    decreases n,
{
    if n <= 1 {
        0
    } else {
        let w = worst_upto(front, n - 1);
        if front[n - 1].score < front[w].score {
            n - 1
        } else {
            w
        }
    }
}

/// The index of the first node with the greatest score among the first `n`.
pub open spec fn best_upto(front: Seq<Node>, n: int) -> int
    decreases n,
{
    if n <= 1 {
        0
    } else {
        let b = best_upto(front, n - 1);
        if front[n - 1].score > front[b].score {
            n - 1
        } else {
            b
        }
    }
}

/// The frontier after `node` is offered to it: the node is added while the
/// frontier has fewer than `width` nodes; after that it takes the place of
/// the first node with the least score, if its own score is greater.
pub open spec fn kept(front: Seq<Node>, node: Node, width: int) -> Seq<Node> {
    if front.len() < width {
        front.push(node)
    } else if front.len() > 0 && node.score > front[worst_upto(front, front.len() as int)].score {
        front.update(worst_upto(front, front.len() as int), node)
    } else {
        front
    }
}

/// Whether a placement is taken up from `game`: the streak counts have room
/// to grow and the piece lies on the board.
pub open spec fn takes(game: Game, loc: PieceLocation) -> bool {
    game.b2b < i16::MAX && game.combo < i8::MAX && loc.y <= TOP_ROW
}

/// The piece to place from the hold slot: the held piece, or else the piece
/// that follows.
pub open spec fn swap_in(hold: Option<Piece>, follow: Option<Piece>) -> Option<Piece> {
    match hold {
        Some(h) => Some(h),
        None => follow,
    }
}

/// The placements that are tried from a state: those of the piece that is
/// up, then those of the piece from the hold slot if there is one and it is
/// another piece.
pub open spec fn tries(game: Game, piece: Piece, follow: Option<Piece>) -> Seq<PieceLocation> {
    placements_of_both(game.board, piece, swap_in(game.hold, follow), true)
}

/// The frontier after the placement `loc` is tried from `game`: a placement
/// that is not taken up, or after which the piece that follows cannot enter,
/// changes nothing; any other is rated and offered to the frontier.
pub open spec fn tried<E: Eval>(
    eval: E,
    front: Seq<Node>,
    game: Game,
    piece: Piece,
    follow: Option<Piece>,
    loc: PieceLocation,
    id: usize,
    width: int,
) -> Seq<Node> {
    if !takes(game, loc) {
        front
    } else {
        let after = game.after(piece, loc);
        if follow is Some && !after.spawns(follow->0) {
            front
        } else {
            kept(
                front,
                Node { game: after, id, score: eval.rate(after, game.info_after(piece, loc)) },
                width,
            )
        }
    }
}

/// The frontier after the first `n` of the placements `locs` are tried from
/// `game`. With `fixed` every node gets that id, without it the index of its
/// placement in `locs`.
pub open spec fn grown<E: Eval>(
    eval: E,
    front: Seq<Node>,
    game: Game,
    piece: Piece,
    follow: Option<Piece>,
    locs: Seq<PieceLocation>,
    fixed: Option<usize>,
    n: int,
    width: int,
) -> Seq<Node>
    decreases n,
{
    if n <= 0 {
        front
    } else {
        tried(
            eval,
            grown(eval, front, game, piece, follow, locs, fixed, n - 1, width),
            game,
            piece,
            follow,
            locs[n - 1],
            match fixed {
                Some(id) => id,
                None => (n - 1) as usize,
            },
            width,
        )
    }
}

/// The piece at index `i` of the queue, if the queue is that long.
pub open spec fn piece_at(queue: Seq<Piece>, i: int) -> Option<Piece> {
    if 0 <= i < queue.len() {
        Some(queue[i])
    } else {
        None
    }
}

/// The next frontier after the first `n` nodes of `front` are expanded with
/// the piece at index `idx` of the queue.
pub open spec fn expanded<E: Eval>(
    eval: E,
    front: Seq<Node>,
    queue: Seq<Piece>,
    idx: int,
    n: int,
    width: int,
) -> Seq<Node>
    decreases n,
{
    if n <= 0 {
        Seq::empty()
    } else {
        let node = front[n - 1];
        let follow = piece_at(queue, idx + 1);
        let locs = tries(node.game, queue[idx], follow);
        grown(
            eval,
            expanded(eval, front, queue, idx, n - 1, width),
            node.game,
            queue[idx],
            follow,
            locs,
            Some(node.id),
            locs.len() as int,
            width,
        )
    }
}

/// The frontier after the first ply: every placement of the first piece of
/// the queue and of the piece from the hold slot is tried from the root. The
/// piece that follows is the second piece of the queue, if the queue has one.
pub open spec fn first_ply<E: Eval>(eval: E, root: Game, queue: Seq<Piece>, width: int) -> Seq<
    Node,
> {
    let locs = tries(root, queue[0], piece_at(queue, 1));
    grown(eval, Seq::empty(), root, queue[0], piece_at(queue, 1), locs, None, locs.len() as int, width)
}

/// The frontier after `plies` plies, and whether the search has stopped
/// because a ply left nothing.
pub open spec fn frontier<E: Eval>(
    eval: E,
    root: Game,
    queue: Seq<Piece>,
    plies: int,
    width: int,
) -> (Seq<Node>, bool)
    decreases plies,
{
    if plies <= 1 {
        (first_ply(eval, root, queue, width), false)
    } else {
        let (before, stopped) = frontier(eval, root, queue, plies - 1, width);
        if stopped {
            (before, true)
        } else {
            let next = expanded(eval, before, queue, plies - 1, before.len() as int, width);
            if next.len() == 0 {
                (before, true)
            } else {
                (next, false)
            }
        }
    }
}

/// The placement that the search chooses: the first placement on the way to
/// the first node with the greatest score in the last frontier.
pub open spec fn chosen<E: Eval>(
    eval: E,
    root: Game,
    queue: Seq<Piece>,
    depth: int,
    width: int,
) -> Option<PieceLocation> {
    let last = frontier(eval, root, queue, depth, width).0;
    if last.len() == 0 {
        None
    } else {
        Some(tries(root, queue[0], piece_at(queue, 1))[last[best_upto(last, last.len() as int)].id as int])
    }
}

/// Whether every node of a frontier has the index of a placement in `first`
/// that is taken up, and a board without a full row.
pub open spec fn sound(front: Seq<Node>, first: Seq<PieceLocation>) -> bool {
    forall|i: int|
        0 <= i < front.len() ==> (#[trigger] front[i]).id < first.len() && first[front[i].id as int].y
            <= TOP_ROW && front[i].game.board.full_rows() == 0
}

/// The first node with the least and with the greatest score among the
/// first `n` are among the first `n`.
pub proof fn lemma_index_range(front: Seq<Node>, n: int)
    requires
        1 <= n,
    ensures
        0 <= worst_upto(front, n) < n,
        0 <= best_upto(front, n) < n,
    decreases n,
{
    if n > 1 {
        lemma_index_range(front, n - 1);
    }
}

/// The index of the first node with the least score.
fn worst_index(front: &Vec<Node>) -> (w: usize)
    requires
        front.len() > 0,
    ensures
        w == worst_upto(front@, front@.len() as int),
        w < front.len(),
{
    let mut w: usize = 0;
    let mut i: usize = 1;
    while i < front.len()
        invariant
            1 <= i <= front.len(),
            w < i,
            w == worst_upto(front@, i as int),
        decreases front.len() - i,
    {
        if front[i].score < front[w].score {
            w = i;
        }
        i += 1;
    }
    w
}

/// The index of the first node with the greatest score.
fn best_index(front: &Vec<Node>) -> (b: usize)
    requires
        front.len() > 0,
    ensures
        b == best_upto(front@, front@.len() as int),
        b < front.len(),
{
    let mut b: usize = 0;
    let mut i: usize = 1;
    while i < front.len()
        invariant
            1 <= i <= front.len(),
            b < i,
            b == best_upto(front@, i as int),
        decreases front.len() - i,
    {
        if front[i].score > front[b].score {
            b = i;
        }
        i += 1;
    }
    b
}

impl View for Frontier {
    type V = Seq<Node>;

    open spec fn view(&self) -> Seq<Node> {
        self.nodes@
    }
}

impl Frontier {
    /// Whether `worst` is the index of the first node with the least score.
    pub open spec fn wf(self) -> bool {
        self.nodes@.len() > 0 ==> self.worst == worst_upto(self.nodes@, self.nodes@.len() as int)
    }

    /// A frontier without nodes.
    pub fn new() -> (f: Frontier)
        ensures
            f@ == Seq::<Node>::empty(),
            f.wf(),
    {
        Frontier { nodes: Vec::new(), worst: 0 }
    }

    /// The number of nodes.
    pub fn len(&self) -> (n: usize)
        ensures
            n == self@.len(),
    {
        self.nodes.len()
    }

    /// The index of the first node with the greatest score.
    pub fn best(&self) -> (b: usize)
        requires
            self@.len() > 0,
        ensures
            b == best_upto(self@, self@.len() as int),
            b < self@.len(),
    {
        best_index(&self.nodes)
    }
}

/// Offers `node` to the frontier, which holds at most `width` nodes.
pub fn insert_if_better(front: &mut Frontier, node: Node, width: usize)
    requires
        old(front).wf(),
    ensures
        final(front)@ == kept(old(front)@, node, width as int),
        final(front).wf(),
{
    let n = front.nodes.len();
    if n < width {
        if n > 0 {
            proof {
                lemma_index_range(front.nodes@, n as int);
            }
            if node.score < front.nodes[front.worst].score {
                front.worst = n;
            }
        } else {
            front.worst = 0;
        }
        front.nodes.push(node);
        proof {
            lemma_worst_prefix(front.nodes@, old(front).nodes@, n as int);
        }
    } else if n > 0 {
        proof {
            lemma_index_range(front.nodes@, n as int);
        }
        if node.score > front.nodes[front.worst].score {
            front.nodes.set(front.worst, node);
            front.worst = worst_index(&front.nodes);
        }
    }
}

/// The first node with the least score among the first `n` nodes depends on
/// these nodes only.
pub proof fn lemma_worst_prefix(a: Seq<Node>, b: Seq<Node>, n: int)
    requires
        0 <= n <= a.len(),
        n <= b.len(),
        forall|i: int| 0 <= i < n ==> a[i] == b[i],
    ensures
        worst_upto(a, n) == worst_upto(b, n),
    decreases n,
{
    if n > 1 {
        lemma_worst_prefix(a, b, n - 1);
        lemma_index_range(a, n - 1);
    }
}

/// Tries the placement `loc` from `game`.
fn try_one<E: Eval>(
    front: &mut Frontier,
    game: &Game,
    piece: Piece,
    follow: Option<Piece>,
    loc: &PieceLocation,
    id: usize,
    eval: &E,
    width: usize,
    Ghost(first): Ghost<Seq<PieceLocation>>,
)
    requires
        rests_on(game.board, loc.piece, *loc),
        game.board.full_rows() == 0,
        old(front).wf(),
        sound(old(front)@, first),
        id < first.len(),
        takes(*game, *loc) ==> first[id as int].y <= TOP_ROW,
    ensures
        final(front)@ == tried(*eval, old(front)@, *game, piece, follow, *loc, id, width as int),
        final(front).wf(),
        sound(final(front)@, first),
{
    if game.b2b < i16::MAX && game.combo < i8::MAX && loc.y <= TOP_ROW {
        proof {
            lemma_fits(game.board, *loc);
        }
        let mut after: Game = *game;
        let info = after.advance(piece, loc);
        let enters = match follow {
            Some(n) => after.can_spawn_piece(n),
            None => true,
        };
        if enters {
            let score = eval.value(&after, &info);
            let ghost before = front@;
            let node = Node { game: after, id, score };
            insert_if_better(front, node, width);
            proof {
                let w = worst_upto(before, before.len() as int);
                if before.len() > 0 {
                    lemma_index_range(before, before.len() as int);
                }
                assert forall|i: int| 0 <= i < front@.len() implies (#[trigger] front@[i]).id
                    < first.len() && first[front@[i].id as int].y <= TOP_ROW
                    && front@[i].game.board.full_rows() == 0 by {
                    if before.len() < width {
                        assert(front@ == before.push(node));
                        if i < before.len() {
                            assert(front@[i] == before[i]);
                        }
                    } else if before.len() > 0 && node.score > before[w].score {
                        assert(front@ == before.update(w, node));
                        if i != w {
                            assert(front@[i] == before[i]);
                        }
                    } else {
                        assert(front@[i] == before[i]);
                    }
                }
            }
        }
    }
}

/// Tries the placements `arena[start ..]` from `game`.
fn try_all<E: Eval>(
    front: &mut Frontier,
    game: &Game,
    piece: Piece,
    follow: Option<Piece>,
    arena: &Vec<PieceLocation>,
    start: usize,
    fixed: Option<usize>,
    eval: &E,
    width: usize,
    Ghost(first): Ghost<Seq<PieceLocation>>,
)
    requires
        start <= arena.len(),
        arena@.subrange(start as int, arena@.len() as int) == tries(*game, piece, follow),
        game.board.full_rows() == 0,
        old(front).wf(),
        sound(old(front)@, first),
        match fixed {
            Some(id) => id < first.len() && first[id as int].y <= TOP_ROW,
            None => first == tries(*game, piece, follow),
        },
    ensures
        final(front)@ == grown(
            *eval,
            old(front)@,
            *game,
            piece,
            follow,
            tries(*game, piece, follow),
            fixed,
            tries(*game, piece, follow).len() as int,
            width as int,
        ),
        final(front).wf(),
        sound(final(front)@, first),
{
    let ghost locs = tries(*game, piece, follow);
    let mut i: usize = start;
    while i < arena.len()
        invariant
            start <= i <= arena.len(),
            locs == tries(*game, piece, follow),
            arena@.subrange(start as int, arena@.len() as int) == locs,
            game.board.full_rows() == 0,
            front.wf(),
            sound(front@, first),
            match fixed {
                Some(id) => id < first.len() && first[id as int].y <= TOP_ROW,
                None => first == locs,
            },
            front@ == grown(
                *eval,
                old(front)@,
                *game,
                piece,
                follow,
                locs,
                fixed,
                i - start,
                width as int,
            ),
        decreases arena.len() - i,
    {
        let loc = arena[i];
        let id: usize = match fixed {
            Some(id) => id,
            None => i - start,
        };
        proof {
            assert(locs[i - start] == arena@[i as int]);
            lemma_tries_rest(*game, piece, follow, i - start);
        }
        try_one(front, game, piece, follow, &loc, id, eval, width, Ghost(first));
        i += 1;
    }
}

/// In every placement that is tried from a state the piece rests on the board.
pub proof fn lemma_tries_rest(game: Game, piece: Piece, follow: Option<Piece>, i: int)
    requires
        0 <= i < tries(game, piece, follow).len(),
    ensures
        rests_on(game.board, tries(game, piece, follow)[i].piece, tries(game, piece, follow)[i]),
{
    let first = placements(game.board, piece, true);
    if i < first.len() {
        lemma_placements_rest(game.board, piece, true, i);
    } else {
        let h = other_piece(piece, swap_in(game.hold, follow))->0;
        lemma_placements_rest(game.board, h, true, i - first.len());
    }
}

/// The placement to make: that of the beam search of the given depth and
/// width over the pieces of the queue, rated by `eval`; or nothing if no
/// placement of the first ply leaves room for the piece that follows. The
/// queue holds the piece that is up and a piece for every ply; where no
/// second piece is queued, the first ply asks for no room for it.
pub fn search<E: Eval>(
    root: &Game,
    queue: &Vec<Piece>,
    eval: &E,
    depth: usize,
    width: usize,
) -> (r: Option<PieceLocation>)
    requires
        queue.len() >= depth,
        queue.len() >= 1,
        root.wf(),
    ensures
        r == chosen(*eval, *root, queue@, depth as int, width as int),
        r matches Some(loc) ==> rests_on(root.board, loc.piece, loc) && loc.on_board() && (loc.piece
            == queue@[0] || Some(loc.piece) == swap_in(root.hold, piece_at(queue@, 1))),
{
    let mut heap = Frontier::new();
    let mut arena: Vec<PieceLocation> = Vec::new();
    let second: Option<Piece> = if queue.len() > 1 {
        Some(queue[1])
    } else {
        None
    };
    let hold: Option<Piece> = match root.hold {
        Some(h) => Some(h),
        None => second,
    };
    movegen(&mut arena, &root.board, queue[0], hold, true);
    let ghost first = tries(*root, queue@[0], piece_at(queue@, 1));
    assert(arena@ =~= first);
    assert(arena@.subrange(0, arena@.len() as int) =~= first);
    let base: usize = arena.len();
    try_all(
        &mut heap,
        root,
        queue[0],
        second,
        &arena,
        0,
        None,
        eval,
        width,
        Ghost(first),
    );
    let mut idx: usize = 1;
    let ghost mut stopped = false;
    while idx < depth
        invariant
            1 <= idx,
            queue.len() >= depth,
            queue.len() >= 1,
            depth <= 1 || idx <= depth,
            depth <= 1 ==> idx == 1,
            base == first.len(),
            first == tries(*root, queue@[0], piece_at(queue@, 1)),
            arena@.subrange(0, base as int) == first,
            base <= arena.len(),
            sound(heap@, first),
            heap.wf(),
            !stopped,
            (heap@, stopped) == frontier(*eval, *root, queue@, idx as int, width as int),
        ensures
            depth <= 1 || idx <= depth,
            base == first.len(),
            arena@.subrange(0, base as int) == first,
            base <= arena.len(),
            sound(heap@, first),
            heap@ == frontier(
                *eval,
                *root,
                queue@,
                if depth <= 1 {
                    1
                } else {
                    depth as int
                },
                width as int,
            ).0,
        decreases depth - idx,
    {
        let mut next = Frontier::new();
        let follow: Option<Piece> = if idx + 1 < queue.len() {
            Some(queue[idx + 1])
        } else {
            None
        };
        let mut k: usize = 0;
        while k < heap.len()
            invariant
                k <= heap@.len(),
                idx < queue.len(),
                follow == piece_at(queue@, idx + 1),
                base == first.len(),
                arena@.subrange(0, base as int) == first,
                base <= arena.len(),
                sound(heap@, first),
                sound(next@, first),
                next.wf(),
                next@ == expanded(*eval, heap@, queue@, idx as int, k as int, width as int),
            decreases heap@.len() - k,
        {
            let node = heap.nodes[k];
            let ghost kept_arena = arena@;
            let start = movegen(
                &mut arena,
                &node.game.board,
                queue[idx],
                match node.game.hold {
                    Some(h) => Some(h),
                    None => follow,
                },
                true,
            );
            proof {
                assert(arena@.subrange(start as int, arena@.len() as int) =~= tries(
                    node.game,
                    queue@[idx as int],
                    follow,
                ));
                assert(arena@.subrange(0, base as int) =~= kept_arena.subrange(0, base as int));
            }
            try_all(
                &mut next,
                &node.game,
                queue[idx],
                follow,
                &arena,
                start,
                Some(node.id),
                eval,
                width,
                Ghost(first),
            );
            k += 1;
        }
        if next.len() == 0 {
            proof {
                lemma_stopped(*eval, *root, queue@, idx as int, depth as int, width as int);
            }
            break ;
        }

        heap = next;
        idx += 1;
    }
    if heap.len() == 0 {
        return None;
    }
    let b = heap.best();
    assert(heap@[b as int].id < base);
    assert(arena@.subrange(0, base as int)[heap@[b as int].id as int] == arena@[heap@[b as int].id as int]);
    let loc = arena[heap.nodes[b].id];
    proof {
        lemma_tries_rest(*root, queue@[0], piece_at(queue@, 1), heap@[b as int].id as int);
        lemma_fits(root.board, loc);
        lemma_tries_piece(*root, queue@[0], piece_at(queue@, 1), heap@[b as int].id as int);
    }
    Some(loc)
}

/// Every placement that is tried from a state is one of the piece that is
/// up or of the piece from the hold slot.
pub proof fn lemma_tries_piece(game: Game, piece: Piece, follow: Option<Piece>, i: int)
    requires
        0 <= i < tries(game, piece, follow).len(),
    ensures
        tries(game, piece, follow)[i].piece == piece || Some(tries(game, piece, follow)[i].piece)
            == swap_in(game.hold, follow),
{
    let first = placements(game.board, piece, true);
    if i < first.len() {
        lemma_placements_rest(game.board, piece, true, i);
    } else {
        let h = other_piece(piece, swap_in(game.hold, follow))->0;
        lemma_placements_rest(game.board, h, true, i - first.len());
    }
}

/// Two runs of the search on the same state, queue, rating, depth and width
/// choose the same placement.
pub proof fn lemma_search_repeats<E: Eval>(
    eval: E,
    root: Game,
    queue: Seq<Piece>,
    depth: int,
    width: int,
    first: Option<PieceLocation>,
    second: Option<PieceLocation>,
)
    requires
        first == chosen(eval, root, queue, depth, width),
        second == chosen(eval, root, queue, depth, width),
    ensures
        first == second,
{
}

/// With a depth of one, or of none, the search looks at the first two
/// pieces of the queue only.
pub proof fn lemma_depth_one<E: Eval>(
    eval: E,
    root: Game,
    queue: Seq<Piece>,
    other: Seq<Piece>,
    depth: int,
    width: int,
)
    requires
        depth <= 1,
        queue.len() >= 1,
        other.len() >= 1,
        queue[0] == other[0],
        piece_at(queue, 1) == piece_at(other, 1),
    ensures
        chosen(eval, root, queue, depth, width) == chosen(eval, root, other, depth, width),
        frontier(eval, root, queue, depth, width).0 == grown(
            eval,
            Seq::empty(),
            root,
            queue[0],
            piece_at(queue, 1),
            tries(root, queue[0], piece_at(queue, 1)),
            None,
            tries(root, queue[0], piece_at(queue, 1)).len() as int,
            width,
        ),
{
}

/// Whether a placement that is tried counts: it is taken up, and after it
/// the piece that follows can enter the board.
pub open spec fn counts(game: Game, piece: Piece, follow: Option<Piece>, loc: PieceLocation) -> bool {
    takes(game, loc) && (follow is Some ==> game.after(piece, loc).spawns(follow->0))
}

/// The rating of the state that a placement leads to.
pub open spec fn rating<E: Eval>(eval: E, game: Game, piece: Piece, loc: PieceLocation) -> i64 {
    eval.rate(game.after(piece, loc), game.info_after(piece, loc))
}

/// No node of a frontier has a greater score than the first node with the
/// greatest score.
pub proof fn lemma_best_is_greatest(front: Seq<Node>, n: int, k: int)
    requires
        0 <= k < n <= front.len(),
    ensures
        front[k].score <= front[best_upto(front, n)].score,
        0 <= best_upto(front, n) < n,
    decreases n,
{
    lemma_index_range(front, n);
    if n > 1 {
        lemma_index_range(front, n - 1);
        if k < n - 1 {
            lemma_best_is_greatest(front, n - 1, k);
        }
    }
}

/// No node of a frontier has a lesser score than the first node with the
/// least score.
pub proof fn lemma_worst_is_least(front: Seq<Node>, n: int, k: int)
    requires
        0 <= k < n <= front.len(),
    ensures
        front[worst_upto(front, n)].score <= front[k].score,
        0 <= worst_upto(front, n) < n,
    decreases n,
{
    lemma_index_range(front, n);
    if n > 1 {
        lemma_index_range(front, n - 1);
        if k < n - 1 {
            lemma_worst_is_least(front, n - 1, k);
        }
    }
}

/// A frontier of a width of one or more, after a node was offered to it,
/// holds a node with a score no less than that of the node offered and no
/// less than that of any node it held; and each node that it holds it held
/// before, or it is the node offered.
pub proof fn lemma_kept_best(front: Seq<Node>, node: Node, width: int)
    requires
        width >= 1,
    ensures
        kept(front, node, width).len() > 0,
        node.score <= kept(front, node, width)[best_upto(
            kept(front, node, width),
            kept(front, node, width).len() as int,
        )].score,
        forall|k: int|
            0 <= k < front.len() ==> (#[trigger] front[k]).score <= kept(
                front,
                node,
                width,
            )[best_upto(kept(front, node, width), kept(front, node, width).len() as int)].score,
        forall|k: int|
            0 <= k < kept(front, node, width).len() ==> #[trigger] kept(front, node, width)[k]
                == node || (k < front.len() && kept(front, node, width)[k] == front[k]),
{
    let after = kept(front, node, width);
    let n = front.len() as int;
    if n < width {
        assert(after == front.push(node));
        lemma_best_is_greatest(after, after.len() as int, n);
        assert forall|k: int| 0 <= k < front.len() implies (#[trigger] front[k]).score
            <= after[best_upto(after, after.len() as int)].score by {
            lemma_best_is_greatest(after, after.len() as int, k);
            assert(after[k] == front[k]);
        }
    } else {
        let w = worst_upto(front, n);
        lemma_index_range(front, n);
        if node.score > front[w].score {
            assert(after == front.update(w, node));
            lemma_best_is_greatest(after, after.len() as int, w);
            assert forall|k: int| 0 <= k < front.len() implies (#[trigger] front[k]).score
                <= after[best_upto(after, after.len() as int)].score by {
                if k == w {
                    lemma_best_is_greatest(after, after.len() as int, w);
                } else {
                    lemma_best_is_greatest(after, after.len() as int, k);
                    assert(after[k] == front[k]);
                }
            }
        } else {
            assert(after == front);
            lemma_best_is_greatest(front, n, w);
            assert forall|k: int| 0 <= k < front.len() implies (#[trigger] front[k]).score
                <= after[best_upto(after, after.len() as int)].score by {
                lemma_best_is_greatest(front, n, k);
            }
        }
    }
}

/// What the frontier holds after the first `n` placements were tried from a
/// state, starting from nothing and with a width of one or more: each node
/// stands for a placement that counts, and has its rating as its score; and
/// no placement that counts has a greater rating than the first node with
/// the greatest score.
pub proof fn lemma_grown_best<E: Eval>(
    eval: E,
    game: Game,
    piece: Piece,
    follow: Option<Piece>,
    locs: Seq<PieceLocation>,
    n: int,
    width: int,
)
    requires
        width >= 1,
        0 <= n <= locs.len() <= usize::MAX,
    ensures
        ({
            let f = grown(eval, Seq::empty(), game, piece, follow, locs, None, n, width);
            &&& forall|k: int|
                0 <= k < f.len() ==> (#[trigger] f[k]).id < n && counts(
                    game,
                    piece,
                    follow,
                    locs[f[k].id as int],
                ) && f[k].score == rating(eval, game, piece, locs[f[k].id as int])
            &&& forall|i: int|
                0 <= i < n && counts(game, piece, follow, #[trigger] locs[i]) ==> f.len() > 0
                    && rating(eval, game, piece, locs[i]) <= f[best_upto(f, f.len() as int)].score
        }),
    decreases n,
{
    if n > 0 {
        lemma_grown_best(eval, game, piece, follow, locs, n - 1, width);
        let before = grown(eval, Seq::empty(), game, piece, follow, locs, None, n - 1, width);
        let f = grown(eval, Seq::empty(), game, piece, follow, locs, None, n, width);
        let loc = locs[n - 1];
        if counts(game, piece, follow, loc) {
            let node = Node {
                game: game.after(piece, loc),
                id: (n - 1) as usize,
                score: rating(eval, game, piece, loc),
            };
            assert(f == kept(before, node, width));
            lemma_kept_best(before, node, width);
            assert forall|i: int|
                0 <= i < n && counts(game, piece, follow, #[trigger] locs[i]) implies f.len() > 0
                && rating(eval, game, piece, locs[i]) <= f[best_upto(f, f.len() as int)].score by {
                if i < n - 1 {
                    let b = best_upto(before, before.len() as int);
                    lemma_index_range(before, before.len() as int);
                    assert(before[b].score <= f[best_upto(f, f.len() as int)].score);
                }
            }
        } else {
            assert(f == before);
        }
    }
}

/// With a depth of one, or of none, and a width of one or more, the search
/// chooses among the placements of the first ply those that count: it finds
/// nothing exactly when none of them counts, and else it chooses one that
/// counts and whose rating none of the others that count exceeds. The
/// choice depends on the first two pieces of the queue only.
pub proof fn lemma_depth_one_best<E: Eval>(
    eval: E,
    root: Game,
    queue: Seq<Piece>,
    depth: int,
    width: int,
)
    requires
        depth <= 1,
        width >= 1,
        queue.len() >= 1,
    ensures
        ({
            let locs = tries(root, queue[0], piece_at(queue, 1));
            let r = chosen(eval, root, queue, depth, width);
            &&& r is None <==> forall|i: int|
                0 <= i < locs.len() ==> !counts(root, queue[0], piece_at(queue, 1), #[trigger] locs[i])
            &&& r matches Some(p) ==> exists|i: int|
                0 <= i < locs.len() && #[trigger] locs[i] == p && counts(
                    root,
                    queue[0],
                    piece_at(queue, 1),
                    p,
                ) && forall|j: int|
                    0 <= j < locs.len() && counts(root, queue[0], piece_at(queue, 1), #[trigger] locs[j])
                        ==> rating(eval, root, queue[0], locs[j]) <= rating(
                        eval,
                        root,
                        queue[0],
                        p,
                    )
        }),
{
    let piece = queue[0];
    let follow = piece_at(queue, 1);
    let locs = tries(root, piece, follow);
    lemma_placements_len(root.board, piece, true);
    if other_piece(piece, swap_in(root.hold, follow)) is Some {
        lemma_placements_len(root.board, other_piece(piece, swap_in(root.hold, follow))->0, true);
    }
    lemma_grown_best(eval, root, piece, follow, locs, locs.len() as int, width);
    let f = grown(eval, Seq::empty(), root, piece, follow, locs, None, locs.len() as int, width);
    assert(frontier(eval, root, queue, depth, width).0 == f);
    let r = chosen(eval, root, queue, depth, width);
    if f.len() > 0 {
        let b = best_upto(f, f.len() as int);
        lemma_index_range(f, f.len() as int);
        let i = f[b].id as int;
        assert(locs[i] == r->0);
        assert(counts(root, piece, follow, locs[i]));
    }
}

/// With a width of one the frontier is the one best node so far: a node
/// that is offered takes its place if its score is greater, and else is
/// dropped.
pub proof fn lemma_width_one(front: Seq<Node>, node: Node)
    requires
        front.len() <= 1,
    ensures
        kept(front, node, 1).len() == 1,
        kept(front, node, 1)[0] == if front.len() == 0 || node.score > front[0].score {
            node
        } else {
            front[0]
        },
{
}

/// With a width of one every ply leaves at most one node: the first of the
/// placements tried whose score none before it reaches.
pub proof fn lemma_width_one_grown<E: Eval>(
    eval: E,
    front: Seq<Node>,
    game: Game,
    piece: Piece,
    follow: Option<Piece>,
    locs: Seq<PieceLocation>,
    fixed: Option<usize>,
    n: int,
)
    requires
        front.len() <= 1,
        0 <= n <= locs.len(),
    ensures
        grown(eval, front, game, piece, follow, locs, fixed, n, 1).len() <= 1,
    decreases n,
{
    if n > 0 {
        lemma_width_one_grown(eval, front, game, piece, follow, locs, fixed, n - 1);
    }
}

/// Once a ply has left nothing, the frontier stays as it is.
pub proof fn lemma_stopped<E: Eval>(
    eval: E,
    root: Game,
    queue: Seq<Piece>,
    at: int,
    depth: int,
    width: int,
)
    requires
        1 <= at < depth,
        !frontier(eval, root, queue, at, width).1,
        expanded(
            eval,
            frontier(eval, root, queue, at, width).0,
            queue,
            at,
            frontier(eval, root, queue, at, width).0.len() as int,
            width,
        ).len() == 0,
    ensures
        frontier(eval, root, queue, depth, width) == (frontier(eval, root, queue, at, width).0, true),
    decreases depth - at,
{
    if depth > at + 1 {
        lemma_stopped(eval, root, queue, at, depth - 1, width);
    }
}

} // verus!
