use tetrizz::battle::{advance_player, Battle, Player};
use tetrizz::data::{Board, Piece, PieceLocation, Spin};
use tetrizz::game::{Game, PlacementInfo};
use tetrizz::movegen::movegen;
use tetrizz::queue::{append_bag, extend_queue};
use tetrizz::search::{insert_if_better, search, Eval, Frontier, Node};

/// Rates a state by how low and how even its stack is.
struct Low;

impl Eval for Low {
    fn rate(&self, game: Game, info: PlacementInfo) -> i64 {
        self.value(&game, &info)
    }

    fn value(&self, game: &Game, info: &PlacementInfo) -> i64 {
        let mut score: i64 = 0;
        let mut last: i64 = -1;
        for c in game.board.cols {
            let h = 64 - c.leading_zeros() as i64;
            score -= h * h;
            score -= (c.count_zeros() as i64 - (64 - h)) * 10;
            if last >= 0 {
                score -= (h - last).abs();
            }
            last = h;
        }
        score + 100 * info.lines_cleared as i64
    }
}

/// Rates every state alike.
struct Same;

impl Eval for Same {
    fn rate(&self, game: Game, info: PlacementInfo) -> i64 {
        self.value(&game, &info)
    }

    fn value(&self, _game: &Game, _info: &PlacementInfo) -> i64 {
        7
    }
}

fn node(id: usize, score: i64) -> Node {
    Node { game: Game::new_empty(), id, score }
}

fn ids(front: &[Node]) -> Vec<(usize, i64)> {
    front.iter().map(|n| (n.id, n.score)).collect()
}

#[test]
fn frontier_keeps_the_best_nodes() {
    let mut front = Frontier::new();
    insert_if_better(&mut front, node(0, 5), 2);
    insert_if_better(&mut front, node(1, 3), 2);
    assert_eq!(ids(&front.nodes), vec![(0, 5), (1, 3)]);
    // a node that is no better than the worst is dropped
    insert_if_better(&mut front, node(2, 3), 2);
    assert_eq!(ids(&front.nodes), vec![(0, 5), (1, 3)]);
    insert_if_better(&mut front, node(3, 4), 2);
    assert_eq!(ids(&front.nodes), vec![(0, 5), (3, 4)]);
    insert_if_better(&mut front, node(4, 9), 2);
    assert_eq!(ids(&front.nodes), vec![(0, 5), (4, 9)]);
}

#[test]
fn frontier_of_width_none_stays_empty() {
    let mut front = Frontier::new();
    insert_if_better(&mut front, node(0, 5), 0);
    assert_eq!(front.len(), 0);
}

#[test]
fn frontier_of_width_one_is_the_best_so_far() {
    let mut front = Frontier::new();
    for (i, s) in [3i64, 1, 4, 1, 5, 9, 2, 6].iter().enumerate() {
        insert_if_better(&mut front, node(i, *s), 1);
        assert_eq!(front.len(), 1);
    }
    assert_eq!(ids(&front.nodes), vec![(5, 9)]);
}

fn queue() -> Vec<Piece> {
    vec![Piece::I, Piece::S, Piece::J, Piece::Z, Piece::T, Piece::O, Piece::L, Piece::S, Piece::J]
}

fn same(a: &Option<PieceLocation>, b: &Option<PieceLocation>) -> bool {
    match (a, b) {
        (None, None) => true,
        (Some(a), Some(b)) => {
            a.piece == b.piece && a.x == b.x && a.y == b.y && a.rotation == b.rotation && a.spin == b.spin
        }
        _ => false,
    }
}

#[test]
fn search_finds_a_placement_on_an_empty_board() {
    let root = Game::new_empty();
    let found = search(&root, &queue(), &Low, 3, 20).unwrap();
    assert!(found.piece == Piece::I || found.piece == Piece::S);
    assert_eq!(found.y, if found.piece == Piece::I && found.rotation == tetrizz::data::Rotation::East { 2 } else { 0 });
    assert!(!root.board.obstructed(&found));
}

#[test]
fn search_repeats_its_choice() {
    let mut root = Game::new_empty();
    root.board = Board { cols: [127, 63, 31, 15, 1, 15, 3, 3, 7, 15] };
    for (depth, width) in [(1usize, 1usize), (2, 3), (3, 10), (4, 4)] {
        let first = search(&root, &queue(), &Low, depth, width);
        let second = search(&root, &queue(), &Low, depth, width);
        assert!(first.is_some());
        assert!(same(&first, &second));
    }
}

#[test]
fn search_of_depth_one_looks_at_two_pieces_only() {
    let mut root = Game::new_empty();
    root.board = Board { cols: [7, 7, 7, 7, 7, 7, 7, 7, 7, 0] };
    let a = vec![Piece::I, Piece::T, Piece::O, Piece::O, Piece::O];
    let b = vec![Piece::I, Piece::T, Piece::Z, Piece::S, Piece::L];
    assert!(same(&search(&root, &a, &Low, 1, 50), &search(&root, &b, &Low, 1, 50)));
    assert!(same(&search(&root, &a, &Low, 0, 50), &search(&root, &a, &Low, 1, 50)));
    // the best single placement is the I piece upright in the well
    let found = search(&root, &a, &Low, 1, 50).unwrap();
    assert_eq!((found.piece, found.x, found.y), (Piece::I, 9, 2));
}

#[test]
fn search_with_equal_scores_takes_the_first_placement() {
    let root = Game::new_empty();
    let q = queue();
    let mut arena = vec![];
    movegen(&mut arena, &root.board, q[0], Some(q[1]), true);
    let found = search(&root, &q, &Same, 1, 1).unwrap();
    assert!(same(&Some(found), &Some(arena[0])));
}

#[test]
fn search_of_width_none_finds_nothing() {
    let root = Game::new_empty();
    assert!(search(&root, &queue(), &Low, 3, 0).is_none());
}

#[test]
fn search_finds_nothing_when_no_piece_can_follow() {
    let mut root = Game::new_empty();
    // the stack reaches far above the rows where pieces enter
    for x in 0..9 {
        root.board.cols[x] = (1 << 41) - 1;
    }
    assert!(search(&root, &queue(), &Low, 2, 5).is_none());
    assert!(search(&root, &queue(), &Low, 1, 5).is_none());
}

#[test]
fn search_uses_the_held_piece() {
    let mut root = Game::new_empty();
    root.board = Board { cols: [15, 15, 15, 15, 15, 15, 15, 15, 15, 0] };
    root.hold = Some(Piece::I);
    let q = vec![Piece::O, Piece::O, Piece::O];
    let found = search(&root, &q, &Low, 1, 10).unwrap();
    assert_eq!((found.piece, found.x, found.y, found.spin), (Piece::I, 9, 2, Spin::NoSpin));
}

#[test]
fn extend_queue_appends_whole_bags() {
    let mut q = vec![Piece::T, Piece::T];
    extend_queue(&mut q, 3);
    assert_eq!(q.len(), 2 + 21);
    assert_eq!(&q[..2], &[Piece::T, Piece::T]);
    for bag in q[2..].chunks(7) {
        for p in [Piece::I, Piece::J, Piece::L, Piece::O, Piece::S, Piece::T, Piece::Z] {
            assert_eq!(bag.iter().filter(|b| **b == p).count(), 1);
        }
    }
    extend_queue(&mut q, 0);
    assert_eq!(q.len(), 23);
}

#[test]
fn extend_queue_shuffles_the_bags() {
    let mut q = vec![];
    extend_queue(&mut q, 200);
    let in_order = [Piece::I, Piece::J, Piece::L, Piece::O, Piece::S, Piece::T, Piece::Z];
    assert!(q.chunks(7).any(|bag| bag != in_order));
}

#[test]
fn append_bag_keeps_the_order() {
    let mut q = vec![Piece::O];
    let bag = vec![Piece::Z, Piece::T, Piece::S, Piece::O, Piece::L, Piece::J, Piece::I];
    append_bag(&mut q, &bag);
    assert_eq!(q, vec![Piece::O, Piece::Z, Piece::T, Piece::S, Piece::O, Piece::L, Piece::J, Piece::I]);
}

#[test]
fn perft_counts_the_placements() {
    let queue = [Piece::I, Piece::O, Piece::L, Piece::J, Piece::S, Piece::Z, Piece::T];
    let game = Game::new_empty();
    let mut arena = vec![];
    assert_eq!(tetrizz::perft::perft(&mut arena, &game, &queue, 0, 1), 17);
    assert_eq!(arena.len(), 17);
    // on top of each of the 17 placements of the I piece the O piece has 9
    assert_eq!(tetrizz::perft::perft(&mut arena, &game, &queue, 0, 2), 17 * 9);
    assert_eq!(tetrizz::perft::perft(&mut arena, &game, &queue, 1, 1), 9);
    assert_eq!(tetrizz::perft::perft(&mut arena, &game, &queue, 6, 1), 34);
    assert_eq!(tetrizz::perft::try_perft(&mut arena, &game, &queue, 0, 2), Some(17 * 9));
}

#[test]
fn battle_lets_the_players_take_turns() {
    let q = vec![Piece::O, Piece::I, Piece::T, Piece::L, Piece::J, Piece::S];
    let mut battle = Battle {
        player0: Player { game: Game::new_empty(), queue: q.clone(), eval: Same },
        player1: Player { game: Game::new_empty(), queue: q.clone(), eval: Same },
        who: 0,
    };
    let first = battle.advance().unwrap();
    assert_eq!(battle.who, 1);
    assert_eq!((first.piece, first.x, first.y), (Piece::O, 0, 0));
    assert_eq!(battle.player0.game.board.cols, [3, 3, 0, 0, 0, 0, 0, 0, 0, 0]);
    assert_eq!(battle.player1.game.board.cols, [0u64; 10]);
    let second = battle.advance().unwrap();
    assert_eq!(battle.who, 0);
    assert_eq!((second.piece, second.x, second.y), (Piece::O, 0, 0));
    assert_eq!(battle.player1.game.board.cols, [3, 3, 0, 0, 0, 0, 0, 0, 0, 0]);
    // a quad sends its attack to the other player
    let mut a = Player { game: Game::new_empty(), queue: vec![Piece::I; 6], eval: Low };
    let mut b = Player { game: Game::new_empty(), queue: q, eval: Low };
    for x in 0..9 {
        a.game.board.cols[x] = 15;
    }
    b.game.incoming_garbage = 2;
    let placed = advance_player(&mut a, &mut b).unwrap();
    assert_eq!((placed.piece, placed.x, placed.y), (Piece::I, 9, 2));
    assert_eq!(a.game.board.cols, [0u64; 10]);
    assert_eq!(b.game.incoming_garbage, 2 + 9);
    assert_eq!(b.game.board.cols, [0u64; 10]);
}

#[test]
fn search_tries_a_piece_once_when_it_is_held_too() {
    let mut root = Game::new_empty();
    root.hold = Some(Piece::O);
    let q = vec![Piece::O, Piece::I, Piece::T];
    let held = search(&root, &q, &Same, 1, 3);
    root.hold = None;
    let twice = vec![Piece::O, Piece::O, Piece::T];
    let followed = search(&root, &twice, &Same, 1, 3);
    // with equal scores the first placement is chosen either way
    let mut arena = vec![];
    movegen(&mut arena, &root.board, Piece::O, None, true);
    assert!(same(&held, &Some(arena[0])));
    assert!(same(&followed, &Some(arena[0])));
    // a frontier of nine holds each placement of the O piece once
    let mut front = Frontier::new();
    for (i, _) in arena.iter().enumerate() {
        insert_if_better(&mut front, node(i, 7), 9);
    }
    assert_eq!(front.len(), 9);
}

#[test]
fn search_takes_a_queue_of_one_piece() {
    let root = Game::new_empty();
    let q = vec![Piece::T];
    let mut arena = vec![];
    movegen(&mut arena, &root.board, Piece::T, None, true);
    // no piece follows: every placement of the T piece counts, the first wins
    assert!(same(&search(&root, &q, &Same, 0, 4), &Some(arena[0])));
    assert!(same(&search(&root, &q, &Same, 1, 4), &Some(arena[0])));
    // with the stack rated, the best placement of the T piece is chosen
    let best = search(&root, &q, &Low, 1, 1).unwrap();
    assert_eq!(best.piece, Piece::T);
    let mut top = i64::MIN;
    for loc in &arena {
        let mut game = root.clone();
        let info = game.advance(Piece::T, loc);
        top = top.max(Low.value(&game, &info));
    }
    let mut game = root.clone();
    let info = game.advance(Piece::T, &best);
    assert_eq!(Low.value(&game, &info), top);
    // the held piece is tried beside it
    let mut held = Game::new_empty();
    held.hold = Some(Piece::I);
    let both = search(&held, &q, &Low, 1, 1).unwrap();
    assert!(both.piece == Piece::T || both.piece == Piece::I);
}
