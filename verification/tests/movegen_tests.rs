use tetrizz::data::{Board, Piece, PieceLocation, Rotation, Spin};
use tetrizz::game::Game;
use tetrizz::movegen::{
    bb, bb_low, movegen, movegen_piece, movegen_piece_nospin, movegen_piece_o, movegen_piece_t,
    xrot_idx,
};

const PIECES: [Piece; 7] =
    [Piece::I, Piece::O, Piece::T, Piece::L, Piece::J, Piece::S, Piece::Z];
const ROTATIONS: [Rotation; 4] =
    [Rotation::North, Rotation::East, Rotation::South, Rotation::West];

fn blocked(board: &Board, piece: Piece, rot: Rotation, x: i8, y: i8) -> bool {
    for (dx, dy) in piece.cells(rot) {
        let (cx, cy) = (x + dx, y + dy);
        if cx < 0 || cx > 9 || cy < 0 {
            return true;
        }
        if cy < 64 && board.cols[cx as usize] & (1u64 << cy) != 0 {
            return true;
        }
    }
    false
}

fn listed(piece: Piece, rot: Rotation) -> bool {
    match piece {
        Piece::O => rot == Rotation::North,
        Piece::S | Piece::Z | Piece::I => rot == Rotation::North || rot == Rotation::East,
        _ => true,
    }
}

/// Every resting position on the board, tried cell by cell.
fn by_hand(board: &Board, piece: Piece) -> Vec<(i8, i8, usize)> {
    let mut out = vec![];
    for x in 0..10i8 {
        for rot in ROTATIONS {
            if !listed(piece, rot) {
                continue;
            }
            for y in 0..40i8 {
                if !blocked(board, piece, rot, x, y) && blocked(board, piece, rot, x, y - 1) {
                    out.push((x, y, rot.ordinal()));
                }
            }
        }
    }
    out.sort();
    out
}

fn generated(board: &Board, piece: Piece) -> Vec<PieceLocation> {
    let mut arena = vec![];
    let start = movegen_piece(&mut arena, board, piece, true);
    assert_eq!(start, 0);
    arena
}

fn positions(moves: &[PieceLocation]) -> Vec<(i8, i8, usize)> {
    let mut out: Vec<(i8, i8, usize)> =
        moves.iter().map(|m| (m.x, m.y, m.rotation.ordinal())).collect();
    out.sort();
    out.dedup();
    out
}

fn boards() -> Vec<Board> {
    vec![
        Board { cols: [0; 10] },
        // a flat stack with a well on the right
        Board { cols: [7, 7, 7, 7, 7, 7, 7, 7, 7, 0] },
        // a well in the middle of a high, low board
        Board { cols: [0x3ffff, 0x3ffff, 0x3ffff, 0x3ffff, 0, 0x3ffff, 0x3ffff, 0x3ffff, 0x3ffff, 0x3ffff] },
        // steps
        Board { cols: [1, 3, 7, 15, 31, 31, 15, 7, 3, 1] },
        // a ragged surface without overhangs
        Board { cols: [127, 63, 31, 15, 1, 15, 3, 3, 7, 15] },
    ]
}

#[test]
fn empty_board_counts() {
    let board = Board { cols: [0; 10] };
    assert_eq!(generated(&board, Piece::I).len(), 17);
    assert_eq!(generated(&board, Piece::O).len(), 9);
    assert_eq!(generated(&board, Piece::T).len(), 34);
    assert_eq!(generated(&board, Piece::L).len(), 34);
    assert_eq!(generated(&board, Piece::J).len(), 34);
    assert_eq!(generated(&board, Piece::S).len(), 17);
    assert_eq!(generated(&board, Piece::Z).len(), 17);
}

#[test]
fn empty_board_placements_lie_on_the_floor() {
    let board = Board { cols: [0; 10] };
    let moves = generated(&board, Piece::O);
    for (i, m) in moves.iter().enumerate() {
        assert_eq!(m.piece, Piece::O);
        assert_eq!(m.x, i as i8);
        assert_eq!(m.y, 0);
        assert_eq!(m.rotation, Rotation::North);
        assert_eq!(m.spin, Spin::NoSpin);
    }
}

#[test]
fn every_placement_fits_and_rests() {
    let mut all = boards();
    all.push(Board { cols: [6665, 64, 119, 3608, 0, 18, 703, 9, 4224, 16583] });
    all.push(Board { cols: [1, 0, 77, 112, 19, 16, 113, 192, 0, 12] });
    all.push(Board { cols: [0, 0, 0, 0, 63, 36, 36, 0, 0, 0] });
    all.push(Board { cols: [524287, 262143, 262143, 131071, 131071, 131071, 65534, 21844, 0, 0] });
    for board in &all {
        for piece in PIECES {
            let moves = generated(board, piece);
            for m in &moves {
                assert_eq!(m.piece, piece);
                assert!(!board.obstructed(m));
                assert!(!blocked(board, piece, m.rotation, m.x, m.y));
                assert!(blocked(board, piece, m.rotation, m.x, m.y - 1));
                assert!(listed(piece, m.rotation));
            }
        }
    }
}

#[test]
fn generating_twice_gives_the_same_placements() {
    for board in boards() {
        for piece in PIECES {
            let first = generated(&board, piece);
            let second = generated(&board, piece);
            assert_eq!(first.len(), second.len());
            for (a, b) in first.iter().zip(second.iter()) {
                assert_eq!((a.x, a.y, a.rotation, a.spin, a.piece), (b.x, b.y, b.rotation, b.spin, b.piece));
            }
        }
    }
}

#[test]
fn matches_the_search_by_hand_on_open_boards() {
    for board in boards() {
        for piece in PIECES {
            assert_eq!(positions(&generated(&board, piece)), by_hand(&board, piece));
        }
    }
}

#[test]
fn no_position_is_listed_twice_with_one_spin() {
    for board in boards() {
        for piece in PIECES {
            let moves = generated(&board, piece);
            let mut keys: Vec<(i8, i8, usize, u8)> = moves
                .iter()
                .map(|m| {
                    (m.x, m.y, m.rotation.ordinal(), match m.spin {
                        Spin::NoSpin => 0,
                        Spin::Mini => 1,
                        Spin::Full => 2,
                    })
                })
                .collect();
            let n = keys.len();
            keys.sort();
            keys.dedup();
            assert_eq!(keys.len(), n);
        }
    }
}

fn tsd_board() -> Board {
    // row 0 is full but for column 4, row 1 but for columns 3 to 5, and
    // row 2 hangs over column 3
    let mut cols = [0u64; 10];
    for x in 0..10 {
        if x != 4 {
            cols[x] |= 1;
        }
        if x < 3 || x > 5 {
            cols[x] |= 2;
        }
        if x <= 3 || x >= 6 {
            cols[x] |= 4;
        }
    }
    Board { cols }
}

#[test]
fn t_piece_turned_into_a_pocket_is_a_full_spin() {
    let board = tsd_board();
    let moves = generated(&board, Piece::T);
    let pocket: Vec<&PieceLocation> = moves
        .iter()
        .filter(|m| m.x == 4 && m.y == 1 && m.rotation == Rotation::South)
        .collect();
    assert_eq!(pocket.len(), 1);
    assert_eq!(pocket[0].spin, Spin::Full);
}

#[test]
fn t_piece_that_drops_or_slides_has_no_spin() {
    let board = Board { cols: [0; 10] };
    for m in generated(&board, Piece::T) {
        assert_eq!(m.spin, Spin::NoSpin);
    }
    let stack = Board { cols: [127, 63, 31, 15, 1, 15, 3, 3, 7, 15] };
    let moves = generated(&stack, Piece::T);
    // each position of the open surface is listed without spin
    for (x, y, r) in by_hand(&stack, Piece::T) {
        assert!(moves.iter().any(|m| m.x == x && m.y == y && m.rotation.ordinal() == r && m.spin == Spin::NoSpin));
    }
}

#[test]
fn t_spins_have_three_corners_filled() {
    let mut all = boards();
    all.push(tsd_board());
    all.push(Board { cols: [6665, 64, 119, 3608, 0, 18, 703, 9, 4224, 16583] });
    for board in &all {
        for m in generated(board, Piece::T) {
            if m.spin != Spin::NoSpin {
                let mut corners = 0;
                for (dx, dy) in [(-1i8, 1i8), (1, 1), (1, -1), (-1, -1)] {
                    let (cx, cy) = (m.x + dx, m.y + dy);
                    if cx < 0 || cx > 9 || cy < 0 || board.cols[cx as usize] & (1u64 << cy) != 0 {
                        corners += 1;
                    }
                }
                assert!(corners >= 3);
            }
        }
    }
}

#[test]
fn immobile_pieces_are_mini_spins() {
    // an S-shaped hole under a roof: the S piece can only be turned into it
    let board = Board { cols: [6665, 64, 119, 3608, 0, 18, 703, 9, 4224, 16583] };
    for piece in [Piece::L, Piece::J, Piece::S, Piece::Z, Piece::I] {
        for m in generated(&board, piece) {
            let stuck = blocked(&board, piece, m.rotation, m.x - 1, m.y)
                && blocked(&board, piece, m.rotation, m.x + 1, m.y)
                && blocked(&board, piece, m.rotation, m.x, m.y + 1)
                && blocked(&board, piece, m.rotation, m.x, m.y - 1);
            assert_eq!(m.spin == Spin::Mini, stuck);
            assert_ne!(m.spin, Spin::Full);
        }
    }
}

#[test]
fn high_board_generates_from_the_spawn() {
    // column 0 reaches row 19: the piece starts in column 4, row 21
    let mut cols = [0u64; 10];
    cols[0] = (1 << 20) - 1;
    let board = Board { cols };
    let moves = generated(&board, Piece::O);
    let mut expected = vec![(0i8, 20i8, 0usize)];
    for x in 1..9i8 {
        expected.push((x, 0i8, 0usize));
    }
    assert_eq!(positions(&moves), expected);
    // the I piece cannot stand upright on column 0: it would have to rise
    let upright = generated(&board, Piece::I);
    assert!(upright.iter().any(|m| m.x == 1 && m.y == 2 && m.rotation == Rotation::East));
    assert!(!upright.iter().any(|m| m.x == 0));
}

#[test]
fn blocked_spawn_gives_nothing() {
    let mut cols = [0u64; 10];
    for c in cols.iter_mut() {
        *c = (1 << 40) - 1;
    }
    cols[9] = 0;
    let board = Board { cols };
    let mut arena = vec![];
    movegen_piece(&mut arena, &board, Piece::T, false);
    assert!(arena.is_empty());
    // with force the piece starts in the lowest free row above
    movegen_piece(&mut arena, &board, Piece::T, true);
    assert!(!arena.is_empty());
    for m in &arena {
        assert!(!blocked(&board, Piece::T, m.rotation, m.x, m.y));
        assert!(blocked(&board, Piece::T, m.rotation, m.x, m.y - 1));
    }
}

#[test]
fn movegen_appends_both_pieces() {
    let board = Board { cols: [0; 10] };
    let mut arena = vec![PieceLocation { piece: Piece::I, x: 3, y: 3, rotation: Rotation::North, spin: Spin::NoSpin }];
    let start = movegen(&mut arena, &board, Piece::O, Some(Piece::I), true);
    assert_eq!(start, 1);
    assert_eq!(arena.len(), 1 + 9 + 17);
    assert_eq!((arena[0].x, arena[0].y), (3, 3));
    assert!(arena[1..10].iter().all(|m| m.piece == Piece::O));
    assert!(arena[10..].iter().all(|m| m.piece == Piece::I));
    let again = movegen(&mut arena, &board, Piece::T, None, true);
    assert_eq!(again, 27);
    assert_eq!(arena.len(), 27 + 34);
}

#[test]
fn the_three_generators_agree_with_movegen_piece() {
    let board = Board { cols: [127, 63, 31, 15, 1, 15, 3, 3, 7, 15] };
    let mut a = vec![];
    movegen_piece_t(&mut a, &board, true);
    assert_eq!(positions(&a), positions(&generated(&board, Piece::T)));
    let mut b = vec![];
    movegen_piece_o(&mut b, &board, true);
    assert_eq!(positions(&b), positions(&generated(&board, Piece::O)));
    let mut c = vec![];
    movegen_piece_nospin(&mut c, &board, Piece::J, true);
    assert_eq!(positions(&c), positions(&generated(&board, Piece::J)));
}

#[test]
fn a_tuck_under_an_overhang_is_found() {
    // column 0 has a roof at row 2 over an empty cell at row 0 and 1
    let mut cols = [0u64; 10];
    cols[0] = 0b100;
    cols[1] = 0b100;
    let board = Board { cols };
    let moves = generated(&board, Piece::O);
    // the O piece slides from column 2 under the roof
    assert!(moves.iter().any(|m| m.x == 0 && m.y == 0));
    assert!(moves.iter().any(|m| m.x == 0 && m.y == 3));
}

#[test]
fn row_sets_for_the_search() {
    assert_eq!(bb(0), 1);
    assert_eq!(bb(21), 1 << 21);
    assert_eq!(bb(63), 1 << 63);
    assert_eq!(bb_low(0), 0);
    assert_eq!(bb_low(21), (1 << 21) - 1);
    assert_eq!(bb_low(63), u64::MAX >> 1);
    assert_eq!(xrot_idx(0, 0), 1);
    assert_eq!(xrot_idx(4, 0), 1 << 16);
    assert_eq!(xrot_idx(9, 3), 1 << 39);
}

#[test]
fn t_piece_reaches_every_resting_position_of_the_pocket_board() {
    let board = tsd_board();
    assert_eq!(positions(&generated(&board, Piece::T)), by_hand(&board, Piece::T));
}

#[test]
fn placing_a_generated_placement_fills_four_empty_cells() {
    let mut all = boards();
    all.push(tsd_board());
    all.push(Board { cols: [6665, 64, 119, 3608, 0, 18, 703, 9, 4224, 16583] });
    for board in &all {
        let before: u32 = board.cols.iter().map(|c| c.count_ones()).sum();
        for piece in PIECES {
            for m in generated(board, piece) {
                for (x, y) in m.blocks() {
                    assert!((0..10).contains(&x) && (0..64).contains(&y));
                    assert_eq!(board.cols[x as usize] & (1u64 << y), 0);
                }
                let mut placed = *board;
                placed.put_piece(&m);
                let filled: u32 = placed.cols.iter().map(|c| c.count_ones()).sum();
                assert_eq!(filled, before + 4);
                let full = placed.cols.iter().fold(u64::MAX, |a, c| a & c).count_ones();

                let mut game = Game::new_empty();
                game.board = *board;
                let info = game.advance(piece, &m);
                assert_eq!(info.lines_cleared as u32, full);
                let after: u32 = game.board.cols.iter().map(|c| c.count_ones()).sum();
                assert_eq!(after, before + 4 - 10 * full);
                assert_eq!(game.board.cols.iter().fold(u64::MAX, |a, c| a & c), 0);
            }
        }
    }
}

#[test]
fn a_low_board_always_has_placements() {
    for board in boards() {
        for piece in PIECES {
            for force in [false, true] {
                let mut arena = vec![];
                movegen_piece(&mut arena, &board, piece, force);
                assert!(!arena.is_empty());
            }
        }
    }
}

#[test]
fn the_piece_moves_on_from_where_it_rests_only() {
    // columns 5 and 6 have a roof in row 2 and in row 5
    let board = Board { cols: [0, 0, 0, 0, 63, 36, 36, 0, 0, 0] };
    let moves = generated(&board, Piece::O);
    // from the floor of column 7 the piece slides under the lower roof
    assert!(moves.iter().any(|m| m.x == 6 && m.y == 0));
    assert!(moves.iter().any(|m| m.x == 5 && m.y == 0));
    // between the roofs it would have to stop falling beside them
    assert!(!blocked(&board, Piece::O, Rotation::North, 6, 3));
    assert!(!moves.iter().any(|m| m.y == 3));
    // on top of the upper roof it lands
    assert!(moves.iter().any(|m| m.x == 5 && m.y == 6));
}

#[test]
fn fixed_lists_hold_the_placements_in_order() {
    for board in boards() {
        for piece in PIECES {
            let arena = generated(&board, piece);
            let list = tetrizz::fixed::try_movegen_piece(&board, piece, true).unwrap();
            assert_eq!(list.len(), arena.len());
            assert!(!list.is_empty());
            for (a, b) in list.iter().zip(arena.iter()) {
                assert_eq!((a.piece, a.x, a.y, a.rotation, a.spin), (b.piece, b.x, b.y, b.rotation, b.spin));
            }
            let again = tetrizz::fixed::movegen_piece(&board, piece, true);
            assert_eq!(again.len(), arena.len());
        }
    }
}

#[test]
fn fixed_lists_of_two_pieces() {
    let board = Board { cols: [0; 10] };
    let (first, second) = tetrizz::fixed::movegen(&board, Piece::O, Piece::I, true);
    assert_eq!(first.len(), 9);
    assert_eq!(second.len(), 17);
    assert!(first.iter().all(|m| m.piece == Piece::O));
    assert!(second.iter().all(|m| m.piece == Piece::I));
    let (first, second) = tetrizz::fixed::movegen(&board, Piece::T, Piece::T, true);
    assert_eq!(first.len(), 34);
    assert!(second.is_empty());
}

#[test]
fn more_placements_than_a_list_holds() {
    // every other row of columns 1 to 8 is filled up to row 17: the T
    // piece rests on many ledges
    let mut cols = [0u64; 10];
    for x in 1..9 {
        cols[x] = if x % 2 == 0 { 0x15555 } else { 0x0aaaa };
    }
    let board = Board { cols };
    let arena = generated(&board, Piece::T);
    match tetrizz::fixed::try_movegen_piece(&board, Piece::T, true) {
        Some(list) => assert!(arena.len() <= 128 && list.len() == arena.len()),
        None => assert!(arena.len() > 128),
    }
}

#[test]
fn the_held_piece_is_listed_only_if_it_is_another_piece() {
    for board in boards() {
        for piece in PIECES {
            let mut alone = vec![];
            movegen(&mut alone, &board, piece, None, true);
            let mut held = vec![];
            let start = movegen(&mut held, &board, piece, Some(piece), true);
            assert_eq!(start, 0);
            assert_eq!(held.len(), alone.len());
            let mut keys: Vec<(i8, i8, usize, bool, bool)> = held
                .iter()
                .map(|m| (m.x, m.y, m.rotation.ordinal(), m.spin == Spin::Mini, m.spin == Spin::Full))
                .collect();
            keys.sort();
            keys.dedup();
            assert_eq!(keys.len(), held.len());
        }
    }
    let board = Board { cols: [0; 10] };
    let mut both = vec![];
    movegen(&mut both, &board, Piece::O, Some(Piece::T), true);
    assert_eq!(both.len(), 9 + 34);
}

fn cell_set(piece: Piece, rot: Rotation, x: i8, y: i8) -> Vec<(i8, i8)> {
    let mut cells: Vec<(i8, i8)> =
        piece.cells(rot).iter().map(|(dx, dy)| (x + dx, y + dy)).collect();
    cells.sort();
    cells
}

/// Boards without holes: each column is filled from the floor up to its height.
fn stacks() -> Vec<Board> {
    let mut out = vec![];
    let mut seed: u64 = 0x2545f4914f6cdd1d;
    for limit in [1u64, 3, 6, 12, 19] {
        for _ in 0..8 {
            let mut cols = [0u64; 10];
            for c in cols.iter_mut() {
                seed = seed.wrapping_mul(6364136223846793005).wrapping_add(1442695040888963407);
                let h = (seed >> 33) % limit;
                *c = (1u64 << h) - 1;
            }
            out.push(Board { cols });
        }
    }
    out.push(Board { cols: [(1u64 << 18) - 1; 10] });
    out.push(Board { cols: [(1u64 << 18) - 1, 0, 0, 0, 0, 0, 0, 0, 0, (1u64 << 18) - 1] });
    out
}

#[test]
fn on_a_board_without_holes_the_placements_are_the_resting_positions() {
    for board in stacks() {
        for piece in PIECES {
            for force in [false, true] {
                let mut arena = vec![];
                movegen_piece(&mut arena, &board, piece, force);
                let mut found: Vec<Vec<(i8, i8)>> =
                    arena.iter().map(|m| cell_set(piece, m.rotation, m.x, m.y)).collect();
                found.sort();
                found.dedup();
                let mut resting: Vec<Vec<(i8, i8)>> = vec![];
                for rot in ROTATIONS {
                    for x in -2..12i8 {
                        for y in -2..40i8 {
                            if !blocked(&board, piece, rot, x, y)
                                && blocked(&board, piece, rot, x, y - 1)
                            {
                                resting.push(cell_set(piece, rot, x, y));
                            }
                        }
                    }
                }
                resting.sort();
                resting.dedup();
                assert_eq!(found, resting);
            }
        }
    }
}
