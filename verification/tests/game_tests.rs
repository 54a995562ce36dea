use tetrizz::data::{Board, Piece, PieceLocation, Rotation, Spin};
use tetrizz::bits::count_ones;
use tetrizz::game::{Cell, Game};

fn at(piece: Piece, x: i8, y: i8, rotation: Rotation, spin: Spin) -> PieceLocation {
    PieceLocation { piece, x, y, rotation, spin }
}

#[test]
fn new_game_is_empty() {
    let g = Game::new_empty();
    assert_eq!(g.board.cols, [0u64; 10]);
    assert_eq!(g.hold, None);
    assert_eq!(g.b2b, -1);
    assert_eq!(g.combo, -1);
    assert_eq!(g.incoming_garbage, 0);
}

#[test]
fn count_ones_counts_rows() {
    assert_eq!(count_ones(0), 0);
    assert_eq!(count_ones(15), 4);
    assert_eq!(count_ones(u64::MAX), 64);
    assert_eq!(count_ones(1 << 63), 1);
    assert_eq!(count_ones(0b1010_0001), 3);
}

#[test]
fn attack_without_combo() {
    let g = Game::new_empty();
    assert_eq!(g.calculate_attack(0, Spin::Full, true, true, 9, 5), 0);
    assert_eq!(g.calculate_attack(1, Spin::NoSpin, false, false, 0, 0), 0);
    assert_eq!(g.calculate_attack(2, Spin::NoSpin, false, false, 0, 0), 1);
    assert_eq!(g.calculate_attack(3, Spin::NoSpin, false, false, 0, 0), 2);
    assert_eq!(g.calculate_attack(4, Spin::NoSpin, true, false, 0, 0), 5);
    assert_eq!(g.calculate_attack(2, Spin::Full, true, false, 0, 0), 5);
    assert_eq!(g.calculate_attack(2, Spin::Mini, true, false, 0, 0), 2);
    assert_eq!(g.calculate_attack(1, Spin::NoSpin, true, true, 0, 0), 5);
    assert_eq!(g.calculate_attack(3, Spin::Full, false, false, 7, -1), 13);
}

#[test]
fn attack_with_combo() {
    let g = Game::new_empty();
    // a single in a combo is worth what the combo count gives
    assert_eq!(g.calculate_attack(1, Spin::NoSpin, false, false, 0, 1), 0);
    assert_eq!(g.calculate_attack(1, Spin::NoSpin, false, false, 0, 2), 1);
    assert_eq!(g.calculate_attack(1, Spin::NoSpin, false, false, 0, 6), 2);
    assert_eq!(g.calculate_attack(1, Spin::NoSpin, false, false, 0, 16), 3);
    assert_eq!(g.calculate_attack(1, Spin::NoSpin, false, false, 0, 100), 3);
    // a quad with back-to-back is 5, times 1 + combo / 4, rounded down
    assert_eq!(g.calculate_attack(4, Spin::NoSpin, true, false, 0, 1), 6);
    assert_eq!(g.calculate_attack(4, Spin::NoSpin, true, false, 0, 2), 7);
    assert_eq!(g.calculate_attack(4, Spin::NoSpin, true, false, 0, 3), 8);
    assert_eq!(g.calculate_attack(4, Spin::NoSpin, true, false, 0, 4), 10);
    assert_eq!(g.calculate_attack(2, Spin::NoSpin, false, false, 0, 3), 1);
    assert_eq!(g.calculate_attack(2, Spin::NoSpin, false, false, 0, 7), 2);
    // never more than a u16 holds
    assert_eq!(g.calculate_attack(4, Spin::Full, true, true, 65535, 127), 65535);
    assert_eq!(g.calculate_attack(4, Spin::Full, true, true, 65535, 0), 65535);
}

#[test]
fn can_spawn_tests_the_spawn_cells() {
    let mut g = Game::new_empty();
    assert!(g.can_spawn_piece(Piece::T));
    g.board.cols[4] = 1 << 21;
    assert!(!g.can_spawn_piece(Piece::T));
    g.board.cols[4] = 1 << 22;
    assert!(!g.can_spawn_piece(Piece::T));
    assert!(g.can_spawn_piece(Piece::I));
    g.board.cols[4] = 0;
    g.board.cols[6] = 1 << 21;
    assert!(g.can_spawn_piece(Piece::T));
    assert!(!g.can_spawn_piece(Piece::I));
}

#[test]
fn advance_without_a_clear_takes_garbage() {
    let mut g = Game::new_empty();
    g.incoming_garbage = 11;
    g.combo = 3;
    g.b2b = 2;
    let info = g.advance(Piece::O, &at(Piece::O, 4, 0, Rotation::North, Spin::NoSpin));
    assert_eq!(info.lines_cleared, 0);
    assert_eq!(info.lines_received, 8);
    assert_eq!(info.outgoing_attack, 0);
    assert!(!info.pc && !info.b2b_clear && !info.broke_surge);
    assert_eq!(g.incoming_garbage, 3);
    assert_eq!(g.combo, -1);
    assert_eq!(g.b2b, 2);
    assert_eq!(g.hold, None);
    // eight rows of garbage with the gap in column 0, the O piece on top
    assert_eq!(g.board.cols[0], 0);
    assert_eq!(g.board.cols[1], 0xff);
    assert_eq!(g.board.cols[4], 0x3ff);
    assert_eq!(g.board.cols[5], 0x3ff);
    assert_eq!(g.board.cols[9], 0xff);
}

#[test]
fn advance_holds_the_piece_that_was_up() {
    let mut g = Game::new_empty();
    let info = g.advance(Piece::T, &at(Piece::O, 0, 0, Rotation::North, Spin::NoSpin));
    assert_eq!(g.hold, Some(Piece::T));
    assert_eq!(info.lines_cleared, 0);
    assert_eq!(info.lines_received, 0);
    assert_eq!(g.board.cols, [3, 3, 0, 0, 0, 0, 0, 0, 0, 0]);
    g.advance(Piece::O, &at(Piece::O, 2, 0, Rotation::North, Spin::NoSpin));
    assert_eq!(g.hold, Some(Piece::T));
}

#[test]
fn advance_clears_a_quad() {
    let mut g = Game::new_empty();
    for x in 0..9 {
        g.board.cols[x] = 15;
    }
    g.incoming_garbage = 2;
    let info = g.advance(Piece::I, &at(Piece::I, 9, 2, Rotation::East, Spin::NoSpin));
    assert_eq!(info.lines_cleared, 4);
    assert!(info.pc);
    assert!(info.b2b_clear);
    assert!(!info.broke_surge);
    // 4 for the quad, 5 for the perfect clear, no combo yet
    assert_eq!(info.outgoing_attack, 9 - 2);
    assert_eq!(g.incoming_garbage, 0);
    assert_eq!(g.board.cols, [0u64; 10]);
    assert_eq!(g.combo, 0);
    assert_eq!(g.b2b, 0);
}

#[test]
fn advance_counts_combo_and_breaks_a_surge() {
    let mut g = Game::new_empty();
    // rows 0 and 1 are full but for columns 8 and 9; column 0 reaches row 2
    for x in 0..8 {
        g.board.cols[x] = 0b11;
    }
    g.board.cols[0] = 0b111;
    g.b2b = 7;
    g.combo = 1;
    g.incoming_garbage = 40;
    let info = g.advance(Piece::O, &at(Piece::O, 8, 0, Rotation::North, Spin::NoSpin));
    assert_eq!(info.lines_cleared, 2);
    assert!(!info.b2b_clear);
    assert!(info.broke_surge);
    assert!(!info.pc);
    // a double is 1, the surge of a streak of 7 is 4, times 1 + 2 / 4 is 7
    assert_eq!(g.combo, 2);
    assert_eq!(g.b2b, -1);
    assert_eq!(info.outgoing_attack, 0);
    assert_eq!(g.incoming_garbage, 40 - 7);
    assert_eq!(g.board.cols, [1, 0, 0, 0, 0, 0, 0, 0, 0, 0]);
}

#[test]
fn advance_sends_what_the_garbage_leaves() {
    let mut g = Game::new_empty();
    for x in 0..8 {
        g.board.cols[x] = 0b11;
    }
    g.board.cols[0] = 0b111;
    g.b2b = 7;
    g.combo = 1;
    g.incoming_garbage = 3;
    let info = g.advance(Piece::O, &at(Piece::O, 8, 0, Rotation::North, Spin::NoSpin));
    assert_eq!(info.outgoing_attack, 4);
    assert_eq!(info.lines_received, 0);
    assert_eq!(g.incoming_garbage, 0);
}

#[test]
fn advance_with_a_spin_keeps_the_streak() {
    let mut g = Game::new_empty();
    for x in 0..10 {
        if x != 4 {
            g.board.cols[x] |= 1;
        }
        if x < 3 || x > 5 {
            g.board.cols[x] |= 2;
        }
        if x <= 3 || x >= 6 {
            g.board.cols[x] |= 4;
        }
    }
    g.b2b = 4;
    let info = g.advance(Piece::T, &at(Piece::T, 4, 1, Rotation::South, Spin::Full));
    assert_eq!(info.lines_cleared, 2);
    assert_eq!(info.spin, Spin::Full);
    assert!(info.b2b_clear);
    assert!(!info.broke_surge);
    assert!(!info.pc);
    // twice the rows for the full spin, 1 for back-to-back
    assert_eq!(info.outgoing_attack, 5);
    assert_eq!(g.b2b, 5);
    assert_eq!(g.combo, 0);
    assert_eq!(g.board.cols, [1, 1, 1, 1, 0, 0, 1, 1, 1, 1]);
}

#[test]
fn advance_leaves_no_full_row() {
    let mut g = Game::new_empty();
    g.board = Board { cols: [3, 3, 3, 3, 3, 3, 3, 3, 0, 0] };
    g.incoming_garbage = 5;
    let info = g.advance(Piece::O, &at(Piece::O, 8, 0, Rotation::North, Spin::NoSpin));
    assert_eq!(info.lines_cleared, 2);
    assert_eq!(g.board.cols.iter().fold(u64::MAX, |a, c| a & c), 0);
    let info = g.advance(Piece::O, &at(Piece::O, 8, 0, Rotation::North, Spin::NoSpin));
    assert_eq!(info.lines_cleared, 0);
    assert_eq!(g.board.cols.iter().fold(u64::MAX, |a, c| a & c), 0);
}

#[test]
fn cells_show_the_board_and_the_piece() {
    let mut g = Game::new_empty();
    g.board.cols[3] = 1;
    let plain = at(Piece::T, 4, 0, Rotation::North, Spin::NoSpin);
    let spun = at(Piece::T, 4, 0, Rotation::North, Spin::Mini);
    assert_eq!(g.cell_at(None, 3, 0), Cell::Filled);
    assert_eq!(g.cell_at(None, 4, 0), Cell::Empty);
    assert_eq!(g.cell_at(Some(&plain), 4, 1), Cell::Placed);
    assert_eq!(g.cell_at(Some(&plain), 3, 0), Cell::Placed);
    assert_eq!(g.cell_at(Some(&spun), 5, 0), Cell::Spun);
    assert_eq!(g.cell_at(Some(&spun), 5, 1), Cell::Empty);
    assert_eq!(g.cell_at(Some(&spun), 9, 63), Cell::Empty);
}

#[test]
fn would_clear_counts_the_rows_that_fill_up() {
    let mut g = Game::new_empty();
    for x in 0..9 {
        g.board.cols[x] = 0b111;
    }
    assert_eq!(g.would_clear(&at(Piece::I, 9, 2, Rotation::East, Spin::NoSpin)), 3);
    assert_eq!(g.would_clear(&at(Piece::I, 9, 5, Rotation::East, Spin::NoSpin)), 0);
    assert_eq!(g.would_clear(&at(Piece::O, 4, 3, Rotation::North, Spin::NoSpin)), 0);
    assert_eq!(g.board.cols[0], 0b111);
}

#[test]
fn playable_games_have_no_full_row_and_room_for_streaks() {
    let mut g = Game::new_empty();
    assert!(g.playable());
    g.combo = i8::MAX;
    assert!(!g.playable());
    g.combo = 5;
    g.b2b = i16::MAX;
    assert!(!g.playable());
    g.b2b = 0;
    g.board = Board { cols: [1; 10] };
    assert!(!g.playable());
    g.board.cols[7] = 2;
    assert!(g.playable());
}

#[test]
fn lies_on_board_tests_all_four_cells() {
    assert!(at(Piece::T, 4, 0, Rotation::North, Spin::NoSpin).lies_on_board());
    assert!(!at(Piece::T, 0, 0, Rotation::North, Spin::NoSpin).lies_on_board());
    assert!(!at(Piece::T, 4, 0, Rotation::South, Spin::NoSpin).lies_on_board());
    assert!(at(Piece::T, 4, 62, Rotation::North, Spin::NoSpin).lies_on_board());
    assert!(!at(Piece::T, 4, 63, Rotation::North, Spin::NoSpin).lies_on_board());
    assert!(!at(Piece::I, 8, 5, Rotation::North, Spin::NoSpin).lies_on_board());
    assert!(!at(Piece::I, 127, 127, Rotation::East, Spin::NoSpin).lies_on_board());
    assert!(!at(Piece::I, -128, 3, Rotation::East, Spin::NoSpin).lies_on_board());
}
