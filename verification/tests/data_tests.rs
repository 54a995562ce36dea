use tetrizz::board::BitboardTrait;
use tetrizz::collision::CollisionMap;
use tetrizz::data::{Board, Piece, PieceLocation, Rotation, Spin};
use tetrizz::kicks::{kicks, kicks_180};

const PIECES: [Piece; 7] =
    [Piece::I, Piece::O, Piece::T, Piece::L, Piece::J, Piece::S, Piece::Z];
const ROTATIONS: [Rotation; 4] =
    [Rotation::North, Rotation::East, Rotation::South, Rotation::West];

fn at(piece: Piece, x: i8, y: i8, rotation: Rotation) -> PieceLocation {
    PieceLocation { piece, x, y, rotation, spin: Spin::NoSpin }
}

#[test]
fn rotate_block_turns_clockwise() {
    assert_eq!(Rotation::North.rotate_block((1, 2)), (1, 2));
    assert_eq!(Rotation::East.rotate_block((1, 2)), (2, -1));
    assert_eq!(Rotation::South.rotate_block((1, 2)), (-1, -2));
    assert_eq!(Rotation::West.rotate_block((1, 2)), (-2, 1));
}

#[test]
fn rotate_blocks_turns_each_block() {
    let turned = Rotation::East.rotate_blocks([(-1, 0), (0, 0), (1, 0), (0, 1)]);
    assert_eq!(turned, [(0, 1), (0, 0), (0, -1), (1, 0)]);
}

#[test]
fn rotations_form_a_cycle() {
    for r in ROTATIONS {
        assert_eq!(r.rotate_cw().rotate_ccw(), r);
        assert_eq!(r.rotate_ccw().rotate_cw(), r);
        assert_eq!(r.rotate_180().rotate_180(), r);
        assert_eq!(r.rotate_cw().rotate_cw(), r.rotate_180());
        assert_eq!(r.rotate_cw().rotate_cw().rotate_cw().rotate_cw(), r);
        assert_eq!(Rotation::from_ordinal(r.ordinal()), r);
        assert_eq!(Rotation::from_ordinal(r.ordinal() + 1), r.rotate_cw());
        assert_eq!(Rotation::from_ordinal(r.ordinal() + 4), r);
    }
    assert_eq!(Rotation::North.rotate_cw(), Rotation::East);
    assert_eq!(Rotation::East.rotate_cw(), Rotation::South);
    assert_eq!(Rotation::South.rotate_cw(), Rotation::West);
    assert_eq!(Rotation::West.rotate_cw(), Rotation::North);
}

#[test]
fn piece_blocks_are_the_seven_shapes() {
    assert_eq!(Piece::Z.blocks(), [(-1, 1), (0, 1), (0, 0), (1, 0)]);
    assert_eq!(Piece::S.blocks(), [(-1, 0), (0, 0), (0, 1), (1, 1)]);
    assert_eq!(Piece::I.blocks(), [(-1, 0), (0, 0), (1, 0), (2, 0)]);
    assert_eq!(Piece::O.blocks(), [(0, 0), (1, 0), (0, 1), (1, 1)]);
    assert_eq!(Piece::J.blocks(), [(-1, 0), (0, 0), (1, 0), (-1, 1)]);
    assert_eq!(Piece::L.blocks(), [(-1, 0), (0, 0), (1, 0), (1, 1)]);
    assert_eq!(Piece::T.blocks(), [(-1, 0), (0, 0), (1, 0), (0, 1)]);
}

#[test]
fn piece_cells_follow_the_orientation() {
    assert_eq!(Piece::T.cells(Rotation::North), [(-1, 0), (0, 0), (1, 0), (0, 1)]);
    assert_eq!(Piece::T.cells(Rotation::South), [(1, 0), (0, 0), (-1, 0), (0, -1)]);
    assert_eq!(Piece::I.cells(Rotation::East), [(0, 1), (0, 0), (0, -1), (0, -2)]);
    assert_eq!(Piece::I.cells(Rotation::West), [(0, -1), (0, 0), (0, 1), (0, 2)]);
}

#[test]
fn from_char_names_the_pieces() {
    assert_eq!(Piece::from_char('i'), Piece::I);
    assert_eq!(Piece::from_char('o'), Piece::O);
    assert_eq!(Piece::from_char('j'), Piece::J);
    assert_eq!(Piece::from_char('t'), Piece::T);
    assert_eq!(Piece::from_char('l'), Piece::L);
    assert_eq!(Piece::from_char('s'), Piece::S);
    assert_eq!(Piece::from_char('z'), Piece::Z);
    assert_eq!(Piece::try_from_char('z'), Some(Piece::Z));
    assert_eq!(Piece::try_from_char('x'), None);
    assert_eq!(Piece::try_from_char('I'), None);
}

#[test]
fn location_blocks_are_translated() {
    let loc = at(Piece::T, 4, 1, Rotation::South);
    assert_eq!(loc.blocks(), [(5, 1), (4, 1), (3, 1), (4, 0)]);
    assert_eq!(loc.translate((1, -1)), (5, 0));
    assert_eq!(loc.translate_blocks([(0, 0), (1, 1), (-1, 0), (0, 2)]), [(4, 1), (5, 2), (3, 1), (4, 3)]);
}

#[test]
fn folds_combine_the_columns() {
    let board = Board { cols: [7, 3, 3, 3, 3, 3, 3, 3, 3, 11] };
    assert_eq!(board.fold_and(), 3);
    assert_eq!(board.fold_or(), 15);
    assert_eq!(board.fold_xor(), 7 ^ 11);
    let empty: Board = BitboardTrait::new();
    assert_eq!(empty.cols, [0u64; 10]);
    assert!(empty.is_empty());
    assert!(!board.is_empty());
}

#[test]
fn put_piece_fills_four_cells() {
    let mut board: Board = BitboardTrait::new();
    board.put_piece(&at(Piece::T, 4, 0, Rotation::North));
    assert_eq!(board.cols, [0, 0, 0, 1, 3, 1, 0, 0, 0, 0]);
    board.put_piece(&at(Piece::I, 0, 2, Rotation::East));
    assert_eq!(board.cols, [0b1111, 0, 0, 1, 3, 1, 0, 0, 0, 0]);
}

#[test]
fn remove_lines_clears_four_full_rows() {
    let mut board = Board { cols: [15, 15, 15, 15, 15, 15, 15, 15, 15, 15] };
    let lines = board.remove_lines();
    assert_eq!(lines, 15);
    assert_eq!(lines.count_ones(), 4);
    assert_eq!(board.cols, [0u64; 10]);
}

#[test]
fn remove_lines_closes_the_gaps() {
    // rows 0 and 2 are full, row 1 has a hole in column 3, row 3 is partly filled
    let mut board = Board { cols: [0b0111, 0b1111, 0b0111, 0b0101, 0b0111, 0b0111, 0b0111, 0b0111, 0b0111, 0b1111] };
    let lines = board.remove_lines();
    assert_eq!(lines, 0b0101);
    assert_eq!(board.cols, [0b01, 0b11, 0b01, 0b00, 0b01, 0b01, 0b01, 0b01, 0b01, 0b11]);
}

#[test]
fn remove_lines_without_full_rows_changes_nothing() {
    let mut board = Board { cols: [1, 1, 1, 1, 0, 1, 1, 1, 1, 1] };
    assert_eq!(board.remove_lines(), 0);
    assert_eq!(board.cols, [1, 1, 1, 1, 0, 1, 1, 1, 1, 1]);
}

#[test]
fn clear_lines_takes_rows_out_of_a_column() {
    let mut col: u64 = 0b1011_0110;
    tetrizz::board::clear_lines(&mut col, 0b0001_0010);
    // rows 1 and 4 leave: 1 0 1 . 0 1 . 0 -> 101010
    assert_eq!(col, 0b10_1010);
    let mut top: u64 = 1 << 63;
    tetrizz::board::clear_lines(&mut top, 1);
    assert_eq!(top, 1 << 62);
}

#[test]
fn add_garbage_pushes_rows_in_from_below() {
    let mut board = Board { cols: [1, 0, 3, 0, 0, 0, 0, 0, 0, 0] };
    board.add_garbage(2, 2);
    assert_eq!(board.cols, [0b111, 0b11, 0b1100, 0b11, 0b11, 0b11, 0b11, 0b11, 0b11, 0b11]);
    let before = board.cols;
    board.add_garbage(5, 0);
    assert_eq!(board.cols, before);
}

#[test]
fn obstructed_tests_the_cells_on_the_board() {
    let board = Board { cols: [0, 0, 0, 1, 0, 0, 0, 0, 0, 0] };
    assert!(board.obstructed(&at(Piece::T, 4, 0, Rotation::North)));
    assert!(!board.obstructed(&at(Piece::T, 4, 1, Rotation::North)));
    assert!(!board.obstructed(&at(Piece::T, 5, 0, Rotation::North)));
    // cells beside the board and below the floor are passed over
    assert!(!board.obstructed(&at(Piece::T, 0, 0, Rotation::North)));
    assert!(!board.obstructed(&at(Piece::T, 6, -1, Rotation::North)));
}

#[test]
fn distance_to_ground_is_the_least_gap() {
    let board = Board { cols: [0, 0, 0, 0b11, 0b1, 0, 0, 0, 0, 0] };
    assert_eq!(board.distance_to_ground(&at(Piece::T, 4, 5, Rotation::North)), 3);
    assert_eq!(board.distance_to_ground(&at(Piece::T, 4, 2, Rotation::North)), 0);
    assert_eq!(board.distance_to_ground(&at(Piece::I, 7, 4, Rotation::North)), 4);
    assert_eq!(board.distance_to_ground(&at(Piece::O, 8, 0, Rotation::North)), 0);
}

#[test]
fn max_height_is_one_above_the_highest_cell() {
    assert_eq!(Board { cols: [0; 10] }.max_height(), 0);
    assert_eq!(Board { cols: [1, 0, 0, 0, 0, 0, 0, 0, 0, 0] }.max_height(), 1);
    assert_eq!(Board { cols: [1, 0, 0, 0, 0, 0, 0, 0, 0, 1 << 17] }.max_height(), 18);
    assert_eq!(Board { cols: [0, 0, 1 << 63, 0, 0, 0, 0, 0, 0, 0] }.max_height(), 64);
}

fn blocked_by_hand(board: &Board, piece: Piece, rot: Rotation, x: i8, y: i8) -> bool {
    for (dx, dy) in piece.cells(rot) {
        let (cx, cy) = (x + dx, y + dy);
        if cy < 0 || cx < 0 || cx > 9 {
            return true;
        }
        if cy < 64 && board.cols[cx as usize] & (1u64 << cy) != 0 {
            return true;
        }
    }
    false
}

#[test]
fn collision_map_marks_where_the_piece_cannot_be() {
    let boards = [
        Board { cols: [0; 10] },
        Board { cols: [127, 63, 27, 8, 1, 11, 3, 3, 7, 15] },
        Board { cols: [6665, 64, 119, 3608, 0, 18, 703, 9, 4224, 16583] },
        Board { cols: [1 << 63, 0, 0, 1 << 62, 0, 0, 0, 0, 0, 3 << 61] },
    ];
    for board in boards {
        for piece in PIECES {
            for rot in ROTATIONS {
                let cm = CollisionMap::new(&board, piece, rot);
                for x in 0..10i8 {
                    for y in 0..64i8 {
                        let expected = blocked_by_hand(&board, piece, rot, x, y);
                        assert_eq!(cm.cols[x as usize] & (1u64 << y) != 0, expected);
                        assert_eq!(cm.obstructed(x, y), expected);
                    }
                }
                assert!(cm.obstructed(-1, 5));
                assert!(cm.obstructed(10, 5));
                assert!(cm.obstructed(3, -1));
                assert_eq!(cm.as_board().cols, cm.cols);
            }
        }
    }
}

#[test]
fn collision_map_of_the_z_piece_on_a_stack() {
    let board = Board { cols: [127, 63, 27, 8, 1, 11, 3, 3, 7, 15] };
    let cm = CollisionMap::new(&board, Piece::Z, Rotation::North);
    // in columns 0 and 9 a cell is beside the board in every row
    assert_eq!(cm.cols[0], u64::MAX);
    assert_eq!(cm.cols[9], u64::MAX);
    // column 4: cells (3, y + 1), (4, y + 1), (4, y), (5, y)
    assert_eq!(cm.cols[4], (8 >> 1) | (1 >> 1) | 1 | 11);
}

#[test]
fn kick_tables_hold_the_standard_offsets() {
    assert_eq!(kicks(Piece::T, Rotation::North, Rotation::East), [(0, 0), (-1, 0), (-1, 1), (0, -2), (-1, -2)]);
    assert_eq!(kicks(Piece::J, Rotation::East, Rotation::North), [(0, 0), (1, 0), (1, -1), (0, 2), (1, 2)]);
    assert_eq!(kicks(Piece::I, Rotation::North, Rotation::East), [(1, 0), (2, 0), (-1, 0), (-1, -1), (2, 2)]);
    assert_eq!(kicks(Piece::I, Rotation::West, Rotation::South), [(1, 0), (2, 0), (-1, 0), (2, 2), (-1, -1)]);
    assert_eq!(kicks(Piece::O, Rotation::North, Rotation::East), [(0, 0); 5]);
    assert_eq!(kicks(Piece::S, Rotation::North, Rotation::South), [(0, 0); 5]);
    assert_eq!(kicks_180(Piece::T, Rotation::North, Rotation::South), [(0, 0), (0, 1), (1, 1), (-1, 1), (1, 0), (-1, 0)]);
    assert_eq!(kicks_180(Piece::I, Rotation::East, Rotation::West), [(-1, -1), (0, -1), (-1, -1), (-1, -1), (-1, -1), (-1, -1)]);
    assert_eq!(kicks_180(Piece::O, Rotation::East, Rotation::West), [(0, 0); 6]);
    assert_eq!(kicks_180(Piece::Z, Rotation::East, Rotation::North), [(0, 0); 6]);
}
