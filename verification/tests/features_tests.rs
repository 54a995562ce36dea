use tetrizz::data::{Board, Spin};
use tetrizz::features::{
    bend_measures, dent_measures, depth_at, height_of, layered_measures, minimal_measures,
    surface_measures, well_column,
};
use tetrizz::data::Piece;
use tetrizz::game::{Game, PlacementInfo};
use tetrizz::rating::LinearEval;
use tetrizz::search::{search, Eval};

fn info() -> PlacementInfo {
    PlacementInfo {
        lines_cleared: 0,
        lines_received: 0,
        pc: false,
        b2b_clear: false,
        broke_surge: false,
        spin: Spin::NoSpin,
        outgoing_attack: 0,
    }
}

#[test]
fn heights_count_up_to_the_highest_cell() {
    assert_eq!(height_of(0), 0);
    assert_eq!(height_of(1), 1);
    assert_eq!(height_of(0b1000), 4);
    assert_eq!(height_of(u64::MAX), 64);
}

#[test]
fn surface_measures_of_a_ragged_board() {
    // column 1 has a hole in row 0 under two cells, column 2 a hole in row 1
    let board = Board { cols: [0b111, 0b110, 0b101, 0, 0, 0, 0, 0, 0, 1] };
    let (top, holes, covered, transitions) = surface_measures(&board);
    assert_eq!(top, 3);
    assert_eq!(holes, 2);
    // the hole in column 1 lies 3 below the top of its column, the other 2
    assert_eq!(covered, 3 + 2);
    assert_eq!(transitions, 1 + 2 + 2 + 0 + 0 + 0 + 0 + 0 + 1);
    assert_eq!(surface_measures(&Board { cols: [0; 10] }), (0, 0, 0, 0));
}

#[test]
fn well_depth_counts_the_rows_ready_for_the_well() {
    let board = Board { cols: [0b1111, 0b1111, 0b111, 0b1111, 0, 0b11111, 0b111, 0b111, 0b111, 0b111] };
    let w = well_column(&board);
    assert_eq!(w, 4);
    assert_eq!(depth_at(&board, w), 3);
    // of columns with equal words the first is the well
    assert_eq!(well_column(&Board { cols: [5, 3, 3, 9, 3, 7, 7, 7, 7, 7] }), 1);
    assert_eq!(depth_at(&Board { cols: [0; 10] }, 0), 0);
}

#[test]
fn dents_and_spikes() {
    // heights 3 0 3 1 5 1 1 1 1 1
    let board = Board { cols: [7, 0, 7, 1, 31, 1, 1, 1, 1, 1] };
    // with high walls: column 1 is a dent by more than two, column 3 by
    // more than one, column 9 is none; columns 2 and 4 are spikes
    assert_eq!(dent_measures(&board, None, true), (2, 1, 2));
    assert_eq!(dent_measures(&board, Some(1), true), (1, 0, 2));
    assert_eq!(dent_measures(&board, Some(4), true), (2, 1, 1));
    // with walls three above the column beside them column 9 is no dent
    assert_eq!(dent_measures(&board, None, false), (2, 1, 2));
    let flat = Board { cols: [1; 10] };
    assert_eq!(dent_measures(&flat, None, true), (0, 0, 0));
}

#[test]
fn concavity_and_bumpiness() {
    let flat = Board { cols: [1; 10] };
    // only the walls, three above the columns beside them, bend the surface
    assert_eq!(bend_measures(&flat), (6, 3));
    // heights 2 0 0 ...: column 0 has the wall at 5 and a neighbour at 0
    let board = Board { cols: [3, 0, 0, 0, 0, 0, 0, 0, 0, 0] };
    let (bend, bump) = bend_measures(&board);
    assert_eq!(bend, (5 - 4 + 0) + (2 - 0 + 0) + 3);
    assert_eq!(bump, 3 + 2);
}

#[test]
fn measures_come_in_the_order_of_the_weights() {
    let mut game = Game::new_empty();
    game.board = Board { cols: [0xffff, 0xffff, 0xffff, 0xffff, 0, 0xffff, 0xffff, 0xffff, 0xffff, 0xfffe] };
    game.combo = 3;
    let mut done = info();
    done.spin = Spin::Mini;
    done.lines_cleared = 2;
    done.b2b_clear = true;
    done.broke_surge = true;
    done.outgoing_attack = 6;
    let m = minimal_measures(&game, &done);
    assert_eq!(m, [16, 6, 1, 1, 16, 16 + 16 + 1, 0, 0, 0, 0, 1, 1, 6]);
    let l = layered_measures(&game, &done);
    assert_eq!(&l[..6], &m[..6]);
    assert_eq!(l[6], 1);
    assert_eq!(l[7], 1);
    assert_eq!(l[8], 0);
    assert_eq!(&l[11..], &[1, 0, 1, 0, 0, 6, 3, 3]);
    let plain = layered_measures(&game, &info());
    assert_eq!(&plain[11..], &[0, 0, 0, 0, 0, 0, 3, 0]);
}

#[test]
fn linear_rating_is_the_weighted_sum_of_the_measures() {
    let mut game = Game::new_empty();
    game.board = Board { cols: [0xffff, 0xffff, 0xffff, 0xffff, 0, 0xffff, 0xffff, 0xffff, 0xffff, 0xfffe] };
    let mut done = info();
    done.spin = Spin::Mini;
    done.lines_cleared = 2;
    done.broke_surge = true;
    done.outgoing_attack = 6;
    // measures: 16 6 1 1 16 33 0 0 0 0 1 1 6
    let eval = LinearEval { weights: [-1, -2, -3, -10, 5, 0, 7, 7, 7, 7, 100, -1000, 3] };
    assert_eq!(eval.value(&game, &done), -16 - 12 - 3 - 10 + 80 + 100 - 1000 + 18);
    let zero = LinearEval { weights: [0; 13] };
    assert_eq!(zero.value(&game, &done), 0);
    let big = LinearEval { weights: [i32::MIN; 13] };
    assert_eq!(big.value(&game, &done), (i32::MIN as i64) * (16 + 6 + 1 + 1 + 16 + 33 + 1 + 1 + 6));
}

#[test]
fn search_with_a_linear_rating_fills_the_well() {
    let mut root = Game::new_empty();
    root.board = Board { cols: [15, 15, 15, 15, 15, 15, 15, 15, 15, 0] };
    // attack is what counts
    let eval = LinearEval { weights: [0, 0, 0, 0, 0, 0, 0, 0, 0, 0, 0, 0, 1] };
    let queue = vec![Piece::I, Piece::O, Piece::T];
    let found = search(&root, &queue, &eval, 1, 10).unwrap();
    assert_eq!((found.piece, found.x, found.y), (Piece::I, 9, 2));
}

#[test]
fn deep_search_stays_on_the_board() {
    let mut game = Game::new_empty();
    let eval = LinearEval { weights: [-2, -5, -9, -40, -3, -4, 6, -5, -9, -3, 30, -50, 20] };
    let mut queue = vec![
        Piece::T, Piece::S, Piece::I, Piece::Z, Piece::O, Piece::L, Piece::J,
        Piece::I, Piece::O, Piece::T, Piece::L, Piece::S, Piece::J, Piece::Z,
        Piece::T, Piece::I, Piece::L, Piece::O, Piece::S, Piece::Z, Piece::J,
        Piece::O, Piece::I, Piece::T, Piece::J, Piece::L, Piece::Z, Piece::S,
    ];
    let mut cleared = 0u32;
    for _ in 0..20 {
        let found = search(&game, &queue, &eval, 4, 60).unwrap();
        assert!(!game.board.obstructed(&found));
        let info = game.advance(queue[0], &found);
        cleared += info.lines_cleared as u32;
        if found.piece != queue[0] {
            assert_eq!(game.hold, Some(queue[0]));
        }
        queue.remove(0);
        assert!(game.board.max_height() <= 12);
        assert_eq!(game.board.cols.iter().fold(u64::MAX, |a, c| a & c), 0);
    }
    assert!(cleared > 0);
}
