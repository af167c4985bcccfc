use game2048::board::{combinable, game_over, move_fits, play_move, same_board, Board, Move};
use game2048::game::{
    add_random_tile, blank_spaces, place_tile, play_turn, setup, tile_for_roll,
};

fn sample() -> Board {
    Board {
        cells: [
            2, 2, 0, 4, //
            0, 4, 0, 4, //
            8, 0, 8, 2, //
            2, 0, 0, 2,
        ],
    }
}

fn stuck() -> Board {
    Board {
        cells: [
            2, 4, 2, 4, //
            4, 2, 4, 2, //
            2, 4, 2, 4, //
            4, 2, 4, 2,
        ],
    }
}

fn occupied(b: &Board) -> usize {
    b.cells.iter().filter(|&&c| c != 0).count()
}

#[test]
fn move_left_slides_rows() {
    let (b, s) = play_move(&sample(), 0, Move::Left);
    assert_eq!(
        b.cells,
        [4, 4, 0, 0, 8, 0, 0, 0, 16, 2, 0, 0, 4, 0, 0, 0]
    );
    assert_eq!(s, 4 + 8 + 16 + 4);
}

#[test]
fn move_right_slides_rows() {
    let (b, s) = play_move(&sample(), 1, Move::Right);
    assert_eq!(
        b.cells,
        [0, 0, 4, 4, 0, 0, 0, 8, 0, 0, 16, 2, 0, 0, 0, 4]
    );
    assert_eq!(s, 1 + 4 + 8 + 16 + 4);
}

#[test]
fn move_up_slides_columns() {
    let (b, s) = play_move(&sample(), 0, Move::Up);
    assert_eq!(
        b.cells,
        [2, 2, 8, 8, 8, 4, 0, 4, 2, 0, 0, 0, 0, 0, 0, 0]
    );
    assert_eq!(s, 8 + 4);
}

#[test]
fn move_down_slides_columns() {
    let (b, s) = play_move(&sample(), 0, Move::Down);
    assert_eq!(
        b.cells,
        [0, 0, 0, 0, 2, 0, 0, 0, 8, 2, 0, 8, 2, 4, 8, 4]
    );
    assert_eq!(s, 8 + 4);
}

#[test]
fn move_frees_one_cell_per_merge() {
    let before = sample();
    let (after, s) = play_move(&before, 0, Move::Left);
    // four merges: 2+2, 4+4, 8+8, 2+2
    assert_eq!(occupied(&before) - occupied(&after), 4);
    assert_eq!(s, 4 + 8 + 16 + 4);
}

#[test]
fn neighbours_found_in_rows_and_columns() {
    assert!(combinable(&sample()));
    assert!(!combinable(&stuck()));
    let mut last_row = stuck();
    last_row.cells[15] = 4;
    assert!(combinable(&last_row));
    let mut last_column = stuck();
    last_column.cells[11] = 2;
    assert!(combinable(&last_column));
}

#[test]
fn full_grid_without_neighbours_is_lost() {
    let b = stuck();
    assert!(game_over(&b));
    for mv in [Move::Up, Move::Down, Move::Left, Move::Right] {
        assert!(play_turn(&b, 7, mv).is_none());
        let (m, s) = play_move(&b, 7, mv);
        assert!(same_board(&m, &b));
        assert_eq!(s, 7);
    }
}

#[test]
fn grid_with_room_or_neighbours_is_not_lost() {
    assert!(!game_over(&sample()));
    let mut b = stuck();
    b.cells[5] = 4;
    assert!(game_over(&b) == false);
}

#[test]
fn quitting_ends_the_turn() {
    assert!(play_turn(&sample(), 0, Move::Quit).is_none());
}

#[test]
fn changing_turn_spawns_one_tile() {
    let before = sample();
    let (moved, _) = play_move(&before, 0, Move::Left);
    let (after, s) = play_turn(&before, 3, Move::Left).unwrap();
    assert_eq!(s, 3 + 32);
    assert_eq!(occupied(&after), occupied(&moved) + 1);
    let mut differing = 0;
    for i in 0..16 {
        if after.cells[i] != moved.cells[i] {
            differing += 1;
            assert_eq!(moved.cells[i], 0);
            assert!(after.cells[i] == 2 || after.cells[i] == 4);
        }
    }
    assert_eq!(differing, 1);
}

#[test]
fn unchanging_turn_spawns_nothing() {
    let b = Board {
        cells: [2, 4, 0, 0, 0, 0, 0, 0, 0, 0, 0, 0, 0, 0, 0, 0],
    };
    let (after, s) = play_turn(&b, 9, Move::Left).unwrap();
    assert!(same_board(&after, &b));
    assert_eq!(s, 9);
}

#[test]
fn blank_spaces_lists_empty_cells_in_order() {
    assert_eq!(blank_spaces(&sample()), vec![2, 4, 6, 9, 13, 14]);
    assert!(blank_spaces(&stuck()).is_empty());
}

#[test]
fn roll_of_one_gives_four() {
    assert_eq!(tile_for_roll(1), 4);
    assert_eq!(tile_for_roll(0), 2);
    assert_eq!(tile_for_roll(9), 2);
}

#[test]
fn place_tile_fills_the_cell() {
    let mut b = sample();
    place_tile(&mut b, 2, 1);
    assert_eq!(b.cells[2], 4);
    place_tile(&mut b, 4, 3);
    assert_eq!(b.cells[4], 2);
}

#[test]
fn random_tile_goes_to_an_empty_cell() {
    let before = sample();
    let mut b = before;
    add_random_tile(&mut b);
    assert_eq!(occupied(&b), occupied(&before) + 1);
    for i in 0..16 {
        if b.cells[i] != before.cells[i] {
            assert_eq!(before.cells[i], 0);
            assert!(b.cells[i] == 2 || b.cells[i] == 4);
        }
    }
}

#[test]
fn random_tile_fills_the_last_empty_cell() {
    let mut b = stuck();
    b.cells[6] = 0;
    add_random_tile(&mut b);
    assert!(b.cells[6] == 2 || b.cells[6] == 4);
}

#[test]
fn setup_places_two_tiles() {
    let b = setup();
    assert_eq!(occupied(&b), 2);
    assert!(b.cells.iter().all(|&c| c == 0 || c == 2 || c == 4));
}

#[test]
fn score_overflow_is_detected() {
    assert!(move_fits(&sample(), 0, Move::Left));
    assert!(!move_fits(&sample(), usize::MAX - 10, Move::Left));
    assert!(move_fits(&sample(), usize::MAX - 12, Move::Up));
    let big = Board {
        cells: [usize::MAX / 2 + 1, usize::MAX / 2 + 1, 0, 0, 0, 0, 0, 0, 0, 0, 0, 0, 0, 0, 0, 0],
    };
    assert!(!move_fits(&big, 0, Move::Left));
    assert!(move_fits(&big, usize::MAX, Move::Up));
}
