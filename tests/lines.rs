use game2048::line::{compact_line, line_gain, move_and_combine};

#[test]
fn four_equal_tiles_merge_in_two_pairs() {
    assert_eq!(move_and_combine(&[2, 2, 2, 2], 0), ([4, 4, 0, 0], 8));
}

#[test]
fn trailing_pair_moves_to_front() {
    assert_eq!(move_and_combine(&[0, 0, 2, 2], 0), ([4, 0, 0, 0], 4));
}

#[test]
fn score_accumulates_onto_previous() {
    assert_eq!(move_and_combine(&[0, 0, 2, 2], 10), ([4, 0, 0, 0], 14));
}

#[test]
fn gap_between_equal_tiles_closes_and_merges() {
    assert_eq!(move_and_combine(&[2, 0, 2, 0], 0), ([4, 0, 0, 0], 4));
}

#[test]
fn merged_tile_does_not_merge_again() {
    assert_eq!(move_and_combine(&[2, 2, 4, 0], 0), ([4, 4, 0, 0], 4));
    assert_eq!(move_and_combine(&[4, 4, 8, 8], 0), ([8, 16, 0, 0], 24));
}

#[test]
fn middle_pair_merges() {
    assert_eq!(move_and_combine(&[4, 2, 2, 0], 0), ([4, 4, 0, 0], 4));
    assert_eq!(move_and_combine(&[4, 2, 2, 2], 0), ([4, 4, 2, 0], 4));
}

#[test]
fn back_pair_merges() {
    assert_eq!(move_and_combine(&[2, 4, 8, 8], 0), ([2, 4, 16, 0], 16));
}

#[test]
fn settled_line_is_unchanged() {
    assert_eq!(move_and_combine(&[2, 4, 8, 16], 5), ([2, 4, 8, 16], 5));
    assert_eq!(move_and_combine(&[0, 0, 0, 0], 0), ([0, 0, 0, 0], 0));
}

#[test]
fn second_slide_of_settled_result_changes_nothing() {
    let (once, s1) = move_and_combine(&[0, 2, 0, 4], 0);
    let (twice, s2) = move_and_combine(&once, s1);
    assert_eq!(once, [2, 4, 0, 0]);
    assert_eq!(twice, once);
    assert_eq!(s2, s1);
}

#[test]
fn compaction_is_idempotent() {
    let c = compact_line(&[0, 8, 0, 2]);
    assert_eq!(c, [8, 2, 0, 0]);
    assert_eq!(compact_line(&c), c);
}

#[test]
fn compaction_keeps_first_four_tiles_of_longer_slice() {
    assert_eq!(compact_line(&[0, 3, 0, 5, 7, 9, 11]), [3, 5, 7, 9]);
    assert_eq!(compact_line(&[]), [0, 0, 0, 0]);
}

#[test]
fn line_gain_counts_merged_values() {
    assert_eq!(line_gain(&[2, 2, 2, 2]), 8);
    assert_eq!(line_gain(&[2, 4, 8, 16]), 0);
    assert_eq!(line_gain(&[0, 1024, 0, 1024]), 2048);
}
