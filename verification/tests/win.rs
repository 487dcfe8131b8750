use loa_mcts::disjoint_set::DisjointSet;
use loa_mcts::win::is_win_state;

fn mask(squares: &[i32]) -> u64 {
    let mut m = 0u64;
    for &s in squares {
        m |= 1u64 << s;
    }
    m
}

#[test]
fn blob_against_scattered_pieces_wins() {
    assert_eq!(is_win_state(&[mask(&[0, 1]), mask(&[10, 50])]), Some(true));
    assert_eq!(is_win_state(&[mask(&[27, 28, 36, 45]), mask(&[0, 7, 63])]), Some(true));
}

#[test]
fn blob_of_the_other_side_loses() {
    assert_eq!(is_win_state(&[mask(&[10, 50]), mask(&[0, 1])]), Some(false));
}

#[test]
fn both_sides_scattered_goes_on() {
    assert_eq!(is_win_state(&[mask(&[0, 7]), mask(&[56, 63])]), None);
    assert_eq!(is_win_state(&[mask(&[0, 2]), mask(&[16, 32, 48])]), None);
}

#[test]
fn both_sides_in_one_group_counts_for_the_side_to_move() {
    assert_eq!(is_win_state(&[mask(&[0, 1]), mask(&[62, 63])]), Some(true));
}

#[test]
fn pieces_touching_at_a_corner_are_one_group() {
    assert_eq!(is_win_state(&[mask(&[0, 9, 18]), mask(&[7, 56])]), Some(true));
    assert_eq!(is_win_state(&[mask(&[7, 14, 21]), mask(&[0, 63])]), Some(true));
}

#[test]
fn squares_at_the_ends_of_two_rows_do_not_touch() {
    assert_eq!(is_win_state(&[mask(&[7, 8]), mask(&[40, 63])]), None);
}

#[test]
fn a_piece_apart_breaks_the_group() {
    assert_eq!(is_win_state(&[mask(&[0, 1, 20]), mask(&[7, 56])]), None);
}

#[test]
fn two_pairs_are_not_one_group() {
    assert_eq!(is_win_state(&[mask(&[0, 1, 62, 63]), mask(&[7, 56])]), None);
}

#[test]
fn a_long_winding_group_is_one_group() {
    let snake = mask(&[0, 1, 2, 11, 20, 29, 30, 31, 39, 47]);
    assert_eq!(is_win_state(&[snake, mask(&[56, 58])]), Some(true));
}

#[test]
fn opponent_with_one_piece_counts_as_connected() {
    assert_eq!(is_win_state(&[mask(&[0, 7]), mask(&[30])]), Some(true));
}

#[test]
fn side_with_one_piece_against_scattered_pieces_loses() {
    assert_eq!(is_win_state(&[mask(&[0]), mask(&[10, 50])]), Some(false));
}

#[test]
fn one_piece_each_counts_for_the_side_to_move() {
    assert_eq!(is_win_state(&[mask(&[0]), mask(&[50])]), Some(true));
}

#[test]
fn side_without_pieces_counts_as_connected() {
    assert_eq!(is_win_state(&[0, mask(&[10, 50])]), Some(true));
    assert_eq!(is_win_state(&[mask(&[10, 50]), 0]), Some(false));
    assert_eq!(is_win_state(&[0, 0]), Some(true));
}

#[test]
fn disjoint_set_starts_with_every_element_alone() {
    let mut set = DisjointSet::new();
    for i in 0..64 {
        assert_eq!(set.get(i), i);
    }
    assert!(set.is_joint(&vec![5]));
    assert!(set.is_joint(&vec![]));
    assert!(!set.is_joint(&vec![5, 6]));
}

#[test]
fn disjoint_set_join_merges_groups() {
    let mut set = DisjointSet::new();
    set.join(1, 2);
    set.join(3, 4);
    assert!(set.is_joint(&vec![1, 2]));
    assert!(set.is_joint(&vec![3, 4]));
    assert!(!set.is_joint(&vec![1, 2, 3]));
    set.join(2, 3);
    assert!(set.is_joint(&vec![1, 2, 3, 4]));
    assert!(!set.is_joint(&vec![1, 2, 3, 4, 5]));
    assert_eq!(set.get(1), set.get(4));
    assert_ne!(set.get(1), set.get(0));
}

#[test]
fn disjoint_set_join_hangs_the_second_group_below_the_first() {
    let mut set = DisjointSet::new();
    set.join(1, 2);
    assert_eq!(set.get(2), 1);
    set.join(7, 1);
    assert_eq!(set.get(2), 7);
    assert_eq!(set.get(1), 7);
    set.join(2, 7);
    assert_eq!(set.get(7), 7);
}
