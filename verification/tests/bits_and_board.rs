use loa_mcts::bits::{higher_eq, lower_eq, to_coord, to_coord_2d, to_piece, COL, ROW, SLASH0, SLASH1};
use loa_mcts::board::{apply_move, from_sparse_board};

fn cells(first: &[usize], second: &[usize]) -> Vec<i32> {
    let mut v = vec![-1i32; 64];
    for &i in first {
        v[i] = 0;
    }
    for &i in second {
        v[i] = 1;
    }
    v
}

#[test]
fn piece_is_a_single_bit() {
    assert_eq!(to_piece(0), 1);
    assert_eq!(to_piece(5), 32);
    assert_eq!(to_piece(63), 1u64 << 63);
}

#[test]
fn piece_counts_squares_modulo_64() {
    assert_eq!(to_piece(100), 1u64 << 36);
    assert_eq!(to_piece(64), 1);
    assert_eq!(to_piece(-1), 1u64 << 63);
}

#[test]
fn higher_eq_holds_the_square_and_all_above() {
    assert_eq!(higher_eq(0), u64::MAX);
    assert_eq!(higher_eq(4), 0xFFFF_FFFF_FFFF_FFF0);
    assert_eq!(higher_eq(63), 1u64 << 63);
}

#[test]
fn lower_eq_holds_the_square_and_all_below() {
    assert_eq!(lower_eq(0), 1);
    assert_eq!(lower_eq(4), 0x1F);
    assert_eq!(lower_eq(63), u64::MAX);
}

#[test]
fn coordinates_of_a_square() {
    assert_eq!(to_coord_2d(0), (0, 0));
    assert_eq!(to_coord_2d(7), (7, 0));
    assert_eq!(to_coord_2d(8), (0, 1));
    assert_eq!(to_coord_2d(27), (3, 3));
    assert_eq!(to_coord_2d(63), (7, 7));
    assert_eq!(to_coord_2d(100), (4, 12));
}

#[test]
fn square_of_coordinates() {
    assert_eq!(to_coord((0, 0)), 0);
    assert_eq!(to_coord((3, 3)), 27);
    assert_eq!(to_coord((7, 7)), 63);
    for sq in 0..64 {
        assert_eq!(to_coord(to_coord_2d(sq)), sq);
    }
}

#[test]
fn line_constants() {
    assert_eq!(ROW, 0xFF);
    assert_eq!(COL, 0x0101_0101_0101_0101);
    assert_eq!(SLASH0.count_ones(), 8);
    assert_eq!(SLASH1.count_ones(), 8);
    for i in 0..8 {
        assert_ne!(SLASH1 & to_piece(9 * i), 0);
        assert_ne!(SLASH0 & to_piece(7 + 7 * i), 0);
    }
}

#[test]
fn sparse_board_for_the_first_side() {
    let b = from_sparse_board(&cells(&[0, 7], &[30]), 0);
    assert_eq!(b, [(1u64 << 0) | (1u64 << 7), 1u64 << 30]);
}

#[test]
fn sparse_board_is_swapped_for_the_second_side() {
    let b = from_sparse_board(&cells(&[0, 7], &[30]), 1);
    assert_eq!(b, [1u64 << 30, (1u64 << 0) | (1u64 << 7)]);
}

#[test]
fn sparse_board_reads_rows_of_eight() {
    let b = from_sparse_board(&cells(&[8], &[63]), 0);
    assert_eq!(to_coord_2d(8), (0, 1));
    assert_eq!(b, [1u64 << 8, 1u64 << 63]);
}

#[test]
fn sparse_board_takes_any_negative_cell_as_empty() {
    let mut v = cells(&[3], &[4]);
    v[10] = -7;
    assert_eq!(from_sparse_board(&v, 0), [8, 16]);
}

#[test]
fn empty_sparse_board() {
    assert_eq!(from_sparse_board(&cells(&[], &[]), 0), [0, 0]);
}

#[test]
fn apply_move_moves_the_piece_and_swaps_the_sides() {
    let b = [(1u64 << 0) | (1u64 << 7), 1u64 << 30];
    assert_eq!(apply_move(&b, 0, 2), [1u64 << 30, (1u64 << 2) | (1u64 << 7)]);
}

#[test]
fn apply_move_keeps_the_piece_that_is_landed_on() {
    let b = [1u64 << 0, 1u64 << 2];
    let next = apply_move(&b, 0, 2);
    assert_eq!(next, [1u64 << 2, 1u64 << 2]);
    assert_ne!(next[0] & next[1], 0);
}

#[test]
fn apply_move_to_a_free_square_keeps_the_sides_apart() {
    let b = [(1u64 << 0) | (1u64 << 9), (1u64 << 20) | (1u64 << 40)];
    let next = apply_move(&b, 0, 2);
    assert_eq!(next[0] & next[1], 0);
    assert_ne!(next[1] & (1u64 << 2), 0);
    assert_eq!(next[1] & (1u64 << 0), 0);
}

#[test]
fn apply_move_of_the_empty_move_counts_modulo_64() {
    let b = [1u64 << 0, 1u64 << 2];
    assert_eq!(apply_move(&b, 100, 100), [1u64 << 2, (1u64 << 0) | (1u64 << 36)]);
}
