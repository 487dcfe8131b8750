use loa_mcts::bits::to_coord_2d;
use loa_mcts::board::apply_move;
use loa_mcts::moves::{between_clear, gen_all_moves, gen_moves, line_mask, occupied, EMPTY_MOVE};

fn mask(squares: &[i32]) -> u64 {
    let mut m = 0u64;
    for &s in squares {
        m |= 1u64 << s;
    }
    m
}

#[test]
fn empty_move_is_outside_the_grid() {
    assert_eq!(EMPTY_MOVE, (100, 100));
}

#[test]
fn line_masks_through_a_square() {
    assert_eq!(line_mask(0, 27), mask(&[3, 11, 19, 27, 35, 43, 51, 59]));
    assert_eq!(line_mask(1, 27), mask(&[24, 25, 26, 27, 28, 29, 30, 31]));
    assert_eq!(line_mask(2, 27), mask(&[6, 13, 20, 27, 34, 41, 48]));
    assert_eq!(line_mask(3, 27), mask(&[0, 9, 18, 27, 36, 45, 54, 63]));
}

#[test]
fn line_masks_in_the_corners() {
    assert_eq!(line_mask(2, 0), mask(&[0]));
    assert_eq!(line_mask(2, 63), mask(&[63]));
    assert_eq!(line_mask(3, 7), mask(&[7]));
    assert_eq!(line_mask(3, 56), mask(&[56]));
    assert_eq!(line_mask(2, 7), mask(&[7, 14, 21, 28, 35, 42, 49, 56]));
    assert_eq!(line_mask(3, 8), mask(&[8, 17, 26, 35, 44, 53, 62]));
    assert_eq!(line_mask(3, 1), mask(&[1, 10, 19, 28, 37, 46, 55]));
}

#[test]
fn occupied_tests_one_square() {
    let m = mask(&[3, 40]);
    assert!(occupied(m, 3));
    assert!(occupied(m, 40));
    assert!(!occupied(m, 4));
}

#[test]
fn between_clear_looks_strictly_between() {
    let row = line_mask(1, 0);
    assert!(between_clear(mask(&[0, 3]), row, 0, 3));
    assert!(!between_clear(mask(&[2]), row, 0, 3));
    assert!(between_clear(mask(&[10]), row, 0, 3));
    assert!(between_clear(mask(&[1]), row, 1, 1));
}

#[test]
fn no_piece_no_moves() {
    let board = [mask(&[27]), mask(&[28])];
    assert_eq!(gen_moves(&board, 26), Vec::<i32>::new());
    assert_eq!(gen_moves(&board, 28), Vec::<i32>::new());
    assert_eq!(gen_moves(&board, -1), Vec::<i32>::new());
    assert_eq!(gen_moves(&board, 64), Vec::<i32>::new());
}

#[test]
fn lone_piece_moves_one_square_in_the_order_of_the_directions() {
    let board = [mask(&[27]), 0];
    assert_eq!(gen_moves(&board, 27), vec![35, 19, 28, 26, 34, 20, 36, 18]);
}

#[test]
fn lone_piece_in_a_corner_stays_on_the_grid() {
    let board = [mask(&[0]), 0];
    assert_eq!(gen_moves(&board, 0), vec![8, 1, 9]);
    let board = [mask(&[63]), 0];
    assert_eq!(gen_moves(&board, 63), vec![55, 62, 54]);
    let board = [mask(&[7]), 0];
    assert_eq!(gen_moves(&board, 7), vec![15, 6, 14]);
}

#[test]
fn slide_distance_with_three_pieces_on_the_row() {
    let board = [mask(&[24, 26]), mask(&[29])];
    assert_eq!(gen_moves(&board, 24), vec![32, 16, 27, 17, 33]);
}

#[test]
fn slide_distance_with_seven_pieces_on_the_row() {
    let board = [mask(&[0, 1, 2, 3, 4, 5, 6]), 0];
    let moves = gen_moves(&board, 0);
    assert!(moves.contains(&7));
    assert!(!moves.contains(&1));
    let moves = gen_moves(&board, 6);
    assert!(!moves.contains(&7));
    assert!(!moves.contains(&5));
    assert_eq!(moves, vec![14, 13, 15]);
}

#[test]
fn slide_distance_counts_both_sides() {
    let board = [mask(&[0]), mask(&[5])];
    let moves = gen_moves(&board, 0);
    assert!(moves.contains(&2));
    assert!(!moves.contains(&1));
}

#[test]
fn opponent_in_between_blocks() {
    let board = [mask(&[24]), mask(&[25, 29])];
    let moves = gen_moves(&board, 24);
    assert!(!moves.contains(&27));
    assert_eq!(moves, vec![32, 16, 17, 33]);
}

#[test]
fn own_piece_in_between_does_not_block() {
    let board = [mask(&[24, 25, 26]), 0];
    assert!(gen_moves(&board, 24).contains(&27));
}

#[test]
fn landing_on_an_opponent_is_a_move() {
    let board = [mask(&[0]), mask(&[2])];
    assert!(gen_moves(&board, 0).contains(&2));
}

#[test]
fn landing_on_an_own_piece_is_none() {
    let board = [mask(&[0, 2]), 0];
    assert!(!gen_moves(&board, 0).contains(&2));
}

#[test]
fn moves_down_and_to_lower_columns_are_blocked_alike() {
    let board = [mask(&[59]), mask(&[43, 35])];
    assert!(!gen_moves(&board, 59).contains(&35));
    let board = [mask(&[59]), mask(&[35, 3])];
    assert!(gen_moves(&board, 59).contains(&35));
    let board = [mask(&[31]), mask(&[30, 24])];
    assert!(!gen_moves(&board, 31).contains(&28));
}

#[test]
fn diagonal_slides_are_blocked_by_an_opponent_in_between() {
    let board = [mask(&[0]), mask(&[9, 63])];
    assert!(!gen_moves(&board, 0).contains(&27));
    let board = [mask(&[0]), mask(&[18, 63])];
    assert!(!gen_moves(&board, 0).contains(&27));
    let board = [mask(&[0, 9]), mask(&[63])];
    assert!(gen_moves(&board, 0).contains(&27));
    let board = [mask(&[7]), mask(&[14, 56])];
    assert!(!gen_moves(&board, 7).contains(&28));
    let board = [mask(&[7, 14]), mask(&[56])];
    assert!(gen_moves(&board, 7).contains(&28));
}

#[test]
fn all_moves_go_by_square_then_direction() {
    let board = [mask(&[0, 63]), 0];
    assert_eq!(
        gen_all_moves(&board),
        vec![(0, 8), (0, 1), (0, 18), (63, 55), (63, 62), (63, 45)]
    );
}

#[test]
fn all_moves_of_an_empty_side() {
    let board = [0, mask(&[5, 6])];
    assert_eq!(gen_all_moves(&board), Vec::<(i32, i32)>::new());
}

#[test]
fn every_generated_move_lands_its_piece() {
    let board = [mask(&[0, 9, 27, 40, 63]), mask(&[1, 18, 35, 50])];
    let moves = gen_all_moves(&board);
    assert!(!moves.is_empty());
    for (src, dst) in moves {
        assert!(0 <= dst && dst < 64);
        assert_ne!(src, dst);
        assert_eq!(board[0] & (1u64 << dst), 0);
        let next = apply_move(&board, src, dst);
        assert_eq!(next[0], board[1]);
        assert_ne!(next[1] & (1u64 << dst), 0);
        assert_eq!(next[1] & (1u64 << src), 0);
        assert_eq!(next[1].count_ones(), board[0].count_ones());
        if board[1] & (1u64 << dst) == 0 {
            assert_eq!(next[0] & next[1], 0);
        }
        let (x0, y0) = to_coord_2d(src);
        let (x1, y1) = to_coord_2d(dst);
        let (dx, dy) = ((x1 - x0).abs(), (y1 - y0).abs());
        assert!(dx == 0 || dy == 0 || dx == dy);
    }
}
