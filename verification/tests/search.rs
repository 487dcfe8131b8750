use loa_mcts::board::{apply_move, from_sparse_board};
use loa_mcts::engine::{my_plain_solution, run_passes, Move, SearchError, SearchStats, MAX_NODE};
use loa_mcts::moves::gen_all_moves;
use loa_mcts::rng::{FakeRng, MyRng, RngProvider};
use loa_mcts::search::mcts_search_pass;
use loa_mcts::tree::{SearchNode, SearchNodeData};
use loa_mcts::win::is_win_state;

fn mask(squares: &[i32]) -> u64 {
    let mut m = 0u64;
    for &s in squares {
        m |= 1u64 << s;
    }
    m
}

fn cells(first: &[usize], second: &[usize]) -> Vec<i32> {
    let mut v = vec![-1i32; 64];
    for &i in first {
        v[i] = 0;
    }
    for &i in second {
        v[i] = 1;
    }
    v
}

fn open_board() -> [u64; 2] {
    [mask(&[0, 7, 27]), mask(&[56, 63, 36])]
}

fn ucb(wins: u64, visits: u64, parent_visits: u64) -> i64 {
    let c = 1.414f32 * 3e-1;
    let (a1, b1, b0) = (wins as f32, visits as f32, parent_visits as f32);
    let fact = 1f32 - a1 / b1 + c * (b0.ln() / b1).sqrt();
    if fact.is_nan() {
        i64::MIN
    } else if fact > 0f32 {
        fact.to_bits() as i64
    } else if fact == 0f32 {
        0
    } else {
        -((fact.to_bits() & 0x7fff_ffff) as i64)
    }
}

fn children(node: &SearchNode) -> &Vec<SearchNode> {
    match &node.data {
        Some((SearchNodeData::Mid { childs, .. }, _, _)) => childs,
        _ => panic!("no children"),
    }
}

fn visits(node: &SearchNode) -> u64 {
    match &node.data {
        Some((_, _, v)) => *v,
        None => 0,
    }
}

fn wins(node: &SearchNode) -> u64 {
    match &node.data {
        Some((_, w, _)) => *w,
        None => 0,
    }
}

fn cursor(node: &SearchNode) -> (usize, bool) {
    match &node.data {
        Some((SearchNodeData::Mid { curr, full, .. }, _, _)) => (*curr, *full),
        _ => panic!("no cursor"),
    }
}

fn check_tree(node: &SearchNode, own: &[u64; 2], root: bool) {
    match &node.data {
        None => {}
        Some((SearchNodeData::Term(win), w, v)) => {
            assert_eq!(is_win_state(own), Some(*win));
            assert!(w <= v);
        }
        Some((SearchNodeData::Mid { curr, full, board, childs }, w, v)) => {
            assert_eq!(board, own);
            assert_eq!(is_win_state(own), None);
            assert!(w <= v);
            assert!(root || *v >= 1);
            let moves = gen_all_moves(own);
            assert_eq!(childs.len(), moves.len());
            if *full {
                assert_eq!(*curr, 0);
            } else {
                assert!(*curr < childs.len());
            }
            for (i, child) in childs.iter().enumerate() {
                assert_eq!(child.curr_move, moves[i]);
                assert!(visits(child) <= *v);
                assert!(root || child.data.is_none() || visits(child) < *v);
                assert_eq!(child.data.is_some(), *full || i < *curr);
                check_tree(child, &apply_move(own, child.curr_move.0, child.curr_move.1), false);
            }
        }
    }
}

#[test]
fn select_visits_the_children_in_turn() {
    let board = open_board();
    let mut root = SearchNode::root(&board);
    let n = children(&root).len();
    assert!(n > 2);
    for i in 0..n {
        assert_eq!(cursor(&root), (i, false));
        let (target, path) = root.select(&board, &ucb);
        assert_eq!(target, Some(board));
        assert_eq!(path, vec![i]);
    }
    assert_eq!(cursor(&root), (0, true));
    assert_eq!(visits(&root), 0);
}

#[test]
fn select_stops_at_a_node_that_was_not_reached() {
    let mut node = SearchNode { curr_move: (27, 28), data: None };
    let (target, path) = node.select(&[5, 6], &ucb);
    assert_eq!(target, Some([5, 6]));
    assert_eq!(path, Vec::<usize>::new());
    assert_eq!(node, SearchNode { curr_move: (27, 28), data: None });
}

#[test]
fn select_stops_at_a_finished_game() {
    let mut node = SearchNode { curr_move: (1, 2), data: Some((SearchNodeData::Term(true), 1, 2)) };
    let (target, path) = node.select(&[5, 6], &ucb);
    assert_eq!(target, Some([5, 6]));
    assert_eq!(path, Vec::<usize>::new());
}

#[test]
fn select_goes_on_in_the_best_child() {
    let board = open_board();
    let mut root = SearchNode::root(&board);
    let mut rng: RngProvider = MyRng::new(FakeRng::new(1));
    let n = children(&root).len();
    run_passes(&mut root, &board, &mut rng, &ucb, n);
    assert_eq!(cursor(&root), (0, true));
    let best = root.find_max(&ucb).unwrap();
    let child_board = match &children(&root)[best].data {
        Some((SearchNodeData::Mid { board, .. }, _, _)) => Some(*board),
        _ => None,
    };
    let (target, path) = root.select(&board, &ucb);
    match child_board {
        Some(b) => {
            assert_eq!(path, vec![best, 0]);
            assert_eq!(target, Some(b));
            assert_eq!(cursor(&children(&root)[best]).0, 1);
        }
        None => {
            assert_eq!(path, vec![best]);
            assert_eq!(target, Some(board));
        }
    }
}

#[test]
fn select_fails_below_a_node_without_a_child_to_choose() {
    let mut node = SearchNode {
        curr_move: (100, 100),
        data: Some((
            SearchNodeData::Mid { curr: 0, full: true, board: open_board(), childs: vec![] },
            0,
            4,
        )),
    };
    let (target, path) = node.select(&open_board(), &ucb);
    assert_eq!(target, None);
    assert_eq!(path, Vec::<usize>::new());
    let mut rng: RngProvider = MyRng::new(FakeRng::new(1));
    let pass = mcts_search_pass(&mut node, &open_board(), &mut rng, &ucb);
    assert_eq!((pass.hit, pass.win, pass.expand_term), (false, false, false));
    assert_eq!((pass.expand_depth, pass.simulate_depth), (1, 0));
    assert_eq!((wins(&node), visits(&node)), (0, 5));
}

#[test]
fn first_pass_reaches_the_first_child() {
    let board = open_board();
    let mut root = SearchNode::root(&board);
    let mut rng: RngProvider = MyRng::new(FakeRng::new(7));
    let pass = mcts_search_pass(&mut root, &board, &mut rng, &ucb);
    assert_eq!(pass.expand_depth, 2);
    assert_eq!(visits(&root), 1);
    assert_eq!(cursor(&root), (1, false));
    let first = &children(&root)[0];
    assert_eq!(visits(first), 1);
    assert!(children(&root)[1].data.is_none());
    if pass.hit {
        assert_eq!(wins(first) == 1, !pass.win);
        assert_eq!(wins(&root) == 1, pass.win);
    } else {
        assert_eq!(pass.simulate_depth, 256);
        assert_eq!(wins(first), 0);
        assert_eq!(wins(&root), 1);
        assert!(pass.win);
    }
    check_tree(&root, &board, true);
}

#[test]
fn pass_at_a_finished_root_counts_what_the_root_holds() {
    let board = [mask(&[0, 1]), mask(&[10, 50])];
    let mut root = SearchNode::root(&board);
    let mut rng: RngProvider = MyRng::new(FakeRng::new(7));
    let before: RngProvider = MyRng::new(FakeRng::new(7));
    let pass = mcts_search_pass(&mut root, &board, &mut rng, &ucb);
    assert_eq!(pass.hit, true);
    assert_eq!(pass.win, true);
    assert_eq!(pass.expand_term, true);
    assert_eq!(pass.expand_depth, 1);
    assert_eq!(pass.simulate_depth, 0);
    assert_eq!(root.data, Some((SearchNodeData::Term(true), 1, 1)));
    assert_eq!(rng, before);
}

#[test]
fn root_counts_one_visit_for_each_pass() {
    let board = open_board();
    let mut root = SearchNode::root(&board);
    let mut rng: RngProvider = MyRng::new(FakeRng::new(11));
    for n in 1..=300u64 {
        mcts_search_pass(&mut root, &board, &mut rng, &ucb);
        assert_eq!(visits(&root), n);
    }
    let stats = run_passes(&mut root, &board, &mut rng, &ucb, 200);
    assert_eq!(stats.passes, 200);
    assert_eq!(visits(&root), 500);
    let sum: u64 = children(&root).iter().map(visits).sum();
    assert_eq!(sum, 500);
    check_tree(&root, &board, true);
}

#[test]
fn counts_of_a_run() {
    let board = open_board();
    let mut root = SearchNode::root(&board);
    let mut rng: RngProvider = MyRng::new(FakeRng::new(5));
    let mut twin_root = SearchNode::root(&board);
    let mut twin: RngProvider = MyRng::new(FakeRng::new(5));
    let stats = run_passes(&mut root, &board, &mut rng, &ucb, 150);
    let mut want = SearchStats::new();
    assert_eq!(want.min_expand_depth, 256);
    assert_eq!(want.min_simulate_depth, 256);
    for _ in 0..150 {
        let pass = mcts_search_pass(&mut twin_root, &board, &mut twin, &ucb);
        want.absorb(&pass);
    }
    assert_eq!(stats, want);
    assert_eq!(root, twin_root);
    assert_eq!(stats.passes, 150);
    assert!(stats.hit_cnt <= 150);
    assert!(stats.min_expand_depth <= stats.max_expand_depth);
    assert!(stats.min_simulate_depth <= stats.max_simulate_depth);
    assert!(stats.total_expand_depth >= 300);
    assert_eq!(stats.min_expand_depth, 2);
}

#[test]
fn absorb_adds_one_pass() {
    let mut stats = SearchStats::new();
    let pass = loa_mcts::tree::MCTSSearchPass {
        hit: true,
        win: false,
        expand_term: true,
        expand_depth: 3,
        simulate_depth: 17,
    };
    stats.absorb(&pass);
    let second = loa_mcts::tree::MCTSSearchPass {
        hit: false,
        win: true,
        expand_term: false,
        expand_depth: 5,
        simulate_depth: 256,
    };
    stats.absorb(&second);
    assert_eq!(
        stats,
        SearchStats {
            passes: 2,
            hit_cnt: 1,
            expand_term_cnt: 1,
            total_expand_depth: 8,
            max_expand_depth: 5,
            min_expand_depth: 3,
            total_simulate_depth: 273,
            max_simulate_depth: 256,
            min_simulate_depth: 17,
        }
    );
}

#[test]
fn same_seed_same_tree() {
    let board = open_board();
    let mut first = SearchNode::root(&board);
    let mut second = SearchNode::root(&board);
    let mut rng1: RngProvider = MyRng::new(FakeRng::new(42));
    let mut rng2: RngProvider = MyRng::new(FakeRng::new(42));
    let stats1 = run_passes(&mut first, &board, &mut rng1, &ucb, 400);
    let stats2 = run_passes(&mut second, &board, &mut rng2, &ucb, 400);
    assert_eq!(first, second);
    assert_eq!(stats1, stats2);
    assert_eq!(rng1, rng2);
    assert_eq!(first.find_max(&ucb), second.find_max(&ucb));
}

#[test]
fn same_seed_same_move() {
    let sparse = cells(&[0, 7, 27], &[56, 63, 36]);
    let mut rng1: RngProvider = MyRng::new(FakeRng::new(200));
    let mut rng2: RngProvider = MyRng::new(FakeRng::new(200));
    let a = my_plain_solution(0, &sparse, &mut rng1, &ucb);
    let b = my_plain_solution(0, &sparse, &mut rng2, &ucb);
    assert_eq!(a, b);
    assert_eq!(rng1, rng2);
    assert_eq!(a.1.passes, MAX_NODE);
    assert!(a.0.is_ok());
}

#[test]
fn solution_is_a_legal_move() {
    let sparse = cells(&[0, 7, 27], &[56, 63, 36]);
    let board = from_sparse_board(&sparse, 0);
    let mut rng: RngProvider = MyRng::new(FakeRng::new(3));
    let (best, stats) = my_plain_solution(0, &sparse, &mut rng, &ucb);
    assert_eq!(stats.passes, 8196);
    let m = best.unwrap();
    let src = m.x0 + 8 * m.y0;
    let dst = m.x1 + 8 * m.y1;
    assert!(gen_all_moves(&board).contains(&(src, dst)));
}

#[test]
fn solution_for_the_second_side() {
    let sparse = cells(&[0, 7, 27], &[56, 63, 36]);
    let board = from_sparse_board(&sparse, 1);
    assert_eq!(board, [mask(&[56, 63, 36]), mask(&[0, 7, 27])]);
    let mut rng: RngProvider = MyRng::new(FakeRng::new(3));
    let (best, _) = my_plain_solution(1, &sparse, &mut rng, &ucb);
    let m = best.unwrap();
    assert!(gen_all_moves(&board).contains(&(m.x0 + 8 * m.y0, m.x1 + 8 * m.y1)));
}

#[test]
fn two_pieces_on_a_row_against_two_scattered_pieces() {
    let sparse = cells(&[0, 7], &[26, 44]);
    let board = from_sparse_board(&sparse, 0);
    assert_eq!(is_win_state(&board), None);
    let mut rng: RngProvider = MyRng::new(FakeRng::new(77));
    let (best, _) = my_plain_solution(0, &sparse, &mut rng, &ucb);
    let Move { x0, y0, x1, y1 } = best.unwrap();
    let (src, dst) = (x0 + 8 * y0, x1 + 8 * y1);
    assert!(src == 0 || src == 7);
    assert_ne!(dst, 0);
    assert_ne!(dst, 7);
    let (dx, dy) = (x1 - x0, y1 - y0);
    assert!(dx == 0 || dy == 0 || dx.abs() == dy.abs());
    let len = dx.abs().max(dy.abs());
    let mut on_line = 0;
    for s in 0..64 {
        let (x, y) = (s % 8, s / 8);
        let same = if dy == 0 {
            y == y0
        } else if dx == 0 {
            x == x0
        } else if dx.signum() == dy.signum() {
            x - y == x0 - y0
        } else {
            x + y == x0 + y0
        };
        if same && (board[0] | board[1]) & (1u64 << s) != 0 {
            on_line += 1;
        }
    }
    assert_eq!(len, on_line);
    for k in 1..len {
        let s = (x0 + k * dx.signum()) + 8 * (y0 + k * dy.signum());
        assert_eq!(board[1] & (1u64 << s), 0);
    }
    if dy == 0 {
        assert_eq!(len, 2);
    }
}

#[test]
fn two_pieces_against_a_single_piece_is_a_finished_game() {
    let sparse = cells(&[0, 7], &[36]);
    let board = from_sparse_board(&sparse, 0);
    assert_eq!(is_win_state(&board), Some(true));
    let mut rng: RngProvider = MyRng::new(FakeRng::new(77));
    let (best, stats) = my_plain_solution(0, &sparse, &mut rng, &ucb);
    assert_eq!(best, Err(SearchError::NoLegalMove));
    assert_eq!(stats.passes, MAX_NODE);
    assert_eq!(stats.hit_cnt, MAX_NODE);
    assert_eq!(stats.expand_term_cnt, MAX_NODE);
    assert_eq!(stats.max_simulate_depth, 0);
}

#[test]
fn no_move_for_a_side_without_pieces() {
    let sparse = cells(&[], &[3, 40]);
    let mut rng: RngProvider = MyRng::new(FakeRng::new(0));
    let (best, _) = my_plain_solution(0, &sparse, &mut rng, &ucb);
    assert_eq!(best, Err(SearchError::NoLegalMove));
}

fn grown(a: &SearchNode, b: &SearchNode) {
    assert_eq!(a.curr_move, b.curr_move);
    assert!(visits(a) <= visits(b));
    match (&a.data, &b.data) {
        (None, _) => {}
        (Some((SearchNodeData::Term(x), _, _)), Some((SearchNodeData::Term(y), _, _))) => {
            assert_eq!(x, y)
        }
        (
            Some((SearchNodeData::Mid { full: f1, board: b1, childs: c1, .. }, _, _)),
            Some((SearchNodeData::Mid { full: f2, board: b2, childs: c2, .. }, _, _)),
        ) => {
            assert_eq!(b1, b2);
            assert_eq!(c1.len(), c2.len());
            assert!(!*f1 || *f2);
            for (x, y) in c1.iter().zip(c2.iter()) {
                grown(x, y);
            }
        }
        _ => panic!("a node changed its kind"),
    }
}

#[test]
fn a_tree_only_grows() {
    let board = open_board();
    let mut earlier = SearchNode::root(&board);
    let mut later = SearchNode::root(&board);
    let mut rng1: RngProvider = MyRng::new(FakeRng::new(21));
    let mut rng2: RngProvider = MyRng::new(FakeRng::new(21));
    run_passes(&mut earlier, &board, &mut rng1, &ucb, 120);
    run_passes(&mut later, &board, &mut rng2, &ucb, 121);
    grown(&earlier, &later);
    assert_ne!(earlier, later);
    run_passes(&mut later, &board, &mut rng2, &ucb, 300);
    grown(&earlier, &later);
    check_tree(&later, &board, true);
}

#[test]
fn settle_counts_along_the_way() {
    let board = open_board();
    let mut root = SearchNode::root(&board);
    let mut rng: RngProvider = MyRng::new(FakeRng::new(2));
    let (target, path) = root.select(&board, &ucb);
    assert_eq!((target, path.clone()), (Some(board), vec![0]));
    let pass = root.settle(&path, 0, target, &mut rng);
    assert_eq!(pass.expand_depth, 2);
    assert_eq!(visits(&root), 1);
    let child = &children(&root)[0];
    assert_eq!(visits(child), 1);
    assert_eq!(wins(child) == 1, !pass.win);
    assert_eq!(wins(&root) == 1, pass.win);
    assert_eq!(pass.expand_term, matches!(child.data, Some((SearchNodeData::Term(_), _, _))));
}

#[test]
fn pass_goes_on_in_the_only_child_when_the_formula_gives_zero() {
    let board = open_board();
    let mut root = SearchNode {
        curr_move: (100, 100),
        data: Some((
            SearchNodeData::Mid {
                curr: 0,
                full: true,
                board,
                childs: vec![SearchNode {
                    curr_move: (0, 1),
                    data: Some((SearchNodeData::Term(true), 1, 1)),
                }],
            },
            0,
            1,
        )),
    };
    assert_eq!(ucb(1, 1, 1), 0);
    assert_eq!(root.find_max(&ucb), Some(0));
    let mut rng: RngProvider = MyRng::new(FakeRng::new(4));
    let pass = mcts_search_pass(&mut root, &board, &mut rng, &ucb);
    assert_eq!((pass.hit, pass.win, pass.expand_term), (true, false, true));
    assert_eq!((pass.expand_depth, pass.simulate_depth), (2, 0));
    assert_eq!((wins(&root), visits(&root)), (0, 2));
    assert_eq!((wins(&children(&root)[0]), visits(&children(&root)[0])), (2, 2));
}

#[test]
fn a_move_is_given_whenever_the_game_goes_on_and_there_is_one() {
    let zero = |_w: u64, _v: u64, _p: u64| -> i64 { 0 };
    let below = |_w: u64, v: u64, _p: u64| -> i64 { -(v as i64) - 1 };
    for (first, second) in [
        (vec![0usize, 7, 27], vec![56usize, 63, 36]),
        (vec![0, 7], vec![26, 44]),
        (vec![3, 12, 40, 61], vec![1, 30, 33]),
    ] {
        let sparse = cells(&first, &second);
        let board = from_sparse_board(&sparse, 0);
        assert_eq!(is_win_state(&board), None);
        let moves = gen_all_moves(&board);
        assert!(!moves.is_empty());
        let mut rng: RngProvider = MyRng::new(FakeRng::new(1));
        let (best, _) = my_plain_solution(0, &sparse, &mut rng, &zero);
        let m = best.unwrap();
        assert_eq!((m.x0 + 8 * m.y0, m.x1 + 8 * m.y1), moves[0]);
        let mut rng: RngProvider = MyRng::new(FakeRng::new(1));
        let (best, _) = my_plain_solution(0, &sparse, &mut rng, &below);
        let m = best.unwrap();
        assert!(moves.contains(&(m.x0 + 8 * m.y0, m.x1 + 8 * m.y1)));
    }
}
