//! Terminal positions: a side has won once all of its pieces form one group of
//! neighbouring squares, or once its opponent is down to a single piece.

use vstd::prelude::*;
use crate::bits::{holds, low_ones, ones, to_coord, to_coord_2d};
use crate::disjoint_set::DisjointSet;
use crate::moves::occupied;

verus! {

/// Two different squares that touch, along an edge or at a corner.
pub open spec fn adjacent(a: int, b: int) -> bool {
    &&& 0 <= a < 64
    &&& 0 <= b < 64
    &&& a != b
    &&& -1 <= a % 8 - b % 8 <= 1
    &&& -1 <= a / 8 - b / 8 <= 1
}

/// A walk over occupied squares in which each square touches the next.
pub open spec fn is_path(mask: u64, p: Seq<int>) -> bool {
    &&& p.len() >= 1
    &&& forall|i: int| 0 <= i < p.len() ==> holds(mask, #[trigger] p[i])
    &&& forall|i: int| 0 <= i < p.len() - 1 ==> adjacent(#[trigger] p[i], p[i + 1])
}

/// Whether a walk over occupied squares leads from `a` to `b`.
pub open spec fn linked(mask: u64, a: int, b: int) -> bool {
    exists|p: Seq<int>| is_path(mask, p) && p[0] == a && p[p.len() - 1] == b
}

/// Whether some occupied square touches `a`.
pub open spec fn has_neighbour(mask: u64, a: int) -> bool {
    exists|b: int| holds(mask, b) && adjacent(a, b)
}

/// Whether every piece in `mask` touches another one and a walk over pieces
/// leads from each to each. True of the empty mask, false of a single piece.
pub open spec fn one_group(mask: u64) -> bool {
    &&& forall|a: int| holds(mask, a) ==> has_neighbour(mask, a)
    &&& forall|a: int, b: int| holds(mask, a) && holds(mask, b) ==> linked(mask, a, b)
}

/// Whether side `id` counts as connected: the other side has exactly one piece,
/// or the pieces of side `id` form one group.
pub open spec fn connected(board: [u64; 2], id: int) -> bool {
    ones(board[1 - id]) == 1 || one_group(board[id])
}

/// The state of a position: `None` while neither side is connected, else
/// whether the side to move is.
pub open spec fn win_state(board: [u64; 2]) -> Option<bool> {
    let win = connected(board, 0);
    let lose = connected(board, 1);
    if !win && !lose {
        None
    } else {
        Some(win)
    }
}

/// Column offset of the `k`-th neighbour.
pub open spec fn nb_dx(k: int) -> int {
    if k == 0 || k == 4 || k == 5 {
        1
    } else if k == 1 || k == 6 || k == 7 {
        -1
    } else {
        0
    }
}

/// Row offset of the `k`-th neighbour.
pub open spec fn nb_dy(k: int) -> int {
    if k == 2 || k == 4 || k == 7 {
        1
    } else if k == 3 || k == 5 || k == 6 {
        -1
    } else {
        0
    }
}

/// The `k`-th of the up to eight neighbours of `pos`, if it is on the grid.
pub open spec fn neighbour_of(pos: int, k: int) -> Option<int> {
    let x = pos % 8 + nb_dx(k);
    let y = pos / 8 + nb_dy(k);
    if 0 <= x < 8 && 0 <= y < 8 {
        Some(x + 8 * y)
    } else {
        None
    }
}

/// Whether the `k`-th neighbour of `pos` is on the grid and occupied.
pub open spec fn occupied_nb(mask: u64, pos: int, k: int) -> bool {
    match neighbour_of(pos, k) {
        Some(b) => holds(mask, b),
        None => false,
    }
}

/// Every neighbour of a square touches it.
proof fn lemma_neighbour_adjacent(a: int, k: int)
    requires
        0 <= a < 64,
        0 <= k < 8,
        neighbour_of(a, k) is Some,
    ensures
        adjacent(a, neighbour_of(a, k)->0),
{
    let b = neighbour_of(a, k)->0;
    let x = a % 8 + nb_dx(k);
    let y = a / 8 + nb_dy(k);
    assert(b == x + 8 * y);
    assert(b % 8 == x && b / 8 == y);
}

/// The neighbour index under which `b` is found from `a`.
pub open spec fn nb_index(a: int, b: int) -> int {
    let dx = b % 8 - a % 8;
    let dy = b / 8 - a / 8;
    if dy == 0 {
        if dx == 1 {
            0
        } else {
            1
        }
    } else if dx == 0 {
        if dy == 1 {
            2
        } else {
            3
        }
    } else if dx == 1 {
        if dy == 1 {
            4
        } else {
            5
        }
    } else {
        if dy == -1 {
            6
        } else {
            7
        }
    }
}

/// Every square that touches a square is one of its neighbours.
proof fn lemma_neighbours_complete(a: int, b: int)
    requires
        adjacent(a, b),
    ensures
        0 <= nb_index(a, b) < 8,
        neighbour_of(a, nb_index(a, b)) == Some(b),
{
    assert(b == b % 8 + 8 * (b / 8));
    assert(a == a % 8 + 8 * (a / 8));
}

/// A piece is linked to itself.
proof fn lemma_linked_refl(mask: u64, a: int)
    requires
        holds(mask, a),
    ensures
        linked(mask, a, a),
{
    let p = seq![a];
    assert(is_path(mask, p) && p[0] == a && p[p.len() - 1] == a);
}

/// Two pieces that touch are linked.
proof fn lemma_linked_edge(mask: u64, a: int, b: int)
    requires
        holds(mask, a),
        holds(mask, b),
        adjacent(a, b),
    ensures
        linked(mask, a, b),
{
    let p = seq![a, b];
    assert(is_path(mask, p) && p[0] == a && p[p.len() - 1] == b);
}

/// A walk can be gone backwards.
proof fn lemma_linked_sym(mask: u64, a: int, b: int)
    requires
        linked(mask, a, b),
    ensures
        linked(mask, b, a),
{
    let p = choose|p: Seq<int>| is_path(mask, p) && p[0] == a && p[p.len() - 1] == b;
    let n = p.len() as int;
    let q = Seq::new(p.len(), |i: int| p[n - 1 - i]);
    assert forall|i: int| 0 <= i < q.len() - 1 implies adjacent(#[trigger] q[i], q[i + 1]) by {
        assert(adjacent(p[n - 2 - i], p[n - 2 - i + 1]));
    }
    assert(is_path(mask, q) && q[0] == b && q[q.len() - 1] == a);
}

/// Two walks, one after the other, are a walk.
proof fn lemma_linked_trans(mask: u64, a: int, b: int, c: int)
    requires
        linked(mask, a, b),
        linked(mask, b, c),
    ensures
        linked(mask, a, c),
{
    let p = choose|p: Seq<int>| is_path(mask, p) && p[0] == a && p[p.len() - 1] == b;
    let q = choose|q: Seq<int>| is_path(mask, q) && q[0] == b && q[q.len() - 1] == c;
    let n = p.len() as int;
    let r = p + q.subrange(1, q.len() as int);
    assert forall|i: int| 0 <= i < r.len() implies holds(mask, #[trigger] r[i]) by {
        if i >= n {
            assert(r[i] == q[i - n + 1]);
        }
    }
    assert forall|i: int| 0 <= i < r.len() - 1 implies adjacent(#[trigger] r[i], r[i + 1]) by {
        if i < n - 1 {
            assert(adjacent(p[i], p[i + 1]));
        } else {
            assert(r[i + 1] == q[i - n + 2]);
            assert(adjacent(q[i - n + 1], q[i - n + 1 + 1]));
            if i >= n {
                assert(r[i] == q[i - n + 1]);
            }
        }
    }
    assert(is_path(mask, r) && r[0] == a && r[r.len() - 1] == c);
}

/// Two squares, each in the group of one end of an edge, are linked through it.
proof fn lemma_bridge(mask: u64, a: int, x: int, y: int, b: int)
    requires
        a == x || linked(mask, a, x),
        b == y || linked(mask, b, y),
        holds(mask, x),
        holds(mask, y),
        adjacent(x, y),
    ensures
        linked(mask, a, b),
{
    lemma_linked_refl(mask, x);
    lemma_linked_refl(mask, y);
    lemma_linked_edge(mask, x, y);
    lemma_linked_sym(mask, b, y);
    lemma_linked_trans(mask, a, x, y);
    lemma_linked_trans(mask, a, y, b);
}

/// A mask that holds two different squares holds more than one piece.
pub proof fn lemma_two_pieces(mask: u64, a: int, b: int)
    requires
        holds(mask, a),
        holds(mask, b),
        a != b,
    ensures
        ones(mask) >= 2,
{
    lemma_count_two(mask, a, b, 64);
}

/// Two different pieces below `n` count as two.
proof fn lemma_count_two(mask: u64, a: int, b: int, n: nat)
    requires
        holds(mask, a),
        holds(mask, b),
        a != b,
        n <= 64,
    ensures
        low_ones(mask, n) >= (if a < n {
            1nat
        } else {
            0nat
        }) + (if b < n {
            1nat
        } else {
            0nat
        }),
    decreases n,
{
    if n > 0 {
        lemma_count_two(mask, a, b, (n - 1) as nat);
    }
}

/// Two or more pieces, with a walk over pieces from each to each, form one
/// group: each of them touches another.
pub proof fn lemma_blob_is_one_group(mask: u64, a: int, b: int)
    requires
        holds(mask, a),
        holds(mask, b),
        a != b,
        forall|c: int, d: int| holds(mask, c) && holds(mask, d) ==> linked(mask, c, d),
    ensures
        one_group(mask),
{
    assert forall|c: int| holds(mask, c) implies has_neighbour(mask, c) by {
        let other = if c == a {
            b
        } else {
            a
        };
        assert(linked(mask, c, other));
        let p = choose|p: Seq<int>| is_path(mask, p) && p[0] == c && p[p.len() - 1] == other;
        assert(p.len() >= 2);
        assert(adjacent(p[0int], p[0int + 1]));
        assert(holds(mask, p[1]));
    }
}

/// The side to move wins where its pieces, two or more, form one group,
/// whatever the other side's pieces do.
pub proof fn lemma_blob_wins(board: [u64; 2], a: int, b: int)
    requires
        holds(board[0], a),
        holds(board[0], b),
        a != b,
        forall|c: int, d: int| holds(board[0], c) && holds(board[0], d) ==> linked(board[0], c, d),
    ensures
        win_state(board) == Some(true),
{
    lemma_blob_is_one_group(board[0], a, b);
}

/// The side to move has lost where the other side's pieces, two or more, form
/// one group and its own do not.
pub proof fn lemma_blob_of_the_other_side_wins(board: [u64; 2], a: int, b: int)
    requires
        holds(board[1], a),
        holds(board[1], b),
        a != b,
        forall|c: int, d: int| holds(board[1], c) && holds(board[1], d) ==> linked(board[1], c, d),
        !one_group(board[0]),
    ensures
        win_state(board) == Some(false),
{
    lemma_blob_is_one_group(board[1], a, b);
    lemma_two_pieces(board[1], a, b);
}

/// The game goes on where each side has two pieces that no walk over its
/// pieces connects.
pub proof fn lemma_both_scattered_goes_on(board: [u64; 2], a0: int, b0: int, a1: int, b1: int)
    requires
        holds(board[0], a0),
        holds(board[0], b0),
        !linked(board[0], a0, b0),
        holds(board[1], a1),
        holds(board[1], b1),
        !linked(board[1], a1, b1),
    ensures
        win_state(board) is None,
{
    lemma_linked_refl(board[0], a0);
    lemma_linked_refl(board[1], a1);
    lemma_two_pieces(board[0], a0, b0);
    lemma_two_pieces(board[1], a1, b1);
}

/// Whether `set` holds every two touching pieces of `mask`, the first of them
/// below `n`, in one group.
pub open spec fn edges_joined(set: DisjointSet, mask: u64, n: int) -> bool {
    forall|a: int, b: int|
        0 <= a < n && holds(mask, a) && holds(mask, b) && adjacent(a, b) ==> set.root(a)
            == set.root(b)
}

/// Whether `set` holds only linked pieces of `mask` in one group.
pub open spec fn groups_linked(set: DisjointSet, mask: u64) -> bool {
    forall|a: int, b: int|
        0 <= a < 64 && 0 <= b < 64 && set.root(a) == set.root(b) ==> a == b || linked(mask, a, b)
}

/// Where all touching pieces are in one group, so are all pieces on a walk.
proof fn lemma_path_roots(set: DisjointSet, mask: u64, p: Seq<int>, i: int)
    requires
        is_path(mask, p),
        edges_joined(set, mask, 64),
        0 <= i < p.len(),
    ensures
        set.root(p[0]) == set.root(p[i]),
    decreases i,
{
    if i > 0 {
        lemma_path_roots(set, mask, p, i - 1);
        assert(adjacent(p[i - 1], p[i - 1 + 1]));
        assert(holds(mask, p[i - 1]) && holds(mask, p[i]));
    }
}

/// The `k`-th neighbour of `pos`, if it is on the grid.
fn neighbour(pos: i32, k: u8) -> (r: Option<i32>)
    requires
        0 <= pos < 64,
        k < 8,
    ensures
        match r {
            Some(b) => neighbour_of(pos as int, k as int) == Some(b as int) && 0 <= b < 64,
            None => neighbour_of(pos as int, k as int) is None,
        },
{
    let (x0, y0) = to_coord_2d(pos);
    let dx: i32 = if k == 0 || k == 4 || k == 5 {
        1
    } else if k == 1 || k == 6 || k == 7 {
        -1
    } else {
        0
    };
    let dy: i32 = if k == 2 || k == 4 || k == 7 {
        1
    } else if k == 3 || k == 5 || k == 6 {
        -1
    } else {
        0
    };
    let x1 = x0 + dx;
    let y1 = y0 + dy;
    if x1 >= 0 && y1 >= 0 && x1 < 8 && y1 < 8 {
        Some(to_coord((x1, y1)))
    } else {
        None
    }
}

/// Whether side `id` counts as connected.
fn check(board: &[u64; 2], id: usize) -> (r: bool)
    requires
        id < 2,
    ensures
        r == connected(*board, id as int),
{
    if board[1 - id].count_ones() == 1 {
        return true;
    }
    let m = board[id];
    let mut set = DisjointSet::new();
    let mut items: Vec<i32> = Vec::new();
    let mut pos: i32 = 0;
    proof {
        assert(groups_linked(set, m));
    }
    while pos < 64
        invariant
            0 <= pos <= 64,
            id < 2,
            m == board[id as int],
            ones(board[1 - id]) != 1,
            set.wf(),
            groups_linked(set, m),
            edges_joined(set, m, pos as int),
            forall|a: int| 0 <= a < pos && holds(m, a) ==> has_neighbour(m, a),
            forall|i: int| 0 <= i < items.len() ==> holds(m, #[trigger] items[i] as int),
            forall|a: int| 0 <= a < pos && holds(m, a) ==> items@.contains(a as i32),
        decreases 64 - pos,
    {
        if occupied(m, pos) {
            let mut flag = false;
            let mut k: u8 = 0;
            while k < 8
                invariant
                    0 <= pos < 64,
                    k <= 8,
                    holds(m, pos as int),
                    set.wf(),
                    groups_linked(set, m),
                    edges_joined(set, m, pos as int),
                    forall|j: int|
                        0 <= j < k && occupied_nb(m, pos as int, j) ==> set.root(pos as int)
                            == set.root(#[trigger] neighbour_of(pos as int, j)->0),
                    flag <==> exists|j: int| 0 <= j < k && occupied_nb(m, pos as int, j),
                decreases 8 - k,
            {
                let ghost was = flag;
                if let Some(p) = neighbour(pos, k) {
                    if occupied(m, p) {
                        flag = true;
                        let ghost before = set;
                        set.join(pos, p);
                        proof {
                            lemma_neighbour_adjacent(pos as int, k as int);
                            assert forall|a: int, b: int|
                                0 <= a < 64 && 0 <= b < 64 && set.root(a) == set.root(
                                    b,
                                ) implies a == b || linked(m, a, b) by {
                                if before.root(a) != before.root(b) {
                                    if before.root(a) == before.root(p as int) {
                                        lemma_bridge(m, b, pos as int, p as int, a);
                                        lemma_linked_sym(m, b, a);
                                    } else {
                                        lemma_bridge(m, a, pos as int, p as int, b);
                                    }
                                }
                            }
                        }
                    }
                }
                assert(flag == (was || occupied_nb(m, pos as int, k as int)));
                k = k + 1;
            }
            proof {
                assert forall|b: int| holds(m, b) && adjacent(pos as int, b) implies set.root(
                    pos as int,
                ) == set.root(b) && flag by {
                    lemma_neighbours_complete(pos as int, b);
                    assert(occupied_nb(m, pos as int, nb_index(pos as int, b)));
                }
            }
            if !flag {
                proof {
                    assert(!has_neighbour(m, pos as int));
                }
                return false;
            }
            proof {
                let j = choose|j: int| 0 <= j < 8 && occupied_nb(m, pos as int, j);
                lemma_neighbour_adjacent(pos as int, j);
                assert(has_neighbour(m, pos as int));
            }
            let ghost prev = items@;
            items.push(pos);
            proof {
                assert(items@[prev.len() as int] == pos);
                assert forall|a: int| 0 <= a < pos + 1 && holds(m, a) implies items@.contains(
                    a as i32,
                ) by {
                    if a < pos {
                        let i = choose|i: int| 0 <= i < prev.len() && prev[i] == a as i32;
                        assert(items@[i] == a as i32);
                    }
                }
            }
        }
        pos = pos + 1;
    }
    let ghost done = set;
    let r = set.is_joint(&items);
    proof {
        if r {
            assert forall|a: int, b: int| holds(m, a) && holds(m, b) implies linked(m, a, b) by {
                let i = choose|i: int| 0 <= i < items.len() && items@[i] == a as i32;
                let j = choose|j: int| 0 <= j < items.len() && items@[j] == b as i32;
                assert(done.root(items[i] as int) == done.root(items[j] as int));
                if a == b {
                    lemma_linked_refl(m, a);
                }
            }
        } else {
            if one_group(m) {
                assert forall|i: int, j: int|
                    0 <= i < items.len() && 0 <= j < items.len() implies done.root(
                    items[i] as int,
                ) == done.root(items[j] as int) by {
                    let a = items[i] as int;
                    let b = items[j] as int;
                    assert(linked(m, a, b));
                    let p = choose|p: Seq<int>|
                        is_path(m, p) && p[0] == a && p[p.len() - 1] == b;
                    lemma_path_roots(done, m, p, p.len() - 1);
                }
            }
        }
    }
    r
}

/// The state of a position: `None` while the game goes on, else whether the
/// side to move counts as connected.
pub fn is_win_state(board: &[u64; 2]) -> (r: Option<bool>)
    ensures
        r == win_state(*board),
{
    let win = check(board, 0);
    let lose = check(board, 1);
    if !win && !lose {
        None
    } else {
        Some(win)
    }
}

} // verus!
