//! Legal moves of the side to move.
//!
//! A board is a pair of masks: `board[0]` holds the pieces of the side to move,
//! `board[1]` those of the opponent. A piece slides along one of the four lines
//! through its square, in either direction, by as many squares as there are
//! pieces of either side on that line. It may not land on a piece of its own side
//! and may not pass over a piece of the opponent.
//!
//! The eight directions are numbered in the order in which moves are listed:
//! 0 up the column, 1 down the column, 2 along the row to higher columns, 3 to
//! lower columns, 4 and 5 along the diagonal on which column plus row is constant
//! (4 towards higher rows), 6 and 7 along the diagonal on which column minus row
//! is constant (6 towards higher rows). Direction `d` runs along line `d / 2`.

use vstd::prelude::*;
use crate::bits::{
    at_or_above, at_or_below, bit_at, higher_eq, holds, lemma_holds_ops, lemma_holds_piece,
    lemma_holds_ranges, lemma_zero_mask, low_ones, lower_eq, piece, to_coord, to_coord_2d, to_piece,
    COL, ROW, SLASH0, SLASH1,
};

verus! {

/// The move that stands for "no move".
pub const EMPTY_MOVE: (i32, i32) = (100, 100);

/// Whether square `sq` lies on line `axis` through square `pos`.
pub open spec fn on_line(axis: int, pos: int, sq: int) -> bool {
    &&& 0 <= sq < 64
    &&& 0 <= pos < 64
    &&& if axis == 0 {
        sq % 8 == pos % 8
    } else if axis == 1 {
        sq / 8 == pos / 8
    } else if axis == 2 {
        sq % 8 + sq / 8 == pos % 8 + pos / 8
    } else {
        sq % 8 - sq / 8 == pos % 8 - pos / 8
    }
}

/// How many of the squares below `n` lie on line `axis` through `pos` and are
/// occupied in `tot`.
pub open spec fn line_count_upto(tot: u64, axis: int, pos: int, n: nat) -> nat
    decreases n,
{
    if n == 0 {
        0
    } else {
        line_count_upto(tot, axis, pos, (n - 1) as nat) + if on_line(axis, pos, n - 1) && holds(
            tot,
            n - 1,
        ) {
            1nat
        } else {
            0nat
        }
    }
}

/// The number of pieces, of either side, on line `axis` through `pos`.
pub open spec fn line_count(board: [u64; 2], axis: int, pos: int) -> nat {
    line_count_upto(board[0] | board[1], axis, pos, 64)
}

/// The column reached from `pos` after `k` steps in direction `d`.
pub open spec fn ray_x(pos: int, d: int, k: int) -> int {
    pos % 8 + if d == 2 || d == 5 || d == 6 {
        k
    } else if d == 3 || d == 4 || d == 7 {
        -k
    } else {
        0
    }
}

/// The row reached from `pos` after `k` steps in direction `d`.
pub open spec fn ray_y(pos: int, d: int, k: int) -> int {
    pos / 8 + if d == 0 || d == 4 || d == 6 {
        k
    } else if d == 1 || d == 5 || d == 7 {
        -k
    } else {
        0
    }
}

/// The square reached from `pos` after `k` steps in direction `d`.
pub open spec fn ray_square(pos: int, d: int, k: int) -> int {
    ray_x(pos, d, k) + 8 * ray_y(pos, d, k)
}

/// Where the piece on `pos` lands when it slides in direction `d`.
pub open spec fn target(board: [u64; 2], pos: int, d: int) -> int {
    ray_square(pos, d, line_count(board, d / 2, pos) as int)
}

/// Whether the side to move has a piece on `pos` that may slide in direction `d`:
/// the landing square is on the grid and free of its own pieces, and no piece of
/// the opponent stands strictly between `pos` and the landing square.
pub open spec fn legal(board: [u64; 2], pos: int, d: int) -> bool {
    let n = line_count(board, d / 2, pos) as int;
    &&& 0 <= d < 8
    &&& holds(board[0], pos)
    &&& 0 <= ray_x(pos, d, n) < 8
    &&& 0 <= ray_y(pos, d, n) < 8
    &&& !holds(board[0], ray_square(pos, d, n))
    &&& forall|k: int| 0 < k < n ==> !holds(board[1], #[trigger] ray_square(pos, d, k))
}

/// The landing squares of the legal slides from `pos` in the directions below `n`,
/// in the order of the directions.
pub open spec fn dests_upto(board: [u64; 2], pos: int, n: nat) -> Seq<i32>
    decreases n,
{
    if n == 0 {
        Seq::empty()
    } else {
        let before = dests_upto(board, pos, (n - 1) as nat);
        if legal(board, pos, n - 1) {
            before.push(target(board, pos, n - 1) as i32)
        } else {
            before
        }
    }
}

/// The landing squares of all legal slides from `pos`, in the order of the
/// directions. Empty unless the side to move has a piece on `pos`.
pub open spec fn legal_dests(board: [u64; 2], pos: int) -> Seq<i32> {
    dests_upto(board, pos, 8)
}

/// All legal moves from the squares below `n`, square by square in ascending
/// order, each as source and landing square.
pub open spec fn moves_upto(board: [u64; 2], n: nat) -> Seq<(i32, i32)>
    decreases n,
{
    if n == 0 {
        Seq::empty()
    } else {
        moves_upto(board, (n - 1) as nat) + legal_dests(board, n - 1).map_values(
            |dst: i32| ((n - 1) as i32, dst),
        )
    }
}

/// All legal moves of the side to move.
pub open spec fn all_moves(board: [u64; 2]) -> Seq<(i32, i32)> {
    moves_upto(board, 64)
}

/// How far one step in direction `d` leads in the numbering of the squares.
pub open spec fn step_of(d: int) -> int {
    if d == 0 {
        8
    } else if d == 1 {
        -8
    } else if d == 2 {
        1
    } else if d == 3 {
        -1
    } else if d == 4 {
        7
    } else if d == 5 {
        -7
    } else if d == 6 {
        9
    } else {
        -9
    }
}

/// A legal slide goes over as many squares as there are pieces on its line:
/// over at least one, the piece's own, and over at most seven. Along a row the
/// piece lands as many columns to the right or to the left, in its row.
pub proof fn lemma_slide_distance(board: [u64; 2], pos: int, d: int)
    requires
        legal(board, pos, d),
    ensures
        1 <= line_count(board, d / 2, pos) <= 7,
        0 <= target(board, pos, d) < 64,
        target(board, pos, d) == pos + line_count(board, d / 2, pos) * step_of(d),
        d == 2 ==> target(board, pos, d) == pos + line_count(board, 1, pos) && target(board, pos, d)
            / 8 == pos / 8,
        d == 3 ==> target(board, pos, d) == pos - line_count(board, 1, pos) && target(board, pos, d)
            / 8 == pos / 8,
{
    let n = line_count(board, d / 2, pos) as int;
    assert(pos == pos % 8 + 8 * (pos / 8));
    assert(n * step_of(d) == ray_square(pos, d, n) - pos) by {
        assert(n * 8 == 8 * n && n * -8 == -8 * n && n * 7 == 7 * n && n * -7 == -7 * n && n * 9
            == 9 * n && n * -9 == -9 * n && n * 1 == n && n * -1 == -n);
    }
    if n == 0 {
        assert(ray_square(pos, d, 0) == pos);
    }
}

/// Every landing square that is listed for a piece is that of a legal slide.
pub proof fn lemma_dest_is_legal(board: [u64; 2], pos: int, n: nat, j: int)
    requires
        0 <= j < dests_upto(board, pos, n).len(),
    ensures
        exists|d: int|
            0 <= d < n && #[trigger] legal(board, pos, d) && dests_upto(board, pos, n)[j] == target(
                board,
                pos,
                d,
            ) as i32,
    decreases n,
{
    if n > 0 {
        let before = dests_upto(board, pos, (n - 1) as nat);
        if j < before.len() {
            lemma_dest_is_legal(board, pos, (n - 1) as nat, j);
            let d = choose|d: int|
                0 <= d < n - 1 && #[trigger] legal(board, pos, d) && before[j] == target(
                    board,
                    pos,
                    d,
                ) as i32;
            assert(legal(board, pos, d));
        } else {
            assert(legal(board, pos, n - 1));
        }
    }
}

/// Every legal slide in a direction below `n` has its landing square listed.
pub proof fn lemma_legal_is_listed(board: [u64; 2], pos: int, n: nat, d: int)
    requires
        0 <= d < n,
        legal(board, pos, d),
    ensures
        dests_upto(board, pos, n).contains(target(board, pos, d) as i32),
    decreases n,
{
    let before = dests_upto(board, pos, (n - 1) as nat);
    if d < n - 1 {
        lemma_legal_is_listed(board, pos, (n - 1) as nat, d);
        let j = choose|j: int| 0 <= j < before.len() && before[j] == target(board, pos, d) as i32;
        assert(dests_upto(board, pos, n)[j] == target(board, pos, d) as i32);
    } else {
        assert(dests_upto(board, pos, n)[before.len() as int] == target(board, pos, d) as i32);
    }
}

/// Every move in the list of all moves is a legal slide of a piece of the side
/// to move.
pub proof fn lemma_move_is_legal(board: [u64; 2], n: nat, k: int)
    requires
        n <= 64,
        0 <= k < moves_upto(board, n).len(),
    ensures
        exists|pos: int, d: int|
            0 <= pos < n && 0 <= d < 8 && #[trigger] legal(board, pos, d) && moves_upto(board, n)[k]
                == (pos as i32, target(board, pos, d) as i32),
    decreases n,
{
    if n > 0 {
        let before = moves_upto(board, (n - 1) as nat);
        if k < before.len() {
            lemma_move_is_legal(board, (n - 1) as nat, k);
            let (pos, d) = choose|pos: int, d: int|
                0 <= pos < n - 1 && 0 <= d < 8 && #[trigger] legal(board, pos, d) && before[k] == (
                    pos as i32,
                    target(board, pos, d) as i32,
                );
            assert(legal(board, pos, d));
        } else {
            let j = k - before.len();
            lemma_dest_is_legal(board, n - 1, 8, j);
            let d = choose|d: int|
                0 <= d < 8 && #[trigger] legal(board, n - 1, d) && legal_dests(board, n - 1)[j]
                    == target(board, n - 1, d) as i32;
            assert(legal(board, n - 1, d));
        }
    }
}

/// Every legal slide of a piece on a square below `n` is in the list of moves.
pub proof fn lemma_legal_is_a_move(board: [u64; 2], n: nat, pos: int, d: int)
    requires
        0 <= pos < n,
        legal(board, pos, d),
    ensures
        moves_upto(board, n).contains((pos as i32, target(board, pos, d) as i32)),
    decreases n,
{
    let before = moves_upto(board, (n - 1) as nat);
    let here = legal_dests(board, n - 1).map_values(|dst: i32| ((n - 1) as i32, dst));
    if pos < n - 1 {
        lemma_legal_is_a_move(board, (n - 1) as nat, pos, d);
        let k = choose|k: int|
            0 <= k < before.len() && before[k] == (pos as i32, target(board, pos, d) as i32);
        assert(moves_upto(board, n)[k] == (pos as i32, target(board, pos, d) as i32));
    } else {
        lemma_legal_is_listed(board, pos, 8, d);
        let j = choose|j: int|
            0 <= j < legal_dests(board, pos).len() && legal_dests(board, pos)[j] == target(
                board,
                pos,
                d,
            ) as i32;
        assert(here[j] == (pos as i32, target(board, pos, d) as i32));
        assert(moves_upto(board, n)[before.len() + j] == here[j]);
    }
}

/// A piece has at most one legal move in each direction.
pub proof fn lemma_dests_bound(board: [u64; 2], pos: int, n: nat)
    ensures
        dests_upto(board, pos, n).len() <= n,
    decreases n,
{
    if n > 0 {
        lemma_dests_bound(board, pos, (n - 1) as nat);
    }
}

/// The squares below `n` have at most eight legal moves each.
pub proof fn lemma_moves_bound(board: [u64; 2], n: nat)
    ensures
        moves_upto(board, n).len() <= 8 * n,
    decreases n,
{
    if n > 0 {
        lemma_moves_bound(board, (n - 1) as nat);
        lemma_dests_bound(board, n - 1, 8);
    }
}

/// The column mask, shifted to column `x`, holds the squares of that column.
proof fn lemma_column_mask(x: u64, s: u64)
    by (bit_vector)
    requires
        x < 8,
        s < 64,
    ensures
        bit_at(COL << x, s) == (s % 8 == x),
{
}

/// The row mask, shifted up by whole rows, holds the squares of one row.
proof fn lemma_row_mask(sh: u64, s: u64)
    by (bit_vector)
    requires
        sh < 64,
        sh % 8 == 0,
        s < 64,
    ensures
        bit_at(ROW << sh, s) == (s / 8 == sh / 8),
{
}

/// The mask of the diagonal with column plus row 7, shifted by whole rows,
/// holds the squares of the diagonal with another sum.
proof fn lemma_rising_mask(sh: u64, s: u64)
    by (bit_vector)
    requires
        sh < 64,
        sh % 8 == 0,
        s < 64,
    ensures
        bit_at(SLASH0 >> sh, s) == (s % 8 + s / 8 + sh / 8 == 7),
        bit_at(SLASH0 << sh, s) == (s % 8 + s / 8 == 7 + sh / 8),
{
}

/// The mask of the diagonal with column equal to row, shifted by whole rows,
/// holds the squares of the diagonal with another difference.
proof fn lemma_falling_mask(sh: u64, s: u64)
    by (bit_vector)
    requires
        sh < 64,
        sh % 8 == 0,
        s < 64,
    ensures
        bit_at(SLASH1 >> sh, s) == (s % 8 == s / 8 + sh / 8),
        bit_at(SLASH1 << sh, s) == (s % 8 + sh / 8 == s / 8),
{
}

/// The mask of line `axis` through `pos`.
pub fn line_mask(axis: u8, pos: i32) -> (r: u64)
    requires
        axis < 4,
        0 <= pos < 64,
    ensures
        forall|s: int| holds(r, s) == on_line(axis as int, pos as int, s),
{
    let (x, y) = to_coord_2d(pos);
    if axis == 0 {
        let r = COL << (x as u32);
        assert forall|s: int| holds(r, s) == on_line(0, pos as int, s) by {
            if 0 <= s < 64 {
                lemma_column_mask(x as u64, s as u64);
            }
        }
        r
    } else if axis == 1 {
        let sh: u32 = (8 * y) as u32;
        let r = ROW << sh;
        assert forall|s: int| holds(r, s) == on_line(1, pos as int, s) by {
            if 0 <= s < 64 {
                lemma_row_mask(sh as u64, s as u64);
            }
        }
        r
    } else if axis == 2 {
        let pl = x + y;
        if pl < 7 {
            let sh: u32 = ((7 - pl) * 8) as u32;
            let r = SLASH0 >> sh;
            assert forall|s: int| holds(r, s) == on_line(2, pos as int, s) by {
                if 0 <= s < 64 {
                    lemma_rising_mask(sh as u64, s as u64);
                }
            }
            r
        } else {
            let sh: u32 = ((pl - 7) * 8) as u32;
            let r = SLASH0 << sh;
            assert forall|s: int| holds(r, s) == on_line(2, pos as int, s) by {
                if 0 <= s < 64 {
                    lemma_rising_mask(sh as u64, s as u64);
                }
            }
            r
        }
    } else {
        let pl = x - y;
        if pl > 0 {
            let sh: u32 = (pl * 8) as u32;
            let r = SLASH1 >> sh;
            assert forall|s: int| holds(r, s) == on_line(3, pos as int, s) by {
                if 0 <= s < 64 {
                    lemma_falling_mask(sh as u64, s as u64);
                }
            }
            r
        } else {
            let sh: u32 = ((-pl) * 8) as u32;
            let r = SLASH1 << sh;
            assert forall|s: int| holds(r, s) == on_line(3, pos as int, s) by {
                if 0 <= s < 64 {
                    lemma_falling_mask(sh as u64, s as u64);
                }
            }
            r
        }
    }
}

/// Whether square `sq` is occupied in `mask`.
pub fn occupied(mask: u64, sq: i32) -> (r: bool)
    requires
        0 <= sq < 64,
    ensures
        r == holds(mask, sq as int),
{
    let m = mask & to_piece(sq);
    proof {
        lemma_zero_mask(m);
        lemma_holds_ops(mask, piece(sq as int), sq as int);
        lemma_holds_piece(sq as int, sq as int);
        if !holds(mask, sq as int) {
            assert forall|s: int| !holds(m, s) by {
                lemma_holds_ops(mask, piece(sq as int), s);
                lemma_holds_piece(sq as int, s);
            }
        }
    }
    m != 0
}

/// Whether no piece of `oppo` stands on `line` strictly between the squares
/// `lo` and `hi`.
pub fn between_clear(oppo: u64, line: u64, lo: i32, hi: i32) -> (r: bool)
    requires
        0 <= lo <= hi < 64,
    ensures
        r <==> forall|s: int| lo < s < hi && holds(line, s) ==> !holds(oppo, s),
{
    let outside = higher_eq(hi) | lower_eq(lo);
    let m = !outside & line & oppo;
    proof {
        lemma_zero_mask(m);
        assert forall|s: int| holds(m, s) == (lo < s < hi && holds(line, s) && holds(oppo, s)) by {
            lemma_holds_ops(!outside & line, oppo, s);
            lemma_holds_ops(!outside, line, s);
            lemma_holds_ops(outside, outside, s);
            lemma_holds_ops(at_or_above(hi as int), at_or_below(lo as int), s);
            lemma_holds_ranges(hi as int, s);
            lemma_holds_ranges(lo as int, s);
        }
    }
    m == 0
}

/// There are no more pieces on a line below `n` than squares.
proof fn lemma_line_count_bound(tot: u64, axis: int, pos: int, n: nat)
    ensures
        line_count_upto(tot, axis, pos, n) <= n,
    decreases n,
{
    if n > 0 {
        lemma_line_count_bound(tot, axis, pos, (n - 1) as nat);
    }
}

/// Counting the bits of the pieces on a line's mask counts the pieces on the
/// line.
proof fn lemma_masked_count(tot: u64, line: u64, axis: int, pos: int, n: nat)
    requires
        forall|s: int| holds(line, s) == on_line(axis, pos, s),
    ensures
        low_ones(tot & line, n) == line_count_upto(tot, axis, pos, n),
    decreases n,
{
    if n > 0 {
        lemma_masked_count(tot, line, axis, pos, (n - 1) as nat);
        lemma_holds_ops(tot, line, n - 1);
    }
}

/// The squares strictly between `pos` and the landing square of a slide over `n`
/// steps are on the line of the slide.
proof fn lemma_ray_forward(pos: int, d: int, n: int, k: int)
    requires
        0 <= pos < 64,
        0 <= d < 8,
        0 < k < n,
        0 <= ray_x(pos, d, n) < 8,
        0 <= ray_y(pos, d, n) < 8,
    ensures
        on_line(d / 2, pos, ray_square(pos, d, k)),
        ray_square(pos, d, n) < pos ==> ray_square(pos, d, n) < ray_square(pos, d, k) < pos,
        ray_square(pos, d, n) >= pos ==> pos < ray_square(pos, d, k) < ray_square(pos, d, n),
{
    let s = ray_square(pos, d, k);
    let sx = ray_x(pos, d, k);
    let sy = ray_y(pos, d, k);
    assert(0 <= sx < 8 && 0 <= sy < 8);
    assert(s == sx + 8 * sy);
    assert(s % 8 == sx && s / 8 == sy);
    assert(pos == pos % 8 + 8 * (pos / 8));
}

/// How many steps from `pos` a square `s` on a line through `pos` lies.
pub open spec fn ray_index(pos: int, d: int, s: int) -> int {
    if d / 2 == 1 {
        if s % 8 >= pos % 8 {
            s % 8 - pos % 8
        } else {
            pos % 8 - s % 8
        }
    } else {
        if s / 8 >= pos / 8 {
            s / 8 - pos / 8
        } else {
            pos / 8 - s / 8
        }
    }
}

/// A square on the line of a slide, strictly between `pos` and the landing
/// square, is reached after fewer steps than the slide takes.
proof fn lemma_ray_backward(pos: int, d: int, n: int, s: int)
    requires
        0 <= pos < 64,
        0 <= d < 8,
        0 <= n,
        0 <= ray_x(pos, d, n) < 8,
        0 <= ray_y(pos, d, n) < 8,
        on_line(d / 2, pos, s),
        ray_square(pos, d, n) < pos ==> ray_square(pos, d, n) < s < pos,
        ray_square(pos, d, n) >= pos ==> pos < s < ray_square(pos, d, n),
    ensures
        0 < ray_index(pos, d, s) < n,
        s == ray_square(pos, d, ray_index(pos, d, s)),
{
    assert(pos == pos % 8 + 8 * (pos / 8));
    assert(s == s % 8 + 8 * (s / 8));
    assert(0 <= s % 8 < 8 && 0 <= pos % 8 < 8);
}

/// The landing square of the slide from `pos` in direction `d`, if that slide is
/// legal.
fn probe(board: &[u64; 2], line: u64, pos: i32, cnt: i32, d: u8) -> (r: Option<i32>)
    requires
        0 <= pos < 64,
        d < 8,
        holds(board[0], pos as int),
        forall|s: int| holds(line, s) == on_line((d / 2) as int, pos as int, s),
        cnt == line_count(*board, (d / 2) as int, pos as int),
        cnt <= 64,
    ensures
        r == (if legal(*board, pos as int, d as int) {
            Some(target(*board, pos as int, d as int) as i32)
        } else {
            None
        }),
{
    let (x, y) = to_coord_2d(pos);
    let (nx, ny): (i32, i32) = if d == 0 {
        (x, y + cnt)
    } else if d == 1 {
        (x, y - cnt)
    } else if d == 2 {
        (x + cnt, y)
    } else if d == 3 {
        (x - cnt, y)
    } else if d == 4 {
        (x - cnt, y + cnt)
    } else if d == 5 {
        (x + cnt, y - cnt)
    } else if d == 6 {
        (x + cnt, y + cnt)
    } else {
        (x - cnt, y - cnt)
    };
    assert(nx == ray_x(pos as int, d as int, cnt as int));
    assert(ny == ray_y(pos as int, d as int, cnt as int));
    if nx < 0 || nx >= 8 || ny < 0 || ny >= 8 {
        return None;
    }
    let dst = to_coord((nx, ny));
    assert(dst == target(*board, pos as int, d as int));
    if occupied(board[0], dst) {
        return None;
    }
    let (lo, hi): (i32, i32) = if dst < pos {
        (dst, pos)
    } else {
        (pos, dst)
    };
    let clear = between_clear(board[1], line, lo, hi);
    proof {
        let p = pos as int;
        let di = d as int;
        let n = cnt as int;
        if clear {
            assert forall|k: int| 0 < k < n implies !holds(
                board[1],
                #[trigger] ray_square(p, di, k),
            ) by {
                lemma_ray_forward(p, di, n, k);
            }
        } else {
            let s = choose|s: int| lo < s < hi && holds(line, s) && holds(board[1], s);
            lemma_ray_backward(p, di, n, s);
            assert(holds(board[1], ray_square(p, di, ray_index(p, di, s))));
        }
    }
    if clear {
        Some(dst)
    } else {
        None
    }
}

/// The landing squares of the legal moves of the piece on `pos`, in the order of
/// the directions. Empty where the side to move has no piece on `pos`.
pub fn gen_moves(board: &[u64; 2], pos: i32) -> (r: Vec<i32>)
    ensures
        r@ == legal_dests(*board, pos as int),
{
    let mut out: Vec<i32> = Vec::new();
    if pos < 0 || pos >= 64 || !occupied(board[0], pos) {
        proof {
            reveal_with_fuel(dests_upto, 9);
        }
        return out;
    }
    let tot = board[0] | board[1];
    let mut axis: u8 = 0;
    while axis < 4
        invariant
            0 <= pos < 64,
            holds(board[0], pos as int),
            tot == board[0] | board[1],
            axis <= 4,
            out@ == dests_upto(*board, pos as int, (2 * axis) as nat),
        decreases 4 - axis,
    {
        let line = line_mask(axis, pos);
        let cnt = (tot & line).count_ones() as i32;
        proof {
            lemma_masked_count(tot, line, axis as int, pos as int, 64);
            lemma_line_count_bound(tot, axis as int, pos as int, 64);
        }
        let d: u8 = 2 * axis;
        if let Some(dst) = probe(board, line, pos, cnt, d) {
            out.push(dst);
        }
        if let Some(dst) = probe(board, line, pos, cnt, d + 1) {
            out.push(dst);
        }
        proof {
            reveal_with_fuel(dests_upto, 3);
        }
        axis = axis + 1;
    }
    out
}

/// All legal moves of the side to move: for each square in ascending order the
/// moves of the piece on it, in the order of the directions.
pub fn gen_all_moves(board: &[u64; 2]) -> (r: Vec<(i32, i32)>)
    ensures
        r@ == all_moves(*board),
{
    let mut out: Vec<(i32, i32)> = Vec::new();
    let mut pos: i32 = 0;
    while pos < 64
        invariant
            0 <= pos <= 64,
            out@ == moves_upto(*board, pos as nat),
        decreases 64 - pos,
    {
        let dests = gen_moves(board, pos);
        let ghost before = out@;
        let mut i: usize = 0;
        while i < dests.len()
            invariant
                0 <= pos < 64,
                i <= dests.len(),
                dests@ == legal_dests(*board, pos as int),
                out@ == before + dests@.subrange(0, i as int).map_values(|dst: i32| (pos, dst)),
            decreases dests.len() - i,
        {
            out.push((pos, dests[i]));
            proof {
                let f = |dst: i32| (pos, dst);
                assert(dests@.subrange(0, i + 1).map_values(f) =~= dests@.subrange(
                    0,
                    i as int,
                ).map_values(f).push((pos, dests@[i as int])));
            }
            i = i + 1;
        }
        proof {
            assert(dests@.subrange(0, dests@.len() as int) =~= dests@);
            let f = |dst: i32| (pos, dst);
            let g = |dst: i32| (((pos + 1) - 1) as i32, dst);
            assert(dests@.map_values(f) =~= dests@.map_values(g));
        }
        pos = pos + 1;
    }
    out
}

} // verus!
