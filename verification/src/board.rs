//! Positions: reading one from a list of cells, and making a move.

use vstd::prelude::*;
use crate::bits::{holds, lemma_holds_ops, lemma_holds_piece, piece, to_piece};
use crate::moves::{all_moves, legal, lemma_move_is_legal, target};

verus! {

/// The mask of the squares below `n` whose cell in `sparse` holds `who`.
pub open spec fn mask_of(sparse: Seq<i32>, who: int, n: nat) -> u64
    decreases n,
{
    if n == 0 {
        0
    } else if sparse[n - 1] == who {
        mask_of(sparse, who, (n - 1) as nat) | piece(n - 1)
    } else {
        mask_of(sparse, who, (n - 1) as nat)
    }
}

/// The position that a list of 64 cells shows, row by row: a cell holds 0 for a
/// piece of the first side, 1 for a piece of the second, and a negative number
/// where it is empty. With `turn` 0 the first side is to move, else the second.
pub open spec fn sparse_board(sparse: Seq<i32>, turn: int) -> [u64; 2] {
    if turn == 0 {
        [mask_of(sparse, 0, 64), mask_of(sparse, 1, 64)]
    } else {
        [mask_of(sparse, 1, 64), mask_of(sparse, 0, 64)]
    }
}

/// The position after the side to move took its piece from `src` to `dst`,
/// seen by the other side, which is then to move. Squares count modulo 64.
pub open spec fn after_move(board: [u64; 2], src: int, dst: int) -> [u64; 2] {
    [board[1], (board[0] & !piece(src)) | piece(dst)]
}

/// `mask_of` holds exactly the squares whose cell holds `who`.
pub proof fn lemma_mask_of(sparse: Seq<i32>, who: int, n: nat, s: int)
    requires
        n <= 64,
    ensures
        holds(mask_of(sparse, who, n), s) == (0 <= s < n && sparse[s] == who),
    decreases n,
{
    if n == 0 {
        lemma_holds_ops(0, 0, s);
    } else {
        lemma_mask_of(sparse, who, (n - 1) as nat, s);
        lemma_holds_ops(mask_of(sparse, who, (n - 1) as nat), piece(n - 1), s);
        lemma_holds_piece(n - 1, s);
    }
}

/// What a move does to each square: the mover's pieces are those it had,
/// without the one on `src`, with one on `dst`; the other side keeps all of its
/// pieces.
pub proof fn lemma_after_move(board: [u64; 2], src: int, dst: int, s: int)
    requires
        0 <= s < 64,
    ensures
        after_move(board, src, dst)[0] == board[1],
        holds(after_move(board, src, dst)[1], s) == (s == dst % 64 || (holds(board[0], s) && s != src
            % 64)),
{
    let kept = board[0] & !piece(src);
    lemma_holds_ops(kept, piece(dst), s);
    lemma_holds_ops(board[0], !piece(src), s);
    lemma_holds_ops(piece(src), piece(src), s);
    lemma_holds_piece(src, s);
    lemma_holds_piece(dst, s);
}

/// After a legal move the moved piece stands on its landing square and no longer
/// on the square it left. Where the landing square was empty, no square holds
/// pieces of both sides afterwards, provided none did before.
pub proof fn lemma_move_round_trip(board: [u64; 2], pos: int, d: int)
    requires
        legal(board, pos, d),
    ensures
        ({
            let dst = target(board, pos, d);
            let next = after_move(board, pos, dst);
            &&& 0 <= dst < 64
            &&& holds(next[1], dst)
            &&& dst != pos
            &&& !holds(next[1], pos)
            &&& forall|s: int| s != pos && s != dst ==> holds(next[1], s) == holds(board[0], s)
            &&& (board[0] & board[1] == 0 && !holds(board[1], dst)) ==> next[0] & next[1] == 0
        }),
{
    let dst = target(board, pos, d);
    let next = after_move(board, pos, dst);
    assert(0 <= dst < 64);
    assert forall|s: int| 0 <= s < 64 implies holds(next[1], s) == (s == dst || (holds(board[0], s)
        && s != pos)) by {
        lemma_after_move(board, pos, dst, s);
    }
    if board[0] & board[1] == 0 && !holds(board[1], dst) {
        crate::bits::lemma_zero_mask(board[0] & board[1]);
        crate::bits::lemma_zero_mask(next[0] & next[1]);
        assert forall|s: int| !holds(next[0] & next[1], s) by {
            lemma_holds_ops(next[0], next[1], s);
            lemma_holds_ops(board[0], board[1], s);
            if 0 <= s < 64 {
                lemma_after_move(board, pos, dst, s);
            }
        }
    }
}

/// Every move that the list of all moves holds leaves the moved piece, after
/// it is made, on its landing square and on it alone. Where the move lands on
/// an empty square of a position in which no square holds pieces of both
/// sides, none does afterwards.
pub proof fn lemma_generated_move_round_trip(board: [u64; 2], k: int)
    requires
        0 <= k < all_moves(board).len(),
    ensures
        ({
            let src = all_moves(board)[k].0 as int;
            let dst = all_moves(board)[k].1 as int;
            let next = after_move(board, src, dst);
            &&& 0 <= src < 64
            &&& 0 <= dst < 64
            &&& src != dst
            &&& holds(board[0], src)
            &&& !holds(board[0], dst)
            &&& holds(next[1], dst)
            &&& !holds(next[1], src)
            &&& forall|s: int| s != src && s != dst ==> holds(next[1], s) == holds(board[0], s)
            &&& next[0] == board[1]
            &&& (board[0] & board[1] == 0 && !holds(board[1], dst)) ==> next[0] & next[1] == 0
        }),
{
    lemma_move_is_legal(board, 64, k);
    let (pos, d) = choose|pos: int, d: int|
        0 <= pos < 64 && 0 <= d < 8 && #[trigger] legal(board, pos, d) && all_moves(board)[k] == (
            pos as i32,
            target(board, pos, d) as i32,
        );
    lemma_move_round_trip(board, pos, d);
}

/// Reads a position from 64 cells.
pub fn from_sparse_board(sparse: &[i32], turn: i32) -> (r: [u64; 2])
    requires
        sparse@.len() == 64,
        forall|i: int| 0 <= i < 64 ==> sparse@[i] <= 1,
    ensures
        r == sparse_board(sparse@, turn as int),
{
    let mut first: u64 = 0;
    let mut second: u64 = 0;
    let mut i: i32 = 0;
    while i < 64
        invariant
            0 <= i <= 64,
            sparse@.len() == 64,
            first == mask_of(sparse@, 0, i as nat),
            second == mask_of(sparse@, 1, i as nat),
        decreases 64 - i,
    {
        let id = sparse[i as usize];
        if id == 0 {
            first = first | to_piece(i);
        } else if id == 1 {
            second = second | to_piece(i);
        }
        i = i + 1;
    }
    if turn == 0 {
        [first, second]
    } else {
        [second, first]
    }
}

/// Makes a move: takes the mover's piece from `src`, puts it on `dst`, and hands
/// the position to the other side.
pub fn apply_move(board: &[u64; 2], src: i32, dst: i32) -> (r: [u64; 2])
    ensures
        r == after_move(*board, src as int, dst as int),
{
    [board[1], board[0] & !to_piece(src) | to_piece(dst)]
}

} // verus!
