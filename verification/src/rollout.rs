//! Playouts: games played on quickly, by moves that are cheap to find, from a
//! position to its end.

use vstd::prelude::*;
use crate::bits::{holds, lemma_wrap_index};
use crate::board::after_move;
use crate::moves::{dests_upto, gen_moves, legal_dests, occupied, EMPTY_MOVE};
use crate::rng::{draw, provider_next, RngProvider};
use crate::win::win_state;

verus! {

/// After how many moves a playout is given up.
pub const MAX_STEP: usize = 256;

/// The first move found from the `i`-th square on in the round of all squares
/// that starts at `rn`: of the first square that has a legal move, its first.
/// The empty move where no square from there to the end of the round has one.
pub open spec fn scan(board: [u64; 2], rn: int, i: int) -> (i32, i32)
    decreases 64 - i,
{
    if i < 0 || i >= 64 {
        EMPTY_MOVE
    } else {
        let sq = (rn + i) % 64;
        let dests = legal_dests(board, sq);
        if dests.len() > 0 {
            (sq as i32, dests[0])
        } else {
            scan(board, rn, i + 1)
        }
    }
}

/// The move that a playout makes when the number drawn is `rn`: the squares are
/// tried in the order `rn`, ..., 63, 0, ..., `rn - 1`, and the first legal move
/// of the first square that has one is taken. The empty move where the side to
/// move has none.
pub open spec fn rollout_move(board: [u64; 2], rn: int) -> (i32, i32) {
    scan(board, rn, 0)
}

/// How a playout ends that has made `step` moves and stands at `board`:
/// whether it was decided and for whom, seen from the side that was to move
/// when it began; how many moves it took; and the provider afterwards.
pub open spec fn playout(board: [u64; 2], rng: RngProvider, step: nat) -> (
    Option<bool>,
    int,
    RngProvider,
)
    decreases 256 - step,
{
    if step >= 256 {
        (None, 256, rng)
    } else {
        match win_state(board) {
            Some(win) => (Some(win != (step % 2 == 1)), step as int, rng),
            None => {
                let (r, rng2) = provider_next(rng);
                let mv = rollout_move(board, (r % 64) as int);
                playout(after_move(board, mv.0 as int, mv.1 as int), rng2, step + 1)
            },
        }
    }
}

/// A playout makes at most 256 moves.
pub proof fn lemma_playout_depth(board: [u64; 2], rng: RngProvider, step: nat)
    requires
        step <= 256,
    ensures
        step <= playout(board, rng, step).1 <= 256,
    decreases 256 - step,
{
    if step < 256 {
        match win_state(board) {
            Some(_) => {},
            None => {
                let (r, rng2) = provider_next(rng);
                let mv = rollout_move(board, (r % 64) as int);
                lemma_playout_depth(after_move(board, mv.0 as int, mv.1 as int), rng2, step + 1);
            },
        }
    }
}

/// A square without a piece of the side to move has no legal move.
pub proof fn lemma_no_piece_no_move(board: [u64; 2], pos: int)
    requires
        !holds(board[0], pos),
    ensures
        legal_dests(board, pos).len() == 0,
{
    reveal_with_fuel(dests_upto, 9);
}

/// The move that a playout makes when the number drawn is `rn`.
pub fn first_move_from(board: &[u64; 2], rn: i32) -> (r: (i32, i32))
    requires
        0 <= rn < 64,
    ensures
        r == rollout_move(*board, rn as int),
{
    let mut i: i32 = 0;
    while i < 64
        invariant
            0 <= i <= 64,
            0 <= rn < 64,
            rollout_move(*board, rn as int) == scan(*board, rn as int, i as int),
        decreases 64 - i,
    {
        let sq = (rn + i) % 64;
        if occupied(board[0], sq) {
            let moves = gen_moves(board, sq);
            if moves.len() > 0 {
                return (sq, moves[0]);
            }
        } else {
            proof {
                lemma_no_piece_no_move(*board, sq as int);
            }
        }
        i = i + 1;
    }
    EMPTY_MOVE
}

/// Draws a number and makes the playout's choice of a move with its lowest six
/// bits.
pub fn gen_rand_move(board: &[u64; 2], rng: &mut RngProvider) -> (r: (i32, i32))
    ensures
        r == rollout_move(*board, (provider_next(*old(rng)).0 % 64) as int),
        *final(rng) == provider_next(*old(rng)).1,
{
    let n: i32 = draw(rng) as i32;
    let rn: i32 = n & 0x3f;
    proof {
        lemma_wrap_index(n, rn);
    }
    first_move_from(board, rn)
}

} // verus!
