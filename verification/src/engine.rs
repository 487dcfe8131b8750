//! The search as a whole: a fixed number of passes from a position, and the
//! move that comes out best.

use vstd::prelude::*;
use crate::bits::to_coord_2d;
use crate::board::{from_sparse_board, sparse_board};
use crate::growth::{
    begun, grown, lemma_begun_reached, lemma_grown_refl, lemma_grown_trans, ordered, paced,
};
use crate::moves::{all_moves, EMPTY_MOVE};
use crate::rng::RngProvider;
use crate::search::{faithful, mcts_search_pass, pass_model, sound};
use crate::tree::{
    best_child, fresh_state, lemma_best_upto, models_of, scorer_ok, MCTSSearchPass, NodeModel,
    SearchNode, SearchNodeData,
};
use crate::win::win_state;

verus! {

/// How many passes a search makes.
pub const MAX_NODE: usize = 8196;

/// A move by the columns and rows of the square that a piece leaves and of
/// the square that it lands on.
#[derive(Clone, Copy, Debug, PartialEq, Eq)]
pub struct Move {
    pub x0: i32,
    pub y0: i32,
    pub x1: i32,
    pub y1: i32,
}

/// Why a search gives no move.
#[derive(Clone, Copy, Debug, PartialEq, Eq)]
pub enum SearchError {
    /// No child of the root can be chosen, because it has none that was
    /// reached: the game is over, or the side to move has no move.
    NoLegalMove,
}

/// What the passes of a search add up to.
#[derive(Clone, Copy, Debug, PartialEq, Eq)]
pub struct SearchStats {
    /// How many passes were made.
    pub passes: usize,
    /// In how many of them the playout came to a decision.
    pub hit_cnt: usize,
    /// In how many of them the reached node holds a finished game.
    pub expand_term_cnt: usize,
    /// The nodes that the passes went through, of all passes together.
    pub total_expand_depth: u128,
    /// The most nodes that a pass went through.
    pub max_expand_depth: usize,
    /// The fewest nodes that a pass went through, and 256 at most.
    pub min_expand_depth: usize,
    /// The moves of all playouts together.
    pub total_simulate_depth: u128,
    /// The most moves that a playout made.
    pub max_simulate_depth: i32,
    /// The fewest moves that a playout made.
    pub min_simulate_depth: i32,
}

impl SearchStats {
    /// The counts before the first pass.
    pub open spec fn start() -> SearchStats {
        SearchStats {
            passes: 0,
            hit_cnt: 0,
            expand_term_cnt: 0,
            total_expand_depth: 0,
            max_expand_depth: 0,
            min_expand_depth: 256,
            total_simulate_depth: 0,
            max_simulate_depth: 0,
            min_simulate_depth: 256,
        }
    }

    /// Whether the counts can be those of `self.passes` passes.
    pub open spec fn fits(self) -> bool {
        &&& self.hit_cnt <= self.passes
        &&& self.expand_term_cnt <= self.passes
        &&& self.total_expand_depth <= self.passes * 0xFFFF_FFFF_FFFF_FFFF
        &&& self.total_simulate_depth <= self.passes * 256
    }

    /// The counts with one more pass taken in.
    pub open spec fn absorbed(self, pass: MCTSSearchPass) -> SearchStats {
        SearchStats {
            passes: (self.passes + 1) as usize,
            hit_cnt: if pass.hit {
                (self.hit_cnt + 1) as usize
            } else {
                self.hit_cnt
            },
            expand_term_cnt: if pass.expand_term {
                (self.expand_term_cnt + 1) as usize
            } else {
                self.expand_term_cnt
            },
            total_expand_depth: (self.total_expand_depth + pass.expand_depth) as u128,
            max_expand_depth: if pass.expand_depth > self.max_expand_depth {
                pass.expand_depth
            } else {
                self.max_expand_depth
            },
            min_expand_depth: if pass.expand_depth < self.min_expand_depth {
                pass.expand_depth
            } else {
                self.min_expand_depth
            },
            total_simulate_depth: (self.total_simulate_depth + pass.simulate_depth) as u128,
            max_simulate_depth: if pass.simulate_depth > self.max_simulate_depth {
                pass.simulate_depth
            } else {
                self.max_simulate_depth
            },
            min_simulate_depth: if pass.simulate_depth < self.min_simulate_depth {
                pass.simulate_depth
            } else {
                self.min_simulate_depth
            },
        }
    }

    /// The counts before the first pass.
    pub fn new() -> (r: SearchStats)
        ensures
            r == SearchStats::start(),
            r.fits(),
    {
        SearchStats {
            passes: 0,
            hit_cnt: 0,
            expand_term_cnt: 0,
            total_expand_depth: 0,
            max_expand_depth: 0,
            min_expand_depth: 256,
            total_simulate_depth: 0,
            max_simulate_depth: 0,
            min_simulate_depth: 256,
        }
    }

    /// Takes one more pass into the counts.
    pub fn absorb(&mut self, pass: &MCTSSearchPass)
        requires
            old(self).fits(),
            old(self).passes < usize::MAX,
            0 <= pass.simulate_depth <= 256,
        ensures
            *final(self) == old(self).absorbed(*pass),
            final(self).fits(),
    {
        self.passes = self.passes + 1;
        if pass.hit {
            self.hit_cnt = self.hit_cnt + 1;
        }
        if pass.expand_term {
            self.expand_term_cnt = self.expand_term_cnt + 1;
        }
        self.total_expand_depth = self.total_expand_depth + pass.expand_depth as u128;
        if pass.expand_depth > self.max_expand_depth {
            self.max_expand_depth = pass.expand_depth;
        }
        if pass.expand_depth < self.min_expand_depth {
            self.min_expand_depth = pass.expand_depth;
        }
        self.total_simulate_depth = self.total_simulate_depth + pass.simulate_depth as u128;
        if pass.simulate_depth > self.max_simulate_depth {
            self.max_simulate_depth = pass.simulate_depth;
        }
        if pass.simulate_depth < self.min_simulate_depth {
            self.min_simulate_depth = pass.simulate_depth;
        }
    }
}

/// The tree, the counts and the provider after `n` passes of a search from
/// `board`, one after the other on the same tree.
pub open spec fn run_model<F: Fn(u64, u64, u64) -> i64>(
    root: NodeModel,
    board: [u64; 2],
    rng: RngProvider,
    score: &F,
    n: nat,
) -> (NodeModel, SearchStats, RngProvider)
    decreases n,
{
    if n == 0 {
        (root, SearchStats::start(), rng)
    } else {
        let before = run_model(root, board, rng, score, (n - 1) as nat);
        let pass = pass_model(before.0, board, before.2, score);
        (pass.0, before.1.absorbed(pass.1), pass.2)
    }
}

/// A move by columns and rows.
pub open spec fn move_of(mv: (i32, i32)) -> Move {
    Move {
        x0: (mv.0 as int % 8) as i32,
        y0: (mv.0 as int / 8) as i32,
        x1: (mv.1 as int % 8) as i32,
        y1: (mv.1 as int / 8) as i32,
    }
}

/// The move of the best child of `root`, or the error where there is none.
pub open spec fn best_move<F: Fn(u64, u64, u64) -> i64>(root: NodeModel, score: &F) -> Result<
    Move,
    SearchError,
> {
    match best_child(root, score) {
        Some(i) => Ok(move_of(root.state->children[i].mv)),
        None => Err(SearchError::NoLegalMove),
    }
}

/// The root of a search from `board`.
pub open spec fn root_model(board: [u64; 2]) -> NodeModel {
    NodeModel { mv: EMPTY_MOVE, state: fresh_state(board) }
}

/// The search as a whole: from the position that `sparse` and `turn` show,
/// `MAX_NODE` passes, and then the move of the best child of the root.
pub open spec fn solution_model<F: Fn(u64, u64, u64) -> i64>(
    turn: int,
    sparse: Seq<i32>,
    rng: RngProvider,
    score: &F,
) -> (Result<Move, SearchError>, SearchStats, RngProvider) {
    let board = sparse_board(sparse, turn);
    let done = run_model(root_model(board), board, rng, score, MAX_NODE as nat);
    (best_move(done.0, score), done.1, done.2)
}

/// A search is determined by where it starts: from the same cells, for the
/// same side, with providers in the same state and the same rating, two
/// searches give the same move, the same counts, and leave the provider in the
/// same state. So do two runs of passes from equal trees.
pub proof fn lemma_search_is_determined<F: Fn(u64, u64, u64) -> i64>(
    turn: int,
    sparse1: Seq<i32>,
    sparse2: Seq<i32>,
    rng1: RngProvider,
    rng2: RngProvider,
    score: &F,
    root1: NodeModel,
    root2: NodeModel,
    board: [u64; 2],
    n: nat,
)
    requires
        sparse1 =~= sparse2,
        rng1.curr == rng2.curr,
        rng1.phase == rng2.phase,
        rng1.rng.phase == rng2.rng.phase,
    ensures
        solution_model(turn, sparse1, rng1, score) == solution_model(turn, sparse2, rng2, score),
        root1 == root2 ==> run_model(root1, board, rng1, score, n) == run_model(
            root2,
            board,
            rng2,
            score,
            n,
        ),
{
}

/// Makes `passes` passes of a search from `board` on the tree below `root`.
/// The root then counts one visit more for each pass, and the tree has only
/// grown.
pub fn run_passes<F: Fn(u64, u64, u64) -> i64>(
    root: &mut SearchNode,
    board: &[u64; 2],
    rng: &mut RngProvider,
    score: &F,
    passes: usize,
) -> (stats: SearchStats)
    requires
        scorer_ok(score),
        sound(old(root)@),
        paced(old(root)@, true),
        old(root)@.expanded(),
        old(root)@.visits() + passes <= u64::MAX,
        old(root)@.visits() + passes + 1 <= usize::MAX,
    ensures
        (final(root)@, stats, *final(rng)) == run_model(
            old(root)@,
            *board,
            *old(rng),
            score,
            passes as nat,
        ),
        final(root)@.visits() == old(root)@.visits() + passes,
        stats.passes == passes,
        sound(final(root)@),
        paced(final(root)@, true),
        final(root)@.expanded(),
        final(root)@.mv == old(root)@.mv,
        faithful(old(root)@, *board) ==> faithful(final(root)@, *board),
        ordered(old(root)@) ==> ordered(final(root)@) && grown(old(root)@, final(root)@),
        passes >= 1 ==> begun(final(root)@),
{
    let mut stats = SearchStats::new();
    proof {
        lemma_grown_refl(root@);
    }
    let mut i: usize = 0;
    while i < passes
        invariant
            i <= passes,
            scorer_ok(score),
            sound(root@),
            paced(root@, true),
            root@.expanded(),
            root@.mv == old(root)@.mv,
            old(root)@.visits() + passes + 1 <= usize::MAX,
            root@.visits() == old(root)@.visits() + i,
            old(root)@.visits() + passes <= u64::MAX,
            stats.fits(),
            stats.passes == i,
            (root@, stats, *rng) == run_model(old(root)@, *board, *old(rng), score, i as nat),
            faithful(old(root)@, *board) ==> faithful(root@, *board),
            ordered(old(root)@) ==> ordered(root@) && grown(old(root)@, root@),
            i >= 1 ==> begun(root@),
        decreases passes - i,
    {
        let ghost before = root@;
        let pass = mcts_search_pass(root, board, rng, score);
        proof {
            if ordered(old(root)@) {
                lemma_grown_trans(old(root)@, before, root@);
            }
        }
        stats.absorb(&pass);
        i = i + 1;
    }
    stats
}

/// Picks a move for the side to move in the position that `sparse` and
/// `turn` show, by `MAX_NODE` passes of the search. `score` rates a child by
/// its wins, its visits and the visits of its parent. There is a move, and a
/// legal one, exactly where the game goes on and the side to move can move.
pub fn my_plain_solution<F: Fn(u64, u64, u64) -> i64>(
    turn: i32,
    sparse: &[i32],
    rng: &mut RngProvider,
    score: &F,
) -> (r: (Result<Move, SearchError>, SearchStats))
    requires
        sparse@.len() == 64,
        forall|i: int| 0 <= i < 64 ==> sparse@[i] <= 1,
        scorer_ok(score),
    ensures
        (r.0, r.1, *final(rng)) == solution_model(turn as int, sparse@, *old(rng), score),
        r.1.passes == MAX_NODE,
        r.0 matches Ok(m) ==> exists|k: int|
            0 <= k < all_moves(sparse_board(sparse@, turn as int)).len() && m == move_of(
                #[trigger] all_moves(sparse_board(sparse@, turn as int))[k],
            ),
        r.0 is Ok <==> win_state(sparse_board(sparse@, turn as int)) is None && all_moves(
            sparse_board(sparse@, turn as int),
        ).len() > 0,
{
    let board = from_sparse_board(sparse, turn);
    let mut root = SearchNode::root(&board);
    let stats = run_passes(&mut root, &board, rng, score, MAX_NODE);
    let best = root.find_max(score);
    proof {
        if root@.state is Internal {
            let children = root@.state->children;
            lemma_best_upto(children, root@.visits(), score, children.len() as int);
            if children.len() > 0 {
                lemma_begun_reached(root@);
            }
        }
    }
    match best {
        Some(i) => {
            proof {
                let children = root@.state->children;
                lemma_best_upto(children, root@.visits(), score, children.len() as int);
                assert(children[i as int].mv == all_moves(board)[i as int]);
            }
            match &root.data {
                Some((SearchNodeData::Mid { childs, .. }, _, _)) => {
                    assert(models_of(childs@).len() == childs@.len());
                    let (src, dst) = childs[i].curr_move;
                    assert(models_of(childs@)[i as int] == childs@[i as int]@);
                    let (x0, y0) = to_coord_2d(src);
                    let (x1, y1) = to_coord_2d(dst);
                    (Ok(Move { x0, y0, x1, y1 }), stats)
                },
                _ => (Err(SearchError::NoLegalMove), stats),
            }
        },
        None => (Err(SearchError::NoLegalMove), stats),
    }
}

} // verus!
