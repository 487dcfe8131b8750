//! The search tree: its nodes, what they stand for, and the steps of a search
//! pass that work on a single node.

use vstd::prelude::*;
use crate::board::{after_move, apply_move};
use crate::growth::{lemma_fresh_ordered, lemma_fresh_paced, ordered, paced};
use crate::moves::{all_moves, gen_all_moves, EMPTY_MOVE};
use crate::rng::RngProvider;
use crate::rollout::{gen_rand_move, playout, MAX_STEP};
use crate::search::{faithful, lemma_fresh, sound};
use crate::win::{is_win_state, win_state};

verus! {

/// A node of the search tree: the move that leads to it, and, once a pass has
/// reached it, what it holds together with the wins and visits counted at it.
/// The counts are kept for the side that is to move at the node.
#[derive(Debug, PartialEq, Eq)]
pub struct SearchNode {
    pub curr_move: (i32, i32),
    pub data: Option<(SearchNodeData, u64, u64)>,
}

/// What a node holds once it was reached.
#[derive(Debug, PartialEq, Eq)]
pub enum SearchNodeData {
    /// A position in which the game goes on, with one child for each legal
    /// move. `curr` is the child that is visited next while some child was
    /// never visited; `full` says that each was.
    Mid { curr: usize, full: bool, board: [u64; 2], childs: Vec<SearchNode> },
    /// A position in which the game is over, and whether the side to move
    /// counts as connected in it.
    Term(bool),
}

/// What a node stands for.
pub struct NodeModel {
    pub mv: (i32, i32),
    pub state: NodeState,
}

/// The three states of a node.
pub enum NodeState {
    /// Not reached by any pass yet.
    Frontier,
    /// Reached, and the game is over there.
    Terminal { win: bool, wins: u64, visits: u64 },
    /// Reached, and the game goes on there.
    Internal {
        cursor: int,
        all_visited: bool,
        board: [u64; 2],
        children: Seq<NodeModel>,
        wins: u64,
        visits: u64,
    },
}

/// What one search pass reports.
#[derive(Clone, Copy, Debug, PartialEq, Eq)]
pub struct MCTSSearchPass {
    /// Whether the playout came to a decision.
    pub hit: bool,
    /// The result that was counted at the root.
    pub win: bool,
    /// Whether the node that the pass reached holds a finished game.
    pub expand_term: bool,
    /// How many nodes the pass went through, the root among them.
    pub expand_depth: usize,
    /// How many moves the playout made.
    pub simulate_depth: i32,
}

impl NodeModel {
    /// Whether a pass has reached the node.
    pub open spec fn expanded(self) -> bool {
        !(self.state is Frontier)
    }

    /// The visits counted at the node.
    pub open spec fn visits(self) -> u64 {
        match self.state {
            NodeState::Frontier => 0,
            NodeState::Terminal { visits, .. } => visits,
            NodeState::Internal { visits, .. } => visits,
        }
    }

    /// The wins counted at the node.
    pub open spec fn wins(self) -> u64 {
        match self.state {
            NodeState::Frontier => 0,
            NodeState::Terminal { wins, .. } => wins,
            NodeState::Internal { wins, .. } => wins,
        }
    }

    /// The node after one more visit was counted at it, and one more win if
    /// `win`. A node that no pass has reached counts nothing.
    pub open spec fn bumped(self, win: bool) -> NodeModel {
        let more: int = if win {
            1
        } else {
            0
        };
        match self.state {
            NodeState::Frontier => self,
            NodeState::Terminal { win: w, wins, visits } => NodeModel {
                mv: self.mv,
                state: NodeState::Terminal {
                    win: w,
                    wins: (wins + more) as u64,
                    visits: (visits + 1) as u64,
                },
            },
            NodeState::Internal { cursor, all_visited, board, children, wins, visits } => NodeModel {
                mv: self.mv,
                state: NodeState::Internal {
                    cursor,
                    all_visited,
                    board,
                    children,
                    wins: (wins + more) as u64,
                    visits: (visits + 1) as u64,
                },
            },
        }
    }

    /// The node after it was reached from the position `parent`: a node that no
    /// pass had reached takes the state of the position after its move; any other
    /// node stays as it is.
    pub open spec fn reached_from(self, parent: [u64; 2]) -> NodeModel {
        if self.expanded() {
            self
        } else {
            NodeModel {
                mv: self.mv,
                state: fresh_state(after_move(parent, self.mv.0 as int, self.mv.1 as int)),
            }
        }
    }

    /// What a playout from the node gives: for a finished game what the node
    /// holds, after no move; else the end of the playout from its position.
    pub open spec fn simulated(self, rng: RngProvider) -> (Option<bool>, int, RngProvider) {
        match self.state {
            NodeState::Terminal { win, .. } => (Some(win), 0, rng),
            NodeState::Internal { board, .. } => playout(board, rng, 0),
            NodeState::Frontier => (None, 0, rng),
        }
    }
}

/// One node for each move, none of them reached by a pass.
pub open spec fn frontier_children(moves: Seq<(i32, i32)>) -> Seq<NodeModel> {
    Seq::new(moves.len(), |i: int| NodeModel { mv: moves[i], state: NodeState::Frontier })
}

/// The state of a node when a pass first reaches it at `board`, with no wins and
/// no visits counted: a finished game, or else the position with a child for
/// each legal move in the order of the move list.
pub open spec fn fresh_state(board: [u64; 2]) -> NodeState {
    match win_state(board) {
        Some(win) => NodeState::Terminal { win, wins: 0, visits: 0 },
        None => NodeState::Internal {
            cursor: 0,
            all_visited: all_moves(board).len() == 0,
            board,
            children: frontier_children(all_moves(board)),
            wins: 0,
            visits: 0,
        },
    }
}

/// What a list of nodes stands for.
pub open spec fn models_of(nodes: Seq<SearchNode>) -> Seq<NodeModel>
    decreases nodes,
{
    Seq::new(
        nodes.len(),
        |i: int|
            if 0 <= i < nodes.len() {
                nodes[i]@
            } else {
                NodeModel { mv: (0, 0), state: NodeState::Frontier }
            },
    )
}

/// What the contents of a node stand for.
pub open spec fn state_of(data: Option<(SearchNodeData, u64, u64)>) -> NodeState
    decreases data,
{
    match data {
        None => NodeState::Frontier,
        Some((SearchNodeData::Term(win), wins, visits)) => NodeState::Terminal { win, wins, visits },
        Some((SearchNodeData::Mid { curr, full, board, childs }, wins, visits)) => NodeState::Internal {
            cursor: curr as int,
            all_visited: full,
            board,
            children: models_of(childs@),
            wins,
            visits,
        },
    }
}

impl View for SearchNode {
    type V = NodeModel;

    open spec fn view(&self) -> NodeModel
        decreases self,
    {
        NodeModel { mv: self.curr_move, state: state_of(self.data) }
    }
}

impl SearchNodeData {
    /// What a node holds when a pass first reaches it at `board`.
    pub fn from(board: &[u64; 2]) -> (r: SearchNodeData)
        ensures
            state_of(Some((r, 0, 0))) == fresh_state(*board),
    {
        if let Some(win) = is_win_state(board) {
            return SearchNodeData::Term(win);
        }
        let moves = gen_all_moves(board);
        let mut childs: Vec<SearchNode> = Vec::new();
        let mut i: usize = 0;
        while i < moves.len()
            invariant
                i <= moves.len(),
                childs@.len() == i,
                forall|j: int|
                    0 <= j < i ==> (#[trigger] childs@[j])@ == (NodeModel {
                        mv: moves@[j],
                        state: NodeState::Frontier,
                    }),
            decreases moves.len() - i,
        {
            childs.push(SearchNode { curr_move: moves[i], data: None });
            i = i + 1;
        }
        let len = childs.len();
        assert(models_of(childs@) =~= frontier_children(all_moves(*board)));
        SearchNodeData::Mid { board: *board, childs, curr: 0, full: len == 0 }
    }
}

/// What the search asks of the function that rates a child by its wins, its
/// visits and the visits of its parent: that it takes all numbers, and that
/// its result is determined by them.
pub open spec fn scorer_ok<F: Fn(u64, u64, u64) -> i64>(score: &F) -> bool {
    &&& forall|w: u64, v: u64, p: u64| call_requires(*score, (w, v, p))
    &&& forall|w: u64, v: u64, p: u64, a: i64, b: i64|
        call_ensures(*score, (w, v, p), a) && call_ensures(*score, (w, v, p), b) ==> a == b
}

/// The rating that `score` gives.
pub open spec fn score_of<F: Fn(u64, u64, u64) -> i64>(score: &F, w: u64, v: u64, p: u64) -> i64 {
    choose|r: i64| call_ensures(*score, (w, v, p), r)
}

/// The rating of a child below a parent with `parent_visits` visits.
pub open spec fn rating<F: Fn(u64, u64, u64) -> i64>(
    score: &F,
    child: NodeModel,
    parent_visits: u64,
) -> i64 {
    score_of(score, child.wins(), child.visits(), parent_visits)
}

/// The best among the first `n` children and its rating: the first reached
/// child that is rated above all reached children before it. None where none
/// of them was reached.
pub open spec fn best_upto<F: Fn(u64, u64, u64) -> i64>(
    children: Seq<NodeModel>,
    parent_visits: u64,
    score: &F,
    n: int,
) -> (Option<int>, i64)
    decreases n,
{
    if n <= 0 {
        (None, 0)
    } else {
        let before = best_upto(children, parent_visits, score, n - 1);
        let child = children[n - 1];
        if child.expanded() && (before.0 is None || rating(score, child, parent_visits)
            > before.1) {
            (Some(n - 1), rating(score, child, parent_visits))
        } else {
            before
        }
    }
}

/// The child that a pass goes on with below a node whose children were all
/// visited: the first of the reached children with the highest rating. None
/// where no child was reached.
pub open spec fn best_child<F: Fn(u64, u64, u64) -> i64>(n: NodeModel, score: &F) -> Option<int> {
    match n.state {
        NodeState::Internal { children, visits, .. } => best_upto(
            children,
            visits,
            score,
            children.len() as int,
        ).0,
        _ => None,
    }
}

/// Whether child `i` is reached, no reached child is rated higher, and none
/// before it as high.
pub open spec fn is_best<F: Fn(u64, u64, u64) -> i64>(
    children: Seq<NodeModel>,
    parent_visits: u64,
    score: &F,
    n: int,
    i: int,
) -> bool {
    &&& 0 <= i < n
    &&& children[i].expanded()
    &&& forall|j: int|
        0 <= j < n && children[j].expanded() ==> rating(score, #[trigger] children[j], parent_visits)
            <= rating(score, children[i], parent_visits)
    &&& forall|j: int|
        0 <= j < i && children[j].expanded() ==> rating(score, #[trigger] children[j], parent_visits)
            < rating(score, children[i], parent_visits)
}

/// The child that is chosen is the first of the reached children with the
/// highest rating, whatever that rating is; none is chosen exactly where no
/// child was reached.
pub proof fn lemma_best_upto<F: Fn(u64, u64, u64) -> i64>(
    children: Seq<NodeModel>,
    parent_visits: u64,
    score: &F,
    n: int,
)
    requires
        0 <= n <= children.len(),
    ensures
        match best_upto(children, parent_visits, score, n).0 {
            Some(i) => is_best(children, parent_visits, score, n, i) && best_upto(
                children,
                parent_visits,
                score,
                n,
            ).1 == rating(score, children[i], parent_visits),
            None => forall|j: int| 0 <= j < n ==> !(#[trigger] children[j]).expanded(),
        },
    decreases n,
{
    if n > 0 {
        lemma_best_upto(children, parent_visits, score, n - 1);
    }
}

impl SearchNode {
    /// The root of a search from `board`: a node without a move that was
    /// reached already and counts nothing yet.
    pub fn root(board: &[u64; 2]) -> (r: SearchNode)
        ensures
            r@ == (NodeModel { mv: EMPTY_MOVE, state: fresh_state(*board) }),
            r@.expanded(),
            r@.visits() == 0,
            sound(r@),
            faithful(r@, *board),
            ordered(r@),
            paced(r@, true),
    {
        proof {
            lemma_fresh_paced(EMPTY_MOVE, *board, false);
            lemma_fresh(EMPTY_MOVE, *board);
            lemma_fresh_ordered(EMPTY_MOVE, *board);
        }
        SearchNode { curr_move: EMPTY_MOVE, data: Some((SearchNodeData::from(board), 0, 0)) }
    }

    /// Has the node reached from the position `board` of its parent, unless a
    /// pass reached it before. Says whether it then holds a finished game.
    pub fn expand(&mut self, board: &[u64; 2]) -> (r: bool)
        ensures
            final(self)@ == old(self)@.reached_from(*board),
            r == (final(self)@.state is Terminal),
    {
        if self.data.is_none() {
            let (src, dst) = self.curr_move;
            let new_board = apply_move(board, src, dst);
            self.data = Some((SearchNodeData::from(&new_board), 0, 0));
        }
        match &self.data {
            Some((SearchNodeData::Term(_), _, _)) => true,
            _ => false,
        }
    }

    /// The child to go on with below a node whose children were all visited:
    /// the first of the reached children with the highest rating. None where
    /// no child was reached.
    pub fn find_max<F: Fn(u64, u64, u64) -> i64>(&self, score: &F) -> (r: Option<usize>)
        requires
            scorer_ok(score),
        ensures
            match r {
                Some(i) => best_child(self@, score) == Some(i as int),
                None => best_child(self@, score) is None,
            },
    {
        match &self.data {
            Some((SearchNodeData::Mid { childs, .. }, _, visits)) => {
                let mut best: Option<usize> = None;
                let mut max_fact: i64 = 0;
                let mut i: usize = 0;
                while i < childs.len()
                    invariant
                        scorer_ok(score),
                        i <= childs.len(),
                        match best {
                            Some(b) => best_upto(models_of(childs@), *visits, score, i as int).0
                                == Some(b as int),
                            None => best_upto(models_of(childs@), *visits, score, i as int).0
                                is None,
                        },
                        max_fact == best_upto(models_of(childs@), *visits, score, i as int).1,
                    decreases childs.len() - i,
                {
                    let child = &childs[i];
                    assert(models_of(childs@)[i as int] == child@);
                    match &child.data {
                        Some((_, a1, b1)) => {
                            let fact = score(*a1, *b1, *visits);
                            if best.is_none() || fact > max_fact {
                                max_fact = fact;
                                best = Some(i);
                            }
                        },
                        None => {},
                    }
                    i = i + 1;
                }
                best
            },
            _ => None,
        }
    }

    /// What a playout from the node gives, and how many moves it made. The
    /// node must have been reached.
    pub fn simulate(&self, rng: &mut RngProvider) -> (r: (Option<bool>, i32))
        requires
            self@.expanded(),
        ensures
            (r.0, r.1 as int, *final(rng)) == self@.simulated(*old(rng)),
    {
        match &self.data {
            Some((SearchNodeData::Mid { board, .. }, _, _)) => {
                let mut curr_board: [u64; 2] = *board;
                let mut step: usize = 0;
                while step < MAX_STEP
                    invariant
                        step <= MAX_STEP,
                        self@.simulated(*old(rng)) == playout(curr_board, *rng, step as nat),
                    decreases MAX_STEP - step,
                {
                    match is_win_state(&curr_board) {
                        Some(win) => {
                            return (Some(win != (step % 2 == 1)), step as i32);
                        },
                        None => {
                            let (src, dst) = gen_rand_move(&curr_board, rng);
                            curr_board = apply_move(&curr_board, src, dst);
                        },
                    }
                    step = step + 1;
                }
                (None, MAX_STEP as i32)
            },
            Some((SearchNodeData::Term(win), _, _)) => (Some(*win), 0),
            None => (None, 0),
        }
    }

    /// Counts one more visit at the node, and one more win if `win`. The node
    /// must have been reached.
    pub fn back_propagate(&mut self, win: bool)
        requires
            old(self)@.expanded(),
            old(self)@.wins() <= old(self)@.visits() < u64::MAX,
        ensures
            final(self)@ == old(self)@.bumped(win),
    {
        match &mut self.data {
            Some((_, a, b)) => {
                *b = *b + 1;
                if win {
                    *a = *a + 1;
                }
            },
            None => {},
        }
    }
}

} // verus!
