//! One pass of the search: choosing a node, reaching it, playing on from it,
//! and counting the result at every node on the way back to the root.

use vstd::prelude::*;
use crate::board::after_move;
use crate::growth::{
    begun, grown, lemma_pass_begun, lemma_pass_grows, lemma_pass_paced, lemma_path_bound, ordered,
    paced,
};
use crate::moves::{all_moves, lemma_moves_bound};
use crate::rng::RngProvider;
use crate::rollout::lemma_playout_depth;
use crate::tree::{
    best_child, fresh_state, frontier_children, lemma_best_upto, models_of, scorer_ok,
    MCTSSearchPass, NodeModel, NodeState, SearchNode, SearchNodeData,
};
use crate::win::win_state;

verus! {

/// Whether the shape and the counts of a tree are in order: no node counts more
/// wins than visits, no child more visits than its parent, a node with a child
/// left to visit points at it, and the children of a node can be numbered.
pub open spec fn sound(n: NodeModel) -> bool
    decreases n,
{
    match n.state {
        NodeState::Frontier => true,
        NodeState::Terminal { wins, visits, .. } => wins <= visits,
        NodeState::Internal { cursor, all_visited, children, wins, visits, .. } => {
            &&& wins <= visits
            &&& children.len() <= usize::MAX
            &&& if all_visited {
                cursor == 0
            } else {
                0 <= cursor < children.len()
            }
            &&& forall|i: int|
                0 <= i < children.len() ==> (#[trigger] children[i]).visits() <= visits && sound(
                    children[i],
                )
        },
    }
}

/// Whether a tree shows the game from the position `own` of its root on: a node
/// of a finished game holds the state of its position, every other node that
/// was reached holds its position, in which the game goes on, and has one child
/// for each legal move, in the order of the move list.
pub open spec fn faithful(n: NodeModel, own: [u64; 2]) -> bool
    decreases n,
{
    match n.state {
        NodeState::Frontier => true,
        NodeState::Terminal { win, .. } => win_state(own) == Some(win),
        NodeState::Internal { board, children, .. } => {
            &&& board == own
            &&& win_state(own) is None
            &&& children.len() == all_moves(own).len()
            &&& forall|i: int|
                0 <= i < children.len() ==> (#[trigger] children[i]).mv == all_moves(own)[i]
                    && faithful(
                    children[i],
                    after_move(own, children[i].mv.0 as int, children[i].mv.1 as int),
                )
        },
    }
}

/// The node with another list of children.
pub open spec fn with_children(n: NodeModel, children: Seq<NodeModel>) -> NodeModel {
    match n.state {
        NodeState::Internal { cursor, all_visited, board, wins, visits, .. } => NodeModel {
            mv: n.mv,
            state: NodeState::Internal { cursor, all_visited, board, children, wins, visits },
        },
        _ => n,
    }
}

/// The node after its pointer went on to the next child, or back to the first
/// with the note that all were visited.
pub open spec fn advanced(n: NodeModel) -> NodeModel {
    match n.state {
        NodeState::Internal { cursor, all_visited, board, children, wins, visits } => {
            let wrapped = cursor + 1 == children.len();
            NodeModel {
                mv: n.mv,
                state: NodeState::Internal {
                    cursor: if wrapped {
                        0
                    } else {
                        cursor + 1
                    },
                    all_visited: wrapped,
                    board,
                    children,
                    wins,
                    visits,
                },
            }
        },
        _ => n,
    }
}

/// The choice of a node below `n`, where `board` is the position before the
/// move of `n`. Gives the tree after the choice, the position to reach the
/// chosen node from, if the choice came to one, and the way to the chosen node:
/// from `n` down, the place of each node among the children of the one before.
///
/// A node that was not reached, or that holds a finished game, is chosen
/// itself. Below a node with a child left to visit that child is chosen, and the
/// node's pointer goes on. Below a node whose children were all visited the
/// choice goes on in the best child; where there is none it fails at that node.
pub open spec fn select_model<F: Fn(u64, u64, u64) -> i64>(
    n: NodeModel,
    board: [u64; 2],
    score: &F,
) -> (NodeModel, Option<[u64; 2]>, Seq<usize>)
    decreases n,
{
    match n.state {
        NodeState::Internal { cursor, all_visited, board: own, children, .. } => {
            if !all_visited {
                (advanced(n), Some(own), seq![cursor as usize])
            } else {
                match best_child(n, score) {
                    Some(i) => {
                        if 0 <= i < children.len() {
                            let below = select_model(children[i], own, score);
                            (
                                with_children(n, children.update(i, below.0)),
                                below.1,
                                seq![i as usize] + below.2,
                            )
                        } else {
                            (n, None, Seq::empty())
                        }
                    },
                    None => (n, None, Seq::empty()),
                }
            }
        },
        _ => (n, Some(board), Seq::empty()),
    }
}

/// Whether `path`, from its place `depth` on, leads down from `n` through
/// nodes that were reached, to a node that can be counted at: one that was
/// reached, or that will be, because the choice came to a position.
pub open spec fn reaches(n: NodeModel, path: Seq<usize>, depth: int, target: Option<[u64; 2]>) -> bool
    decreases path.len() - depth,
{
    if depth >= path.len() {
        target is None ==> n.expanded()
    } else {
        match n.state {
            NodeState::Internal { children, .. } => path[depth] < children.len() && reaches(
                children[path[depth] as int],
                path,
                depth + 1,
                target,
            ),
            _ => false,
        }
    }
}

/// Whether the node that `path` leads to, if it was not reached yet, is to be
/// reached from the position of its parent; `parent` is that of `n`.
pub open spec fn aimed(
    n: NodeModel,
    path: Seq<usize>,
    depth: int,
    target: Option<[u64; 2]>,
    parent: [u64; 2],
) -> bool
    decreases path.len() - depth,
{
    if depth >= path.len() {
        !n.expanded() ==> target == Some(parent)
    } else {
        match n.state {
            NodeState::Internal { children, board, .. } => path[depth] < children.len() && aimed(
                children[path[depth] as int],
                path,
                depth + 1,
                target,
                board,
            ),
            _ => false,
        }
    }
}

/// The rest of a pass below `n`, from place `depth` of `path` on: the chosen
/// node is reached from `target` and played on from, a failed choice or a
/// playout without a decision counts as a loss there, and each node on the way
/// counts a visit and the result as seen by the side to move at it, which is
/// the opposite of what the node below counted. Gives the tree, the report
/// with the result counted at `n`, and the provider afterwards.
pub open spec fn settle_model(
    n: NodeModel,
    path: Seq<usize>,
    depth: int,
    target: Option<[u64; 2]>,
    rng: RngProvider,
) -> (NodeModel, MCTSSearchPass, RngProvider)
    decreases path.len() - depth,
{
    if depth >= path.len() {
        match target {
            Some(b) => {
                let reached = n.reached_from(b);
                let sim = reached.simulated(rng);
                let win = match sim.0 {
                    Some(w) => w,
                    None => false,
                };
                (
                    reached.bumped(win),
                    MCTSSearchPass {
                        hit: sim.0 is Some,
                        win,
                        expand_term: reached.state is Terminal,
                        expand_depth: (path.len() + 1) as usize,
                        simulate_depth: sim.1 as i32,
                    },
                    sim.2,
                )
            },
            None => (
                n.bumped(false),
                MCTSSearchPass {
                    hit: false,
                    win: false,
                    expand_term: false,
                    expand_depth: (path.len() + 1) as usize,
                    simulate_depth: 0,
                },
                rng,
            ),
        }
    } else {
        match n.state {
            NodeState::Internal { children, .. } => {
                let i = path[depth] as int;
                let below = settle_model(children[i], path, depth + 1, target, rng);
                (
                    with_children(n, children.update(i, below.0)).bumped(!below.1.win),
                    MCTSSearchPass {
                        hit: below.1.hit,
                        win: !below.1.win,
                        expand_term: below.1.expand_term,
                        expand_depth: below.1.expand_depth,
                        simulate_depth: below.1.simulate_depth,
                    },
                    below.2,
                )
            },
            _ => (
                n,
                MCTSSearchPass {
                    hit: false,
                    win: false,
                    expand_term: false,
                    expand_depth: (path.len() + 1) as usize,
                    simulate_depth: 0,
                },
                rng,
            ),
        }
    }
}

/// One pass from the root `n` of a search from `board`: the choice of a node,
/// then the rest of the pass along the way to it.
pub open spec fn pass_model<F: Fn(u64, u64, u64) -> i64>(
    n: NodeModel,
    board: [u64; 2],
    rng: RngProvider,
    score: &F,
) -> (NodeModel, MCTSSearchPass, RngProvider) {
    let chosen = select_model(n, board, score);
    settle_model(chosen.0, chosen.2, 0, chosen.1, rng)
}

/// Counting a visit keeps the shape and the counts of a tree in order.
pub proof fn lemma_bumped_sound(n: NodeModel, win: bool)
    requires
        sound(n),
        n.visits() < u64::MAX,
    ensures
        sound(n.bumped(win)),
        n.expanded() ==> n.bumped(win).visits() == n.visits() + 1,
        n.bumped(win).expanded() == n.expanded(),
        n.bumped(win).mv == n.mv,
{
    match n.state {
        NodeState::Internal { children, visits, .. } => {
            assert forall|j: int| 0 <= j < children.len() implies (#[trigger] children[j]).visits()
                <= visits + 1 && sound(children[j]) by {}
        },
        _ => {},
    }
}

/// Counting a visit leaves a tree showing the game that it showed.
pub proof fn lemma_bumped_faithful(n: NodeModel, own: [u64; 2], win: bool)
    requires
        faithful(n, own),
    ensures
        faithful(n.bumped(win), own),
{
    match n.state {
        NodeState::Internal { children, .. } => {
            assert forall|j: int| 0 <= j < children.len() implies (#[trigger] children[j]).mv
                == all_moves(own)[j] && faithful(
                children[j],
                after_move(own, children[j].mv.0 as int, children[j].mv.1 as int),
            ) by {}
        },
        _ => {},
    }
}

/// A node that was just reached is in order and shows the game from its
/// position on.
pub proof fn lemma_fresh(mv: (i32, i32), board: [u64; 2])
    ensures
        sound(NodeModel { mv, state: fresh_state(board) }),
        faithful(NodeModel { mv, state: fresh_state(board) }, board),
        (NodeModel { mv, state: fresh_state(board) }).visits() == 0,
        (NodeModel { mv, state: fresh_state(board) }).expanded(),
{
    reveal_with_fuel(sound, 2);
    reveal_with_fuel(faithful, 2);
    lemma_moves_bound(board, 64);
    let kids = frontier_children(all_moves(board));
    assert forall|j: int| 0 <= j < kids.len() implies (#[trigger] kids[j]).state is Frontier
        && kids[j].mv == all_moves(board)[j] by {}
}

/// Putting another node in the place of a child keeps a tree in order, where
/// that node is in order and counts no more visits than the parent.
pub proof fn lemma_replace_sound(n: NodeModel, i: int, c: NodeModel)
    requires
        sound(n),
        n.state is Internal,
        0 <= i < n.state->children.len(),
        sound(c),
        c.visits() <= n.visits(),
    ensures
        sound(with_children(n, n.state->children.update(i, c))),
        with_children(n, n.state->children.update(i, c)).visits() == n.visits(),
{
    let children = n.state->children;
    let kids = children.update(i, c);
    assert forall|j: int| 0 <= j < kids.len() implies (#[trigger] kids[j]).visits() <= n.visits()
        && sound(kids[j]) by {
        if j != i {
            assert(kids[j] == children[j]);
        }
    }
}

/// Putting a node in the place of a child and counting a visit at the parent
/// keeps a tree in order, where that node is in order and counts at most one
/// more visit than the parent did.
pub proof fn lemma_replace_bumped_sound(n: NodeModel, i: int, c: NodeModel, win: bool)
    requires
        sound(n),
        n.state is Internal,
        0 <= i < n.state->children.len(),
        sound(c),
        c.visits() <= n.visits() + 1,
        n.visits() < u64::MAX,
    ensures
        sound(with_children(n, n.state->children.update(i, c)).bumped(win)),
        with_children(n, n.state->children.update(i, c)).bumped(win).visits() == n.visits() + 1,
{
    let children = n.state->children;
    let kids = children.update(i, c);
    assert forall|j: int| 0 <= j < kids.len() implies (#[trigger] kids[j]).visits() <= n.visits()
        + 1 && sound(kids[j]) by {
        if j != i {
            assert(kids[j] == children[j]);
        }
    }
}

/// Putting another node in the place of a child leaves a tree showing the
/// game that it showed, where that node makes the same move and shows the game
/// after it.
pub proof fn lemma_replace_faithful(n: NodeModel, own: [u64; 2], i: int, c: NodeModel)
    requires
        faithful(n, own),
        n.state is Internal,
        0 <= i < n.state->children.len(),
        c.mv == n.state->children[i].mv,
        faithful(c, after_move(own, c.mv.0 as int, c.mv.1 as int)),
    ensures
        faithful(with_children(n, n.state->children.update(i, c)), own),
{
    let children = n.state->children;
    let kids = children.update(i, c);
    assert forall|j: int| 0 <= j < kids.len() implies (#[trigger] kids[j]).mv == all_moves(own)[j]
        && faithful(kids[j], after_move(own, kids[j].mv.0 as int, kids[j].mv.1 as int)) by {
        if j != i {
            assert(kids[j] == children[j]);
        }
    }
}

/// The choice of a node keeps the shape and the counts of a tree in order,
/// changes no count at its root, and gives a way that can be gone and counted
/// along.
pub proof fn lemma_select_sound<F: Fn(u64, u64, u64) -> i64>(
    n: NodeModel,
    board: [u64; 2],
    score: &F,
)
    requires
        sound(n),
    ensures
        sound(select_model(n, board, score).0),
        select_model(n, board, score).0.visits() == n.visits(),
        select_model(n, board, score).0.expanded() == n.expanded(),
        select_model(n, board, score).0.mv == n.mv,
        reaches(
            select_model(n, board, score).0,
            select_model(n, board, score).2,
            0,
            select_model(n, board, score).1,
        ),
        aimed(
            select_model(n, board, score).0,
            select_model(n, board, score).2,
            0,
            select_model(n, board, score).1,
            board,
        ),
    decreases n,
{
    let r = select_model(n, board, score);
    match n.state {
        NodeState::Internal { cursor, all_visited, board: own, children, wins, visits } => {
            if !all_visited {
                assert(r.2[0] == cursor as usize);
                assert(reaches(children[cursor], r.2, 1, r.1));
                assert(aimed(children[cursor], r.2, 1, r.1, own));
            } else {
                match best_child(n, score) {
                    Some(i) => {
                        if 0 <= i < children.len() {
                            let below = select_model(children[i], own, score);
                            lemma_select_sound(children[i], own, score);
                            lemma_best_upto(children, visits, score, children.len() as int);
                            assert(r.2[0] == i as usize);
                            lemma_shift_path(below.0, below.2, i as usize, below.1, own, 0);
                            lemma_replace_sound(n, i, below.0);
                            assert(children.update(i, below.0)[i] == below.0);
                        }
                    },
                    None => {},
                }
            }
        },
        _ => {},
    }
}

/// A way below a child is a way below its parent once the child's place is
/// put in front of it.
proof fn lemma_shift_path(
    n: NodeModel,
    path: Seq<usize>,
    first: usize,
    target: Option<[u64; 2]>,
    parent: [u64; 2],
    depth: int,
)
    requires
        0 <= depth <= path.len(),
        reaches(n, path, depth, target),
        aimed(n, path, depth, target, parent),
    ensures
        reaches(n, seq![first] + path, depth + 1, target),
        aimed(n, seq![first] + path, depth + 1, target, parent),
    decreases path.len() - depth,
{
    let longer = seq![first] + path;
    if depth < path.len() {
        assert(longer[depth + 1] == path[depth]);
        match n.state {
            NodeState::Internal { children, board, .. } => {
                lemma_shift_path(children[path[depth] as int], path, first, target, board, depth + 1);
            },
            _ => {},
        }
    }
}

/// The rest of a pass keeps the shape and the counts of a tree in order and
/// counts one visit at its root.
pub proof fn lemma_settle_sound(
    n: NodeModel,
    path: Seq<usize>,
    depth: int,
    target: Option<[u64; 2]>,
    rng: RngProvider,
)
    requires
        0 <= depth <= path.len(),
        sound(n),
        reaches(n, path, depth, target),
        n.visits() < u64::MAX,
    ensures
        sound(settle_model(n, path, depth, target, rng).0),
        settle_model(n, path, depth, target, rng).0.visits() == n.visits() + 1,
        settle_model(n, path, depth, target, rng).0.expanded(),
        settle_model(n, path, depth, target, rng).0.mv == n.mv,
    decreases path.len() - depth,
{
    if depth < path.len() {
        match n.state {
            NodeState::Internal { children, visits, .. } => {
                let i = path[depth] as int;
                let below = settle_model(children[i], path, depth + 1, target, rng);
                lemma_settle_sound(children[i], path, depth + 1, target, rng);
                let kids = children.update(i, below.0);
                lemma_replace_bumped_sound(n, i, below.0, !below.1.win);
            },
            _ => {},
        }
    } else {
        match target {
            Some(b) => {
                let reached = n.reached_from(b);
                if !n.expanded() {
                    lemma_fresh(n.mv, after_move(b, n.mv.0 as int, n.mv.1 as int));
                }
                lemma_bumped_sound(reached, reached.simulated(rng).0 == Some(true));
            },
            None => {
                lemma_bumped_sound(n, false);
            },
        }
    }
}

/// The report of a pass holds a playout of at most 256 moves.
pub proof fn lemma_settle_report(
    n: NodeModel,
    path: Seq<usize>,
    depth: int,
    target: Option<[u64; 2]>,
    rng: RngProvider,
)
    requires
        0 <= depth <= path.len(),
    ensures
        0 <= settle_model(n, path, depth, target, rng).1.simulate_depth <= 256,
    decreases path.len() - depth,
{
    if depth < path.len() {
        match n.state {
            NodeState::Internal { children, .. } => {
                lemma_settle_report(children[path[depth] as int], path, depth + 1, target, rng);
            },
            _ => {},
        }
    } else {
        match target {
            Some(b) => {
                match n.reached_from(b).state {
                    NodeState::Internal { board, .. } => {
                        lemma_playout_depth(board, rng, 0);
                    },
                    _ => {},
                }
            },
            None => {},
        }
    }
}

/// The choice of a node leaves a tree showing the game that it showed.
pub proof fn lemma_select_faithful<F: Fn(u64, u64, u64) -> i64>(
    n: NodeModel,
    own: [u64; 2],
    board: [u64; 2],
    score: &F,
)
    requires
        faithful(n, own),
    ensures
        faithful(select_model(n, board, score).0, own),
    decreases n,
{
    match n.state {
        NodeState::Internal { all_visited, children, .. } => {
            if all_visited {
                match best_child(n, score) {
                    Some(i) => {
                        if 0 <= i < children.len() {
                            let below = select_model(children[i], own, score);
                            let cown = after_move(
                                own,
                                children[i].mv.0 as int,
                                children[i].mv.1 as int,
                            );
                            lemma_select_faithful(children[i], cown, own, score);
                            lemma_select_mv(children[i], own, score);
                            lemma_replace_faithful(n, own, i, below.0);
                        }
                    },
                    None => {},
                }
            }
        },
        _ => {},
    }
}

/// The choice of a node changes no move.
proof fn lemma_select_mv<F: Fn(u64, u64, u64) -> i64>(n: NodeModel, board: [u64; 2], score: &F)
    ensures
        select_model(n, board, score).0.mv == n.mv,
{
}

/// The rest of a pass changes no move at its root.
proof fn lemma_settle_mv(
    n: NodeModel,
    path: Seq<usize>,
    depth: int,
    target: Option<[u64; 2]>,
    rng: RngProvider,
)
    ensures
        settle_model(n, path, depth, target, rng).0.mv == n.mv,
{
}

/// The rest of a pass leaves a tree showing the game that it showed, where the
/// chosen node is reached from the position of its parent.
pub proof fn lemma_settle_faithful(
    n: NodeModel,
    own: [u64; 2],
    path: Seq<usize>,
    depth: int,
    target: Option<[u64; 2]>,
    rng: RngProvider,
    parent: [u64; 2],
)
    requires
        0 <= depth <= path.len(),
        faithful(n, own),
        aimed(n, path, depth, target, parent),
        !n.expanded() ==> own == after_move(parent, n.mv.0 as int, n.mv.1 as int),
    ensures
        faithful(settle_model(n, path, depth, target, rng).0, own),
    decreases path.len() - depth,
{
    if depth < path.len() {
        match n.state {
            NodeState::Internal { children, board, .. } => {
                let i = path[depth] as int;
                let below = settle_model(children[i], path, depth + 1, target, rng);
                let cown = after_move(own, children[i].mv.0 as int, children[i].mv.1 as int);
                lemma_settle_faithful(children[i], cown, path, depth + 1, target, rng, board);
                lemma_settle_mv(children[i], path, depth + 1, target, rng);
                lemma_replace_faithful(n, own, i, below.0);
                lemma_bumped_faithful(
                    with_children(n, children.update(i, below.0)),
                    own,
                    !below.1.win,
                );
            },
            _ => {},
        }
    } else {
        match target {
            Some(b) => {
                let reached = n.reached_from(b);
                if !n.expanded() {
                    lemma_fresh(n.mv, own);
                }
                lemma_bumped_faithful(reached, own, reached.simulated(rng).0 == Some(true));
            },
            None => {
                lemma_bumped_faithful(n, own, false);
            },
        }
    }
}

impl SearchNode {
    /// Chooses the node that a pass works on, below this node; `board` is the
    /// position before this node's move. Gives the position to reach the chosen
    /// node from, if the choice came to one, and the way to the chosen node: from
    /// this node down, the place of each node among the children of the one
    /// before.
    pub fn select<F: Fn(u64, u64, u64) -> i64>(&mut self, board: &[u64; 2], score: &F) -> (r: (
        Option<[u64; 2]>,
        Vec<usize>,
    ))
        requires
            scorer_ok(score),
            sound(old(self)@),
        ensures
            (final(self)@, r.0, r.1@) == select_model(old(self)@, *board, score),
    {
        let mut path: Vec<usize> = Vec::new();
        let target = self.descend(board, score, &mut path);
        assert(path@ =~= select_model(old(self)@, *board, score).2);
        (target, path)
    }

    /// The choice of a node below this one, with the way to it added to `path`.
    fn descend<F: Fn(u64, u64, u64) -> i64>(
        &mut self,
        board: &[u64; 2],
        score: &F,
        path: &mut Vec<usize>,
    ) -> (target: Option<[u64; 2]>)
        requires
            scorer_ok(score),
            sound(old(self)@),
        ensures
            final(self)@ == select_model(old(self)@, *board, score).0,
            target == select_model(old(self)@, *board, score).1,
            final(path)@ == old(path)@ + select_model(old(self)@, *board, score).2,
        decreases old(self)@,
    {
        let full = match &self.data {
            Some((SearchNodeData::Mid { full, .. }, _, _)) => *full,
            _ => {
                return Some(*board);
            },
        };
        if !full {
            match &mut self.data {
                Some((SearchNodeData::Mid { curr, full, board: own, childs }, _, _)) => {
                    let i = *curr;
                    assert(models_of(childs@).len() == childs@.len());
                    *curr = *curr + 1;
                    if *curr == childs.len() {
                        *full = true;
                        *curr = 0;
                    }
                    path.push(i);
                    Some(*own)
                },
                _ => None,
            }
        } else {
            let choice = self.find_max(score);
            match choice {
                None => None,
                Some(i) => {
                    proof {
                        let children = self@.state->children;
                        lemma_best_upto(children, self@.visits(), score, children.len() as int);
                    }
                    match &mut self.data {
                        Some((SearchNodeData::Mid { board: own, childs, .. }, _, _)) => {
                            path.push(i);
                            let own_board: [u64; 2] = *own;
                            let ghost kids = childs@;
                            assert(models_of(kids)[i as int] == kids[i as int]@);
                            let t = childs[i].descend(&own_board, score, path);
                            proof {
                                assert(models_of(childs@) =~= models_of(kids).update(
                                    i as int,
                                    childs@[i as int]@,
                                ));
                            }
                            t
                        },
                        _ => None,
                    }
                },
            }
        }
    }

    /// The rest of a pass below this node, from place `depth` of `path` on.
    /// The report holds the result that was counted at this node.
    pub fn settle(
        &mut self,
        path: &Vec<usize>,
        depth: usize,
        target: Option<[u64; 2]>,
        rng: &mut RngProvider,
    ) -> (r: MCTSSearchPass)
        requires
            depth <= path.len() < usize::MAX,
            sound(old(self)@),
            reaches(old(self)@, path@, depth as int, target),
            old(self)@.visits() < u64::MAX,
        ensures
            (final(self)@, r, *final(rng)) == settle_model(
                old(self)@,
                path@,
                depth as int,
                target,
                *old(rng),
            ),
            sound(final(self)@),
            final(self)@.visits() == old(self)@.visits() + 1,
            final(self)@.expanded(),
            final(self)@.mv == old(self)@.mv,
        decreases path.len() - depth,
    {
        proof {
            lemma_settle_sound(old(self)@, path@, depth as int, target, *old(rng));
        }
        if depth == path.len() {
            match target {
                Some(b) => {
                    let expand_term = self.expand(&b);
                    proof {
                        if !old(self)@.expanded() {
                            lemma_fresh(
                                old(self)@.mv,
                                after_move(b, old(self)@.mv.0 as int, old(self)@.mv.1 as int),
                            );
                        }
                    }
                    let (res, simulate_depth) = self.simulate(rng);
                    let win = match res {
                        Some(w) => w,
                        None => false,
                    };
                    self.back_propagate(win);
                    MCTSSearchPass {
                        hit: res.is_some(),
                        win,
                        expand_term,
                        expand_depth: path.len() + 1,
                        simulate_depth,
                    }
                },
                None => {
                    self.back_propagate(false);
                    MCTSSearchPass {
                        hit: false,
                        win: false,
                        expand_term: false,
                        expand_depth: path.len() + 1,
                        simulate_depth: 0,
                    }
                },
            }
        } else {
            let i = path[depth];
            let below = match &mut self.data {
                Some((SearchNodeData::Mid { childs, .. }, _, _)) => {
                    let ghost kids = childs@;
                    assert(models_of(kids)[i as int] == kids[i as int]@);
                    let below = childs[i].settle(path, depth + 1, target, rng);
                    proof {
                        assert(models_of(childs@) =~= models_of(kids).update(
                            i as int,
                            childs@[i as int]@,
                        ));
                    }
                    below
                },
                _ => MCTSSearchPass {
                    hit: false,
                    win: true,
                    expand_term: false,
                    expand_depth: path.len() + 1,
                    simulate_depth: 0,
                },
            };
            let win = !below.win;
            self.back_propagate(win);
            MCTSSearchPass {
                hit: below.hit,
                win,
                expand_term: below.expand_term,
                expand_depth: below.expand_depth,
                simulate_depth: below.simulate_depth,
            }
        }
    }
}

/// One pass of the search from `root`, the root of a search from `board`:
/// chooses a node, reaches it, plays on from it, and counts the result at every
/// node on the way back. The report holds the result that was counted at the
/// root. The root counts one visit more; the tree keeps its shape and its
/// counts in order, goes on showing the game that it showed, and only grows.
/// The tree must not lead deeper than a way can be counted.
pub fn mcts_search_pass<F: Fn(u64, u64, u64) -> i64>(
    root: &mut SearchNode,
    board: &[u64; 2],
    rng: &mut RngProvider,
    score: &F,
) -> (r: MCTSSearchPass)
    requires
        scorer_ok(score),
        sound(old(root)@),
        paced(old(root)@, true),
        old(root)@.expanded(),
        old(root)@.visits() < u64::MAX,
        old(root)@.visits() + 2 <= usize::MAX,
    ensures
        (final(root)@, r, *final(rng)) == pass_model(old(root)@, *board, *old(rng), score),
        sound(final(root)@),
        paced(final(root)@, true),
        final(root)@.expanded(),
        final(root)@.visits() == old(root)@.visits() + 1,
        final(root)@.mv == old(root)@.mv,
        faithful(old(root)@, *board) ==> faithful(final(root)@, *board),
        0 <= r.simulate_depth <= 256,
        begun(final(root)@),
        ordered(old(root)@) ==> ordered(final(root)@) && grown(old(root)@, final(root)@),
{
    let (target, path) = root.select(board, score);
    proof {
        lemma_path_bound(old(root)@, *board, score, true);
        lemma_pass_begun(old(root)@, *board, *old(rng), score);
        lemma_pass_paced(old(root)@, *board, *old(rng), score, true);
        if ordered(old(root)@) {
            lemma_pass_grows(old(root)@, *board, *old(rng), score);
        }
        lemma_settle_report(root@, path@, 0, target, *old(rng));
        lemma_select_sound(old(root)@, *board, score);
        if faithful(old(root)@, *board) {
            lemma_select_faithful(old(root)@, *board, *board, score);
            lemma_settle_faithful(root@, *board, path@, 0, target, *old(rng), *board);
        }
    }
    root.settle(&path, 0, target, rng)
}

} // verus!
