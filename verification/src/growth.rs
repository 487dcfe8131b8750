//! How a tree changes from pass to pass: it only grows, the children of a node
//! are reached in their order, and the visits thin out from the root down.

use vstd::prelude::*;
use crate::board::after_move;
use crate::rng::RngProvider;
use crate::search::{
    lemma_fresh, lemma_select_sound, lemma_settle_sound, pass_model, select_model, settle_model,
    sound,
};
use crate::tree::{
    best_child, fresh_state, frontier_children, lemma_best_upto, NodeModel, NodeState,
};
use crate::moves::all_moves;

verus! {

/// Whether the children of every node were reached in their order: while a node
/// has a child left to visit, exactly the children before the one it points at
/// were reached; afterwards all were.
pub open spec fn ordered(n: NodeModel) -> bool
    decreases n,
{
    match n.state {
        NodeState::Internal { cursor, all_visited, children, .. } => forall|i: int|
            0 <= i < children.len() ==> ((#[trigger] children[i]).expanded() <==> (all_visited || i
                < cursor)) && ordered(children[i]),
        _ => true,
    }
}

/// Whether the tree `b` is the tree `a` grown: each node makes the move that it
/// made and counts no fewer visits; a node of a finished game holds what it
/// held; a node where the game goes on holds the position that it held and as
/// many children, a note that all were visited stays, and each child is the
/// child that it was, grown. A node that was not reached may have become any
/// node.
pub open spec fn grown(a: NodeModel, b: NodeModel) -> bool
    decreases a,
{
    &&& a.mv == b.mv
    &&& a.visits() <= b.visits()
    &&& match a.state {
        NodeState::Frontier => true,
        NodeState::Terminal { win, .. } => b.state is Terminal && b.state->Terminal_win == win,
        NodeState::Internal { all_visited, board, children, .. } => {
            &&& b.state is Internal
            &&& b.state->board == board
            &&& b.state->children.len() == children.len()
            &&& all_visited ==> b.state->all_visited
            &&& forall|i: int|
                0 <= i < children.len() ==> grown(#[trigger] children[i], b.state->children[i])
        },
    }
}

/// Every tree is itself, grown.
pub proof fn lemma_grown_refl(n: NodeModel)
    ensures
        grown(n, n),
    decreases n,
{
    match n.state {
        NodeState::Internal { children, .. } => {
            assert forall|i: int| 0 <= i < children.len() implies grown(
                #[trigger] children[i],
                children[i],
            ) by {
                lemma_grown_refl(children[i]);
            }
        },
        _ => {},
    }
}

/// A grown tree, grown again, is the first tree grown.
pub proof fn lemma_grown_trans(a: NodeModel, b: NodeModel, c: NodeModel)
    requires
        grown(a, b),
        grown(b, c),
    ensures
        grown(a, c),
    decreases a,
{
    match a.state {
        NodeState::Internal { children, .. } => {
            assert forall|i: int| 0 <= i < children.len() implies grown(
                #[trigger] children[i],
                c.state->children[i],
            ) by {
                assert(grown(b.state->children[i], c.state->children[i]));
                lemma_grown_trans(children[i], b.state->children[i], c.state->children[i]);
            }
        },
        _ => {},
    }
}

/// In the rest of a pass the tree and the provider do not depend on how many
/// places of the way lie behind.
pub proof fn lemma_settle_shift(
    n: NodeModel,
    path: Seq<usize>,
    first: usize,
    depth: int,
    target: Option<[u64; 2]>,
    rng: RngProvider,
)
    requires
        0 <= depth <= path.len(),
    ensures
        settle_model(n, seq![first] + path, depth + 1, target, rng).0 == settle_model(
            n,
            path,
            depth,
            target,
            rng,
        ).0,
        settle_model(n, seq![first] + path, depth + 1, target, rng).1.win == settle_model(
            n,
            path,
            depth,
            target,
            rng,
        ).1.win,
    decreases path.len() - depth,
{
    let longer = seq![first] + path;
    if depth < path.len() {
        assert(longer[depth + 1] == path[depth]);
        match n.state {
            NodeState::Internal { children, .. } => {
                lemma_settle_shift(children[path[depth] as int], path, first, depth + 1, target, rng);
            },
            _ => {},
        }
    }
}

/// A node that was just reached has none of its children reached.
pub proof fn lemma_fresh_ordered(mv: (i32, i32), board: [u64; 2])
    ensures
        ordered(NodeModel { mv, state: fresh_state(board) }),
{
    reveal_with_fuel(ordered, 2);
    let kids = frontier_children(all_moves(board));
    assert forall|j: int| 0 <= j < kids.len() implies (#[trigger] kids[j]).state is Frontier by {}
}

/// Counting a visit changes nothing in the order in which children were
/// reached.
proof fn lemma_bumped_ordered(n: NodeModel, win: bool)
    requires
        ordered(n),
    ensures
        ordered(n.bumped(win)),
{
    match n.state {
        NodeState::Internal { children, .. } => {
            assert forall|j: int| 0 <= j < children.len() implies ordered(#[trigger] children[j]) by {}
        },
        _ => {},
    }
}

/// A pass leaves a tree grown, and with the children of every node reached in
/// their order: a node that was not reached becomes one that was; a finished
/// game stays what it is; below a node with a child left to visit that child is
/// reached and the node points at the next; a node whose children were all
/// visited stays so.
pub proof fn lemma_pass_grows<F: Fn(u64, u64, u64) -> i64>(
    n: NodeModel,
    board: [u64; 2],
    rng: RngProvider,
    score: &F,
)
    requires
        sound(n),
        ordered(n),
        n.visits() < u64::MAX,
    ensures
        grown(n, pass_model(n, board, rng, score).0),
        ordered(pass_model(n, board, rng, score).0),
        pass_model(n, board, rng, score).0.expanded(),
    decreases n,
{
    let chosen = select_model(n, board, score);
    let res = pass_model(n, board, rng, score).0;
    match n.state {
        NodeState::Internal { cursor, all_visited, board: own, children, wins, visits } => {
            if !all_visited {
                let child = children[cursor];
                let path = seq![cursor as usize];
                assert(path[0] == cursor as usize);
                let c2 = settle_model(child, path, 1, Some(own), rng).0;
                assert(!child.expanded());
                lemma_fresh_ordered(child.mv, after_move(own, child.mv.0 as int, child.mv.1 as int));
                lemma_fresh(child.mv, after_move(own, child.mv.0 as int, child.mv.1 as int));
                lemma_bumped_ordered(child.reached_from(own), c2.wins() == 1);
                assert(c2 == child.reached_from(own).bumped(c2.wins() == 1));
                let kids = children.update(cursor, c2);
                assert(res.state->children =~= kids);
                assert forall|i: int| 0 <= i < children.len() implies grown(
                    #[trigger] children[i],
                    kids[i],
                ) by {
                    lemma_grown_refl(children[i]);
                }
                assert forall|i: int| 0 <= i < kids.len() implies ((#[trigger] kids[i]).expanded()
                    <==> (res.state->all_visited || i < res.state->cursor)) && ordered(kids[i]) by {
                    if i != cursor {
                        assert(kids[i] == children[i]);
                    }
                }
            } else {
                match best_child(n, score) {
                    Some(i) => {
                        if 0 <= i < children.len() {
                            let below = select_model(children[i], own, score);
                            let path = seq![i as usize] + below.2;
                            assert(path[0] == i as usize);
                            lemma_select_sound(children[i], own, score);
                            lemma_settle_shift(below.0, below.2, i as usize, 0, below.1, rng);
                            lemma_pass_grows(children[i], own, rng, score);
                            let c2 = pass_model(children[i], own, rng, score).0;
                            let kids = children.update(i, c2);
                            assert(children.update(i, below.0)[i] == below.0);
                            assert(res.state->children =~= kids);
                            assert forall|j: int| 0 <= j < children.len() implies grown(
                                #[trigger] children[j],
                                kids[j],
                            ) by {
                                if j != i {
                                    lemma_grown_refl(children[j]);
                                }
                            }
                            assert forall|j: int| 0 <= j < kids.len() implies ((#[trigger] kids[j]).expanded()
                                <==> (res.state->all_visited || j < res.state->cursor)) && ordered(
                                kids[j],
                            ) by {
                                if j != i {
                                    assert(kids[j] == children[j]);
                                }
                            }
                        } else {
                            lemma_grown_refl(n);
                            lemma_bumped_ordered(n, false);
                            assert forall|j: int| 0 <= j < children.len() implies grown(
                                #[trigger] children[j],
                                children[j],
                            ) by {
                                lemma_grown_refl(children[j]);
                            }
                        }
                    },
                    None => {
                        lemma_bumped_ordered(n, false);
                        assert forall|j: int| 0 <= j < children.len() implies grown(
                            #[trigger] children[j],
                            children[j],
                        ) by {
                            lemma_grown_refl(children[j]);
                        }
                    },
                }
            }
        },
        NodeState::Terminal { .. } => {
            lemma_bumped_ordered(n, res.wins() == n.wins() + 1);
        },
        NodeState::Frontier => {
            let own = after_move(board, n.mv.0 as int, n.mv.1 as int);
            lemma_fresh_ordered(n.mv, own);
            lemma_fresh(n.mv, own);
            lemma_bumped_ordered(n.reached_from(board), res.wins() == 1);
        },
    }
}

/// Whether the visits thin out from the root down: every node below the root
/// that was reached counts at least one visit, and more than each of its
/// children; the root counts no fewer than each of its children. `root` says
/// whether `n` is the root.
pub open spec fn paced(n: NodeModel, root: bool) -> bool
    decreases n,
{
    let lead: int = if root {
        0
    } else {
        1
    };
    match n.state {
        NodeState::Frontier => true,
        NodeState::Terminal { visits, .. } => visits >= lead,
        NodeState::Internal { children, visits, .. } => {
            &&& visits >= lead
            &&& forall|i: int|
                0 <= i < children.len() ==> ((#[trigger] children[i]).expanded()
                    ==> children[i].visits() + lead <= visits) && paced(children[i], false)
        },
    }
}

/// A node that was just reached has its visits thinning out below it, as a
/// root; and so, once it has counted a visit, anywhere.
pub proof fn lemma_fresh_paced(mv: (i32, i32), board: [u64; 2], win: bool)
    ensures
        paced(NodeModel { mv, state: fresh_state(board) }, true),
        paced((NodeModel { mv, state: fresh_state(board) }).bumped(win), false),
{
    reveal_with_fuel(paced, 2);
    let kids = frontier_children(all_moves(board));
    assert forall|j: int| 0 <= j < kids.len() implies (#[trigger] kids[j]).state is Frontier by {}
}

/// Counting a visit keeps the visits thinning out.
proof fn lemma_bumped_paced(n: NodeModel, win: bool, root: bool)
    requires
        paced(n, root),
        n.visits() < u64::MAX,
    ensures
        paced(n.bumped(win), root),
{
    match n.state {
        NodeState::Internal { children, .. } => {
            assert forall|j: int| 0 <= j < children.len() implies paced(
                #[trigger] children[j],
                false,
            ) by {}
        },
        _ => {},
    }
}

/// The way to the chosen node is no longer than the visits counted where it
/// starts, but for one more step below the root.
pub proof fn lemma_path_bound<F: Fn(u64, u64, u64) -> i64>(
    n: NodeModel,
    board: [u64; 2],
    score: &F,
    root: bool,
)
    requires
        sound(n),
        paced(n, root),
        n.expanded(),
    ensures
        select_model(n, board, score).2.len() <= n.visits() + (if root {
            1int
        } else {
            0int
        }),
    decreases n,
{
    match n.state {
        NodeState::Internal { all_visited, board: own, children, visits, .. } => {
            if all_visited {
                match best_child(n, score) {
                    Some(i) => {
                        if 0 <= i < children.len() {
                            lemma_best_upto(children, visits, score, children.len() as int);
                            lemma_path_bound(children[i], own, score, false);
                        }
                    },
                    None => {},
                }
            }
        },
        _ => {},
    }
}

/// The chosen node, once it is reached, played on from and counted at, has
/// its visits thinning out below it.
proof fn lemma_leaf_paced(n: NodeModel, b: [u64; 2], rng: RngProvider, root: bool)
    requires
        paced(n, root),
        n.visits() < u64::MAX,
        root ==> n.expanded(),
    ensures
        paced(settle_model(n, Seq::empty(), 0, Some(b), rng).0, root),
{
    let reached = n.reached_from(b);
    let win = match reached.simulated(rng).0 {
        Some(w) => w,
        None => false,
    };
    assert(settle_model(n, Seq::empty(), 0, Some(b), rng).0 == reached.bumped(win));
    if n.expanded() {
        lemma_bumped_paced(n, win, root);
    } else {
        lemma_fresh_paced(n.mv, after_move(b, n.mv.0 as int, n.mv.1 as int), win);
    }
}

/// What the rest of a pass leaves of the chosen node does not depend on the
/// way that led to it.
proof fn lemma_leaf_settle(
    n: NodeModel,
    path: Seq<usize>,
    depth: int,
    target: Option<[u64; 2]>,
    rng: RngProvider,
)
    requires
        depth >= path.len(),
    ensures
        settle_model(n, path, depth, target, rng).0 == settle_model(
            n,
            Seq::empty(),
            0,
            target,
            rng,
        ).0,
{
}

/// Below a node with a child left to visit, a pass keeps the visits thinning
/// out.
proof fn lemma_exploring_paced<F: Fn(u64, u64, u64) -> i64>(
    n: NodeModel,
    board: [u64; 2],
    rng: RngProvider,
    score: &F,
    root: bool,
)
    requires
        sound(n),
        paced(n, root),
        n.visits() < u64::MAX,
        n.state is Internal,
        !n.state->all_visited,
    ensures
        paced(pass_model(n, board, rng, score).0, root),
{
    let res = pass_model(n, board, rng, score).0;
    let cursor = n.state->cursor;
    let children = n.state->children;
    let own = n.state->board;
    let child = children[cursor];
    let path = seq![cursor as usize];
    assert(path[0] == cursor as usize);
    let c2 = settle_model(child, path, 1, Some(own), rng).0;
    lemma_leaf_settle(child, path, 1, Some(own), rng);
    lemma_leaf_paced(child, own, rng, false);
    lemma_settle_sound(child, path, 1, Some(own), rng);
    let kids = children.update(cursor, c2);
    assert(res.state->children =~= kids);
    assert(res.visits() == n.visits() + 1);
    let lead: int = if root {
        0
    } else {
        1
    };
    assert forall|i: int| 0 <= i < kids.len() implies ((#[trigger] kids[i]).expanded()
        ==> kids[i].visits() + lead <= res.visits()) && paced(kids[i], false) by {
        if i != cursor {
            assert(kids[i] == children[i]);
        } else {
            assert(child.expanded() ==> child.visits() + lead <= n.visits());
        }
    }
}

/// A pass keeps the visits thinning out from the root down.
pub proof fn lemma_pass_paced<F: Fn(u64, u64, u64) -> i64>(
    n: NodeModel,
    board: [u64; 2],
    rng: RngProvider,
    score: &F,
    root: bool,
)
    requires
        sound(n),
        paced(n, root),
        n.visits() < u64::MAX,
        root ==> n.expanded(),
    ensures
        paced(pass_model(n, board, rng, score).0, root),
    decreases n,
{
    let res = pass_model(n, board, rng, score).0;
    match n.state {
        NodeState::Internal { cursor, all_visited, board: own, children, wins, visits } => {
            if !all_visited {
                lemma_exploring_paced(n, board, rng, score, root);
            } else {
                match best_child(n, score) {
                    Some(i) => {
                        if 0 <= i < children.len() {
                            let below = select_model(children[i], own, score);
                            let path = seq![i as usize] + below.2;
                            assert(path[0] == i as usize);
                            lemma_best_upto(children, visits, score, children.len() as int);
                            lemma_select_sound(children[i], own, score);
                            lemma_settle_shift(below.0, below.2, i as usize, 0, below.1, rng);
                            lemma_pass_paced(children[i], own, rng, score, false);
                            lemma_settle_sound(below.0, below.2, 0, below.1, rng);
                            let c2 = pass_model(children[i], own, rng, score).0;
                            let kids = children.update(i, c2);
                            assert(children.update(i, below.0)[i] == below.0);
                            assert(res.state->children =~= kids);
                            assert(res.visits() == visits + 1);
                            assert(c2.visits() == children[i].visits() + 1);
                            let lead: int = if root {
                                0
                            } else {
                                1
                            };
                            assert forall|j: int| 0 <= j < kids.len() implies ((#[trigger] kids[j]).expanded()
                                ==> kids[j].visits() + lead <= res.visits()) && paced(
                                kids[j],
                                false,
                            ) by {
                                if j != i {
                                    assert(kids[j] == children[j]);
                                }
                            }
                        } else {
                            lemma_bumped_paced(n, false, root);
                        }
                    },
                    None => {
                        lemma_bumped_paced(n, false, root);
                    },
                }
            }
        },
        _ => {
            lemma_leaf_paced(n, board, rng, root);
        },
    }
}

/// Whether a node where the game goes on has begun to visit its children: it
/// points past the first, or all were visited.
pub open spec fn begun(n: NodeModel) -> bool {
    match n.state {
        NodeState::Internal { cursor, all_visited, .. } => all_visited || cursor >= 1,
        _ => true,
    }
}

/// A node that has begun to visit its children in their order, and has any,
/// has reached the first.
pub proof fn lemma_begun_reached(n: NodeModel)
    requires
        begun(n),
        ordered(n),
        n.state is Internal,
        n.state->children.len() > 0,
    ensures
        n.state->children[0].expanded(),
{
    assert(n.state->children[0].expanded() <==> (n.state->all_visited || 0 < n.state->cursor));
}

/// After a pass, a node where the game goes on has begun to visit its
/// children.
pub proof fn lemma_pass_begun<F: Fn(u64, u64, u64) -> i64>(
    n: NodeModel,
    board: [u64; 2],
    rng: RngProvider,
    score: &F,
)
    requires
        sound(n),
        n.expanded(),
    ensures
        begun(pass_model(n, board, rng, score).0),
{
    let chosen = select_model(n, board, score);
    match n.state {
        NodeState::Internal { cursor, all_visited, children, .. } => {
            if !all_visited {
                assert(chosen.2[0] == cursor as usize);
            } else {
                match best_child(n, score) {
                    Some(i) => {
                        if 0 <= i < children.len() {
                            assert(chosen.2[0] == i as usize);
                        }
                    },
                    None => {},
                }
            }
        },
        _ => {},
    }
}

} // verus!
