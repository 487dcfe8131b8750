//! A listing of a search tree for display: the nodes that a pass has reached,
//! each with its move, its counts and what it holds.

use vstd::prelude::*;
use crate::bits::to_coord_2d;
use crate::moves::EMPTY_MOVE;
use crate::tree::{models_of, NodeModel, NodeState, SearchNode, SearchNodeData};

verus! {

/// A listed node.
#[derive(Debug, PartialEq, Eq)]
pub struct NodeRecord {
    /// The columns and rows of the squares that the node's move leaves and
    /// lands on; `None` for the root, which makes no move.
    pub from_to: Option<((i32, i32), (i32, i32))>,
    pub wins: u64,
    pub visits: u64,
    pub detail: RecordDetail,
}

/// What a listed node holds.
#[derive(Debug, PartialEq, Eq)]
pub enum RecordDetail {
    /// The game goes on: the children that a pass has reached, in their order.
    Children(Vec<NodeRecord>),
    /// The game is over, and whether the side to move counts as connected.
    Finished(bool),
}

/// What a listed node stands for.
pub struct RecordModel {
    pub from_to: Option<((i32, i32), (i32, i32))>,
    pub wins: u64,
    pub visits: u64,
    pub detail: DetailModel,
}

/// What the contents of a listed node stand for.
pub enum DetailModel {
    Children(Seq<RecordModel>),
    Finished(bool),
}

/// What a list of listed nodes stands for.
pub open spec fn records_of(records: Seq<NodeRecord>) -> Seq<RecordModel>
    decreases records,
{
    Seq::new(
        records.len(),
        |i: int|
            if 0 <= i < records.len() {
                records[i]@
            } else {
                RecordModel { from_to: None, wins: 0, visits: 0, detail: DetailModel::Finished(false) }
            },
    )
}

/// What the contents of a listed node stand for.
pub open spec fn detail_of(detail: RecordDetail) -> DetailModel
    decreases detail,
{
    match detail {
        RecordDetail::Children(children) => DetailModel::Children(records_of(children@)),
        RecordDetail::Finished(win) => DetailModel::Finished(win),
    }
}

impl View for NodeRecord {
    type V = RecordModel;

    open spec fn view(&self) -> RecordModel
        decreases self,
    {
        RecordModel {
            from_to: self.from_to,
            wins: self.wins,
            visits: self.visits,
            detail: detail_of(self.detail),
        }
    }
}

/// A move by the columns and rows of its two squares; nothing for the empty
/// move.
pub open spec fn labelled(mv: (i32, i32)) -> Option<((i32, i32), (i32, i32))> {
    if mv == EMPTY_MOVE {
        None
    } else {
        Some(
            (
                ((mv.0 as int % 8) as i32, (mv.0 as int / 8) as i32),
                ((mv.1 as int % 8) as i32, (mv.1 as int / 8) as i32),
            ),
        )
    }
}

/// The listing of the first `k` of `children`: of those that a pass has
/// reached, in their order.
pub open spec fn listed_upto(children: Seq<NodeModel>, k: nat) -> Seq<RecordModel>
    decreases children, k,
{
    if k == 0 || k > children.len() {
        Seq::empty()
    } else {
        let before = listed_upto(children, (k - 1) as nat);
        match listed(children[k - 1]) {
            Some(r) => before.push(r),
            None => before,
        }
    }
}

/// The listing of a tree: nothing for a node that no pass has reached; else the
/// node with its move, its counts, and either the listing of its children or
/// the end of the game that it holds.
pub open spec fn listed(n: NodeModel) -> Option<RecordModel>
    decreases n, 0nat,
{
    match n.state {
        NodeState::Frontier => None,
        NodeState::Terminal { win, wins, visits } => Some(
            RecordModel { from_to: labelled(n.mv), wins, visits, detail: DetailModel::Finished(win) },
        ),
        NodeState::Internal { children, wins, visits, .. } => Some(
            RecordModel {
                from_to: labelled(n.mv),
                wins,
                visits,
                detail: DetailModel::Children(listed_upto(children, children.len())),
            },
        ),
    }
}

impl SearchNode {
    /// Lists the tree below this node.
    pub fn record(&self) -> (r: Option<NodeRecord>)
        ensures
            match r {
                Some(rec) => listed(self@) == Some(rec@),
                None => listed(self@) is None,
            },
        decreases self@,
    {
        match &self.data {
            None => None,
            Some((data, wins, visits)) => {
                let from_to = if self.curr_move.0 == EMPTY_MOVE.0 && self.curr_move.1 == EMPTY_MOVE.1 {
                    None
                } else {
                    Some((to_coord_2d(self.curr_move.0), to_coord_2d(self.curr_move.1)))
                };
                let detail = match data {
                    SearchNodeData::Term(win) => RecordDetail::Finished(*win),
                    SearchNodeData::Mid { childs, .. } => {
                        let mut shown: Vec<NodeRecord> = Vec::new();
                        let mut i: usize = 0;
                        while i < childs.len()
                            invariant
                                i <= childs.len(),
                                self@.state is Internal,
                                self@.state->children == models_of(childs@),
                                records_of(shown@) == listed_upto(models_of(childs@), i as nat),
                            decreases childs.len() - i,
                        {
                            let ghost before = shown@;
                            assert(models_of(childs@)[i as int] == childs@[i as int]@);
                            match childs[i].record() {
                                Some(rec) => {
                                    shown.push(rec);
                                    assert(records_of(shown@) =~= records_of(before).push(rec@));
                                },
                                None => {},
                            }
                            i = i + 1;
                        }
                        RecordDetail::Children(shown)
                    },
                };
                Some(NodeRecord { from_to, wins: *wins, visits: *visits, detail })
            },
        }
    }
}

} // verus!
