use vstd::prelude::*;

use crate::edge_list::{edge_items, EdgeList};

verus! {

/// A walking edge of the street graph. `has_pt` marks that arriving over the
/// edge lets the traveller try to board a scheduled service at `to`.
#[derive(Clone, Copy, Debug)]
pub struct EdgeWalk {
    pub to: usize,
    pub cost: usize,
    pub has_pt: bool,
}

/// The outgoing walking edges of one node.
#[derive(Debug)]
pub struct NodeWalk {
    pub edges: EdgeList,
}

/// An origin of the accessibility measure and the weight it carries.
#[derive(Clone, Copy, Debug)]
pub struct StartNodes {
    pub node: usize,
    pub weight: usize,
}

/// One scheduled departure from a stop: it leaves at `leave_time` (seconds of
/// the day) and reaches `to` after `cost` seconds.
#[derive(Clone, Copy, Debug)]
pub struct TimetableEntry {
    pub leave_time: usize,
    pub cost: usize,
    pub to: usize,
}

/// The departures of one node, sorted by leaving time.
#[derive(Clone, Debug)]
pub struct NodeRoute {
    pub timetable: Vec<TimetableEntry>,
}

/// Every walking edge leads to a node of the graph.
pub open spec fn walk_graph_wf(g: Seq<NodeWalk>) -> bool {
    forall|i: int, j: int|
        0 <= i < g.len() && 0 <= j < edge_items(g[i].edges).len() ==> (#[trigger] edge_items(g[i].edges)[j]).to < g.len()
}

/// Departures are listed by non-decreasing leaving time.
pub open spec fn timetable_sorted(tt: Seq<TimetableEntry>) -> bool {
    forall|a: int, b: int| 0 <= a <= b < tt.len() ==> #[trigger] tt[a].leave_time <= #[trigger] tt[b].leave_time
}

/// One sorted timetable per node, each departure leading to a node below `n`.
pub open spec fn routes_wf(r: Seq<NodeRoute>, n: int) -> bool {
    &&& r.len() == n
    &&& forall|i: int| 0 <= i < n ==> timetable_sorted(#[trigger] r[i].timetable@)
    &&& forall|i: int, j: int|
        0 <= i < n && 0 <= j < r[i].timetable@.len() ==> (#[trigger] r[i].timetable@[j]).to < n
}

} // verus!
