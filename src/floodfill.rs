use vstd::prelude::*;
use vstd::arithmetic::mul::lemma_mul_inequality;

use crate::floodfill_pt::{elapsed_time, search, SearchInput};
use crate::graph::{walk_graph_wf, NodeRoute, NodeWalk};

verus! {

/// A frontier entry of the walking-only search.
#[derive(Clone, Copy, Debug)]
pub struct PriorityQueueItem<C, N> {
    pub cost: C,
    pub node: N,
}

impl PriorityQueueItem<usize, usize> {
    /// Frontier order: lower accumulated cost first; equal costs by lower node id.
    pub open spec fn before(self, other: Self) -> bool {
        self.cost < other.cost || (self.cost == other.cost && self.node < other.node)
    }

    pub fn goes_before(&self, other: &Self) -> (r: bool)
        ensures
            r == self.before(*other),
    {
        self.cost < other.cost || (self.cost == other.cost && self.node < other.node)
    }
}

/// The search input of a walk with no scheduled services.
pub open spec fn walk_input(
    graph_walk: Seq<NodeWalk>,
    node_values: Seq<bool>,
    start_node: usize,
    time_limit: usize,
) -> SearchInput {
    SearchInput {
        graph: graph_walk,
        routes: Seq::empty(),
        node_values,
        origin: start_node,
        trip_start: 0,
        time_limit,
        boarding: false,
    }
}

/// Weighted accessibility cost of one origin on foot: the search time (or
/// `time_limit` when no destination is reached within it) times
/// `start_node_weight`.
pub fn run(
    graph_walk: &Vec<NodeWalk>,
    node_values: &Vec<bool>,
    start_node: usize,
    start_node_weight: usize,
    time_limit: usize,
) -> (r: usize)
    requires
        walk_graph_wf(graph_walk@),
        node_values.len() == graph_walk.len(),
        start_node < graph_walk.len(),
        time_limit * start_node_weight <= usize::MAX,
    ensures
        r == elapsed_time(walk_input(graph_walk@, node_values@, start_node, time_limit)) * start_node_weight,
        r <= time_limit * start_node_weight,
{
    let no_routes: Vec<NodeRoute> = Vec::new();
    let elapsed = search(graph_walk, &no_routes, node_values, start_node, 0, time_limit, false);
    proof {
        assert(no_routes@ =~= Seq::<NodeRoute>::empty());
        lemma_mul_inequality(elapsed as int, time_limit as int, start_node_weight as int);
    }
    elapsed * start_node_weight
}

} // verus!
