use vstd::prelude::*;

use crate::floodfill_pt::{elapsed_time, run, SearchInput};
use crate::graph::{routes_wf, walk_graph_wf, NodeRoute, NodeWalk, StartNodes};

verus! {

/// The search input of one origin, with scheduled services.
pub open spec fn origin_input(
    graph: Seq<NodeWalk>,
    routes: Seq<NodeRoute>,
    node_values: Seq<bool>,
    origin: StartNodes,
    trip_start: usize,
    time_limit: usize,
) -> SearchInput {
    SearchInput {
        graph,
        routes,
        node_values,
        origin: origin.node,
        trip_start,
        time_limit,
        boarding: true,
    }
}

/// Sum of the weights of `origins`.
pub open spec fn total_weight(origins: Seq<StartNodes>) -> int
    decreases origins.len(),
{
    if origins.len() == 0 {
        0
    } else {
        total_weight(origins.drop_last()) + origins.last().weight
    }
}

/// Sum over `origins` of each one's weighted accessibility cost.
pub open spec fn summed_cost(
    graph: Seq<NodeWalk>,
    routes: Seq<NodeRoute>,
    node_values: Seq<bool>,
    origins: Seq<StartNodes>,
    trip_start: usize,
    time_limit: usize,
) -> int
    decreases origins.len(),
{
    if origins.len() == 0 {
        0
    } else {
        summed_cost(graph, routes, node_values, origins.drop_last(), trip_start, time_limit)
            + elapsed_time(origin_input(graph, routes, node_values, origins.last(), trip_start, time_limit))
            * origins.last().weight
    }
}

proof fn lemma_total_weight_prefix(s: Seq<StartNodes>, i: int)
    requires
        0 <= i <= s.len(),
    ensures
        0 <= total_weight(s.subrange(0, i)) <= total_weight(s),
    decreases s.len(),
{
    if i == s.len() {
        assert(s.subrange(0, i) =~= s);
        if s.len() > 0 {
            lemma_total_weight_prefix(s.drop_last(), i - 1);
        }
    } else {
        assert(s.subrange(0, i) =~= s.drop_last().subrange(0, i));
        lemma_total_weight_prefix(s.drop_last(), i);
    }
}

/// Mean weighted travel time over all origins: the weighted costs are summed
/// in integers and divided once by `normaliser`.
pub fn calculate_total_weighted_time(
    graph_walk: &Vec<NodeWalk>,
    graph_routes: &Vec<NodeRoute>,
    node_values: &Vec<bool>,
    start_nodes_and_weights: &Vec<StartNodes>,
    trip_start_seconds: usize,
    time_limit: usize,
    normaliser: usize,
) -> (r: usize)
    requires
        walk_graph_wf(graph_walk@),
        routes_wf(graph_routes@, graph_walk.len() as int),
        node_values.len() == graph_walk.len(),
        forall|i: int|
            0 <= i < start_nodes_and_weights.len() ==> (#[trigger] start_nodes_and_weights@[i]).node
                < graph_walk.len(),
        trip_start_seconds + time_limit <= usize::MAX,
        time_limit * total_weight(start_nodes_and_weights@) <= usize::MAX,
        normaliser > 0,
    ensures
        r == summed_cost(
            graph_walk@,
            graph_routes@,
            node_values@,
            start_nodes_and_weights@,
            trip_start_seconds,
            time_limit,
        ) / normaliser as int,
{
    let ghost origins = start_nodes_and_weights@;
    let mut sum: usize = 0;
    let mut i: usize = 0;
    while i < start_nodes_and_weights.len()
        invariant
            origins == start_nodes_and_weights@,
            i <= origins.len(),
            walk_graph_wf(graph_walk@),
            routes_wf(graph_routes@, graph_walk.len() as int),
            node_values.len() == graph_walk.len(),
            forall|j: int| 0 <= j < origins.len() ==> (#[trigger] origins[j]).node < graph_walk.len(),
            trip_start_seconds + time_limit <= usize::MAX,
            time_limit * total_weight(origins) <= usize::MAX,
            sum == summed_cost(
                graph_walk@,
                graph_routes@,
                node_values@,
                origins.subrange(0, i as int),
                trip_start_seconds,
                time_limit,
            ),
            sum <= time_limit * total_weight(origins.subrange(0, i as int)),
        decreases origins.len() - i,
    {
        let o = start_nodes_and_weights[i];
        let ghost before = origins.subrange(0, i as int);
        let ghost after = origins.subrange(0, i + 1);
        proof {
            assert(after.drop_last() =~= before);
            assert(after.last() == o);
            lemma_total_weight_prefix(origins, i + 1);
            lemma_total_weight_prefix(origins, i as int);
            let tb = total_weight(before);
            let ta = total_weight(after);
            let tt = total_weight(origins);
            assert(ta == tb + o.weight);
            assert(time_limit * o.weight <= time_limit * tt) by (nonlinear_arith)
                requires
                    0 <= tb,
                    ta == tb + o.weight,
                    ta <= tt,
            ;
        }
        let c = run(graph_walk, graph_routes, node_values, o.node, o.weight, trip_start_seconds, time_limit);
        proof {
            let tb = total_weight(before);
            let ta = total_weight(after);
            let tt = total_weight(origins);
            assert(time_limit * ta == time_limit * tb + time_limit * o.weight) by (nonlinear_arith)
                requires
                    ta == tb + o.weight,
            ;
            assert(time_limit * ta <= time_limit * tt) by (nonlinear_arith)
                requires
                    ta <= tt,
            ;
        }
        sum = sum + c;
        i += 1;
    }
    assert(origins.subrange(0, i as int) =~= origins);
    sum / normaliser
}

} // verus!
