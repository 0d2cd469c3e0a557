use vstd::prelude::*;

use crate::edge_list::edge_items;
use crate::floodfill::walk_input;
use crate::floodfill_pt::{
    elapsed_time, initial_state, is_final, min_index, relax, state_after, QueueItem,
    SearchInput, SearchState,
};
use crate::graph::{walk_graph_wf, NodeWalk};

verus! {

/// `nodes` is a walk through `g` that leaves `nodes[k]` by its edge `idx[k]`.
pub open spec fn is_walk(g: Seq<NodeWalk>, nodes: Seq<usize>, idx: Seq<int>) -> bool {
    &&& nodes.len() == idx.len() + 1
    &&& forall|k: int| 0 <= k < nodes.len() ==> #[trigger] nodes[k] < g.len()
    &&& forall|k: int|
        0 <= k < idx.len() ==> {
            &&& 0 <= #[trigger] idx[k] < edge_items(g[nodes[k] as int].edges).len()
            &&& edge_items(g[nodes[k] as int].edges)[idx[k]].to == nodes[k + 1]
        }
}

/// Sum of the costs of the edges a walk takes.
pub open spec fn walk_cost(g: Seq<NodeWalk>, nodes: Seq<usize>, idx: Seq<int>) -> int
    decreases idx.len(),
{
    if idx.len() == 0 {
        0
    } else {
        walk_cost(g, nodes.drop_last(), idx.drop_last())
            + edge_items(g[nodes[idx.len() - 1] as int].edges)[idx.last()].cost
    }
}

/// Some walk from `origin` to `v` costs exactly `c`.
pub open spec fn reachable_at(g: Seq<NodeWalk>, origin: usize, v: usize, c: int) -> bool {
    exists|nodes: Seq<usize>, idx: Seq<int>|
        is_walk(g, nodes, idx) && nodes[0] == origin && nodes.last() == v && walk_cost(g, nodes, idx) == c
}

proof fn lemma_extend(g: Seq<NodeWalk>, origin: usize, u: usize, c: int, j: int)
    requires
        walk_graph_wf(g),
        reachable_at(g, origin, u, c),
        u < g.len(),
        0 <= j < edge_items(g[u as int].edges).len(),
    ensures
        reachable_at(
            g,
            origin,
            edge_items(g[u as int].edges)[j].to,
            c + edge_items(g[u as int].edges)[j].cost,
        ),
{
    let (nodes, idx) = choose|nodes: Seq<usize>, idx: Seq<int>|
        is_walk(g, nodes, idx) && nodes[0] == origin && nodes.last() == u && walk_cost(g, nodes, idx) == c;
    let e = edge_items(g[u as int].edges)[j];
    let n2 = nodes.push(e.to);
    let i2 = idx.push(j);
    assert(n2.drop_last() =~= nodes);
    assert(i2.drop_last() =~= idx);
    assert(n2[idx.len() as int] == u);
    assert forall|k: int| 0 <= k < n2.len() implies #[trigger] n2[k] < g.len() by {
        if k < nodes.len() {
            assert(n2[k] == nodes[k]);
        }
    }
    assert forall|k: int| 0 <= k < i2.len() implies {
        &&& 0 <= #[trigger] i2[k] < edge_items(g[n2[k] as int].edges).len()
        &&& edge_items(g[n2[k] as int].edges)[i2[k]].to == n2[k + 1]
    } by {
        if k < idx.len() {
            assert(i2[k] == idx[k]);
            assert(n2[k] == nodes[k]);
            assert(n2[k + 1] == nodes[k + 1]);
        }
    }
    assert(is_walk(g, n2, i2));
    assert(walk_cost(g, n2, i2) == c + e.cost);
}

/// Every frontier entry is reached by a walk of its cost.
pub open spec fn queue_reached(g: Seq<NodeWalk>, origin: usize, q: Seq<QueueItem>) -> bool {
    forall|j: int| 0 <= j < q.len() ==> reachable_at(g, origin, (#[trigger] q[j]).node, q[j].cost as int)
}

proof fn lemma_relax_reached(
    g: Seq<NodeWalk>,
    origin: usize,
    q: Seq<QueueItem>,
    u: usize,
    c: usize,
    time_limit: usize,
    m: int,
)
    requires
        walk_graph_wf(g),
        u < g.len(),
        reachable_at(g, origin, u, c as int),
        queue_reached(g, origin, q),
        0 <= m <= edge_items(g[u as int].edges).len(),
    ensures
        queue_reached(g, origin, relax(q, edge_items(g[u as int].edges).subrange(0, m), c, time_limit)),
    decreases m,
{
    let es = edge_items(g[u as int].edges);
    if m > 0 {
        assert(es.subrange(0, m).drop_last() =~= es.subrange(0, m - 1));
        lemma_relax_reached(g, origin, q, u, c, time_limit, m - 1);
        assert(es.subrange(0, m).last() == es[m - 1]);
        lemma_extend(g, origin, u, c as int, m - 1);
    }
}

/// What stays true at every step of a search on foot.
pub open spec fn state_reached(inp: SearchInput, s: SearchState) -> bool {
    &&& s.visited.len() == inp.graph.len()
    &&& queue_reached(inp.graph, inp.origin, s.queue)
    &&& s.found matches Some(c) ==> exists|v: usize|
        v < inp.graph.len() && #[trigger] inp.node_values[v as int] && reachable_at(inp.graph, inp.origin, v, c as int)
}

proof fn lemma_state_reached(inp: SearchInput, k: nat)
    requires
        walk_graph_wf(inp.graph),
        !inp.boarding,
        inp.origin < inp.graph.len(),
    ensures
        state_reached(inp, state_after(inp, k)),
    decreases k,
{
    let g = inp.graph;
    if k == 0 {
        let nodes = seq![inp.origin];
        let idx = Seq::<int>::empty();
        assert(is_walk(g, nodes, idx));
        assert(walk_cost(g, nodes, idx) == 0);
        assert(reachable_at(g, inp.origin, inp.origin, 0));
        assert(initial_state(inp).queue[0].node == inp.origin);
    } else {
        let s = state_after(inp, (k - 1) as nat);
        lemma_state_reached(inp, (k - 1) as nat);
        if !is_final(s) {
            let i = min_index(s.queue);
            crate::floodfill_pt::lemma_min_index(s.queue);
            let cur = s.queue[i];
            let rest = s.queue.remove(i);
            assert(reachable_at(g, inp.origin, cur.node, cur.cost as int));
            assert forall|j: int| 0 <= j < rest.len() implies reachable_at(
                g,
                inp.origin,
                (#[trigger] rest[j]).node,
                rest[j].cost as int,
            ) by {
                if j < i {
                    assert(rest[j] == s.queue[j]);
                } else {
                    assert(rest[j] == s.queue[j + 1]);
                }
            }
            let cn = cur.node;
            assert(cn < g.len()) by {
                let (nodes, idx) = choose|nodes: Seq<usize>, idx: Seq<int>|
                    is_walk(g, nodes, idx) && nodes[0] == inp.origin && nodes.last() == cn && walk_cost(
                        g,
                        nodes,
                        idx,
                    ) == cur.cost as int;
                assert(nodes[nodes.len() - 1] < g.len());
            }
            if inp.node_values[cn as int] {
            } else if s.visited[cn as int] {
            } else {
                let es = edge_items(g[cn as int].edges);
                lemma_relax_reached(g, inp.origin, rest, cn, cur.cost, inp.time_limit, es.len() as int);
                assert(es.subrange(0, es.len() as int) =~= es);
            }
        }
    }
}

/// On foot, a search that ends within the budget ends at a destination that
/// some walk from the origin reaches at exactly the reported time.
pub proof fn lemma_walk_result_reached(g: Seq<NodeWalk>, node_values: Seq<bool>, origin: usize, time_limit: usize)
    requires
        walk_graph_wf(g),
        node_values.len() == g.len(),
        origin < g.len(),
    ensures
        elapsed_time(walk_input(g, node_values, origin, time_limit)) == time_limit || exists|v: usize|
            v < g.len() && #[trigger] node_values[v as int] && reachable_at(
                g,
                origin,
                v,
                elapsed_time(walk_input(g, node_values, origin, time_limit)),
            ),
{
    let inp = walk_input(g, node_values, origin, time_limit);
    if exists|k: nat| is_final(#[trigger] state_after(inp, k)) {
        let k = choose|k: nat| is_final(#[trigger] state_after(inp, k));
        lemma_state_reached(inp, k);
    }
}

} // verus!
