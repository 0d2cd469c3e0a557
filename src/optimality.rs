use vstd::prelude::*;
use vstd::arithmetic::mul::lemma_mul_inequality;

use crate::candidate::edges_of;
use crate::edge_list::edge_items;
use crate::floodfill::walk_input;
use crate::floodfill_pt::{
    elapsed_time, initial_state, is_final, lemma_min_index, min_index, queue_ok, relax, state_after, QueueItem, SearchInput,
    SearchState,
};
use crate::graph::{walk_graph_wf, EdgeWalk, NodeWalk};
use crate::walks::{is_walk, lemma_walk_result_reached, reachable_at, walk_cost};

verus! {

/// A walk through `g` that starts at `origin` and ends at `x`.
pub open spec fn walk_from_to(g: Seq<NodeWalk>, origin: usize, x: usize, nodes: Seq<usize>, idx: Seq<int>) -> bool {
    is_walk(g, nodes, idx) && nodes[0] == origin && nodes.last() == x
}

/// No walk from `origin` to a destination costs less than `c`.
pub open spec fn below_every_walk(g: Seq<NodeWalk>, node_values: Seq<bool>, origin: usize, c: int) -> bool {
    forall|x: usize, nodes: Seq<usize>, idx: Seq<int>|
        #[trigger] walk_from_to(g, origin, x, nodes, idx) && node_values[x as int] ==> c <= walk_cost(g, nodes, idx)
}

/// The cost at which each node was settled, up to step `k`.
spec fn settled_after(inp: SearchInput, k: nat) -> Seq<int>
    decreases k,
{
    if k == 0 {
        Seq::new(inp.graph.len(), |i: int| 0)
    } else {
        let s = state_after(inp, (k - 1) as nat);
        let d = settled_after(inp, (k - 1) as nat);
        if is_final(s) {
            d
        } else {
            let cur = s.queue[min_index(s.queue)];
            if !inp.node_values[cur.node as int] && !s.visited[cur.node as int] {
                d.update(cur.node as int, cur.cost as int)
            } else {
                d
            }
        }
    }
}

/// `y` is settled, or waits in the frontier at a cost of at most `c`.
spec fn covered(s: SearchState, y: usize, c: int) -> bool {
    s.visited[y as int] || exists|j: int| 0 <= j < s.queue.len() && s.queue[j].node == y && s.queue[j].cost <= c
}

spec fn frontier_inv(inp: SearchInput, s: SearchState, d: Seq<int>) -> bool {
    let g = inp.graph;
    let n = g.len();
    &&& s.visited.len() == n
    &&& d.len() == n
    &&& queue_ok(s.queue, n as int, inp.time_limit)
    &&& forall|u: int, j: int|
        #![trigger s.visited[u], s.queue[j]]
        0 <= u < n && s.visited[u] && 0 <= j < s.queue.len() ==> d[u] <= s.queue[j].cost
    &&& forall|u: int, t: int|
        0 <= u < n && s.visited[u] && 0 <= t < edge_items(g[u].edges).len() && d[u]
            + (#[trigger] edge_items(g[u].edges)[t]).cost < inp.time_limit ==> covered(
            s,
            edge_items(g[u].edges)[t].to,
            d[u] + edge_items(g[u].edges)[t].cost,
        )
    &&& forall|u: int| 0 <= u < n && #[trigger] s.visited[u] ==> !inp.node_values[u]
    &&& covered(s, inp.origin, 0)
    &&& forall|u: usize, nodes: Seq<usize>, idx: Seq<int>|
        #[trigger] walk_from_to(g, inp.origin, u, nodes, idx) && u < n && s.visited[u as int] ==> d[u as int]
            <= walk_cost(g, nodes, idx)
    &&& forall|u: int| 0 <= u < n && #[trigger] s.visited[u] ==> d[u] <= inp.time_limit
}

proof fn lemma_walk_prefix(g: Seq<NodeWalk>, nodes: Seq<usize>, idx: Seq<int>)
    requires
        is_walk(g, nodes, idx),
        idx.len() > 0,
    ensures
        is_walk(g, nodes.drop_last(), idx.drop_last()),
        nodes.drop_last()[0] == nodes[0],
        nodes.drop_last().last() == nodes[idx.len() - 1],
        walk_cost(g, nodes, idx) == walk_cost(g, nodes.drop_last(), idx.drop_last())
            + edge_items(g[nodes[idx.len() - 1] as int].edges)[idx.last()].cost,
        edge_items(g[nodes[idx.len() - 1] as int].edges)[idx.last()].to == nodes.last(),
        0 <= idx.last() < edge_items(g[nodes[idx.len() - 1] as int].edges).len(),
{
    let np = nodes.drop_last();
    let ip = idx.drop_last();
    assert forall|k: int| 0 <= k < np.len() implies #[trigger] np[k] < g.len() by {
        assert(np[k] == nodes[k]);
    }
    assert forall|k: int| 0 <= k < ip.len() implies {
        &&& 0 <= #[trigger] ip[k] < edge_items(g[np[k] as int].edges).len()
        &&& edge_items(g[np[k] as int].edges)[ip[k]].to == np[k + 1]
    } by {
        assert(ip[k] == idx[k]);
        assert(np[k] == nodes[k]);
        assert(np[k + 1] == nodes[k + 1]);
    }
    assert(idx.last() == idx[idx.len() - 1]);
    assert(nodes.last() == nodes[idx.len() as int]);
}

/// Any walk to a node not yet settled costs at least the budget, or at least
/// some frontier entry.
proof fn lemma_frontier(inp: SearchInput, s: SearchState, d: Seq<int>, x: usize, nodes: Seq<usize>, idx: Seq<int>)
    requires
        frontier_inv(inp, s, d),
        walk_from_to(inp.graph, inp.origin, x, nodes, idx),
        !s.visited[x as int],
    ensures
        walk_cost(inp.graph, nodes, idx) >= inp.time_limit || exists|j: int|
            0 <= j < s.queue.len() && s.queue[j].cost <= walk_cost(inp.graph, nodes, idx),
    decreases idx.len(),
{
    let g = inp.graph;
    if idx.len() == 0 {
        assert(nodes.last() == nodes[0]);
        assert(walk_cost(g, nodes, idx) == 0);
    } else {
        lemma_walk_prefix(g, nodes, idx);
        let np = nodes.drop_last();
        let ip = idx.drop_last();
        let u = nodes[idx.len() - 1];
        assert(u < g.len());
        assert(walk_from_to(g, inp.origin, u, np, ip));
        let t = idx.last();
        let e = edge_items(g[u as int].edges)[t];
        if !s.visited[u as int] {
            lemma_frontier(inp, s, d, u, np, ip);
        } else {
            assert(d[u as int] <= walk_cost(g, np, ip));
            if d[u as int] + e.cost < inp.time_limit {
                assert(covered(s, e.to, d[u as int] + e.cost));
            }
        }
    }
}

proof fn lemma_relax_facts(q: Seq<QueueItem>, es: Seq<EdgeWalk>, c: usize, lim: usize)
    ensures
        relax(q, es, c, lim).len() >= q.len(),
        forall|j: int| 0 <= j < q.len() ==> #[trigger] relax(q, es, c, lim)[j] == q[j],
        forall|j: int|
            q.len() <= j < relax(q, es, c, lim).len() ==> (#[trigger] relax(q, es, c, lim)[j]).cost >= c,
        forall|t: int|
            0 <= t < es.len() && c + (#[trigger] es[t]).cost < lim ==> exists|j: int|
                0 <= j < relax(q, es, c, lim).len() && relax(q, es, c, lim)[j].node == es[t].to && relax(
                    q,
                    es,
                    c,
                    lim,
                )[j].cost == c + es[t].cost,
    decreases es.len(),
{
    if es.len() > 0 {
        let ep = es.drop_last();
        lemma_relax_facts(q, ep, c, lim);
        let r0 = relax(q, ep, c, lim);
        let r = relax(q, es, c, lim);
        assert forall|t: int| 0 <= t < es.len() && c + (#[trigger] es[t]).cost < lim implies exists|j: int|
            0 <= j < r.len() && r[j].node == es[t].to && r[j].cost == c + es[t].cost by {
            if t < es.len() - 1 {
                assert(ep[t] == es[t]);
                let j = choose|j: int| 0 <= j < r0.len() && r0[j].node == ep[t].to && r0[j].cost == c + ep[t].cost;
                assert(r[j] == r0[j]);
            } else {
                assert(es.last() == es[t]);
                assert(r[r0.len() as int].node == es[t].to);
            }
        }
    }
}

/// The entry popped from a frontier that is not empty.
spec fn popped(s: SearchState) -> QueueItem {
    s.queue[min_index(s.queue)]
}

proof fn lemma_pop_facts(s: SearchState)
    requires
        s.queue.len() > 0,
    ensures
        0 <= min_index(s.queue) < s.queue.len(),
        forall|j: int| 0 <= j < s.queue.len() ==> popped(s).cost <= #[trigger] s.queue[j].cost,
        forall|j: int|
            0 <= j < s.queue.remove(min_index(s.queue)).len() ==> #[trigger] s.queue.remove(min_index(s.queue))[j]
                == s.queue[if j < min_index(s.queue) {
                j
            } else {
                j + 1
            }],
        forall|j: int|
            0 <= j < s.queue.len() && j != min_index(s.queue) ==> exists|j2: int|
                0 <= j2 < s.queue.remove(min_index(s.queue)).len() && #[trigger] s.queue[j] == s.queue.remove(
                    min_index(s.queue),
                )[j2],
{
    lemma_min_index(s.queue);
    let i = min_index(s.queue);
    let rest = s.queue.remove(i);
    assert forall|j: int| 0 <= j < s.queue.len() implies popped(s).cost <= #[trigger] s.queue[j].cost by {
        assert(!s.queue[j].before(s.queue[i]));
    }
    assert forall|j: int| 0 <= j < s.queue.len() && j != i implies exists|j2: int|
        0 <= j2 < rest.len() && #[trigger] s.queue[j] == rest[j2] by {
        if j < i {
            assert(rest[j] == s.queue[j]);
        } else {
            assert(rest[j - 1] == s.queue[j]);
        }
    }
}

/// A destination popped from the frontier is popped at a time no walk to a
/// destination beats.
proof fn lemma_pop_destination(inp: SearchInput, s: SearchState, d: Seq<int>)
    requires
        frontier_inv(inp, s, d),
        s.queue.len() > 0,
    ensures
        popped(s).cost <= inp.time_limit,
        below_every_walk(inp.graph, inp.node_values, inp.origin, popped(s).cost as int),
{
    let g = inp.graph;
    lemma_pop_facts(s);
    assert forall|x: usize, nodes: Seq<usize>, idx: Seq<int>|
        #[trigger] walk_from_to(g, inp.origin, x, nodes, idx) && inp.node_values[x as int] implies popped(s).cost
        <= walk_cost(g, nodes, idx) by {
        assert(nodes[nodes.len() - 1] < g.len());
        lemma_frontier(inp, s, d, x, nodes, idx);
    }
}

proof fn lemma_pop_settled(inp: SearchInput, s: SearchState, d: Seq<int>)
    requires
        frontier_inv(inp, s, d),
        s.queue.len() > 0,
        s.visited[popped(s).node as int],
    ensures
        frontier_inv(
            inp,
            SearchState { queue: s.queue.remove(min_index(s.queue)), visited: s.visited, found: None },
            d,
        ),
{
    let g = inp.graph;
    let n = g.len();
    lemma_pop_facts(s);
    let i = min_index(s.queue);
    let rest = s.queue.remove(i);
    let s2 = SearchState { queue: rest, visited: s.visited, found: None };
    assert forall|y: usize, c: int| covered(s, y, c) implies covered(s2, y, c) by {
        if !s.visited[y as int] {
            let j = choose|j: int| 0 <= j < s.queue.len() && s.queue[j].node == y && s.queue[j].cost <= c;
            if j != i {
                let j2 = choose|j2: int| 0 <= j2 < rest.len() && s.queue[j] == rest[j2];
                assert(s2.queue[j2].node == y);
            }
        }
    }
    assert forall|u: int, t: int|
        0 <= u < n && s2.visited[u] && 0 <= t < edge_items(g[u].edges).len() && d[u]
            + (#[trigger] edge_items(g[u].edges)[t]).cost < inp.time_limit implies covered(
        s2,
        edge_items(g[u].edges)[t].to,
        d[u] + edge_items(g[u].edges)[t].cost,
    ) by {
        assert(covered(s, edge_items(g[u].edges)[t].to, d[u] + edge_items(g[u].edges)[t].cost));
    }
    assert(covered(s, inp.origin, 0));
    assert forall|j: int| 0 <= j < rest.len() implies (#[trigger] rest[j]).node < n && rest[j].cost
        <= inp.time_limit by {
        assert(rest[j] == s.queue[if j < i { j } else { j + 1 }]);
    }
}

/// The state after settling the popped node and relaxing its edges.
#[verifier::opaque]
spec fn after_new(inp: SearchInput, s: SearchState) -> SearchState {
    SearchState {
        queue: relax(
            s.queue.remove(min_index(s.queue)),
            edge_items(inp.graph[popped(s).node as int].edges),
            popped(s).cost,
            inp.time_limit,
        ),
        visited: s.visited.update(popped(s).node as int, true),
        found: None,
    }
}

#[verifier::opaque]
spec fn settled_new(s: SearchState, d: Seq<int>) -> Seq<int> {
    d.update(popped(s).node as int, popped(s).cost as int)
}

spec fn pop_new_pre(inp: SearchInput, s: SearchState, d: Seq<int>) -> bool {
    &&& walk_graph_wf(inp.graph)
    &&& inp.origin < inp.graph.len()
    &&& frontier_inv(inp, s, d)
    &&& s.queue.len() > 0
    &&& !s.visited[popped(s).node as int]
    &&& !inp.node_values[popped(s).node as int]
}

proof fn lemma_new_queue(inp: SearchInput, s: SearchState, d: Seq<int>)
    requires
        pop_new_pre(inp, s, d),
    ensures
        queue_ok(after_new(inp, s).queue, inp.graph.len() as int, inp.time_limit),
        after_new(inp, s).queue.len() >= s.queue.len() - 1,
        forall|j: int|
            0 <= j < s.queue.len() - 1 ==> #[trigger] after_new(inp, s).queue[j] == s.queue.remove(
                min_index(s.queue),
            )[j],
        forall|j: int|
            0 <= j < after_new(inp, s).queue.len() ==> popped(s).cost <= #[trigger] after_new(inp, s).queue[j].cost,
        after_new(inp, s).visited.len() == s.visited.len(),
        settled_new(s, d).len() == d.len(),
        after_new(inp, s).visited[popped(s).node as int],
        forall|y: int| 0 <= y < s.visited.len() && #[trigger] s.visited[y] ==> after_new(inp, s).visited[y],
        after_new(inp, s).found is None,
{
    reveal(after_new);
    reveal(settled_new);
    let g = inp.graph;
    let n = g.len();
    lemma_pop_facts(s);
    let i = min_index(s.queue);
    let cur = popped(s);
    let v = cur.node;
    let rest = s.queue.remove(i);
    let es = edge_items(g[v as int].edges);
    let s2 = after_new(inp, s);
    let q2 = s2.queue;
    assert(v < n && cur.cost <= inp.time_limit);
    lemma_relax_facts(rest, es, cur.cost, inp.time_limit);
    assert forall|j: int| 0 <= j < rest.len() implies (#[trigger] rest[j]).node < n && rest[j].cost
        <= inp.time_limit by {
        assert(rest[j] == s.queue[if j < i { j } else { j + 1 }]);
    }
    assert forall|j: int| 0 <= j < es.len() implies (#[trigger] es[j]).to < n by {}
    crate::floodfill_pt::lemma_relax_ok(rest, es, cur.cost, inp.time_limit, n as int);
    assert forall|j: int| 0 <= j < q2.len() implies popped(s).cost <= #[trigger] q2[j].cost by {
        if j < rest.len() {
            assert(q2[j] == rest[j]);
            assert(rest[j] == s.queue[if j < i { j } else { j + 1 }]);
        }
    }
}

proof fn lemma_covered_transfer(s: SearchState, s2: SearchState, i: int)
    requires
        0 <= i < s.queue.len(),
        s2.queue.len() >= s.queue.len() - 1,
        forall|j: int| 0 <= j < s.queue.len() - 1 ==> #[trigger] s2.queue[j] == s.queue.remove(i)[j],
        s2.visited.len() == s.visited.len(),
        s.queue[i].node < s.visited.len(),
        s2.visited[s.queue[i].node as int],
        forall|y: int| 0 <= y < s.visited.len() && #[trigger] s.visited[y] ==> s2.visited[y],
    ensures
        forall|y: usize, c: int| y < s.visited.len() && covered(s, y, c) ==> #[trigger] covered(s2, y, c),
{
    let rest = s.queue.remove(i);
    assert forall|y: usize, c: int| y < s.visited.len() && covered(s, y, c) implies #[trigger] covered(s2, y, c) by {
        if !s.visited[y as int] {
            let j = choose|j: int| 0 <= j < s.queue.len() && s.queue[j].node == y && s.queue[j].cost <= c;
            if j < i {
                assert(s2.queue[j] == rest[j]);
                assert(s2.queue[j].node == y);
            } else if j > i {
                assert(s2.queue[j - 1] == rest[j - 1]);
                assert(s2.queue[j - 1].node == y);
            }
        }
    }
}

proof fn lemma_new_edges(inp: SearchInput, s: SearchState, d: Seq<int>)
    requires
        pop_new_pre(inp, s, d),
        forall|y: usize, c: int|
            y < s.visited.len() && covered(s, y, c) ==> #[trigger] covered(after_new(inp, s), y, c),
    ensures
        forall|u: int, t: int|
            0 <= u < inp.graph.len() && after_new(inp, s).visited[u] && 0 <= t < edge_items(
                inp.graph[u].edges,
            ).len() && settled_new(s, d)[u] + (#[trigger] edge_items(inp.graph[u].edges)[t]).cost
                < inp.time_limit ==> covered(
                after_new(inp, s),
                edge_items(inp.graph[u].edges)[t].to,
                settled_new(s, d)[u] + edge_items(inp.graph[u].edges)[t].cost,
            ),
{
    reveal(after_new);
    reveal(settled_new);
    let g = inp.graph;
    let n = g.len();
    lemma_pop_facts(s);
    let i = min_index(s.queue);
    let cur = popped(s);
    let v = cur.node;
    let rest = s.queue.remove(i);
    let es = edge_items(g[v as int].edges);
    let s2 = after_new(inp, s);
    let q2 = s2.queue;
    let d2 = settled_new(s, d);
    lemma_relax_facts(rest, es, cur.cost, inp.time_limit);
    assert forall|u: int, t: int|
        0 <= u < n && s2.visited[u] && 0 <= t < edge_items(g[u].edges).len() && d2[u]
            + (#[trigger] edge_items(g[u].edges)[t]).cost < inp.time_limit implies covered(
        s2,
        edge_items(g[u].edges)[t].to,
        d2[u] + edge_items(g[u].edges)[t].cost,
    ) by {
        if u == v {
            assert(es[t] == edge_items(g[u].edges)[t]);
            let y = es[t].to;
            if !s2.visited[y as int] {
                let j = choose|j: int|
                    0 <= j < q2.len() && q2[j].node == es[t].to && q2[j].cost == cur.cost + es[t].cost;
                assert(s2.queue[j].node == y);
            }
        } else {
            assert(covered(s, edge_items(g[u].edges)[t].to, d[u] + edge_items(g[u].edges)[t].cost));
            assert(edge_items(g[u].edges)[t].to < n);
        }
    }
}

proof fn lemma_new_settled(inp: SearchInput, s: SearchState, d: Seq<int>)
    requires
        pop_new_pre(inp, s, d),
        forall|j: int|
            0 <= j < after_new(inp, s).queue.len() ==> popped(s).cost <= #[trigger] after_new(inp, s).queue[j].cost,
    ensures
        forall|u: int, j: int|
            #![trigger after_new(inp, s).visited[u], after_new(inp, s).queue[j]]
            0 <= u < inp.graph.len() && after_new(inp, s).visited[u] && 0 <= j < after_new(inp, s).queue.len()
                ==> settled_new(s, d)[u] <= after_new(inp, s).queue[j].cost,
        forall|u: usize, nodes: Seq<usize>, idx: Seq<int>|
            #[trigger] walk_from_to(inp.graph, inp.origin, u, nodes, idx) && u < inp.graph.len() && after_new(
                inp,
                s,
            ).visited[u as int] ==> settled_new(s, d)[u as int] <= walk_cost(inp.graph, nodes, idx),
        forall|u: int|
            0 <= u < inp.graph.len() && #[trigger] after_new(inp, s).visited[u] ==> settled_new(s, d)[u]
                <= inp.time_limit,
        forall|u: int|
            0 <= u < inp.graph.len() && #[trigger] after_new(inp, s).visited[u] ==> !inp.node_values[u],
{
    reveal(after_new);
    reveal(settled_new);
    let g = inp.graph;
    let n = g.len();
    lemma_pop_facts(s);
    let i = min_index(s.queue);
    let cur = popped(s);
    let v = cur.node;
    let s2 = after_new(inp, s);
    let d2 = settled_new(s, d);
    assert(v < n && cur.cost <= inp.time_limit);
    assert forall|u: int, j: int|
        #![trigger s2.visited[u], s2.queue[j]]
        0 <= u < n && s2.visited[u] && 0 <= j < s2.queue.len() implies d2[u] <= s2.queue[j].cost by {
        if u != v {
            assert(s.visited[u]);
            assert(d[u] <= s.queue[i].cost);
        }
    }
    assert forall|u: usize, nodes: Seq<usize>, idx: Seq<int>|
        #[trigger] walk_from_to(g, inp.origin, u, nodes, idx) && u < n && s2.visited[u as int] implies d2[u as int]
        <= walk_cost(g, nodes, idx) by {
        if u == v {
            lemma_frontier(inp, s, d, u, nodes, idx);
        } else {
            assert(s.visited[u as int]);
        }
    }
}

proof fn lemma_pop_new(inp: SearchInput, s: SearchState, d: Seq<int>)
    requires
        pop_new_pre(inp, s, d),
    ensures
        frontier_inv(inp, after_new(inp, s), settled_new(s, d)),
{
    let s2 = after_new(inp, s);
    let d2 = settled_new(s, d);
    let n = inp.graph.len();
    lemma_pop_facts(s);
    assert(popped(s).node < n);
    lemma_new_queue(inp, s, d);
    lemma_covered_transfer(s, s2, min_index(s.queue));
    lemma_new_edges(inp, s, d);
    lemma_new_settled(inp, s, d);
    assert(covered(s, inp.origin, 0));
    assert(covered(s2, inp.origin, 0));
}

proof fn lemma_search_inv(inp: SearchInput, k: nat)
    requires
        walk_graph_wf(inp.graph),
        !inp.boarding,
        inp.origin < inp.graph.len(),
        inp.node_values.len() == inp.graph.len(),
    ensures
        state_after(inp, k).found is None ==> frontier_inv(inp, state_after(inp, k), settled_after(inp, k)),
        state_after(inp, k).found matches Some(c) ==> c <= inp.time_limit && below_every_walk(
            inp.graph,
            inp.node_values,
            inp.origin,
            c as int,
        ),
    decreases k,
{
    let n = inp.graph.len();
    if k == 0 {
        let s = initial_state(inp);
        assert(s.queue[0].node == inp.origin && s.queue[0].cost == 0);
        assert(forall|u: int| 0 <= u < n ==> !#[trigger] s.visited[u]);
        assert(covered(s, inp.origin, 0));
    } else {
        let k0 = (k - 1) as nat;
        lemma_search_inv(inp, k0);
        let s = state_after(inp, k0);
        let d = settled_after(inp, k0);
        if !is_final(s) {
            lemma_pop_facts(s);
            let cur = popped(s);
            assert(cur.node < n);
            if inp.node_values[cur.node as int] {
                lemma_pop_destination(inp, s, d);
            } else if s.visited[cur.node as int] {
                lemma_pop_settled(inp, s, d);
            } else {
                reveal(after_new);
                reveal(settled_new);
                assert(state_after(inp, k) == after_new(inp, s));
                assert(settled_after(inp, k) == settled_new(s, d));
                lemma_pop_new(inp, s, d);
            }
        }
    }
}

spec fn count_true(v: Seq<bool>) -> nat
    decreases v.len(),
{
    if v.len() == 0 {
        0
    } else {
        count_true(v.drop_last()) + if v.last() {
            1nat
        } else {
            0nat
        }
    }
}

proof fn lemma_count_true_le(v: Seq<bool>)
    ensures
        count_true(v) <= v.len(),
    decreases v.len(),
{
    if v.len() > 0 {
        lemma_count_true_le(v.drop_last());
    }
}

proof fn lemma_count_true_update(v: Seq<bool>, i: int)
    requires
        0 <= i < v.len(),
        !v[i],
    ensures
        count_true(v.update(i, true)) == count_true(v) + 1,
    decreases v.len(),
{
    let w = v.update(i, true);
    if i == v.len() - 1 {
        assert(w.drop_last() =~= v.drop_last());
    } else {
        assert(w.drop_last() =~= v.drop_last().update(i, true));
        lemma_count_true_update(v.drop_last(), i);
    }
}

proof fn lemma_reaches_final(inp: SearchInput, k: nat)
    requires
        walk_graph_wf(inp.graph),
        !inp.boarding,
        inp.origin < inp.graph.len(),
        inp.node_values.len() == inp.graph.len(),
    ensures
        exists|k2: nat| is_final(#[trigger] state_after(inp, k2)),
    decreases inp.graph.len() - count_true(state_after(inp, k).visited), state_after(inp, k).queue.len(),
{
    let s = state_after(inp, k);
    lemma_search_inv(inp, k);
    if is_final(s) {
        assert(is_final(state_after(inp, k)));
    } else {
        lemma_pop_facts(s);
        let cur = popped(s);
        let s2 = state_after(inp, k + 1);
        lemma_count_true_le(s.visited);
        if inp.node_values[cur.node as int] {
            assert(is_final(state_after(inp, k + 1)));
        } else if s.visited[cur.node as int] {
            assert(s2.visited == s.visited);
            lemma_reaches_final(inp, k + 1);
        } else {
            lemma_count_true_update(s.visited, cur.node as int);
            lemma_count_true_le(s2.visited);
            lemma_reaches_final(inp, k + 1);
        }
    }
}

/// On foot, the search time never exceeds the budget, and no walk from the
/// origin to a destination is shorter than it.
pub proof fn lemma_walk_result_optimal(g: Seq<NodeWalk>, node_values: Seq<bool>, origin: usize, time_limit: usize)
    requires
        walk_graph_wf(g),
        node_values.len() == g.len(),
        origin < g.len(),
    ensures
        elapsed_time(walk_input(g, node_values, origin, time_limit)) <= time_limit,
        below_every_walk(g, node_values, origin, elapsed_time(walk_input(g, node_values, origin, time_limit))),
{
    let inp = walk_input(g, node_values, origin, time_limit);
    lemma_reaches_final(inp, 0);
    let k = choose|k: nat| is_final(#[trigger] state_after(inp, k));
    lemma_search_inv(inp, k);
    let s = state_after(inp, k);
    if s.found is None {
        let d = settled_after(inp, k);
        assert forall|x: usize, nodes: Seq<usize>, idx: Seq<int>|
            #[trigger] walk_from_to(g, origin, x, nodes, idx) && node_values[x as int] implies time_limit
            <= walk_cost(g, nodes, idx) by {
            assert(nodes[nodes.len() - 1] < g.len());
            lemma_frontier(inp, s, d, x, nodes, idx);
        }
    }
}

proof fn lemma_walk_kept(g: Seq<NodeWalk>, g2: Seq<NodeWalk>, a: usize, e: EdgeWalk, nodes: Seq<usize>, idx: Seq<int>)
    requires
        a < g.len(),
        edges_of(g2) == edges_of(g).update(a as int, edges_of(g)[a as int].push(e)),
        is_walk(g, nodes, idx),
    ensures
        is_walk(g2, nodes, idx),
        walk_cost(g2, nodes, idx) == walk_cost(g, nodes, idx),
    decreases idx.len(),
{
    assert(g2.len() == edges_of(g2).len());
    assert forall|v: int, j: int| 0 <= v < g.len() && 0 <= j < edge_items(g[v].edges).len() implies
        #[trigger] edge_items(g2[v].edges)[j] == edge_items(g[v].edges)[j] && j < edge_items(g2[v].edges).len() by {
        assert(edges_of(g2)[v] == edge_items(g2[v].edges));
        assert(edges_of(g)[v] == edge_items(g[v].edges));
    }
    assert forall|k: int| 0 <= k < idx.len() implies {
        &&& 0 <= #[trigger] idx[k] < edge_items(g2[nodes[k] as int].edges).len()
        &&& edge_items(g2[nodes[k] as int].edges)[idx[k]].to == nodes[k + 1]
    } by {
        assert(nodes[k] < g.len());
        assert(edge_items(g2[nodes[k] as int].edges)[idx[k]] == edge_items(g[nodes[k] as int].edges)[idx[k]]);
    }
    if idx.len() > 0 {
        lemma_walk_prefix(g, nodes, idx);
        lemma_walk_kept(g, g2, a, e, nodes.drop_last(), idx.drop_last());
        let u = nodes[idx.len() - 1];
        assert(u < g.len());
        assert(edge_items(g2[u as int].edges)[idx.last()] == edge_items(g[u as int].edges)[idx.last()]);
    }
}

/// On foot, adding one edge to the graph never makes an origin's weighted
/// accessibility cost larger.
pub proof fn lemma_added_edge_never_slower(
    g: Seq<NodeWalk>,
    g2: Seq<NodeWalk>,
    a: usize,
    e: EdgeWalk,
    node_values: Seq<bool>,
    origin: usize,
    weight: usize,
    time_limit: usize,
)
    requires
        walk_graph_wf(g),
        a < g.len(),
        e.to < g.len(),
        edges_of(g2) == edges_of(g).update(a as int, edges_of(g)[a as int].push(e)),
        node_values.len() == g.len(),
        origin < g.len(),
    ensures
        elapsed_time(walk_input(g2, node_values, origin, time_limit)) <= elapsed_time(
            walk_input(g, node_values, origin, time_limit),
        ),
        elapsed_time(walk_input(g2, node_values, origin, time_limit)) * weight <= elapsed_time(
            walk_input(g, node_values, origin, time_limit),
        ) * weight,
{
    let n = g.len();
    assert(g2.len() == edges_of(g2).len());
    assert forall|i: int, j: int|
        0 <= i < g2.len() && 0 <= j < edge_items(g2[i].edges).len() implies (#[trigger] edge_items(
        g2[i].edges,
    )[j]).to < g2.len() by {
        assert(edges_of(g2)[i] == edge_items(g2[i].edges));
        assert(edges_of(g)[i] == edge_items(g[i].edges));
        if i != a || j < edge_items(g[i].edges).len() {
            assert(edge_items(g2[i].edges)[j] == edge_items(g[i].edges)[j]);
        }
    }
    lemma_walk_result_optimal(g2, node_values, origin, time_limit);
    lemma_walk_result_reached(g, node_values, origin, time_limit);
    let t = elapsed_time(walk_input(g, node_values, origin, time_limit));
    let t2 = elapsed_time(walk_input(g2, node_values, origin, time_limit));
    if t != time_limit {
        let v = choose|v: usize| v < g.len() && #[trigger] node_values[v as int] && reachable_at(g, origin, v, t);
        let (nodes, idx) = choose|nodes: Seq<usize>, idx: Seq<int>|
            is_walk(g, nodes, idx) && nodes[0] == origin && nodes.last() == v && walk_cost(g, nodes, idx) == t;
        lemma_walk_kept(g, g2, a, e, nodes, idx);
        assert(walk_from_to(g2, origin, v, nodes, idx));
    }
    lemma_mul_inequality(t2, t, weight as int);
}

} // verus!
