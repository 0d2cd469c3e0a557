use vstd::prelude::*;

use std::collections::HashMap;

use crate::edge_list::{edge_items, EDGE_LIST_LIMIT};
use crate::graph::{EdgeWalk, NodeWalk};

verus! {

/// Seconds added to the looked-up travel time of each new stop edge.
pub const STOP_OVERHEAD: usize = 10;

/// The adjacency lists of a walk graph.
pub open spec fn edges_of(g: Seq<NodeWalk>) -> Seq<Seq<EdgeWalk>> {
    Seq::new(g.len(), |v: int| edge_items(g[v].edges))
}

/// The travel time from `a` to `b` is known, and adding the overhead fits.
pub open spec fn lookup_ok(tt: Map<usize, HashMap<usize, usize>>, a: usize, b: usize) -> bool {
    &&& tt.contains_key(a)
    &&& tt[a]@.contains_key(b)
    &&& tt[a]@[b] + STOP_OVERHEAD <= usize::MAX
}

/// Every snapped node lies in a graph of `n` nodes, and every pair of
/// consecutive distinct nodes has a known travel time.
pub open spec fn candidates_ok(ids: Seq<usize>, n: int, tt: Map<usize, HashMap<usize, usize>>) -> bool {
    &&& forall|i: int| 0 <= i < ids.len() ==> #[trigger] ids[i] < n
    &&& forall|i: int| 1 <= i < ids.len() && ids[i - 1] != #[trigger] ids[i] ==> lookup_ok(tt, ids[i - 1], ids[i])
}

/// The nodes that receive an edge: the first of each consecutive pair of
/// distinct snapped nodes, in order.
pub open spec fn changed_nodes(ids: Seq<usize>) -> Seq<usize>
    decreases ids.len(),
{
    if ids.len() <= 1 {
        seq![]
    } else {
        let rest = changed_nodes(ids.drop_last());
        let a = ids[ids.len() - 2];
        if a != ids.last() {
            rest.push(a)
        } else {
            rest
        }
    }
}

/// The edge that links two consecutive snapped nodes.
pub open spec fn stop_edge(tt: Map<usize, HashMap<usize, usize>>, a: usize, b: usize) -> EdgeWalk {
    EdgeWalk { to: b, cost: (tt[a]@[b] + STOP_OVERHEAD) as usize, has_pt: true }
}

/// `g` with one boardable edge appended for each consecutive pair of distinct
/// snapped nodes.
pub open spec fn with_stop_edges(
    g: Seq<Seq<EdgeWalk>>,
    ids: Seq<usize>,
    tt: Map<usize, HashMap<usize, usize>>,
) -> Seq<Seq<EdgeWalk>>
    decreases ids.len(),
{
    if ids.len() <= 1 {
        g
    } else {
        let h = with_stop_edges(g, ids.drop_last(), tt);
        let a = ids[ids.len() - 2];
        let b = ids.last();
        if a != b {
            h.update(a as int, h[a as int].push(stop_edge(tt, a, b)))
        } else {
            h
        }
    }
}

/// `g` with the last edge of each listed node removed, in list order (a node
/// with no edge left stays as it is).
pub open spec fn without_last_edges(g: Seq<Seq<EdgeWalk>>, touched: Seq<usize>) -> Seq<Seq<EdgeWalk>>
    decreases touched.len(),
{
    if touched.len() == 0 {
        g
    } else {
        let h = without_last_edges(g, touched.drop_last());
        let a = touched.last() as int;
        if h[a].len() > 0 {
            h.update(a, h[a].drop_last())
        } else {
            h
        }
    }
}

pub open spec fn count_of(t: Seq<usize>, v: int) -> nat
    decreases t.len(),
{
    if t.len() == 0 {
        0
    } else {
        count_of(t.drop_last(), v) + if t.last() == v {
            1nat
        } else {
            0nat
        }
    }
}

proof fn lemma_count_of_len(t: Seq<usize>, v: int)
    ensures
        count_of(t, v) <= t.len(),
    decreases t.len(),
{
    if t.len() > 0 {
        lemma_count_of_len(t.drop_last(), v);
    }
}

proof fn lemma_changed_nodes_len(ids: Seq<usize>)
    ensures
        changed_nodes(ids).len() <= ids.len(),
    decreases ids.len(),
{
    if ids.len() > 1 {
        lemma_changed_nodes_len(ids.drop_last());
    }
}

proof fn lemma_with_stop_edges(g: Seq<Seq<EdgeWalk>>, ids: Seq<usize>, tt: Map<usize, HashMap<usize, usize>>)
    requires
        forall|i: int| 0 <= i < ids.len() ==> #[trigger] ids[i] < g.len(),
    ensures
        with_stop_edges(g, ids, tt).len() == g.len(),
        forall|k: int| 0 <= k < changed_nodes(ids).len() ==> #[trigger] changed_nodes(ids)[k] < g.len(),
        forall|v: int|
            0 <= v < g.len() ==> {
                let h = #[trigger] with_stop_edges(g, ids, tt)[v];
                &&& h.len() == g[v].len() + count_of(changed_nodes(ids), v)
                &&& h.subrange(0, g[v].len() as int) == g[v]
            },
    decreases ids.len(),
{
    if ids.len() > 1 {
        let p = ids.drop_last();
        assert forall|i: int| 0 <= i < p.len() implies #[trigger] p[i] < g.len() by {
            assert(p[i] == ids[i]);
        }
        lemma_with_stop_edges(g, p, tt);
        let h = with_stop_edges(g, p, tt);
        let a = ids[ids.len() - 2];
        assert(a == ids[ids.len() - 2]);
        let c = changed_nodes(ids);
        let cp = changed_nodes(p);
        assert forall|v: int| 0 <= v < g.len() implies {
            let h2 = #[trigger] with_stop_edges(g, ids, tt)[v];
            &&& h2.len() == g[v].len() + count_of(c, v)
            &&& h2.subrange(0, g[v].len() as int) == g[v]
        } by {
            let h2 = with_stop_edges(g, ids, tt)[v];
            if a != ids.last() {
                assert(c.drop_last() =~= cp);
                if v == a {
                    assert(h2.subrange(0, g[v].len() as int) =~= h[v].subrange(0, g[v].len() as int));
                }
            } else {
                assert(c =~= cp);
            }
        }
        assert forall|k: int| 0 <= k < c.len() implies #[trigger] c[k] < g.len() by {
            if k < cp.len() {
                assert(c[k] == cp[k]);
            }
        }
    }
}

proof fn lemma_without_last_edges(h: Seq<Seq<EdgeWalk>>, t: Seq<usize>)
    requires
        forall|k: int| 0 <= k < t.len() ==> #[trigger] t[k] < h.len(),
        forall|v: int| 0 <= v < h.len() ==> count_of(t, v) <= (#[trigger] h[v]).len(),
    ensures
        without_last_edges(h, t).len() == h.len(),
        forall|v: int|
            0 <= v < h.len() ==> #[trigger] without_last_edges(h, t)[v] == h[v].subrange(
                0,
                h[v].len() - count_of(t, v),
            ),
    decreases t.len(),
{
    if t.len() > 0 {
        let p = t.drop_last();
        assert forall|k: int| 0 <= k < p.len() implies #[trigger] p[k] < h.len() by {
            assert(p[k] == t[k]);
        }
        assert forall|v: int| 0 <= v < h.len() implies count_of(p, v) <= (#[trigger] h[v]).len() by {
            assert(count_of(p, v) <= count_of(t, v));
        }
        lemma_without_last_edges(h, p);
        let a = t.last() as int;
        assert(t.last() == t[t.len() - 1]);
        let r = without_last_edges(h, p);
        assert(r[a].len() == h[a].len() - count_of(p, a));
        assert forall|v: int| 0 <= v < h.len() implies #[trigger] without_last_edges(h, t)[v] == h[v].subrange(
            0,
            h[v].len() - count_of(t, v),
        ) by {
            if v == a {
                assert(r[a].drop_last() =~= h[v].subrange(0, h[v].len() - count_of(t, v)));
            }
        }
    }
}

/// Adding the stop edges and then removing the last edge of each changed
/// node restores every adjacency list, edges and order alike.
pub proof fn lemma_add_then_reset(g: Seq<Seq<EdgeWalk>>, ids: Seq<usize>, tt: Map<usize, HashMap<usize, usize>>)
    requires
        forall|i: int| 0 <= i < ids.len() ==> #[trigger] ids[i] < g.len(),
    ensures
        without_last_edges(with_stop_edges(g, ids, tt), changed_nodes(ids)) == g,
{
    lemma_with_stop_edges(g, ids, tt);
    let h = with_stop_edges(g, ids, tt);
    let t = changed_nodes(ids);
    assert forall|v: int| 0 <= v < h.len() implies count_of(t, v) <= (#[trigger] h[v]).len() by {
        assert(h[v] == with_stop_edges(g, ids, tt)[v]);
    }
    lemma_without_last_edges(h, t);
    let r = without_last_edges(h, t);
    assert forall|v: int| 0 <= v < g.len() implies #[trigger] r[v] == g[v] by {
        assert(h[v] == with_stop_edges(g, ids, tt)[v]);
    }
    assert(r =~= g);
}

/// Appends, for each pair of consecutive distinct snapped nodes `a`, `b`, a
/// boardable edge `a -> b` costing the travel time plus the overhead, and
/// returns the nodes that received an edge, in order.
pub fn add_to_graph_walk(
    graph_walk: &mut Vec<NodeWalk>,
    node_ids: &Vec<usize>,
    travel_times: &HashMap<usize, HashMap<usize, usize>>,
) -> (nodes_changed: Vec<usize>)
    requires
        candidates_ok(node_ids@, old(graph_walk).len() as int, travel_times@),
        forall|v: int|
            0 <= v < old(graph_walk).len() ==> #[trigger] edges_of(old(graph_walk)@)[v].len() + node_ids.len()
                <= EDGE_LIST_LIMIT,
    ensures
        final(graph_walk).len() == old(graph_walk).len(),
        edges_of(final(graph_walk)@) == with_stop_edges(edges_of(old(graph_walk)@), node_ids@, travel_times@),
        nodes_changed@ == changed_nodes(node_ids@),
{
    let mut nodes_changed: Vec<usize> = Vec::new();
    if node_ids.len() == 0 {
        assert(edges_of(graph_walk@) =~= edges_of(old(graph_walk)@));
        return nodes_changed;
    }
    let ghost ids = node_ids@;
    let ghost g0 = edges_of(old(graph_walk)@);
    let mut i: usize = 1;
    assert(edges_of(graph_walk@) =~= g0);
    while i < node_ids.len()
        invariant
            ids == node_ids@,
            g0 == edges_of(old(graph_walk)@),
            1 <= i <= ids.len(),
            candidates_ok(ids, old(graph_walk).len() as int, travel_times@),
            forall|v: int|
                0 <= v < old(graph_walk).len() ==> #[trigger] g0[v].len() + ids.len() <= EDGE_LIST_LIMIT,
            graph_walk.len() == old(graph_walk).len(),
            edges_of(graph_walk@) == with_stop_edges(g0, ids.subrange(0, i as int), travel_times@),
            nodes_changed@ == changed_nodes(ids.subrange(0, i as int)),
        decreases ids.len() - i,
    {
        let ghost before = ids.subrange(0, i as int);
        let ghost after = ids.subrange(0, i + 1);
        assert(after.drop_last() =~= before);
        let a = node_ids[i - 1];
        let b = node_ids[i];
        assert(after[after.len() - 2] == a);
        if a != b {
            assert(lookup_ok(travel_times@, a, b));
            let row = travel_times.get(&a).unwrap();
            let travel = *row.get(&b).unwrap();
            let edge = EdgeWalk { to: b, cost: travel + STOP_OVERHEAD, has_pt: true };
            let ghost prev = edges_of(graph_walk@);
            proof {
                assert forall|j: int| 0 <= j < before.len() implies #[trigger] before[j] < g0.len() by {
                    assert(before[j] == ids[j]);
                }
                lemma_with_stop_edges(g0, before, travel_times@);
                lemma_count_of_len(changed_nodes(before), a as int);
                lemma_changed_nodes_len(before);
                assert(prev[a as int] == with_stop_edges(g0, before, travel_times@)[a as int]);
                assert(g0[a as int].len() + ids.len() <= EDGE_LIST_LIMIT);
            }
            graph_walk[a].edges.push(edge);
            assert(edges_of(graph_walk@) =~= prev.update(a as int, prev[a as int].push(edge)));
            nodes_changed.push(a);
        }
        i += 1;
    }
    assert(ids.subrange(0, i as int) =~= ids);
    nodes_changed
}

/// Removes the last edge of each listed node, in list order: the inverse of
/// `add_to_graph_walk` when given the nodes it returned.
pub fn reset_graph_walk(graph_walk: &mut Vec<NodeWalk>, nodes_changes: Vec<usize>)
    requires
        forall|k: int| 0 <= k < nodes_changes.len() ==> #[trigger] nodes_changes@[k] < old(graph_walk).len(),
    ensures
        final(graph_walk).len() == old(graph_walk).len(),
        edges_of(final(graph_walk)@) == without_last_edges(edges_of(old(graph_walk)@), nodes_changes@),
{
    let ghost g0 = edges_of(old(graph_walk)@);
    let mut k: usize = 0;
    assert(edges_of(graph_walk@) =~= g0);
    while k < nodes_changes.len()
        invariant
            g0 == edges_of(old(graph_walk)@),
            k <= nodes_changes.len(),
            forall|j: int| 0 <= j < nodes_changes.len() ==> #[trigger] nodes_changes@[j] < old(graph_walk).len(),
            graph_walk.len() == old(graph_walk).len(),
            edges_of(graph_walk@) == without_last_edges(g0, nodes_changes@.subrange(0, k as int)),
        decreases nodes_changes.len() - k,
    {
        let node = nodes_changes[k];
        assert(nodes_changes@.subrange(0, k + 1).drop_last() =~= nodes_changes@.subrange(0, k as int));
        let ghost prev = edges_of(graph_walk@);
        graph_walk[node].edges.pop();
        proof {
            if prev[node as int].len() > 0 {
                assert(edges_of(graph_walk@) =~= prev.update(node as int, prev[node as int].drop_last()));
            } else {
                assert(edges_of(graph_walk@) =~= prev);
            }
        }
        k += 1;
    }
    assert(nodes_changes@.subrange(0, k as int) =~= nodes_changes@);
}

} // verus!
