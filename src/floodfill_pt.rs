use vstd::prelude::*;

use vstd::arithmetic::mul::lemma_mul_inequality;
use vstd::set_lib::{lemma_int_range, lemma_len_subset, set_int_range};

use crate::edge_list::{edge_items, EdgeList};
use crate::graph::{routes_wf, walk_graph_wf, EdgeWalk, NodeRoute, NodeWalk, TimetableEntry};

verus! {

/// An entry of the search frontier: a node reached at an accumulated cost,
/// and whether the traveller arrived there able to board a service.
#[derive(Clone, Copy, Debug)]
pub struct PriorityQueueItem<C, N, P> {
    pub cost: C,
    pub node: N,
    pub has_pt: P,
}

pub type QueueItem = PriorityQueueItem<usize, usize, bool>;

impl PriorityQueueItem<usize, usize, bool> {
    /// Frontier order: lower accumulated cost first; equal costs by lower node id.
    pub open spec fn before(self, other: Self) -> bool {
        self.cost < other.cost || (self.cost == other.cost && self.node < other.node)
    }

    pub fn goes_before(&self, other: &Self) -> (r: bool)
        ensures
            r == self.before(*other),
    {
        self.cost < other.cost || (self.cost == other.cost && self.node < other.node)
    }
}

/// Position of the entry popped next: the first entry that no other entry goes before.
pub open spec fn min_index(q: Seq<QueueItem>) -> int
    decreases q.len(),
{
    if q.len() <= 1 {
        0
    } else {
        let m = min_index(q.drop_last());
        if q.last().before(q[m]) {
            q.len() - 1
        } else {
            m
        }
    }
}

pub proof fn lemma_min_index(q: Seq<QueueItem>)
    requires
        q.len() > 0,
    ensures
        0 <= min_index(q) < q.len(),
        forall|j: int| 0 <= j < q.len() ==> !(#[trigger] q[j]).before(q[min_index(q)]),
    decreases q.len(),
{
    if q.len() > 1 {
        let p = q.drop_last();
        lemma_min_index(p);
        let m = min_index(p);
        assert forall|j: int| 0 <= j < q.len() implies !(#[trigger] q[j]).before(q[min_index(q)]) by {
            if j < q.len() - 1 {
                assert(q[j] == p[j]);
            }
            assert(q[m] == p[m]);
        }
    }
}

/// The frontier after relaxing `edges` of a node settled at `cost`: each edge
/// whose end is reached strictly within `time_limit` is appended, in order.
pub open spec fn relax(q: Seq<QueueItem>, edges: Seq<EdgeWalk>, cost: usize, time_limit: usize) -> Seq<QueueItem>
    decreases edges.len(),
{
    if edges.len() == 0 {
        q
    } else {
        let rest = relax(q, edges.drop_last(), cost, time_limit);
        let e = edges.last();
        if cost + e.cost < time_limit {
            rest.push(PriorityQueueItem { cost: (cost + e.cost) as usize, node: e.to, has_pt: e.has_pt })
        } else {
            rest
        }
    }
}

/// `i` is the first departure that leaves no earlier than `arrival`.
pub open spec fn is_next_departure(tt: Seq<TimetableEntry>, arrival: int, i: int) -> bool {
    &&& 0 <= i < tt.len()
    &&& arrival <= tt[i].leave_time
    &&& forall|k: int| 0 <= k < i ==> #[trigger] tt[k].leave_time < arrival
}

pub open spec fn next_departure(tt: Seq<TimetableEntry>, arrival: int) -> Option<int> {
    if exists|i: int| is_next_departure(tt, arrival, i) {
        Some(choose|i: int| is_next_departure(tt, arrival, i))
    } else {
        None
    }
}

pub proof fn lemma_next_departure_unique(tt: Seq<TimetableEntry>, arrival: int, i: int)
    requires
        is_next_departure(tt, arrival, i),
    ensures
        next_departure(tt, arrival) == Some(i),
{
    let c = choose|c: int| is_next_departure(tt, arrival, c);
    if c < i {
        assert(tt[c].leave_time < arrival);
    } else if i < c {
        assert(tt[i].leave_time < arrival);
    }
}

/// The frontier after a boarding attempt at a stop with timetable `tt`, reached
/// `time_so_far` seconds after a trip that started at `trip_start`: the first
/// departure not yet gone is taken, waiting for it included, if its arrival
/// stays strictly within `time_limit`.
pub open spec fn board(
    q: Seq<QueueItem>,
    tt: Seq<TimetableEntry>,
    time_so_far: usize,
    trip_start: usize,
    time_limit: usize,
) -> Seq<QueueItem> {
    let arrival = trip_start + time_so_far;
    match next_departure(tt, arrival) {
        Some(i) => {
            let e = tt[i];
            let t = time_so_far + e.cost + (e.leave_time - arrival);
            if t < time_limit {
                q.push(PriorityQueueItem { cost: t as usize, node: e.to, has_pt: true })
            } else {
                q
            }
        },
        None => q,
    }
}

/// What one accessibility search is run on.
pub struct SearchInput {
    pub graph: Seq<NodeWalk>,
    pub routes: Seq<NodeRoute>,
    pub node_values: Seq<bool>,
    pub origin: usize,
    pub trip_start: usize,
    pub time_limit: usize,
    pub boarding: bool,
}

/// The frontier, the settled nodes, and the cost at which a destination was popped.
pub struct SearchState {
    pub queue: Seq<QueueItem>,
    pub visited: Seq<bool>,
    pub found: Option<usize>,
}

pub open spec fn is_final(s: SearchState) -> bool {
    s.found is Some || s.queue.len() == 0
}

pub open spec fn initial_state(inp: SearchInput) -> SearchState {
    SearchState {
        queue: seq![PriorityQueueItem { cost: 0usize, node: inp.origin, has_pt: false }],
        visited: Seq::new(inp.graph.len(), |i: int| false),
        found: None,
    }
}

/// One step of the search: pop the least entry; stop on a destination, skip a
/// settled node, or settle the node, relax its edges and, when it was reached
/// able to board, attempt boarding.
pub open spec fn search_step(inp: SearchInput, s: SearchState) -> SearchState {
    if is_final(s) {
        s
    } else {
        let cur = s.queue[min_index(s.queue)];
        let rest = s.queue.remove(min_index(s.queue));
        if inp.node_values[cur.node as int] {
            SearchState { queue: rest, visited: s.visited, found: Some(cur.cost) }
        } else if s.visited[cur.node as int] {
            SearchState { queue: rest, visited: s.visited, found: None }
        } else {
            let walked = relax(rest, edge_items(inp.graph[cur.node as int].edges), cur.cost, inp.time_limit);
            let next = if inp.boarding && cur.has_pt {
                board(walked, inp.routes[cur.node as int].timetable@, cur.cost, inp.trip_start, inp.time_limit)
            } else {
                walked
            };
            SearchState { queue: next, visited: s.visited.update(cur.node as int, true), found: None }
        }
    }
}

pub open spec fn state_after(inp: SearchInput, k: nat) -> SearchState
    decreases k,
{
    if k == 0 {
        initial_state(inp)
    } else {
        search_step(inp, state_after(inp, (k - 1) as nat))
    }
}

/// Time from the origin to the first destination popped, or `time_limit` when
/// the frontier runs dry first.
pub open spec fn elapsed_time(inp: SearchInput) -> int {
    if exists|k: nat| is_final(#[trigger] state_after(inp, k)) {
        let k = choose|k: nat| is_final(#[trigger] state_after(inp, k));
        match state_after(inp, k).found {
            Some(c) => c as int,
            None => inp.time_limit as int,
        }
    } else {
        inp.time_limit as int
    }
}

proof fn lemma_final_stays(inp: SearchInput, k: nat, m: nat)
    requires
        is_final(state_after(inp, k)),
        k <= m,
    ensures
        state_after(inp, m) == state_after(inp, k),
    decreases m - k,
{
    if m > k {
        lemma_final_stays(inp, k, (m - 1) as nat);
    }
}

proof fn lemma_elapsed_time(inp: SearchInput, k: nat)
    requires
        is_final(state_after(inp, k)),
    ensures
        elapsed_time(inp) == match state_after(inp, k).found {
            Some(c) => c as int,
            None => inp.time_limit as int,
        },
{
    let c = choose|c: nat| is_final(#[trigger] state_after(inp, c));
    let m = if c <= k { k } else { c };
    lemma_final_stays(inp, k, m);
    lemma_final_stays(inp, c, m);
}

pub open spec fn queue_ok(q: Seq<QueueItem>, n: int, time_limit: usize) -> bool {
    forall|j: int| 0 <= j < q.len() ==> (#[trigger] q[j]).node < n && q[j].cost <= time_limit
}

pub proof fn lemma_relax_ok(q: Seq<QueueItem>, edges: Seq<EdgeWalk>, cost: usize, time_limit: usize, n: int)
    requires
        queue_ok(q, n, time_limit),
        forall|j: int| 0 <= j < edges.len() ==> (#[trigger] edges[j]).to < n,
    ensures
        queue_ok(relax(q, edges, cost, time_limit), n, time_limit),
    decreases edges.len(),
{
    if edges.len() > 0 {
        let e = edges.drop_last();
        assert forall|j: int| 0 <= j < e.len() implies (#[trigger] e[j]).to < n by {
            assert(e[j] == edges[j]);
        }
        lemma_relax_ok(q, e, cost, time_limit, n);
        assert(edges.last() == edges[edges.len() - 1]);
    }
}

proof fn lemma_board_ok(q: Seq<QueueItem>, tt: Seq<TimetableEntry>, time_so_far: usize, trip_start: usize, time_limit: usize, n: int)
    requires
        queue_ok(q, n, time_limit),
        forall|j: int| 0 <= j < tt.len() ==> (#[trigger] tt[j]).to < n,
    ensures
        queue_ok(board(q, tt, time_so_far, trip_start, time_limit), n, time_limit),
{
    let arrival = trip_start + time_so_far;
    if exists|i: int| is_next_departure(tt, arrival, i) {
        let i = choose|i: int| is_next_departure(tt, arrival, i);
        assert(tt[i].to < n);
    }
}

/// Index of the next frontier entry to pop.
fn frontier_min(queue: &Vec<QueueItem>) -> (i: usize)
    requires
        queue.len() > 0,
    ensures
        i == min_index(queue@),
        i < queue.len(),
{
    let mut best: usize = 0;
    let mut k: usize = 1;
    while k < queue.len()
        invariant
            1 <= k <= queue.len(),
            best < k,
            best == min_index(queue@.subrange(0, k as int)),
        decreases queue.len() - k,
    {
        assert(queue@.subrange(0, k + 1).drop_last() =~= queue@.subrange(0, k as int));
        if queue[k].goes_before(&queue[best]) {
            best = k;
        }
        k += 1;
    }
    assert(queue@.subrange(0, queue.len() as int) =~= queue@);
    best
}

/// Appends to the frontier every edge of a node settled at `cost` whose end
/// is reached strictly within `time_limit`.
fn relax_edges(queue: &mut Vec<QueueItem>, edges: &EdgeList, cost: usize, time_limit: usize)
    requires
        cost <= time_limit,
    ensures
        final(queue)@ == relax(old(queue)@, edge_items(*edges), cost, time_limit),
{
    let count = edges.len();
    let mut j: usize = 0;
    while j < count
        invariant
            count == edge_items(*edges).len(),
            j <= count,
            cost <= time_limit,
            queue@ == relax(old(queue)@, edge_items(*edges).subrange(0, j as int), cost, time_limit),
        decreases count - j,
    {
        assert(edge_items(*edges).subrange(0, j + 1).drop_last() =~= edge_items(*edges).subrange(0, j as int));
        let e = edges.at(j);
        if e.cost < time_limit - cost {
            queue.push(PriorityQueueItem { cost: cost + e.cost, node: e.to, has_pt: e.has_pt });
        }
        j += 1;
    }
    assert(edge_items(*edges).subrange(0, count as int) =~= edge_items(*edges));
}

/// Index of the first departure leaving no earlier than `arrival`, if any.
fn next_departure_index(timetable: &Vec<TimetableEntry>, arrival: usize) -> (r: Option<usize>)
    ensures
        r is Some ==> next_departure(timetable@, arrival as int) == Some(r->0 as int),
        r is None ==> next_departure(timetable@, arrival as int) is None,
{
    let mut k: usize = 0;
    while k < timetable.len()
        invariant
            k <= timetable.len(),
            forall|j: int| 0 <= j < k ==> #[trigger] timetable@[j].leave_time < arrival,
        decreases timetable.len() - k,
    {
        if arrival <= timetable[k].leave_time {
            proof {
                lemma_next_departure_unique(timetable@, arrival as int, k as int);
            }
            return Some(k);
        }
        k += 1;
    }
    assert(!exists|i: int| is_next_departure(timetable@, arrival as int, i));
    None
}

/// Boarding attempt at `current_node`, reached `time_so_far` seconds into a
/// trip that started at `trip_start_seconds`: pushes the arrival of the first
/// departure not yet gone, when that arrival stays strictly within `time_limit`.
pub fn take_next_pt_route(
    graph_routes: &Vec<NodeRoute>,
    time_so_far: usize,
    queue: &mut Vec<QueueItem>,
    time_limit: usize,
    trip_start_seconds: usize,
    current_node: usize,
)
    requires
        current_node < graph_routes.len(),
        trip_start_seconds + time_so_far <= usize::MAX,
    ensures
        final(queue)@ == board(
            old(queue)@,
            graph_routes@[current_node as int].timetable@,
            time_so_far,
            trip_start_seconds,
            time_limit,
        ),
{
    let arrival: usize = trip_start_seconds + time_so_far;
    let timetable = &graph_routes[current_node].timetable;
    match next_departure_index(timetable, arrival) {
        Some(i) => {
            let e = timetable[i];
            let wait = e.leave_time - arrival;
            if time_so_far < time_limit {
                let remaining = time_limit - time_so_far;
                if e.cost < remaining && wait < remaining - e.cost {
                    queue.push(PriorityQueueItem { cost: time_so_far + e.cost + wait, node: e.to, has_pt: true });
                }
            }
        },
        None => {},
    }
}

/// Accessibility search from `start_node`: the time at which the first
/// destination leaves the frontier, or `time_limit` when none does.
/// With `boarding`, nodes reached over a boardable edge may take the next
/// scheduled departure.
pub fn search(
    graph_walk: &Vec<NodeWalk>,
    graph_routes: &Vec<NodeRoute>,
    node_values: &Vec<bool>,
    start_node: usize,
    trip_start_seconds: usize,
    time_limit: usize,
    boarding: bool,
) -> (elapsed: usize)
    requires
        walk_graph_wf(graph_walk@),
        boarding ==> routes_wf(graph_routes@, graph_walk.len() as int),
        node_values.len() == graph_walk.len(),
        start_node < graph_walk.len(),
        trip_start_seconds + time_limit <= usize::MAX,
    ensures
        elapsed == elapsed_time(
            (SearchInput {
                graph: graph_walk@,
                routes: graph_routes@,
                node_values: node_values@,
                origin: start_node,
                trip_start: trip_start_seconds,
                time_limit,
                boarding,
            }),
        ),
        elapsed <= time_limit,
{
    let ghost inp = SearchInput {
        graph: graph_walk@,
        routes: graph_routes@,
        node_values: node_values@,
        origin: start_node,
        trip_start: trip_start_seconds,
        time_limit,
        boarding,
    };
    let n = graph_walk.len();
    let mut nodes_visited: Vec<bool> = Vec::new();
    while nodes_visited.len() < n
        invariant
            nodes_visited.len() <= n,
            forall|v: int| 0 <= v < nodes_visited.len() ==> !#[trigger] nodes_visited@[v],
        decreases n - nodes_visited.len(),
    {
        nodes_visited.push(false);
    }
    let mut queue: Vec<QueueItem> = Vec::new();
    queue.push(PriorityQueueItem { cost: 0, node: start_node, has_pt: false });
    let mut time_taken: usize = time_limit;
    let ghost mut k: nat = 0;
    let ghost mut seen: Set<int> = Set::empty();
    proof {
        assert(queue@ =~= initial_state(inp).queue);
        assert(nodes_visited@ =~= initial_state(inp).visited);
        lemma_int_range(0, n as int);
    }
    loop
        invariant_except_break
            state_after(inp, k) == (SearchState { queue: queue@, visited: nodes_visited@, found: None }),
            time_taken == time_limit,
        invariant
            inp.graph == graph_walk@,
            inp.routes == graph_routes@,
            inp.node_values == node_values@,
            inp.trip_start == trip_start_seconds,
            inp.time_limit == time_limit,
            inp.boarding == boarding,
            walk_graph_wf(graph_walk@),
            boarding ==> routes_wf(graph_routes@, n as int),
            node_values.len() == n,
            n == graph_walk.len(),
            trip_start_seconds + time_limit <= usize::MAX,
            nodes_visited.len() == n,
            queue_ok(queue@, n as int, time_limit),
            set_int_range(0, n as int).finite(),
            set_int_range(0, n as int).len() == n,
            seen.subset_of(set_int_range(0, n as int)),
            forall|v: int| 0 <= v < n ==> (#[trigger] nodes_visited@[v] <==> seen.contains(v)),
        ensures
            is_final(state_after(inp, k)),
            time_taken == match state_after(inp, k).found {
                Some(c) => c,
                None => time_limit,
            },
            time_taken <= time_limit,
        decreases n - seen.len(), queue.len(),
    {
        proof {
            lemma_len_subset(seen, set_int_range(0, n as int));
        }
        if queue.len() == 0 {
            break;
        }
        let i = frontier_min(&queue);
        let ghost before_pop = queue@;
        let ghost prev = state_after(inp, k);
        let current = queue.remove(i);
        proof {
            assert(!is_final(prev));
            assert(prev.queue == before_pop);
            assert(current == before_pop[min_index(before_pop)]);
            k = k + 1;
            assert(state_after(inp, k) == search_step(inp, state_after(inp, (k - 1) as nat)));
        }
        if node_values[current.node] {
            time_taken = current.cost;
            break;
        }
        if nodes_visited[current.node] {
            continue;
        }
        nodes_visited.set(current.node, true);
        proof {
            assert(!seen.contains(current.node as int));
            seen = seen.insert(current.node as int);
            lemma_len_subset(seen, set_int_range(0, n as int));
            lemma_relax_ok(
                queue@,
                edge_items(graph_walk@[current.node as int].edges),
                current.cost,
                time_limit,
                n as int,
            );
        }
        relax_edges(&mut queue, &graph_walk[current.node].edges, current.cost, time_limit);
        if boarding && current.has_pt {
            proof {
                lemma_board_ok(
                    queue@,
                    graph_routes@[current.node as int].timetable@,
                    current.cost,
                    trip_start_seconds,
                    time_limit,
                    n as int,
                );
            }
            take_next_pt_route(graph_routes, current.cost, &mut queue, time_limit, trip_start_seconds, current.node);
        }
    }
    proof {
        lemma_elapsed_time(inp, k);
    }
    time_taken
}

/// Weighted accessibility cost of one origin, walking and riding scheduled
/// services: the search time (or `time_limit` when no destination is
/// reached within it) times `start_node_weight`.
pub fn run(
    graph_walk: &Vec<NodeWalk>,
    graph_routes: &Vec<NodeRoute>,
    node_values: &Vec<bool>,
    start_node: usize,
    start_node_weight: usize,
    trip_start_seconds: usize,
    time_limit: usize,
) -> (r: usize)
    requires
        walk_graph_wf(graph_walk@),
        routes_wf(graph_routes@, graph_walk.len() as int),
        node_values.len() == graph_walk.len(),
        start_node < graph_walk.len(),
        trip_start_seconds + time_limit <= usize::MAX,
        time_limit * start_node_weight <= usize::MAX,
    ensures
        r == elapsed_time(
            (SearchInput {
                graph: graph_walk@,
                routes: graph_routes@,
                node_values: node_values@,
                origin: start_node,
                trip_start: trip_start_seconds,
                time_limit,
                boarding: true,
            }),
        ) * start_node_weight,
        r <= time_limit * start_node_weight,
{
    let elapsed = search(graph_walk, graph_routes, node_values, start_node, trip_start_seconds, time_limit, true);
    proof {
        lemma_mul_inequality(elapsed as int, time_limit as int, start_node_weight as int);
    }
    elapsed * start_node_weight
}

} // verus!
