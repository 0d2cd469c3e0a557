use std::collections::HashMap;

use bus_prototype::aggregate::calculate_total_weighted_time;
use bus_prototype::edge_list::EdgeList;
use bus_prototype::candidate::{add_to_graph_walk, reset_graph_walk};
use bus_prototype::floodfill;
use bus_prototype::floodfill_pt;
use bus_prototype::floodfill_pt::{take_next_pt_route, PriorityQueueItem};
use bus_prototype::graph::{EdgeWalk, NodeRoute, NodeWalk, StartNodes, TimetableEntry};

fn node(edges: &[(usize, usize, bool)]) -> NodeWalk {
    NodeWalk {
        edges: EdgeList::from_vec(
            edges
                .iter()
                .map(|&(to, cost, has_pt)| EdgeWalk { to, cost, has_pt })
                .collect(),
        ),
    }
}

fn route(entries: &[(usize, usize, usize)]) -> NodeRoute {
    NodeRoute {
        timetable: entries
            .iter()
            .map(|&(leave_time, cost, to)| TimetableEntry { leave_time, cost, to })
            .collect(),
    }
}

fn no_routes(n: usize) -> Vec<NodeRoute> {
    (0..n).map(|_| route(&[])).collect()
}

fn shape(g: &Vec<NodeWalk>) -> Vec<Vec<(usize, usize, bool)>> {
    g.iter()
        .map(|n| n.edges.to_vec().iter().map(|e| (e.to, e.cost, e.has_pt)).collect())
        .collect()
}

#[test]
fn origin_is_destination() {
    let g = vec![node(&[])];
    assert_eq!(floodfill::run(&g, &vec![true], 0, 1, 3600), 0);
    assert_eq!(floodfill_pt::run(&g, &no_routes(1), &vec![true], 0, 1, 0, 3600), 0);
}

#[test]
fn single_edge_weighted() {
    let g = vec![node(&[(1, 50, false)]), node(&[])];
    assert_eq!(floodfill::run(&g, &vec![false, true], 0, 2, 3600), 100);
    assert_eq!(floodfill_pt::run(&g, &no_routes(2), &vec![false, true], 0, 2, 0, 3600), 100);
}

#[test]
fn edge_beyond_budget_gives_sentinel() {
    let g = vec![node(&[(1, 5000, false)]), node(&[])];
    assert_eq!(floodfill::run(&g, &vec![false, true], 0, 3, 3600), 3600 * 3);
}

#[test]
fn edge_equal_to_budget_is_pruned() {
    let g = vec![node(&[(1, 3600, false)]), node(&[])];
    assert_eq!(floodfill::run(&g, &vec![false, true], 0, 1, 3600), 3600);
    let g = vec![node(&[(1, 3599, false)]), node(&[])];
    assert_eq!(floodfill::run(&g, &vec![false, true], 0, 1, 3600), 3599);
}

#[test]
fn shortest_route_is_found() {
    // 0 -> 1 -> 3 costs 30, 0 -> 2 -> 3 costs 25, 0 -> 3 costs 40.
    let g = vec![
        node(&[(1, 10, false), (2, 20, false), (3, 40, false)]),
        node(&[(3, 20, false)]),
        node(&[(3, 5, false)]),
        node(&[]),
    ];
    let dest = vec![false, false, false, true];
    assert_eq!(floodfill::run(&g, &dest, 0, 1, 3600), 25);
}

#[test]
fn unreachable_destination_gives_sentinel() {
    let g = vec![node(&[(1, 1, false)]), node(&[(0, 1, false)]), node(&[])];
    assert_eq!(floodfill::run(&g, &vec![false, false, true], 0, 4, 600), 2400);
}

#[test]
fn result_never_exceeds_budget() {
    let g = vec![
        node(&[(1, 700, false), (2, 100, true)]),
        node(&[(3, 700, false)]),
        node(&[(0, 50, false)]),
        node(&[]),
    ];
    let dest = vec![false, false, false, true];
    for w in 0..5 {
        for limit in [0usize, 100, 1000, 1400, 1401, 5000] {
            let r = floodfill::run(&g, &dest, 0, w, limit);
            assert!(r <= limit * w);
            let r = floodfill_pt::run(&g, &no_routes(4), &dest, 0, w, 0, limit);
            assert!(r <= limit * w);
        }
    }
}

#[test]
fn repeated_searches_agree() {
    let g = vec![
        node(&[(1, 10, true), (2, 10, false)]),
        node(&[(3, 30, false)]),
        node(&[(3, 30, false)]),
        node(&[]),
    ];
    let routes = vec![route(&[]), route(&[(20, 5, 3)]), route(&[]), route(&[])];
    let dest = vec![false, false, false, true];
    let a = floodfill_pt::run(&g, &routes, &dest, 0, 3, 0, 3600);
    let b = floodfill_pt::run(&g, &routes, &dest, 0, 3, 0, 3600);
    assert_eq!(a, b);
    // walk 10 s to node 1, wait until 20, ride 5 s
    assert_eq!(a, 25 * 3);
}

#[test]
fn boarding_takes_first_departure_not_gone() {
    let routes = vec![route(&[(100, 5, 1), (200, 5, 2)]), route(&[]), route(&[])];
    let mut queue: Vec<PriorityQueueItem<usize, usize, bool>> = Vec::new();
    take_next_pt_route(&routes, 0, &mut queue, 3600, 90, 0);
    assert_eq!(queue.len(), 1);
    assert_eq!(queue[0].cost, 15);
    assert_eq!(queue[0].node, 1);
    assert!(queue[0].has_pt);
}

#[test]
fn boarding_after_last_departure_adds_nothing() {
    let routes = vec![route(&[(100, 5, 1), (200, 5, 2)])];
    let mut queue: Vec<PriorityQueueItem<usize, usize, bool>> = Vec::new();
    take_next_pt_route(&routes, 20, &mut queue, 3600, 190, 0);
    assert!(queue.is_empty());
}

#[test]
fn boarding_beyond_budget_adds_nothing() {
    let routes = vec![route(&[(100, 5, 1)])];
    let mut queue: Vec<PriorityQueueItem<usize, usize, bool>> = Vec::new();
    // arrives at 90, waits 10, rides 5: 15 is not below a budget of 15
    take_next_pt_route(&routes, 0, &mut queue, 15, 90, 0);
    assert!(queue.is_empty());
    take_next_pt_route(&routes, 0, &mut queue, 16, 90, 0);
    assert_eq!(queue.len(), 1);
    assert_eq!(queue[0].cost, 15);
}

#[test]
fn departure_exactly_at_arrival_is_taken() {
    let routes = vec![route(&[(50, 7, 1), (90, 3, 2)])];
    let mut queue: Vec<PriorityQueueItem<usize, usize, bool>> = Vec::new();
    take_next_pt_route(&routes, 40, &mut queue, 3600, 50, 0);
    assert_eq!(queue.len(), 1);
    assert_eq!(queue[0].cost, 43);
    assert_eq!(queue[0].node, 2);
}

#[test]
fn transit_shortens_trip() {
    // walking 0 -> 1 -> 2 takes 1000; from 1 a bus leaves at 120 and reaches 2 in 30
    let g = vec![node(&[(1, 100, true)]), node(&[(2, 900, false)]), node(&[])];
    let routes = vec![route(&[]), route(&[(120, 30, 2)]), route(&[])];
    let dest = vec![false, false, true];
    assert_eq!(floodfill_pt::run(&g, &routes, &dest, 0, 1, 0, 3600), 150);
    // the walk-only search ignores the timetable
    assert_eq!(floodfill::run(&g, &dest, 0, 1, 3600), 1000);
    // without a boardable arrival the bus is not used
    let g2 = vec![node(&[(1, 100, false)]), node(&[(2, 900, false)]), node(&[])];
    assert_eq!(floodfill_pt::run(&g2, &routes, &dest, 0, 1, 0, 3600), 1000);
}

#[test]
fn edge_list_keeps_order() {
    let edges = vec![
        EdgeWalk { to: 3, cost: 7, has_pt: false },
        EdgeWalk { to: 1, cost: 2, has_pt: true },
        EdgeWalk { to: 4, cost: 9, has_pt: false },
        EdgeWalk { to: 0, cost: 1, has_pt: false },
        EdgeWalk { to: 2, cost: 5, has_pt: true },
    ];
    let list = EdgeList::from_vec(edges.clone());
    let back = list.to_vec();
    assert_eq!(back.len(), 5);
    for (a, b) in edges.iter().zip(back.iter()) {
        assert_eq!((a.to, a.cost, a.has_pt), (b.to, b.cost, b.has_pt));
    }
    assert!(EdgeList::from_vec(Vec::new()).to_vec().is_empty());
}

#[test]
fn frontier_order_is_cost_then_node() {
    let a = PriorityQueueItem { cost: 5usize, node: 9usize, has_pt: false };
    let b = PriorityQueueItem { cost: 6usize, node: 1usize, has_pt: false };
    let c = PriorityQueueItem { cost: 5usize, node: 2usize, has_pt: true };
    assert!(a.goes_before(&b));
    assert!(!b.goes_before(&a));
    assert!(c.goes_before(&a));
    assert!(!a.goes_before(&a));
    let d = floodfill::PriorityQueueItem { cost: 1usize, node: 4usize };
    let e = floodfill::PriorityQueueItem { cost: 1usize, node: 3usize };
    assert!(e.goes_before(&d));
    assert!(!d.goes_before(&e));
}

#[test]
fn mean_weighted_time_over_origins() {
    let g = vec![node(&[(2, 50, false)]), node(&[(2, 200, false)]), node(&[]), node(&[])];
    let routes = no_routes(4);
    let dest = vec![false, false, true, false];
    let origins = vec![
        StartNodes { node: 0, weight: 2 },
        StartNodes { node: 1, weight: 1 },
        StartNodes { node: 3, weight: 1 },
    ];
    // 50 * 2 + 200 * 1 + 600 * 1 = 900
    assert_eq!(calculate_total_weighted_time(&g, &routes, &dest, &origins, 0, 600, 4), 225);
    assert_eq!(calculate_total_weighted_time(&g, &routes, &dest, &origins, 0, 600, 1), 900);
    assert_eq!(calculate_total_weighted_time(&g, &routes, &dest, &vec![], 0, 600, 7), 0);
}

#[test]
fn stop_edges_are_added_and_removed() {
    let mut g = vec![node(&[(1, 4, false)]), node(&[]), node(&[(0, 3, false)])];
    let unchanged = shape(&g);
    let mut row = HashMap::new();
    row.insert(2usize, 120usize);
    let mut travel_times = HashMap::new();
    travel_times.insert(0usize, row);
    let changed = add_to_graph_walk(&mut g, &vec![0, 2], &travel_times);
    assert_eq!(changed, vec![0]);
    assert_eq!(shape(&g)[0], vec![(1, 4, false), (2, 130, true)]);
    assert_eq!(shape(&g)[1], unchanged[1]);
    assert_eq!(shape(&g)[2], unchanged[2]);
    reset_graph_walk(&mut g, changed);
    assert_eq!(shape(&g), unchanged);
}

#[test]
fn candidates_on_one_node_change_nothing() {
    let mut g = vec![node(&[(1, 4, false)]), node(&[])];
    let unchanged = shape(&g);
    let travel_times: HashMap<usize, HashMap<usize, usize>> = HashMap::new();
    let changed = add_to_graph_walk(&mut g, &vec![1, 1], &travel_times);
    assert!(changed.is_empty());
    assert_eq!(shape(&g), unchanged);
    reset_graph_walk(&mut g, changed);
    assert_eq!(shape(&g), unchanged);
}

#[test]
fn new_stop_edge_enables_transit() {
    let mut g = vec![node(&[(1, 2000, false)]), node(&[]), node(&[])];
    let routes = vec![route(&[]), route(&[]), route(&[(300, 60, 1)])];
    let dest = vec![false, true, false];
    let before = floodfill_pt::run(&g, &routes, &dest, 0, 1, 0, 3600);
    assert_eq!(before, 2000);
    let mut row = HashMap::new();
    row.insert(2usize, 90usize);
    let mut travel_times = HashMap::new();
    travel_times.insert(0usize, row);
    let changed = add_to_graph_walk(&mut g, &vec![0, 2], &travel_times);
    // walk 100 s to node 2, wait until 300, ride 60 s
    assert_eq!(floodfill_pt::run(&g, &routes, &dest, 0, 1, 0, 3600), 360);
    reset_graph_walk(&mut g, changed);
    assert_eq!(floodfill_pt::run(&g, &routes, &dest, 0, 1, 0, 3600), before);
}

#[test]
fn added_edge_never_slows_walking() {
    let mut g = vec![
        node(&[(1, 1000, false)]),
        node(&[]),
        node(&[(1, 50, false)]),
        node(&[(2, 1, false)]),
    ];
    let dest = vec![false, true, false, false];
    let before = floodfill::run(&g, &dest, 0, 2, 3600);
    assert_eq!(before, 2000);
    let mut row = HashMap::new();
    row.insert(2usize, 90usize);
    let mut travel_times = HashMap::new();
    travel_times.insert(0usize, row);
    let changed = add_to_graph_walk(&mut g, &vec![0, 2], &travel_times);
    // 0 -> 2 now costs 100, then 50 more to the destination
    let after = floodfill::run(&g, &dest, 0, 2, 3600);
    assert_eq!(after, 300);
    assert!(after <= before);
    reset_graph_walk(&mut g, changed);
    assert_eq!(floodfill::run(&g, &dest, 0, 2, 3600), before);
}

#[test]
fn edge_out_of_unreached_node_changes_nothing() {
    let mut g = vec![node(&[(1, 70, false)]), node(&[]), node(&[]), node(&[])];
    let dest = vec![false, true, false, false];
    let before = floodfill::run(&g, &dest, 0, 1, 3600);
    let mut row = HashMap::new();
    row.insert(1usize, 1usize);
    let mut travel_times = HashMap::new();
    travel_times.insert(3usize, row);
    let changed = add_to_graph_walk(&mut g, &vec![3, 1], &travel_times);
    assert_eq!(changed, vec![3]);
    assert_eq!(floodfill::run(&g, &dest, 0, 1, 3600), before);
    assert_eq!(before, 70);
}
