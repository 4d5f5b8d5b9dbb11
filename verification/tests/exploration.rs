use snailtrail::capacity::{Capacity, FlowBudget, Hop, HopLimit};
use snailtrail::explore::{advance, expand, gather, group_explore, FlowOverflow};
use snailtrail::graph::{reverse_edges, reverse_flows, Edge, Endpoint};
use std::collections::HashMap;

fn edge(src: u64, dst: u64) -> Edge {
    Edge::new(Some(src), Some(dst), 0)
}

fn entering(dst: u64) -> Edge {
    Edge::new(None, Some(dst), 0)
}

fn leaving(src: u64) -> Edge {
    Edge::new(Some(src), None, 0)
}

fn diamond() -> Vec<Edge> {
    vec![edge(1, 2), edge(1, 3), edge(2, 4), edge(3, 4)]
}

fn chain() -> Vec<Edge> {
    vec![edge(1, 2), edge(2, 3), edge(3, 4), edge(4, 5)]
}

#[test]
fn edge_exposes_its_ends() {
    let e = Edge::new(Some(1), None, 9);
    assert_eq!(e.src(), Some(1));
    assert_eq!(e.dst(), None);
    assert_eq!(e.endpoint(Endpoint::Src), Some(1));
    assert_eq!(e.endpoint(Endpoint::Dst), None);
    assert!(!e.is_internal());
    assert!(edge(1, 2).is_internal());
    assert!(!entering(1).is_internal());
    assert!(!Edge::new(None, None, 0).is_internal());
}

#[test]
fn reversed_edge_swaps_its_ends_and_keeps_its_label() {
    let e = Edge::new(Some(1), None, 9);
    assert_eq!(e.reversed(), Edge::new(None, Some(1), 9));
    assert_eq!(e.reversed().reversed(), e);
    assert_eq!(Endpoint::Src.flip(), Endpoint::Dst);
    assert_eq!(Endpoint::Dst.flip(), Endpoint::Src);
}

#[test]
fn reverse_edges_reverses_each_edge_in_place() {
    assert_eq!(
        reverse_edges(&vec![edge(1, 2), entering(3)]),
        vec![edge(2, 1), leaving(3)]
    );
    assert_eq!(
        reverse_flows(&vec![(edge(1, 2), 5), (entering(3), 7)]),
        vec![(edge(2, 1), 5), (leaving(3), 7)]
    );
    assert_eq!(reverse_edges(&vec![]), vec![]);
}

#[test]
fn hop_limit_permits_below_the_limit_only() {
    let policy = HopLimit::new(2);
    let hop = |depth: usize| Hop { depth, from: Some(1), to: Some(2), label: 0, flow: 1 };
    assert!(policy.permits(&hop(0)));
    assert!(policy.permits(&hop(1)));
    assert!(!policy.permits(&hop(2)));
    assert!(!policy.permits(&hop(3)));
    assert!(!HopLimit::new(0).permits(&hop(0)));
}

#[test]
fn flow_budget_stops_large_flows() {
    let policy = FlowBudget::new(3, 10);
    let hop = |depth: usize, flow: u64| Hop { depth, from: Some(1), to: Some(2), label: 0, flow };
    assert!(policy.permits(&hop(0, 10)));
    assert!(!policy.permits(&hop(0, 11)));
    assert!(policy.permits(&hop(2, 0)));
    assert!(!policy.permits(&hop(3, 0)));
}

#[test]
fn gather_adds_up_the_flows_that_arrive_at_a_node() {
    let wave = vec![(edge(1, 4), 2), (edge(2, 4), 3), (edge(3, 5), 7), (leaving(6), 11)];
    let front = gather(&HopLimit::new(1), 0, &wave, Endpoint::Src, Endpoint::Dst).unwrap();
    let mut expected = HashMap::new();
    expected.insert(4, 5);
    expected.insert(5, 7);
    assert_eq!(front, expected);
}

#[test]
fn gather_against_the_edges_delivers_to_the_source() {
    let wave = vec![(edge(1, 4), 2), (edge(1, 5), 3), (entering(6), 11)];
    let front = gather(&HopLimit::new(1), 0, &wave, Endpoint::Dst, Endpoint::Src).unwrap();
    let mut expected = HashMap::new();
    expected.insert(1, 5);
    assert_eq!(front, expected);
}

#[test]
fn gather_past_the_limit_reaches_nothing() {
    let wave = vec![(edge(1, 4), 2)];
    let front = gather(&HopLimit::new(1), 1, &wave, Endpoint::Src, Endpoint::Dst).unwrap();
    assert!(front.is_empty());
}

#[test]
fn gather_keeps_a_node_that_only_zero_flows_reach() {
    let wave = vec![(edge(1, 4), 0)];
    let front = gather(&HopLimit::new(1), 0, &wave, Endpoint::Src, Endpoint::Dst).unwrap();
    assert_eq!(front.get(&4), Some(&0));
}

#[test]
fn gather_reports_the_node_that_overflows() {
    let wave = vec![(edge(1, 4), u64::MAX), (edge(2, 5), 1), (edge(3, 4), 1)];
    assert_eq!(
        gather(&HopLimit::new(9), 7, &wave, Endpoint::Src, Endpoint::Dst),
        Err(FlowOverflow { depth: 7, node: 4 })
    );
}

#[test]
fn expand_crosses_the_edges_that_leave_the_frontier() {
    let mut front = HashMap::new();
    front.insert(1, 5);
    front.insert(3, 7);
    let graph = vec![edge(1, 2), edge(2, 3), edge(3, 4), edge(1, 9), entering(1)];
    assert_eq!(
        expand(&graph, &front, Endpoint::Src),
        vec![(edge(1, 2), 5), (edge(3, 4), 7), (edge(1, 9), 5)]
    );
    assert_eq!(
        expand(&graph, &front, Endpoint::Dst),
        vec![(edge(2, 3), 7), (entering(1), 5)]
    );
}

#[test]
fn advance_forms_the_next_wave() {
    let wave = vec![(entering(1), 3)];
    assert_eq!(
        advance(&HopLimit::new(5), &diamond(), 0, &wave, Endpoint::Src, Endpoint::Dst),
        Ok(vec![(edge(1, 2), 3), (edge(1, 3), 3)])
    );
}

#[test]
fn forward_exploration_of_the_diamond() {
    let entries = vec![(entering(1), 1)];
    let seen =
        group_explore(&diamond(), &entries, &HopLimit::new(10), Endpoint::Src, Endpoint::Dst);
    assert_eq!(
        seen,
        Ok(vec![
            (entering(1), 1),
            (edge(1, 2), 1),
            (edge(1, 3), 1),
            (edge(2, 4), 1),
            (edge(3, 4), 1),
        ])
    );
}

#[test]
fn backward_exploration_of_the_diamond() {
    let entries = vec![(leaving(4), 1)];
    let seen =
        group_explore(&diamond(), &entries, &HopLimit::new(10), Endpoint::Dst, Endpoint::Src);
    assert_eq!(
        seen,
        Ok(vec![
            (leaving(4), 1),
            (edge(2, 4), 1),
            (edge(3, 4), 1),
            (edge(1, 2), 1),
            (edge(1, 3), 1),
        ])
    );
}

#[test]
fn flows_that_meet_at_a_node_add_up() {
    let mut graph = diamond();
    graph.push(edge(4, 5));
    let entries = vec![(entering(1), 3)];
    let seen = group_explore(&graph, &entries, &HopLimit::new(10), Endpoint::Src, Endpoint::Dst)
        .unwrap();
    assert_eq!(seen.last(), Some(&(edge(4, 5), 6)));
    assert_eq!(seen.len(), 6);
}

#[test]
fn two_entry_points_at_one_node_add_up() {
    let entries = vec![(entering(1), 2), (entering(1), 5)];
    let seen = group_explore(&chain(), &entries, &HopLimit::new(1), Endpoint::Src, Endpoint::Dst);
    assert_eq!(seen, Ok(vec![(entering(1), 2), (entering(1), 5), (edge(1, 2), 7)]));
}

#[test]
fn hop_limit_bounds_the_distance_from_the_entry_points() {
    let entries = vec![(entering(1), 1)];
    let at = |k: usize| {
        group_explore(&chain(), &entries, &HopLimit::new(k), Endpoint::Src, Endpoint::Dst).unwrap()
    };
    assert_eq!(at(0), vec![(entering(1), 1)]);
    assert_eq!(at(1), vec![(entering(1), 1), (edge(1, 2), 1)]);
    assert_eq!(at(2), vec![(entering(1), 1), (edge(1, 2), 1), (edge(2, 3), 1)]);
    assert_eq!(at(4).len(), 5);
    assert_eq!(at(100).len(), 5);
}

#[test]
fn no_entry_points_nothing_explored() {
    assert_eq!(
        group_explore(&diamond(), &vec![], &HopLimit::new(10), Endpoint::Src, Endpoint::Dst),
        Ok(vec![])
    );
}

#[test]
fn empty_graph_shows_the_entry_points_only() {
    let entries = vec![(edge(1, 2), 4)];
    assert_eq!(
        group_explore(&vec![], &entries, &HopLimit::new(10), Endpoint::Src, Endpoint::Dst),
        Ok(entries)
    );
}

#[test]
fn a_cycle_is_walked_until_the_limit() {
    let graph = vec![edge(1, 2), edge(2, 1)];
    let entries = vec![(entering(1), 1)];
    let seen =
        group_explore(&graph, &entries, &HopLimit::new(5), Endpoint::Src, Endpoint::Dst).unwrap();
    assert_eq!(
        seen,
        vec![
            (entering(1), 1),
            (edge(1, 2), 1),
            (edge(2, 1), 1),
            (edge(1, 2), 1),
            (edge(2, 1), 1),
            (edge(1, 2), 1),
        ]
    );
}

#[test]
fn flow_budget_cuts_a_path_short() {
    let mut graph = diamond();
    graph.push(edge(4, 5));
    graph.push(edge(5, 6));
    let entries = vec![(entering(1), 3)];
    let seen =
        group_explore(&graph, &entries, &FlowBudget::new(10, 5), Endpoint::Src, Endpoint::Dst)
            .unwrap();
    assert_eq!(seen.last(), Some(&(edge(4, 5), 6)));
    assert!(!seen.contains(&(edge(5, 6), 6)));
}

#[test]
fn exploration_reports_an_overflow() {
    let graph = vec![edge(1, 3), edge(2, 3), edge(3, 4)];
    let entries = vec![(entering(1), u64::MAX), (entering(2), 1)];
    assert_eq!(
        group_explore(&graph, &entries, &HopLimit::new(10), Endpoint::Src, Endpoint::Dst),
        Err(FlowOverflow { depth: 1, node: 3 })
    );
}

#[test]
fn direction_symmetry_on_the_diamond() {
    let mut graph = diamond();
    graph.push(edge(4, 5));
    let entries = vec![(entering(1), 2), (edge(7, 2), 3)];
    let policy = HopLimit::new(3);
    let along = group_explore(&graph, &entries, &policy, Endpoint::Src, Endpoint::Dst).unwrap();
    let against = group_explore(
        &reverse_edges(&graph),
        &reverse_flows(&entries),
        &policy,
        Endpoint::Dst,
        Endpoint::Src,
    )
    .unwrap();
    assert_eq!(against, reverse_flows(&along));
    assert_eq!(along.len(), 9);
}

#[test]
fn unlimited_exploration_ends_where_the_graph_ends() {
    let entries = vec![(entering(1), 1)];
    let seen =
        group_explore(&chain(), &entries, &HopLimit::unlimited(), Endpoint::Src, Endpoint::Dst)
            .unwrap();
    assert_eq!(
        seen,
        vec![
            (entering(1), 1),
            (edge(1, 2), 1),
            (edge(2, 3), 1),
            (edge(3, 4), 1),
            (edge(4, 5), 1),
        ]
    );
    assert_eq!(HopLimit::unlimited().hops, usize::MAX);
}
