use snailtrail::capacity::HopLimit;
use snailtrail::centrality::{
    distinct_internal, observe, score, with_entry_edges, BetweennessCentrality, CentralityError,
};
use snailtrail::explore::FlowOverflow;
use snailtrail::flow::{checked_scale_reduce, ScaleReduce};
use snailtrail::graph::Edge;
use snailtrail::sorting::sort_flows;

fn edge(src: u64, dst: u64) -> Edge {
    Edge::new(Some(src), Some(dst), 0)
}

fn entering(dst: u64) -> Edge {
    Edge::new(None, Some(dst), 0)
}

fn leaving(src: u64) -> Edge {
    Edge::new(Some(src), None, 0)
}

fn diamond() -> Vec<Edge> {
    vec![edge(1, 2), edge(1, 3), edge(2, 4), edge(3, 4)]
}

#[test]
fn scale_reduce_multiplies_all_three() {
    assert_eq!(3u64.scale_reduce(4, 5), 60);
    assert_eq!(1u64.scale_reduce(1, 1), 1);
    assert_eq!(7u64.scale_reduce(0, 9), 0);
    assert_eq!(7u64.scale_reduce(9, 0), 0);
}

#[test]
fn checked_scale_reduce_tells_when_the_product_does_not_fit() {
    assert_eq!(checked_scale_reduce(3, 4, 5), Some(60));
    assert_eq!(checked_scale_reduce(u64::MAX, 1, 1), Some(u64::MAX));
    assert_eq!(checked_scale_reduce(u64::MAX, 2, 1), None);
    assert_eq!(checked_scale_reduce(u64::MAX, 1, 2), None);
    assert_eq!(checked_scale_reduce(u64::MAX, 2, 0), None);
    assert_eq!(checked_scale_reduce(1 << 32, 1 << 31, 2), None);
    assert_eq!(checked_scale_reduce(1 << 32, 1 << 31, 1), Some(1 << 63));
    assert_eq!(checked_scale_reduce(0, u64::MAX, usize::MAX), Some(0));
}

#[test]
fn sort_flows_sorts_ascending_and_keeps_equal_flows() {
    assert_eq!(sort_flows(&vec![3, 1, 2, 3, 1]), vec![1, 1, 2, 3, 3]);
    assert_eq!(sort_flows(&vec![]), vec![]);
    assert_eq!(sort_flows(&vec![u64::MAX, 0]), vec![0, u64::MAX]);
    assert_eq!(sort_flows(&vec![5, 4, 3, 2, 1]), vec![1, 2, 3, 4, 5]);
}

#[test]
fn distinct_internal_lists_internal_edges_once_in_order_of_first_sight() {
    let batch = vec![
        (entering(1), 1),
        (edge(2, 3), 1),
        (edge(1, 2), 1),
        (edge(2, 3), 4),
        (leaving(3), 1),
        (Edge::new(Some(2), Some(3), 1), 1),
    ];
    assert_eq!(
        distinct_internal(&batch),
        vec![edge(2, 3), edge(1, 2), Edge::new(Some(2), Some(3), 1)]
    );
}

#[test]
fn observe_collects_the_group_of_an_edge() {
    let batch = vec![(edge(2, 3), 9), (edge(1, 2), 1), (edge(2, 3), 4)];
    assert_eq!(observe(&batch, &edge(2, 3)), vec![9, 4]);
    assert_eq!(observe(&batch, &edge(3, 2)), vec![]);
}

#[test]
fn score_pairs_the_least_flow_with_the_middle_one() {
    let batch = vec![(edge(1, 2), 3), (edge(1, 2), 2), (edge(1, 2), 2), (edge(1, 2), 3)];
    assert_eq!(score(&batch), Ok(vec![(edge(1, 2), 12)]));
    let batch = vec![(edge(1, 2), 5), (edge(1, 2), 7)];
    assert_eq!(score(&batch), Ok(vec![(edge(1, 2), 35)]));
    let batch = vec![
        (edge(1, 2), 1),
        (edge(1, 2), 2),
        (edge(1, 2), 3),
        (edge(1, 2), 4),
        (edge(1, 2), 5),
        (edge(1, 2), 6),
    ];
    assert_eq!(score(&batch), Ok(vec![(edge(1, 2), 12)]));
}

#[test]
fn score_does_not_tell_the_sides_apart() {
    let batch = vec![(edge(1, 2), 4), (edge(1, 2), 4)];
    assert_eq!(score(&batch), Ok(vec![(edge(1, 2), 16)]));
}

#[test]
fn score_leaves_boundary_edges_out() {
    let batch = vec![
        (entering(1), 1),
        (entering(1), 1),
        (entering(1), 1),
        (edge(1, 2), 2),
        (leaving(2), 5),
        (edge(1, 2), 3),
        (Edge::new(None, None, 0), 1),
    ];
    assert_eq!(score(&batch), Ok(vec![(edge(1, 2), 6)]));
}

#[test]
fn score_of_nothing_is_nothing() {
    assert_eq!(score(&vec![]), Ok(vec![]));
    assert_eq!(score(&vec![(entering(1), 1)]), Ok(vec![]));
}

#[test]
fn score_fails_on_a_single_observation() {
    let batch = vec![(edge(1, 2), 1), (edge(1, 2), 1), (edge(2, 3), 7)];
    assert_eq!(
        score(&batch),
        Err(CentralityError::Unpaired { edge: edge(2, 3), flows: vec![7] })
    );
}

#[test]
fn score_fails_on_the_first_odd_group_and_shows_it_sorted() {
    let batch = vec![
        (edge(1, 2), 1),
        (edge(2, 3), 9),
        (edge(3, 4), 1),
        (edge(2, 3), 2),
        (edge(1, 2), 1),
        (edge(2, 3), 5),
    ];
    assert_eq!(
        score(&batch),
        Err(CentralityError::Unpaired { edge: edge(2, 3), flows: vec![2, 5, 9] })
    );
}

#[test]
fn score_prefers_the_structural_violation_to_a_large_product() {
    let batch = vec![(edge(1, 2), u64::MAX), (edge(1, 2), u64::MAX), (edge(2, 3), 1)];
    assert_eq!(
        score(&batch),
        Err(CentralityError::Unpaired { edge: edge(2, 3), flows: vec![1] })
    );
}

#[test]
fn score_reports_a_product_that_does_not_fit() {
    let batch = vec![
        (edge(0, 1), 1),
        (edge(0, 1), 1),
        (edge(1, 2), 1 << 32),
        (edge(1, 2), 1 << 32),
    ];
    assert_eq!(score(&batch), Err(CentralityError::TooLarge { edge: edge(1, 2) }));
}

#[test]
fn with_entry_edges_appends_the_entry_edges() {
    assert_eq!(
        with_entry_edges(&vec![edge(1, 2)], &vec![(entering(1), 4), (edge(1, 2), 5)]),
        vec![edge(1, 2), entering(1), edge(1, 2)]
    );
}

#[test]
fn diamond_edges_all_have_centrality_one() {
    let forward = vec![(entering(1), 1)];
    let backward = vec![(leaving(4), 1)];
    let result = diamond().betweenness_centrality(&forward, &backward, &HopLimit::new(10));
    assert_eq!(
        result,
        Ok(vec![(edge(1, 2), 1), (edge(1, 3), 1), (edge(2, 4), 1), (edge(3, 4), 1)])
    );
}

#[test]
fn centrality_multiplies_the_flows_of_both_sides() {
    let forward = vec![(entering(1), 3)];
    let backward = vec![(leaving(4), 5)];
    let result = diamond().betweenness_centrality(&forward, &backward, &HopLimit::new(10));
    assert_eq!(
        result,
        Ok(vec![(edge(1, 2), 15), (edge(1, 3), 15), (edge(2, 4), 15), (edge(3, 4), 15)])
    );
}

#[test]
fn the_stem_of_the_diamond_carries_both_paths() {
    let mut graph = vec![edge(0, 1)];
    graph.extend(diamond());
    graph.push(edge(4, 5));
    let forward = vec![(entering(0), 1)];
    let backward = vec![(leaving(5), 1)];
    let result = graph.betweenness_centrality(&forward, &backward, &HopLimit::new(10));
    assert_eq!(
        result,
        Ok(vec![
            (edge(0, 1), 2),
            (edge(1, 2), 1),
            (edge(1, 3), 1),
            (edge(2, 4), 1),
            (edge(3, 4), 1),
            (edge(4, 5), 2),
        ])
    );
}

#[test]
fn well_formed_graph_has_even_groups() {
    let forward = vec![(entering(1), 2)];
    let backward = vec![(leaving(4), 2)];
    let policy = HopLimit::new(10);
    let graph = diamond();
    let along = snailtrail::explore::group_explore(
        &with_entry_edges(&graph, &forward),
        &forward,
        &policy,
        snailtrail::graph::Endpoint::Src,
        snailtrail::graph::Endpoint::Dst,
    )
    .unwrap();
    let against = snailtrail::explore::group_explore(
        &with_entry_edges(&graph, &backward),
        &backward,
        &policy,
        snailtrail::graph::Endpoint::Dst,
        snailtrail::graph::Endpoint::Src,
    )
    .unwrap();
    let mut all = along.clone();
    all.extend(against.clone());
    for e in graph.iter() {
        assert_eq!(observe(&along, e).len(), observe(&against, e).len());
        assert_eq!(observe(&all, e).len() % 2, 0);
    }
    assert!(graph.betweenness_centrality(&forward, &backward, &policy).is_ok());
}

#[test]
fn boundary_edges_never_get_a_centrality() {
    let mut graph = diamond();
    graph.push(leaving(4));
    graph.push(entering(1));
    let forward = vec![(entering(1), 1)];
    let backward = vec![(leaving(4), 1)];
    let scores = graph
        .betweenness_centrality(&forward, &backward, &HopLimit::new(10))
        .unwrap();
    assert_eq!(scores.len(), 4);
    for (e, _) in scores.iter() {
        assert!(e.src().is_some() && e.dst().is_some());
    }
}

#[test]
fn forward_entry_without_a_backward_path_is_fatal() {
    let forward = vec![(entering(1), 1)];
    let backward = vec![];
    let result = diamond().betweenness_centrality(&forward, &backward, &HopLimit::new(10));
    assert_eq!(
        result,
        Err(CentralityError::Unpaired { edge: edge(1, 2), flows: vec![1] })
    );
}

#[test]
fn internal_entry_edge_seen_from_one_side_only_is_fatal() {
    let forward = vec![(edge(1, 2), 4)];
    let backward = vec![(leaving(9), 1)];
    let result = vec![].betweenness_centrality(&forward, &backward, &HopLimit::new(10));
    assert_eq!(
        result,
        Err(CentralityError::Unpaired { edge: edge(1, 2), flows: vec![4] })
    );
}

#[test]
fn hop_limit_that_cuts_one_side_short_is_fatal() {
    let graph = vec![edge(1, 2), edge(2, 3), edge(3, 4)];
    let forward = vec![(entering(1), 1)];
    let backward = vec![(leaving(4), 1)];
    assert_eq!(
        graph.betweenness_centrality(&forward, &backward, &HopLimit::new(3)),
        Ok(vec![(edge(1, 2), 1), (edge(2, 3), 1), (edge(3, 4), 1)])
    );
    assert_eq!(
        graph.betweenness_centrality(&forward, &backward, &HopLimit::new(2)),
        Err(CentralityError::Unpaired { edge: edge(1, 2), flows: vec![1] })
    );
}

#[test]
fn overflow_of_an_exploration_is_reported_with_its_side() {
    let graph = vec![edge(1, 3), edge(2, 3), edge(3, 4)];
    let heavy = vec![(entering(1), u64::MAX), (entering(2), 1)];
    let light = vec![(leaving(4), 1)];
    assert_eq!(
        graph.betweenness_centrality(&heavy, &light, &HopLimit::new(10)),
        Err(CentralityError::ForwardOverflow(FlowOverflow { depth: 1, node: 3 }))
    );
    let heavy = vec![(leaving(4), u64::MAX), (leaving(4), 1)];
    let light = vec![(entering(1), 1)];
    assert_eq!(
        graph.betweenness_centrality(&light, &heavy, &HopLimit::new(10)),
        Err(CentralityError::BackwardOverflow(FlowOverflow { depth: 0, node: 4 }))
    );
}
