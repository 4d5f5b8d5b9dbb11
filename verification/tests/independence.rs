use snailtrail::capacity::HopLimit;
use snailtrail::centrality::{reduce, score, settle, BetweennessCentrality, CentralityError};
use snailtrail::explore::group_explore;
use snailtrail::graph::{Edge, Endpoint};
use snailtrail::partition::{exchange_by_edge, hash_code, route, select_by_edge};

fn edge(src: u64, dst: u64) -> Edge {
    Edge::new(Some(src), Some(dst), 0)
}

fn entering(dst: u64) -> Edge {
    Edge::new(None, Some(dst), 0)
}

fn leaving(src: u64) -> Edge {
    Edge::new(Some(src), None, 0)
}

fn key(seen: &(Edge, u64)) -> (Option<u64>, Option<u64>, u64, u64) {
    (seen.0.src(), seen.0.dst(), seen.0.label, seen.1)
}

fn sorted(mut batch: Vec<(Edge, u64)>) -> Vec<(Edge, u64)> {
    batch.sort_by_key(key);
    batch
}

#[test]
fn reduce_takes_the_first_and_the_middle_of_a_sorted_group() {
    assert_eq!(reduce(&vec![5, 7]), Some(35));
    assert_eq!(reduce(&vec![2, 2, 3, 3]), Some(12));
    assert_eq!(reduce(&vec![1, 2, 3, 4, 5, 6]), Some(12));
    assert_eq!(reduce(&vec![0, 9]), Some(0));
    assert_eq!(reduce(&vec![1 << 32, 1 << 32]), None);
    assert_eq!(reduce(&vec![1, 1, u64::MAX, u64::MAX]), None);
    assert_eq!(reduce(&vec![1, u64::MAX]), Some(u64::MAX));
}

#[test]
fn settle_sorts_the_group_before_it_reduces() {
    assert_eq!(settle(edge(1, 2), &vec![3, 2, 3, 2]), Ok((edge(1, 2), 12)));
    assert_eq!(settle(edge(1, 2), &vec![7, 5]), Ok((edge(1, 2), 35)));
}

#[test]
fn settle_fails_on_a_group_of_odd_size() {
    assert_eq!(
        settle(edge(1, 2), &vec![4]),
        Err(CentralityError::Unpaired { edge: edge(1, 2), flows: vec![4] })
    );
    assert_eq!(
        settle(edge(1, 2), &vec![9, 1, 4]),
        Err(CentralityError::Unpaired { edge: edge(1, 2), flows: vec![1, 4, 9] })
    );
}

#[test]
fn settle_reports_a_centrality_that_does_not_fit() {
    assert_eq!(
        settle(edge(1, 2), &vec![u64::MAX, 2]),
        Err(CentralityError::TooLarge { edge: edge(1, 2) })
    );
}

#[test]
fn exploration_does_not_depend_on_the_order_of_arrival() {
    let graph = vec![edge(1, 2), edge(1, 3), edge(2, 4), edge(3, 4), edge(4, 5)];
    let shuffled = vec![edge(4, 5), edge(3, 4), edge(1, 3), edge(2, 4), edge(1, 2)];
    let entries = vec![(entering(1), 2), (entering(3), 5)];
    let swapped = vec![(entering(3), 5), (entering(1), 2)];
    let policy = HopLimit::new(10);
    let one = group_explore(&graph, &entries, &policy, Endpoint::Src, Endpoint::Dst).unwrap();
    let other = group_explore(&shuffled, &swapped, &policy, Endpoint::Src, Endpoint::Dst).unwrap();
    assert_ne!(one, other);
    assert_eq!(sorted(one), sorted(other));
}

#[test]
fn centrality_does_not_depend_on_the_order_of_arrival() {
    let graph = vec![edge(1, 2), edge(1, 3), edge(2, 4), edge(3, 4), edge(4, 5)];
    let shuffled = vec![edge(4, 5), edge(3, 4), edge(1, 3), edge(2, 4), edge(1, 2)];
    let forward = vec![(entering(1), 2)];
    let backward = vec![(leaving(5), 3)];
    let policy = HopLimit::new(10);
    let one = graph.betweenness_centrality(&forward, &backward, &policy).unwrap();
    let other = shuffled.betweenness_centrality(&forward, &backward, &policy).unwrap();
    assert_eq!(sorted(one.clone()), sorted(other));
    assert_eq!(
        sorted(one),
        vec![(edge(1, 2), 6), (edge(1, 3), 6), (edge(2, 4), 6), (edge(3, 4), 6), (edge(4, 5), 12)]
    );
}

#[test]
fn select_by_edge_keeps_the_observations_of_one_worker() {
    let batch = vec![(edge(1, 2), 1), (edge(2, 1), 2), (edge(1, 2), 3), (entering(1), 4)];
    let peers = 4;
    assert_eq!(route(hash_code(&edge(1, 2)), peers), 3);
    assert_eq!(route(hash_code(&edge(2, 1)), peers), 0);
    assert_eq!(route(hash_code(&entering(1)), peers), 1);
    assert_eq!(select_by_edge(&batch, peers, 0), vec![(edge(2, 1), 2)]);
    assert_eq!(select_by_edge(&batch, peers, 1), vec![(entering(1), 4)]);
    assert_eq!(select_by_edge(&batch, peers, 2), vec![]);
    assert_eq!(select_by_edge(&batch, peers, 3), vec![(edge(1, 2), 1), (edge(1, 2), 3)]);
    assert_eq!(
        exchange_by_edge(&batch, peers),
        vec![
            vec![(edge(2, 1), 2)],
            vec![(entering(1), 4)],
            vec![],
            vec![(edge(1, 2), 1), (edge(1, 2), 3)],
        ]
    );
    assert_eq!(exchange_by_edge(&batch, 1), vec![batch.clone()]);
}

#[test]
fn scoring_does_not_depend_on_the_number_of_workers() {
    let batch = vec![
        (edge(1, 2), 1),
        (edge(2, 3), 2),
        (edge(3, 4), 3),
        (entering(1), 9),
        (edge(2, 3), 4),
        (edge(1, 2), 5),
        (edge(3, 4), 6),
        (edge(4, 5), 7),
        (edge(4, 5), 8),
    ];
    let alone = score(&batch).unwrap();
    assert_eq!(
        alone,
        vec![(edge(1, 2), 5), (edge(2, 3), 8), (edge(3, 4), 18), (edge(4, 5), 56)]
    );
    for peers in 1..6usize {
        let mut together = Vec::new();
        for (worker, part) in exchange_by_edge(&batch, peers).iter().enumerate() {
            let scores = score(part).unwrap();
            assert_eq!(scores, select_by_edge(&alone, peers, worker));
            together.extend(scores);
        }
        assert_eq!(sorted(together), sorted(alone.clone()));
    }
}

#[test]
fn a_structural_violation_shows_on_the_worker_of_its_edge() {
    let batch = vec![
        (edge(1, 2), 1),
        (edge(2, 1), 2),
        (edge(1, 2), 3),
        (edge(2, 1), 2),
        (edge(2, 1), 7),
    ];
    let parts = exchange_by_edge(&batch, 4);
    assert_eq!(
        score(&parts[0]),
        Err(CentralityError::Unpaired { edge: edge(2, 1), flows: vec![2, 2, 7] })
    );
    assert_eq!(score(&parts[1]), Ok(vec![]));
    assert_eq!(score(&parts[2]), Ok(vec![]));
    assert_eq!(score(&parts[3]), Ok(vec![(edge(1, 2), 3)]));
    assert_eq!(
        score(&batch),
        Err(CentralityError::Unpaired { edge: edge(2, 1), flows: vec![2, 2, 7] })
    );
}
