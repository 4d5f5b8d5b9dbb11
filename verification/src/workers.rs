//! The number of workers does not matter.
//!
//! The observations of two explorations are sent to the worker that the
//! hash of their edge selects, and every worker scores what it is sent. The
//! group of an edge then forms on one worker, whole. So what the workers
//! compute together is what one worker would compute from all observations:
//! each worker finds the scores of the edges that go to it.

use crate::centrality::{
    all_fit, all_paired, centralities, centrality_of, lemma_scored_edges, observed, paired,
    scored_edges,
};
use crate::graph::Edge;
use crate::partition::{goes_to, routed_by_edge};
use vstd::prelude::*;

verus! {

/// The edges of a sequence that go to `worker`, in their order.
pub open spec fn edges_for(edges: Seq<Edge>, peers: nat, worker: nat) -> Seq<Edge>
    decreases edges.len(),
{
    if edges.len() == 0 {
        Seq::empty()
    } else {
        let before = edges_for(edges.drop_last(), peers, worker);
        if goes_to(edges.last(), peers, worker) {
            before.push(edges.last())
        } else {
            before
        }
    }
}

/// The group of an edge stays together: the worker that the edge selects is
/// sent the whole group, in its order, and every other worker nothing of it.
pub proof fn lemma_group_stays_together(
    flows: Seq<(Edge, nat)>,
    peers: nat,
    worker: nat,
    edge: Edge,
)
    ensures
        observed(routed_by_edge(flows, peers, worker), edge) == if goes_to(edge, peers, worker) {
            observed(flows, edge)
        } else {
            Seq::empty()
        },
    decreases flows.len(),
{
    if flows.len() > 0 {
        let part = routed_by_edge(flows, peers, worker);
        lemma_group_stays_together(flows.drop_last(), peers, worker, edge);
        if goes_to(flows.last().0, peers, worker) {
            assert(part.drop_last() =~= routed_by_edge(flows.drop_last(), peers, worker));
            assert(part.last() == flows.last());
        }
    }
}

/// Which edges are among those that go to a worker.
pub proof fn lemma_edges_for(edges: Seq<Edge>, peers: nat, worker: nat, edge: Edge)
    ensures
        edges_for(edges, peers, worker).contains(edge) <==> (edges.contains(edge) && goes_to(
            edge,
            peers,
            worker,
        )),
    decreases edges.len(),
{
    if edges.len() > 0 {
        let rest = edges.drop_last();
        let before = edges_for(rest, peers, worker);
        let all = edges_for(edges, peers, worker);
        lemma_edges_for(rest, peers, worker, edge);
        if before.contains(edge) {
            let j = choose|j: int| 0 <= j < before.len() && before[j] == edge;
            assert(all[j] == edge);
        }
        if rest.contains(edge) {
            let j = choose|j: int| 0 <= j < rest.len() && rest[j] == edge;
            assert(edges[j] == edge);
        }
        if all.contains(edge) {
            let j = choose|j: int| 0 <= j < all.len() && all[j] == edge;
            if j < before.len() {
                assert(before[j] == edge);
            } else {
                assert(edges[edges.len() - 1] == edge);
            }
        }
        if edges.contains(edge) && goes_to(edge, peers, worker) {
            let j = choose|j: int| 0 <= j < edges.len() && edges[j] == edge;
            if j < rest.len() {
                assert(rest[j] == edge);
            } else {
                assert(all[all.len() - 1] == edge);
            }
        }
    }
}

/// A worker scores the edges that go to it, in the order in which one worker
/// alone would score them.
pub proof fn lemma_scored_edges_by_worker(flows: Seq<(Edge, nat)>, peers: nat, worker: nat)
    ensures
        scored_edges(routed_by_edge(flows, peers, worker)) == edges_for(
            scored_edges(flows),
            peers,
            worker,
        ),
    decreases flows.len(),
{
    if flows.len() > 0 {
        let rest = flows.drop_last();
        let edge = flows.last().0;
        let part = routed_by_edge(flows, peers, worker);
        let before = scored_edges(rest);
        lemma_scored_edges_by_worker(rest, peers, worker);
        lemma_edges_for(before, peers, worker, edge);
        if goes_to(edge, peers, worker) {
            assert(part.drop_last() =~= routed_by_edge(rest, peers, worker));
            assert(part.last() == flows.last());
            if edge.internal() && !before.contains(edge) {
                assert(before.push(edge).drop_last() =~= before);
            }
        } else {
            if edge.internal() && !before.contains(edge) {
                assert(before.push(edge).drop_last() =~= before);
            }
        }
    }
}

/// The scores of the given edges, each with the centrality of its group
/// among `flows`.
pub open spec fn scores_over(flows: Seq<(Edge, nat)>, edges: Seq<Edge>) -> Seq<(Edge, nat)> {
    Seq::new(edges.len(), |j: int| (edges[j], centrality_of(observed(flows, edges[j]))))
}

/// Sending scores to the workers by their edge is scoring the edges that go
/// to each worker.
proof fn lemma_scores_routed(flows: Seq<(Edge, nat)>, edges: Seq<Edge>, peers: nat, worker: nat)
    ensures
        routed_by_edge(scores_over(flows, edges), peers, worker) == scores_over(
            flows,
            edges_for(edges, peers, worker),
        ),
    decreases edges.len(),
{
    let scores = scores_over(flows, edges);
    if edges.len() == 0 {
        assert(routed_by_edge(scores, peers, worker) =~= scores_over(
            flows,
            edges_for(edges, peers, worker),
        ));
    } else {
        assert(scores.drop_last() =~= scores_over(flows, edges.drop_last()));
        lemma_scores_routed(flows, edges.drop_last(), peers, worker);
        assert(routed_by_edge(scores, peers, worker) =~= scores_over(
            flows,
            edges_for(edges, peers, worker),
        ));
    }
}

/// Scoring does not depend on the number of workers. The scores that a
/// worker computes from the observations that are sent to it are the scores
/// that go to this worker among those computed from all observations, in the
/// same order.
pub proof fn lemma_scores_by_worker(flows: Seq<(Edge, nat)>, peers: nat, worker: nat)
    ensures
        centralities(routed_by_edge(flows, peers, worker)) == routed_by_edge(
            centralities(flows),
            peers,
            worker,
        ),
{
    let part = routed_by_edge(flows, peers, worker);
    let edges = scored_edges(flows);
    let mine = edges_for(edges, peers, worker);
    lemma_scored_edges_by_worker(flows, peers, worker);
    lemma_scores_routed(flows, edges, peers, worker);
    assert forall|j: int| 0 <= j < mine.len() implies centrality_of(observed(part, mine[j]))
        == centrality_of(observed(flows, mine[j])) by {
        assert(mine.contains(mine[j]));
        lemma_edges_for(edges, peers, worker, mine[j]);
        lemma_group_stays_together(flows, peers, worker, mine[j]);
    }
    assert(centralities(part) =~= scores_over(flows, mine));
    assert(centralities(flows) =~= scores_over(flows, edges));
}

/// A structural violation does not depend on the number of workers. The
/// group of every edge has even size exactly if it has on every worker, and
/// every centrality fits exactly if it does on every worker.
pub proof fn lemma_failures_by_worker(flows: Seq<(Edge, nat)>, peers: nat)
    requires
        peers > 0,
    ensures
        all_paired(flows) <==> forall|worker: nat|
            worker < peers ==> all_paired(#[trigger] routed_by_edge(flows, peers, worker)),
        all_fit(flows) <==> forall|worker: nat|
            worker < peers ==> all_fit(#[trigger] routed_by_edge(flows, peers, worker)),
{
    let edges = scored_edges(flows);
    assert forall|worker: nat| worker < peers implies {
        &&& all_paired(flows) ==> all_paired(#[trigger] routed_by_edge(flows, peers, worker))
        &&& all_fit(flows) ==> all_fit(routed_by_edge(flows, peers, worker))
    } by {
        let part = routed_by_edge(flows, peers, worker);
        let mine = scored_edges(part);
        lemma_scored_edges_by_worker(flows, peers, worker);
        assert forall|j: int| 0 <= j < mine.len() implies {
            &&& all_paired(flows) ==> paired(part, #[trigger] mine[j])
            &&& all_fit(flows) ==> centrality_of(observed(part, mine[j])) <= u64::MAX
        } by {
            assert(mine.contains(mine[j]));
            lemma_edges_for(edges, peers, worker, mine[j]);
            lemma_group_stays_together(flows, peers, worker, mine[j]);
            let k = choose|k: int| 0 <= k < edges.len() && edges[k] == mine[j];
            if all_paired(flows) {
                assert(paired(flows, edges[k]));
            }
            if all_fit(flows) {
                assert(centrality_of(observed(flows, edges[k])) <= u64::MAX);
            }
        }
    }
    assert forall|j: int| 0 <= j < edges.len() implies {
        &&& (forall|worker: nat|
            worker < peers ==> all_paired(#[trigger] routed_by_edge(flows, peers, worker)))
            ==> paired(flows, #[trigger] edges[j])
        &&& (forall|worker: nat|
            worker < peers ==> all_fit(#[trigger] routed_by_edge(flows, peers, worker)))
            ==> centrality_of(observed(flows, edges[j])) <= u64::MAX
    } by {
        let edge = edges[j];
        let worker = crate::partition::worker_of(crate::partition::edge_hash(edge) as nat, peers);
        let part = routed_by_edge(flows, peers, worker);
        let mine = scored_edges(part);
        assert(worker < peers) by (nonlinear_arith)
            requires
                peers > 0,
                worker == (crate::partition::edge_hash(edge) as nat) % peers,
        ;
        assert(edges.contains(edge));
        lemma_scored_edges_by_worker(flows, peers, worker);
        lemma_edges_for(edges, peers, worker, edge);
        lemma_group_stays_together(flows, peers, worker, edge);
        let k = choose|k: int| 0 <= k < mine.len() && mine[k] == edge;
        if all_paired(part) {
            assert(paired(part, mine[k]));
        }
        if all_fit(part) {
            assert(centrality_of(observed(part, mine[k])) <= u64::MAX);
        }
    }
}

} // verus!
