//! Direction symmetry: exploring a graph one way is exploring its mirror
//! image the other way.

use crate::capacity::Capacity;
use crate::explore::{
    delivers, exploration, explored, frontier, incident, matched, step_of, wave,
};
use crate::graph::{mirrored_edges, mirrored_flows, Edge, Endpoint};
use vstd::prelude::*;

verus! {

/// Mirroring a wave and swapping the two ends leaves every move as it was.
pub proof fn lemma_mirror_keeps_steps(
    depth: nat,
    seen: (Edge, nat),
    incoming: Endpoint,
    outgoing: Endpoint,
)
    ensures
        step_of(depth, (seen.0.mirrored(), seen.1), incoming.flipped(), outgoing.flipped())
            == step_of(depth, seen, incoming, outgoing),
{
}

/// A mirrored wave gathers at every node the flow that the wave itself
/// gathers there.
pub proof fn lemma_mirror_keeps_incident<P: Capacity>(
    policy: P,
    depth: nat,
    wave: Seq<(Edge, nat)>,
    incoming: Endpoint,
    outgoing: Endpoint,
    node: u64,
)
    ensures
        incident(
            policy,
            depth,
            mirrored_flows(wave),
            incoming.flipped(),
            outgoing.flipped(),
            node,
        ) == incident(policy, depth, wave, incoming, outgoing, node),
    decreases wave.len(),
{
    if wave.len() > 0 {
        assert(mirrored_flows(wave).drop_last() =~= mirrored_flows(wave.drop_last()));
        lemma_mirror_keeps_incident(policy, depth, wave.drop_last(), incoming, outgoing, node);
        lemma_mirror_keeps_steps(depth, wave.last(), incoming, outgoing);
    }
}

/// A mirrored wave leaves the frontier that the wave itself leaves.
pub proof fn lemma_mirror_keeps_frontier<P: Capacity>(
    policy: P,
    depth: nat,
    wave: Seq<(Edge, nat)>,
    incoming: Endpoint,
    outgoing: Endpoint,
)
    ensures
        frontier(policy, depth, mirrored_flows(wave), incoming.flipped(), outgoing.flipped())
            == frontier(policy, depth, wave, incoming, outgoing),
{
    let turned = mirrored_flows(wave);
    let there = frontier(policy, depth, turned, incoming.flipped(), outgoing.flipped());
    let here = frontier(policy, depth, wave, incoming, outgoing);
    assert forall|node: u64| there.contains_key(node) <==> here.contains_key(node) by {
        if there.contains_key(node) {
            let i = choose|i: int|
                0 <= i < turned.len() && #[trigger] delivers(
                    policy,
                    depth,
                    turned[i],
                    incoming.flipped(),
                    outgoing.flipped(),
                    node,
                );
            lemma_mirror_keeps_steps(depth, wave[i], incoming, outgoing);
            assert(delivers(policy, depth, wave[i], incoming, outgoing, node));
        }
        if here.contains_key(node) {
            let i = choose|i: int|
                0 <= i < wave.len() && #[trigger] delivers(
                    policy,
                    depth,
                    wave[i],
                    incoming,
                    outgoing,
                    node,
                );
            lemma_mirror_keeps_steps(depth, wave[i], incoming, outgoing);
            assert(delivers(
                policy,
                depth,
                turned[i],
                incoming.flipped(),
                outgoing.flipped(),
                node,
            ));
        }
    }
    assert forall|node: u64| here.contains_key(node) implies there[node] == here[node] by {
        lemma_mirror_keeps_incident(policy, depth, wave, incoming, outgoing, node);
    }
    assert(there =~= here);
}

/// From one frontier, the mirrored graph is crossed at the mirror images of
/// the edges at which the graph is crossed.
pub proof fn lemma_mirror_matched(graph: Seq<Edge>, front: Map<u64, nat>, incoming: Endpoint)
    ensures
        matched(mirrored_edges(graph), front, incoming.flipped()) == mirrored_flows(
            matched(graph, front, incoming),
        ),
    decreases graph.len(),
{
    if graph.len() == 0 {
        assert(matched(mirrored_edges(graph), front, incoming.flipped()) =~= mirrored_flows(
            matched(graph, front, incoming),
        ));
    } else {
        assert(mirrored_edges(graph).drop_last() =~= mirrored_edges(graph.drop_last()));
        lemma_mirror_matched(graph.drop_last(), front, incoming);
        assert(matched(mirrored_edges(graph), front, incoming.flipped()) =~= mirrored_flows(
            matched(graph, front, incoming),
        ));
    }
}

/// Every wave over the mirrored graph is the mirror image of the wave at
/// the same depth over the graph.
pub proof fn lemma_mirror_wave<P: Capacity>(
    policy: P,
    graph: Seq<Edge>,
    entries: Seq<(Edge, nat)>,
    incoming: Endpoint,
    outgoing: Endpoint,
    depth: nat,
)
    ensures
        wave(
            policy,
            mirrored_edges(graph),
            mirrored_flows(entries),
            incoming.flipped(),
            outgoing.flipped(),
            depth,
        ) == mirrored_flows(wave(policy, graph, entries, incoming, outgoing, depth)),
    decreases depth,
{
    if depth > 0 {
        let earlier = (depth - 1) as nat;
        lemma_mirror_wave(policy, graph, entries, incoming, outgoing, earlier);
        let before = wave(policy, graph, entries, incoming, outgoing, earlier);
        lemma_mirror_keeps_frontier(policy, earlier, before, incoming, outgoing);
        lemma_mirror_matched(
            graph,
            frontier(policy, earlier, before, incoming, outgoing),
            incoming,
        );
    }
}

/// Direction symmetry, round by round.
pub proof fn lemma_mirror_explored<P: Capacity>(
    policy: P,
    graph: Seq<Edge>,
    entries: Seq<(Edge, nat)>,
    incoming: Endpoint,
    outgoing: Endpoint,
    rounds: nat,
)
    ensures
        explored(
            policy,
            mirrored_edges(graph),
            mirrored_flows(entries),
            incoming.flipped(),
            outgoing.flipped(),
            rounds,
        ) == mirrored_flows(explored(policy, graph, entries, incoming, outgoing, rounds)),
    decreases rounds,
{
    let there = explored(
        policy,
        mirrored_edges(graph),
        mirrored_flows(entries),
        incoming.flipped(),
        outgoing.flipped(),
        rounds,
    );
    let here = explored(policy, graph, entries, incoming, outgoing, rounds);
    if rounds > 0 {
        let earlier = (rounds - 1) as nat;
        lemma_mirror_explored(policy, graph, entries, incoming, outgoing, earlier);
        lemma_mirror_wave(policy, graph, entries, incoming, outgoing, earlier);
    }
    assert(there =~= mirrored_flows(here));
}

/// Direction symmetry. Exploring the mirror image of a graph, from the
/// mirror images of the entry points and with the two ends swapped, observes
/// the mirror image of what the exploration of the graph itself observes:
/// the same flows in the same order, each on the reversed edge.
///
/// In particular the exploration along the edges of a graph is the mirror
/// image of the exploration against the edges of the reversed graph.
pub proof fn lemma_direction_symmetry<P: Capacity>(
    policy: P,
    graph: Seq<Edge>,
    entries: Seq<(Edge, nat)>,
    incoming: Endpoint,
    outgoing: Endpoint,
)
    ensures
        exploration(
            policy,
            mirrored_edges(graph),
            mirrored_flows(entries),
            incoming.flipped(),
            outgoing.flipped(),
        ) == mirrored_flows(exploration(policy, graph, entries, incoming, outgoing)),
{
    lemma_mirror_explored(policy, graph, entries, incoming, outgoing, policy.horizon() + 1);
}

} // verus!
