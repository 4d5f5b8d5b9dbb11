//! Trails: how far an observed edge lies from the entry points.

use crate::capacity::{Capacity, HopLimit};
use crate::explore::{
    delivers, exploration, explored, frontier, matched, reached, wave,
};
use crate::graph::{Edge, Endpoint};
use vstd::prelude::*;

verus! {

/// A trail is a walk in the direction of the exploration: it starts with the
/// edge of an entry point and goes on over edges of the graph, each of which
/// leaves from the node at which the one before arrives.
pub open spec fn is_trail(
    graph: Seq<Edge>,
    entries: Seq<(Edge, nat)>,
    incoming: Endpoint,
    outgoing: Endpoint,
    trail: Seq<Edge>,
) -> bool {
    &&& trail.len() > 0
    &&& exists|i: int| 0 <= i < entries.len() && (#[trigger] entries[i]).0 == trail[0]
    &&& forall|j: int|
        0 < j < trail.len() ==> {
            &&& graph.contains(#[trigger] trail[j])
            &&& trail[j].end(incoming).is_some()
            &&& trail[j - 1].end(outgoing) == trail[j].end(incoming)
        }
}

/// The number of edges that a trail crosses after its entry edge.
pub open spec fn hops(trail: Seq<Edge>) -> nat {
    (trail.len() - 1) as nat
}

/// Every edge crossed from a frontier is an edge of the graph whose near end
/// is on the frontier, observed with the flow gathered there.
pub proof fn lemma_matched_entry(
    graph: Seq<Edge>,
    front: Map<u64, nat>,
    incoming: Endpoint,
    i: int,
)
    requires
        0 <= i < matched(graph, front, incoming).len(),
    ensures
        graph.contains(matched(graph, front, incoming)[i].0),
        matched(graph, front, incoming)[i].0.end(incoming).is_some(),
        front.contains_key(matched(graph, front, incoming)[i].0.end(incoming).unwrap()),
        matched(graph, front, incoming)[i].1 == front[matched(graph, front, incoming)[i].0.end(
            incoming,
        ).unwrap()],
    decreases graph.len(),
{
    if graph.len() > 0 {
        let before = matched(graph.drop_last(), front, incoming);
        if i < before.len() {
            lemma_matched_entry(graph.drop_last(), front, incoming, i);
            let edge = before[i].0;
            let k = choose|k: int| 0 <= k < graph.drop_last().len() && graph.drop_last()[k] == edge;
            assert(graph[k] == edge);
        } else {
            assert(graph[graph.len() - 1] == graph.last());
        }
    }
}

/// An edge of the graph whose near end is on the frontier is crossed.
pub proof fn lemma_matched_holds(
    graph: Seq<Edge>,
    front: Map<u64, nat>,
    incoming: Endpoint,
    i: int,
) -> (k: int)
    requires
        0 <= i < graph.len(),
        graph[i].end(incoming).is_some(),
        front.contains_key(graph[i].end(incoming).unwrap()),
    ensures
        0 <= k < matched(graph, front, incoming).len(),
        matched(graph, front, incoming)[k].0 == graph[i],
    decreases graph.len(),
{
    if i == graph.len() - 1 {
        matched(graph.drop_last(), front, incoming).len() as int
    } else {
        let k = lemma_matched_holds(graph.drop_last(), front, incoming, i);
        assert(graph.drop_last()[i] == graph[i]);
        k
    }
}

/// The trail that leads to an observation of the wave at `depth`: it makes
/// `depth` hops.
pub proof fn lemma_wave_trail<P: Capacity>(
    policy: P,
    graph: Seq<Edge>,
    entries: Seq<(Edge, nat)>,
    incoming: Endpoint,
    outgoing: Endpoint,
    depth: nat,
    i: int,
) -> (trail: Seq<Edge>)
    requires
        0 <= i < wave(policy, graph, entries, incoming, outgoing, depth).len(),
    ensures
        is_trail(graph, entries, incoming, outgoing, trail),
        hops(trail) == depth,
        trail.last() == wave(policy, graph, entries, incoming, outgoing, depth)[i].0,
    decreases depth,
{
    if depth == 0 {
        let trail = seq![entries[i].0];
        assert(entries[i].0 == trail[0]);
        trail
    } else {
        let earlier = (depth - 1) as nat;
        let before = wave(policy, graph, entries, incoming, outgoing, earlier);
        let front = frontier(policy, earlier, before, incoming, outgoing);
        lemma_matched_entry(graph, front, incoming, i);
        let edge = matched(graph, front, incoming)[i].0;
        let node = edge.end(incoming).unwrap();
        assert(reached(policy, earlier, before, incoming, outgoing, node));
        let k = choose|k: int|
            0 <= k < before.len() && #[trigger] delivers(
                policy,
                earlier,
                before[k],
                incoming,
                outgoing,
                node,
            );
        let shorter = lemma_wave_trail(policy, graph, entries, incoming, outgoing, earlier, k);
        let trail = shorter.push(edge);
        let w = choose|w: int| 0 <= w < entries.len() && (#[trigger] entries[w]).0 == shorter[0];
        assert(entries[w].0 == trail[0]);
        assert forall|j: int| 0 < j < trail.len() implies {
            &&& graph.contains(#[trigger] trail[j])
            &&& trail[j].end(incoming).is_some()
            &&& trail[j - 1].end(outgoing) == trail[j].end(incoming)
        } by {
            if j < shorter.len() {
                assert(trail[j] == shorter[j]);
                assert(trail[j - 1] == shorter[j - 1]);
            } else {
                assert(trail[j - 1] == shorter.last());
            }
        }
        trail
    }
}

/// Every observation of an exploration belongs to one of its waves.
pub proof fn lemma_explored_in_wave<P: Capacity>(
    policy: P,
    graph: Seq<Edge>,
    entries: Seq<(Edge, nat)>,
    incoming: Endpoint,
    outgoing: Endpoint,
    rounds: nat,
    i: int,
) -> (place: (nat, int))
    requires
        0 <= i < explored(policy, graph, entries, incoming, outgoing, rounds).len(),
    ensures
        place.0 < rounds,
        0 <= place.1 < wave(policy, graph, entries, incoming, outgoing, place.0).len(),
        explored(policy, graph, entries, incoming, outgoing, rounds)[i] == wave(
            policy,
            graph,
            entries,
            incoming,
            outgoing,
            place.0,
        )[place.1],
    decreases rounds,
{
    let earlier = (rounds - 1) as nat;
    let before = explored(policy, graph, entries, incoming, outgoing, earlier);
    if i < before.len() {
        lemma_explored_in_wave(policy, graph, entries, incoming, outgoing, earlier, i)
    } else {
        (earlier, i - before.len())
    }
}

/// The capacity bound. Every edge that an exploration observes ends a trail
/// that starts with an entry point and makes no more hops than the horizon
/// of the policy.
pub proof fn lemma_observed_within_horizon<P: Capacity>(
    policy: P,
    graph: Seq<Edge>,
    entries: Seq<(Edge, nat)>,
    incoming: Endpoint,
    outgoing: Endpoint,
    i: int,
)
    requires
        0 <= i < exploration(policy, graph, entries, incoming, outgoing).len(),
    ensures
        exists|trail: Seq<Edge>|
            {
                &&& #[trigger] is_trail(graph, entries, incoming, outgoing, trail)
                &&& hops(trail) <= policy.horizon()
                &&& trail.last() == exploration(policy, graph, entries, incoming, outgoing)[i].0
            },
{
    let place = lemma_explored_in_wave(
        policy,
        graph,
        entries,
        incoming,
        outgoing,
        policy.horizon() + 1,
        i,
    );
    let trail = lemma_wave_trail(policy, graph, entries, incoming, outgoing, place.0, place.1);
    assert(is_trail(graph, entries, incoming, outgoing, trail));
}

/// The hop limit is respected. Under a limit of `k` hops every edge that an
/// exploration observes ends a trail of at most `k` hops that starts with an
/// entry point: none lies further from the entry points than the limit.
pub proof fn lemma_hop_limit_respected(
    limit: HopLimit,
    graph: Seq<Edge>,
    entries: Seq<(Edge, nat)>,
    incoming: Endpoint,
    outgoing: Endpoint,
    i: int,
)
    requires
        0 <= i < exploration(limit, graph, entries, incoming, outgoing).len(),
    ensures
        exists|trail: Seq<Edge>|
            {
                &&& #[trigger] is_trail(graph, entries, incoming, outgoing, trail)
                &&& hops(trail) <= limit.hops
                &&& trail.last() == exploration(limit, graph, entries, incoming, outgoing)[i].0
            },
{
    lemma_observed_within_horizon(limit, graph, entries, incoming, outgoing, i);
}

/// Every observation of a wave is among the observations of the rounds that
/// include the wave.
pub proof fn lemma_wave_in_explored<P: Capacity>(
    policy: P,
    graph: Seq<Edge>,
    entries: Seq<(Edge, nat)>,
    incoming: Endpoint,
    outgoing: Endpoint,
    depth: nat,
    rounds: nat,
    i: int,
) -> (k: int)
    requires
        depth < rounds,
        0 <= i < wave(policy, graph, entries, incoming, outgoing, depth).len(),
    ensures
        0 <= k < explored(policy, graph, entries, incoming, outgoing, rounds).len(),
        explored(policy, graph, entries, incoming, outgoing, rounds)[k] == wave(
            policy,
            graph,
            entries,
            incoming,
            outgoing,
            depth,
        )[i],
    decreases rounds,
{
    let earlier = (rounds - 1) as nat;
    if depth == earlier {
        explored(policy, graph, entries, incoming, outgoing, earlier).len() + i
    } else {
        lemma_wave_in_explored(policy, graph, entries, incoming, outgoing, depth, earlier, i)
    }
}

/// Under a hop limit, the last edge of a trail within the limit is observed
/// in the wave at the depth that is the number of hops of the trail.
pub proof fn lemma_trail_is_walked(
    limit: HopLimit,
    graph: Seq<Edge>,
    entries: Seq<(Edge, nat)>,
    incoming: Endpoint,
    outgoing: Endpoint,
    trail: Seq<Edge>,
) -> (i: int)
    requires
        is_trail(graph, entries, incoming, outgoing, trail),
        hops(trail) <= limit.hops,
    ensures
        0 <= i < wave(limit, graph, entries, incoming, outgoing, hops(trail)).len(),
        wave(limit, graph, entries, incoming, outgoing, hops(trail))[i].0 == trail.last(),
    decreases trail.len(),
{
    if trail.len() == 1 {
        let w = choose|w: int| 0 <= w < entries.len() && (#[trigger] entries[w]).0 == trail[0];
        w
    } else {
        let shorter = trail.drop_last();
        let depth = hops(shorter);
        let w = choose|w: int| 0 <= w < entries.len() && (#[trigger] entries[w]).0 == trail[0];
        assert(entries[w].0 == shorter[0]);
        assert forall|j: int| 0 < j < shorter.len() implies {
            &&& graph.contains(#[trigger] shorter[j])
            &&& shorter[j].end(incoming).is_some()
            &&& shorter[j - 1].end(outgoing) == shorter[j].end(incoming)
        } by {
            assert(shorter[j] == trail[j]);
            assert(shorter[j - 1] == trail[j - 1]);
        }
        let k = lemma_trail_is_walked(limit, graph, entries, incoming, outgoing, shorter);
        let before = wave(limit, graph, entries, incoming, outgoing, depth);
        let front = frontier(limit, depth, before, incoming, outgoing);
        let last = trail[trail.len() - 1];
        assert(graph.contains(last));
        assert(trail[trail.len() - 2] == shorter.last());
        let node = last.end(incoming).unwrap();
        assert(delivers(limit, depth, before[k], incoming, outgoing, node));
        let g = choose|g: int| 0 <= g < graph.len() && graph[g] == last;
        lemma_matched_holds(graph, front, incoming, g)
    }
}

/// The hop limit is reached. Under a limit of `k` hops the last edge of
/// every trail of at most `k` hops is observed. With
/// `lemma_hop_limit_respected`: the edges that an exploration observes are
/// the edges that lie within `k` hops of an entry point, and no others.
pub proof fn lemma_hop_limit_reached(
    limit: HopLimit,
    graph: Seq<Edge>,
    entries: Seq<(Edge, nat)>,
    incoming: Endpoint,
    outgoing: Endpoint,
    trail: Seq<Edge>,
)
    requires
        is_trail(graph, entries, incoming, outgoing, trail),
        hops(trail) <= limit.hops,
    ensures
        exists|i: int|
            0 <= i < exploration(limit, graph, entries, incoming, outgoing).len() && (
            #[trigger] exploration(limit, graph, entries, incoming, outgoing)[i]).0
                == trail.last(),
{
    let i = lemma_trail_is_walked(limit, graph, entries, incoming, outgoing, trail);
    let k = lemma_wave_in_explored(
        limit,
        graph,
        entries,
        incoming,
        outgoing,
        hops(trail),
        limit.horizon() + 1,
        i,
    );
    assert(exploration(limit, graph, entries, incoming, outgoing)[k].0 == trail.last());
}

} // verus!
