//! Graded graphs: a class of graphs that are well formed.
//!
//! A graph is graded in a direction of travel when its nodes can be ranked
//! so that every edge leads from one rank to the next, the entry points come
//! from outside and arrive at rank 0, and every node from which an edge
//! leaves is fed: by an entry point if its rank is 0, by an edge of the graph
//! otherwise. An exploration of such a graph reaches every such node in
//! exactly one wave, the wave of its rank, and so crosses every edge exactly
//! once. A graph that is graded along its edges for the forward entry points
//! and against its edges for the backward entry points is therefore crossed
//! equally often from both sides: it is well formed.

use crate::capacity::{Capacity, Step};
use crate::centrality::{
    all_paired, backward_run, combined, edges_of, forward_run, lemma_observed_joined,
    lemma_parity, observed, well_formed,
};
use crate::explore::{delivers, exploration, explored, frontier, matched, step_of, wave};
use crate::graph::{Edge, Endpoint};
use crate::order::lemma_matched_joined;
use crate::trail::{lemma_matched_entry, lemma_matched_holds};
use vstd::prelude::*;

verus! {

/// Whether both the near and the far end of the edge are observed.
pub open spec fn through(edge: Edge, incoming: Endpoint, outgoing: Endpoint) -> bool {
    edge.end(incoming).is_some() && edge.end(outgoing).is_some()
}

/// Whether the edge, if both its ends are observed, leads from one rank to
/// the next.
pub open spec fn climbs(
    edge: Edge,
    incoming: Endpoint,
    outgoing: Endpoint,
    rank: spec_fn(u64) -> nat,
) -> bool {
    through(edge, incoming, outgoing) ==> rank(edge.end(outgoing).unwrap()) == rank(
        edge.end(incoming).unwrap(),
    ) + 1
}

/// Whether the edge comes from outside and arrives at a node of rank 0.
pub open spec fn enters(
    edge: Edge,
    incoming: Endpoint,
    outgoing: Endpoint,
    rank: spec_fn(u64) -> nat,
) -> bool {
    &&& edge.end(incoming).is_none()
    &&& edge.end(outgoing).is_some()
    &&& rank(edge.end(outgoing).unwrap()) == 0
}

/// Whether a flow arrives at the node: from an entry point if its rank is 0,
/// over an edge of the graph otherwise.
pub open spec fn fed(
    graph: Seq<Edge>,
    entries: Seq<(Edge, nat)>,
    incoming: Endpoint,
    outgoing: Endpoint,
    rank: spec_fn(u64) -> nat,
    node: u64,
) -> bool {
    if rank(node) == 0 {
        exists|j: int|
            0 <= j < entries.len() && (#[trigger] entries[j]).0.end(outgoing) == Some(node)
    } else {
        exists|j: int|
            0 <= j < graph.len() && through(#[trigger] graph[j], incoming, outgoing)
                && graph[j].end(outgoing) == Some(node)
    }
}

/// Whether the graph is graded in the direction of travel by `rank`, up to
/// the rank `top`, and the policy lets every flow go on up to that rank.
pub open spec fn graded<P: Capacity>(
    policy: P,
    graph: Seq<Edge>,
    entries: Seq<(Edge, nat)>,
    incoming: Endpoint,
    outgoing: Endpoint,
    rank: spec_fn(u64) -> nat,
    top: nat,
) -> bool {
    &&& forall|i: int| 0 <= i < graph.len() ==> climbs(#[trigger] graph[i], incoming, outgoing, rank)
    &&& forall|i: int|
        0 <= i < entries.len() ==> enters((#[trigger] entries[i]).0, incoming, outgoing, rank)
    &&& forall|i: int|
        0 <= i < graph.len() && through(#[trigger] graph[i], incoming, outgoing) ==> {
            &&& rank(graph[i].end(incoming).unwrap()) <= top
            &&& fed(graph, entries, incoming, outgoing, rank, graph[i].end(incoming).unwrap())
        }
    &&& forall|step: Step| step.depth <= top ==> #[trigger] policy.allows(step)
}

/// How often the edge occurs in the graph.
pub open spec fn copies(graph: Seq<Edge>, edge: Edge) -> nat
    decreases graph.len(),
{
    if graph.len() == 0 {
        0
    } else {
        copies(graph.drop_last(), edge) + if graph.last() == edge {
            1nat
        } else {
            0nat
        }
    }
}

/// An edge that occurs in the graph stands at some place in it.
pub proof fn lemma_copies_some(graph: Seq<Edge>, edge: Edge) -> (i: int)
    requires
        copies(graph, edge) > 0,
    ensures
        0 <= i < graph.len(),
        graph[i] == edge,
    decreases graph.len(),
{
    if graph.last() == edge {
        graph.len() - 1
    } else {
        lemma_copies_some(graph.drop_last(), edge)
    }
}

/// The copies of an edge in two graphs, one after the other, add up.
pub proof fn lemma_copies_joined(first: Seq<Edge>, second: Seq<Edge>, edge: Edge)
    ensures
        copies(first + second, edge) == copies(first, edge) + copies(second, edge),
    decreases second.len(),
{
    if second.len() == 0 {
        assert(first + second =~= first);
    } else {
        assert((first + second).drop_last() =~= first + second.drop_last());
        lemma_copies_joined(first, second.drop_last(), edge);
    }
}

/// An edge that leaves from an observed node is none of the entry points
/// that come from outside.
pub proof fn lemma_entries_apart(
    entries: Seq<(Edge, nat)>,
    incoming: Endpoint,
    outgoing: Endpoint,
    rank: spec_fn(u64) -> nat,
    edge: Edge,
)
    requires
        forall|i: int|
            0 <= i < entries.len() ==> enters((#[trigger] entries[i]).0, incoming, outgoing, rank),
        edge.end(incoming).is_some(),
    ensures
        copies(edges_of(entries), edge) == 0,
        observed(entries, edge).len() == 0,
    decreases entries.len(),
{
    if entries.len() > 0 {
        let rest = entries.drop_last();
        assert forall|i: int| 0 <= i < rest.len() implies enters(
            (#[trigger] rest[i]).0,
            incoming,
            outgoing,
            rank,
        ) by {
            assert(rest[i] == entries[i]);
        }
        lemma_entries_apart(rest, incoming, outgoing, rank, edge);
        assert(edges_of(entries).drop_last() =~= edges_of(rest));
        assert(enters(entries[entries.len() - 1].0, incoming, outgoing, rank));
    }
}

/// How often an edge is crossed from a frontier: as often as it occurs in
/// the graph if its near end is on the frontier, and not at all otherwise.
pub proof fn lemma_crossed_from_frontier(
    graph: Seq<Edge>,
    front: Map<u64, nat>,
    incoming: Endpoint,
    edge: Edge,
)
    ensures
        observed(matched(graph, front, incoming), edge).len() == if edge.end(incoming).is_some()
            && front.contains_key(edge.end(incoming).unwrap()) {
            copies(graph, edge)
        } else {
            0
        },
    decreases graph.len(),
{
    if graph.len() > 0 {
        lemma_crossed_from_frontier(graph.drop_last(), front, incoming, edge);
        let before = matched(graph.drop_last(), front, incoming);
        let last = graph.last();
        if last.end(incoming).is_some() && front.contains_key(last.end(incoming).unwrap()) {
            let seen = (last, front[last.end(incoming).unwrap()]);
            assert(before.push(seen).drop_last() =~= before);
        }
    }
}

/// The frontier that the wave at a depth leaves holds nodes of that rank
/// only.
pub proof fn lemma_frontier_rank<P: Capacity>(
    policy: P,
    graph: Seq<Edge>,
    entries: Seq<(Edge, nat)>,
    incoming: Endpoint,
    outgoing: Endpoint,
    rank: spec_fn(u64) -> nat,
    top: nat,
    depth: nat,
    node: u64,
)
    requires
        graded(policy, graph, entries, incoming, outgoing, rank, top),
        frontier(
            policy,
            depth,
            wave(policy, graph + edges_of(entries), entries, incoming, outgoing, depth),
            incoming,
            outgoing,
        ).contains_key(node),
    ensures
        rank(node) == depth,
    decreases depth,
{
    let whole = graph + edges_of(entries);
    let here = wave(policy, whole, entries, incoming, outgoing, depth);
    let i = choose|i: int|
        0 <= i < here.len() && #[trigger] delivers(policy, depth, here[i], incoming, outgoing, node);
    if depth == 0 {
        assert(enters(entries[i].0, incoming, outgoing, rank));
    } else {
        let earlier = (depth - 1) as nat;
        let before = wave(policy, whole, entries, incoming, outgoing, earlier);
        let front = frontier(policy, earlier, before, incoming, outgoing);
        lemma_matched_entry(whole, front, incoming, i);
        let edge = here[i].0;
        let near = edge.end(incoming).unwrap();
        lemma_frontier_rank(
            policy,
            graph,
            entries,
            incoming,
            outgoing,
            rank,
            top,
            earlier,
            near,
        );
        let k = choose|k: int| 0 <= k < whole.len() && whole[k] == edge;
        if k < graph.len() {
            assert(climbs(graph[k], incoming, outgoing, rank));
        } else {
            assert(enters(entries[k - graph.len()].0, incoming, outgoing, rank));
        }
    }
}

/// The near end of every edge of the graph is on the frontier that the wave
/// at its rank leaves.
pub proof fn lemma_fed_is_reached<P: Capacity>(
    policy: P,
    graph: Seq<Edge>,
    entries: Seq<(Edge, nat)>,
    incoming: Endpoint,
    outgoing: Endpoint,
    rank: spec_fn(u64) -> nat,
    top: nat,
    i: int,
)
    requires
        graded(policy, graph, entries, incoming, outgoing, rank, top),
        0 <= i < graph.len(),
        through(graph[i], incoming, outgoing),
    ensures
        frontier(
            policy,
            rank(graph[i].end(incoming).unwrap()),
            wave(
                policy,
                graph + edges_of(entries),
                entries,
                incoming,
                outgoing,
                rank(graph[i].end(incoming).unwrap()),
            ),
            incoming,
            outgoing,
        ).contains_key(graph[i].end(incoming).unwrap()),
    decreases rank(graph[i].end(incoming).unwrap()),
{
    let whole = graph + edges_of(entries);
    let node = graph[i].end(incoming).unwrap();
    let depth = rank(node);
    let here = wave(policy, whole, entries, incoming, outgoing, depth);
    assert(fed(graph, entries, incoming, outgoing, rank, node));
    if depth == 0 {
        let j = choose|j: int|
            0 <= j < entries.len() && (#[trigger] entries[j]).0.end(outgoing) == Some(node);
        assert(policy.allows(step_of(depth, entries[j], incoming, outgoing)));
        assert(delivers(policy, depth, here[j], incoming, outgoing, node));
    } else {
        let j = choose|j: int|
            0 <= j < graph.len() && through(#[trigger] graph[j], incoming, outgoing)
                && graph[j].end(outgoing) == Some(node);
        let earlier = (depth - 1) as nat;
        assert(climbs(graph[j], incoming, outgoing, rank));
        lemma_fed_is_reached(policy, graph, entries, incoming, outgoing, rank, top, j);
        let before = wave(policy, whole, entries, incoming, outgoing, earlier);
        let front = frontier(policy, earlier, before, incoming, outgoing);
        assert(whole[j] == graph[j]);
        let k = lemma_matched_holds(whole, front, incoming, j);
        assert(policy.allows(step_of(depth, here[k], incoming, outgoing)));
        assert(delivers(policy, depth, here[k], incoming, outgoing, node));
    }
}

/// In a graded graph the waves below a depth cross an edge as often as it
/// occurs in the graph if the wave after the rank of its near end is among
/// them, and not at all otherwise.
pub proof fn lemma_crossed_by_rounds<P: Capacity>(
    policy: P,
    graph: Seq<Edge>,
    entries: Seq<(Edge, nat)>,
    incoming: Endpoint,
    outgoing: Endpoint,
    rank: spec_fn(u64) -> nat,
    top: nat,
    edge: Edge,
    rounds: nat,
)
    requires
        graded(policy, graph, entries, incoming, outgoing, rank, top),
        through(edge, incoming, outgoing),
    ensures
        observed(
            explored(policy, graph + edges_of(entries), entries, incoming, outgoing, rounds),
            edge,
        ).len() == if rank(edge.end(incoming).unwrap()) + 1 < rounds {
            copies(graph, edge)
        } else {
            0
        },
    decreases rounds,
{
    let whole = graph + edges_of(entries);
    let near = edge.end(incoming).unwrap();
    if rounds > 0 {
        let depth = (rounds - 1) as nat;
        lemma_crossed_by_rounds(
            policy,
            graph,
            entries,
            incoming,
            outgoing,
            rank,
            top,
            edge,
            depth,
        );
        let here = wave(policy, whole, entries, incoming, outgoing, depth);
        lemma_observed_joined(
            explored(policy, whole, entries, incoming, outgoing, depth),
            here,
            edge,
        );
        lemma_entries_apart(entries, incoming, outgoing, rank, edge);
        if depth > 0 {
            let earlier = (depth - 1) as nat;
            let before = wave(policy, whole, entries, incoming, outgoing, earlier);
            let front = frontier(policy, earlier, before, incoming, outgoing);
            lemma_crossed_from_frontier(whole, front, incoming, edge);
            lemma_copies_joined(graph, edges_of(entries), edge);
            if front.contains_key(near) {
                lemma_frontier_rank(
                    policy,
                    graph,
                    entries,
                    incoming,
                    outgoing,
                    rank,
                    top,
                    earlier,
                    near,
                );
            }
            if copies(graph, edge) > 0 && rank(near) == earlier {
                let i = lemma_copies_some(graph, edge);
                lemma_fed_is_reached(policy, graph, entries, incoming, outgoing, rank, top, i);
            }
        }
    }
}

/// In a graded graph the exploration crosses every edge between two
/// observed nodes exactly as often as the edge occurs in the graph.
pub proof fn lemma_graded_crossings<P: Capacity>(
    policy: P,
    graph: Seq<Edge>,
    entries: Seq<(Edge, nat)>,
    incoming: Endpoint,
    outgoing: Endpoint,
    rank: spec_fn(u64) -> nat,
    top: nat,
    edge: Edge,
)
    requires
        graded(policy, graph, entries, incoming, outgoing, rank, top),
        through(edge, incoming, outgoing),
    ensures
        observed(
            exploration(policy, graph + edges_of(entries), entries, incoming, outgoing),
            edge,
        ).len() == copies(graph, edge),
{
    lemma_crossed_by_rounds(
        policy,
        graph,
        entries,
        incoming,
        outgoing,
        rank,
        top,
        edge,
        policy.horizon() + 1,
    );
    if copies(graph, edge) > 0 {
        let i = lemma_copies_some(graph, edge);
        let depth = rank(edge.end(incoming).unwrap());
        let step = step_of(depth, (edge, 0), incoming, outgoing);
        assert(policy.allows(step));
        if depth >= policy.horizon() {
            policy.horizon_holds(step);
        }
    }
}

/// Parity for graded graphs. A graph that is graded along its edges for the
/// forward entry points, by the ranking `rise`, and against its edges for
/// the backward entry points, by the ranking `fall`, is well formed: both
/// explorations cross every internal edge exactly as often as it occurs in
/// the graph, so the group of every internal edge has even size.
pub proof fn lemma_graded_is_well_formed<P: Capacity>(
    policy: P,
    graph: Seq<Edge>,
    forward: Seq<(Edge, nat)>,
    backward: Seq<(Edge, nat)>,
    rise: spec_fn(u64) -> nat,
    fall: spec_fn(u64) -> nat,
    top: nat,
)
    requires
        graded(policy, graph, forward, Endpoint::Src, Endpoint::Dst, rise, top),
        graded(policy, graph, backward, Endpoint::Dst, Endpoint::Src, fall, top),
    ensures
        forall|edge: Edge|
            edge.internal() ==> (#[trigger] observed(
                forward_run(policy, graph, forward),
                edge,
            )).len() == copies(graph, edge),
        forall|edge: Edge|
            edge.internal() ==> (#[trigger] observed(
                backward_run(policy, graph, backward),
                edge,
            )).len() == copies(graph, edge),
        well_formed(policy, graph, forward, backward),
        all_paired(combined(policy, graph, forward, backward)),
{
    assert forall|edge: Edge| edge.internal() implies (#[trigger] observed(
        forward_run(policy, graph, forward),
        edge,
    )).len() == copies(graph, edge) by {
        lemma_graded_crossings(
            policy,
            graph,
            forward,
            Endpoint::Src,
            Endpoint::Dst,
            rise,
            top,
            edge,
        );
    }
    assert forall|edge: Edge| edge.internal() implies (#[trigger] observed(
        backward_run(policy, graph, backward),
        edge,
    )).len() == copies(graph, edge) by {
        lemma_graded_crossings(
            policy,
            graph,
            backward,
            Endpoint::Dst,
            Endpoint::Src,
            fall,
            top,
            edge,
        );
    }
    lemma_parity(policy, graph, forward, backward);
}

} // verus!
