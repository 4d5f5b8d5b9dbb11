//! The bounded exploration of a graph from a batch of entry points.
//!
//! An exploration proceeds in waves. The first wave is the batch of entry
//! points: each is an edge together with the flow that crosses it. From a
//! wave the next one is formed in two steps. Every observation of the wave
//! that the policy lets go on delivers its flow to the far end of its edge;
//! the flows that arrive at one node add up, and the nodes at which a flow
//! arrives are the frontier. Then every edge of the graph whose near end is
//! on the frontier is crossed by the flow gathered there. The exploration is
//! all waves, one after the other.
//!
//! Which end of an edge is the near one and which the far one is the
//! caller's choice: with `(Src, Dst)` the exploration runs along the edges,
//! with `(Dst, Src)` against them.

use crate::capacity::{Capacity, Hop, Step};
use crate::graph::{flows_of, Edge, Endpoint};
use std::collections::HashMap;
use vstd::prelude::*;

verus! {

broadcast use vstd::std_specs::hash::group_hash_axioms;

/// The move that an observation of the wave at `depth` makes.
pub open spec fn step_of(
    depth: nat,
    seen: (Edge, nat),
    incoming: Endpoint,
    outgoing: Endpoint,
) -> Step {
    Step {
        depth,
        from: seen.0.end(incoming),
        to: seen.0.end(outgoing),
        label: seen.0.label,
        flow: seen.1,
    }
}

/// Whether an observation of the wave at `depth` hands its flow to `node`.
pub open spec fn delivers<P: Capacity>(
    policy: P,
    depth: nat,
    seen: (Edge, nat),
    incoming: Endpoint,
    outgoing: Endpoint,
    node: u64,
) -> bool {
    seen.0.end(outgoing) == Some(node) && policy.allows(step_of(depth, seen, incoming, outgoing))
}

/// Whether some observation of the wave hands its flow to `node`.
pub open spec fn reached<P: Capacity>(
    policy: P,
    depth: nat,
    wave: Seq<(Edge, nat)>,
    incoming: Endpoint,
    outgoing: Endpoint,
    node: u64,
) -> bool {
    exists|i: int|
        0 <= i < wave.len() && #[trigger] delivers(
            policy,
            depth,
            wave[i],
            incoming,
            outgoing,
            node,
        )
}

/// The sum of the flows that the wave hands to `node`.
pub open spec fn incident<P: Capacity>(
    policy: P,
    depth: nat,
    wave: Seq<(Edge, nat)>,
    incoming: Endpoint,
    outgoing: Endpoint,
    node: u64,
) -> nat
    decreases wave.len(),
{
    if wave.len() == 0 {
        0
    } else {
        let before = incident(policy, depth, wave.drop_last(), incoming, outgoing, node);
        if delivers(policy, depth, wave.last(), incoming, outgoing, node) {
            before + wave.last().1
        } else {
            before
        }
    }
}

/// The frontier that a wave leaves behind: the nodes that it reaches, each
/// with the flow gathered there.
pub open spec fn frontier<P: Capacity>(
    policy: P,
    depth: nat,
    wave: Seq<(Edge, nat)>,
    incoming: Endpoint,
    outgoing: Endpoint,
) -> Map<u64, nat> {
    Map::new(
        |node: u64| reached(policy, depth, wave, incoming, outgoing, node),
        |node: u64| incident(policy, depth, wave, incoming, outgoing, node),
    )
}

/// The edges of the graph whose near end is on the frontier, in the order of
/// the graph, each with the flow gathered at that end.
pub open spec fn matched(graph: Seq<Edge>, front: Map<u64, nat>, incoming: Endpoint) -> Seq<
    (Edge, nat),
>
    decreases graph.len(),
{
    if graph.len() == 0 {
        Seq::empty()
    } else {
        let before = matched(graph.drop_last(), front, incoming);
        let edge = graph.last();
        match edge.end(incoming) {
            Some(node) => if front.contains_key(node) {
                before.push((edge, front[node]))
            } else {
                before
            },
            None => before,
        }
    }
}

/// The wave at `depth`. The wave at depth 0 is the batch of entry points.
pub open spec fn wave<P: Capacity>(
    policy: P,
    graph: Seq<Edge>,
    entries: Seq<(Edge, nat)>,
    incoming: Endpoint,
    outgoing: Endpoint,
    depth: nat,
) -> Seq<(Edge, nat)>
    decreases depth,
{
    if depth == 0 {
        entries
    } else {
        let before = wave(policy, graph, entries, incoming, outgoing, (depth - 1) as nat);
        matched(graph, frontier(policy, (depth - 1) as nat, before, incoming, outgoing), incoming)
    }
}

/// The waves at the depths below `rounds`, one after the other.
pub open spec fn explored<P: Capacity>(
    policy: P,
    graph: Seq<Edge>,
    entries: Seq<(Edge, nat)>,
    incoming: Endpoint,
    outgoing: Endpoint,
    rounds: nat,
) -> Seq<(Edge, nat)>
    decreases rounds,
{
    if rounds == 0 {
        Seq::empty()
    } else {
        explored(policy, graph, entries, incoming, outgoing, (rounds - 1) as nat) + wave(
            policy,
            graph,
            entries,
            incoming,
            outgoing,
            (rounds - 1) as nat,
        )
    }
}

/// Everything the exploration observes: the waves up to the horizon of the
/// policy. The waves past the horizon are empty.
pub open spec fn exploration<P: Capacity>(
    policy: P,
    graph: Seq<Edge>,
    entries: Seq<(Edge, nat)>,
    incoming: Endpoint,
    outgoing: Endpoint,
) -> Seq<(Edge, nat)> {
    explored(policy, graph, entries, incoming, outgoing, policy.horizon() + 1)
}

/// Whether the flow gathered at `node` after the wave at `depth` is too
/// large for a `u64`.
pub open spec fn overflows_at<P: Capacity>(
    policy: P,
    graph: Seq<Edge>,
    entries: Seq<(Edge, nat)>,
    incoming: Endpoint,
    outgoing: Endpoint,
    depth: nat,
    node: u64,
) -> bool {
    incident(
        policy,
        depth,
        wave(policy, graph, entries, incoming, outgoing, depth),
        incoming,
        outgoing,
        node,
    ) > u64::MAX
}

/// Whether somewhere in the exploration a node gathers more flow than a
/// `u64` holds.
pub open spec fn overflows<P: Capacity>(
    policy: P,
    graph: Seq<Edge>,
    entries: Seq<(Edge, nat)>,
    incoming: Endpoint,
    outgoing: Endpoint,
) -> bool {
    exists|depth: nat, node: u64| #[trigger]
        overflows_at(policy, graph, entries, incoming, outgoing, depth, node)
}

/// Whether `node` is the first node at which the flow gathered from the wave
/// gets too large for a `u64`, as the wave is read from its start: some
/// observation delivers to `node` and takes the sum there past the bound,
/// while the observations before it leave every sum within the bound.
pub open spec fn overflows_first_at<P: Capacity>(
    policy: P,
    depth: nat,
    wave: Seq<(Edge, nat)>,
    incoming: Endpoint,
    outgoing: Endpoint,
    node: u64,
) -> bool {
    exists|read: int|
        {
            &&& 0 <= read < wave.len()
            &&& #[trigger] delivers(policy, depth, wave[read], incoming, outgoing, node)
            &&& incident(policy, depth, wave.take(read + 1), incoming, outgoing, node) > u64::MAX
            &&& forall|other: u64|
                incident(policy, depth, wave.take(read), incoming, outgoing, other) <= u64::MAX
        }
}

/// A node gathered more flow than a `u64` holds.
#[derive(Clone, Copy, Debug, PartialEq, Eq)]
pub struct FlowOverflow {
    /// The depth of the wave that delivered the flow.
    pub depth: usize,
    /// The node at which it arrived.
    pub node: u64,
}

/// Whether `place` is where the exploration first gathers more flow than a
/// `u64` holds: no wave before the one at `place.depth` does so at any node,
/// and in that wave `place.node` is the first node at which it happens.
pub open spec fn first_overflow<P: Capacity>(
    policy: P,
    graph: Seq<Edge>,
    entries: Seq<(Edge, nat)>,
    incoming: Endpoint,
    outgoing: Endpoint,
    place: FlowOverflow,
) -> bool {
    &&& forall|depth: nat, node: u64|
        depth < place.depth ==> !#[trigger] overflows_at(
            policy,
            graph,
            entries,
            incoming,
            outgoing,
            depth,
            node,
        )
    &&& overflows_first_at(
        policy,
        place.depth as nat,
        wave(policy, graph, entries, incoming, outgoing, place.depth as nat),
        incoming,
        outgoing,
        place.node,
    )
    &&& overflows_at(
        policy,
        graph,
        entries,
        incoming,
        outgoing,
        place.depth as nat,
        place.node,
    )
}

/// A frontier in `u64` flows, read as numbers without a bound.
pub open spec fn amounts(front: Map<u64, u64>) -> Map<u64, nat> {
    Map::new(|node: u64| front.contains_key(node), |node: u64| front[node] as nat)
}

/// A node that no observation reaches gathers no flow.
pub proof fn lemma_unreached_gathers_nothing<P: Capacity>(
    policy: P,
    depth: nat,
    wave: Seq<(Edge, nat)>,
    incoming: Endpoint,
    outgoing: Endpoint,
    node: u64,
)
    requires
        !reached(policy, depth, wave, incoming, outgoing, node),
    ensures
        incident(policy, depth, wave, incoming, outgoing, node) == 0,
    decreases wave.len(),
{
    if wave.len() > 0 {
        let rest = wave.drop_last();
        assert(!delivers(policy, depth, wave[wave.len() - 1], incoming, outgoing, node));
        assert forall|i: int| 0 <= i < rest.len() implies !#[trigger] delivers(
            policy,
            depth,
            rest[i],
            incoming,
            outgoing,
            node,
        ) by {
            assert(rest[i] == wave[i]);
        }
        lemma_unreached_gathers_nothing(policy, depth, rest, incoming, outgoing, node);
    }
}

/// The flow gathered at a node only grows as the wave is read.
pub proof fn lemma_incident_grows<P: Capacity>(
    policy: P,
    depth: nat,
    wave: Seq<(Edge, nat)>,
    incoming: Endpoint,
    outgoing: Endpoint,
    node: u64,
    read: int,
)
    requires
        0 <= read <= wave.len(),
    ensures
        incident(policy, depth, wave.take(read), incoming, outgoing, node) <= incident(
            policy,
            depth,
            wave,
            incoming,
            outgoing,
            node,
        ),
    decreases wave.len(),
{
    if read == wave.len() {
        assert(wave.take(read) =~= wave);
    } else {
        assert(wave.drop_last().take(read) =~= wave.take(read));
        lemma_incident_grows(policy, depth, wave.drop_last(), incoming, outgoing, node, read);
    }
}

/// Reading one more observation of a wave: what it adds to the nodes reached
/// and to the flow gathered.
proof fn lemma_read_one<P: Capacity>(
    policy: P,
    depth: nat,
    wave: Seq<(Edge, nat)>,
    incoming: Endpoint,
    outgoing: Endpoint,
    read: int,
)
    requires
        0 <= read < wave.len(),
    ensures
        forall|node: u64|
            #[trigger] reached(policy, depth, wave.take(read + 1), incoming, outgoing, node) <==> (reached(
                policy,
                depth,
                wave.take(read),
                incoming,
                outgoing,
                node,
            ) || delivers(policy, depth, wave[read], incoming, outgoing, node)),
        forall|node: u64|
            #[trigger] incident(policy, depth, wave.take(read + 1), incoming, outgoing, node) == incident(
                policy,
                depth,
                wave.take(read),
                incoming,
                outgoing,
                node,
            ) + (if delivers(policy, depth, wave[read], incoming, outgoing, node) {
                wave[read].1
            } else {
                0
            }),
{
    let shorter = wave.take(read);
    let longer = wave.take(read + 1);
    assert(longer.drop_last() =~= shorter);
    assert(longer.last() == wave[read]);
    assert forall|node: u64|
        #[trigger] reached(policy, depth, longer, incoming, outgoing, node) <==> (reached(
            policy,
            depth,
            shorter,
            incoming,
            outgoing,
            node,
        ) || delivers(policy, depth, wave[read], incoming, outgoing, node)) by {
        if reached(policy, depth, longer, incoming, outgoing, node) {
            let i = choose|i: int|
                0 <= i < longer.len() && #[trigger] delivers(
                    policy,
                    depth,
                    longer[i],
                    incoming,
                    outgoing,
                    node,
                );
            if i < read {
                assert(shorter[i] == longer[i]);
            }
        }
        if reached(policy, depth, shorter, incoming, outgoing, node) {
            let i = choose|i: int|
                0 <= i < shorter.len() && #[trigger] delivers(
                    policy,
                    depth,
                    shorter[i],
                    incoming,
                    outgoing,
                    node,
                );
            assert(longer[i] == shorter[i]);
        }
        if delivers(policy, depth, wave[read], incoming, outgoing, node) {
            assert(longer[read] == wave[read]);
        }
    }
}

/// From an empty frontier no edge is crossed.
pub proof fn lemma_empty_frontier_matches_nothing(
    graph: Seq<Edge>,
    front: Map<u64, nat>,
    incoming: Endpoint,
)
    requires
        forall|node: u64| !front.contains_key(node),
    ensures
        matched(graph, front, incoming).len() == 0,
    decreases graph.len(),
{
    if graph.len() > 0 {
        lemma_empty_frontier_matches_nothing(graph.drop_last(), front, incoming);
    }
}

/// A wave that is not empty was let through by the policy: its depth lies
/// within the horizon.
pub proof fn lemma_wave_within_horizon<P: Capacity>(
    policy: P,
    graph: Seq<Edge>,
    entries: Seq<(Edge, nat)>,
    incoming: Endpoint,
    outgoing: Endpoint,
    depth: nat,
)
    requires
        wave(policy, graph, entries, incoming, outgoing, depth).len() > 0,
    ensures
        depth <= policy.horizon(),
{
    if depth > 0 {
        let before = wave(policy, graph, entries, incoming, outgoing, (depth - 1) as nat);
        let front = frontier(policy, (depth - 1) as nat, before, incoming, outgoing);
        if forall|node: u64| !front.contains_key(node) {
            lemma_empty_frontier_matches_nothing(graph, front, incoming);
        }
        let node = choose|node: u64| front.contains_key(node);
        let i = choose|i: int|
            0 <= i < before.len() && #[trigger] delivers(
                policy,
                (depth - 1) as nat,
                before[i],
                incoming,
                outgoing,
                node,
            );
        if depth > policy.horizon() {
            policy.horizon_holds(step_of((depth - 1) as nat, before[i], incoming, outgoing));
        }
    }
}

/// After an empty wave every wave is empty.
pub proof fn lemma_empty_wave_stays<P: Capacity>(
    policy: P,
    graph: Seq<Edge>,
    entries: Seq<(Edge, nat)>,
    incoming: Endpoint,
    outgoing: Endpoint,
    depth: nat,
    later: nat,
)
    requires
        wave(policy, graph, entries, incoming, outgoing, depth).len() == 0,
        depth <= later,
    ensures
        wave(policy, graph, entries, incoming, outgoing, later).len() == 0,
    decreases later,
{
    if later > depth {
        lemma_empty_wave_stays(
            policy,
            graph,
            entries,
            incoming,
            outgoing,
            depth,
            (later - 1) as nat,
        );
        let before = wave(policy, graph, entries, incoming, outgoing, (later - 1) as nat);
        let front = frontier(policy, (later - 1) as nat, before, incoming, outgoing);
        lemma_empty_frontier_matches_nothing(graph, front, incoming);
    }
}

/// After an empty wave nothing more is observed.
pub proof fn lemma_explored_settles<P: Capacity>(
    policy: P,
    graph: Seq<Edge>,
    entries: Seq<(Edge, nat)>,
    incoming: Endpoint,
    outgoing: Endpoint,
    depth: nat,
    rounds: nat,
)
    requires
        wave(policy, graph, entries, incoming, outgoing, depth).len() == 0,
        depth <= rounds,
    ensures
        explored(policy, graph, entries, incoming, outgoing, rounds) == explored(
            policy,
            graph,
            entries,
            incoming,
            outgoing,
            depth,
        ),
    decreases rounds,
{
    if rounds > depth {
        lemma_explored_settles(
            policy,
            graph,
            entries,
            incoming,
            outgoing,
            depth,
            (rounds - 1) as nat,
        );
        lemma_empty_wave_stays(
            policy,
            graph,
            entries,
            incoming,
            outgoing,
            depth,
            (rounds - 1) as nat,
        );
        assert(explored(policy, graph, entries, incoming, outgoing, rounds) =~= explored(
            policy,
            graph,
            entries,
            incoming,
            outgoing,
            depth,
        ));
    }
}

/// Gathers the frontier that a wave leaves behind: for every node that the
/// wave reaches, the sum of the flows delivered there. Fails at the first
/// node whose sum does not fit.
pub fn gather<P: Capacity>(
    policy: &P,
    depth: usize,
    wave: &Vec<(Edge, u64)>,
    incoming: Endpoint,
    outgoing: Endpoint,
) -> (front: Result<HashMap<u64, u64>, FlowOverflow>)
    ensures
        match front {
            Ok(map) => {
                &&& amounts(map@) == frontier(
                    *policy,
                    depth as nat,
                    flows_of(wave@),
                    incoming,
                    outgoing,
                )
                &&& forall|node: u64|
                    incident(
                        *policy,
                        depth as nat,
                        flows_of(wave@),
                        incoming,
                        outgoing,
                        node,
                    ) <= u64::MAX
            },
            Err(overflow) => {
                &&& overflow.depth == depth
                &&& incident(
                    *policy,
                    depth as nat,
                    flows_of(wave@),
                    incoming,
                    outgoing,
                    overflow.node,
                ) > u64::MAX
                &&& overflows_first_at(
                    *policy,
                    depth as nat,
                    flows_of(wave@),
                    incoming,
                    outgoing,
                    overflow.node,
                )
            },
        },
{
    let ghost whole = flows_of(wave@);
    let mut map: HashMap<u64, u64> = HashMap::new();
    let mut i: usize = 0;
    while i < wave.len()
        invariant
            i <= wave.len(),
            whole == flows_of(wave@),
            forall|node: u64|
                #[trigger] map@.contains_key(node) <==> reached(
                    *policy,
                    depth as nat,
                    whole.take(i as int),
                    incoming,
                    outgoing,
                    node,
                ),
            forall|node: u64|
                #[trigger] map@.contains_key(node) ==> map@[node] as nat == incident(
                    *policy,
                    depth as nat,
                    whole.take(i as int),
                    incoming,
                    outgoing,
                    node,
                ),
        decreases wave.len() - i,
    {
        let seen = wave[i];
        let edge = seen.0;
        let flow = seen.1;
        let hop = Hop {
            depth,
            from: edge.endpoint(incoming),
            to: edge.endpoint(outgoing),
            label: edge.label,
            flow,
        };
        proof {
            assert(hop@ == step_of(depth as nat, whole[i as int], incoming, outgoing));
            lemma_read_one(*policy, depth as nat, whole, incoming, outgoing, i as int);
        }
        match hop.to {
            Some(node) => {
                if policy.permits(&hop) {
                    let held: u64 = match map.get(&node) {
                        Some(flow_there) => *flow_there,
                        None => 0,
                    };
                    proof {
                        if !map@.contains_key(node) {
                            lemma_unreached_gathers_nothing(
                                *policy,
                                depth as nat,
                                whole.take(i as int),
                                incoming,
                                outgoing,
                                node,
                            );
                        }
                    }
                    match held.checked_add(flow) {
                        Some(sum) => {
                            map.insert(node, sum);
                        },
                        None => {
                            proof {
                                lemma_incident_grows(
                                    *policy,
                                    depth as nat,
                                    whole,
                                    incoming,
                                    outgoing,
                                    node,
                                    i + 1,
                                );
                                assert forall|other: u64|
                                    incident(
                                        *policy,
                                        depth as nat,
                                        whole.take(i as int),
                                        incoming,
                                        outgoing,
                                        other,
                                    ) <= u64::MAX by {
                                    if !map@.contains_key(other) {
                                        lemma_unreached_gathers_nothing(
                                            *policy,
                                            depth as nat,
                                            whole.take(i as int),
                                            incoming,
                                            outgoing,
                                            other,
                                        );
                                    }
                                }
                                assert(delivers(
                                    *policy,
                                    depth as nat,
                                    whole[i as int],
                                    incoming,
                                    outgoing,
                                    node,
                                ));
                            }
                            return Err(FlowOverflow { depth, node });
                        },
                    }
                }
            },
            None => {},
        }
        i += 1;
    }
    proof {
        assert(whole.take(i as int) =~= whole);
        assert forall|node: u64|
            incident(*policy, depth as nat, whole, incoming, outgoing, node) <= u64::MAX by {
            if !map@.contains_key(node) {
                lemma_unreached_gathers_nothing(
                    *policy,
                    depth as nat,
                    whole,
                    incoming,
                    outgoing,
                    node,
                );
            }
        }
        assert(amounts(map@) =~= frontier(*policy, depth as nat, whole, incoming, outgoing));
    }
    Ok(map)
}

/// Crosses every edge of the graph whose near end is on the frontier, with
/// the flow gathered at that end.
pub fn expand(graph: &Vec<Edge>, front: &HashMap<u64, u64>, incoming: Endpoint) -> (next: Vec<
    (Edge, u64),
>)
    ensures
        flows_of(next@) == matched(graph@, amounts(front@), incoming),
{
    let mut next: Vec<(Edge, u64)> = Vec::new();
    let mut i: usize = 0;
    while i < graph.len()
        invariant
            i <= graph.len(),
            flows_of(next@) == matched(graph@.take(i as int), amounts(front@), incoming),
        decreases graph.len() - i,
    {
        let edge = graph[i];
        proof {
            assert(graph@.take(i + 1).drop_last() =~= graph@.take(i as int));
            assert(graph@.take(i + 1).last() == edge);
        }
        let ghost before = next@;
        match edge.endpoint(incoming) {
            Some(node) => {
                match front.get(&node) {
                    Some(flow) => {
                        next.push((edge, *flow));
                        assert(flows_of(next@) =~= flows_of(before).push((edge, *flow as nat)));
                    },
                    None => {},
                }
            },
            None => {},
        }
        i += 1;
    }
    assert(graph@.take(i as int) =~= graph@);
    next
}

/// Forms the wave that follows `wave`.
pub fn advance<P: Capacity>(
    policy: &P,
    graph: &Vec<Edge>,
    depth: usize,
    wave: &Vec<(Edge, u64)>,
    incoming: Endpoint,
    outgoing: Endpoint,
) -> (next: Result<Vec<(Edge, u64)>, FlowOverflow>)
    ensures
        match next {
            Ok(next_wave) => {
                &&& flows_of(next_wave@) == matched(
                    graph@,
                    frontier(*policy, depth as nat, flows_of(wave@), incoming, outgoing),
                    incoming,
                )
                &&& forall|node: u64|
                    incident(
                        *policy,
                        depth as nat,
                        flows_of(wave@),
                        incoming,
                        outgoing,
                        node,
                    ) <= u64::MAX
            },
            Err(overflow) => {
                &&& overflow.depth == depth
                &&& incident(
                    *policy,
                    depth as nat,
                    flows_of(wave@),
                    incoming,
                    outgoing,
                    overflow.node,
                ) > u64::MAX
                &&& overflows_first_at(
                    *policy,
                    depth as nat,
                    flows_of(wave@),
                    incoming,
                    outgoing,
                    overflow.node,
                )
            },
        },
{
    match gather(policy, depth, wave, incoming, outgoing) {
        Ok(front) => Ok(expand(graph, &front, incoming)),
        Err(overflow) => Err(overflow),
    }
}

/// Adds the observations of `more` to the end of `seen`.
fn record(seen: &mut Vec<(Edge, u64)>, more: &Vec<(Edge, u64)>)
    ensures
        final(seen)@ == old(seen)@ + more@,
{
    let mut i: usize = 0;
    while i < more.len()
        invariant
            i <= more.len(),
            seen@ == old(seen)@ + more@.take(i as int),
        decreases more.len() - i,
    {
        seen.push(more[i]);
        i += 1;
        assert(seen@ =~= old(seen)@ + more@.take(i as int));
    }
    assert(more@.take(i as int) =~= more@);
}

/// Explores the graph from the entry points, under the policy, taking
/// `incoming` as the near end of every edge and `outgoing` as the far end.
///
/// Returns every observation `(edge, flow)` of the exploration, wave after
/// wave, unless a node gathers more flow than a `u64` holds: then it returns
/// the first place where that happens.
pub fn group_explore<P: Capacity>(
    graph: &Vec<Edge>,
    entries: &Vec<(Edge, u64)>,
    policy: &P,
    incoming: Endpoint,
    outgoing: Endpoint,
) -> (result: Result<Vec<(Edge, u64)>, FlowOverflow>)
    ensures
        match result {
            Ok(seen) => {
                &&& !overflows(*policy, graph@, flows_of(entries@), incoming, outgoing)
                &&& flows_of(seen@) == exploration(
                    *policy,
                    graph@,
                    flows_of(entries@),
                    incoming,
                    outgoing,
                )
            },
            Err(place) => first_overflow(
                *policy,
                graph@,
                flows_of(entries@),
                incoming,
                outgoing,
                place,
            ),
        },
{
    let ghost start = flows_of(entries@);
    let mut seen: Vec<(Edge, u64)> = Vec::new();
    record(&mut seen, entries);
    let mut depth: usize = 0;
    let mut current = match advance(policy, graph, 0, entries, incoming, outgoing) {
        Ok(next) => next,
        Err(overflow) => {
            return Err(overflow);
        },
    };
    proof {
        policy.horizon_fits();
        reveal_with_fuel(explored, 2);
        assert(flows_of(seen@) =~= explored(*policy, graph@, start, incoming, outgoing, 1));
    }
    while current.len() > 0
        invariant
            start == flows_of(entries@),
            depth <= policy.horizon(),
            policy.horizon() <= usize::MAX,
            flows_of(current@) == wave(
                *policy,
                graph@,
                start,
                incoming,
                outgoing,
                (depth + 1) as nat,
            ),
            flows_of(seen@) == explored(
                *policy,
                graph@,
                start,
                incoming,
                outgoing,
                (depth + 1) as nat,
            ),
            forall|d: nat, node: u64|
                d <= depth ==> !#[trigger] overflows_at(
                    *policy,
                    graph@,
                    start,
                    incoming,
                    outgoing,
                    d,
                    node,
                ),
        decreases policy.horizon() - depth,
    {
        proof {
            lemma_wave_within_horizon(
                *policy,
                graph@,
                start,
                incoming,
                outgoing,
                (depth + 1) as nat,
            );
        }
        let ghost before = seen@;
        record(&mut seen, &current);
        depth += 1;
        proof {
            assert(flows_of(seen@) =~= flows_of(before) + flows_of(current@));
        }
        match advance(policy, graph, depth, &current, incoming, outgoing) {
            Ok(next) => {
                current = next;
            },
            Err(overflow) => {
                return Err(overflow);
            },
        }
    }
    proof {
        let last = (depth + 1) as nat;
        lemma_explored_settles(
            *policy,
            graph@,
            start,
            incoming,
            outgoing,
            last,
            policy.horizon() + 1,
        );
        assert forall|d: nat, node: u64|
            !#[trigger] overflows_at(*policy, graph@, start, incoming, outgoing, d, node) by {
            if d > depth {
                lemma_empty_wave_stays(*policy, graph@, start, incoming, outgoing, last, d);
            }
        }
    }
    Ok(seen)
}

} // verus!
