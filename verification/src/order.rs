//! The order of arrival does not matter.
//!
//! The items of one logical time arrive in no particular order. What is
//! computed from them must not depend on it: an exploration observes the same
//! flows on the same edges, equally often, however the graph and the entry
//! points are ordered, and every edge is given the same centrality however
//! the observations are ordered. Only the order of the results follows the
//! order of arrival.

use crate::capacity::Capacity;
use crate::centrality::{
    all_fit, all_paired, backward_overflows, backward_run, centralities, centrality_of, combined,
    edges_of, forward_overflows, forward_run, lemma_observed_joined, lemma_scored_edges, observed,
    paired, scored_edges,
};
use crate::explore::{
    delivers, exploration, explored, frontier, incident, matched, overflows, overflows_at, wave,
};
use crate::graph::{Edge, Endpoint};
use crate::sorting::{ascending, lemma_ascending, lemma_ascending_unique};
use vstd::multiset::Multiset;
use vstd::prelude::*;
use vstd::seq_lib::{
    lemma_multiset_commutative, to_multiset_contains, to_multiset_len, to_multiset_remove,
};

verus! {

/// Two sequences hold the same items, each equally often.
pub open spec fn same_items<A>(first: Seq<A>, second: Seq<A>) -> bool {
    first.to_multiset() == second.to_multiset()
}

/// Where the last item of `first` stands in `second`. Without it the two
/// still hold the same items.
proof fn lemma_split_off<A>(first: Seq<A>, second: Seq<A>) -> (k: int)
    requires
        same_items(first, second),
        first.len() > 0,
    ensures
        0 <= k < second.len(),
        second[k] == first.last(),
        same_items(first.drop_last(), second.remove(k)),
        first == first.drop_last() + seq![first.last()],
        second == (second.take(k) + seq![first.last()]) + second.skip(k + 1),
        second.remove(k) == second.take(k) + second.skip(k + 1),
{
    let x = first.last();
    assert(first[first.len() - 1] == x);
    assert(first.contains(x));
    to_multiset_contains(first, x);
    to_multiset_contains(second, x);
    let k = choose|k: int| 0 <= k < second.len() && second[k] == x;
    to_multiset_remove(second, k);
    to_multiset_remove(first, first.len() - 1);
    assert(first.remove(first.len() - 1) =~= first.drop_last());
    assert(first =~= first.drop_last() + seq![x]);
    assert(second =~= (second.take(k) + seq![x]) + second.skip(k + 1));
    assert(second.remove(k) =~= second.take(k) + second.skip(k + 1));
    k
}

/// A number that is added up over a sequence does not depend on the order
/// of the sequence.
pub proof fn lemma_sum_ignores_order<A>(
    total: spec_fn(Seq<A>) -> nat,
    first: Seq<A>,
    second: Seq<A>,
)
    requires
        forall|a: Seq<A>, b: Seq<A>| #[trigger] total(a + b) == total(a) + total(b),
        same_items(first, second),
    ensures
        total(first) == total(second),
    decreases first.len(),
{
    to_multiset_len(first);
    to_multiset_len(second);
    if first.len() == 0 {
        assert(first =~= second);
    } else {
        let k = lemma_split_off(first, second);
        let x = first.last();
        let head = second.take(k);
        let tail = second.skip(k + 1);
        lemma_sum_ignores_order(total, first.drop_last(), second.remove(k));
        assert(total(first.drop_last() + seq![x]) == total(first.drop_last()) + total(seq![x]));
        assert(total((head + seq![x]) + tail) == total(head + seq![x]) + total(tail));
        assert(total(head + seq![x]) == total(head) + total(seq![x]));
        assert(total(head + tail) == total(head) + total(tail));
    }
}

/// A collection that is gathered over a sequence, piece by piece, holds the
/// same items whatever the order of the sequence.
pub proof fn lemma_bag_ignores_order<A, B>(
    bag: spec_fn(Seq<A>) -> Multiset<B>,
    first: Seq<A>,
    second: Seq<A>,
)
    requires
        forall|a: Seq<A>, b: Seq<A>| #[trigger] bag(a + b) == bag(a).add(bag(b)),
        same_items(first, second),
    ensures
        bag(first) == bag(second),
    decreases first.len(),
{
    broadcast use vstd::multiset::group_multiset_axioms;

    to_multiset_len(first);
    to_multiset_len(second);
    if first.len() == 0 {
        assert(first =~= second);
    } else {
        let k = lemma_split_off(first, second);
        let x = first.last();
        let head = second.take(k);
        let tail = second.skip(k + 1);
        lemma_bag_ignores_order(bag, first.drop_last(), second.remove(k));
        assert(bag(first.drop_last() + seq![x]) == bag(first.drop_last()).add(bag(seq![x])));
        assert(bag((head + seq![x]) + tail) == bag(head + seq![x]).add(bag(tail)));
        assert(bag(head + seq![x]) == bag(head).add(bag(seq![x])));
        assert(bag(head + tail) == bag(head).add(bag(tail)));
        assert(bag(first) =~= bag(second));
    }
}

/// The flow that two waves, one after the other, hand to a node is the sum
/// of what each hands to it.
pub proof fn lemma_incident_joined<P: Capacity>(
    policy: P,
    depth: nat,
    first: Seq<(Edge, nat)>,
    second: Seq<(Edge, nat)>,
    incoming: Endpoint,
    outgoing: Endpoint,
    node: u64,
)
    ensures
        incident(policy, depth, first + second, incoming, outgoing, node) == incident(
            policy,
            depth,
            first,
            incoming,
            outgoing,
            node,
        ) + incident(policy, depth, second, incoming, outgoing, node),
    decreases second.len(),
{
    if second.len() == 0 {
        assert(first + second =~= first);
    } else {
        assert((first + second).drop_last() =~= first + second.drop_last());
        lemma_incident_joined(
            policy,
            depth,
            first,
            second.drop_last(),
            incoming,
            outgoing,
            node,
        );
    }
}

/// The edges crossed from a frontier in two graphs, one after the other, are
/// those crossed in the first followed by those crossed in the second.
pub proof fn lemma_matched_joined(
    first: Seq<Edge>,
    second: Seq<Edge>,
    front: Map<u64, nat>,
    incoming: Endpoint,
)
    ensures
        matched(first + second, front, incoming) == matched(first, front, incoming) + matched(
            second,
            front,
            incoming,
        ),
    decreases second.len(),
{
    if second.len() == 0 {
        assert(first + second =~= first);
        assert(matched(first, front, incoming) + matched(second, front, incoming) =~= matched(
            first,
            front,
            incoming,
        ));
    } else {
        assert((first + second).drop_last() =~= first + second.drop_last());
        lemma_matched_joined(first, second.drop_last(), front, incoming);
        assert(matched(first + second, front, incoming) =~= matched(first, front, incoming)
            + matched(second, front, incoming));
    }
}

/// A wave leaves the same frontier in whatever order it is read.
pub proof fn lemma_frontier_ignores_order<P: Capacity>(
    policy: P,
    depth: nat,
    first: Seq<(Edge, nat)>,
    second: Seq<(Edge, nat)>,
    incoming: Endpoint,
    outgoing: Endpoint,
)
    requires
        same_items(first, second),
    ensures
        frontier(policy, depth, first, incoming, outgoing) == frontier(
            policy,
            depth,
            second,
            incoming,
            outgoing,
        ),
        forall|node: u64|
            incident(policy, depth, first, incoming, outgoing, node) == incident(
                policy,
                depth,
                second,
                incoming,
                outgoing,
                node,
            ),
{
    let here = frontier(policy, depth, first, incoming, outgoing);
    let there = frontier(policy, depth, second, incoming, outgoing);
    assert forall|node: u64|
        incident(policy, depth, first, incoming, outgoing, node) == incident(
            policy,
            depth,
            second,
            incoming,
            outgoing,
            node,
        ) by {
        let total = |w: Seq<(Edge, nat)>| incident(policy, depth, w, incoming, outgoing, node);
        assert forall|a: Seq<(Edge, nat)>, b: Seq<(Edge, nat)>| #[trigger]
            total(a + b) == total(a) + total(b) by {
            lemma_incident_joined(policy, depth, a, b, incoming, outgoing, node);
        }
        lemma_sum_ignores_order(total, first, second);
    }
    assert forall|node: u64| here.contains_key(node) <==> there.contains_key(node) by {
        if here.contains_key(node) {
            let i = choose|i: int|
                0 <= i < first.len() && #[trigger] delivers(
                    policy,
                    depth,
                    first[i],
                    incoming,
                    outgoing,
                    node,
                );
            assert(first.contains(first[i]));
            to_multiset_contains(first, first[i]);
            to_multiset_contains(second, first[i]);
            let j = choose|j: int| 0 <= j < second.len() && second[j] == first[i];
            assert(delivers(policy, depth, second[j], incoming, outgoing, node));
        }
        if there.contains_key(node) {
            let i = choose|i: int|
                0 <= i < second.len() && #[trigger] delivers(
                    policy,
                    depth,
                    second[i],
                    incoming,
                    outgoing,
                    node,
                );
            assert(second.contains(second[i]));
            to_multiset_contains(first, second[i]);
            to_multiset_contains(second, second[i]);
            let j = choose|j: int| 0 <= j < first.len() && first[j] == second[i];
            assert(delivers(policy, depth, first[j], incoming, outgoing, node));
        }
    }
    assert(here =~= there);
}

/// From one frontier the same edges are crossed, equally often and with the
/// same flows, in whatever order the graph is given.
pub proof fn lemma_matched_ignores_order(
    first: Seq<Edge>,
    second: Seq<Edge>,
    front: Map<u64, nat>,
    incoming: Endpoint,
)
    requires
        same_items(first, second),
    ensures
        same_items(matched(first, front, incoming), matched(second, front, incoming)),
{
    let bag = |g: Seq<Edge>| matched(g, front, incoming).to_multiset();
    assert forall|a: Seq<Edge>, b: Seq<Edge>| #[trigger] bag(a + b) == bag(a).add(bag(b)) by {
        lemma_matched_joined(a, b, front, incoming);
        lemma_multiset_commutative(matched(a, front, incoming), matched(b, front, incoming));
    }
    lemma_bag_ignores_order(bag, first, second);
}

/// Every wave holds the same observations in whatever order the graph and
/// the entry points are given.
pub proof fn lemma_wave_ignores_order<P: Capacity>(
    policy: P,
    graph: Seq<Edge>,
    other_graph: Seq<Edge>,
    entries: Seq<(Edge, nat)>,
    other_entries: Seq<(Edge, nat)>,
    incoming: Endpoint,
    outgoing: Endpoint,
    depth: nat,
)
    requires
        same_items(graph, other_graph),
        same_items(entries, other_entries),
    ensures
        same_items(
            wave(policy, graph, entries, incoming, outgoing, depth),
            wave(policy, other_graph, other_entries, incoming, outgoing, depth),
        ),
    decreases depth,
{
    if depth > 0 {
        let earlier = (depth - 1) as nat;
        lemma_wave_ignores_order(
            policy,
            graph,
            other_graph,
            entries,
            other_entries,
            incoming,
            outgoing,
            earlier,
        );
        let before = wave(policy, graph, entries, incoming, outgoing, earlier);
        let other_before = wave(policy, other_graph, other_entries, incoming, outgoing, earlier);
        lemma_frontier_ignores_order(policy, earlier, before, other_before, incoming, outgoing);
        lemma_matched_ignores_order(
            graph,
            other_graph,
            frontier(policy, earlier, before, incoming, outgoing),
            incoming,
        );
    }
}

/// The waves below a depth hold the same observations in whatever order the
/// graph and the entry points are given.
pub proof fn lemma_explored_ignores_order<P: Capacity>(
    policy: P,
    graph: Seq<Edge>,
    other_graph: Seq<Edge>,
    entries: Seq<(Edge, nat)>,
    other_entries: Seq<(Edge, nat)>,
    incoming: Endpoint,
    outgoing: Endpoint,
    rounds: nat,
)
    requires
        same_items(graph, other_graph),
        same_items(entries, other_entries),
    ensures
        same_items(
            explored(policy, graph, entries, incoming, outgoing, rounds),
            explored(policy, other_graph, other_entries, incoming, outgoing, rounds),
        ),
    decreases rounds,
{
    if rounds > 0 {
        let earlier = (rounds - 1) as nat;
        lemma_explored_ignores_order(
            policy,
            graph,
            other_graph,
            entries,
            other_entries,
            incoming,
            outgoing,
            earlier,
        );
        lemma_wave_ignores_order(
            policy,
            graph,
            other_graph,
            entries,
            other_entries,
            incoming,
            outgoing,
            earlier,
        );
        lemma_multiset_commutative(
            explored(policy, graph, entries, incoming, outgoing, earlier),
            wave(policy, graph, entries, incoming, outgoing, earlier),
        );
        lemma_multiset_commutative(
            explored(policy, other_graph, other_entries, incoming, outgoing, earlier),
            wave(policy, other_graph, other_entries, incoming, outgoing, earlier),
        );
    }
}

/// An exploration does not depend on the order of arrival. Given the same
/// edges and the same entry points in another order, it observes the same
/// flows on the same edges, each equally often, and it overflows in the one
/// order exactly if it does in the other.
pub proof fn lemma_exploration_ignores_order<P: Capacity>(
    policy: P,
    graph: Seq<Edge>,
    other_graph: Seq<Edge>,
    entries: Seq<(Edge, nat)>,
    other_entries: Seq<(Edge, nat)>,
    incoming: Endpoint,
    outgoing: Endpoint,
)
    requires
        same_items(graph, other_graph),
        same_items(entries, other_entries),
    ensures
        same_items(
            exploration(policy, graph, entries, incoming, outgoing),
            exploration(policy, other_graph, other_entries, incoming, outgoing),
        ),
        overflows(policy, graph, entries, incoming, outgoing) == overflows(
            policy,
            other_graph,
            other_entries,
            incoming,
            outgoing,
        ),
{
    lemma_explored_ignores_order(
        policy,
        graph,
        other_graph,
        entries,
        other_entries,
        incoming,
        outgoing,
        policy.horizon() + 1,
    );
    assert forall|depth: nat, node: u64| #[trigger]
        overflows_at(policy, graph, entries, incoming, outgoing, depth, node) == overflows_at(
            policy,
            other_graph,
            other_entries,
            incoming,
            outgoing,
            depth,
            node,
        ) by {
        lemma_wave_ignores_order(
            policy,
            graph,
            other_graph,
            entries,
            other_entries,
            incoming,
            outgoing,
            depth,
        );
        lemma_frontier_ignores_order(
            policy,
            depth,
            wave(policy, graph, entries, incoming, outgoing, depth),
            wave(policy, other_graph, other_entries, incoming, outgoing, depth),
            incoming,
            outgoing,
        );
    }
    if overflows(policy, graph, entries, incoming, outgoing) {
        let (depth, node) = choose|depth: nat, node: u64| #[trigger]
            overflows_at(policy, graph, entries, incoming, outgoing, depth, node);
        assert(overflows_at(
            policy,
            other_graph,
            other_entries,
            incoming,
            outgoing,
            depth,
            node,
        ));
    }
    if overflows(policy, other_graph, other_entries, incoming, outgoing) {
        let (depth, node) = choose|depth: nat, node: u64| #[trigger]
            overflows_at(policy, other_graph, other_entries, incoming, outgoing, depth, node);
        assert(overflows_at(policy, graph, entries, incoming, outgoing, depth, node));
    }
}

/// The group of an edge holds the same flows in whatever order the
/// observations are given, so its size and its centrality are the same.
pub proof fn lemma_group_ignores_order(
    flows: Seq<(Edge, nat)>,
    other_flows: Seq<(Edge, nat)>,
    edge: Edge,
)
    requires
        same_items(flows, other_flows),
    ensures
        same_items(observed(flows, edge), observed(other_flows, edge)),
        observed(flows, edge).len() == observed(other_flows, edge).len(),
        paired(flows, edge) == paired(other_flows, edge),
        ascending(observed(flows, edge)) == ascending(observed(other_flows, edge)),
        centrality_of(observed(flows, edge)) == centrality_of(observed(other_flows, edge)),
{
    let bag = |f: Seq<(Edge, nat)>| observed(f, edge).to_multiset();
    assert forall|a: Seq<(Edge, nat)>, b: Seq<(Edge, nat)>| #[trigger]
        bag(a + b) == bag(a).add(bag(b)) by {
        lemma_observed_joined(a, b, edge);
        lemma_multiset_commutative(observed(a, edge), observed(b, edge));
    }
    lemma_bag_ignores_order(bag, flows, other_flows);
    to_multiset_len(observed(flows, edge));
    to_multiset_len(observed(other_flows, edge));
    lemma_ascending(observed(flows, edge));
    let sorted = ascending(observed(flows, edge));
    assert forall|i: int, j: int| 0 <= i < j < sorted.len() implies sorted[i] <= sorted[j] by {}
    lemma_ascending_unique(observed(other_flows, edge), sorted);
}

/// Scoring does not depend on the order of arrival. Given the same
/// observations in another order, the same edges are scored, an edge has a
/// group of odd size in the one order exactly if it has in the other, and
/// every edge is given the same centrality.
pub proof fn lemma_scores_ignore_order(flows: Seq<(Edge, nat)>, other_flows: Seq<(Edge, nat)>)
    requires
        same_items(flows, other_flows),
    ensures
        scored_edges(flows).to_set() == scored_edges(other_flows).to_set(),
        all_paired(flows) == all_paired(other_flows),
        all_fit(flows) == all_fit(other_flows),
        centralities(flows).to_set() == centralities(other_flows).to_set(),
{
    lemma_scored_edges(flows);
    lemma_scored_edges(other_flows);
    assert forall|edge: Edge|
        scored_edges(flows).contains(edge) <==> scored_edges(other_flows).contains(edge) by {
        lemma_group_ignores_order(flows, other_flows, edge);
    }
    assert(scored_edges(flows).to_set() =~= scored_edges(other_flows).to_set());
    lemma_scores_carry_over(flows, other_flows);
    lemma_scores_carry_over(other_flows, flows);
    assert(centralities(flows).to_set() =~= centralities(other_flows).to_set());
}

/// What holds of the scores of `flows` holds of those of `other_flows`.
proof fn lemma_scores_carry_over(flows: Seq<(Edge, nat)>, other_flows: Seq<(Edge, nat)>)
    requires
        same_items(flows, other_flows),
        forall|edge: Edge|
            scored_edges(flows).contains(edge) <==> scored_edges(other_flows).contains(edge),
    ensures
        all_paired(flows) ==> all_paired(other_flows),
        all_fit(flows) ==> all_fit(other_flows),
        forall|score: (Edge, nat)|
            centralities(flows).contains(score) ==> centralities(other_flows).contains(score),
{
    let edges = scored_edges(flows);
    let other_edges = scored_edges(other_flows);
    assert forall|j: int| 0 <= j < other_edges.len() implies {
        &&& all_paired(flows) ==> paired(other_flows, #[trigger] other_edges[j])
        &&& all_fit(flows) ==> centrality_of(observed(other_flows, other_edges[j])) <= u64::MAX
    } by {
        let edge = other_edges[j];
        assert(other_edges.contains(edge));
        let k = choose|k: int| 0 <= k < edges.len() && edges[k] == edge;
        lemma_group_ignores_order(flows, other_flows, edge);
        if all_paired(flows) {
            assert(paired(flows, edges[k]));
        }
        if all_fit(flows) {
            assert(centrality_of(observed(flows, edges[k])) <= u64::MAX);
        }
    }
    assert forall|score: (Edge, nat)| centralities(flows).contains(score) implies centralities(
        other_flows,
    ).contains(score) by {
        let j = choose|j: int| 0 <= j < centralities(flows).len() && centralities(flows)[j] == score;
        let edge = edges[j];
        assert(edges.contains(edge));
        let k = choose|k: int| 0 <= k < other_edges.len() && other_edges[k] == edge;
        lemma_group_ignores_order(flows, other_flows, edge);
        assert(centralities(other_flows)[k] == score);
    }
}

/// The edges of a batch of entry points are the same in whatever order the
/// entry points are given.
pub proof fn lemma_entry_edges_ignore_order(
    entries: Seq<(Edge, nat)>,
    other_entries: Seq<(Edge, nat)>,
)
    requires
        same_items(entries, other_entries),
    ensures
        same_items(edges_of(entries), edges_of(other_entries)),
{
    let bag = |f: Seq<(Edge, nat)>| edges_of(f).to_multiset();
    assert forall|a: Seq<(Edge, nat)>, b: Seq<(Edge, nat)>| #[trigger]
        bag(a + b) == bag(a).add(bag(b)) by {
        assert(edges_of(a + b) =~= edges_of(a) + edges_of(b));
        lemma_multiset_commutative(edges_of(a), edges_of(b));
    }
    lemma_bag_ignores_order(bag, entries, other_entries);
}

/// The centrality does not depend on the order of arrival. Given the same
/// edges and the same entry points in another order, the two explorations
/// overflow in the one order exactly if they do in the other, and what they
/// observe together is the same, so that by `lemma_scores_ignore_order`
/// every edge is given the same centrality.
pub proof fn lemma_centrality_ignores_order<P: Capacity>(
    policy: P,
    graph: Seq<Edge>,
    other_graph: Seq<Edge>,
    forward: Seq<(Edge, nat)>,
    other_forward: Seq<(Edge, nat)>,
    backward: Seq<(Edge, nat)>,
    other_backward: Seq<(Edge, nat)>,
)
    requires
        same_items(graph, other_graph),
        same_items(forward, other_forward),
        same_items(backward, other_backward),
    ensures
        forward_overflows(policy, graph, forward) == forward_overflows(
            policy,
            other_graph,
            other_forward,
        ),
        backward_overflows(policy, graph, backward) == backward_overflows(
            policy,
            other_graph,
            other_backward,
        ),
        same_items(
            combined(policy, graph, forward, backward),
            combined(policy, other_graph, other_forward, other_backward),
        ),
        centralities(combined(policy, graph, forward, backward)).to_set() == centralities(
            combined(policy, other_graph, other_forward, other_backward),
        ).to_set(),
{
    lemma_entry_edges_ignore_order(forward, other_forward);
    lemma_entry_edges_ignore_order(backward, other_backward);
    lemma_multiset_commutative(graph, edges_of(forward));
    lemma_multiset_commutative(other_graph, edges_of(other_forward));
    lemma_multiset_commutative(graph, edges_of(backward));
    lemma_multiset_commutative(other_graph, edges_of(other_backward));
    lemma_exploration_ignores_order(
        policy,
        graph + edges_of(forward),
        other_graph + edges_of(other_forward),
        forward,
        other_forward,
        Endpoint::Src,
        Endpoint::Dst,
    );
    lemma_exploration_ignores_order(
        policy,
        graph + edges_of(backward),
        other_graph + edges_of(other_backward),
        backward,
        other_backward,
        Endpoint::Dst,
        Endpoint::Src,
    );
    lemma_multiset_commutative(
        forward_run(policy, graph, forward),
        backward_run(policy, graph, backward),
    );
    lemma_multiset_commutative(
        forward_run(policy, other_graph, other_forward),
        backward_run(policy, other_graph, other_backward),
    );
    lemma_scores_ignore_order(
        combined(policy, graph, forward, backward),
        combined(policy, other_graph, other_forward, other_backward),
    );
}

} // verus!
