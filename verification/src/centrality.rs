//! Edge betweenness centrality from two bounded explorations.
//!
//! The graph is explored along its edges from the forward entry points and
//! against its edges from the backward entry points. What the two
//! explorations observe is put together. The observations of one internal
//! edge form its group. An edge that lies on `n` paths from the one side and
//! on `n` from the other has a group of `2n` flows, and its centrality is the
//! smallest flow of the group times the one in the middle of the ascending
//! group, times `n`. A group of odd size shows that one exploration crossed
//! an edge that the other did not: the graph is not connected as it has to
//! be, and no centrality is computed at all.
//!
//! The size of a group says nothing about the side that a flow came from. A
//! group of even size whose flows all came from one side is scored like any
//! other.

use crate::capacity::Capacity;
use crate::explore::{exploration, first_overflow, group_explore, overflows, FlowOverflow};
use crate::flow::{checked_scale_reduce, scaled_product};
use crate::graph::{flows_of, Edge, Endpoint};
use crate::sorting::{amounts_of, ascending, lemma_ascending, lemma_ascending_unique, sort_flows};
use vstd::prelude::*;

verus! {

/// The flows observed on `edge`, in the order in which they were observed.
pub open spec fn observed(flows: Seq<(Edge, nat)>, edge: Edge) -> Seq<nat>
    decreases flows.len(),
{
    if flows.len() == 0 {
        Seq::empty()
    } else {
        let before = observed(flows.drop_last(), edge);
        if flows.last().0 == edge {
            before.push(flows.last().1)
        } else {
            before
        }
    }
}

/// The internal edges among the observations, each once, in the order in
/// which they were first observed.
pub open spec fn scored_edges(flows: Seq<(Edge, nat)>) -> Seq<Edge>
    decreases flows.len(),
{
    if flows.len() == 0 {
        Seq::empty()
    } else {
        let before = scored_edges(flows.drop_last());
        let edge = flows.last().0;
        if edge.internal() && !before.contains(edge) {
            before.push(edge)
        } else {
            before
        }
    }
}

/// Whether the group of `edge` has even size.
pub open spec fn paired(flows: Seq<(Edge, nat)>, edge: Edge) -> bool {
    observed(flows, edge).len() % 2 == 0
}

/// The centrality that a group of flows stands for: with the group in
/// ascending order and `n` half its size, the first flow times the flow at
/// place `n`, times `n`.
pub open spec fn centrality_of(group: Seq<nat>) -> nat {
    let sorted = ascending(group);
    let half = sorted.len() / 2;
    scaled_product(sorted[0], sorted[half as int], half)
}

/// The centrality of every internal edge among the observations.
pub open spec fn centralities(flows: Seq<(Edge, nat)>) -> Seq<(Edge, nat)> {
    let edges = scored_edges(flows);
    Seq::new(edges.len(), |j: int| (edges[j], centrality_of(observed(flows, edges[j]))))
}

/// Whether `edge` is the first internal edge whose group has odd size.
pub open spec fn first_unpaired(flows: Seq<(Edge, nat)>, edge: Edge) -> bool {
    let edges = scored_edges(flows);
    exists|j: int|
        {
            &&& 0 <= j < edges.len()
            &&& #[trigger] edges[j] == edge
            &&& !paired(flows, edge)
            &&& forall|k: int| 0 <= k < j ==> paired(flows, #[trigger] edges[k])
        }
}

/// Whether the group of every internal edge has even size.
pub open spec fn all_paired(flows: Seq<(Edge, nat)>) -> bool {
    let edges = scored_edges(flows);
    forall|j: int| 0 <= j < edges.len() ==> paired(flows, #[trigger] edges[j])
}

/// Whether `edge` is the first internal edge whose centrality is too large
/// for a `u64`.
pub open spec fn first_too_large(flows: Seq<(Edge, nat)>, edge: Edge) -> bool {
    let edges = scored_edges(flows);
    exists|j: int|
        {
            &&& 0 <= j < edges.len()
            &&& #[trigger] edges[j] == edge
            &&& centrality_of(observed(flows, edge)) > u64::MAX
            &&& forall|k: int|
                0 <= k < j ==> centrality_of(observed(flows, #[trigger] edges[k])) <= u64::MAX
        }
}

/// Whether every centrality fits in a `u64`.
pub open spec fn all_fit(flows: Seq<(Edge, nat)>) -> bool {
    let edges = scored_edges(flows);
    forall|j: int|
        0 <= j < edges.len() ==> centrality_of(observed(flows, #[trigger] edges[j])) <= u64::MAX
}

/// Why no centrality was computed.
#[derive(Debug, PartialEq, Eq)]
pub enum CentralityError {
    /// The forward exploration gathered more flow at a node than a `u64`
    /// holds.
    ForwardOverflow(FlowOverflow),
    /// The backward exploration gathered more flow at a node than a `u64`
    /// holds.
    BackwardOverflow(FlowOverflow),
    /// The structural violation: the group of an internal edge has odd size.
    /// `flows` is the group in ascending order.
    Unpaired { edge: Edge, flows: Vec<u64> },
    /// The centrality of an edge is too large for a `u64`.
    TooLarge { edge: Edge },
}

/// What `score` owes on the observations `flows`: the centralities if every
/// group has even size and every centrality fits; else the first edge with a
/// group of odd size, together with that group; else the first edge whose
/// centrality does not fit.
pub open spec fn scored(
    flows: Seq<(Edge, nat)>,
    result: Result<Vec<(Edge, u64)>, CentralityError>,
) -> bool {
    match result {
        Ok(scores) => {
            &&& all_paired(flows)
            &&& all_fit(flows)
            &&& flows_of(scores@) == centralities(flows)
        },
        Err(CentralityError::Unpaired { edge, flows: group }) => {
            &&& first_unpaired(flows, edge)
            &&& amounts_of(group@) == ascending(observed(flows, edge))
        },
        Err(CentralityError::TooLarge { edge }) => {
            &&& all_paired(flows)
            &&& first_too_large(flows, edge)
        },
        Err(_) => false,
    }
}

/// The observations put together: first those of the one exploration, then
/// those of the other. The group of an edge is its group in the first
/// followed by its group in the second.
pub proof fn lemma_observed_joined(first: Seq<(Edge, nat)>, second: Seq<(Edge, nat)>, edge: Edge)
    ensures
        observed(first + second, edge) == observed(first, edge) + observed(second, edge),
    decreases second.len(),
{
    if second.len() == 0 {
        assert(first + second =~= first);
        assert(observed(first, edge) + observed(second, edge) =~= observed(first, edge));
    } else {
        assert((first + second).drop_last() =~= first + second.drop_last());
        lemma_observed_joined(first, second.drop_last(), edge);
        assert(observed(first + second, edge) =~= observed(first, edge) + observed(
            second,
            edge,
        ));
    }
}

/// The group of an edge is empty exactly if the edge was never observed.
pub proof fn lemma_observed_some(flows: Seq<(Edge, nat)>, edge: Edge)
    ensures
        observed(flows, edge).len() > 0 <==> exists|i: int|
            0 <= i < flows.len() && (#[trigger] flows[i]).0 == edge,
    decreases flows.len(),
{
    if flows.len() > 0 {
        let rest = flows.drop_last();
        lemma_observed_some(rest, edge);
        if exists|i: int| 0 <= i < rest.len() && (#[trigger] rest[i]).0 == edge {
            let i = choose|i: int| 0 <= i < rest.len() && (#[trigger] rest[i]).0 == edge;
            assert(flows[i].0 == edge);
        }
        if flows.last().0 == edge {
            assert(flows[flows.len() - 1].0 == edge);
        }
        if exists|i: int| 0 <= i < flows.len() && (#[trigger] flows[i]).0 == edge {
            let i = choose|i: int| 0 <= i < flows.len() && (#[trigger] flows[i]).0 == edge;
            if i < rest.len() {
                assert(rest[i].0 == edge);
            }
        }
    }
}

/// Which edges are scored: the internal edges that were observed, and each
/// of them once. An edge that lacks an end is never among them.
pub proof fn lemma_scored_edges(flows: Seq<(Edge, nat)>)
    ensures
        forall|edge: Edge| #[trigger]
            scored_edges(flows).contains(edge) <==> (edge.internal() && observed(
                flows,
                edge,
            ).len() > 0),
        forall|j: int, k: int|
            0 <= j < k < scored_edges(flows).len() ==> scored_edges(flows)[j] != scored_edges(
                flows,
            )[k],
    decreases flows.len(),
{
    if flows.len() > 0 {
        let rest = flows.drop_last();
        let before = scored_edges(rest);
        let last = flows.last().0;
        lemma_scored_edges(rest);
        assert forall|edge: Edge| #[trigger]
            scored_edges(flows).contains(edge) <==> (edge.internal() && observed(
                flows,
                edge,
            ).len() > 0) by {
            if before.contains(edge) {
                let j = choose|j: int| 0 <= j < before.len() && before[j] == edge;
                if last.internal() && !before.contains(last) {
                    assert(before.push(last)[j] == edge);
                }
            }
            if scored_edges(flows).contains(edge) {
                let j = choose|j: int|
                    0 <= j < scored_edges(flows).len() && scored_edges(flows)[j] == edge;
                if j < before.len() {
                    assert(before[j] == edge);
                }
            }
            if edge == last && last.internal() && !before.contains(last) {
                assert(before.push(last)[before.len() as int] == last);
            }
        }
    }
}

/// Boundary exclusion. No edge that lacks an end is given a centrality, and
/// no edge is given two.
pub proof fn lemma_boundary_excluded(flows: Seq<(Edge, nat)>)
    ensures
        forall|j: int|
            0 <= j < centralities(flows).len() ==> (#[trigger] centralities(
                flows,
            )[j]).0.internal(),
        forall|j: int, k: int|
            0 <= j < k < centralities(flows).len() ==> centralities(flows)[j].0 != centralities(
                flows,
            )[k].0,
{
    lemma_scored_edges(flows);
    assert forall|j: int| 0 <= j < centralities(flows).len() implies (#[trigger] centralities(
        flows,
    )[j]).0.internal() by {
        assert(scored_edges(flows).contains(scored_edges(flows)[j]));
    }
}

/// What `settle` owes for the group of one edge: the structural violation,
/// with the group in ascending order, if the size of the group is odd; else
/// the failure for a centrality that is too large for a `u64`; else the edge
/// with its centrality.
pub open spec fn settled(
    edge: Edge,
    group: Seq<nat>,
    result: Result<(Edge, u64), CentralityError>,
) -> bool {
    if group.len() % 2 == 1 {
        &&& result matches Err(CentralityError::Unpaired { edge: found, flows })
        &&& found == edge
        &&& amounts_of(flows@) == ascending(group)
    } else if centrality_of(group) > u64::MAX {
        &&& result matches Err(CentralityError::TooLarge { edge: found })
        &&& found == edge
    } else {
        &&& result matches Ok(score)
        &&& score.0 == edge
        &&& score.1 == centrality_of(group)
    }
}

/// The centrality of a group that is given in ascending order: with `n` half
/// its size, the first flow times the flow at place `n`, times `n`; or `None`
/// where that is too large for a `u64`.
pub fn reduce(sorted: &Vec<u64>) -> (centrality: Option<u64>)
    requires
        sorted@.len() >= 2,
        forall|i: int, j: int| 0 <= i <= j < sorted@.len() ==> sorted@[i] <= sorted@[j],
    ensures
        centrality.is_some() <==> centrality_of(amounts_of(sorted@)) <= u64::MAX,
        centrality.is_some() ==> centrality.unwrap() == centrality_of(amounts_of(sorted@)),
{
    let half = sorted.len() / 2;
    let least = sorted[0];
    let middle = sorted[half];
    proof {
        let listed = amounts_of(sorted@);
        assert forall|i: int, j: int| 0 <= i < j < listed.len() implies listed[i] <= listed[j] by {
            assert(sorted@[i] <= sorted@[j]);
        }
        lemma_ascending_unique(listed, listed);
        assert(listed[0] == least);
        assert(listed[half as int] == middle);
        assert(least * middle <= least * middle * half) by (nonlinear_arith)
            requires
                half >= 1,
        ;
    }
    checked_scale_reduce(least, middle, half)
}

/// Turns the group of one edge into the centrality of the edge. The group
/// holds the flows that were observed on the edge, in any order.
pub fn settle(edge: Edge, group: &Vec<u64>) -> (result: Result<(Edge, u64), CentralityError>)
    requires
        group@.len() > 0,
    ensures
        settled(edge, amounts_of(group@), result),
{
    let sorted = sort_flows(group);
    proof {
        lemma_ascending(amounts_of(group@));
        lemma_ascending_unique(amounts_of(sorted@), amounts_of(sorted@));
    }
    if sorted.len() % 2 == 1 {
        return Err(CentralityError::Unpaired { edge, flows: sorted });
    }
    match reduce(&sorted) {
        Some(centrality) => Ok((edge, centrality)),
        None => Err(CentralityError::TooLarge { edge }),
    }
}

/// The internal edges of a batch of observations, each once, in the order in
/// which they first occur.
pub fn distinct_internal(batch: &Vec<(Edge, u64)>) -> (edges: Vec<Edge>)
    ensures
        edges@ == scored_edges(flows_of(batch@)),
{
    let ghost flows = flows_of(batch@);
    let mut edges: Vec<Edge> = Vec::new();
    let mut i: usize = 0;
    while i < batch.len()
        invariant
            i <= batch.len(),
            flows == flows_of(batch@),
            edges@ == scored_edges(flows.take(i as int)),
        decreases batch.len() - i,
    {
        let edge = batch[i].0;
        proof {
            assert(flows.take(i + 1).drop_last() =~= flows.take(i as int));
            assert(flows.take(i + 1).last() == flows[i as int]);
        }
        if edge.is_internal() {
            let mut known = false;
            let mut j: usize = 0;
            while j < edges.len()
                invariant
                    j <= edges.len(),
                    known <==> exists|k: int| 0 <= k < j && edges@[k] == edge,
                decreases edges.len() - j,
            {
                if edges[j] == edge {
                    known = true;
                }
                j += 1;
            }
            if !known {
                edges.push(edge);
            }
        }
        i += 1;
    }
    assert(flows.take(i as int) =~= flows);
    edges
}

/// The flows of a batch that were observed on `edge`, in their order.
pub fn observe(batch: &Vec<(Edge, u64)>, edge: &Edge) -> (group: Vec<u64>)
    ensures
        amounts_of(group@) == observed(flows_of(batch@), *edge),
{
    let ghost flows = flows_of(batch@);
    let mut group: Vec<u64> = Vec::new();
    let mut i: usize = 0;
    assert(amounts_of(group@) =~= observed(flows.take(0), *edge));
    while i < batch.len()
        invariant
            i <= batch.len(),
            flows == flows_of(batch@),
            amounts_of(group@) == observed(flows.take(i as int), *edge),
        decreases batch.len() - i,
    {
        let seen = batch[i];
        proof {
            assert(flows.take(i + 1).drop_last() =~= flows.take(i as int));
            assert(flows.take(i + 1).last() == flows[i as int]);
        }
        if seen.0 == *edge {
            let ghost before = group@;
            group.push(seen.1);
            assert(amounts_of(group@) =~= amounts_of(before).push(seen.1 as nat));
        }
        i += 1;
    }
    assert(flows.take(i as int) =~= flows);
    group
}

/// Turns what two explorations observed into the centrality of every
/// internal edge.
///
/// The observations of boundary edges are left out. Those of every other
/// edge are grouped and sorted. If the group of some edge has odd size the
/// result is the structural violation for the first such edge. Else every
/// edge is given the centrality of its group.
pub fn score(batch: &Vec<(Edge, u64)>) -> (result: Result<Vec<(Edge, u64)>, CentralityError>)
    ensures
        scored(flows_of(batch@), result),
        result is Ok ==> forall|j: int|
            0 <= j < result->Ok_0@.len() ==> (#[trigger] result->Ok_0@[j]).0.internal(),
{
    let ghost flows = flows_of(batch@);
    let edges = distinct_internal(batch);
    let mut groups: Vec<Vec<u64>> = Vec::new();
    let mut j: usize = 0;
    while j < edges.len()
        invariant
            j <= edges.len(),
            flows == flows_of(batch@),
            edges@ == scored_edges(flows),
            groups@.len() == j,
            forall|k: int|
                0 <= k < j ==> amounts_of((#[trigger] groups@[k])@) == ascending(
                    observed(flows, edges@[k]),
                ),
            forall|k: int| 0 <= k < j ==> paired(flows, #[trigger] edges@[k]),
        decreases edges.len() - j,
    {
        let edge = edges[j];
        let group = observe(batch, &edge);
        let sorted = sort_flows(&group);
        proof {
            lemma_ascending(observed(flows, edge));
        }
        if sorted.len() % 2 == 1 {
            return Err(CentralityError::Unpaired { edge, flows: sorted });
        }
        groups.push(sorted);
        j += 1;
    }
    let mut scores: Vec<(Edge, u64)> = Vec::new();
    let mut j: usize = 0;
    while j < edges.len()
        invariant
            j <= edges.len(),
            flows == flows_of(batch@),
            edges@ == scored_edges(flows),
            groups@.len() == edges@.len(),
            all_paired(flows),
            forall|k: int|
                0 <= k < edges@.len() ==> amounts_of((#[trigger] groups@[k])@) == ascending(
                    observed(flows, edges@[k]),
                ),
            scores@.len() == j,
            forall|k: int|
                0 <= k < j ==> (#[trigger] scores@[k]) == (
                    edges@[k],
                    centrality_of(observed(flows, edges@[k])) as u64,
                ),
            forall|k: int|
                0 <= k < j ==> centrality_of(observed(flows, #[trigger] edges@[k])) <= u64::MAX,
        decreases edges.len() - j,
    {
        let edge = edges[j];
        let group = &groups[j];
        let size = group.len();
        proof {
            lemma_scored_edges(flows);
            assert(edges@.contains(edges@[j as int]));
            lemma_ascending(observed(flows, edge));
            assert(paired(flows, edges@[j as int]));
            assert(amounts_of(groups@[j as int]@) == ascending(observed(flows, edges@[j as int])));
            assert(size >= 2);
        }
        proof {
            let sorted = ascending(observed(flows, edge));
            assert forall|a: int, b: int| 0 <= a <= b < group@.len() implies group@[a]
                <= group@[b] by {
                assert(sorted[a] == amounts_of(group@)[a]);
                assert(sorted[b] == amounts_of(group@)[b]);
            }
            lemma_ascending_unique(sorted, sorted);
        }
        match reduce(group) {
            Some(centrality) => {
                scores.push((edge, centrality));
            },
            None => {
                return Err(CentralityError::TooLarge { edge });
            },
        }
        j += 1;
    }
    proof {
        assert(flows_of(scores@) =~= centralities(flows));
        lemma_boundary_excluded(flows);
        assert forall|k: int| 0 <= k < scores@.len() implies (#[trigger] scores@[k]).0.internal() by {
            assert(centralities(flows)[k].0 == scores@[k].0);
        }
    }
    Ok(scores)
}

/// The edges of a batch of entry points.
pub open spec fn edges_of(entries: Seq<(Edge, nat)>) -> Seq<Edge> {
    Seq::new(entries.len(), |i: int| entries[i].0)
}

/// What the forward exploration observes: it runs along the edges of the
/// graph, to which the edges of the forward entry points are added.
pub open spec fn forward_run<P: Capacity>(
    policy: P,
    graph: Seq<Edge>,
    forward: Seq<(Edge, nat)>,
) -> Seq<(Edge, nat)> {
    exploration(policy, graph + edges_of(forward), forward, Endpoint::Src, Endpoint::Dst)
}

/// What the backward exploration observes: it runs against the edges of the
/// graph, to which the edges of the backward entry points are added.
pub open spec fn backward_run<P: Capacity>(
    policy: P,
    graph: Seq<Edge>,
    backward: Seq<(Edge, nat)>,
) -> Seq<(Edge, nat)> {
    exploration(policy, graph + edges_of(backward), backward, Endpoint::Dst, Endpoint::Src)
}

/// Whether the forward exploration gathers more flow at some node than a
/// `u64` holds.
pub open spec fn forward_overflows<P: Capacity>(
    policy: P,
    graph: Seq<Edge>,
    forward: Seq<(Edge, nat)>,
) -> bool {
    overflows(policy, graph + edges_of(forward), forward, Endpoint::Src, Endpoint::Dst)
}

/// Whether the backward exploration gathers more flow at some node than a
/// `u64` holds.
pub open spec fn backward_overflows<P: Capacity>(
    policy: P,
    graph: Seq<Edge>,
    backward: Seq<(Edge, nat)>,
) -> bool {
    overflows(policy, graph + edges_of(backward), backward, Endpoint::Dst, Endpoint::Src)
}

/// What both explorations observe, the forward one first.
pub open spec fn combined<P: Capacity>(
    policy: P,
    graph: Seq<Edge>,
    forward: Seq<(Edge, nat)>,
    backward: Seq<(Edge, nat)>,
) -> Seq<(Edge, nat)> {
    forward_run(policy, graph, forward) + backward_run(policy, graph, backward)
}

/// What `betweenness_centrality` owes. If the forward exploration overflows,
/// the place where it does; else, if the backward exploration overflows, the
/// place where that one does; else what `score` owes on the observations of
/// both.
pub open spec fn centrality_owed<P: Capacity>(
    policy: P,
    graph: Seq<Edge>,
    forward: Seq<(Edge, nat)>,
    backward: Seq<(Edge, nat)>,
    result: Result<Vec<(Edge, u64)>, CentralityError>,
) -> bool {
    match result {
        Err(CentralityError::ForwardOverflow(place)) => first_overflow(
            policy,
            graph + edges_of(forward),
            forward,
            Endpoint::Src,
            Endpoint::Dst,
            place,
        ),
        Err(CentralityError::BackwardOverflow(place)) => {
            &&& !forward_overflows(policy, graph, forward)
            &&& first_overflow(
                policy,
                graph + edges_of(backward),
                backward,
                Endpoint::Dst,
                Endpoint::Src,
                place,
            )
        },
        _ => {
            &&& !forward_overflows(policy, graph, forward)
            &&& !backward_overflows(policy, graph, backward)
            &&& scored(combined(policy, graph, forward, backward), result)
        },
    }
}

/// The graph together with the edges of a batch of entry points.
pub fn with_entry_edges(graph: &Vec<Edge>, entries: &Vec<(Edge, u64)>) -> (all: Vec<Edge>)
    ensures
        all@ == graph@ + edges_of(flows_of(entries@)),
{
    let mut all: Vec<Edge> = Vec::new();
    let mut i: usize = 0;
    while i < graph.len()
        invariant
            i <= graph.len(),
            all@ == graph@.take(i as int),
        decreases graph.len() - i,
    {
        all.push(graph[i]);
        i += 1;
        assert(all@ =~= graph@.take(i as int));
    }
    assert(graph@.take(i as int) =~= graph@);
    let ghost added = edges_of(flows_of(entries@));
    let mut i: usize = 0;
    while i < entries.len()
        invariant
            i <= entries.len(),
            added == edges_of(flows_of(entries@)),
            all@ == graph@ + added.take(i as int),
        decreases entries.len() - i,
    {
        all.push(entries[i].0);
        i += 1;
        assert(all@ =~= graph@ + added.take(i as int));
    }
    assert(added.take(i as int) =~= added);
    all
}

/// The edge betweenness centrality of a graph.
pub trait BetweennessCentrality {
    /// The edges of the graph.
    spec fn graph(&self) -> Seq<Edge>;

    /// Computes `(edge, centrality)` for every internal edge that the forward
    /// exploration from `forward_edges` or the backward exploration from
    /// `backward_edges` observes, both bounded by `policy`.
    fn betweenness_centrality<E: Capacity>(
        &self,
        forward_edges: &Vec<(Edge, u64)>,
        backward_edges: &Vec<(Edge, u64)>,
        policy: &E,
    ) -> (result: Result<Vec<(Edge, u64)>, CentralityError>)
        ensures
            centrality_owed(
                *policy,
                self.graph(),
                flows_of(forward_edges@),
                flows_of(backward_edges@),
                result,
            ),
            result is Ok ==> forall|j: int|
                0 <= j < result->Ok_0@.len() ==> (#[trigger] result->Ok_0@[j]).0.internal(),
    ;
}

impl BetweennessCentrality for Vec<Edge> {
    open spec fn graph(&self) -> Seq<Edge> {
        self@
    }

    fn betweenness_centrality<E: Capacity>(
        &self,
        forward_edges: &Vec<(Edge, u64)>,
        backward_edges: &Vec<(Edge, u64)>,
        policy: &E,
    ) -> (result: Result<Vec<(Edge, u64)>, CentralityError>) {
        let forward_graph = with_entry_edges(self, forward_edges);
        let forward = match group_explore(
            &forward_graph,
            forward_edges,
            policy,
            Endpoint::Src,
            Endpoint::Dst,
        ) {
            Ok(seen) => seen,
            Err(place) => {
                return Err(CentralityError::ForwardOverflow(place));
            },
        };
        let backward_graph = with_entry_edges(self, backward_edges);
        let backward = match group_explore(
            &backward_graph,
            backward_edges,
            policy,
            Endpoint::Dst,
            Endpoint::Src,
        ) {
            Ok(seen) => seen,
            Err(place) => {
                return Err(CentralityError::BackwardOverflow(place));
            },
        };
        let mut all = forward;
        let mut i: usize = 0;
        while i < backward.len()
            invariant
                i <= backward.len(),
                all@ == forward@ + backward@.take(i as int),
            decreases backward.len() - i,
        {
            all.push(backward[i]);
            i += 1;
            assert(all@ =~= forward@ + backward@.take(i as int));
        }
        proof {
            assert(backward@.take(i as int) =~= backward@);
            assert(flows_of(all@) =~= flows_of(forward@) + flows_of(backward@));
        }
        score(&all)
    }
}

/// A graph is well formed for its entry points when the two explorations
/// cross every internal edge equally often.
pub open spec fn well_formed<P: Capacity>(
    policy: P,
    graph: Seq<Edge>,
    forward: Seq<(Edge, nat)>,
    backward: Seq<(Edge, nat)>,
) -> bool {
    forall|edge: Edge|
        edge.internal() ==> (#[trigger] observed(forward_run(policy, graph, forward), edge)).len()
            == observed(backward_run(policy, graph, backward), edge).len()
}

/// Parity. In a well-formed graph the group of every internal edge has even
/// size, so no structural violation is found.
pub proof fn lemma_parity<P: Capacity>(
    policy: P,
    graph: Seq<Edge>,
    forward: Seq<(Edge, nat)>,
    backward: Seq<(Edge, nat)>,
)
    requires
        well_formed(policy, graph, forward, backward),
    ensures
        forall|edge: Edge|
            edge.internal() ==> #[trigger] paired(
                combined(policy, graph, forward, backward),
                edge,
            ),
        all_paired(combined(policy, graph, forward, backward)),
{
    let flows = combined(policy, graph, forward, backward);
    assert forall|edge: Edge| edge.internal() implies #[trigger] paired(flows, edge) by {
        lemma_observed_joined(
            forward_run(policy, graph, forward),
            backward_run(policy, graph, backward),
            edge,
        );
        assert(observed(forward_run(policy, graph, forward), edge).len() == observed(
            backward_run(policy, graph, backward),
            edge,
        ).len());
    }
    lemma_scored_edges(flows);
    assert forall|j: int| 0 <= j < scored_edges(flows).len() implies paired(
        flows,
        #[trigger] scored_edges(flows)[j],
    ) by {
        assert(scored_edges(flows).contains(scored_edges(flows)[j]));
    }
}

/// An internal edge whose group has odd size is fatal: whatever else holds
/// of the observations, the outcome of scoring them is the structural
/// violation.
pub proof fn lemma_unpaired_is_fatal(
    flows: Seq<(Edge, nat)>,
    edge: Edge,
    result: Result<Vec<(Edge, u64)>, CentralityError>,
)
    requires
        scored(flows, result),
        edge.internal(),
        !paired(flows, edge),
    ensures
        result matches Err(CentralityError::Unpaired { .. }),
{
    lemma_scored_edges(flows);
    assert(scored_edges(flows).contains(edge));
    let j = choose|j: int| 0 <= j < scored_edges(flows).len() && scored_edges(flows)[j] == edge;
    assert(!paired(flows, scored_edges(flows)[j]));
}

/// Fatal on disconnect. If one exploration crosses an internal edge and the
/// other never does, or more generally if the two cross it a number of times
/// that is odd in sum, then the outcome is the structural violation, unless
/// an exploration failed before with an overflow.
pub proof fn lemma_disconnect_is_fatal<P: Capacity>(
    policy: P,
    graph: Seq<Edge>,
    forward: Seq<(Edge, nat)>,
    backward: Seq<(Edge, nat)>,
    edge: Edge,
    result: Result<Vec<(Edge, u64)>, CentralityError>,
)
    requires
        centrality_owed(policy, graph, forward, backward, result),
        !forward_overflows(policy, graph, forward),
        !backward_overflows(policy, graph, backward),
        edge.internal(),
        (observed(forward_run(policy, graph, forward), edge).len() + observed(
            backward_run(policy, graph, backward),
            edge,
        ).len()) % 2 == 1,
    ensures
        result matches Err(CentralityError::Unpaired { .. }),
{
    lemma_observed_joined(
        forward_run(policy, graph, forward),
        backward_run(policy, graph, backward),
        edge,
    );
    match result {
        Err(CentralityError::ForwardOverflow(place)) => {
            assert(crate::explore::overflows_at(
                policy,
                graph + edges_of(forward),
                forward,
                Endpoint::Src,
                Endpoint::Dst,
                place.depth as nat,
                place.node,
            ));
        },
        Err(CentralityError::BackwardOverflow(place)) => {
            assert(crate::explore::overflows_at(
                policy,
                graph + edges_of(backward),
                backward,
                Endpoint::Dst,
                Endpoint::Src,
                place.depth as nat,
                place.node,
            ));
        },
        _ => {
            lemma_unpaired_is_fatal(combined(policy, graph, forward, backward), edge, result);
        },
    }
}

} // verus!
