//! Nodes and edges of a program activity graph.

use vstd::prelude::*;

verus! {

/// What a node identifier has to offer: it can be copied, compared, hashed and
/// printed. Every type that can do all of that is a node identifier.
pub trait ExtendedData: Eq + core::hash::Hash + Copy + core::fmt::Debug {

}

impl<T: Eq + core::hash::Hash + Copy + core::fmt::Debug> ExtendedData for T {

}

/// One of the two ends of an edge.
#[derive(Clone, Copy, Debug, PartialEq, Eq, Hash, Structural)]
pub enum Endpoint {
    /// The node the edge leaves.
    Src,
    /// The node the edge enters.
    Dst,
}

impl Endpoint {
    /// The other end.
    pub open spec fn flipped(self) -> Endpoint {
        match self {
            Endpoint::Src => Endpoint::Dst,
            Endpoint::Dst => Endpoint::Src,
        }
    }

    /// The other end.
    pub fn flip(self) -> (other: Endpoint)
        ensures
            other == self.flipped(),
    {
        match self {
            Endpoint::Src => Endpoint::Dst,
            Endpoint::Dst => Endpoint::Src,
        }
    }
}

/// A directed edge. An end that is `None` lies outside the observed system.
/// Two edges are the same edge when both ends and the label agree.
#[derive(Clone, Copy, Debug, PartialEq, Eq, Hash, Structural)]
pub struct Edge {
    /// The node the edge leaves, if it is observed.
    pub src: Option<u64>,
    /// The node the edge enters, if it is observed.
    pub dst: Option<u64>,
    /// Tells apart edges that join the same two nodes.
    pub label: u64,
}

impl Edge {
    /// The node at the given end.
    pub open spec fn end(self, which: Endpoint) -> Option<u64> {
        match which {
            Endpoint::Src => self.src,
            Endpoint::Dst => self.dst,
        }
    }

    /// The same edge, walked the other way.
    pub open spec fn mirrored(self) -> Edge {
        Edge { src: self.dst, dst: self.src, label: self.label }
    }

    /// Both ends are observed.
    pub open spec fn internal(self) -> bool {
        self.src.is_some() && self.dst.is_some()
    }

    /// An edge from `src` to `dst`.
    pub fn new(src: Option<u64>, dst: Option<u64>, label: u64) -> (edge: Edge)
        ensures
            edge == (Edge { src, dst, label }),
    {
        Edge { src, dst, label }
    }

    /// The node the edge leaves.
    pub fn src(&self) -> (node: Option<u64>)
        ensures
            node == self.src,
    {
        self.src
    }

    /// The node the edge enters.
    pub fn dst(&self) -> (node: Option<u64>)
        ensures
            node == self.dst,
    {
        self.dst
    }

    /// The node at the given end.
    pub fn endpoint(&self, which: Endpoint) -> (node: Option<u64>)
        ensures
            node == self.end(which),
    {
        match which {
            Endpoint::Src => self.src,
            Endpoint::Dst => self.dst,
        }
    }

    /// The same edge, walked the other way.
    pub fn reversed(&self) -> (edge: Edge)
        ensures
            edge == self.mirrored(),
    {
        Edge { src: self.dst, dst: self.src, label: self.label }
    }

    /// Whether both ends are observed. A boundary edge is one that is not
    /// internal.
    pub fn is_internal(&self) -> (yes: bool)
        ensures
            yes == self.internal(),
    {
        self.src.is_some() && self.dst.is_some()
    }
}

/// Every edge of `edges`, walked the other way, in the same order.
pub open spec fn mirrored_edges(edges: Seq<Edge>) -> Seq<Edge> {
    Seq::new(edges.len(), |i: int| edges[i].mirrored())
}

/// Every observation of `flows`, with its edge walked the other way.
pub open spec fn mirrored_flows(flows: Seq<(Edge, nat)>) -> Seq<(Edge, nat)> {
    Seq::new(flows.len(), |i: int| (flows[i].0.mirrored(), flows[i].1))
}

/// What a batch of observations says in numbers without a bound.
pub open spec fn flows_of(batch: Seq<(Edge, u64)>) -> Seq<(Edge, nat)> {
    Seq::new(batch.len(), |i: int| (batch[i].0, batch[i].1 as nat))
}

/// Reverses every edge of a batch.
pub fn reverse_edges(edges: &Vec<Edge>) -> (out: Vec<Edge>)
    ensures
        out@ == mirrored_edges(edges@),
{
    let mut out: Vec<Edge> = Vec::new();
    let mut i: usize = 0;
    while i < edges.len()
        invariant
            i <= edges.len(),
            out@ == mirrored_edges(edges@.take(i as int)),
        decreases edges.len() - i,
    {
        out.push(edges[i].reversed());
        i += 1;
        assert(out@ =~= mirrored_edges(edges@.take(i as int)));
    }
    assert(edges@.take(i as int) =~= edges@);
    out
}

/// Reverses the edge of every observation of a batch.
pub fn reverse_flows(batch: &Vec<(Edge, u64)>) -> (out: Vec<(Edge, u64)>)
    ensures
        flows_of(out@) == mirrored_flows(flows_of(batch@)),
        out@.len() == batch@.len(),
        forall|i: int| 0 <= i < batch@.len() ==> out@[i] == (batch@[i].0.mirrored(), batch@[i].1),
{
    let mut out: Vec<(Edge, u64)> = Vec::new();
    let mut i: usize = 0;
    while i < batch.len()
        invariant
            i <= batch.len(),
            out@.len() == i,
            forall|j: int| 0 <= j < i ==> out@[j] == (batch@[j].0.mirrored(), batch@[j].1),
        decreases batch.len() - i,
    {
        let item = batch[i];
        out.push((item.0.reversed(), item.1));
        i += 1;
    }
    assert(flows_of(out@) =~= mirrored_flows(flows_of(batch@)));
    out
}

} // verus!
