//! Bounded exploration of a program activity graph and the edge betweenness
//! centrality built on it.
//!
//! A program activity graph is a batch of directed edges that belong to one
//! logical time. Some of the edges lack an endpoint: they cross the border of
//! the observed system. Two batches of entry points seed two explorations of
//! the graph, one along the edges and one against them, each bounded by a
//! capacity policy. The flows that the two explorations observe on an edge
//! are combined into the centrality of that edge.
//!
//! Everything here works on the batch of one logical time. Moving batches
//! between workers is left to the dataflow runtime; the `partition` module
//! says where each item has to go, and the modules `order` and `workers`
//! show that neither the order of arrival nor the number of workers changes
//! what is computed.
//!
//! What is shown of the explorations themselves: `mirror` shows that
//! exploring a graph one way is exploring its mirror image the other way,
//! `trail` that no observed edge lies further from the entry points than the
//! policy allows, and `graded` that a graph whose nodes can be ranked is
//! crossed equally often from both sides.

pub mod capacity;
pub mod centrality;
pub mod explore;
pub mod flow;
pub mod graded;
pub mod graph;
pub mod mirror;
pub mod order;
pub mod partition;
pub mod sorting;
pub mod trail;
pub mod workers;
