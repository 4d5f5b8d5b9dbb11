//! Capacity policies: how far an exploration may carry a flow.

use vstd::prelude::*;

verus! {

/// One move of an exploration, as a policy reasons about it: after `depth`
/// earlier moves, a flow crosses an edge from `from` to `to`. The two ends
/// are named in the direction of travel, whichever way the edge itself
/// points.
pub struct Step {
    /// How many edges the flow has crossed before this one.
    pub depth: nat,
    /// The node the flow leaves, if it is observed.
    pub from: Option<u64>,
    /// The node the flow arrives at, if it is observed.
    pub to: Option<u64>,
    /// The label of the edge that is crossed.
    pub label: u64,
    /// The flow that crosses.
    pub flow: nat,
}

/// One move of an exploration, as it is shown to a policy.
#[derive(Clone, Copy, Debug)]
pub struct Hop {
    /// How many edges the flow has crossed before this one.
    pub depth: usize,
    /// The node the flow leaves, if it is observed.
    pub from: Option<u64>,
    /// The node the flow arrives at, if it is observed.
    pub to: Option<u64>,
    /// The label of the edge that is crossed.
    pub label: u64,
    /// The flow that crosses.
    pub flow: u64,
}

impl View for Hop {
    type V = Step;

    open spec fn view(&self) -> Step {
        Step {
            depth: self.depth as nat,
            from: self.from,
            to: self.to,
            label: self.label,
            flow: self.flow as nat,
        }
    }
}

/// A rule that bounds an exploration. After a flow has crossed an edge the
/// policy decides whether the flow goes on from the far end.
///
/// A policy carries its own bound: past its horizon it lets nothing go on, so
/// an exploration under it comes to an end on every graph.
pub trait Capacity {
    /// The depth from which on the policy lets nothing go on.
    spec fn horizon(&self) -> nat;

    /// Whether the flow goes on after this move.
    spec fn allows(&self, step: Step) -> bool;

    /// Decides whether the flow goes on after this move.
    fn permits(&self, hop: &Hop) -> (go: bool)
        ensures
            go == self.allows(hop@),
    ;

    /// The horizon is a depth that a machine can count to.
    proof fn horizon_fits(&self)
        ensures
            self.horizon() <= usize::MAX,
    ;

    /// From the horizon on nothing goes on.
    proof fn horizon_holds(&self, step: Step)
        requires
            step.depth >= self.horizon(),
        ensures
            !self.allows(step),
    ;
}

/// Lets a flow cross at most `hops` edges after its entry edge.
#[derive(Clone, Copy, Debug)]
pub struct HopLimit {
    /// The number of edges after the entry edge.
    pub hops: usize,
}

impl HopLimit {
    /// The policy with the given limit.
    pub fn new(hops: usize) -> (policy: HopLimit)
        ensures
            policy.hops == hops,
    {
        HopLimit { hops }
    }

    /// The policy with the largest limit there is. It is as good as no
    /// limit: on a graph without cycles the exploration ends long before,
    /// when a wave reaches no node. On a graph with a cycle that is reached
    /// it does not end in any time worth waiting for.
    pub fn unlimited() -> (policy: HopLimit)
        ensures
            policy.hops == usize::MAX,
    {
        HopLimit { hops: usize::MAX }
    }
}

impl Capacity for HopLimit {
    open spec fn horizon(&self) -> nat {
        self.hops as nat
    }

    open spec fn allows(&self, step: Step) -> bool {
        step.depth < self.hops
    }

    fn permits(&self, hop: &Hop) -> (go: bool) {
        hop.depth < self.hops
    }

    proof fn horizon_fits(&self) {
    }

    proof fn horizon_holds(&self, step: Step) {
    }
}

/// Lets a flow cross at most `hops` edges after its entry edge, and lets it
/// go on only while it is no larger than `budget`.
#[derive(Clone, Copy, Debug)]
pub struct FlowBudget {
    /// The number of edges after the entry edge.
    pub hops: usize,
    /// The largest flow that may go on.
    pub budget: u64,
}

impl FlowBudget {
    /// The policy with the given limit and budget.
    pub fn new(hops: usize, budget: u64) -> (policy: FlowBudget)
        ensures
            policy.hops == hops,
            policy.budget == budget,
    {
        FlowBudget { hops, budget }
    }
}

impl Capacity for FlowBudget {
    open spec fn horizon(&self) -> nat {
        self.hops as nat
    }

    open spec fn allows(&self, step: Step) -> bool {
        step.depth < self.hops && step.flow <= self.budget
    }

    fn permits(&self, hop: &Hop) -> (go: bool) {
        hop.depth < self.hops && hop.flow <= self.budget
    }

    proof fn horizon_fits(&self) {
    }

    proof fn horizon_holds(&self, step: Step) {
    }
}

} // verus!
