//! Flows in ascending order.

use vstd::prelude::*;
use vstd::relations::{sorted_by, total_ordering};
use vstd::seq_lib::{lemma_sorted_unique, to_multiset_build, to_multiset_insert, to_multiset_len};

verus! {

/// The order of flows: the smaller one comes first.
pub open spec fn flow_order() -> spec_fn(nat, nat) -> bool {
    |a: nat, b: nat| a <= b
}

/// The flows of `values` in ascending order.
pub open spec fn ascending(values: Seq<nat>) -> Seq<nat> {
    values.sort_by(flow_order())
}

/// A batch of `u64` flows as numbers without a bound.
pub open spec fn amounts_of(values: Seq<u64>) -> Seq<nat> {
    Seq::new(values.len(), |i: int| values[i] as nat)
}

/// What `ascending` is: the one arrangement of the same flows, each as often
/// as it was given, in which no flow is followed by a smaller one.
pub proof fn lemma_ascending(values: Seq<nat>)
    ensures
        ascending(values).len() == values.len(),
        ascending(values).to_multiset() == values.to_multiset(),
        forall|i: int, j: int|
            0 <= i <= j < values.len() ==> ascending(values)[i] <= ascending(values)[j],
{
    lemma_flow_order_total();
    values.lemma_sort_by_ensures(flow_order());
    to_multiset_len(values);
    to_multiset_len(ascending(values));
    let sorted = ascending(values);
    assert forall|i: int, j: int| 0 <= i <= j < values.len() implies sorted[i] <= sorted[j] by {
        if i < j {
            assert(flow_order()(sorted[i], sorted[j]));
        }
    }
}

/// An arrangement of the same flows in which no flow is followed by a
/// smaller one is the ascending one.
pub proof fn lemma_ascending_unique(values: Seq<nat>, sorted: Seq<nat>)
    requires
        sorted.to_multiset() == values.to_multiset(),
        forall|i: int, j: int| 0 <= i < j < sorted.len() ==> sorted[i] <= sorted[j],
    ensures
        sorted == ascending(values),
{
    lemma_flow_order_total();
    values.lemma_sort_by_ensures(flow_order());
    assert(sorted_by(sorted, flow_order()));
    lemma_sorted_unique(sorted, ascending(values), flow_order());
}

/// The order of flows is a total order.
pub proof fn lemma_flow_order_total()
    ensures
        total_ordering(flow_order()),
{
}

/// Sorts a batch of flows in ascending order.
pub fn sort_flows(values: &Vec<u64>) -> (sorted: Vec<u64>)
    ensures
        amounts_of(sorted@) == ascending(amounts_of(values@)),
        sorted@.len() == values@.len(),
        sorted@.to_multiset() == values@.to_multiset(),
        forall|i: int, j: int| 0 <= i <= j < sorted@.len() ==> sorted@[i] <= sorted@[j],
{
    let mut sorted: Vec<u64> = Vec::new();
    let mut taken: usize = 0;
    assert(values@.take(0) =~= Seq::<u64>::empty());
    assert(amounts_of(values@.take(0)) =~= Seq::<nat>::empty());
    while taken < values.len()
        invariant
            taken <= values.len(),
            sorted@.len() == taken,
            sorted@.to_multiset() == values@.take(taken as int).to_multiset(),
            amounts_of(sorted@).to_multiset() == amounts_of(
                values@.take(taken as int),
            ).to_multiset(),
            forall|i: int, j: int| 0 <= i <= j < sorted@.len() ==> sorted@[i] <= sorted@[j],
        decreases values.len() - taken,
    {
        let value = values[taken];
        let mut place: usize = 0;
        while place < sorted.len() && sorted[place] <= value
            invariant
                place <= sorted.len(),
                forall|i: int| 0 <= i < place ==> sorted@[i] <= value,
            decreases sorted.len() - place,
        {
            place += 1;
        }
        let ghost before = sorted@;
        sorted.insert(place, value);
        proof {
            before.insert_ensures(place as int, value);
            to_multiset_insert(before, place as int, value);
            to_multiset_insert(amounts_of(before), place as int, value as nat);
            assert(amounts_of(sorted@) =~= amounts_of(before).insert(place as int, value as nat));
            let shorter = values@.take(taken as int);
            let longer = values@.take(taken + 1);
            assert(longer =~= shorter.push(value));
            assert(amounts_of(longer) =~= amounts_of(shorter).push(value as nat));
            to_multiset_build(shorter, value);
            to_multiset_build(amounts_of(shorter), value as nat);
            assert forall|i: int, j: int| 0 <= i <= j < sorted@.len() implies sorted@[i]
                <= sorted@[j] by {
                if i < place && j > place {
                    assert(sorted@[j] == before[j - 1]);
                } else if i > place {
                    assert(sorted@[i] == before[i - 1]);
                    assert(sorted@[j] == before[j - 1]);
                } else if i == place && j > place {
                    assert(sorted@[j] == before[j - 1]);
                }
            }
        }
        taken += 1;
    }
    proof {
        assert(values@.take(taken as int) =~= values@);
        let listed = amounts_of(sorted@);
        assert forall|i: int, j: int| 0 <= i < j < listed.len() implies listed[i] <= listed[j] by {
            assert(sorted@[i] <= sorted@[j]);
        }
        lemma_ascending_unique(amounts_of(values@), listed);
    }
    sorted
}

} // verus!
