//! Where the items of a stream have to go.
//!
//! Before the batches of one logical time can be explored they have to meet
//! on one worker. So every item is first tagged with its logical time and
//! then sent to the worker that the time alone selects, whatever the item
//! holds. The observations of the explorations are later sent to the worker
//! that the hash of their edge selects, so that the group of an edge forms on
//! one worker.

use crate::graph::{flows_of, Edge};
use vstd::prelude::*;

verus! {

/// A logical time: whole seconds and the nanoseconds beyond them.
#[derive(Clone, Copy, Debug, PartialEq, Eq, Hash, Structural)]
pub struct Timestamp {
    /// The whole seconds.
    pub secs: u64,
    /// The nanoseconds beyond the whole seconds.
    pub subsec_nanos: u32,
}

/// The number of keys: a key is a `u64`.
pub open spec fn key_space() -> nat {
    0x1_0000_0000_0000_0000
}

impl Timestamp {
    /// The time in nanoseconds.
    pub open spec fn nanos(self) -> nat {
        (self.secs * 1_000_000_000 + self.subsec_nanos) as nat
    }

    /// The key by which the time is exchanged: its nanoseconds, cut to 64
    /// bits.
    pub open spec fn key(self) -> nat {
        self.nanos() % key_space()
    }

    /// The time of the given seconds and nanoseconds.
    pub fn new(secs: u64, subsec_nanos: u32) -> (time: Timestamp)
        ensures
            time == (Timestamp { secs, subsec_nanos }),
    {
        Timestamp { secs, subsec_nanos }
    }

    /// The time in nanoseconds.
    pub fn as_nanos(&self) -> (nanos: u128)
        ensures
            nanos == self.nanos(),
    {
        (self.secs as u128) * 1_000_000_000 + (self.subsec_nanos as u128)
    }

    /// The key by which the time is exchanged.
    pub fn exchange_key(&self) -> (key: u64)
        ensures
            key == self.key(),
    {
        (self.as_nanos() % 0x1_0000_0000_0000_0000) as u64
    }
}

/// The worker that a key selects among `peers` workers.
pub open spec fn worker_of(key: nat, peers: nat) -> nat {
    key % peers
}

/// The worker that a key selects among `peers` workers.
pub fn route(key: u64, peers: usize) -> (worker: usize)
    requires
        peers > 0,
    ensures
        worker == worker_of(key as nat, peers as nat),
        worker < peers,
{
    (key % (peers as u64)) as usize
}

/// The items, each tagged with `time`.
pub open spec fn stamped<D>(time: Timestamp, items: Seq<D>) -> Seq<(Timestamp, D)> {
    Seq::new(items.len(), |i: int| (time, items[i]))
}

/// Pushing the logical time of a batch into its items.
pub trait PushTime<D> {
    /// The items of the batch.
    spec fn items(&self) -> Seq<D>;

    /// Tags every item of the batch with the logical time of the batch, so
    /// that the items can be exchanged by time.
    fn push_time(&self, time: Timestamp) -> (tagged: Vec<(Timestamp, D)>)
        ensures
            tagged@ == stamped(time, self.items()),
    ;
}

impl<D: Copy> PushTime<D> for Vec<D> {
    open spec fn items(&self) -> Seq<D> {
        self@
    }

    fn push_time(&self, time: Timestamp) -> (tagged: Vec<(Timestamp, D)>) {
        let mut tagged: Vec<(Timestamp, D)> = Vec::new();
        let mut i: usize = 0;
        while i < self.len()
            invariant
                i <= self.len(),
                tagged@ == stamped(time, self@.take(i as int)),
            decreases self.len() - i,
        {
            tagged.push((time, self[i]));
            i += 1;
            assert(tagged@ =~= stamped(time, self@.take(i as int)));
        }
        assert(self@.take(i as int) =~= self@);
        tagged
    }
}

/// The tagged items that go to `worker`, in the order in which they came.
pub open spec fn routed<D>(tagged: Seq<(Timestamp, D)>, peers: nat, worker: nat) -> Seq<
    (Timestamp, D),
>
    decreases tagged.len(),
{
    if tagged.len() == 0 {
        Seq::empty()
    } else {
        let before = routed(tagged.drop_last(), peers, worker);
        if worker_of(tagged.last().0.key(), peers) == worker {
            before.push(tagged.last())
        } else {
            before
        }
    }
}

/// The tagged items that go to `worker`.
pub fn select<D: Copy>(tagged: &Vec<(Timestamp, D)>, peers: usize, worker: usize) -> (part: Vec<
    (Timestamp, D),
>)
    requires
        peers > 0,
    ensures
        part@ == routed(tagged@, peers as nat, worker as nat),
{
    let mut part: Vec<(Timestamp, D)> = Vec::new();
    let mut i: usize = 0;
    while i < tagged.len()
        invariant
            i <= tagged.len(),
            peers > 0,
            part@ == routed(tagged@.take(i as int), peers as nat, worker as nat),
        decreases tagged.len() - i,
    {
        let item = tagged[i];
        proof {
            assert(tagged@.take(i + 1).drop_last() =~= tagged@.take(i as int));
            assert(tagged@.take(i + 1).last() == item);
        }
        if route(item.0.exchange_key(), peers) == worker {
            part.push(item);
        }
        i += 1;
    }
    assert(tagged@.take(i as int) =~= tagged@);
    part
}

/// Distributes tagged items over `peers` workers by their time alone: part
/// `w` of the result holds the items that go to worker `w`.
pub fn exchange<D: Copy>(tagged: &Vec<(Timestamp, D)>, peers: usize) -> (parts: Vec<
    Vec<(Timestamp, D)>,
>)
    requires
        peers > 0,
    ensures
        parts@.len() == peers,
        forall|w: int|
            0 <= w < peers ==> (#[trigger] parts@[w])@ == routed(tagged@, peers as nat, w as nat),
{
    let mut parts: Vec<Vec<(Timestamp, D)>> = Vec::new();
    let mut worker: usize = 0;
    while worker < peers
        invariant
            worker <= peers,
            peers > 0,
            parts@.len() == worker,
            forall|w: int|
                0 <= w < worker ==> (#[trigger] parts@[w])@ == routed(
                    tagged@,
                    peers as nat,
                    w as nat,
                ),
        decreases peers - worker,
    {
        parts.push(select(tagged, peers, worker));
        worker += 1;
    }
    parts
}

/// A batch of one logical time stays together: all of it goes to the worker
/// that its time selects, and nothing of it goes elsewhere.
pub proof fn lemma_batch_stays_together<D>(
    time: Timestamp,
    items: Seq<D>,
    peers: nat,
    worker: nat,
)
    requires
        peers > 0,
    ensures
        routed(stamped(time, items), peers, worker) == if worker == worker_of(time.key(), peers) {
            stamped(time, items)
        } else {
            Seq::empty()
        },
    decreases items.len(),
{
    let tagged = stamped(time, items);
    if items.len() == 0 {
        assert(tagged =~= Seq::empty());
    } else {
        assert(tagged.drop_last() =~= stamped(time, items.drop_last()));
        lemma_batch_stays_together(time, items.drop_last(), peers, worker);
        if worker == worker_of(time.key(), peers) {
            assert(stamped(time, items.drop_last()).push(tagged.last()) =~= tagged);
        }
    }
}

/// Two items of one logical time go to the same worker, and every item goes
/// to one of the workers.
pub proof fn lemma_same_time_same_worker(first: Timestamp, second: Timestamp, peers: nat)
    requires
        peers > 0,
    ensures
        first.nanos() == second.nanos() ==> worker_of(first.key(), peers) == worker_of(
            second.key(),
            peers,
        ),
        worker_of(first.key(), peers) < peers,
{
}

/// One step of the hash: the word is mixed into the state.
pub open spec fn mixed(state: u64, word: u64) -> u64 {
    (state ^ word).wrapping_mul(0x0000_0100_0000_01b3)
}

/// The words that a node contributes to the hash of an edge: whether it is
/// observed, and which node it is.
pub open spec fn node_words(node: Option<u64>) -> (u64, u64) {
    match node {
        Some(id) => (1, id),
        None => (0, 0),
    }
}

/// The last step of the hash: the high bits of the state are folded into
/// the low ones, so that every part of the state tells in the choice of a
/// worker.
pub open spec fn folded(state: u64) -> u64 {
    let once = (state ^ (state >> 33)).wrapping_mul(0xff51_afd7_ed55_8ccd);
    let twice = (once ^ (once >> 33)).wrapping_mul(0xc4ce_b9fe_1a85_ec53);
    twice ^ (twice >> 33)
}

/// The hash of an edge: a function of its two ends and its label, and of
/// nothing else. The words of the source, of the destination and the label
/// are mixed, in this order, into the state `0xcbf29ce484222325`, and the
/// state is folded.
pub open spec fn edge_hash(edge: Edge) -> u64 {
    let source = node_words(edge.src);
    let target = node_words(edge.dst);
    folded(
        mixed(
            mixed(
                mixed(mixed(mixed(0xcbf2_9ce4_8422_2325, source.0), source.1), target.0),
                target.1,
            ),
            edge.label,
        ),
    )
}

/// Mixes a word into the state of the hash.
fn mix(state: u64, word: u64) -> (next: u64)
    ensures
        next == mixed(state, word),
{
    (state ^ word).wrapping_mul(0x0000_0100_0000_01b3)
}

/// Mixes a node into the state of the hash.
fn mix_node(state: u64, node: Option<u64>) -> (next: u64)
    ensures
        next == mixed(mixed(state, node_words(node).0), node_words(node).1),
{
    match node {
        Some(id) => mix(mix(state, 1), id),
        None => mix(mix(state, 0), 0),
    }
}

/// Folds the high bits of the state of the hash into the low ones.
fn fold(state: u64) -> (code: u64)
    ensures
        code == folded(state),
{
    let once = (state ^ (state >> 33)).wrapping_mul(0xff51_afd7_ed55_8ccd);
    let twice = (once ^ (once >> 33)).wrapping_mul(0xc4ce_b9fe_1a85_ec53);
    twice ^ (twice >> 33)
}

/// The hash of an edge, by which its observations are sent to a worker.
pub fn hash_code(edge: &Edge) -> (code: u64)
    ensures
        code == edge_hash(*edge),
{
    fold(mix(mix_node(mix_node(0xcbf2_9ce4_8422_2325, edge.src), edge.dst), edge.label))
}

/// Whether the observations of `edge` go to `worker`.
pub open spec fn goes_to(edge: Edge, peers: nat, worker: nat) -> bool {
    worker_of(edge_hash(edge) as nat, peers) == worker
}

/// The observations that go to `worker`, in the order in which they came:
/// those whose edge selects that worker.
pub open spec fn routed_by_edge(flows: Seq<(Edge, nat)>, peers: nat, worker: nat) -> Seq<
    (Edge, nat),
>
    decreases flows.len(),
{
    if flows.len() == 0 {
        Seq::empty()
    } else {
        let before = routed_by_edge(flows.drop_last(), peers, worker);
        if goes_to(flows.last().0, peers, worker) {
            before.push(flows.last())
        } else {
            before
        }
    }
}

/// The observations of a batch that go to `worker`.
pub fn select_by_edge(batch: &Vec<(Edge, u64)>, peers: usize, worker: usize) -> (part: Vec<
    (Edge, u64),
>)
    requires
        peers > 0,
    ensures
        flows_of(part@) == routed_by_edge(flows_of(batch@), peers as nat, worker as nat),
{
    let ghost flows = flows_of(batch@);
    let mut part: Vec<(Edge, u64)> = Vec::new();
    let mut i: usize = 0;
    assert(flows_of(part@) =~= routed_by_edge(flows.take(0), peers as nat, worker as nat));
    while i < batch.len()
        invariant
            i <= batch.len(),
            peers > 0,
            flows == flows_of(batch@),
            flows_of(part@) == routed_by_edge(flows.take(i as int), peers as nat, worker as nat),
        decreases batch.len() - i,
    {
        let seen = batch[i];
        proof {
            assert(flows.take(i + 1).drop_last() =~= flows.take(i as int));
            assert(flows.take(i + 1).last() == flows[i as int]);
        }
        if route(hash_code(&seen.0), peers) == worker {
            let ghost before = part@;
            part.push(seen);
            assert(flows_of(part@) =~= flows_of(before).push(flows[i as int]));
        }
        i += 1;
    }
    assert(flows.take(i as int) =~= flows);
    part
}

/// Distributes observations over `peers` workers by their edge alone: part
/// `w` of the result holds the observations that go to worker `w`.
pub fn exchange_by_edge(batch: &Vec<(Edge, u64)>, peers: usize) -> (parts: Vec<Vec<(Edge, u64)>>)
    requires
        peers > 0,
    ensures
        parts@.len() == peers,
        forall|w: int|
            0 <= w < peers ==> flows_of((#[trigger] parts@[w])@) == routed_by_edge(
                flows_of(batch@),
                peers as nat,
                w as nat,
            ),
{
    let mut parts: Vec<Vec<(Edge, u64)>> = Vec::new();
    let mut worker: usize = 0;
    while worker < peers
        invariant
            worker <= peers,
            peers > 0,
            parts@.len() == worker,
            forall|w: int|
                0 <= w < worker ==> flows_of((#[trigger] parts@[w])@) == routed_by_edge(
                    flows_of(batch@),
                    peers as nat,
                    w as nat,
                ),
        decreases peers - worker,
    {
        parts.push(select_by_edge(batch, peers, worker));
        worker += 1;
    }
    parts
}

} // verus!
