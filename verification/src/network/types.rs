//! The core types of a network: nodes, links, the three kinds of channels,
//! flows and the records of their completion times.

use crate::constants::{SZ_ACK, SZ_PKTMAX};
use crate::edist::EDistBuckets;
use crate::fxhash::{fx_set_insert, fx_set_new};
use crate::units::{packets_of, saturate, BitsPerSec, Bytes, Nanosecs};
use rustc_hash::FxHashSet;
use vstd::prelude::*;

verus! {

/// The identifier of a node. The nodes of a topology are numbered from zero
/// without gaps.
#[derive(Debug, Default, Copy, Clone, PartialOrd, Ord, PartialEq, Eq, Structural, Hash)]
pub struct NodeId(pub usize);

impl NodeId {
    /// The identifier with the number `val`.
    pub fn new(val: usize) -> (r: Self)
        ensures
            r == NodeId(val),
    {
        NodeId(val)
    }

    /// The number of the identifier.
    pub fn inner(self) -> (r: usize)
        ensures
            r == self.0,
    {
        self.0
    }

    /// The number of the identifier.
    pub fn as_usize(&self) -> (r: usize)
        ensures
            r == self.0,
    {
        self.0
    }
}

/// The identifier of a flow.
#[derive(Debug, Default, Copy, Clone, PartialOrd, Ord, PartialEq, Eq, Structural, Hash)]
pub struct FlowId(pub usize);

impl FlowId {
    /// The identifier with the number `val`.
    pub fn new(val: usize) -> (r: Self)
        ensures
            r == FlowId(val),
    {
        FlowId(val)
    }

    /// The number of the identifier.
    pub fn inner(self) -> (r: usize)
        ensures
            r == self.0,
    {
        self.0
    }

    /// The number of the identifier.
    pub fn as_usize(&self) -> (r: usize)
        ensures
            r == self.0,
    {
        self.0
    }
}

/// A node is either a host or a switch.
#[derive(Debug, Clone, Copy, PartialEq, Eq, Structural)]
pub enum NodeKind {
    /// A host: an endpoint of flows, attached by exactly one link.
    Host,
    /// A switch: forwards traffic, attached by one link or more.
    Switch,
}

/// A node of the topology.
#[derive(Debug, Clone, Copy, PartialEq, Eq, Structural)]
pub struct Node {
    /// The node's identifier.
    pub id: NodeId,
    /// Whether the node is a host or a switch.
    pub kind: NodeKind,
}

impl Node {
    /// A node of the given kind.
    pub fn new(id: NodeId, kind: NodeKind) -> (r: Self)
        ensures
            r == (Node { id, kind }),
    {
        Node { id, kind }
    }

    /// A host with the given identifier.
    pub fn new_host(id: NodeId) -> (r: Self)
        ensures
            r == (Node { id, kind: NodeKind::Host }),
    {
        Node { id, kind: NodeKind::Host }
    }

    /// A switch with the given identifier.
    pub fn new_switch(id: NodeId) -> (r: Self)
        ensures
            r == (Node { id, kind: NodeKind::Switch }),
    {
        Node { id, kind: NodeKind::Switch }
    }
}

/// A link joins two nodes and carries traffic in both directions.
#[derive(Debug, Clone, Copy, PartialEq, Eq, Structural)]
pub struct Link {
    /// The first endpoint.
    pub a: NodeId,
    /// The second endpoint.
    pub b: NodeId,
    /// The bandwidth of either direction.
    pub bandwidth: BitsPerSec,
    /// The propagation delay of either direction.
    pub delay: Nanosecs,
}

impl Link {
    /// A link between `a` and `b`. The bandwidth may be given in any unit that
    /// converts into bits per second.
    pub fn new<B: Into<BitsPerSec>, D: Into<Nanosecs>>(
        a: NodeId,
        b: NodeId,
        bandwidth: B,
        delay: D,
    ) -> (r: Self)
        ensures
            r.a == a,
            r.b == b,
            call_ensures(B::into, (bandwidth,), r.bandwidth),
            call_ensures(D::into, (delay,), r.delay),
    {
        Link { a, b, bandwidth: bandwidth.into(), delay: delay.into() }
    }

    /// Whether the link joins `x` and `y`, in either order.
    pub open spec fn spec_connects(&self, x: NodeId, y: NodeId) -> bool {
        self.a == x && self.b == y || self.a == y && self.b == x
    }

    /// Returns true if the link joins `x` and `y`, in either order.
    pub fn connects(&self, x: NodeId, y: NodeId) -> (r: bool)
        ensures
            r == self.spec_connects(x, y),
    {
        self.a == x && self.b == y || self.a == y && self.b == x
    }
}

/// What every channel of a topology offers: its endpoints, its bandwidth and
/// its propagation delay.
pub trait Channel {
    spec fn spec_src(&self) -> NodeId;

    spec fn spec_dst(&self) -> NodeId;

    spec fn spec_bandwidth(&self) -> BitsPerSec;

    spec fn spec_delay(&self) -> Nanosecs;

    /// The node the channel leaves.
    fn src(&self) -> (r: NodeId)
        ensures
            r == self.spec_src(),
    ;

    /// The node the channel enters.
    fn dst(&self) -> (r: NodeId)
        ensures
            r == self.spec_dst(),
    ;

    /// The bandwidth.
    fn bandwidth(&self) -> (r: BitsPerSec)
        ensures
            r == self.spec_bandwidth(),
    ;

    /// The propagation delay.
    fn delay(&self) -> (r: Nanosecs)
        ensures
            r == self.spec_delay(),
    ;
}

/// A one-way channel between two nodes with a bandwidth and a delay.
#[derive(Debug, Clone, Copy, PartialEq, Eq, Structural)]
pub struct BasicChannel {
    pub src: NodeId,
    pub dst: NodeId,
    pub bandwidth: BitsPerSec,
    pub delay: Nanosecs,
}

impl BasicChannel {
    /// A channel from `src` to `dst`.
    pub fn new(src: NodeId, dst: NodeId, bandwidth: BitsPerSec, delay: Nanosecs) -> (r: Self)
        ensures
            r == (BasicChannel { src, dst, bandwidth, delay }),
    {
        BasicChannel { src, dst, bandwidth, delay }
    }
}

impl Channel for BasicChannel {
    open spec fn spec_src(&self) -> NodeId {
        self.src
    }

    open spec fn spec_dst(&self) -> NodeId {
        self.dst
    }

    open spec fn spec_bandwidth(&self) -> BitsPerSec {
        self.bandwidth
    }

    open spec fn spec_delay(&self) -> Nanosecs {
        self.delay
    }

    fn src(&self) -> NodeId {
        self.src
    }

    fn dst(&self) -> NodeId {
        self.dst
    }

    fn bandwidth(&self) -> BitsPerSec {
        self.bandwidth
    }

    fn delay(&self) -> Nanosecs {
        self.delay
    }
}

/// A flow: a number of bytes sent from one host to another at some time.
#[derive(Debug, Default, Clone, Copy, PartialEq, Eq, Structural, Hash)]
pub struct Flow {
    /// The flow's identifier.
    pub id: FlowId,
    /// The host that sends.
    pub src: NodeId,
    /// The host that receives.
    pub dst: NodeId,
    /// The number of bytes.
    pub size: Bytes,
    /// The time at which the flow starts.
    pub start: Nanosecs,
}

impl Flow {
    /// The identifiers of the flow, of its source and of its destination, in
    /// this order.
    pub fn get_ids(&self) -> (r: Vec<usize>)
        ensures
            r@ == seq![self.id.0, self.src.0, self.dst.0],
    {
        let mut ids: Vec<usize> = Vec::new();
        ids.push(self.id.0);
        ids.push(self.src.0);
        ids.push(self.dst.0);
        ids
    }
}

/// The sum of the sizes of `flows`.
pub open spec fn total_size(flows: Seq<Flow>) -> int
    decreases flows.len(),
{
    if flows.len() == 0 {
        0
    } else {
        total_size(flows.drop_last()) + flows.last().size.0
    }
}

/// The bytes of acknowledgements that a flow of `size` bytes gives rise to:
/// one acknowledgement for every packet.
pub open spec fn ack_bytes_of(size: Bytes) -> int {
    packets_of(size.0 as int) * SZ_ACK
}

/// The sum of the acknowledgement bytes of `flows`.
pub open spec fn total_ack_bytes(flows: Seq<Flow>) -> int
    decreases flows.len(),
{
    if flows.len() == 0 {
        0
    } else {
        total_ack_bytes(flows.drop_last()) + ack_bytes_of(flows.last().size)
    }
}

/// The earliest start among `flows`, or the largest time if there is none.
pub open spec fn earliest_start(flows: Seq<Flow>) -> u64
    decreases flows.len(),
{
    if flows.len() == 0 {
        u64::MAX
    } else {
        let rest = earliest_start(flows.drop_last());
        if flows.last().start.0 < rest {
            flows.last().start.0
        } else {
            rest
        }
    }
}

/// The latest start among `flows`, or zero if there is none.
pub open spec fn latest_start(flows: Seq<Flow>) -> u64
    decreases flows.len(),
{
    if flows.len() == 0 {
        0
    } else {
        let rest = latest_start(flows.drop_last());
        if flows.last().start.0 > rest {
            flows.last().start.0
        } else {
            rest
        }
    }
}

/// Whether `flows` is ordered by start time, earliest first.
pub open spec fn sorted_by_start(flows: Seq<Flow>) -> bool {
    forall|i: int, j: int| 0 <= i <= j < flows.len() ==> flows[i].start.0 <= flows[j].start.0
}

/// A channel together with the flows that cross it.
///
/// The channel names its flows by their identifiers. The flows themselves, in
/// the order in which they were added, are kept as a ghost sequence, over
/// which the counters of the channel are stated.
pub struct FlowChannel {
    pub src: NodeId,
    pub dst: NodeId,
    pub bandwidth: BitsPerSec,
    pub delay: Nanosecs,
    /// The bytes of all flows on the channel.
    pub nr_bytes: Bytes,
    /// The bytes of the acknowledgements of all flows on the channel.
    pub nr_ack_bytes: Bytes,
    /// The identifiers of the nodes that send a flow on the channel.
    pub flow_srcs: FxHashSet<usize>,
    /// The identifiers of the nodes that receive a flow on the channel.
    pub flow_dsts: FxHashSet<usize>,
    /// The earliest start of a flow on the channel.
    pub flow_start: Nanosecs,
    /// The latest start of a flow on the channel.
    pub flow_end: Nanosecs,
    /// The identifiers of the flows on the channel.
    pub flows: Vec<FlowId>,
    /// The flows on the channel.
    pub assigned: Ghost<Seq<Flow>>,
}

impl Channel for FlowChannel {
    open spec fn spec_src(&self) -> NodeId {
        self.src
    }

    open spec fn spec_dst(&self) -> NodeId {
        self.dst
    }

    open spec fn spec_bandwidth(&self) -> BitsPerSec {
        self.bandwidth
    }

    open spec fn spec_delay(&self) -> Nanosecs {
        self.delay
    }

    fn src(&self) -> NodeId {
        self.src
    }

    fn dst(&self) -> NodeId {
        self.dst
    }

    fn bandwidth(&self) -> BitsPerSec {
        self.bandwidth
    }

    fn delay(&self) -> Nanosecs {
        self.delay
    }
}

impl FlowChannel {
    /// The channel's counters agree with the flows that were added to it.
    pub open spec fn wf(&self) -> bool {
        &&& self.flows@ == self.assigned@.map_values(|f: Flow| f.id)
        &&& self.nr_bytes.0 == saturate(total_size(self.assigned@))
        &&& self.nr_ack_bytes.0 == saturate(total_ack_bytes(self.assigned@))
        &&& self.flow_srcs@ == self.assigned@.map_values(|f: Flow| f.src.0).to_set()
        &&& self.flow_dsts@ == self.assigned@.map_values(|f: Flow| f.dst.0).to_set()
        &&& self.flow_start.0 == earliest_start(self.assigned@)
        &&& self.flow_end.0 == latest_start(self.assigned@)
    }

    /// A channel like `chan` that no flow crosses yet.
    pub fn new_from(chan: &BasicChannel) -> (r: Self)
        ensures
            r.wf(),
            r.assigned@ == Seq::<Flow>::empty(),
            r.src == chan.src,
            r.dst == chan.dst,
            r.bandwidth == chan.bandwidth,
            r.delay == chan.delay,
    {
        let r = FlowChannel {
            src: chan.src,
            dst: chan.dst,
            bandwidth: chan.bandwidth,
            delay: chan.delay,
            nr_bytes: Bytes(0),
            nr_ack_bytes: Bytes(0),
            flow_srcs: fx_set_new(),
            flow_dsts: fx_set_new(),
            flow_start: Nanosecs(u64::MAX),
            flow_end: Nanosecs(0),
            flows: Vec::new(),
            assigned: Ghost(Seq::empty()),
        };
        proof {
            let no_flows = Seq::<Flow>::empty();
            assert(no_flows.map_values(|f: Flow| f.id) =~= Seq::<FlowId>::empty());
            assert(no_flows.map_values(|f: Flow| f.src.0).to_set() =~= Set::<usize>::empty());
            assert(no_flows.map_values(|f: Flow| f.dst.0).to_set() =~= Set::<usize>::empty());
        }
        r
    }

    /// The identifiers of the flows on the channel, in the channel's order.
    pub fn flow_ids(&self) -> (r: Vec<FlowId>)
        ensures
            r@ == self.flows@,
    {
        self.flows.clone()
    }

    /// The number of flows on the channel.
    pub fn nr_flows(&self) -> (r: usize)
        ensures
            r == self.flows@.len(),
    {
        self.flows.len()
    }

    /// Adds a flow to the channel: its bytes and acknowledgement bytes are
    /// added to the counters, which stop at the largest `u64`; its endpoints
    /// join the sets of sources and destinations; its start widens the span
    /// of starts; its identifier is appended.
    pub fn push_flow(&mut self, flow: &Flow)
        requires
            old(self).wf(),
        ensures
            final(self).wf(),
            final(self).assigned@ == old(self).assigned@.push(*flow),
            final(self).src == old(self).src,
            final(self).dst == old(self).dst,
            final(self).bandwidth == old(self).bandwidth,
            final(self).delay == old(self).delay,
    {
        let ghost before = self.assigned@;
        let ghost after = before.push(*flow);
        proof {
            assert(after.drop_last() =~= before);
            lemma_totals_nonnegative(before);
        }
        self.nr_bytes = Bytes(self.nr_bytes.0.saturating_add(flow.size.0));
        let nr_pkts: u64 = flow.size.nr_packets();
        let acks: u64 = nr_pkts * SZ_ACK;
        self.nr_ack_bytes = Bytes(self.nr_ack_bytes.0.saturating_add(acks));
        let _ = fx_set_insert(&mut self.flow_srcs, flow.src.0);
        let _ = fx_set_insert(&mut self.flow_dsts, flow.dst.0);
        if flow.start.0 < self.flow_start.0 {
            self.flow_start = flow.start;
        }
        if flow.start.0 > self.flow_end.0 {
            self.flow_end = flow.start;
        }
        self.flows.push(flow.id);
        self.assigned = Ghost(after);
        proof {
            assert(after.map_values(|f: Flow| f.id) =~= before.map_values(|f: Flow| f.id).push(
                flow.id,
            ));
            let srcs = |f: Flow| f.src.0;
            let dsts = |f: Flow| f.dst.0;
            assert(after.map_values(srcs) =~= before.map_values(srcs).push(flow.src.0));
            assert(after.map_values(dsts) =~= before.map_values(dsts).push(flow.dst.0));
            lemma_push_to_set(before.map_values(srcs), flow.src.0);
            lemma_push_to_set(before.map_values(dsts), flow.dst.0);
        }
    }

    /// The time between the first and the last start of a flow on the
    /// channel: zero where the channel has no flow.
    pub fn duration(&self) -> (r: Nanosecs)
        requires
            self.wf(),
        ensures
            r.0 == latest_start(self.assigned@) - earliest_start(self.assigned@)
                || (self.assigned@.len() == 0 && r.0 == 0),
            self.assigned@.len() > 0 ==> r.0 == latest_start(self.assigned@) - earliest_start(
                self.assigned@,
            ),
    {
        if self.flows.len() == 0 {
            Nanosecs(0)
        } else {
            proof {
                lemma_start_span(self.assigned@);
            }
            Nanosecs(self.flow_end.0 - self.flow_start.0)
        }
    }
}

/// Sums of sizes and of acknowledgement bytes are never negative.
pub proof fn lemma_totals_nonnegative(flows: Seq<Flow>)
    ensures
        total_size(flows) >= 0,
        total_ack_bytes(flows) >= 0,
    decreases flows.len(),
{
    if flows.len() > 0 {
        lemma_totals_nonnegative(flows.drop_last());
    }
}

/// Among one flow or more, the earliest start is not after the latest.
pub proof fn lemma_start_span(flows: Seq<Flow>)
    requires
        flows.len() > 0,
    ensures
        earliest_start(flows) <= latest_start(flows),
    decreases flows.len(),
{
    if flows.len() > 1 {
        lemma_start_span(flows.drop_last());
    } else {
        assert(flows.drop_last().len() == 0);
    }
}

/// The elements of a sequence with one more at its end are the elements of
/// the sequence and that one.
pub proof fn lemma_push_to_set<A>(s: Seq<A>, x: A)
    ensures
        s.push(x).to_set() == s.to_set().insert(x),
{
    assert forall|y: A| s.push(x).to_set().contains(y) <==> s.to_set().insert(x).contains(
        y,
    ) by {
        if s.push(x).contains(y) {
            let i = choose|i: int| 0 <= i < s.push(x).len() && s.push(x)[i] == y;
            if i < s.len() {
                assert(s[i] == y);
            }
        }
        if s.contains(y) {
            let i = choose|i: int| 0 <= i < s.len() && s[i] == y;
            assert(s.push(x)[i] == y);
        }
        if y == x {
            assert(s.push(x)[s.len() as int] == x);
        }
    }
    assert(s.push(x).to_set() =~= s.to_set().insert(x));
}

/// A channel together with the distributions of the delay that flows meet
/// on it.
pub struct EDistChannel {
    pub src: NodeId,
    pub dst: NodeId,
    pub bandwidth: BitsPerSec,
    pub delay: Nanosecs,
    /// The distributions of delay per packet, by flow size.
    pub dists: EDistBuckets,
}

impl Channel for EDistChannel {
    open spec fn spec_src(&self) -> NodeId {
        self.src
    }

    open spec fn spec_dst(&self) -> NodeId {
        self.dst
    }

    open spec fn spec_bandwidth(&self) -> BitsPerSec {
        self.bandwidth
    }

    open spec fn spec_delay(&self) -> Nanosecs {
        self.delay
    }

    fn src(&self) -> NodeId {
        self.src
    }

    fn dst(&self) -> NodeId {
        self.dst
    }

    fn bandwidth(&self) -> BitsPerSec {
        self.bandwidth
    }

    fn delay(&self) -> Nanosecs {
        self.delay
    }
}

impl EDistChannel {
    /// A channel like `chan` for which nothing was simulated yet.
    pub fn new_from(chan: &FlowChannel) -> (r: Self)
        ensures
            r.src == chan.src,
            r.dst == chan.dst,
            r.bandwidth == chan.bandwidth,
            r.delay == chan.delay,
            r.dists.inner@.len() == 0,
    {
        EDistChannel {
            src: chan.src,
            dst: chan.dst,
            bandwidth: chan.bandwidth,
            delay: chan.delay,
            dists: EDistBuckets::new_empty(),
        }
    }
}

/// The sum of the propagation delays of the channels.
pub open spec fn total_delay<C: Channel>(channels: Seq<(usize, &C)>) -> int
    decreases channels.len(),
{
    if channels.len() == 0 {
        0
    } else {
        total_delay(channels.drop_last()) + channels.last().1.spec_delay().0
    }
}

/// A path: a sequence of channels, each with its index.
pub struct Path<'a, C> {
    pub inner: Vec<(usize, &'a C)>,
}

impl<'a, C: Channel> Path<'a, C> {
    /// The path along the given channels.
    pub fn new(channels: Vec<(usize, &'a C)>) -> (r: Self)
        ensures
            r.inner == channels,
    {
        Path { inner: channels }
    }

    /// The propagation delay along the whole path, as far as 64 bits hold
    /// it.
    pub fn delay(&self) -> (r: Nanosecs)
        ensures
            r.0 == saturate(total_delay(self.inner@)),
    {
        let mut sum: u64 = 0;
        let mut i: usize = 0;
        proof {
            assert(self.inner@.take(0) =~= Seq::<(usize, &C)>::empty());
        }
        while i < self.inner.len()
            invariant
                i <= self.inner@.len(),
                sum == saturate(total_delay(self.inner@.take(i as int))),
                0 <= total_delay(self.inner@.take(i as int)),
            decreases self.inner@.len() - i,
        {
            let d = self.inner[i].1.delay();
            proof {
                assert(self.inner@.take(i + 1).drop_last() =~= self.inner@.take(i as int));
                assert(self.inner@.take(i + 1).last() == self.inner@[i as int]);
            }
            sum = sum.saturating_add(d.0);
            i += 1;
        }
        proof {
            assert(self.inner@.take(i as int) =~= self.inner@);
        }
        Nanosecs(sum)
    }

    /// The bandwidths of the channels of the path, in their order.
    pub fn bandwidths(&self) -> (r: Vec<BitsPerSec>)
        ensures
            r@.len() == self.inner@.len(),
            forall|i: int| 0 <= i < r@.len() ==> (#[trigger] r@[i]) == self.inner@[i].1.spec_bandwidth(),
    {
        let mut out: Vec<BitsPerSec> = Vec::new();
        let mut i: usize = 0;
        while i < self.inner.len()
            invariant
                i <= self.inner@.len(),
                out@.len() == i,
                forall|j: int|
                    0 <= j < i ==> (#[trigger] out@[j]) == self.inner@[j].1.spec_bandwidth(),
            decreases self.inner@.len() - i,
        {
            out.push(self.inner[i].1.bandwidth());
            i += 1;
        }
        out
    }

    /// The channels of the path with their indices, in their order.
    pub fn iter(&self) -> (r: &[(usize, &'a C)])
        ensures
            r@ == self.inner@,
    {
        self.inner.as_slice()
    }
}

/// The record of one flow's completion, as a link-level simulation reports
/// it.
#[derive(Debug, Clone, Copy, PartialEq, Eq, Structural)]
pub struct FctRecord {
    /// The flow's identifier.
    pub id: FlowId,
    /// The flow's size.
    pub size: Bytes,
    /// The flow's start.
    pub start: Nanosecs,
    /// The measured completion time.
    pub fct: Nanosecs,
    /// The completion time on an unloaded network.
    pub ideal: Nanosecs,
}

impl FctRecord {
    /// The delay of the flow: what the measured time exceeds the ideal time
    /// by, and zero where rounding left it below.
    pub open spec fn spec_delay(&self) -> u64 {
        if self.fct.0 > self.ideal.0 {
            (self.fct.0 - self.ideal.0) as u64
        } else {
            0
        }
    }

    /// Returns the delay met by the flow: the measured completion time minus
    /// the ideal one, or zero if that would be negative.
    pub fn delay(&self) -> (r: Nanosecs)
        ensures
            r.0 == self.spec_delay(),
    {
        if self.fct.0 > self.ideal.0 {
            Nanosecs(self.fct.0 - self.ideal.0)
        } else {
            Nanosecs(0)
        }
    }

    /// The number of packets of the flow.
    pub fn nr_pkts(&self) -> (r: u64)
        ensures
            r == packets_of(self.size.0 as int),
    {
        self.size.nr_packets()
    }
}

} // verus!
