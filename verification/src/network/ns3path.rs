//! Paths as the ns-3 simulator picks them: every switch hashes the addresses
//! and ports of a flow, seeded with its own identifier, to pick a hop.

use crate::cluster::{identity_clusters, lemma_identity_is_partition};
use crate::fxhash::{fx_set_insert, fx_set_new};
use crate::network::sim::{crossing, flows_by_id, is_stable_sort, FlowPath, SimNetwork};
use crate::network::topology::{basic_of, Topology};
use crate::network::types::{Channel, Flow, FlowChannel, NodeId, NodeKind};
use crate::network::{edge_between, edges_along, lemma_adjacent_symmetric, routes_fit, Network};
use crate::routing::{adjacent, RoutingAlgo};
use rustc_hash::FxHashSet;
use std::collections::HashMap;
use vstd::bytes::{spec_u32_to_le_bytes, u32_to_le_bytes};
use vstd::prelude::*;

verus! {

/// The address of the node with identifier zero.
pub const BASE_IP: u32 = 0x0b000001;

/// The step between the addresses of nodes whose identifiers are 256 apart.
pub const IP_STEP: u32 = 0x00010000;

/// The first port that a flow is sent from.
pub const FIRST_PORT: u16 = 10000;

/// The port that flows are sent to.
pub const DST_PORT: u32 = 100;

/// The address of the node `id`: the identifier, cut to 32 bits, counts up
/// the third byte of the address, and every 256 identifiers the second.
pub open spec fn spec_node_id_to_ip(id: usize) -> u32 {
    let id32 = (id as u64 % 0x1_0000_0000) as u32;
    BASE_IP.wrapping_add((id32 / 256).wrapping_mul(IP_STEP)).wrapping_add(
        (id32 % 256).wrapping_mul(0x100),
    )
}

/// Returns the address of the node `id`, as a number.
pub fn node_id_to_ip(id: usize) -> (ip: u32)
    ensures
        ip == spec_node_id_to_ip(id),
{
    let id32: u32 = (id as u64 % 0x1_0000_0000) as u32;
    BASE_IP.wrapping_add((id32 / 256).wrapping_mul(IP_STEP)).wrapping_add(
        (id32 % 256).wrapping_mul(0x100),
    )
}

/// Returns the first two bytes of an address as the upper bytes of a
/// number.
pub fn ip_to_node_id(ip: u32) -> (id: usize)
    ensures
        id == (ip - ip % 0x1_0000) as usize,
{
    (ip - ip % 0x1_0000) as usize
}

/// The word that four bytes stand for, lowest byte first.
pub open spec fn word_of(b0: u8, b1: u8, b2: u8, b3: u8) -> u32 {
    (b0 as u32) | ((b1 as u32) << 8) | ((b2 as u32) << 16) | ((b3 as u32) << 24)
}

/// A word, stirred.
pub open spec fn stir(k: u32) -> u32 {
    let k1 = k.wrapping_mul(0xcc9e2d51);
    let k2 = (k1 << 15) | (k1 >> 17);
    k2.wrapping_mul(0x1b873593)
}

/// The state of the hash after one more word.
pub open spec fn absorb(h: u32, k: u32) -> u32 {
    let h1 = h ^ stir(k);
    let h2 = (h1 << 13) | (h1 >> 19);
    h2.wrapping_add(h2 << 2).wrapping_add(0xe6546b64)
}

/// The state of the hash after the first `n` words of the key.
pub open spec fn absorbed(key: Seq<u8>, n: nat, seed: u32) -> u32
    decreases n,
{
    if n == 0 {
        seed
    } else {
        absorb(
            absorbed(key, (n - 1) as nat, seed),
            word_of(key[4 * (n - 1)], key[4 * (n - 1) + 1], key[4 * (n - 1) + 2], key[4 * (n - 1) + 3]),
        )
    }
}

/// The word that the bytes of the key from position `from` on stand for,
/// lowest byte first.
pub open spec fn tail_of(key: Seq<u8>, from: int) -> u32
    decreases key.len() - from,
{
    if from < 0 || from >= key.len() {
        0
    } else {
        (tail_of(key, from + 1) << 8) | (key[from] as u32)
    }
}

/// The hash when nothing is left to absorb.
pub open spec fn finish(h: u32, len: u32) -> u32 {
    let h1 = h ^ len;
    let h2 = h1 ^ (h1 >> 16);
    let h3 = h2.wrapping_mul(0x85ebca6b);
    let h4 = h3 ^ (h3 >> 13);
    let h5 = h4.wrapping_mul(0xc2b2ae35);
    h5 ^ (h5 >> 16)
}

/// The hash of a key under a seed: the words of the key are absorbed one by
/// one, then the bytes that are left, and the length of the key last.
pub open spec fn spec_hash_ns3(key: Seq<u8>, seed: u32) -> u32 {
    let h = absorbed(key, key.len() / 4, seed);
    let h1 = if key.len() % 4 != 0 {
        h ^ stir(tail_of(key, (key.len() - key.len() % 4) as int))
    } else {
        h
    };
    finish(h1, (key.len() as u64 % 0x1_0000_0000) as u32)
}

/// Computes the hash by which a switch of the simulator picks a hop.
pub fn calculate_hash_ns3(key: &[u8], seed: u32) -> (r: u32)
    ensures
        r == spec_hash_ns3(key@, seed),
{
    let len = key.len();
    let mut h: u32 = seed;
    let nr_words = len / 4;
    let mut w: usize = 0;
    while w < nr_words
        invariant
            w <= nr_words,
            len == key@.len(),
            nr_words == key@.len() / 4,
            4 * nr_words <= key@.len(),
            h == absorbed(key@, w as nat, seed),
        decreases nr_words - w,
    {
        assert(4 * w + 3 < key@.len());
        let base: usize = 4 * w;
        let b0: u32 = key[base] as u32;
        let b1: u32 = key[base + 1] as u32;
        let b2: u32 = key[base + 2] as u32;
        let b3: u32 = key[base + 3] as u32;
        let k: u32 = b0 | (b1 << 8) | (b2 << 16) | (b3 << 24);
        let k1 = k.wrapping_mul(0xcc9e2d51);
        let k2 = (k1 << 15) | (k1 >> 17);
        let k3 = k2.wrapping_mul(0x1b873593);
        let h1 = h ^ k3;
        let h2 = (h1 << 13) | (h1 >> 19);
        h = h2.wrapping_add(h2 << 2).wrapping_add(0xe6546b64);
        w += 1;
    }
    if len % 4 != 0 {
        let from = len - len % 4;
        let mut k: u32 = 0;
        let mut i: usize = len;
        while i > from
            invariant
                from <= i <= len,
                len == key@.len(),
                k == tail_of(key@, i as int),
            decreases i,
        {
            i -= 1;
            k = (k << 8) | (key[i] as u32);
        }
        let k1 = k.wrapping_mul(0xcc9e2d51);
        let k2 = (k1 << 15) | (k1 >> 17);
        let k3 = k2.wrapping_mul(0x1b873593);
        h = h ^ k3;
    }
    let h1 = h ^ ((len as u64 % 0x1_0000_0000) as u32);
    let h2 = h1 ^ (h1 >> 16);
    let h3 = h2.wrapping_mul(0x85ebca6b);
    let h4 = h3 ^ (h3 >> 13);
    let h5 = h4.wrapping_mul(0xc2b2ae35);
    h5 ^ (h5 >> 16)
}

/// The key that the switches hash for a flow: the addresses of its source
/// and destination and its ports, each as four bytes, lowest byte first.
pub open spec fn ns3_key(sip: u32, dip: u32, sport: u16) -> Seq<u8> {
    spec_u32_to_le_bytes(sip) + spec_u32_to_le_bytes(dip) + spec_u32_to_le_bytes(
        (sport as u32) | (DST_PORT << 16),
    )
}

/// Builds the key that the switches hash for a flow.
pub fn make_key(sip: u32, dip: u32, sport: u16) -> (key: Vec<u8>)
    ensures
        key@ == ns3_key(sip, dip, sport),
{
    let mut key = u32_to_le_bytes(sip);
    let mut dip_bytes = u32_to_le_bytes(dip);
    let mut port_bytes = u32_to_le_bytes((sport as u32) | (DST_PORT << 16));
    key.append(&mut dip_bytes);
    key.append(&mut port_bytes);
    key
}

/// The position of the hop that the node `cur` picks among `nr_hops` hops: a
/// switch hashes the key with its own identifier as the seed, and any other
/// node takes the first hop.
pub open spec fn picked(nodes: Seq<crate::network::types::Node>, cur: NodeId, key: Seq<u8>, nr_hops: nat) -> int {
    if cur.0 < nodes.len() && nodes[cur.0 as int].kind == NodeKind::Switch {
        spec_hash_ns3(key, (cur.0 as u64 % 0x1_0000_0000) as u32) as int % nr_hops as int
    } else {
        0
    }
}

/// The way from `src` to `dst` on which every switch picks the hop by the
/// hash of `key`: the nodes after `src`, up to `dst`. There is no way where
/// a node offers no hop, and none that takes more than `fuel` hops.
pub open spec fn ns3_route<R: RoutingAlgo>(
    nodes: Seq<crate::network::types::Node>,
    routes: &R,
    src: NodeId,
    dst: NodeId,
    key: Seq<u8>,
    fuel: nat,
) -> Option<Seq<NodeId>>
    decreases fuel,
{
    if src == dst {
        Some(Seq::empty())
    } else if fuel == 0 {
        None
    } else {
        match routes.hops(src, dst) {
            None => None,
            Some(hops) => if hops.len() == 0 {
                None
            } else {
                let next = hops[picked(nodes, src, key, hops.len())];
                match ns3_route(nodes, routes, next, dst, key, (fuel - 1) as nat) {
                    None => None,
                    Some(rest) => Some(seq![next] + rest),
                }
            },
        }
    }
}

/// The channels of the way that the switches pick for `key` from `src` to
/// `dst`; none where there is no such way or where `src` is `dst`.
pub open spec fn ns3_path<C: Channel, R: RoutingAlgo>(
    topology: &Topology<C>,
    routes: &R,
    src: NodeId,
    dst: NodeId,
    key: Seq<u8>,
) -> Seq<usize> {
    match ns3_route(topology.nodes@, routes, src, dst, key, topology.nodes@.len()) {
        None => Seq::empty(),
        Some(visited) => edges_along(topology.edges(), src, visited),
    }
}

/// Walks from `src` towards `dst`, where every switch picks its hop by the
/// hash of `key` and every other node takes its first hop, and returns the
/// indices of the channels on the way. The walk gives up, and returns
/// nothing, where a node offers no hop or after as many hops as the topology
/// has nodes.
#[verifier::rlimit(50)]
pub fn edge_indices_between_ns3<C: Channel, R: RoutingAlgo>(
    topology: &Topology<C>,
    routes: &R,
    src: NodeId,
    dst: NodeId,
    key: &[u8],
) -> (r: Vec<usize>)
    requires
        topology.wf(),
        routes_fit(routes, topology),
    ensures
        r@ == ns3_path(topology, routes, src, dst, key@),
        forall|i: int| 0 <= i < r@.len() ==> (#[trigger] r@[i]) < topology.channels@.len(),
{
    let n = topology.nodes.len();
    let ghost edges = topology.edges();
    let ghost nodes = topology.nodes@;
    let mut acc: Vec<usize> = Vec::new();
    let mut cur = src;
    let mut fuel = n;
    let ghost mut seen: Seq<NodeId> = Seq::empty();
    proof {
        topology.lemma_edges();
        assert(acc@ =~= edges_along(edges, src, seen));
    }
    while cur != dst
        invariant
            topology.wf(),
            routes_fit(routes, topology),
            edges == topology.edges(),
            nodes == topology.nodes@,
            n == topology.nodes@.len(),
            edges.len() == topology.channels@.len(),
            fuel <= n,
            acc@ == edges_along(edges, src, seen),
            forall|i: int| 0 <= i < acc@.len() ==> (#[trigger] acc@[i]) < edges.len(),
            cur == if seen.len() == 0 {
                src
            } else {
                seen.last()
            },
            ns3_route(nodes, routes, src, dst, key@, n as nat) == match ns3_route(
                nodes,
                routes,
                cur,
                dst,
                key@,
                fuel as nat,
            ) {
                None => None::<Seq<NodeId>>,
                Some(rest) => Some(seen + rest),
            },
        decreases fuel,
    {
        if fuel == 0 {
            return Vec::new();
        }
        let choices = match routes.next_hops(cur, dst) {
            Some(choices) => choices,
            None => {
                return Vec::new();
            },
        };
        if choices.len() == 0 {
            return Vec::new();
        }
        let is_switch = if cur.0 < n {
            match topology.nodes[cur.0].kind {
                NodeKind::Switch => true,
                NodeKind::Host => false,
            }
        } else {
            false
        };
        let idx: usize = if is_switch {
            let seed = (cur.0 as u64 % 0x1_0000_0000) as u32;
            let hash = calculate_hash_ns3(key, seed);
            (hash as u64 % (choices.len() as u64)) as usize
        } else {
            0
        };
        let next = choices[idx];
        proof {
            assert(idx == picked(nodes, cur, key@, choices@.len()));
            assert(routes.hops(cur, dst)->0[idx as int] == next);
            assert(adjacent(edges, cur.0, next.0));
            lemma_adjacent_symmetric(topology, cur.0, next.0);
        }
        let found = topology.graph.find_edge(cur.0, next.0);
        let e = match found {
            Some(e) => e,
            None => {
                proof {
                    let w = choose|w: int| 0 <= w < edges.len() && edges[w] == (cur.0, next.0);
                    assert(false);
                }
                return Vec::new();
            },
        };
        proof {
            topology.lemma_edges();
            assert(e == edge_between(edges, cur.0, next.0)) by {
                let f = edge_between(edges, cur.0, next.0);
                assert(e < edges.len() && edges[e as int] == (cur.0, next.0));
                if f < e {
                    assert(edges[f as int] != edges[e as int]);
                } else if e < f {
                    assert(edges[e as int] != edges[f as int]);
                }
            }
            let ghost before = seen;
            seen = seen.push(next);
            assert(acc@.push(e) =~= edges_along(edges, src, seen)) by {
                assert forall|i: int| 0 <= i < seen.len() implies acc@.push(e)[i] == edges_along(
                    edges,
                    src,
                    seen,
                )[i] by {
                    if i < before.len() {
                        assert(acc@[i] == edges_along(edges, src, before)[i]);
                    }
                }
            }
            match ns3_route(nodes, routes, next, dst, key@, (fuel - 1) as nat) {
                None => {},
                Some(rest) => {
                    assert(before + (seq![next] + rest) =~= seen + rest);
                },
            }
        }
        acc.push(e);
        cur = next;
        fuel -= 1;
    }
    proof {
        assert(seen + Seq::<NodeId>::empty() =~= seen);
    }
    acc
}

/// The port that the next flow from `src` to `dst` is sent from, after the
/// flows `flows`: the ports of a pair of nodes count up from 10000, and
/// start over after the largest port.
pub open spec fn next_port(flows: Seq<Flow>, src: NodeId, dst: NodeId) -> u16
    decreases flows.len(),
{
    if flows.len() == 0 {
        FIRST_PORT
    } else if flows.last().src == src && flows.last().dst == dst {
        next_port(flows.drop_last(), src, dst).wrapping_add(1)
    } else {
        next_port(flows.drop_last(), src, dst)
    }
}

/// The ports that the flows are sent from, by the identifiers of the flows:
/// a flow gets the next port of its pair of nodes, and of two flows with
/// one identifier the port of the first.
pub open spec fn ports_by_id(flows: Seq<Flow>) -> Map<usize, u16>
    decreases flows.len(),
{
    if flows.len() == 0 {
        Map::empty()
    } else {
        let before = ports_by_id(flows.drop_last());
        if before.contains_key(flows.last().id.0) {
            before
        } else {
            before.insert(
                flows.last().id.0,
                next_port(flows.drop_last(), flows.last().src, flows.last().dst),
            )
        }
    }
}

/// Every flow has a port under its identifier.
pub proof fn lemma_ports_known(flows: Seq<Flow>, i: int)
    requires
        0 <= i < flows.len(),
    ensures
        ports_by_id(flows).contains_key(flows[i].id.0),
    decreases flows.len(),
{
    if i < flows.len() - 1 {
        lemma_ports_known(flows.drop_last(), i);
    }
}

/// The address of a node as the simulator sees it: hosts have addresses,
/// and all other nodes the address zero.
pub open spec fn address_of(nodes: Seq<crate::network::types::Node>, id: NodeId) -> u32 {
    if id.0 < nodes.len() && nodes[id.0 as int].kind == NodeKind::Host {
        spec_node_id_to_ip(id.0)
    } else {
        0
    }
}

/// The channels along which the simulator sends the flow `flow` of the
/// workload `flows`.
pub open spec fn traced_path<C: Channel, R: RoutingAlgo>(
    topology: &Topology<C>,
    routes: &R,
    flows: Seq<Flow>,
    flow: Flow,
) -> Seq<usize> {
    ns3_path(
        topology,
        routes,
        flow.src,
        flow.dst,
        ns3_key(
            address_of(topology.nodes@, flow.src),
            address_of(topology.nodes@, flow.dst),
            ports_by_id(flows)[flow.id.0],
        ),
    )
}

/// The two identifiers of nodes as one number.
pub open spec fn pair_key(src: NodeId, dst: NodeId) -> u64 {
    (src.0 * 0x1_0000_0000 + dst.0) as u64
}

/// What the simulator does with the flow at position `i`: the ends of the
/// flow and the channels of its path.
pub open spec fn trace_of<C: Channel, R: RoutingAlgo>(
    topology: &Topology<C>,
    routes: &R,
    flows: Seq<Flow>,
    i: int,
) -> (NodeId, NodeId, Seq<usize>) {
    (flows[i].src, flows[i].dst, traced_path(topology, routes, flows, flows[i]))
}

/// What the simulator does with every flow.
pub open spec fn traces_of<C: Channel, R: RoutingAlgo>(
    topology: &Topology<C>,
    routes: &R,
    flows: Seq<Flow>,
) -> Seq<(NodeId, NodeId, Seq<usize>)> {
    Seq::new(flows.len(), |i: int| trace_of(topology, routes, flows, i))
}

/// The identifiers of the flows.
pub open spec fn ids_of(flows: Seq<Flow>) -> Seq<usize> {
    flows.map_values(|f: Flow| f.id.0)
}

/// Whether one of the first `upto` flows has the identifier `id` and goes
/// along the channel `e`.
pub open spec fn sent_along(
    traces: Seq<(NodeId, NodeId, Seq<usize>)>,
    ids: Seq<usize>,
    upto: int,
    e: usize,
    id: usize,
) -> bool {
    exists|i: int| 0 <= i < upto && #[trigger] ids[i] == id && traces[i].2.contains(e)
}

/// Whether the sets hold, for every channel, the identifiers of those of the
/// first `upto` flows that are sent along it.
pub open spec fn channels_traced(
    traces: Seq<(NodeId, NodeId, Seq<usize>)>,
    ids: Seq<usize>,
    upto: int,
    sets: Seq<FxHashSet<usize>>,
) -> bool {
    forall|e: usize, id: usize|
        e < sets.len() ==> (#[trigger] sets[e as int]@.contains(id) <==> sent_along(
            traces,
            ids,
            upto,
            e,
            id,
        ))
}

/// The ends and the channels of the path of an entry.
pub open spec fn trace_in(entry: FlowPath) -> (NodeId, NodeId, Seq<usize>) {
    (entry.src, entry.dst, entry.edges@)
}

/// Whether some entry holds the trace `trace` and the identifier `id`.
pub open spec fn noted(entries: Seq<FlowPath>, trace: (NodeId, NodeId, Seq<usize>), id: usize) -> bool {
    exists|k: int|
        0 <= k < entries.len() && trace_in(#[trigger] entries[k]) == trace
            && entries[k].flows@.contains(id)
}

/// Whether one of the first `upto` flows has the identifier `id` and the
/// trace `trace`.
pub open spec fn traced(
    traces: Seq<(NodeId, NodeId, Seq<usize>)>,
    ids: Seq<usize>,
    upto: int,
    trace: (NodeId, NodeId, Seq<usize>),
    id: usize,
) -> bool {
    exists|i: int| 0 <= i < upto && #[trigger] ids[i] == id && traces[i] == trace
}

/// Whether the entries hold the paths of the first `upto` flows, each path
/// once, with the identifiers of the flows that are sent along it.
pub open spec fn paths_traced(
    traces: Seq<(NodeId, NodeId, Seq<usize>)>,
    ids: Seq<usize>,
    upto: int,
    entries: Seq<FlowPath>,
) -> bool {
    &&& forall|i: int| 0 <= i < upto ==> noted(entries, #[trigger] traces[i], ids[i])
    &&& forall|k: int, id: usize|
        0 <= k < entries.len() && #[trigger] entries[k].flows@.contains(id) ==> traced(
            traces,
            ids,
            upto,
            trace_in(entries[k]),
            id,
        )
    &&& forall|k: int, l: int|
        0 <= k < l < entries.len() ==> trace_in(#[trigger] entries[k]) != trace_in(
            #[trigger] entries[l],
        )
}

/// Returns true if the two lists hold the same numbers.
fn same_edges(a: &Vec<usize>, b: &Vec<usize>) -> (r: bool)
    ensures
        r == (a@ == b@),
{
    if a.len() != b.len() {
        return false;
    }
    let mut i: usize = 0;
    while i < a.len()
        invariant
            i <= a@.len(),
            a@.len() == b@.len(),
            forall|j: int| 0 <= j < i ==> a@[j] == b@[j],
        decreases a@.len() - i,
    {
        if a[i] != b[i] {
            return false;
        }
        i += 1;
    }
    proof {
        assert(a@ =~= b@);
    }
    true
}

/// Notes the flow `id` for every channel of `path`.
#[verifier::rlimit(50)]
fn note_channels(
    sets: &mut Vec<FxHashSet<usize>>,
    path: &Vec<usize>,
    id: usize,
    traces: Ghost<Seq<(NodeId, NodeId, Seq<usize>)>>,
    ids: Ghost<Seq<usize>>,
    i: Ghost<int>,
)
    requires
        0 <= i@ < traces@.len(),
        traces@.len() == ids@.len(),
        traces@[i@].2 == path@,
        ids@[i@] == id,
        forall|a: int| 0 <= a < path@.len() ==> (#[trigger] path@[a]) < old(sets)@.len(),
        channels_traced(traces@, ids@, i@, old(sets)@),
    ensures
        final(sets)@.len() == old(sets)@.len(),
        channels_traced(traces@, ids@, i@ + 1, final(sets)@),
{
    let ghost before = sets@;
    let mut j: usize = 0;
    while j < path.len()
        invariant
            j <= path@.len(),
            sets@.len() == before.len(),
            forall|a: int| 0 <= a < path@.len() ==> (#[trigger] path@[a]) < before.len(),
            forall|e: usize, x: usize|
                e < before.len() ==> (#[trigger] sets@[e as int]@.contains(x) <==> before[e as int]@.contains(
                    x,
                ) || (x == id && path@.take(j as int).contains(e))),
        decreases path@.len() - j,
    {
        let edge = path[j];
        let ghost now = sets@;
        let _ = fx_set_insert(&mut sets[edge], id);
        proof {
            let short = path@.take(j as int);
            let long = path@.take(j + 1);
            assert(long =~= short.push(edge));
            assert forall|e: usize, x: usize| e < before.len() implies (
            #[trigger] sets@[e as int]@.contains(x) <==> before[e as int]@.contains(x) || (x == id
                && long.contains(e))) by {
                if e != edge {
                    assert(sets@[e as int] == now[e as int]);
                }
                assert(now[e as int]@.contains(x) <==> before[e as int]@.contains(x) || (x == id
                    && short.contains(e)));
                if short.contains(e) {
                    let a = choose|a: int| 0 <= a < short.len() && short[a] == e;
                    assert(long[a] == e);
                }
                if long.contains(e) {
                    let a = choose|a: int| 0 <= a < long.len() && long[a] == e;
                    if a < j {
                        assert(short[a] == e);
                    }
                }
                if e == edge {
                    assert(long[j as int] == edge);
                }
            }
        }
        j += 1;
    }
    proof {
        assert(path@.take(j as int) =~= path@);
        assert forall|e: usize, x: usize| e < sets@.len() implies (#[trigger] sets@[e as int]@.contains(
            x,
        ) <==> sent_along(traces@, ids@, i@ + 1, e, x)) by {
            assert(before[e as int]@.contains(x) <==> sent_along(traces@, ids@, i@, e, x));
            if sent_along(traces@, ids@, i@, e, x) {
                let a = choose|a: int|
                    0 <= a < i@ && #[trigger] ids@[a] == x && traces@[a].2.contains(e);
                assert(0 <= a < i@ + 1 && ids@[a] == x && traces@[a].2.contains(e));
            }
            if x == id && path@.contains(e) {
                assert(0 <= i@ < i@ + 1 && ids@[i@] == x && traces@[i@].2.contains(e));
            }
            if sent_along(traces@, ids@, i@ + 1, e, x) {
                let a = choose|a: int|
                    0 <= a < i@ + 1 && #[trigger] ids@[a] == x && traces@[a].2.contains(e);
                if a < i@ {
                    assert(sent_along(traces@, ids@, i@, e, x));
                }
            }
        }
    }
}

/// Notes the flow `id` for the path `path` from `src` to `dst`: in the entry
/// of that path, if there is one, and else in a new entry.
#[verifier::rlimit(50)]
fn note_path(
    entries: &mut Vec<FlowPath>,
    src: NodeId,
    dst: NodeId,
    path: Vec<usize>,
    id: usize,
    traces: Ghost<Seq<(NodeId, NodeId, Seq<usize>)>>,
    ids: Ghost<Seq<usize>>,
    i: Ghost<int>,
)
    requires
        0 <= i@ < traces@.len(),
        traces@.len() == ids@.len(),
        traces@[i@] == (src, dst, path@),
        ids@[i@] == id,
        paths_traced(traces@, ids@, i@, old(entries)@),
    ensures
        paths_traced(traces@, ids@, i@ + 1, final(entries)@),
        final(entries)@.len() > 0,
{
    let ghost trace = (src, dst, path@);
    let mut k: usize = 0;
    let mut found = false;
    while k < entries.len() && !found
        invariant
            k <= entries@.len(),
            trace == (src, dst, path@),
            forall|l: int| 0 <= l < k ==> trace_in(#[trigger] entries@[l]) != trace,
            found ==> k < entries@.len() && trace_in(entries@[k as int]) == trace,
        decreases entries@.len() - k + (if found { 0int } else { 1int }),
    {
        if entries[k].src == src && entries[k].dst == dst && same_edges(&entries[k].edges, &path) {
            found = true;
        } else {
            k += 1;
        }
    }
    let ghost before = entries@;
    if found {
        let _ = fx_set_insert(&mut entries[k].flows, id);
        proof {
            let after = entries@;
            assert forall|l: int| 0 <= l < before.len() implies trace_in(#[trigger] after[l])
                == trace_in(before[l]) && (forall|x: usize|
                before[l].flows@.contains(x) ==> after[l].flows@.contains(x)) by {
                if l != k {
                    assert(after[l] == before[l]);
                }
            }
            lemma_paths_step(traces@, ids@, i@, before, after, k as int);
        }
    } else {
        let mut flows = fx_set_new();
        let _ = fx_set_insert(&mut flows, id);
        entries.push(FlowPath { src, dst, edges: path, flows });
        proof {
            let after = entries@;
            let k = before.len() as int;
            assert forall|l: int| 0 <= l < before.len() implies trace_in(#[trigger] after[l])
                == trace_in(before[l]) && (forall|x: usize|
                before[l].flows@.contains(x) ==> after[l].flows@.contains(x)) by {
                assert(after[l] == before[l]);
            }
            lemma_paths_step(traces@, ids@, i@, before, after, k);
        }
    }
}

/// Noting a flow in the entry `k`, which holds its trace, keeps the entries
/// in order: an entry that was there before, or a new one at the end where
/// no entry held the trace.
#[verifier::rlimit(50)]
pub proof fn lemma_paths_step(
    traces: Seq<(NodeId, NodeId, Seq<usize>)>,
    ids: Seq<usize>,
    i: int,
    before: Seq<FlowPath>,
    after: Seq<FlowPath>,
    k: int,
)
    requires
        0 <= i < traces.len(),
        traces.len() == ids.len(),
        paths_traced(traces, ids, i, before),
        0 <= k < after.len(),
        after.len() == before.len() || (after.len() == before.len() + 1 && k == before.len()),
        forall|l: int|
            0 <= l < before.len() ==> trace_in(#[trigger] after[l]) == trace_in(before[l])
                && (forall|x: usize| before[l].flows@.contains(x) ==> after[l].flows@.contains(x)),
        forall|l: int, x: usize|
            0 <= l < after.len() && #[trigger] after[l].flows@.contains(x) ==> (l < before.len()
                && before[l].flows@.contains(x)) || (l == k && x == ids[i]),
        trace_in(after[k]) == traces[i],
        after[k].flows@.contains(ids[i]),
        k == before.len() ==> forall|l: int|
            0 <= l < before.len() ==> trace_in(#[trigger] before[l]) != traces[i],
    ensures
        paths_traced(traces, ids, i + 1, after),
{
    assert forall|j: int| 0 <= j < i + 1 implies noted(after, #[trigger] traces[j], ids[j]) by {
        if j < i {
            assert(noted(before, traces[j], ids[j]));
            let l = choose|l: int|
                0 <= l < before.len() && trace_in(#[trigger] before[l]) == traces[j]
                    && before[l].flows@.contains(ids[j]);
            assert(trace_in(after[l]) == traces[j] && after[l].flows@.contains(ids[j]));
        } else {
            assert(trace_in(after[k]) == traces[j] && after[k].flows@.contains(ids[j]));
        }
    }
    assert forall|l: int, x: usize|
        0 <= l < after.len() && #[trigger] after[l].flows@.contains(x) implies traced(
        traces,
        ids,
        i + 1,
        trace_in(after[l]),
        x,
    ) by {
        if l < before.len() && before[l].flows@.contains(x) {
            assert(traced(traces, ids, i, trace_in(before[l]), x));
            let j = choose|j: int|
                0 <= j < i && #[trigger] ids[j] == x && traces[j] == trace_in(before[l]);
            assert(0 <= j < i + 1 && ids[j] == x && traces[j] == trace_in(after[l]));
        } else {
            assert(0 <= i < i + 1 && ids[i] == x && traces[i] == trace_in(after[l]));
        }
    }
    assert forall|a: int, b: int| 0 <= a < b < after.len() implies trace_in(#[trigger] after[a])
        != trace_in(#[trigger] after[b]) by {
        if b < before.len() {
            assert(trace_in(before[a]) != trace_in(before[b]));
        } else {
            assert(trace_in(before[a]) != traces[i]);
        }
    }
}

impl<R: RoutingAlgo> Network<R> {
    /// Traces the flows of a workload as the ns-3 simulator routes them:
    /// every flow gets a port, every switch on its way picks the next hop by
    /// a hash of its addresses and ports, and the identifier of the flow is
    /// noted for every channel of its way and for the way as a whole.
    ///
    /// The channels of the network that is returned carry no flows. The
    /// flows must run between nodes whose identifiers fit into 32 bits.
    #[verifier::rlimit(50)]
    pub fn into_simulations_path(self, flows: Vec<Flow>) -> (r: SimNetwork<R>)
        requires
            self.wf(),
            forall|i: int|
                0 <= i < flows@.len() ==> (#[trigger] flows@[i]).src.0 < 0x1_0000_0000
                    && flows@[i].dst.0 < 0x1_0000_0000,
        ensures
            r.wf(),
            r.workload@ == Seq::<Flow>::empty(),
            r.routes == self.routes,
            r.topology.nodes@ == self.topology.nodes@,
            r.topology.links@ == self.topology.links@,
            r.topology.basics() == self.topology.basics(),
            crate::cluster::is_identity(r.clusters@, r.topology.channels@.len()),
            r.path_to_flowid_map is None <==> flows@.len() == 0,
            r.path_to_flowid_map matches Some(entries) ==> paths_traced(
                traces_of(&self.topology, &self.routes, flows@),
                ids_of(flows@),
                flows@.len() as int,
                entries@,
            ),
            r.channel_to_flowid_map is None <==> forall|i: int|
                0 <= i < flows@.len() ==> (#[trigger] traces_of(
                    &self.topology,
                    &self.routes,
                    flows@,
                )[i]).2.len() == 0,
            r.channel_to_flowid_map matches Some(sets) ==> sets@.len()
                == self.topology.channels@.len() && channels_traced(
                traces_of(&self.topology, &self.routes, flows@),
                ids_of(flows@),
                flows@.len() as int,
                sets@,
            ),
    {
        let ports = assign_ports(&flows);
        let m = self.topology.channels.len();
        let ghost traces = traces_of(&self.topology, &self.routes, flows@);
        let ghost ids = ids_of(flows@);
        let mut sets: Vec<FxHashSet<usize>> = Vec::new();
        let mut e: usize = 0;
        while e < m
            invariant
                e <= m,
                sets@.len() == e,
                forall|f: int| 0 <= f < e ==> (#[trigger] sets@[f])@ == Set::<usize>::empty(),
            decreases m - e,
        {
            sets.push(fx_set_new());
            e += 1;
        }
        let mut entries: Vec<FlowPath> = Vec::new();
        let mut any_channel = false;
        let mut i: usize = 0;
        while i < flows.len()
            invariant
                i <= flows@.len(),
                self.wf(),
                m == self.topology.channels@.len(),
                sets@.len() == m,
                traces == traces_of(&self.topology, &self.routes, flows@),
                ids == ids_of(flows@),
                ports@ == ports_by_id(flows@),
                channels_traced(traces, ids, i as int, sets@),
                paths_traced(traces, ids, i as int, entries@),
                any_channel <==> exists|j: int| 0 <= j < i && (#[trigger] traces[j]).2.len() > 0,
                i > 0 <==> entries@.len() > 0,
            decreases flows@.len() - i,
        {
            let flow = flows[i];
            let sip: u32 = self.address(flow.src);
            let dip: u32 = self.address(flow.dst);
            proof {
                lemma_ports_known(flows@, i as int);
            }
            broadcast use vstd::std_specs::hash::group_hash_axioms;

            let sport: u16 = match ports.get(&flow.id.0) {
                Some(port) => *port,
                None => FIRST_PORT,
            };
            let key = make_key(sip, dip, sport);
            let path = edge_indices_between_ns3(
                &self.topology,
                &self.routes,
                flow.src,
                flow.dst,
                key.as_slice(),
            );
            proof {
                assert(traces[i as int] == (flow.src, flow.dst, path@));
                assert(ids[i as int] == flow.id.0);
            }
            if path.len() > 0 {
                any_channel = true;
            }
            note_channels(&mut sets, &path, flow.id.0, Ghost(traces), Ghost(ids), Ghost(i as int));
            note_path(
                &mut entries,
                flow.src,
                flow.dst,
                path,
                flow.id.0,
                Ghost(traces),
                Ghost(ids),
                Ghost(i as int),
            );
            i += 1;
        }
        let channel_to_flowid_map = if any_channel {
            Some(sets)
        } else {
            None
        };
        let path_to_flowid_map = if entries.len() == 0 {
            None
        } else {
            Some(entries)
        };
        let Network { topology, routes } = self;
        let Topology { graph, id2idx, nodes, channels: basics, links } = topology;
        let ghost old_topology = Topology { graph, id2idx, nodes, channels: basics, links };
        let mut channels: Vec<FlowChannel> = Vec::new();
        let mut e: usize = 0;
        while e < m
            invariant
                e <= m,
                m == basics@.len(),
                channels@.len() == e,
                forall|f: int|
                    0 <= f < e ==> {
                        &&& (#[trigger] channels@[f]).wf()
                        &&& basic_of(channels@[f]) == basics@[f]
                        &&& channels@[f].assigned@ == Seq::<Flow>::empty()
                    },
            decreases m - e,
        {
            channels.push(FlowChannel::new_from(&basics[e]));
            e += 1;
        }
        let clusters = identity_clusters(m);
        let sim_topology = Topology { graph, id2idx, nodes, channels, links };
        let by_id: HashMap<usize, Flow> = HashMap::new();
        proof {
            assert(sim_topology.basics() =~= old_topology.basics()) by {
                assert forall|f: int| 0 <= f < m implies sim_topology.basics()[f]
                    == old_topology.basics()[f] by {
                    assert(basic_of(channels@[f]) == basics@[f]);
                }
            }
            lemma_identity_is_partition(clusters@, m as nat);
            assert forall|f: int| 0 <= f < m implies is_stable_sort(
                crossing(&sim_topology, &routes, Seq::<Flow>::empty(), f as usize),
                (#[trigger] channels@[f]).assigned@,
            ) by {
                assert forall|k: u64|
                    Seq::<Flow>::empty().filter(crate::seqs::keyed::<Flow>(k))
                        == Seq::<Flow>::empty() by {
                    reveal(Seq::filter);
                }
            }
        }
        SimNetwork {
            topology: sim_topology,
            routes,
            clusters,
            flows: by_id,
            channel_to_flowid_map,
            path_to_flowid_map,
            workload: Ghost(Seq::empty()),
        }
    }

    /// The address of a node as the simulator sees it.
    fn address(&self, id: NodeId) -> (ip: u32)
        ensures
            ip == address_of(self.topology.nodes@, id),
    {
        if id.0 < self.topology.nodes.len() {
            match self.topology.nodes[id.0].kind {
                NodeKind::Host => node_id_to_ip(id.0),
                NodeKind::Switch => 0,
            }
        } else {
            0
        }
    }
}

/// Gives every flow the port that it is sent from, by its identifier.
#[verifier::rlimit(50)]
fn assign_ports(flows: &Vec<Flow>) -> (ports: HashMap<usize, u16>)
    requires
        forall|i: int|
            0 <= i < flows@.len() ==> (#[trigger] flows@[i]).src.0 < 0x1_0000_0000
                && flows@[i].dst.0 < 0x1_0000_0000,
    ensures
        ports@ == ports_by_id(flows@),
{
    broadcast use vstd::std_specs::hash::group_hash_axioms;

    let mut next: HashMap<u64, u16> = HashMap::new();
    let mut ports: HashMap<usize, u16> = HashMap::new();
    let mut i: usize = 0;
    while i < flows.len()
        invariant
            i <= flows@.len(),
            forall|j: int|
                0 <= j < flows@.len() ==> (#[trigger] flows@[j]).src.0 < 0x1_0000_0000
                    && flows@[j].dst.0 < 0x1_0000_0000,
            ports@ == ports_by_id(flows@.take(i as int)),
            forall|src: NodeId, dst: NodeId|
                src.0 < 0x1_0000_0000 && dst.0 < 0x1_0000_0000 ==> #[trigger] next_port(
                    flows@.take(i as int),
                    src,
                    dst,
                ) == if next@.contains_key(pair_key(src, dst)) {
                    next@[pair_key(src, dst)]
                } else {
                    FIRST_PORT
                },
        decreases flows@.len() - i,
    {
        let flow = flows[i];
        let key: u64 = (flow.src.0 as u64) * 0x1_0000_0000 + (flow.dst.0 as u64);
        let ghost before = flows@.take(i as int);
        let ghost old_next = next@;
        proof {
            assert(key == pair_key(flow.src, flow.dst));
            assert(flows@.take(i + 1).drop_last() =~= before);
            assert(flows@.take(i + 1).last() == flow);
            assert(next_port(before, flow.src, flow.dst) == if old_next.contains_key(key) {
                old_next[key]
            } else {
                FIRST_PORT
            });
        }
        let sport: u16 = match next.get(&key) {
            Some(port) => *port,
            None => FIRST_PORT,
        };
        next.insert(key, sport.wrapping_add(1));
        if !ports.contains_key(&flow.id.0) {
            ports.insert(flow.id.0, sport);
        }
        proof {
            assert forall|src: NodeId, dst: NodeId|
                src.0 < 0x1_0000_0000 && dst.0 < 0x1_0000_0000 implies #[trigger] next_port(
                flows@.take(i + 1),
                src,
                dst,
            ) == if next@.contains_key(pair_key(src, dst)) {
                next@[pair_key(src, dst)]
            } else {
                FIRST_PORT
            } by {
                lemma_pair_key(src, dst, flow.src, flow.dst);
                assert(next_port(before, src, dst) == if old_next.contains_key(pair_key(src, dst)) {
                    old_next[pair_key(src, dst)]
                } else {
                    FIRST_PORT
                });
            }
        }
        i += 1;
    }
    proof {
        assert(flows@.take(i as int) =~= flows@);
    }
    ports
}

/// Two pairs of nodes have one key exactly if they are the same pair.
pub proof fn lemma_pair_key(a: NodeId, b: NodeId, c: NodeId, d: NodeId)
    requires
        a.0 < 0x1_0000_0000,
        b.0 < 0x1_0000_0000,
        c.0 < 0x1_0000_0000,
        d.0 < 0x1_0000_0000,
    ensures
        pair_key(a, b) == pair_key(c, d) <==> a == c && b == d,
{
}

} // verus!
