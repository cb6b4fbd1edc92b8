//! The topology of a network: its nodes, its links and the two channels that
//! every link stands for, checked when the topology is built.

use crate::fxhash::{
    fx_map_get, fx_map_insert, fx_map_new, fx_set_contains, fx_set_insert, fx_set_new,
};
use crate::graph::{connects, count_connecting, out_targets, Grown, GRAPH_CAPACITY};
use crate::network::types::{
    BasicChannel, Channel, EDistChannel, Flow, FlowChannel, Link, Node, NodeId, NodeKind,
};
use crate::seqs::{is_first, lemma_filter_counts};
use itertools::Itertools;
use rustc_hash::{FxHashMap, FxHashSet};
use vstd::prelude::*;

verus! {

/// The reasons for which a list of nodes and links is no topology.
#[derive(Debug, Clone, Copy, PartialEq, Eq, Structural)]
pub enum TopologyError {
    /// Two nodes have the same identifier.
    DuplicateNodeId(NodeId),
    /// The identifiers of the nodes do not count up from zero: some number
    /// below this identifier is missing.
    HoleBeforeId(NodeId),
    /// A link joins a node to itself.
    NodeAdjacentSelf(NodeId),
    /// A link names a node that was not declared.
    UndeclaredNode(NodeId),
    /// Two links join the same pair of nodes.
    DuplicateLink {
        /// The node at which the doubled channel starts.
        n1: NodeId,
        /// The node at which the doubled channel ends.
        n2: NodeId,
    },
    /// A host is attached by more than one link.
    TooManyHostLinks {
        /// The host.
        id: NodeId,
        /// The number of its links.
        n: usize,
    },
    /// A node is attached by no link.
    IsolatedNode(NodeId),
}

/// The test for a node to carry the identifier `k`.
pub open spec fn has_id(k: usize) -> spec_fn(Node) -> bool {
    |n: Node| n.id.0 == k
}

/// Whether some node carries the identifier `id`.
pub open spec fn declared(nodes: Seq<Node>, id: usize) -> bool {
    exists|i: int| 0 <= i < nodes.len() && nodes[i].id.0 == id
}

/// Whether two nodes carry the identifier `id`.
pub open spec fn duplicated(nodes: Seq<Node>, id: usize) -> bool {
    exists|i: int, j: int| 0 <= i < j < nodes.len() && nodes[i].id.0 == id && nodes[j].id.0 == id
}

/// Whether `id` is declared although a smaller number is not.
pub open spec fn after_hole(nodes: Seq<Node>, id: usize) -> bool {
    declared(nodes, id) && exists|h: usize| h < id && !declared(nodes, h)
}

/// Whether the node `id` is declared as a host.
pub open spec fn is_host(nodes: Seq<Node>, id: usize) -> bool {
    exists|i: int| 0 <= i < nodes.len() && nodes[i].id.0 == id && nodes[i].kind == NodeKind::Host
}

/// Whether some link has the node `id` as an endpoint.
pub open spec fn referenced(links: Seq<Link>, id: usize) -> bool {
    exists|k: int| 0 <= k < links.len() && (links[k].a.0 == id || links[k].b.0 == id)
}

/// The channel from `a` to `b` that `link` stands for.
pub open spec fn forward(link: Link) -> BasicChannel {
    BasicChannel { src: link.a, dst: link.b, bandwidth: link.bandwidth, delay: link.delay }
}

/// The channel from `b` to `a` that `link` stands for.
pub open spec fn backward(link: Link) -> BasicChannel {
    BasicChannel { src: link.b, dst: link.a, bandwidth: link.bandwidth, delay: link.delay }
}

/// The channels of a list of links: for the link at position `k`, the
/// channel from `a` to `b` at position `2k` and the channel from `b` to `a`
/// at position `2k + 1`.
pub open spec fn channels_of(links: Seq<Link>) -> Seq<BasicChannel> {
    Seq::new(
        2 * links.len(),
        |e: int|
            if e % 2 == 0 {
                forward(links[e / 2])
            } else {
                backward(links[e / 2])
            },
    )
}

/// Whether another channel has the endpoints of the channel at `e`.
pub open spec fn parallel(channels: Seq<BasicChannel>, e: int) -> bool {
    exists|f: int|
        0 <= f < channels.len() && f != e && channels[f].src == channels[e].src && channels[f].dst
            == channels[e].dst
}

/// The endpoints of every channel, as pairs of node indices.
pub open spec fn endpoints(channels: Seq<BasicChannel>) -> Seq<(usize, usize)> {
    channels.map_values(|c: BasicChannel| (c.src.0, c.dst.0))
}

/// The number of channels that leave the node `id`.
pub open spec fn out_degree(channels: Seq<BasicChannel>, id: usize) -> nat {
    out_targets(endpoints(channels), id).len()
}

/// Whether the channel at `e` leaves a host that more than one channel
/// leaves.
pub open spec fn crowded(nodes: Seq<Node>, channels: Seq<BasicChannel>, e: int) -> bool {
    is_host(nodes, channels[e].src.0) && out_degree(channels, channels[e].src.0) > 1
}

/// Every identifier is carried by one node at most, and the identifiers
/// count up from zero.
pub open spec fn ids_valid(nodes: Seq<Node>) -> bool {
    &&& forall|id: usize| !duplicated(nodes, id)
    &&& forall|id: usize| !after_hole(nodes, id)
}

/// Every link joins two different nodes, both declared.
pub open spec fn links_valid(nodes: Seq<Node>, links: Seq<Link>) -> bool {
    &&& forall|k: int| 0 <= k < links.len() ==> links[k].a != links[k].b
    &&& forall|k: int|
        0 <= k < links.len() ==> declared(nodes, links[k].a.0) && declared(nodes, links[k].b.0)
}

/// Every node is an endpoint of some link.
pub open spec fn all_attached(nodes: Seq<Node>, links: Seq<Link>) -> bool {
    forall|id: usize| declared(nodes, id) ==> referenced(links, id)
}

/// No two channels have the same endpoints.
pub open spec fn no_parallel(links: Seq<Link>) -> bool {
    forall|e: int| 0 <= e < 2 * links.len() ==> !parallel(channels_of(links), e)
}

/// No host is attached by more than one link.
pub open spec fn hosts_valid(nodes: Seq<Node>, links: Seq<Link>) -> bool {
    forall|e: int| 0 <= e < 2 * links.len() ==> !crowded(nodes, channels_of(links), e)
}

/// What makes a list of nodes and a list of links a topology.
pub open spec fn valid_topology(nodes: Seq<Node>, links: Seq<Link>) -> bool {
    &&& ids_valid(nodes)
    &&& links_valid(nodes, links)
    &&& all_attached(nodes, links)
    &&& no_parallel(links)
    &&& hosts_valid(nodes, links)
}

/// The test for the link at a position to join a node to itself.
pub open spec fn self_linked(links: Seq<Link>) -> spec_fn(int) -> bool {
    |k: int| links[k].a == links[k].b
}

/// The test for the link at a position to name a node that is not declared.
pub open spec fn dangling(nodes: Seq<Node>, links: Seq<Link>) -> spec_fn(int) -> bool {
    |k: int| !declared(nodes, links[k].a.0) || !declared(nodes, links[k].b.0)
}

/// The test for the channel at a position to have a parallel channel.
pub open spec fn doubled(links: Seq<Link>) -> spec_fn(int) -> bool {
    |e: int| parallel(channels_of(links), e)
}

/// The test for the channel at a position to leave a host that more than
/// one channel leaves.
pub open spec fn overfull(nodes: Seq<Node>, links: Seq<Link>) -> spec_fn(int) -> bool {
    |e: int| crowded(nodes, channels_of(links), e)
}

/// Whether `id` is the smallest identifier that two nodes carry.
pub open spec fn first_duplicate(nodes: Seq<Node>, id: usize) -> bool {
    &&& duplicated(nodes, id)
    &&& forall|k: usize| k < id ==> !duplicated(nodes, k)
}

/// Whether no identifier is carried twice and `id` is the smallest
/// identifier that is declared although a smaller number is not.
pub open spec fn first_hole(nodes: Seq<Node>, id: usize) -> bool {
    &&& forall|k: usize| !duplicated(nodes, k)
    &&& after_hole(nodes, id)
    &&& forall|k: usize| k < id ==> !after_hole(nodes, k)
}

/// Whether `err` is the error that the checks report for `nodes` and `links`.
///
/// The checks run in a fixed order: doubled identifiers, holes in the
/// identifiers, links from a node to itself, links to undeclared nodes, nodes
/// without a link, doubled links, hosts with more than one link. The first
/// check that fails is reported, with the first of its findings: the smallest
/// identifier for a check on nodes, the first link or channel for a check on
/// links.
pub open spec fn first_error(nodes: Seq<Node>, links: Seq<Link>, err: TopologyError) -> bool {
    match err {
        TopologyError::DuplicateNodeId(id) => first_duplicate(nodes, id.0),
        TopologyError::HoleBeforeId(id) => first_hole(nodes, id.0),
        TopologyError::NodeAdjacentSelf(id) => {
            &&& ids_valid(nodes)
            &&& exists|k: int|
                is_first(links.len() as int, self_linked(links), k) && id == links[k].a
        },
        TopologyError::UndeclaredNode(id) => {
            &&& ids_valid(nodes)
            &&& forall|k: int| 0 <= k < links.len() ==> links[k].a != links[k].b
            &&& exists|k: int|
                is_first(links.len() as int, dangling(nodes, links), k) && id == if !declared(
                    nodes,
                    links[k].a.0,
                ) {
                    links[k].a
                } else {
                    links[k].b
                }
        },
        TopologyError::IsolatedNode(id) => {
            &&& ids_valid(nodes)
            &&& links_valid(nodes, links)
            &&& declared(nodes, id.0) && !referenced(links, id.0)
            &&& forall|k: usize| k < id.0 ==> referenced(links, k)
        },
        TopologyError::DuplicateLink { n1, n2 } => {
            &&& ids_valid(nodes)
            &&& links_valid(nodes, links)
            &&& all_attached(nodes, links)
            &&& exists|e: int|
                is_first(2 * links.len() as int, doubled(links), e) && n1 == channels_of(
                    links,
                )[e].src && n2 == channels_of(links)[e].dst
        },
        TopologyError::TooManyHostLinks { id, n } => {
            &&& ids_valid(nodes)
            &&& links_valid(nodes, links)
            &&& all_attached(nodes, links)
            &&& no_parallel(links)
            &&& exists|e: int|
                is_first(2 * links.len() as int, overfull(nodes, links), e) && id == channels_of(
                    links,
                )[e].src && n == out_degree(channels_of(links), id.0)
        },
    }
}

/// The position of the channel that runs against the channel at `e`.
pub open spec fn reverse_of(e: int) -> int {
    if e % 2 == 0 {
        e + 1
    } else {
        e - 1
    }
}

/// What a channel of any kind says of itself, as a plain channel.
pub open spec fn basic_of<C: Channel>(c: C) -> BasicChannel {
    BasicChannel {
        src: c.spec_src(),
        dst: c.spec_dst(),
        bandwidth: c.spec_bandwidth(),
        delay: c.spec_delay(),
    }
}

/// A network topology: the nodes in the order of their identifiers, the links
/// as they were given, and two channels for every link.
///
/// The node with identifier `i` is the node with index `i` of the graph, as
/// the map from identifiers to indices says; the channel at position `e` is
/// the edge with index `e`.
pub struct Topology<C> {
    pub graph: Grown,
    pub id2idx: FxHashMap<usize, usize>,
    pub nodes: Vec<Node>,
    pub channels: Vec<C>,
    pub links: Vec<Link>,
}

/// The map from the identifiers of `n` nodes to their indices in the graph:
/// every identifier is its own index.
pub open spec fn index_map(n: nat) -> Map<usize, usize> {
    Map::new(|id: usize| id < n, |id: usize| id)
}

impl<C: Channel> Topology<C> {
    /// The channels of the topology, without what their kind adds.
    pub open spec fn basics(&self) -> Seq<BasicChannel> {
        self.channels@.map_values(|c: C| basic_of(c))
    }

    /// The nodes and links form a valid topology, the nodes stand in the
    /// order of their identifiers, the channels are those of the links, and
    /// the graph holds one node for every node and one edge for every
    /// channel.
    pub open spec fn wf(&self) -> bool {
        &&& valid_topology(self.nodes@, self.links@)
        &&& self.nodes@.len() < GRAPH_CAPACITY
        &&& self.channels@.len() < GRAPH_CAPACITY
        &&& forall|i: int| 0 <= i < self.nodes@.len() ==> (#[trigger] self.nodes@[i]).id.0 == i
        &&& self.basics() == channels_of(self.links@)
        &&& self.graph.order() == self.nodes@.len()
        &&& self.graph.edges() == endpoints(self.basics())
        &&& self.id2idx@ == index_map(self.nodes@.len())
    }

    /// The edges of the topology: the endpoints of its channels.
    pub open spec fn edges(&self) -> Seq<(usize, usize)> {
        endpoints(self.basics())
    }

    /// In a topology, every edge joins two different nodes of the topology,
    /// no two edges are alike, and the edges at positions `2k` and `2k + 1`
    /// are the reverse of each other.
    pub proof fn lemma_edges(&self)
        requires
            self.wf(),
        ensures
            self.edges().len() == self.channels@.len(),
            self.channels@.len() == 2 * self.links@.len(),
            forall|e: int|
                0 <= e < self.edges().len() ==> (#[trigger] self.edges()[e]).0 < self.nodes@.len()
                    && self.edges()[e].1 < self.nodes@.len() && self.edges()[e].0
                    != self.edges()[e].1,
            forall|e: int, f: int|
                0 <= e < f < self.edges().len() ==> self.edges()[e] != self.edges()[f],
            forall|e: int|
                0 <= e < self.edges().len() ==> #[trigger] self.edges()[reverse_of(e)] == (
                    self.edges()[e].1,
                    self.edges()[e].0,
                ),
    {
        let edges = self.edges();
        let links = self.links@;
        let chans = channels_of(links);
        lemma_id_order(self.nodes@, self.nodes@);
        assert forall|e: int| 0 <= e < edges.len() implies (#[trigger] edges[e]).0
            < self.nodes@.len() && edges[e].1 < self.nodes@.len() && edges[e].0 != edges[e].1 by {
            let k = e / 2;
            assert(declared(self.nodes@, links[k].a.0) && declared(self.nodes@, links[k].b.0));
            assert(links[k].a != links[k].b);
        }
        assert forall|e: int, f: int| 0 <= e < f < edges.len() implies edges[e] != edges[f] by {
            if edges[e] == edges[f] {
                assert(chans[f].src.0 == chans[e].src.0);
                assert(chans[f].src == chans[e].src && chans[f].dst == chans[e].dst);
                assert(parallel(chans, e));
            }
        }
    }

    /// Builds a graph with the nodes and edges of this topology, in their
    /// order.
    pub fn copy_graph(&self) -> (g: Grown)
        requires
            self.wf(),
        ensures
            g.order() == self.graph.order(),
            g.edges() == self.graph.edges(),
    {
        let n = self.nodes.len();
        let m = self.channels.len();
        let ghost edges = self.edges();
        proof {
            self.lemma_edges();
        }
        let mut g = Grown::new();
        let mut i: usize = 0;
        while i < n
            invariant
                i <= n,
                n < GRAPH_CAPACITY,
                g.order() == i,
                g.edges() == Seq::<(usize, usize)>::empty(),
            decreases n - i,
        {
            let _ = g.add_node();
            i += 1;
        }
        let mut e: usize = 0;
        proof {
            assert(g.edges() =~= edges.take(0));
        }
        while e < m
            invariant
                e <= m,
                m < GRAPH_CAPACITY,
                m == self.channels@.len(),
                edges == self.edges(),
                edges.len() == m,
                g.order() == n,
                g.edges() == edges.take(e as int),
                forall|f: int|
                    0 <= f < edges.len() ==> (#[trigger] edges[f]).0 < n && edges[f].1 < n,
            decreases m - e,
        {
            let src = self.channels[e].src();
            let dst = self.channels[e].dst();
            proof {
                assert(edges[e as int] == (src.0, dst.0));
            }
            let _ = g.add_edge(src.0, dst.0);
            proof {
                assert(edges.take(e + 1) =~= edges.take(e as int).push((src.0, dst.0)));
            }
            e += 1;
        }
        proof {
            assert(edges.take(e as int) =~= edges);
        }
        g
    }

    /// The index of the channel from `a` to `b`, if there is one.
    pub fn find_edge(&self, a: NodeId, b: NodeId) -> (r: Option<usize>)
        requires
            self.wf(),
        ensures
            match r {
                Some(e) => e < self.edges().len() && self.edges()[e as int] == (a.0, b.0),
                None => !crate::routing::adjacent(self.edges(), a.0, b.0),
            },
    {
        if a.0 < self.nodes.len() && b.0 < self.nodes.len() {
            self.graph.find_edge(a.0, b.0)
        } else {
            proof {
                self.lemma_edges();
            }
            None
        }
    }

    /// The index of the node `id`, if the topology has such a node: what
    /// the map from identifiers to indices holds for it, which in a
    /// topology is the identifier itself.
    pub fn idx_of(&self, id: &NodeId) -> (r: Option<usize>)
        ensures
            r == if self.id2idx@.contains_key(id.0) {
                Some(self.id2idx@[id.0])
            } else {
                None
            },
            self.wf() ==> r == if id.0 < self.nodes@.len() {
                Some(id.0)
            } else {
                None
            },
    {
        fx_map_get(&self.id2idx, id.0)
    }

    /// Builds a map from identifiers to indices like that of this topology.
    pub fn copy_ids(&self) -> (m: FxHashMap<usize, usize>)
        requires
            self.wf(),
        ensures
            m@ == self.id2idx@,
    {
        let mut m = fx_map_new();
        let mut i: usize = 0;
        proof {
            assert(m@ =~= index_map(0));
        }
        while i < self.nodes.len()
            invariant
                i <= self.nodes@.len(),
                self.wf(),
                m@ == index_map(i as nat),
            decreases self.nodes@.len() - i,
        {
            fx_map_insert(&mut m, self.nodes[i].id.0, i);
            proof {
                assert(self.nodes@[i as int].id.0 == i);
                assert(m@ =~= index_map((i + 1) as nat));
            }
            i += 1;
        }
        m
    }

    /// The number of channels.
    pub fn nr_edges(&self) -> (r: usize)
        ensures
            r == self.channels@.len(),
    {
        self.channels.len()
    }
}

/// `Itertools::sorted_by_key` with the identifier as the key: the nodes in
/// ascending order of their identifiers. The sort is stable, so the nodes
/// with one identifier keep their order; the result holds the same nodes as
/// the input.
#[verifier::external_body]
pub(crate) fn sorted_by_id(nodes: &[Node]) -> (r: Vec<Node>)
    ensures
        r@.to_multiset() == nodes@.to_multiset(),
        forall|i: int, j: int| 0 <= i <= j < r@.len() ==> r@[i].id.0 <= r@[j].id.0,
        forall|k: usize| r@.filter(has_id(k)) == nodes@.filter(has_id(k)),
{
    nodes.iter().cloned().sorted_by_key(|n| n.id.0).collect()
}

/// Whether `sorted` holds the nodes of `nodes` in the order of their
/// identifiers, which count up from zero.
pub open spec fn in_id_order(nodes: Seq<Node>, sorted: Seq<Node>) -> bool {
    &&& sorted.to_multiset() == nodes.to_multiset()
    &&& forall|k: usize| sorted.filter(has_id(k)) == nodes.filter(has_id(k))
    &&& forall|i: int| 0 <= i < sorted.len() ==> (#[trigger] sorted[i]).id.0 == i
}

/// Two lists that hold the same nodes with any one identifier declare and
/// double the same identifiers.
pub proof fn lemma_same_ids(a: Seq<Node>, b: Seq<Node>, k: usize)
    requires
        a.filter(has_id(k)) == b.filter(has_id(k)),
    ensures
        declared(a, k) == declared(b, k),
        duplicated(a, k) == duplicated(b, k),
{
    lemma_filter_counts(a, has_id(k));
    lemma_filter_counts(b, has_id(k));
    if declared(a, k) {
        let i = choose|i: int| 0 <= i < a.len() && a[i].id.0 == k;
        assert(has_id(k)(a[i]));
        let j = choose|j: int| 0 <= j < b.len() && has_id(k)(b[j]);
        assert(b[j].id.0 == k);
    }
    if declared(b, k) {
        let i = choose|i: int| 0 <= i < b.len() && b[i].id.0 == k;
        assert(has_id(k)(b[i]));
        let j = choose|j: int| 0 <= j < a.len() && has_id(k)(a[j]);
        assert(a[j].id.0 == k);
    }
    if duplicated(a, k) {
        let (i, j) = choose|i: int, j: int|
            0 <= i < j < a.len() && a[i].id.0 == k && a[j].id.0 == k;
        assert(has_id(k)(a[i]) && has_id(k)(a[j]));
        let (p, q) = choose|p: int, q: int|
            0 <= p < q < b.len() && has_id(k)(b[p]) && has_id(k)(b[q]);
        assert(b[p].id.0 == k && b[q].id.0 == k);
    }
    if duplicated(b, k) {
        let (i, j) = choose|i: int, j: int|
            0 <= i < j < b.len() && b[i].id.0 == k && b[j].id.0 == k;
        assert(has_id(k)(b[i]) && has_id(k)(b[j]));
        let (p, q) = choose|p: int, q: int|
            0 <= p < q < a.len() && has_id(k)(a[p]) && has_id(k)(a[q]);
        assert(a[p].id.0 == k && a[q].id.0 == k);
    }
}

/// Where the nodes can be put in the order of identifiers that count up from
/// zero, the identifiers are valid, the declared identifiers are those below
/// the number of nodes, and the kind of a node is found at its identifier.
#[verifier::rlimit(50)]
pub proof fn lemma_id_order(nodes: Seq<Node>, sorted: Seq<Node>)
    requires
        in_id_order(nodes, sorted),
    ensures
        ids_valid(nodes),
        sorted.len() == nodes.len(),
        forall|id: usize| declared(nodes, id) <==> id < sorted.len(),
        forall|id: usize|
            id < sorted.len() ==> (is_host(nodes, id) <==> sorted[id as int].kind
                == NodeKind::Host),
{
    broadcast use vstd::seq_lib::to_multiset_len, vstd::seq_lib::to_multiset_contains;

    assert(sorted.len() == sorted.to_multiset().len());
    assert(nodes.len() == nodes.to_multiset().len());
    assert forall|id: usize| declared(nodes, id) <==> id < sorted.len() by {
        lemma_same_ids(nodes, sorted, id);
        if id < sorted.len() {
            assert(sorted[id as int].id.0 == id);
        }
    }
    assert forall|id: usize| !duplicated(nodes, id) by {
        lemma_same_ids(nodes, sorted, id);
    }
    assert forall|id: usize| id < sorted.len() implies (is_host(nodes, id) <==> sorted[id as int].kind
        == NodeKind::Host) by {
        let v = sorted[id as int];
        if is_host(nodes, id) {
            let i = choose|i: int|
                0 <= i < nodes.len() && nodes[i].id.0 == id && nodes[i].kind == NodeKind::Host;
            assert(nodes.contains(nodes[i]));
            assert(nodes.to_multiset().count(nodes[i]) > 0);
            assert(sorted.contains(nodes[i]));
            let j = choose|j: int| 0 <= j < sorted.len() && sorted[j] == nodes[i];
            assert(sorted[j].id.0 == j);
        }
        if v.kind == NodeKind::Host {
            assert(sorted.contains(v));
            assert(sorted.to_multiset().count(v) > 0);
            assert(nodes.contains(v));
            let i = choose|i: int| 0 <= i < nodes.len() && nodes[i] == v;
            assert(nodes[i].id.0 == id && nodes[i].kind == NodeKind::Host);
        }
    }
}

/// Putting the nodes in the order of their identifiers changes nothing about
/// the validity of a topology.
#[verifier::rlimit(50)]
pub proof fn lemma_valid_in_id_order(nodes: Seq<Node>, sorted: Seq<Node>, links: Seq<Link>)
    requires
        in_id_order(nodes, sorted),
    ensures
        valid_topology(nodes, links) == valid_topology(sorted, links),
{
    lemma_id_order(nodes, sorted);
    lemma_id_order(sorted, sorted);
    assert forall|id: usize| is_host(nodes, id) == is_host(sorted, id) by {
        if is_host(nodes, id) {
            let i = choose|i: int|
                0 <= i < nodes.len() && nodes[i].id.0 == id && nodes[i].kind == NodeKind::Host;
            assert(declared(nodes, id));
        }
        if is_host(sorted, id) {
            let i = choose|i: int|
                0 <= i < sorted.len() && sorted[i].id.0 == id && sorted[i].kind == NodeKind::Host;
            assert(declared(sorted, id));
        }
    }
    assert(links_valid(nodes, links) == links_valid(sorted, links));
    assert(all_attached(nodes, links) == all_attached(sorted, links));
    assert(hosts_valid(nodes, links) == hosts_valid(sorted, links)) by {
        assert forall|e: int|
            crowded(nodes, channels_of(links), e) == crowded(sorted, channels_of(links), e) by {}
    }
}

/// Puts the nodes in the order of their identifiers and checks that no
/// identifier is carried twice and that the identifiers count up from zero.
#[verifier::rlimit(50)]
fn check_ids(nodes: &[Node]) -> (r: Result<Vec<Node>, TopologyError>)
    ensures
        match r {
            Ok(sorted) => in_id_order(nodes@, sorted@),
            Err(TopologyError::DuplicateNodeId(id)) => first_duplicate(nodes@, id.0),
            Err(TopologyError::HoleBeforeId(id)) => first_hole(nodes@, id.0),
            Err(_) => false,
        },
{
    let sorted = sorted_by_id(nodes);
    let n = sorted.len();
    let mut i: usize = 1;
    while i < n
        invariant
            1 <= i,
            n == sorted@.len(),
            forall|a: int, b: int| 0 <= a <= b < n ==> sorted@[a].id.0 <= sorted@[b].id.0,
            forall|a: int, b: int| 0 <= a < b < i && b < n ==> sorted@[a].id.0 < sorted@[b].id.0,
            forall|k: usize| sorted@.filter(has_id(k)) == nodes@.filter(has_id(k)),
        decreases n - i,
    {
        if sorted[i].id.0 == sorted[i - 1].id.0 {
            let id = sorted[i].id;
            proof {
                lemma_same_ids(sorted@, nodes@, id.0);
                assert(duplicated(sorted@, id.0)) by {
                    assert(sorted@[i - 1].id.0 == id.0 && sorted@[i as int].id.0 == id.0);
                }
                assert forall|k: usize| k < id.0 implies !duplicated(nodes@, k) by {
                    lemma_same_ids(sorted@, nodes@, k);
                    if duplicated(sorted@, k) {
                        let (p, q) = choose|p: int, q: int|
                            0 <= p < q < sorted@.len() && sorted@[p].id.0 == k && sorted@[q].id.0
                                == k;
                        if q >= i - 1 {
                            assert(sorted@[i - 1].id.0 <= sorted@[q].id.0);
                        }
                    }
                }
            }
            return Err(TopologyError::DuplicateNodeId(id));
        }
        i += 1;
    }
    proof {
        assert forall|k: usize| !duplicated(nodes@, k) by {
            lemma_same_ids(sorted@, nodes@, k);
        }
    }
    let mut j: usize = 0;
    while j < n
        invariant
            j <= n,
            n == sorted@.len(),
            forall|a: int, b: int| 0 <= a <= b < n ==> sorted@[a].id.0 <= sorted@[b].id.0,
            forall|a: int, b: int| 0 <= a < b < n ==> sorted@[a].id.0 < sorted@[b].id.0,
            forall|a: int| 0 <= a < j ==> sorted@[a].id.0 == a,
            forall|k: usize| sorted@.filter(has_id(k)) == nodes@.filter(has_id(k)),
            forall|k: usize| !duplicated(nodes@, k),
        decreases n - j,
    {
        if sorted[j].id.0 != j {
            let id = sorted[j].id;
            proof {
                if j > 0 {
                    assert(sorted@[j - 1].id.0 < sorted@[j as int].id.0);
                }
                assert(id.0 > j);
                lemma_same_ids(sorted@, nodes@, id.0);
                lemma_same_ids(sorted@, nodes@, j);
                assert(declared(sorted@, id.0)) by {
                    assert(sorted@[j as int].id.0 == id.0);
                }
                assert(!declared(sorted@, j)) by {
                    assert forall|a: int| 0 <= a < sorted@.len() implies sorted@[a].id.0 != j by {
                        if a >= j {
                            assert(sorted@[j as int].id.0 <= sorted@[a].id.0);
                        }
                    }
                }
                assert(after_hole(nodes@, id.0));
                assert forall|k: usize| k < id.0 implies !after_hole(nodes@, k) by {
                    lemma_same_ids(sorted@, nodes@, k);
                    if after_hole(nodes@, k) {
                        let a = choose|a: int| 0 <= a < sorted@.len() && sorted@[a].id.0 == k;
                        if a >= j {
                            assert(sorted@[j as int].id.0 <= sorted@[a].id.0);
                        }
                        let h = choose|h: usize| h < k && !declared(nodes@, h);
                        lemma_same_ids(sorted@, nodes@, h);
                        assert(sorted@[h as int].id.0 == h);
                    }
                }
            }
            return Err(TopologyError::HoleBeforeId(id));
        }
        j += 1;
    }
    Ok(sorted)
}

/// Checks that every link joins two different nodes, both declared.
#[verifier::rlimit(50)]
fn check_links(nodes: Ghost<Seq<Node>>, n: usize, links: &[Link]) -> (r: Result<
    (),
    TopologyError,
>)
    requires
        ids_valid(nodes@),
        forall|id: usize| declared(nodes@, id) <==> id < n,
    ensures
        match r {
            Ok(_) => links_valid(nodes@, links@),
            Err(e) => (e is NodeAdjacentSelf || e is UndeclaredNode) && first_error(
                nodes@,
                links@,
                e,
            ),
        },
{
    let mut k: usize = 0;
    while k < links.len()
        invariant
            k <= links@.len(),
            ids_valid(nodes@),
            forall|j: int| 0 <= j < k ==> links@[j].a != links@[j].b,
        decreases links@.len() - k,
    {
        if links[k].a.0 == links[k].b.0 {
            proof {
                let test = self_linked(links@);
                assert(is_first(links@.len() as int, test, k as int)) by {
                    assert(test(k as int));
                    assert forall|j: int| 0 <= j < k implies !(#[trigger] test(j)) by {}
                }
            }
            return Err(TopologyError::NodeAdjacentSelf(links[k].a));
        }
        k += 1;
    }
    let mut k: usize = 0;
    while k < links.len()
        invariant
            k <= links@.len(),
            ids_valid(nodes@),
            forall|j: int| 0 <= j < links@.len() ==> links@[j].a != links@[j].b,
            forall|id: usize| declared(nodes@, id) <==> id < n,
            forall|j: int|
                0 <= j < k ==> declared(nodes@, links@[j].a.0) && declared(nodes@, links@[j].b.0),
        decreases links@.len() - k,
    {
        if links[k].a.0 >= n || links[k].b.0 >= n {
            let id = if links[k].a.0 >= n {
                links[k].a
            } else {
                links[k].b
            };
            proof {
                let test = dangling(nodes@, links@);
                assert(is_first(links@.len() as int, test, k as int)) by {
                    assert(test(k as int));
                    assert forall|j: int| 0 <= j < k implies !(#[trigger] test(j)) by {}
                }
            }
            return Err(TopologyError::UndeclaredNode(id));
        }
        k += 1;
    }
    Ok(())
}

/// Checks that every node is an endpoint of some link.
#[verifier::rlimit(50)]
fn check_attached(nodes: Ghost<Seq<Node>>, n: usize, links: &[Link]) -> (r: Result<
    (),
    TopologyError,
>)
    requires
        ids_valid(nodes@),
        links_valid(nodes@, links@),
        forall|id: usize| declared(nodes@, id) <==> id < n,
    ensures
        match r {
            Ok(_) => all_attached(nodes@, links@),
            Err(e) => e is IsolatedNode && first_error(nodes@, links@, e),
        },
{
    let mut seen: FxHashSet<usize> = fx_set_new();
    let mut k: usize = 0;
    while k < links.len()
        invariant
            k <= links@.len(),
            forall|id: usize| seen@.contains(id) <==> referenced(links@.take(k as int), id),
        decreases links@.len() - k,
    {
        let link = links[k];
        let _ = fx_set_insert(&mut seen, link.a.0);
        let _ = fx_set_insert(&mut seen, link.b.0);
        proof {
            let before = links@.take(k as int);
            let after = links@.take(k + 1);
            assert forall|id: usize| seen@.contains(id) <==> referenced(after, id) by {
                if referenced(before, id) {
                    let j = choose|j: int|
                        0 <= j < before.len() && (before[j].a.0 == id || before[j].b.0 == id);
                    assert(after[j] == before[j]);
                }
                if referenced(after, id) {
                    let j = choose|j: int|
                        0 <= j < after.len() && (after[j].a.0 == id || after[j].b.0 == id);
                    if j < k {
                        assert(before[j] == after[j]);
                    }
                }
                if id == link.a.0 || id == link.b.0 {
                    assert(after[k as int] == link);
                }
            }
        }
        k += 1;
    }
    assert(links@.take(k as int) == links@);
    let mut i: usize = 0;
    while i < n
        invariant
            i <= n,
            forall|id: usize| seen@.contains(id) <==> referenced(links@, id),
            forall|id: usize| id < i ==> referenced(links@, id),
            forall|id: usize| declared(nodes@, id) <==> id < n,
            ids_valid(nodes@),
            links_valid(nodes@, links@),
        decreases n - i,
    {
        if !fx_set_contains(&seen, i) {
            return Err(TopologyError::IsolatedNode(NodeId(i)));
        }
        i += 1;
    }
    Ok(())
}

/// An edge leads from `a` to `b` twice exactly if two edges do.
pub proof fn lemma_count_connecting(edges: Seq<(usize, usize)>, a: usize, b: usize)
    ensures
        count_connecting(edges, a, b) >= 2 <==> exists|i: int, j: int|
            0 <= i < j < edges.len() && edges[i] == (a, b) && edges[j] == (a, b),
{
    lemma_filter_counts(edges, connects(a, b));
    if count_connecting(edges, a, b) >= 2 {
        let (i, j) = choose|i: int, j: int|
            0 <= i < j < edges.len() && connects(a, b)(edges[i]) && connects(a, b)(edges[j]);
        assert(edges[i] == (a, b) && edges[j] == (a, b));
    }
    if exists|i: int, j: int| 0 <= i < j < edges.len() && edges[i] == (a, b) && edges[j] == (a, b) {
        let (i, j) = choose|i: int, j: int|
            0 <= i < j < edges.len() && edges[i] == (a, b) && edges[j] == (a, b);
        assert(connects(a, b)(edges[i]) && connects(a, b)(edges[j]));
    }
}

/// A channel has a parallel channel exactly if its endpoints are joined by
/// two edges.
#[verifier::rlimit(50)]
pub proof fn lemma_parallel(channels: Seq<BasicChannel>, e: int)
    requires
        0 <= e < channels.len(),
    ensures
        parallel(channels, e) <==> count_connecting(
            endpoints(channels),
            channels[e].src.0,
            channels[e].dst.0,
        ) >= 2,
{
    let edges = endpoints(channels);
    let a = channels[e].src.0;
    let b = channels[e].dst.0;
    lemma_count_connecting(edges, a, b);
    assert(edges[e] == (a, b));
    if parallel(channels, e) {
        let f = choose|f: int|
            0 <= f < channels.len() && f != e && channels[f].src == channels[e].src
                && channels[f].dst == channels[e].dst;
        assert(edges[f] == (a, b));
        if f < e {
            assert(0 <= f < e < edges.len() && edges[f] == (a, b) && edges[e] == (a, b));
        } else {
            assert(0 <= e < f < edges.len() && edges[e] == (a, b) && edges[f] == (a, b));
        }
    }
    if count_connecting(edges, a, b) >= 2 {
        let (i, j) = choose|i: int, j: int|
            0 <= i < j < edges.len() && edges[i] == (a, b) && edges[j] == (a, b);
        let f = if i == e {
            j
        } else {
            i
        };
        assert(channels[f].src.0 == a && channels[f].dst.0 == b);
        assert(channels[f].src == channels[e].src);
        assert(channels[f].dst == channels[e].dst);
    }
}

impl Topology<BasicChannel> {
    /// Builds a topology from a list of nodes and a list of links.
    ///
    /// The lists are checked in this order, and the first check that fails
    /// is reported: no identifier is carried by two nodes; the identifiers
    /// count up from zero; no link joins a node to itself; every link joins
    /// declared nodes; every node is attached by a link; no two links join
    /// the same nodes; every host is attached by one link only.
    ///
    /// The graph numbers its nodes and edges with 32 bits, which bounds the
    /// number of nodes and channels.
    #[verifier::rlimit(50)]
    pub fn new(nodes: &[Node], links: &[Link]) -> (r: Result<Self, TopologyError>)
        requires
            nodes@.len() < GRAPH_CAPACITY,
            2 * links@.len() < GRAPH_CAPACITY,
        ensures
            r is Ok <==> valid_topology(nodes@, links@),
            match r {
                Ok(t) => {
                    &&& t.wf()
                    &&& in_id_order(nodes@, t.nodes@)
                    &&& t.links@ == links@
                    &&& t.channels@ == channels_of(links@)
                },
                Err(e) => first_error(nodes@, links@, e),
            },
    {
        let sorted = match check_ids(nodes) {
            Ok(sorted) => sorted,
            Err(e) => {
                proof {
                    lemma_error_excludes_valid(nodes@, links@, e);
                }
                return Err(e);
            },
        };
        let n = sorted.len();
        proof {
            lemma_id_order(nodes@, sorted@);
        }
        match check_links(Ghost(nodes@), n, links) {
            Ok(_) => {},
            Err(e) => {
                proof {
                    lemma_error_excludes_valid(nodes@, links@, e);
                }
                return Err(e);
            },
        }
        match check_attached(Ghost(nodes@), n, links) {
            Ok(_) => {},
            Err(e) => {
                proof {
                    lemma_error_excludes_valid(nodes@, links@, e);
                }
                return Err(e);
            },
        }
        let mut graph = Grown::new();
        let mut id2idx = fx_map_new();
        let mut i: usize = 0;
        proof {
            assert(id2idx@ =~= index_map(0));
        }
        while i < n
            invariant
                i <= n,
                n < GRAPH_CAPACITY,
                n == sorted@.len(),
                forall|j: int| 0 <= j < n ==> (#[trigger] sorted@[j]).id.0 == j,
                graph.order() == i,
                graph.edges() == Seq::<(usize, usize)>::empty(),
                id2idx@ == index_map(i as nat),
            decreases n - i,
        {
            let idx = graph.add_node();
            fx_map_insert(&mut id2idx, sorted[i].id.0, idx);
            proof {
                assert(sorted@[i as int].id.0 == i);
                assert(id2idx@ =~= index_map((i + 1) as nat));
            }
            i += 1;
        }
        let mut channels: Vec<BasicChannel> = Vec::new();
        let mut kept: Vec<Link> = Vec::new();
        let mut k: usize = 0;
        while k < links.len()
            invariant
                k <= links@.len(),
                2 * links@.len() < GRAPH_CAPACITY,
                graph.order() == n,
                forall|j: int|
                    0 <= j < links@.len() ==> (#[trigger] links@[j]).a.0 < n && links@[j].b.0 < n,
                channels@ == channels_of(links@.take(k as int)),
                kept@ == links@.take(k as int),
                graph.edges() == endpoints(channels@),
            decreases links@.len() - k,
        {
            let link = links[k];
            proof {
                assert(links@[k as int].a.0 < n);
            }
            let ghost before = channels@;
            let _ = graph.add_edge(link.a.0, link.b.0);
            channels.push(BasicChannel::new(link.a, link.b, link.bandwidth, link.delay));
            let _ = graph.add_edge(link.b.0, link.a.0);
            channels.push(BasicChannel::new(link.b, link.a, link.bandwidth, link.delay));
            kept.push(link);
            proof {
                let after = links@.take(k + 1);
                assert(kept@ =~= after);
                assert(channels@ =~= channels_of(after)) by {
                    assert forall|e: int| 0 <= e < channels@.len() implies channels@[e]
                        == channels_of(after)[e] by {
                        if e < 2 * k {
                            assert(channels@[e] == before[e]);
                            assert(links@.take(k as int)[e / 2] == after[e / 2]);
                        } else {
                            assert(after[e / 2] == link);
                        }
                    }
                }
                assert(graph.edges() =~= endpoints(channels@));
            }
            k += 1;
        }
        proof {
            assert(links@.take(k as int) == links@);
        }
        let m = channels.len();
        let mut e: usize = 0;
        while e < m
            invariant
                e <= m,
                m == channels@.len(),
                channels@ == channels_of(links@),
                graph.order() == n,
                graph.edges() == endpoints(channels@),
                forall|j: int|
                    0 <= j < links@.len() ==> (#[trigger] links@[j]).a.0 < n && links@[j].b.0 < n,
                forall|f: int| 0 <= f < e ==> !parallel(channels@, f),
                ids_valid(nodes@),
                links_valid(nodes@, links@),
                all_attached(nodes@, links@),
            decreases m - e,
        {
            let chan = channels[e];
            proof {
                assert(links@[e as int / 2].a.0 < n);
                lemma_parallel(channels@, e as int);
            }
            if graph.count_connecting(chan.src.0, chan.dst.0) > 1 {
                let err = TopologyError::DuplicateLink { n1: chan.src, n2: chan.dst };
                proof {
                    let test = doubled(links@);
                    assert(is_first(2 * links@.len() as int, test, e as int)) by {
                        assert(test(e as int));
                        assert forall|f: int| 0 <= f < e implies !(#[trigger] test(f)) by {}
                    }
                    lemma_error_excludes_valid(nodes@, links@, err);
                }
                return Err(err);
            }
            e += 1;
        }
        let mut e: usize = 0;
        while e < m
            invariant
                e <= m,
                m == channels@.len(),
                n == sorted@.len(),
                channels@ == channels_of(links@),
                graph.order() == n,
                graph.edges() == endpoints(channels@),
                forall|j: int|
                    0 <= j < links@.len() ==> (#[trigger] links@[j]).a.0 < n && links@[j].b.0 < n,
                forall|id: usize|
                    id < sorted@.len() ==> (is_host(nodes@, id) <==> sorted@[id as int].kind
                        == NodeKind::Host),
                forall|f: int| 0 <= f < e ==> !crowded(nodes@, channels@, f),
                ids_valid(nodes@),
                links_valid(nodes@, links@),
                all_attached(nodes@, links@),
                no_parallel(links@),
            decreases m - e,
        {
            let chan = channels[e];
            proof {
                assert(links@[e as int / 2].a.0 < n);
            }
            if let NodeKind::Host = sorted[chan.src.0].kind {
                let degree = graph.out_degree(chan.src.0);
                if degree > 1 {
                    let err = TopologyError::TooManyHostLinks { id: chan.src, n: degree };
                    proof {
                        let test = overfull(nodes@, links@);
                        assert(is_first(2 * links@.len() as int, test, e as int)) by {
                            assert(test(e as int));
                            assert forall|f: int| 0 <= f < e implies !(#[trigger] test(f)) by {}
                        }
                        lemma_error_excludes_valid(nodes@, links@, err);
                    }
                    return Err(err);
                }
            }
            e += 1;
        }
        let t = Topology { graph, id2idx, nodes: sorted, channels, links: kept };
        proof {
            assert(t.basics() =~= channels_of(links@));
            assert(no_parallel(links@));
            assert(hosts_valid(nodes@, links@));
            assert(valid_topology(nodes@, links@));
            assert(in_id_order(nodes@, t.nodes@));
            lemma_valid_in_id_order(nodes@, t.nodes@, links@);
            assert(t.wf());
        }
        Ok(t)
    }
}

impl Topology<FlowChannel> {
    /// A topology like `topology` whose channels can carry flows, and carry
    /// none yet.
    pub fn new_traced(topology: &Topology<BasicChannel>) -> (r: Self)
        requires
            topology.wf(),
        ensures
            r.wf(),
            r.nodes@ == topology.nodes@,
            r.links@ == topology.links@,
            r.basics() == topology.basics(),
            forall|e: int|
                0 <= e < r.channels@.len() ==> (#[trigger] r.channels@[e]).wf()
                    && r.channels@[e].assigned@ == Seq::<Flow>::empty(),
    {
        let graph = topology.copy_graph();
        let id2idx = topology.copy_ids();
        let mut channels: Vec<FlowChannel> = Vec::new();
        let mut e: usize = 0;
        while e < topology.channels.len()
            invariant
                e <= topology.channels@.len(),
                channels@.len() == e,
                forall|f: int|
                    0 <= f < e ==> {
                        &&& (#[trigger] channels@[f]).wf()
                        &&& basic_of(channels@[f]) == topology.channels@[f]
                        &&& channels@[f].assigned@ == Seq::<Flow>::empty()
                    },
            decreases topology.channels@.len() - e,
        {
            channels.push(FlowChannel::new_from(&topology.channels[e]));
            e += 1;
        }
        let r = Topology {
            graph,
            id2idx,
            nodes: topology.nodes.clone(),
            channels,
            links: topology.links.clone(),
        };
        proof {
            assert(r.basics() =~= topology.basics()) by {
                assert forall|f: int| 0 <= f < r.basics().len() implies r.basics()[f]
                    == topology.basics()[f] by {
                    assert(basic_of(channels@[f]) == topology.channels@[f]);
                }
            }
            assert(r.nodes@ =~= topology.nodes@);
            assert(r.links@ =~= topology.links@);
        }
        r
    }
}

impl Topology<EDistChannel> {
    /// A topology like `topology` whose channels can carry distributions of
    /// delay, and carry none yet.
    pub fn new_edist(topology: &Topology<FlowChannel>) -> (r: Self)
        requires
            topology.wf(),
        ensures
            r.wf(),
            r.nodes@ == topology.nodes@,
            r.links@ == topology.links@,
            r.basics() == topology.basics(),
            forall|e: int|
                0 <= e < r.channels@.len() ==> (#[trigger] r.channels@[e]).dists.inner@.len() == 0,
    {
        let graph = topology.copy_graph();
        let id2idx = topology.copy_ids();
        let mut channels: Vec<EDistChannel> = Vec::new();
        let mut e: usize = 0;
        while e < topology.channels.len()
            invariant
                e <= topology.channels@.len(),
                channels@.len() == e,
                forall|f: int|
                    0 <= f < e ==> {
                        &&& basic_of(#[trigger] channels@[f]) == basic_of(topology.channels@[f])
                        &&& channels@[f].dists.inner@.len() == 0
                    },
            decreases topology.channels@.len() - e,
        {
            channels.push(EDistChannel::new_from(&topology.channels[e]));
            e += 1;
        }
        let r = Topology {
            graph,
            id2idx,
            nodes: topology.nodes.clone(),
            channels,
            links: topology.links.clone(),
        };
        proof {
            assert(r.basics() =~= topology.basics()) by {
                assert forall|f: int| 0 <= f < r.basics().len() implies r.basics()[f]
                    == topology.basics()[f] by {
                    assert(basic_of(channels@[f]) == basic_of(topology.channels@[f]));
                }
            }
            assert(r.nodes@ =~= topology.nodes@);
            assert(r.links@ =~= topology.links@);
        }
        r
    }
}

/// Lists for which an error is reported are no valid topology.
pub proof fn lemma_error_excludes_valid(nodes: Seq<Node>, links: Seq<Link>, err: TopologyError)
    requires
        first_error(nodes, links, err),
    ensures
        !valid_topology(nodes, links),
{
    match err {
        TopologyError::DuplicateNodeId(id) => {},
        TopologyError::HoleBeforeId(id) => {},
        TopologyError::NodeAdjacentSelf(id) => {
            let k = choose|k: int|
                is_first(links.len() as int, self_linked(links), k) && id == links[k].a;
            assert(self_linked(links)(k));
        },
        TopologyError::UndeclaredNode(id) => {
            let test = dangling(nodes, links);
            let k = choose|k: int|
                is_first(links.len() as int, test, k) && id == if !declared(nodes, links[k].a.0) {
                    links[k].a
                } else {
                    links[k].b
                };
            assert(test(k));
        },
        TopologyError::IsolatedNode(id) => {},
        TopologyError::DuplicateLink { n1, n2 } => {
            let test = doubled(links);
            let e = choose|e: int|
                is_first(2 * links.len() as int, test, e) && n1 == channels_of(links)[e].src && n2
                    == channels_of(links)[e].dst;
            assert(test(e));
        },
        TopologyError::TooManyHostLinks { id, n } => {
            let test = overfull(nodes, links);
            let e = choose|e: int|
                is_first(2 * links.len() as int, test, e) && id == channels_of(links)[e].src && n
                    == out_degree(channels_of(links), id.0);
            assert(test(e));
        },
    }
}

} // verus!
