//! The network types: a network of nodes, links and routes; a network whose
//! channels carry flows; and a network whose channels carry delay
//! distributions.

pub mod delay;
pub mod desc;
pub mod ns3path;
pub mod sim;
pub mod simulate;
pub mod topology;
pub mod types;

use crate::network::topology::{
    channels_of, in_id_order, first_error, valid_topology, Topology, TopologyError,
};
use crate::network::types::{BasicChannel, Channel, Link, Node, NodeId};
use crate::routing::{adjacent, next_hop, BfsRoutes, RoutingAlgo};
use vstd::prelude::*;

verus! {

/// Whether every hop that the routes offer from a node is joined to that
/// node by a channel of the topology.
pub open spec fn routes_fit<C: Channel, R: RoutingAlgo>(routes: &R, topology: &Topology<C>) -> bool {
    forall|from: NodeId, to: NodeId, i: int|
        #![trigger routes.hops(from, to)->0[i]]
        routes.hops(from, to) is Some && 0 <= i < routes.hops(from, to)->0.len() ==> adjacent(
            topology.edges(),
            from.0,
            routes.hops(from, to)->0[i].0,
        )
}

/// Whether every hop that the routes offer from a node is joined to that
/// node by one of the links.
pub open spec fn routes_follow<R: RoutingAlgo>(routes: &R, links: Seq<Link>) -> bool {
    forall|from: NodeId, to: NodeId, i: int|
        #![trigger routes.hops(from, to)->0[i]]
        routes.hops(from, to) is Some && 0 <= i < routes.hops(from, to)->0.len() ==> exists|k: int|
            0 <= k < links.len() && links[k].spec_connects(from, routes.hops(from, to)->0[i])
}

/// In a topology, the channels come in pairs that run against each other.
pub proof fn lemma_adjacent_symmetric<C: Channel>(topology: &Topology<C>, a: usize, b: usize)
    requires
        topology.wf(),
        adjacent(topology.edges(), a, b),
    ensures
        adjacent(topology.edges(), b, a),
        a < topology.nodes@.len(),
        b < topology.nodes@.len(),
        a != b,
{
    topology.lemma_edges();
    let edges = topology.edges();
    let e = choose|e: int| 0 <= e < edges.len() && edges[e] == (a, b);
    let f = crate::network::topology::reverse_of(e);
    assert(edges[f] == (edges[e].1, edges[e].0));
    assert(edges[e].0 < topology.nodes@.len());
}

/// In a topology, two nodes that a link joins are joined by a channel.
pub proof fn lemma_link_adjacent<C: Channel>(topology: &Topology<C>, k: int, a: NodeId, b: NodeId)
    requires
        topology.wf(),
        0 <= k < topology.links@.len(),
        topology.links@[k].spec_connects(a, b),
    ensures
        adjacent(topology.edges(), a.0, b.0),
{
    let edges = topology.edges();
    let links = topology.links@;
    let chans = channels_of(links);
    assert(topology.basics() == chans);
    assert(edges.len() == 2 * links.len());
    let e = if links[k].a == a && links[k].b == b {
        2 * k
    } else {
        2 * k + 1
    };
    assert(0 <= e < edges.len());
    assert(e / 2 == k);
    assert(edges[e] == (chans[e].src.0, chans[e].dst.0));
    if links[k].a == a && links[k].b == b {
        assert(e % 2 == 0);
        assert(chans[e] == crate::network::topology::forward(links[k]));
    } else {
        assert(e % 2 == 1);
        assert(chans[e] == crate::network::topology::backward(links[k]));
    }
    assert(edges[e] == (a.0, b.0));
}

/// The shortest routes of a topology lead along its channels.
#[verifier::rlimit(50)]
pub proof fn lemma_shortest_routes_fit<C: Channel>(routes: &BfsRoutes, topology: &Topology<C>)
    requires
        topology.wf(),
        routes.routes_of(topology),
    ensures
        routes_fit(routes, topology),
{
    assert forall|from: NodeId, to: NodeId, i: int|
        #![trigger routes.hops(from, to)->0[i]]
        routes.hops(from, to) is Some && 0 <= i < routes.hops(from, to)->0.len() implies adjacent(
        topology.edges(),
        from.0,
        routes.hops(from, to)->0[i].0,
    ) by {
        let hs = routes.hops(from, to)->0;
        let p = hs[i].0;
        assert(hs == routes.inner@[from.0 as int]@[to.0 as int]@);
        assert(hs.contains(NodeId(p)));
        assert(next_hop(topology.edges(), topology.nodes@, to.0, from.0, p));
        lemma_adjacent_symmetric(topology, p, from.0);
    }
}

/// The way from `src` to `dst` on which, at every node, the hop at position
/// `hash` modulo the number of hops is taken: the nodes after `src`, up to
/// `dst`. There is no way where a node offers no hop, and none that takes
/// more than `fuel` hops.
pub open spec fn hashed_route<R: RoutingAlgo>(
    routes: &R,
    src: NodeId,
    dst: NodeId,
    hash: u64,
    fuel: nat,
) -> Option<Seq<NodeId>>
    decreases fuel,
{
    if src == dst {
        Some(Seq::empty())
    } else if fuel == 0 {
        None
    } else {
        match routes.hops(src, dst) {
            None => None,
            Some(hops) => if hops.len() == 0 {
                None
            } else {
                let next = hops[hash as int % hops.len() as int];
                match hashed_route(routes, next, dst, hash, (fuel - 1) as nat) {
                    None => None,
                    Some(rest) => Some(seq![next] + rest),
                }
            },
        }
    }
}

/// Where a hash picks a way from a node, it picks that way whatever hops it
/// is allowed beyond those that the way takes.
pub proof fn lemma_route_unique<R: RoutingAlgo>(
    routes: &R,
    src: NodeId,
    dst: NodeId,
    hash: u64,
    fuel: nat,
    other: nat,
)
    requires
        hashed_route(routes, src, dst, hash, fuel) is Some,
        hashed_route(routes, src, dst, hash, other) is Some,
    ensures
        hashed_route(routes, src, dst, hash, fuel) == hashed_route(routes, src, dst, hash, other),
    decreases fuel,
{
    if src != dst {
        let hops = routes.hops(src, dst)->0;
        let next = hops[hash as int % hops.len() as int];
        lemma_route_unique(routes, next, dst, hash, (fuel - 1) as nat, (other - 1) as nat);
    }
}

/// The way that a hash picks ends at the destination, and from every node
/// on it the hash picks the rest of the way.
pub proof fn lemma_route_rest<R: RoutingAlgo>(
    routes: &R,
    src: NodeId,
    dst: NodeId,
    hash: u64,
    fuel: nat,
    i: int,
)
    requires
        hashed_route(routes, src, dst, hash, fuel) is Some,
        0 <= i < hashed_route(routes, src, dst, hash, fuel)->0.len(),
    ensures
        src != dst,
        hashed_route(routes, src, dst, hash, fuel)->0.len() <= fuel,
        hashed_route(routes, src, dst, hash, fuel)->0.last() == dst,
        hashed_route(
            routes,
            hashed_route(routes, src, dst, hash, fuel)->0[i],
            dst,
            hash,
            (fuel - 1 - i) as nat,
        ) == Some(hashed_route(routes, src, dst, hash, fuel)->0.skip(i + 1)),
    decreases fuel,
{
    let all = hashed_route(routes, src, dst, hash, fuel)->0;
    let hops = routes.hops(src, dst)->0;
    let next = hops[hash as int % hops.len() as int];
    let rest = hashed_route(routes, next, dst, hash, (fuel - 1) as nat)->0;
    assert(all == seq![next] + rest);
    assert(all.skip(1) =~= rest);
    if rest.len() > 0 {
        lemma_route_rest(routes, next, dst, hash, (fuel - 1) as nat, 0);
        assert(all.last() == rest.last());
    } else {
        assert(next == dst);
    }
    if i > 0 {
        lemma_route_rest(routes, next, dst, hash, (fuel - 1) as nat, i - 1);
        assert(all[i] == rest[i - 1]);
        assert(all.skip(i + 1) =~= rest.skip(i));
    }
}

/// The index of the channel from `a` to `b`.
pub open spec fn edge_between(edges: Seq<(usize, usize)>, a: usize, b: usize) -> usize {
    choose|e: usize| e < edges.len() && edges[e as int] == (a, b)
}

/// The indices of the channels along a way that starts at `src` and goes
/// through `visited`.
pub open spec fn edges_along(edges: Seq<(usize, usize)>, src: NodeId, visited: Seq<NodeId>) -> Seq<
    usize,
> {
    Seq::new(
        visited.len(),
        |i: int|
            edge_between(
                edges,
                if i == 0 {
                    src.0
                } else {
                    visited[i - 1].0
                },
                visited[i].0,
            ),
    )
}

/// The channels of the way that `hash` picks from `src` to `dst`; none where
/// there is no such way or where `src` is `dst`.
pub open spec fn hashed_path<C: Channel, R: RoutingAlgo>(
    topology: &Topology<C>,
    routes: &R,
    src: NodeId,
    dst: NodeId,
    hash: u64,
) -> Seq<usize> {
    match hashed_route(routes, src, dst, hash, topology.nodes@.len()) {
        None => Seq::empty(),
        Some(visited) => edges_along(topology.edges(), src, visited),
    }
}

/// Walks from `src` towards `dst`, taking at every node the hop at position
/// `hash` modulo the number of hops, and returns the indices of the channels
/// it went along. The walk gives up, and returns nothing, where a node offers
/// no hop or after as many hops as the topology has nodes.
#[verifier::rlimit(50)]
pub fn edge_indices_between<C: Channel, R: RoutingAlgo>(
    topology: &Topology<C>,
    routes: &R,
    src: NodeId,
    dst: NodeId,
    hash: u64,
) -> (r: Vec<usize>)
    requires
        topology.wf(),
        routes_fit(routes, topology),
    ensures
        r@ == hashed_path(topology, routes, src, dst, hash),
{
    let n = topology.nodes.len();
    let ghost edges = topology.edges();
    let mut acc: Vec<usize> = Vec::new();
    let mut cur = src;
    let mut fuel = n;
    let ghost mut seen: Seq<NodeId> = Seq::empty();
    proof {
        topology.lemma_edges();
        assert(acc@ =~= edges_along(edges, src, seen));
    }
    while cur != dst
        invariant
            topology.wf(),
            routes_fit(routes, topology),
            edges == topology.edges(),
            n == topology.nodes@.len(),
            fuel <= n,
            acc@ == edges_along(edges, src, seen),
            cur == if seen.len() == 0 {
                src
            } else {
                seen.last()
            },
            hashed_route(routes, src, dst, hash, n as nat) == match hashed_route(
                routes,
                cur,
                dst,
                hash,
                fuel as nat,
            ) {
                None => None::<Seq<NodeId>>,
                Some(rest) => Some(seen + rest),
            },
        decreases fuel,
    {
        if fuel == 0 {
            return Vec::new();
        }
        let choices = match routes.next_hops(cur, dst) {
            Some(choices) => choices,
            None => {
                return Vec::new();
            },
        };
        if choices.len() == 0 {
            return Vec::new();
        }
        let idx = (hash % (choices.len() as u64)) as usize;
        let next = choices[idx];
        proof {
            assert(routes.hops(cur, dst)->0[idx as int] == next);
            assert(adjacent(edges, cur.0, next.0));
            lemma_adjacent_symmetric(topology, cur.0, next.0);
        }
        let found = topology.graph.find_edge(cur.0, next.0);
        let e = match found {
            Some(e) => e,
            None => {
                proof {
                    let w = choose|w: int| 0 <= w < edges.len() && edges[w] == (cur.0, next.0);
                    assert(false);
                }
                return Vec::new();
            },
        };
        proof {
            topology.lemma_edges();
            assert(e == edge_between(edges, cur.0, next.0)) by {
                let f = edge_between(edges, cur.0, next.0);
                assert(e < edges.len() && edges[e as int] == (cur.0, next.0));
                if f < e {
                    assert(edges[f as int] != edges[e as int]);
                } else if e < f {
                    assert(edges[e as int] != edges[f as int]);
                }
            }
            let ghost before = seen;
            seen = seen.push(next);
            assert(acc@.push(e) =~= edges_along(edges, src, seen)) by {
                assert forall|i: int| 0 <= i < seen.len() implies acc@.push(e)[i] == edges_along(
                    edges,
                    src,
                    seen,
                )[i] by {
                    if i < before.len() {
                        assert(acc@[i] == edges_along(edges, src, before)[i]);
                    }
                }
            }
            match hashed_route(routes, next, dst, hash, (fuel - 1) as nat) {
                None => {},
                Some(rest) => {
                    assert(before + (seq![next] + rest) =~= seen + rest);
                },
            }
        }
        acc.push(e);
        cur = next;
        fuel -= 1;
    }
    proof {
        assert(seen + Seq::<NodeId>::empty() =~= seen);
    }
    acc
}

/// A network: a topology and the routes through it.
pub struct Network<R = BfsRoutes> {
    pub topology: Topology<BasicChannel>,
    pub routes: R,
}

impl Network<BfsRoutes> {
    /// Builds a network with the shortest routes through it.
    ///
    /// The nodes and links are checked as a topology is; see
    /// [`Topology::new`].
    pub fn new(nodes: &[Node], links: &[Link]) -> (r: Result<Self, TopologyError>)
        requires
            nodes@.len() < crate::graph::GRAPH_CAPACITY,
            2 * links@.len() < crate::graph::GRAPH_CAPACITY,
        ensures
            r is Ok <==> valid_topology(nodes@, links@),
            match r {
                Ok(net) => {
                    &&& net.wf()
                    &&& net.routes.routes_of(&net.topology)
                    &&& in_id_order(nodes@, net.topology.nodes@)
                    &&& net.topology.links@ == links@
                    &&& net.topology.channels@ == channels_of(links@)
                },
                Err(e) => first_error(nodes@, links@, e),
            },
    {
        match Topology::new(nodes, links) {
            Ok(topology) => {
                let routes = BfsRoutes::new(&topology);
                proof {
                    lemma_shortest_routes_fit(&routes, &topology);
                }
                Ok(Network { topology, routes })
            },
            Err(e) => Err(e),
        }
    }
}

impl<R: RoutingAlgo> Network<R> {
    /// The topology is well formed and the routes lead along its channels.
    pub open spec fn wf(&self) -> bool {
        &&& self.topology.wf()
        &&& routes_fit(&self.routes, &self.topology)
    }

    /// Builds a network with the given routes, which must lead along the
    /// links: every hop offered from a node is joined to it by a link.
    pub fn new_with_routes(nodes: &[Node], links: &[Link], routes: R) -> (r: Result<
        Self,
        TopologyError,
    >)
        requires
            nodes@.len() < crate::graph::GRAPH_CAPACITY,
            2 * links@.len() < crate::graph::GRAPH_CAPACITY,
            routes_follow(&routes, links@),
        ensures
            r is Ok <==> valid_topology(nodes@, links@),
            match r {
                Ok(net) => {
                    &&& net.wf()
                    &&& net.routes == routes
                    &&& in_id_order(nodes@, net.topology.nodes@)
                    &&& net.topology.links@ == links@
                    &&& net.topology.channels@ == channels_of(links@)
                },
                Err(e) => first_error(nodes@, links@, e),
            },
    {
        match Topology::new(nodes, links) {
            Ok(topology) => {
                proof {
                    assert forall|from: NodeId, to: NodeId, i: int|
                        #![trigger routes.hops(from, to)->0[i]]
                        routes.hops(from, to) is Some && 0 <= i < routes.hops(
                            from,
                            to,
                        )->0.len() implies adjacent(
                        topology.edges(),
                        from.0,
                        routes.hops(from, to)->0[i].0,
                    ) by {
                        let hop = routes.hops(from, to)->0[i];
                        let k = choose|k: int|
                            0 <= k < links@.len() && links@[k].spec_connects(from, hop);
                        lemma_link_adjacent(&topology, k, from, hop);
                    }
                }
                Ok(Network { topology, routes })
            },
            Err(e) => Err(e),
        }
    }

    /// The topology of the network.
    pub fn topology(&self) -> (r: &Topology<BasicChannel>)
        ensures
            *r == self.topology,
    {
        &self.topology
    }

    /// The nodes of the network, in the order of their identifiers.
    pub fn nodes(&self) -> (r: &[Node])
        ensures
            r@ == self.topology.nodes@,
    {
        self.topology.nodes.as_slice()
    }

    /// The links of the network, as they were given.
    pub fn links(&self) -> (r: &[Link])
        ensures
            r@ == self.topology.links@,
    {
        self.topology.links.as_slice()
    }

    /// Returns the nodes that a channel leads to from the node `id`, the
    /// node of the latest link first; none where there is no such node.
    pub fn neighbors(&self, id: NodeId) -> (r: Vec<NodeId>)
        requires
            self.wf(),
        ensures
            r@.map_values(|n: NodeId| n.0) == if id.0 < self.topology.nodes@.len() {
                crate::graph::out_targets(self.topology.edges(), id.0)
            } else {
                Seq::empty()
            },
    {
        let mut out: Vec<NodeId> = Vec::new();
        if id.0 >= self.topology.nodes.len() {
            proof {
                assert(out@.map_values(|n: NodeId| n.0) =~= Seq::<usize>::empty());
            }
            return out;
        }
        let targets = self.topology.graph.neighbors(id.0);
        let mut i: usize = 0;
        while i < targets.len()
            invariant
                i <= targets@.len(),
                out@.len() == i,
                out@.map_values(|n: NodeId| n.0) == targets@.take(i as int),
            decreases targets@.len() - i,
        {
            let ghost before = out@;
            out.push(NodeId(targets[i]));
            proof {
                let now = out@.map_values(|n: NodeId| n.0);
                let was = before.map_values(|n: NodeId| n.0);
                assert forall|j: int| 0 <= j < i + 1 implies now[j] == targets@.take(i + 1)[j] by {
                    if j < i {
                        assert(was[j] == targets@.take(i as int)[j]);
                        assert(out@[j] == before[j]);
                    }
                }
                assert(now =~= targets@.take(i + 1));
            }
            i += 1;
        }
        proof {
            assert(targets@.take(i as int) =~= targets@);
        }
        out
    }

    /// The identifiers of the hosts of the network, in ascending order.
    pub fn host_ids(&self) -> (r: Vec<NodeId>)
        ensures
            r@ == self.topology.nodes@.filter(
                |n: Node| n.kind == crate::network::types::NodeKind::Host,
            ).map_values(|n: Node| n.id),
    {
        let mut ids: Vec<NodeId> = Vec::new();
        let mut i: usize = 0;
        let ghost hosts = |n: Node| n.kind == crate::network::types::NodeKind::Host;
        proof {
            assert(self.topology.nodes@.take(0) =~= Seq::<Node>::empty());
            assert(Seq::<Node>::empty().filter(hosts) =~= Seq::<Node>::empty()) by {
                reveal(Seq::filter);
            }
        }
        while i < self.topology.nodes.len()
            invariant
                i <= self.topology.nodes@.len(),
                hosts == |n: Node| n.kind == crate::network::types::NodeKind::Host,
                ids@ == self.topology.nodes@.take(i as int).filter(hosts).map_values(
                    |n: Node| n.id,
                ),
            decreases self.topology.nodes@.len() - i,
        {
            let node = self.topology.nodes[i];
            proof {
                let before = self.topology.nodes@.take(i as int);
                assert(self.topology.nodes@.take(i + 1) =~= before.push(node));
                Seq::lemma_filter_push(before, node, hosts);
            }
            if let crate::network::types::NodeKind::Host = node.kind {
                ids.push(node.id);
                proof {
                    let before = self.topology.nodes@.take(i as int);
                    assert(before.filter(hosts).push(node).map_values(|n: Node| n.id)
                        =~= before.filter(hosts).map_values(|n: Node| n.id).push(node.id));
                }
            }
            i += 1;
        }
        proof {
            assert(self.topology.nodes@.take(i as int) =~= self.topology.nodes@);
        }
        ids
    }
}

} // verus!
