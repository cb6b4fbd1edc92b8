//! What holds of routes. The shortest routes of a topology exist in both
//! directions or in none, and whoever follows them arrives, whichever hops
//! are taken. With any routes, a flow goes along a simple path that its
//! identifier, its source and its destination fix, and the channels that
//! carry it are those of that path, whatever else the workload holds.

use crate::network::delay::{follows, leads, node_before};
use crate::network::sim::{flow_path, routed, SimNetwork};
use crate::network::topology::Topology;
use crate::network::types::{Channel, Flow, Node, NodeId, NodeKind};
use crate::network::{
    edges_along, hashed_route, lemma_adjacent_symmetric, lemma_route_rest, lemma_route_unique,
    routes_fit,
};
use crate::utils::spec_flow_hash;
use crate::routing::{
    adjacent, at_level, expandable, lemma_distinct_bounded, lemma_one_level, lemma_within, next_hop,
    within, BfsRoutes, RoutingAlgo,
};
use vstd::prelude::*;

verus! {

/// Whether `walk` is a walk through the topology on which traffic can go:
/// it leads from node to node along edges, and every node between its ends
/// is a switch.
pub open spec fn is_walk(edges: Seq<(usize, usize)>, nodes: Seq<Node>, walk: Seq<usize>) -> bool {
    &&& walk.len() >= 1
    &&& forall|i: int| 0 <= i < walk.len() - 1 ==> adjacent(edges, #[trigger] walk[i], walk[i + 1])
    &&& forall|i: int|
        0 < i < walk.len() - 1 ==> (#[trigger] walk[i]) < nodes.len() && nodes[walk[i] as int].kind
            == NodeKind::Switch
}

/// Whether a walk leads from `a` to `b`.
pub open spec fn connected(edges: Seq<(usize, usize)>, nodes: Seq<Node>, a: usize, b: usize) -> bool {
    exists|walk: Seq<usize>| is_walk(edges, nodes, walk) && walk[0] == a && walk.last() == b
}

/// A node that is `d` hops away from `s` is the end of a walk of `d` steps
/// that starts at `s`.
#[verifier::rlimit(50)]
pub proof fn lemma_level_walk(
    edges: Seq<(usize, usize)>,
    nodes: Seq<Node>,
    s: usize,
    d: nat,
    x: usize,
) -> (walk: Seq<usize>)
    requires
        at_level(edges, nodes, s, d, x),
    ensures
        is_walk(edges, nodes, walk),
        walk.len() == d + 1,
        walk[0] == s,
        walk.last() == x,
        forall|i: int| 0 <= i <= d ==> at_level(edges, nodes, s, i as nat, #[trigger] walk[i]),
    decreases d,
{
    if d == 0 {
        seq![s]
    } else {
        let p = choose|p: usize|
            at_level(edges, nodes, s, (d - 1) as nat, p) && expandable(nodes, s, p) && adjacent(
                edges,
                p,
                x,
            );
        let before = lemma_level_walk(edges, nodes, s, (d - 1) as nat, p);
        let walk = before.push(x);
        assert forall|i: int| 0 < i < walk.len() - 1 implies (#[trigger] walk[i]) < nodes.len()
            && nodes[walk[i] as int].kind == NodeKind::Switch by {
            if i == d - 1 {
                assert(walk[i] == p);
                if p == s {
                    lemma_one_level(edges, nodes, s, 0, (d - 1) as nat, p);
                }
            } else {
                assert(walk[i] == before[i]);
            }
        }
        assert forall|i: int| 0 <= i < walk.len() - 1 implies adjacent(
            edges,
            #[trigger] walk[i],
            walk[i + 1],
        ) by {
            if i < d - 1 {
                assert(walk[i] == before[i] && walk[i + 1] == before[i + 1]);
            }
        }
        assert forall|i: int| 0 <= i <= d implies at_level(
            edges,
            nodes,
            s,
            i as nat,
            #[trigger] walk[i],
        ) by {
            if i < d {
                assert(walk[i] == before[i]);
            }
        }
        walk
    }
}

/// The end of a walk that starts at `s` is some number of hops away from
/// `s`.
#[verifier::rlimit(50)]
pub proof fn lemma_walk_level(
    edges: Seq<(usize, usize)>,
    nodes: Seq<Node>,
    s: usize,
    walk: Seq<usize>,
) -> (d: nat)
    requires
        is_walk(edges, nodes, walk),
        walk[0] == s,
    ensures
        at_level(edges, nodes, s, d, walk.last()),
    decreases walk.len(),
{
    if walk.len() == 1 {
        0
    } else {
        let before = walk.drop_last();
        assert(is_walk(edges, nodes, before)) by {
            assert forall|i: int| 0 <= i < before.len() - 1 implies adjacent(
                edges,
                #[trigger] before[i],
                before[i + 1],
            ) by {
                assert(before[i] == walk[i] && before[i + 1] == walk[i + 1]);
            }
            assert forall|i: int| 0 < i < before.len() - 1 implies (#[trigger] before[i])
                < nodes.len() && nodes[before[i] as int].kind == NodeKind::Switch by {
                assert(before[i] == walk[i]);
            }
        }
        let k = lemma_walk_level(edges, nodes, s, before);
        let q = before.last();
        let x = walk.last();
        assert(q == walk[walk.len() - 2]);
        assert(adjacent(edges, walk[walk.len() - 2], walk[walk.len() - 2 + 1]));
        assert(expandable(nodes, s, q)) by {
            if walk.len() > 2 {
                assert(walk[walk.len() - 2] < nodes.len());
            }
        }
        if within(edges, nodes, s, k, x) {
            lemma_within(edges, nodes, s, k, x);
            choose|j: nat| j <= k && at_level(edges, nodes, s, j, x)
        } else {
            assert(at_level(edges, nodes, s, k + 1, x));
            k + 1
        }
    }
}

/// In a topology, a walk can be gone backwards.
pub proof fn lemma_walk_back<C: Channel>(topology: &Topology<C>, walk: Seq<usize>)
    requires
        topology.wf(),
        is_walk(topology.edges(), topology.nodes@, walk),
    ensures
        is_walk(topology.edges(), topology.nodes@, walk.reverse()),
{
    let back = walk.reverse();
    assert forall|i: int| 0 <= i < back.len() - 1 implies adjacent(
        topology.edges(),
        #[trigger] back[i],
        back[i + 1],
    ) by {
        let j = walk.len() - 2 - i;
        assert(back[i] == walk[j + 1] && back[i + 1] == walk[j]);
        assert(adjacent(topology.edges(), walk[j], walk[j + 1]));
        lemma_adjacent_symmetric(topology, walk[j], walk[j + 1]);
    }
    assert forall|i: int| 0 < i < back.len() - 1 implies (#[trigger] back[i]) < topology.nodes@.len()
        && topology.nodes@[back[i] as int].kind == NodeKind::Switch by {
        let j = walk.len() - 1 - i;
        assert(back[i] == walk[j]);
    }
}

/// In a topology, a node can be reached from another exactly if the other
/// can be reached from it.
pub proof fn lemma_connected_symmetric<C: Channel>(topology: &Topology<C>, a: usize, b: usize)
    requires
        topology.wf(),
        connected(topology.edges(), topology.nodes@, a, b),
    ensures
        connected(topology.edges(), topology.nodes@, b, a),
{
    let walk = choose|walk: Seq<usize>|
        is_walk(topology.edges(), topology.nodes@, walk) && walk[0] == a && walk.last() == b;
    lemma_walk_back(topology, walk);
    let back = walk.reverse();
    assert(back[0] == walk[walk.len() - 1]);
    assert(back.last() == walk[0]);
}

/// The shortest routes offer a hop from `from` towards `to` exactly if
/// `from` is another node than `to` and can be reached from it.
#[verifier::rlimit(50)]
pub proof fn lemma_hops_connected<C: Channel>(
    topology: &Topology<C>,
    routes: &BfsRoutes,
    from: NodeId,
    to: NodeId,
)
    requires
        topology.wf(),
        routes.routes_of(topology),
        from.0 < topology.nodes@.len(),
        to.0 < topology.nodes@.len(),
    ensures
        routes.hops(from, to) is Some,
        routes.hops(from, to)->0.len() > 0 <==> from != to && connected(
            topology.edges(),
            topology.nodes@,
            to.0,
            from.0,
        ),
{
    let edges = topology.edges();
    let nodes = topology.nodes@;
    let hops = routes.hops(from, to)->0;
    assert(hops == routes.inner@[from.0 as int]@[to.0 as int]@);
    if hops.len() > 0 {
        let p = hops[0].0;
        assert(hops.contains(NodeId(p)));
        assert(next_hop(edges, nodes, to.0, from.0, p));
        let d = choose|d: nat|
            at_level(edges, nodes, to.0, d, p) && expandable(nodes, to.0, p) && adjacent(
                edges,
                p,
                from.0,
            ) && at_level(edges, nodes, to.0, d + 1, from.0);
        if from == to {
            lemma_one_level(edges, nodes, to.0, 0, d + 1, from.0);
        }
        let walk = lemma_level_walk(edges, nodes, to.0, d + 1, from.0);
    }
    if from != to && connected(edges, nodes, to.0, from.0) {
        let walk = choose|walk: Seq<usize>|
            is_walk(edges, nodes, walk) && walk[0] == to.0 && walk.last() == from.0;
        let d = lemma_walk_level(edges, nodes, to.0, walk);
        assert(d > 0);
        let p = choose|p: usize|
            at_level(edges, nodes, to.0, (d - 1) as nat, p) && expandable(nodes, to.0, p)
                && adjacent(edges, p, from.0);
        assert(next_hop(edges, nodes, to.0, from.0, p));
        assert(hops.contains(NodeId(p)));
    }
}

/// Routes run both ways or not at all: between two different nodes of a
/// topology, the shortest routes offer a hop from the first towards the
/// second exactly if they offer one from the second towards the first.
pub proof fn lemma_routes_symmetric<C: Channel>(
    topology: &Topology<C>,
    routes: &BfsRoutes,
    a: NodeId,
    b: NodeId,
)
    requires
        topology.wf(),
        routes.routes_of(topology),
        a.0 < topology.nodes@.len(),
        b.0 < topology.nodes@.len(),
        a != b,
    ensures
        routes.hops(a, b) is Some,
        routes.hops(b, a) is Some,
        routes.hops(a, b)->0.len() > 0 <==> routes.hops(b, a)->0.len() > 0,
{
    lemma_hops_connected(topology, routes, a, b);
    lemma_hops_connected(topology, routes, b, a);
    if connected(topology.edges(), topology.nodes@, b.0, a.0) {
        lemma_connected_symmetric(topology, b.0, a.0);
    }
    if connected(topology.edges(), topology.nodes@, a.0, b.0) {
        lemma_connected_symmetric(topology, a.0, b.0);
    }
}

/// A node that is `d` hops away from another is less hops away than the
/// topology has nodes.
pub proof fn lemma_level_bound<C: Channel>(topology: &Topology<C>, s: usize, d: nat, x: usize)
    requires
        topology.wf(),
        s < topology.nodes@.len(),
        at_level(topology.edges(), topology.nodes@, s, d, x),
    ensures
        d < topology.nodes@.len(),
        x < topology.nodes@.len(),
{
    let edges = topology.edges();
    let nodes = topology.nodes@;
    let walk = lemma_level_walk(edges, nodes, s, d, x);
    assert forall|i: int| 0 <= i < walk.len() implies walk[i] < nodes.len() by {
        if i > 0 {
            assert(adjacent(edges, walk[i - 1], walk[i - 1 + 1]));
            lemma_adjacent_symmetric(topology, walk[i - 1], walk[i]);
        }
    }
    assert forall|i: int, j: int| 0 <= i < j < walk.len() implies walk[i] != walk[j] by {
        if walk[i] == walk[j] {
            lemma_one_level(edges, nodes, s, i as nat, j as nat, walk[i]);
        }
    }
    lemma_distinct_bounded(walk, nodes.len());
    assert(walk[d as int] == x);
}

/// From a node that is `d` hops away from `dst`, following the shortest
/// routes leads to `dst` in `d` steps, each of which comes one hop nearer,
/// whichever hops the hash picks.
#[verifier::rlimit(50)]
pub proof fn lemma_route_descends<C: Channel>(
    topology: &Topology<C>,
    routes: &BfsRoutes,
    src: NodeId,
    dst: NodeId,
    hash: u64,
    d: nat,
    fuel: nat,
)
    requires
        topology.wf(),
        routes.routes_of(topology),
        dst.0 < topology.nodes@.len(),
        at_level(topology.edges(), topology.nodes@, dst.0, d, src.0),
        fuel >= d,
    ensures
        hashed_route(routes, src, dst, hash, fuel) is Some,
        hashed_route(routes, src, dst, hash, fuel)->0.len() == d,
        forall|i: int|
            0 <= i < d ==> at_level(
                topology.edges(),
                topology.nodes@,
                dst.0,
                (d - 1 - i) as nat,
                (#[trigger] hashed_route(routes, src, dst, hash, fuel)->0[i]).0,
            ),
    decreases d,
{
    let edges = topology.edges();
    let nodes = topology.nodes@;
    if d == 0 {
        assert(src == dst);
    } else {
        lemma_level_bound(topology, dst.0, d, src.0);
        if src == dst {
            lemma_one_level(edges, nodes, dst.0, 0, d, src.0);
        }
        let hops = routes.hops(src, dst)->0;
        assert(hops == routes.inner@[src.0 as int]@[dst.0 as int]@);
        let p = choose|p: usize|
            at_level(edges, nodes, dst.0, (d - 1) as nat, p) && expandable(nodes, dst.0, p)
                && adjacent(edges, p, src.0);
        assert(next_hop(edges, nodes, dst.0, src.0, p));
        assert(hops.contains(NodeId(p)));
        let next = hops[hash as int % hops.len() as int];
        assert(hops.contains(NodeId(next.0)));
        assert(next_hop(edges, nodes, dst.0, src.0, next.0));
        let k = choose|k: nat|
            at_level(edges, nodes, dst.0, k, next.0) && expandable(nodes, dst.0, next.0)
                && adjacent(edges, next.0, src.0) && at_level(edges, nodes, dst.0, k + 1, src.0);
        lemma_one_level(edges, nodes, dst.0, k + 1, d, src.0);
        lemma_route_descends(topology, routes, next, dst, hash, (d - 1) as nat, (fuel - 1) as nat);
        let rest = hashed_route(routes, next, dst, hash, (fuel - 1) as nat)->0;
        let all = hashed_route(routes, src, dst, hash, fuel)->0;
        assert(all == seq![next] + rest);
        assert forall|i: int| 0 <= i < d implies at_level(
            edges,
            nodes,
            dst.0,
            (d - 1 - i) as nat,
            (#[trigger] all[i]).0,
        ) by {
            if i > 0 {
                assert(all[i] == rest[i - 1]);
            }
        }
    }
}

/// With the shortest routes there is a way from `src` to `dst`, whatever the
/// hash, exactly if `src` is `dst` or the routes offer a hop at `src`.
pub proof fn lemma_routed<C: Channel>(
    topology: &Topology<C>,
    routes: &BfsRoutes,
    src: NodeId,
    dst: NodeId,
    hash: u64,
)
    requires
        topology.wf(),
        routes.routes_of(topology),
    ensures
        hashed_route(routes, src, dst, hash, topology.nodes@.len()) is Some <==> src == dst || (
        routes.hops(src, dst) is Some && routes.hops(src, dst)->0.len() > 0),
{
    let edges = topology.edges();
    let nodes = topology.nodes@;
    let n = nodes.len();
    if src != dst && routes.hops(src, dst) is Some && routes.hops(src, dst)->0.len() > 0 {
        let hops = routes.hops(src, dst)->0;
        assert(hops == routes.inner@[src.0 as int]@[dst.0 as int]@);
        let p = hops[0].0;
        assert(hops.contains(NodeId(p)));
        assert(next_hop(edges, nodes, dst.0, src.0, p));
        let k = choose|k: nat|
            at_level(edges, nodes, dst.0, k, p) && expandable(nodes, dst.0, p) && adjacent(
                edges,
                p,
                src.0,
            ) && at_level(edges, nodes, dst.0, k + 1, src.0);
        lemma_level_bound(topology, dst.0, k + 1, src.0);
        lemma_route_descends(topology, routes, src, dst, hash, k + 1, n);
    }
}

/// On a way that follows the shortest routes towards `dst`, every hop comes
/// one hop nearer to `dst`, whichever hops are taken.
pub proof fn lemma_walk_descends<C: Channel>(
    topology: &Topology<C>,
    routes: &BfsRoutes,
    src: NodeId,
    dst: NodeId,
    visited: Seq<NodeId>,
    d: nat,
    i: int,
)
    requires
        topology.wf(),
        routes.routes_of(topology),
        dst.0 < topology.nodes@.len(),
        at_level(topology.edges(), topology.nodes@, dst.0, d, src.0),
        follows(routes, src, dst, visited),
        0 <= i <= visited.len(),
    ensures
        i <= d,
        at_level(
            topology.edges(),
            topology.nodes@,
            dst.0,
            (d - i) as nat,
            node_before(src, visited, i).0,
        ),
    decreases i,
{
    let edges = topology.edges();
    let nodes = topology.nodes@;
    if i > 0 {
        lemma_walk_descends(topology, routes, src, dst, visited, d, i - 1);
        let x = node_before(src, visited, i - 1);
        let level = (d - (i - 1)) as nat;
        let next = visited[i - 1];
        assert(x != dst && routes.hops(x, dst) is Some && routes.hops(x, dst)->0.contains(next));
        lemma_level_bound(topology, dst.0, level, x.0);
        assert(routes.hops(x, dst)->0 == routes.inner@[x.0 as int]@[dst.0 as int]@);
        assert(routes.inner@[x.0 as int]@[dst.0 as int]@.contains(NodeId(next.0)));
        assert(next_hop(edges, nodes, dst.0, x.0, next.0));
        let k = choose|k: nat|
            at_level(edges, nodes, dst.0, k, next.0) && expandable(nodes, dst.0, next.0)
                && adjacent(edges, next.0, x.0) && at_level(edges, nodes, dst.0, k + 1, x.0);
        lemma_one_level(edges, nodes, dst.0, k + 1, level, x.0);
        assert(node_before(src, visited, i) == next);
    }
}

/// Where the shortest routes offer a hop from `src` towards `dst`, they lead
/// from `src` to `dst`, whichever hops are taken: no way that follows them
/// gets stuck before `dst`, and none has as many hops as the topology has
/// nodes.
pub proof fn lemma_shortest_routes_lead<C: Channel>(
    topology: &Topology<C>,
    routes: &BfsRoutes,
    src: NodeId,
    dst: NodeId,
)
    requires
        topology.wf(),
        routes.routes_of(topology),
        routes.hops(src, dst) is Some,
        routes.hops(src, dst)->0.len() > 0,
    ensures
        leads(routes, topology.nodes@.len(), src, dst),
{
    let edges = topology.edges();
    let nodes = topology.nodes@;
    let hops = routes.hops(src, dst)->0;
    assert(hops == routes.inner@[src.0 as int]@[dst.0 as int]@);
    let p = hops[0].0;
    assert(hops.contains(NodeId(p)));
    assert(next_hop(edges, nodes, dst.0, src.0, p));
    let k = choose|k: nat|
        at_level(edges, nodes, dst.0, k, p) && expandable(nodes, dst.0, p) && adjacent(
            edges,
            p,
            src.0,
        ) && at_level(edges, nodes, dst.0, k + 1, src.0);
    let d = k + 1;
    lemma_level_bound(topology, dst.0, d, src.0);
    assert forall|visited: Seq<NodeId>|
        #[trigger] follows(routes, src, dst, visited) && node_before(
            src,
            visited,
            visited.len() as int,
        ) != dst implies {
        &&& visited.len() < nodes.len()
        &&& routes.hops(node_before(src, visited, visited.len() as int), dst) is Some
        &&& routes.hops(node_before(src, visited, visited.len() as int), dst)->0.len() > 0
    } by {
        let len = visited.len() as int;
        lemma_walk_descends(topology, routes, src, dst, visited, d, len);
        let x = node_before(src, visited, len);
        let level = (d - len) as nat;
        lemma_level_bound(topology, dst.0, level, x.0);
        assert(level > 0) by {
            if level == 0 {
                assert(x.0 == dst.0);
            }
        }
        let q = choose|q: usize|
            at_level(edges, nodes, dst.0, (level - 1) as nat, q) && expandable(nodes, dst.0, q)
                && adjacent(edges, q, x.0);
        assert(next_hop(edges, nodes, dst.0, x.0, q));
        assert(routes.hops(x, dst)->0 == routes.inner@[x.0 as int]@[dst.0 as int]@);
        assert(routes.inner@[x.0 as int]@[dst.0 as int]@.contains(NodeId(q)));
    }
}

/// Whether the way through `visited` is a simple path from `src` to `dst`:
/// every step leads along a channel, no node is visited twice, and the last
/// node is `dst`; where nothing is visited, `src` is `dst`.
pub open spec fn is_simple_path(
    edges: Seq<(usize, usize)>,
    src: NodeId,
    dst: NodeId,
    visited: Seq<NodeId>,
) -> bool {
    &&& if visited.len() == 0 {
        src == dst
    } else {
        visited.last() == dst
    }
    &&& visited.no_duplicates()
    &&& !visited.contains(src)
    &&& forall|i: int|
        0 <= i < visited.len() ==> {
            &&& (#[trigger] edges_along(edges, src, visited)[i]) < edges.len()
            &&& edges[edges_along(edges, src, visited)[i] as int] == (
                if i == 0 {
                    src.0
                } else {
                    visited[i - 1].0
                },
                visited[i].0,
            )
        }
    &&& edges_along(edges, src, visited).no_duplicates()
}

/// Flows go along simple paths: the way that any hash picks among the
/// routes from `src` to `dst` is a simple directed path from `src` to `dst`,
/// whatever the routes are, as long as their hops are joined by channels.
#[verifier::rlimit(50)]
pub proof fn lemma_route_simple<C: Channel, R: RoutingAlgo>(
    topology: &Topology<C>,
    routes: &R,
    src: NodeId,
    dst: NodeId,
    hash: u64,
)
    requires
        topology.wf(),
        routes_fit(routes, topology),
        hashed_route(routes, src, dst, hash, topology.nodes@.len()) is Some,
    ensures
        is_simple_path(
            topology.edges(),
            src,
            dst,
            hashed_route(routes, src, dst, hash, topology.nodes@.len())->0,
        ),
{
    let edges = topology.edges();
    let nodes = topology.nodes@;
    let n = nodes.len();
    let visited = hashed_route(routes, src, dst, hash, n)->0;
    if visited.len() > 0 {
        lemma_route_rest(routes, src, dst, hash, n, 0);
        // From a node that the way met twice, the hash would pick two ways.
        assert forall|i: int, j: int| 0 <= i < j < visited.len() implies visited[i]
            != visited[j] by {
            if visited[i] == visited[j] {
                lemma_route_rest(routes, src, dst, hash, n, i);
                lemma_route_rest(routes, src, dst, hash, n, j);
                lemma_route_unique(
                    routes,
                    visited[i],
                    dst,
                    hash,
                    (n - 1 - i) as nat,
                    (n - 1 - j) as nat,
                );
                assert(visited.skip(i + 1).len() == visited.skip(j + 1).len());
            }
        }
        assert(!visited.contains(src)) by {
            if visited.contains(src) {
                let i = choose|i: int| 0 <= i < visited.len() && visited[i] == src;
                lemma_route_rest(routes, src, dst, hash, n, i);
                lemma_route_unique(routes, src, dst, hash, n, (n - 1 - i) as nat);
                assert(visited.skip(i + 1).len() == visited.len());
            }
        }
        crate::network::sim::lemma_route_adjacent(routes, topology, src, dst, hash, n);
        let along = edges_along(edges, src, visited);
        assert forall|i: int| 0 <= i < visited.len() implies {
            &&& (#[trigger] along[i]) < edges.len()
            &&& edges[along[i] as int] == (
                if i == 0 {
                    src.0
                } else {
                    visited[i - 1].0
                },
                visited[i].0,
            )
        } by {
            let from = if i == 0 {
                src.0
            } else {
                visited[i - 1].0
            };
            assert(adjacent(edges, from, visited[i].0));
            let w = choose|w: int| 0 <= w < edges.len() && edges[w] == (from, visited[i].0);
            topology.lemma_edges();
            assert((w as usize) < edges.len() && edges[w as usize as int] == (from, visited[i].0));
        }
        assert forall|i: int, j: int| 0 <= i < j < along.len() implies along[i] != along[j] by {
            if along[i] == along[j] {
                assert(edges[along[i] as int].1 == visited[i].0);
                assert(edges[along[j] as int].1 == visited[j].0);
            }
        }
    } else {
        assert(visited =~= Seq::<NodeId>::empty());
    }
}

/// At every node of the way that a hash picks, the next node is the hop at
/// position `hash` modulo the number of hops that the routes offer there.
pub proof fn lemma_route_picks<R: RoutingAlgo>(
    routes: &R,
    src: NodeId,
    dst: NodeId,
    hash: u64,
    fuel: nat,
    i: int,
)
    requires
        hashed_route(routes, src, dst, hash, fuel) is Some,
        0 <= i < hashed_route(routes, src, dst, hash, fuel)->0.len(),
    ensures
        ({
            let visited = hashed_route(routes, src, dst, hash, fuel)->0;
            let at = if i == 0 {
                src
            } else {
                visited[i - 1]
            };
            &&& at != dst
            &&& routes.hops(at, dst) is Some
            &&& routes.hops(at, dst)->0.len() > 0
            &&& visited[i] == routes.hops(at, dst)->0[hash as int % routes.hops(
                at,
                dst,
            )->0.len() as int]
        }),
{
    let visited = hashed_route(routes, src, dst, hash, fuel)->0;
    if i > 0 {
        lemma_route_rest(routes, src, dst, hash, fuel, i - 1);
        let at = visited[i - 1];
        let rest = hashed_route(routes, at, dst, hash, (fuel - i) as nat)->0;
        assert(rest == visited.skip(i));
        assert(rest.len() > 0);
        assert(rest[0] == visited[i]);
    }
}

/// A simple path leaves every node at most once: the channels along it
/// start at different nodes.
pub proof fn lemma_simple_leaves_once(
    edges: Seq<(usize, usize)>,
    src: NodeId,
    dst: NodeId,
    visited: Seq<NodeId>,
    i: int,
    j: int,
)
    requires
        is_simple_path(edges, src, dst, visited),
        0 <= i < j < visited.len(),
    ensures
        edges[edges_along(edges, src, visited)[i] as int].0 != edges[edges_along(
            edges,
            src,
            visited,
        )[j] as int].0,
{
    let along = edges_along(edges, src, visited);
    assert(edges[along[i] as int].0 == if i == 0 {
        src.0
    } else {
        visited[i - 1].0
    });
    assert(edges[along[j] as int].0 == visited[j - 1].0);
    if i == 0 {
        assert(visited.contains(visited[j - 1]));
    }
}

/// The way of a flow is fixed by its identifier, its source and its
/// destination: neither its size nor its start changes it.
pub proof fn lemma_path_by_id<C: Channel, R: RoutingAlgo>(
    topology: &Topology<C>,
    routes: &R,
    one: Flow,
    other: Flow,
)
    requires
        one.id == other.id,
        one.src == other.src,
        one.dst == other.dst,
    ensures
        flow_path(topology, routes, one) == flow_path(topology, routes, other),
{
}

/// In a network, the channels that carry a flow of the workload are the
/// channels of a simple directed path from the source of the flow to its
/// destination: the way that the hash of its identifier picks.
pub proof fn lemma_flow_on_simple_path<R: RoutingAlgo>(net: &SimNetwork<R>, flow: Flow)
    requires
        net.wf(),
        net.workload@.contains(flow),
        routed(&net.topology, &net.routes, flow),
    ensures
        is_simple_path(
            net.topology.edges(),
            flow.src,
            flow.dst,
            hashed_route(
                &net.routes,
                flow.src,
                flow.dst,
                spec_flow_hash(flow.id),
                net.topology.nodes@.len(),
            )->0,
        ),
        flow_path(&net.topology, &net.routes, flow) == edges_along(
            net.topology.edges(),
            flow.src,
            hashed_route(
                &net.routes,
                flow.src,
                flow.dst,
                spec_flow_hash(flow.id),
                net.topology.nodes@.len(),
            )->0,
        ),
        forall|e: usize|
            e < net.topology.channels@.len() ==> (
            #[trigger] net.topology.channels@[e as int].assigned@.contains(flow) <==> flow_path(
                &net.topology,
                &net.routes,
                flow,
            ).contains(e)),
{
    lemma_route_simple(&net.topology, &net.routes, flow.src, flow.dst, spec_flow_hash(flow.id));
    assert forall|e: usize| e < net.topology.channels@.len() implies (
    #[trigger] net.topology.channels@[e as int].assigned@.contains(flow) <==> flow_path(
        &net.topology,
        &net.routes,
        flow,
    ).contains(e)) by {
        net.lemma_carried(e, flow);
    }
}

/// Which flows a channel carries does not depend on the order of the
/// workload: two networks with the same channels, routes and flows carry
/// the same flows on every channel.
pub proof fn lemma_order_free<R: RoutingAlgo>(
    one: &SimNetwork<R>,
    other: &SimNetwork<R>,
    e: usize,
    flow: Flow,
)
    requires
        one.wf(),
        other.wf(),
        one.routes == other.routes,
        one.topology.nodes@.len() == other.topology.nodes@.len(),
        one.topology.edges() == other.topology.edges(),
        forall|f: Flow| one.workload@.contains(f) <==> other.workload@.contains(f),
        e < one.topology.channels@.len(),
    ensures
        one.topology.channels@[e as int].assigned@.contains(flow)
            <==> other.topology.channels@[e as int].assigned@.contains(flow),
{
    one.topology.lemma_edges();
    other.topology.lemma_edges();
    one.lemma_carried(e, flow);
    other.lemma_carried(e, flow);
}

} // verus!
