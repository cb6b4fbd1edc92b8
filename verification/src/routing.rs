//! Routes: for every pair of nodes, the nodes to go to next on a shortest
//! way from the first to the second.

use crate::fxhash::{fx_map_get, fx_map_insert, fx_map_new};
use crate::graph::{out_targets, GRAPH_CAPACITY};
use crate::network::topology::{endpoints, Topology};
use crate::network::types::{BasicChannel, Channel, Node, NodeId, NodeKind};
use rustc_hash::FxHashMap;
use vstd::prelude::*;

verus! {

/// Whether an edge leads from `a` to `b`.
pub open spec fn adjacent(edges: Seq<(usize, usize)>, a: usize, b: usize) -> bool {
    exists|e: int| 0 <= e < edges.len() && edges[e] == (a, b)
}

/// Whether a search that started at `s` goes on through `x`: it goes on
/// through its start and through switches, and ends at hosts.
pub open spec fn expandable(nodes: Seq<Node>, s: usize, x: usize) -> bool {
    x == s || (x < nodes.len() && nodes[x as int].kind == NodeKind::Switch)
}

/// Whether `x` is `d` hops away from `s`: the start alone is zero hops away,
/// and a node is `d + 1` hops away if it is not nearer and an edge leads to
/// it from a node that is `d` hops away and through which the search goes
/// on.
pub open spec fn at_level(
    edges: Seq<(usize, usize)>,
    nodes: Seq<Node>,
    s: usize,
    d: nat,
    x: usize,
) -> bool
    decreases d, 0nat,
{
    if d == 0 {
        x == s
    } else {
        &&& !within(edges, nodes, s, (d - 1) as nat, x)
        &&& exists|p: usize|
            at_level(edges, nodes, s, (d - 1) as nat, p) && expandable(nodes, s, p) && adjacent(
                edges,
                p,
                x,
            )
    }
}

/// Whether `x` is at most `d` hops away from `s`.
pub open spec fn within(
    edges: Seq<(usize, usize)>,
    nodes: Seq<Node>,
    s: usize,
    d: nat,
    x: usize,
) -> bool
    decreases d, 1nat,
{
    at_level(edges, nodes, s, d, x) || (d > 0 && within(edges, nodes, s, (d - 1) as nat, x))
}

/// An edge leads from `a` to `b` exactly if `b` is among the targets of the
/// edges that leave `a`.
pub proof fn lemma_adjacent_targets(edges: Seq<(usize, usize)>, a: usize, b: usize)
    ensures
        adjacent(edges, a, b) <==> out_targets(edges, a).contains(b),
    decreases edges.len(),
{
    if edges.len() > 0 {
        let rest = edges.drop_last();
        lemma_adjacent_targets(rest, a, b);
        let here = out_targets(edges, a);
        let there = out_targets(rest, a);
        if adjacent(edges, a, b) {
            let e = choose|e: int| 0 <= e < edges.len() && edges[e] == (a, b);
            if e == edges.len() - 1 {
                assert(here[0] == b);
            } else {
                assert(rest[e] == (a, b));
                let i = choose|i: int| 0 <= i < there.len() && there[i] == b;
                if edges.last().0 == a {
                    assert(here[i + 1] == b);
                }
            }
        }
        if here.contains(b) {
            let i = choose|i: int| 0 <= i < here.len() && here[i] == b;
            if edges.last().0 == a && i == 0 {
                assert(edges[edges.len() - 1] == (a, b));
            } else {
                if edges.last().0 == a {
                    assert(there[i - 1] == b);
                }
                let e = choose|e: int| 0 <= e < rest.len() && rest[e] == (a, b);
                assert(edges[e] == (a, b));
            }
        }
    }
}

/// Where no two edges are alike, no node is met twice among the targets of
/// the edges that leave a node.
pub proof fn lemma_targets_distinct(edges: Seq<(usize, usize)>, a: usize)
    requires
        forall|e: int, f: int| 0 <= e < f < edges.len() ==> edges[e] != edges[f],
    ensures
        out_targets(edges, a).no_duplicates(),
    decreases edges.len(),
{
    if edges.len() > 0 {
        let rest = edges.drop_last();
        assert forall|e: int, f: int| 0 <= e < f < rest.len() implies rest[e] != rest[f] by {
            assert(rest[e] == edges[e] && rest[f] == edges[f]);
        }
        lemma_targets_distinct(rest, a);
        if edges.last().0 == a {
            let b = edges.last().1;
            lemma_adjacent_targets(rest, a, b);
            if out_targets(rest, a).contains(b) {
                let e = choose|e: int| 0 <= e < rest.len() && rest[e] == (a, b);
                assert(edges[e] == edges[edges.len() - 1]);
            }
            let there = out_targets(rest, a);
            let here = out_targets(edges, a);
            assert forall|i: int, j: int| 0 <= i < j < here.len() implies here[i] != here[j] by {
                if i == 0 {
                    assert(there[j - 1] == here[j]);
                } else {
                    assert(there[i - 1] == here[i] && there[j - 1] == here[j]);
                }
            }
        }
    }
}

/// A node is at most `d` hops away exactly if it is `j` hops away for some
/// `j` up to `d`.
pub proof fn lemma_within(edges: Seq<(usize, usize)>, nodes: Seq<Node>, s: usize, d: nat, x: usize)
    ensures
        within(edges, nodes, s, d, x) <==> exists|j: nat| j <= d && at_level(edges, nodes, s, j, x),
    decreases d,
{
    if d > 0 {
        lemma_within(edges, nodes, s, (d - 1) as nat, x);
        if within(edges, nodes, s, d, x) {
            if at_level(edges, nodes, s, d, x) {
                assert(d <= d && at_level(edges, nodes, s, d, x));
            } else {
                assert(within(edges, nodes, s, (d - 1) as nat, x));
                let j = choose|j: nat| j <= d - 1 && at_level(edges, nodes, s, j, x);
                assert(j <= d && at_level(edges, nodes, s, j, x));
            }
        }
        if exists|j: nat| j <= d && at_level(edges, nodes, s, j, x) {
            let j = choose|j: nat| j <= d && at_level(edges, nodes, s, j, x);
            if j < d {
                assert(j <= d - 1 && at_level(edges, nodes, s, j, x));
                assert(within(edges, nodes, s, (d - 1) as nat, x));
            }
            assert(within(edges, nodes, s, d, x));
        }
    } else {
        if within(edges, nodes, s, d, x) {
            assert(at_level(edges, nodes, s, 0, x));
            assert(0 <= d && at_level(edges, nodes, s, 0, x));
        }
        if exists|j: nat| j <= d && at_level(edges, nodes, s, j, x) {
            let j = choose|j: nat| j <= d && at_level(edges, nodes, s, j, x);
            assert(j == 0);
            assert(within(edges, nodes, s, d, x));
        }
    }
}

/// A node is a definite number of hops away from the start, if it can be
/// reached at all.
pub proof fn lemma_one_level(
    edges: Seq<(usize, usize)>,
    nodes: Seq<Node>,
    s: usize,
    i: nat,
    j: nat,
    x: usize,
)
    requires
        at_level(edges, nodes, s, i, x),
        at_level(edges, nodes, s, j, x),
    ensures
        i == j,
{
    if i < j {
        lemma_within(edges, nodes, s, (j - 1) as nat, x);
    } else if j < i {
        lemma_within(edges, nodes, s, (i - 1) as nat, x);
    }
}

/// A list of different numbers below `n` has `n` entries at most.
pub proof fn lemma_distinct_bounded(s: Seq<usize>, n: nat)
    requires
        s.no_duplicates(),
        forall|i: int| 0 <= i < s.len() ==> s[i] < n,
    ensures
        s.len() <= n,
    decreases n,
{
    if n == 0 {
        if s.len() > 0 {
            assert(s[0] < n);
        }
    } else {
        let top = (n - 1) as usize;
        if s.contains(top) {
            let i = choose|i: int| 0 <= i < s.len() && s[i] == top;
            let t = s.remove(i);
            assert forall|a: int| 0 <= a < t.len() implies t[a] < n - 1 by {
                if a < i {
                    assert(t[a] == s[a]);
                } else {
                    assert(t[a] == s[a + 1]);
                }
            }
            assert forall|a: int, b: int| 0 <= a < b < t.len() implies t[a] != t[b] by {
                let a1 = if a < i { a } else { a + 1 };
                let b1 = if b < i { b } else { b + 1 };
                assert(t[a] == s[a1] && t[b] == s[b1]);
            }
            lemma_distinct_bounded(t, (n - 1) as nat);
        } else {
            assert forall|a: int| 0 <= a < s.len() implies s[a] < n - 1 by {
                assert(s[a] < n);
                if s[a] == top {
                    assert(s.contains(top));
                }
            }
            lemma_distinct_bounded(s, (n - 1) as nat);
        }
    }
}

/// Whether, on a shortest way from `x` to `s`, `p` may come next: `p` is some
/// number of hops away from `s`, the search goes on through it, an edge
/// joins it to `x`, and `x` is one hop further away.
pub open spec fn next_hop(
    edges: Seq<(usize, usize)>,
    nodes: Seq<Node>,
    s: usize,
    x: usize,
    p: usize,
) -> bool {
    exists|d: nat|
        at_level(edges, nodes, s, d, p) && expandable(nodes, s, p) && adjacent(edges, p, x)
            && at_level(edges, nodes, s, d + 1, x)
}

/// Every distance found so far is the number of hops from the start.
pub open spec fn search_sound(
    edges: Seq<(usize, usize)>,
    nodes: Seq<Node>,
    s: usize,
    dist: Seq<Option<usize>>,
) -> bool {
    forall|x: int|
        0 <= x < dist.len() && (#[trigger] dist[x]) is Some ==> at_level(
            edges,
            nodes,
            s,
            dist[x]->0 as nat,
            x as usize,
        )
}

/// The queue holds, once each and in the order of their distances, the nodes
/// that were found and through which the search goes on.
pub open spec fn queue_valid(
    nodes: Seq<Node>,
    s: usize,
    dist: Seq<Option<usize>>,
    queue: Seq<usize>,
) -> bool {
    &&& queue.no_duplicates()
    &&& forall|i: int|
        0 <= i < queue.len() ==> {
            &&& (#[trigger] queue[i]) < dist.len()
            &&& dist[queue[i] as int] is Some
            &&& dist[queue[i] as int]->0 <= i
            &&& expandable(nodes, s, queue[i])
        }
    &&& forall|x: int|
        0 <= x < dist.len() && (#[trigger] dist[x]) is Some && expandable(nodes, s, x as usize)
            ==> queue.contains(x as usize)
    &&& forall|i: int, j: int|
        0 <= i <= j < queue.len() ==> dist[queue[i] as int]->0 <= dist[queue[j] as int]->0
}

/// No node of the queue is more than one hop further away than the node at
/// `head`.
pub open spec fn all_near(dist: Seq<Option<usize>>, queue: Seq<usize>, head: int) -> bool {
    forall|j: int|
        0 <= j < queue.len() ==> dist[(#[trigger] queue[j]) as int]->0 <= dist[queue[head] as int]->0
            + 1
}

/// Every node next to one of the first `head` nodes of the queue was found.
pub open spec fn neighbors_found(
    edges: Seq<(usize, usize)>,
    dist: Seq<Option<usize>>,
    queue: Seq<usize>,
    head: int,
) -> bool {
    forall|i: int, x: usize|
        0 <= i < head && i < queue.len() && #[trigger] adjacent(edges, queue[i], x) ==> x
            < dist.len() && dist[x as int] is Some
}

/// Every node that is up to `k` hops away was found, with that distance.
pub open spec fn levels_found(
    edges: Seq<(usize, usize)>,
    nodes: Seq<Node>,
    s: usize,
    dist: Seq<Option<usize>>,
    k: nat,
) -> bool {
    forall|j: nat, x: usize|
        j <= k && #[trigger] at_level(edges, nodes, s, j, x) ==> x < dist.len()
            && dist[x as int] is Some && dist[x as int]->0 == j
}

/// Whether one of the first `head` nodes of the queue is `p`, next to `x` and
/// one hop nearer to the start than `x`.
pub open spec fn hop_found(
    edges: Seq<(usize, usize)>,
    dist: Seq<Option<usize>>,
    queue: Seq<usize>,
    head: int,
    x: usize,
    p: usize,
) -> bool {
    &&& p < dist.len()
    &&& x < dist.len()
    &&& dist[p as int] is Some
    &&& dist[x as int] is Some
    &&& dist[x as int]->0 == dist[p as int]->0 + 1
    &&& adjacent(edges, p, x)
    &&& exists|i: int| 0 <= i < head && i < queue.len() && queue[i] == p
}

/// Whether `x` is one of the first `t` neighbours of `u` and was found one
/// hop after `u`.
pub open spec fn hop_fresh(
    nbrs: Seq<usize>,
    t: int,
    dist: Seq<Option<usize>>,
    k: usize,
    x: usize,
) -> bool {
    &&& x < dist.len()
    &&& dist[x as int] is Some
    &&& dist[x as int]->0 == k + 1
    &&& exists|a: int| 0 <= a < t && a < nbrs.len() && nbrs[a] == x
}

/// The hops noted so far for every node: those found through the first
/// `head` nodes of the queue and, for the node `u` that is being handled,
/// through its first `t` neighbours.
pub open spec fn column_valid(
    edges: Seq<(usize, usize)>,
    dist: Seq<Option<usize>>,
    queue: Seq<usize>,
    head: int,
    u: usize,
    nbrs: Seq<usize>,
    t: int,
    k: usize,
    col: Seq<Vec<NodeId>>,
) -> bool {
    forall|x: int|
        0 <= x < col.len() ==> {
            &&& (#[trigger] col[x])@.no_duplicates()
            &&& forall|p: usize|
                col[x]@.contains(NodeId(p)) <==> (hop_found(edges, dist, queue, head, x as usize, p)
                    || (p == u && hop_fresh(nbrs, t, dist, k, x as usize)))
        }
}

/// When the queue is used up, every node that can be reached was found with
/// its number of hops.
pub proof fn lemma_search_complete(
    edges: Seq<(usize, usize)>,
    nodes: Seq<Node>,
    s: usize,
    dist: Seq<Option<usize>>,
    queue: Seq<usize>,
    d: nat,
    x: usize,
)
    requires
        s < dist.len(),
        dist[s as int] == Some(0usize),
        search_sound(edges, nodes, s, dist),
        queue_valid(nodes, s, dist, queue),
        neighbors_found(edges, dist, queue, queue.len() as int),
        at_level(edges, nodes, s, d, x),
    ensures
        x < dist.len(),
        dist[x as int] is Some,
        dist[x as int]->0 == d,
    decreases d,
{
    if d > 0 {
        let p = choose|p: usize|
            at_level(edges, nodes, s, (d - 1) as nat, p) && expandable(nodes, s, p) && adjacent(
                edges,
                p,
                x,
            );
        lemma_search_complete(edges, nodes, s, dist, queue, (d - 1) as nat, p);
        assert(dist[p as int] is Some);
        assert(queue.contains(p));
        let i = choose|i: int| 0 <= i < queue.len() && queue[i] == p;
        assert(adjacent(edges, queue[i], x));
        assert(dist[x as int] is Some);
        lemma_one_level(edges, nodes, s, dist[x as int]->0 as nat, d, x);
    }
}

/// What holds whenever the search turns to the next node of the queue.
pub open spec fn search_between(
    edges: Seq<(usize, usize)>,
    nodes: Seq<Node>,
    s: usize,
    dist: Seq<Option<usize>>,
    queue: Seq<usize>,
    head: int,
    col: Seq<Vec<NodeId>>,
) -> bool {
    &&& 0 <= head <= queue.len()
    &&& queue.len() <= usize::MAX
    &&& nodes.len() <= usize::MAX
    &&& s < dist.len()
    &&& dist[s as int] == Some(0usize)
    &&& dist.len() == nodes.len()
    &&& col.len() == nodes.len()
    &&& search_sound(edges, nodes, s, dist)
    &&& queue_valid(nodes, s, dist, queue)
    &&& neighbors_found(edges, dist, queue, head)
    &&& head < queue.len() ==> all_near(dist, queue, head) && levels_found(
        edges,
        nodes,
        s,
        dist,
        dist[queue[head] as int]->0 as nat,
    )
    &&& column_valid(edges, dist, queue, head, 0, Seq::empty(), 0, 0, col)
}

/// What holds while the search handles the neighbours of the node at `head`,
/// of which the first `t` are done.
pub open spec fn search_within(
    edges: Seq<(usize, usize)>,
    nodes: Seq<Node>,
    s: usize,
    dist: Seq<Option<usize>>,
    queue: Seq<usize>,
    head: int,
    nbrs: Seq<usize>,
    t: int,
    col: Seq<Vec<NodeId>>,
) -> bool {
    &&& 0 <= head < queue.len()
    &&& 0 <= t <= nbrs.len()
    &&& queue.len() <= usize::MAX
    &&& nodes.len() <= usize::MAX
    &&& forall|a: int| 0 <= a < nbrs.len() ==> (#[trigger] nbrs[a]) < dist.len()
    &&& s < dist.len()
    &&& dist[s as int] == Some(0usize)
    &&& dist.len() == nodes.len()
    &&& col.len() == nodes.len()
    &&& search_sound(edges, nodes, s, dist)
    &&& queue_valid(nodes, s, dist, queue)
    &&& neighbors_found(edges, dist, queue, head)
    &&& all_near(dist, queue, head)
    &&& levels_found(edges, nodes, s, dist, dist[queue[head] as int]->0 as nat)
    &&& forall|a: int| 0 <= a < t ==> dist[(#[trigger] nbrs[a]) as int] is Some
    &&& column_valid(
        edges,
        dist,
        queue,
        head,
        queue[head],
        nbrs,
        t,
        dist[queue[head] as int]->0,
        col,
    )
}

/// Finding a new neighbour `v` of the node at `head` keeps the search in
/// order: `v` is one hop further away than that node, and it joins the queue
/// if the search goes on through it.
#[verifier::rlimit(50)]
pub proof fn lemma_discovered(
    edges: Seq<(usize, usize)>,
    nodes: Seq<Node>,
    s: usize,
    dist0: Seq<Option<usize>>,
    queue0: Seq<usize>,
    head: int,
    nbrs: Seq<usize>,
    t: int,
    col: Seq<Vec<NodeId>>,
    dist1: Seq<Option<usize>>,
    queue1: Seq<usize>,
)
    requires
        search_within(edges, nodes, s, dist0, queue0, head, nbrs, t, col),
        0 <= t < nbrs.len(),
        nbrs[t] < dist0.len(),
        dist0[nbrs[t] as int] is None,
        adjacent(edges, queue0[head], nbrs[t]),
        queue1.len() <= usize::MAX,
        dist1 == dist0.update(
            nbrs[t] as int,
            Some((dist0[queue0[head] as int]->0 + 1) as usize),
        ),
        queue1 == if nodes[nbrs[t] as int].kind == NodeKind::Switch {
            queue0.push(nbrs[t])
        } else {
            queue0
        },
    ensures
        search_within(edges, nodes, s, dist1, queue1, head, nbrs, t, col),
        queue1[head] == queue0[head],
        dist1[queue1[head] as int] == dist0[queue0[head] as int],
{
    let v = nbrs[t];
    let u = queue0[head];
    let k = dist0[u as int]->0;
    assert(queue0[head] < dist0.len() && dist0[queue0[head] as int] is Some);
    assert(u != v);
    assert(v != s);
    // The new node is one hop further away than `u`.
    assert(at_level(edges, nodes, s, (k + 1) as nat, v)) by {
        lemma_within(edges, nodes, s, k as nat, v);
        if within(edges, nodes, s, k as nat, v) {
            let j = choose|j: nat| j <= k && at_level(edges, nodes, s, j, v);
            assert(dist0[v as int] is Some);
        }
        assert(at_level(edges, nodes, s, k as nat, u));
        assert(expandable(nodes, s, u));
    }
    assert(search_sound(edges, nodes, s, dist1)) by {
        assert forall|x: int| 0 <= x < dist1.len() && (#[trigger] dist1[x]) is Some implies at_level(
            edges,
            nodes,
            s,
            dist1[x]->0 as nat,
            x as usize,
        ) by {
            if x != v {
                assert(dist0[x] is Some);
            }
        }
    }
    assert(!queue0.contains(v)) by {
        if queue0.contains(v) {
            let i = choose|i: int| 0 <= i < queue0.len() && queue0[i] == v;
            assert(dist0[queue0[i] as int] is Some);
        }
    }
    assert(queue_valid(nodes, s, dist1, queue1)) by {
        assert forall|i: int| 0 <= i < queue1.len() implies {
            &&& (#[trigger] queue1[i]) < dist1.len()
            &&& dist1[queue1[i] as int] is Some
            &&& dist1[queue1[i] as int]->0 <= i
            &&& expandable(nodes, s, queue1[i])
        } by {
            if i < queue0.len() {
                assert(queue0[i] == queue1[i]);
                assert(queue0[i] != v);
            }
        }
        assert forall|x: int|
            0 <= x < dist1.len() && (#[trigger] dist1[x]) is Some && expandable(
                nodes,
                s,
                x as usize,
            ) implies queue1.contains(x as usize) by {
            if x == v {
                assert(queue1[queue0.len() as int] == v);
            } else {
                assert(dist0[x] is Some);
                assert(queue0.contains(x as usize));
                let i = choose|i: int| 0 <= i < queue0.len() && queue0[i] == x as usize;
                assert(queue1[i] == x as usize);
            }
        }
        assert forall|i: int, j: int| 0 <= i <= j < queue1.len() implies dist1[queue1[i] as int]->0
            <= dist1[queue1[j] as int]->0 by {
            if j < queue0.len() {
                assert(queue0[i] != v && queue0[j] != v);
            } else if i < queue0.len() {
                assert(queue0[i] != v);
                assert(dist0[queue0[i] as int]->0 <= k + 1);
            }
        }
        assert forall|i: int, j: int| 0 <= i < j < queue1.len() implies queue1[i] != queue1[j] by {
            if j >= queue0.len() {
                assert(queue0[i] == queue1[i]);
                assert(queue0.contains(queue0[i]));
            }
        }
    }
    assert(all_near(dist1, queue1, head)) by {
        assert forall|j: int| 0 <= j < queue1.len() implies dist1[(#[trigger] queue1[j]) as int]->0
            <= dist1[queue1[head] as int]->0 + 1 by {
            if j < queue0.len() {
                assert(queue0[j] != v);
            }
        }
    }
    assert(neighbors_found(edges, dist1, queue1, head)) by {
        assert forall|i: int, x: usize|
            0 <= i < head && i < queue1.len() && #[trigger] adjacent(
                edges,
                queue1[i],
                x,
            ) implies x < dist1.len() && dist1[x as int] is Some by {
            assert(queue0[i] == queue1[i]);
            assert(adjacent(edges, queue0[i], x));
        }
    }
    assert(levels_found(edges, nodes, s, dist1, k as nat)) by {
        assert forall|j: nat, x: usize|
            j <= k && #[trigger] at_level(edges, nodes, s, j, x) implies x < dist1.len()
            && dist1[x as int] is Some && dist1[x as int]->0 == j by {
            assert(dist0[x as int] is Some);
        }
    }
    assert forall|a: int| 0 <= a < t implies dist1[(#[trigger] nbrs[a]) as int] is Some by {
        assert(dist0[nbrs[a] as int] is Some);
    }
    assert(column_valid(edges, dist1, queue1, head, u, nbrs, t, k as usize, col)) by {
        assert forall|x: int| 0 <= x < col.len() implies {
            &&& (#[trigger] col[x])@.no_duplicates()
            &&& forall|p: usize|
                col[x]@.contains(NodeId(p)) <==> (hop_found(
                    edges,
                    dist1,
                    queue1,
                    head,
                    x as usize,
                    p,
                ) || (p == u && hop_fresh(nbrs, t, dist1, k as usize, x as usize)))
        } by {
            assert forall|p: usize|
                ((#[trigger] hop_found(edges, dist1, queue1, head, x as usize, p)) || (p == u
                    && hop_fresh(nbrs, t, dist1, k as usize, x as usize))) <==> (hop_found(
                    edges,
                    dist0,
                    queue0,
                    head,
                    x as usize,
                    p,
                ) || (p == u && hop_fresh(nbrs, t, dist0, k as usize, x as usize))) by {
                if hop_found(edges, dist1, queue1, head, x as usize, p) {
                    let i = choose|i: int| 0 <= i < head && i < queue1.len() && queue1[i] == p;
                    assert(queue0[i] == p);
                    assert(adjacent(edges, queue0[i], x as usize));
                    assert(dist0[p as int] is Some);
                    assert(hop_found(edges, dist0, queue0, head, x as usize, p));
                }
                if hop_found(edges, dist0, queue0, head, x as usize, p) {
                    let i = choose|i: int| 0 <= i < head && i < queue0.len() && queue0[i] == p;
                    assert(queue1[i] == p);
                    assert(hop_found(edges, dist1, queue1, head, x as usize, p));
                }
                if hop_fresh(nbrs, t, dist1, k as usize, x as usize) {
                    let a = choose|a: int| 0 <= a < t && a < nbrs.len() && nbrs[a] == x as usize;
                    assert(dist0[nbrs[a] as int] is Some);
                    assert(hop_fresh(nbrs, t, dist0, k as usize, x as usize));
                }
                if hop_fresh(nbrs, t, dist0, k as usize, x as usize) {
                    assert(hop_fresh(nbrs, t, dist1, k as usize, x as usize));
                }
            }
        }
    }
}

/// Noting the node at `head` as the next hop of its neighbour `nbrs[t]`,
/// where that neighbour is one hop further away, ends the work on that
/// neighbour.
#[verifier::rlimit(50)]
pub proof fn lemma_noted(
    edges: Seq<(usize, usize)>,
    nodes: Seq<Node>,
    s: usize,
    dist: Seq<Option<usize>>,
    queue: Seq<usize>,
    head: int,
    nbrs: Seq<usize>,
    t: int,
    col0: Seq<Vec<NodeId>>,
    col1: Seq<Vec<NodeId>>,
)
    requires
        search_within(edges, nodes, s, dist, queue, head, nbrs, t, col0),
        nbrs.no_duplicates(),
        0 <= t < nbrs.len(),
        nbrs[t] < dist.len(),
        dist[nbrs[t] as int] is Some,
        col1.len() == col0.len(),
        forall|y: int| 0 <= y < col0.len() && y != nbrs[t] ==> col1[y] == col0[y],
        col1[nbrs[t] as int]@ == if dist[nbrs[t] as int]->0 == dist[queue[head] as int]->0 + 1 {
            col0[nbrs[t] as int]@.push(NodeId(queue[head]))
        } else {
            col0[nbrs[t] as int]@
        },
    ensures
        search_within(edges, nodes, s, dist, queue, head, nbrs, t + 1, col1),
{
    let v = nbrs[t];
    let u = queue[head];
    let k = dist[u as int]->0;
    assert forall|a: int| 0 <= a < t + 1 implies dist[(#[trigger] nbrs[a]) as int] is Some by {}
    assert(!hop_found(edges, dist, queue, head, v, u)) by {
        if hop_found(edges, dist, queue, head, v, u) {
            let i = choose|i: int| 0 <= i < head && i < queue.len() && queue[i] == u;
            assert(queue[i] == queue[head]);
        }
    }
    assert(!hop_fresh(nbrs, t, dist, k, v)) by {
        if hop_fresh(nbrs, t, dist, k, v) {
            let a = choose|a: int| 0 <= a < t && a < nbrs.len() && nbrs[a] == v;
            assert(nbrs[a] == nbrs[t]);
        }
    }
    assert(column_valid(edges, dist, queue, head, u, nbrs, t + 1, k, col1)) by {
        assert forall|x: int| 0 <= x < col1.len() implies {
            &&& (#[trigger] col1[x])@.no_duplicates()
            &&& forall|p: usize|
                col1[x]@.contains(NodeId(p)) <==> (hop_found(edges, dist, queue, head, x as usize, p)
                    || (p == u && hop_fresh(nbrs, t + 1, dist, k, x as usize)))
        } by {
            let before = col0[x]@;
            let after = col1[x]@;
            assert(before.no_duplicates());
            if x != v {
                assert(col1[x] == col0[x]);
                assert(hop_fresh(nbrs, t + 1, dist, k, x as usize) <==> hop_fresh(
                    nbrs,
                    t,
                    dist,
                    k,
                    x as usize,
                )) by {
                    if hop_fresh(nbrs, t + 1, dist, k, x as usize) {
                        let a = choose|a: int|
                            0 <= a < t + 1 && a < nbrs.len() && nbrs[a] == x as usize;
                        assert(a != t);
                    }
                }
            } else if dist[v as int]->0 == k + 1 {
                assert(!before.contains(NodeId(u)));
                assert(after == before.push(NodeId(u)));
                assert(after.no_duplicates()) by {
                    assert forall|i: int, j: int| 0 <= i < j < after.len() implies after[i]
                        != after[j] by {
                        if j == before.len() {
                            assert(before.contains(before[i]));
                        }
                    }
                }
                assert(hop_fresh(nbrs, t + 1, dist, k, v)) by {
                    assert(nbrs[t] == v);
                }
                assert forall|p: usize|
                    after.contains(NodeId(p)) <==> (hop_found(edges, dist, queue, head, v, p) || (p
                        == u && hop_fresh(nbrs, t + 1, dist, k, v))) by {
                    if after.contains(NodeId(p)) {
                        let i = choose|i: int| 0 <= i < after.len() && after[i] == NodeId(p);
                        if i < before.len() {
                            assert(before[i] == NodeId(p));
                            assert(before.contains(NodeId(p)));
                        }
                    }
                    if before.contains(NodeId(p)) {
                        let i = choose|i: int| 0 <= i < before.len() && before[i] == NodeId(p);
                        assert(after[i] == NodeId(p));
                    }
                    if p == u {
                        assert(after[before.len() as int] == NodeId(p));
                    }
                }
            } else {
                assert(after == before);
                assert(!hop_fresh(nbrs, t + 1, dist, k, v));
            }
        }
    }
}

/// When all neighbours of the node at `head` are done, the search can turn
/// to the next node of the queue.
#[verifier::rlimit(50)]
pub proof fn lemma_advance(
    edges: Seq<(usize, usize)>,
    nodes: Seq<Node>,
    s: usize,
    dist: Seq<Option<usize>>,
    queue: Seq<usize>,
    head: int,
    nbrs: Seq<usize>,
    col: Seq<Vec<NodeId>>,
)
    requires
        search_within(edges, nodes, s, dist, queue, head, nbrs, nbrs.len() as int, col),
        nbrs == out_targets(edges, queue[head]),
    ensures
        search_between(edges, nodes, s, dist, queue, head + 1, col),
{
    let u = queue[head];
    let k = dist[u as int]->0;
    assert(queue[head] < dist.len() && dist[queue[head] as int] is Some);
    assert(neighbors_found(edges, dist, queue, head + 1)) by {
        assert forall|i: int, x: usize|
            0 <= i < head + 1 && i < queue.len() && #[trigger] adjacent(
                edges,
                queue[i],
                x,
            ) implies x < dist.len() && dist[x as int] is Some by {
            if i == head {
                lemma_adjacent_targets(edges, u, x);
                let a = choose|a: int| 0 <= a < nbrs.len() && nbrs[a] == x;
                assert(dist[nbrs[a] as int] is Some);
            }
        }
    }
    if head + 1 < queue.len() {
        let w = queue[head + 1];
        let k1 = dist[w as int]->0;
        assert(queue[head + 1] < dist.len());
        assert(dist[queue[head] as int]->0 <= dist[queue[head + 1] as int]->0);
        assert(k1 <= k + 1);
        assert(all_near(dist, queue, head + 1)) by {
            assert forall|j: int| 0 <= j < queue.len() implies dist[(#[trigger] queue[j]) as int]->0
                <= dist[queue[head + 1] as int]->0 + 1 by {}
        }
        assert(levels_found(edges, nodes, s, dist, k1 as nat)) by {
            assert forall|j: nat, x: usize|
                j <= k1 && #[trigger] at_level(edges, nodes, s, j, x) implies x < dist.len()
                && dist[x as int] is Some && dist[x as int]->0 == j by {
                if j > k {
                    let p = choose|p: usize|
                        at_level(edges, nodes, s, (j - 1) as nat, p) && expandable(nodes, s, p)
                            && adjacent(edges, p, x);
                    assert(dist[p as int] is Some && dist[p as int]->0 == k);
                    assert(queue.contains(p));
                    let i = choose|i: int| 0 <= i < queue.len() && queue[i] == p;
                    if i >= head + 1 {
                        assert(dist[queue[head + 1] as int]->0 <= dist[queue[i] as int]->0);
                    }
                    assert(adjacent(edges, queue[i], x));
                    assert(dist[x as int] is Some);
                    lemma_one_level(edges, nodes, s, dist[x as int]->0 as nat, j, x);
                }
            }
        }
    }
    assert(column_valid(edges, dist, queue, head + 1, 0, Seq::empty(), 0, 0, col)) by {
        assert forall|x: int| 0 <= x < col.len() implies {
            &&& (#[trigger] col[x])@.no_duplicates()
            &&& forall|p: usize|
                col[x]@.contains(NodeId(p)) <==> (hop_found(
                    edges,
                    dist,
                    queue,
                    head + 1,
                    x as usize,
                    p,
                ) || (p == 0 && hop_fresh(Seq::empty(), 0, dist, 0, x as usize)))
        } by {
            assert forall|p: usize|
                ((#[trigger] hop_found(edges, dist, queue, head, x as usize, p)) || (p == u
                    && hop_fresh(nbrs, nbrs.len() as int, dist, k, x as usize))) <==> hop_found(
                    edges,
                    dist,
                    queue,
                    head + 1,
                    x as usize,
                    p,
                ) by {
                if hop_found(edges, dist, queue, head, x as usize, p) {
                    let i = choose|i: int| 0 <= i < head && i < queue.len() && queue[i] == p;
                    assert(0 <= i < head + 1 && i < queue.len() && queue[i] == p);
                }
                if p == u && hop_fresh(nbrs, nbrs.len() as int, dist, k, x as usize) {
                    let a = choose|a: int|
                        0 <= a < nbrs.len() && a < nbrs.len() && nbrs[a] == x as usize;
                    assert(nbrs.contains(x as usize));
                    lemma_adjacent_targets(edges, u, x as usize);
                    assert(0 <= head < head + 1 && head < queue.len() && queue[head] == p);
                }
                if hop_found(edges, dist, queue, head + 1, x as usize, p) {
                    let i = choose|i: int| 0 <= i < head + 1 && i < queue.len() && queue[i] == p;
                    if i == head {
                        lemma_adjacent_targets(edges, u, x as usize);
                        let a = choose|a: int| 0 <= a < nbrs.len() && nbrs[a] == x as usize;
                        assert(hop_fresh(nbrs, nbrs.len() as int, dist, k, x as usize));
                    } else {
                        assert(0 <= i < head && i < queue.len() && queue[i] == p);
                    }
                }
            }
        }
    }
}

/// When the queue is used up, the hops that were found are the next hops on
/// the shortest ways to the start.
#[verifier::rlimit(50)]
pub proof fn lemma_hops_final(
    edges: Seq<(usize, usize)>,
    nodes: Seq<Node>,
    s: usize,
    dist: Seq<Option<usize>>,
    queue: Seq<usize>,
    col: Seq<Vec<NodeId>>,
    x: usize,
    p: usize,
)
    requires
        search_between(edges, nodes, s, dist, queue, queue.len() as int, col),
        x < dist.len(),
    ensures
        (hop_found(edges, dist, queue, queue.len() as int, x, p) || (p == 0 && hop_fresh(
            Seq::empty(),
            0,
            dist,
            0,
            x,
        ))) <==> next_hop(edges, nodes, s, x, p),
{
    if hop_found(edges, dist, queue, queue.len() as int, x, p) {
        let i = choose|i: int| 0 <= i < queue.len() && i < queue.len() && queue[i] == p;
        let d = dist[p as int]->0 as nat;
        assert(expandable(nodes, s, queue[i]));
        assert(at_level(edges, nodes, s, d, p));
        assert(at_level(edges, nodes, s, dist[x as int]->0 as nat, x));
        assert(at_level(edges, nodes, s, d + 1, x));
    }
    if next_hop(edges, nodes, s, x, p) {
        let d = choose|d: nat|
            at_level(edges, nodes, s, d, p) && expandable(nodes, s, p) && adjacent(edges, p, x)
                && at_level(edges, nodes, s, d + 1, x);
        lemma_search_complete(edges, nodes, s, dist, queue, d, p);
        lemma_search_complete(edges, nodes, s, dist, queue, d + 1, x);
        assert(dist[p as int] is Some);
        assert(queue.contains(p));
        let i = choose|i: int| 0 <= i < queue.len() && queue[i] == p;
        assert(0 <= i < queue.len() && i < queue.len() && queue[i] == p);
    }
}

/// Searches the topology breadth first from the node `s`, going on through
/// `s` itself and through switches, and returns for every node the nodes
/// that come next on a shortest way to `s`, in the order in which the search
/// went through them.
/// The distances that the search has found so far, node by node: what the
/// table holds for a node, and nothing for a node that it does not hold.
pub open spec fn distances(found: Map<usize, usize>, n: nat) -> Seq<Option<usize>> {
    Seq::new(
        n,
        |x: int|
            if found.contains_key(x as usize) {
                Some(found[x as usize])
            } else {
                None
            },
    )
}

#[verifier::rlimit(50)]
fn search_from(topology: &Topology<BasicChannel>, s: usize) -> (col: Vec<Vec<NodeId>>)
    requires
        topology.wf(),
        s < topology.nodes@.len(),
    ensures
        col@.len() == topology.nodes@.len(),
        forall|x: int|
            0 <= x < col@.len() ==> {
                &&& (#[trigger] col@[x])@.no_duplicates()
                &&& forall|p: usize|
                    col@[x]@.contains(NodeId(p)) <==> next_hop(
                        topology.edges(),
                        topology.nodes@,
                        s,
                        x as usize,
                        p,
                    )
            },
{
    let n = topology.nodes.len();
    let ghost edges = topology.edges();
    let ghost nodes = topology.nodes@;
    proof {
        topology.lemma_edges();
    }
    let mut dist: FxHashMap<usize, usize> = fx_map_new();
    let mut col: Vec<Vec<NodeId>> = Vec::new();
    let mut i: usize = 0;
    while i < n
        invariant
            i <= n,
            col@.len() == i,
            forall|x: int| 0 <= x < i ==> (#[trigger] col@[x])@.len() == 0,
        decreases n - i,
    {
        col.push(Vec::new());
        i += 1;
    }
    fx_map_insert(&mut dist, s, 0);
    let mut queue: Vec<usize> = Vec::new();
    queue.push(s);
    let mut head: usize = 0;
    proof {
        assert(queue@[0] == s);
        assert(search_sound(edges, nodes, s, distances(dist@, n as nat)));
        assert(queue_valid(nodes, s, distances(dist@, n as nat), queue@)) by {
            assert forall|x: int|
                0 <= x < distances(dist@, n as nat).len() && (#[trigger] distances(dist@, n as nat)[x]) is Some && expandable(
                    nodes,
                    s,
                    x as usize,
                ) implies queue@.contains(x as usize) by {
                assert(x == s);
            }
        }
        assert(column_valid(edges, distances(dist@, n as nat), queue@, 0, 0, Seq::empty(), 0, 0, col@)) by {
            assert forall|x: int| 0 <= x < col@.len() implies {
                &&& (#[trigger] col@[x])@.no_duplicates()
                &&& forall|p: usize|
                    col@[x]@.contains(NodeId(p)) <==> (hop_found(
                        edges,
                        distances(dist@, n as nat),
                        queue@,
                        0,
                        x as usize,
                        p,
                    ) || (p == 0 && hop_fresh(Seq::empty(), 0, distances(dist@, n as nat), 0, x as usize)))
            } by {
                assert(col@[x]@.len() == 0);
            }
        }
    }
    while head < queue.len()
        invariant
            topology.wf(),
            n == topology.nodes@.len(),
            edges == topology.edges(),
            nodes == topology.nodes@,
            edges == topology.graph.edges(),
            s < n,
            search_between(edges, nodes, s, distances(dist@, n as nat), queue@, head as int, col@),
            forall|e: int|
                0 <= e < edges.len() ==> (#[trigger] edges[e]).0 < n && edges[e].1 < n,
            forall|e: int, f: int| 0 <= e < f < edges.len() ==> edges[e] != edges[f],
        decreases n - head,
    {
        proof {
            lemma_distinct_bounded(queue@, n as nat);
        }
        let u = queue[head];
        let k = match fx_map_get(&dist, u) {
            Some(k) => k,
            None => 0,
        };
        let nbrs = topology.graph.neighbors(u);
        proof {
            lemma_targets_distinct(edges, u);
            assert forall|a: int| 0 <= a < nbrs@.len() implies (#[trigger] nbrs@[a]) < n by {
                lemma_adjacent_targets(edges, u, nbrs@[a]);
                assert(nbrs@.contains(nbrs@[a]));
                let e = choose|e: int| 0 <= e < edges.len() && edges[e] == (u, nbrs@[a]);
                assert(edges[e].1 < n);
            }
            assert(column_valid(edges, distances(dist@, n as nat), queue@, head as int, u, nbrs@, 0, k, col@));
        }
        let mut t: usize = 0;
        while t < nbrs.len()
            invariant
                n == nodes.len(),
                nodes == topology.nodes@,
                s < n,
                head < queue@.len(),
                u == queue@[head as int],
                distances(dist@, n as nat)[u as int] == Some(k),
                nbrs@ == out_targets(edges, u),
                nbrs@.no_duplicates(),
                forall|a: int| 0 <= a < nbrs@.len() ==> (#[trigger] nbrs@[a]) < n,
                search_within(edges, nodes, s, distances(dist@, n as nat), queue@, head as int, nbrs@, t as int, col@),
            decreases nbrs@.len() - t,
        {
            let v = nbrs[t];
            let ghost dist0 = distances(dist@, n as nat);
            let ghost queue0 = queue@;
            let ghost col0 = col@;
            proof {
                lemma_adjacent_targets(edges, u, v);
                assert(nbrs@.contains(v));
                assert(adjacent(edges, u, v));
                assert(queue@[head as int] < distances(dist@, n as nat).len() && distances(dist@, n as nat)[queue@[head as int] as int]->0
                    <= head);
                assert(k <= head);
            }
            if fx_map_get(&dist, v).is_none() {
                fx_map_insert(&mut dist, v, k + 1);
                proof {
                    assert(distances(dist@, n as nat) =~= dist0.update(v as int, Some((k + 1) as usize)));
                }
                let is_switch = match topology.nodes[v].kind {
                    NodeKind::Switch => true,
                    NodeKind::Host => false,
                };
                if is_switch {
                    queue.push(v);
                }
                proof {
                    assert(queue@.len() == queue.len());
                    lemma_discovered(
                        edges,
                        nodes,
                        s,
                        dist0,
                        queue0,
                        head as int,
                        nbrs@,
                        t as int,
                        col@,
                        distances(dist@, n as nat),
                        queue@,
                    );
                }
            }
            let ghost dist1 = distances(dist@, n as nat);
            let ghost queue1 = queue@;
            let wanted: usize = k + 1;
            let found = match fx_map_get(&dist, v) {
                Some(d) => d == wanted,
                None => false,
            };
            if found {
                col[v].push(NodeId(u));
            }
            proof {
                lemma_noted(
                    edges,
                    nodes,
                    s,
                    dist1,
                    queue1,
                    head as int,
                    nbrs@,
                    t as int,
                    col0,
                    col@,
                );
            }
            t += 1;
        }
        proof {
            lemma_advance(edges, nodes, s, distances(dist@, n as nat), queue@, head as int, nbrs@, col@);
        }
        head += 1;
    }
    proof {
        assert forall|x: int| 0 <= x < col@.len() implies {
            &&& (#[trigger] col@[x])@.no_duplicates()
            &&& forall|p: usize|
                col@[x]@.contains(NodeId(p)) <==> next_hop(edges, nodes, s, x as usize, p)
        } by {
            assert forall|p: usize|
                col@[x]@.contains(NodeId(p)) <==> next_hop(edges, nodes, s, x as usize, p) by {
                lemma_hops_final(edges, nodes, s, distances(dist@, n as nat), queue@, col@, x as usize, p);
            }
        }
    }
    col
}

/// What every routing algorithm offers: the nodes that may come next on a
/// way from one node to another.
pub trait RoutingAlgo {
    /// The next hops from `from` towards `to`, in the order in which the
    /// algorithm offers them; `None` where it knows nothing of the pair.
    spec fn hops(&self, from: NodeId, to: NodeId) -> Option<Seq<NodeId>>;

    /// Returns the next hops from `from` towards `to`.
    fn next_hops(&self, from: NodeId, to: NodeId) -> (r: Option<Vec<NodeId>>)
        ensures
            match r {
                Some(v) => self.hops(from, to) == Some(v@),
                None => self.hops(from, to) is None,
            },
    ;
}

/// Whether `table` holds, for every pair of nodes, the next hops on the
/// shortest ways from the first to the second, each hop once.
pub open spec fn is_shortest_table(
    table: Seq<Vec<Vec<NodeId>>>,
    edges: Seq<(usize, usize)>,
    nodes: Seq<Node>,
) -> bool {
    &&& table.len() == nodes.len()
    &&& forall|x: int| 0 <= x < table.len() ==> (#[trigger] table[x])@.len() == nodes.len()
    &&& forall|x: int, s: int|
        0 <= x < nodes.len() && 0 <= s < nodes.len() ==> {
            &&& (#[trigger] table[x]@[s])@.no_duplicates()
            &&& forall|p: usize|
                table[x]@[s]@.contains(NodeId(p)) <==> next_hop(
                    edges,
                    nodes,
                    s as usize,
                    x as usize,
                    p,
                )
        }
}

/// A table of routes built by breadth-first search: the entry for `from` and
/// `to` lists the neighbours of `from` that are one hop nearer to `to`.
pub struct BfsRoutes {
    pub inner: Vec<Vec<Vec<NodeId>>>,
}

impl BfsRoutes {
    /// Whether the table holds the shortest routes of `topology`.
    pub open spec fn routes_of<C: Channel>(&self, topology: &Topology<C>) -> bool {
        is_shortest_table(self.inner@, topology.edges(), topology.nodes@)
    }

    /// Builds the table of routes of a topology: a breadth-first search from
    /// every node, which goes on through switches only, notes for every node
    /// it meets the nodes through which it met that node at the shortest
    /// distance.
    pub fn new(topology: &Topology<BasicChannel>) -> (r: Self)
        requires
            topology.wf(),
        ensures
            r.routes_of(topology),
    {
        let n = topology.nodes.len();
        let ghost edges = topology.edges();
        let ghost nodes = topology.nodes@;
        let mut inner: Vec<Vec<Vec<NodeId>>> = Vec::new();
        let mut x: usize = 0;
        while x < n
            invariant
                x <= n,
                inner@.len() == x,
                forall|y: int| 0 <= y < x ==> (#[trigger] inner@[y])@.len() == 0,
            decreases n - x,
        {
            inner.push(Vec::new());
            x += 1;
        }
        let mut s: usize = 0;
        while s < n
            invariant
                s <= n,
                topology.wf(),
                n == topology.nodes@.len(),
                edges == topology.edges(),
                nodes == topology.nodes@,
                inner@.len() == n,
                forall|y: int| 0 <= y < n ==> (#[trigger] inner@[y])@.len() == s,
                forall|y: int, z: int|
                    0 <= y < n && 0 <= z < s ==> {
                        &&& (#[trigger] inner@[y]@[z])@.no_duplicates()
                        &&& forall|p: usize|
                            inner@[y]@[z]@.contains(NodeId(p)) <==> next_hop(
                                edges,
                                nodes,
                                z as usize,
                                y as usize,
                                p,
                            )
                    },
            decreases n - s,
        {
            let mut col = search_from(topology, s);
            let ghost found = col@;
            let mut y: usize = n;
            while y > 0
                invariant
                    y <= n,
                    found.len() == n,
                    col@ == found.take(y as int),
                    inner@.len() == n,
                    forall|w: int| 0 <= w < y ==> (#[trigger] inner@[w])@.len() == s,
                    forall|w: int| y <= w < n ==> (#[trigger] inner@[w])@.len() == s + 1,
                    forall|w: int| y <= w < n ==> (#[trigger] inner@[w])@[s as int] == found[w],
                    forall|w: int, z: int|
                        0 <= w < n && 0 <= z < s ==> {
                            &&& (#[trigger] inner@[w]@[z])@.no_duplicates()
                            &&& forall|p: usize|
                                inner@[w]@[z]@.contains(NodeId(p)) <==> next_hop(
                                    edges,
                                    nodes,
                                    z as usize,
                                    w as usize,
                                    p,
                                )
                        },
                decreases y,
            {
                y -= 1;
                let ghost before = inner@;
                let hops = col.pop();
                match hops {
                    Some(hops) => {
                        inner[y].push(hops);
                    },
                    None => {},
                }
                proof {
                    assert(col@ == found.take(y as int));
                    assert forall|w: int, z: int| 0 <= w < n && 0 <= z < s implies {
                        &&& (#[trigger] inner@[w]@[z])@.no_duplicates()
                        &&& forall|p: usize|
                            inner@[w]@[z]@.contains(NodeId(p)) <==> next_hop(
                                edges,
                                nodes,
                                z as usize,
                                w as usize,
                                p,
                            )
                    } by {
                        assert(inner@[w]@[z] == before[w]@[z]);
                    }
                }
            }
            proof {
                assert forall|w: int, z: int| 0 <= w < n && 0 <= z < s + 1 implies {
                    &&& (#[trigger] inner@[w]@[z])@.no_duplicates()
                    &&& forall|p: usize|
                        inner@[w]@[z]@.contains(NodeId(p)) <==> next_hop(
                            edges,
                            nodes,
                            z as usize,
                            w as usize,
                            p,
                        )
                } by {
                    if z == s {
                        assert(inner@[w]@[s as int] == found[w]);
                    }
                }
            }
            s += 1;
        }
        BfsRoutes { inner }
    }

    /// The routes that start at `node`, one list for every target; `None`
    /// where the table has no such node.
    pub fn for_node(&self, node: NodeId) -> (r: Option<&Vec<Vec<NodeId>>>)
        ensures
            match r {
                Some(map) => node.0 < self.inner@.len() && *map == self.inner@[node.0 as int],
                None => node.0 >= self.inner@.len(),
            },
    {
        if node.0 < self.inner.len() {
            Some(&self.inner[node.0])
        } else {
            None
        }
    }

    /// The next hops from `from` towards `to`, for two nodes of the table.
    pub fn next_hops_unchecked(&self, from: NodeId, to: NodeId) -> (r: &Vec<NodeId>)
        requires
            from.0 < self.inner@.len(),
            to.0 < self.inner@[from.0 as int]@.len(),
        ensures
            self.hops(from, to) == Some(r@),
    {
        &self.inner[from.0][to.0]
    }
}

impl RoutingAlgo for BfsRoutes {
    open spec fn hops(&self, from: NodeId, to: NodeId) -> Option<Seq<NodeId>> {
        if from.0 < self.inner@.len() && to.0 < self.inner@[from.0 as int]@.len() {
            Some(self.inner@[from.0 as int]@[to.0 as int]@)
        } else {
            None
        }
    }

    fn next_hops(&self, from: NodeId, to: NodeId) -> (r: Option<Vec<NodeId>>) {
        match self.for_node(from) {
            Some(map) => {
                if to.0 < map.len() {
                    Some(map[to.0].clone())
                } else {
                    None
                }
            },
            None => None,
        }
    }
}

} // verus!
