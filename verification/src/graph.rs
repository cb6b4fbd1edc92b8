//! The adjacency structure of a topology.
//!
//! Nodes and directed edges are kept in a `petgraph` graph without weights;
//! both are numbered from zero in the order in which they were added. What the
//! graph holds is described by two specification functions, and every
//! operation on it is stated over them. The graph is kept inside [`Grown`],
//! which only ever adds to it, so that the order of the indices is the order
//! of addition.

use petgraph::graph::{EdgeIndex, Graph, NodeIndex};
use petgraph::Directed;
use vstd::prelude::*;

verus! {

/// `petgraph::graph::Graph`: a graph with node weights `N`, edge weights
/// `E`, directed or not by `Ty`, and indices of type `Ix`. Nothing is known
/// of a graph but what the functions of this file state.
#[verifier::external_type_specification]
#[verifier::external_body]
#[verifier::reject_recursive_types(N)]
#[verifier::reject_recursive_types(E)]
#[verifier::reject_recursive_types(Ty)]
#[verifier::reject_recursive_types(Ix)]
pub struct ExGraph<N, E, Ty, Ix>(Graph<N, E, Ty, Ix>);

/// `petgraph::Directed`: the marker of graphs whose edges have a direction.
#[verifier::external_type_specification]
#[verifier::external_body]
pub struct ExDirected(Directed);

/// A directed graph that records nothing but which nodes and edges exist.
pub type Adjacency = Graph<(), (), Directed, u32>;

/// The largest number of nodes, and of edges, that a graph can hold.
pub const GRAPH_CAPACITY: usize = 0xffff_ffff;

/// The number of nodes in the graph, which `Graph::node_count` returns. The
/// nodes have the indices from zero up to this number.
pub uninterp spec fn graph_order(g: Adjacency) -> nat;

/// The edges of the graph in the order of their indices, each as the pair of
/// the indices of its source and its target, which `Graph::edge_endpoints`
/// returns.
pub uninterp spec fn graph_edges(g: Adjacency) -> Seq<(usize, usize)>;

/// The targets of the edges in `edges` that leave `a`, the most recently added
/// edge first.
pub open spec fn out_targets(edges: Seq<(usize, usize)>, a: usize) -> Seq<usize>
    decreases edges.len(),
{
    if edges.len() == 0 {
        Seq::empty()
    } else if edges.last().0 == a {
        seq![edges.last().1] + out_targets(edges.drop_last(), a)
    } else {
        out_targets(edges.drop_last(), a)
    }
}

/// The test for an edge to lead from `a` to `b`.
pub open spec fn connects(a: usize, b: usize) -> spec_fn((usize, usize)) -> bool {
    |edge: (usize, usize)| edge == (a, b)
}

/// The number of edges in `edges` that lead from `a` to `b`.
pub open spec fn count_connecting(edges: Seq<(usize, usize)>, a: usize, b: usize) -> nat {
    edges.filter(connects(a, b)).len()
}

/// `Graph::new`: a directed graph without nodes and edges.
#[verifier::external_body]
fn graph_new() -> (g: Adjacency)
    ensures
        graph_order(g) == 0,
        graph_edges(g) == Seq::<(usize, usize)>::empty(),
{
    Graph::new()
}

/// `Graph::add_node`: appends a node and returns its index, which is the
/// number of nodes before the call. The edges stay as they are. The graph
/// must be below its capacity, else the call panics.
#[verifier::external_body]
fn graph_add_node(g: &mut Adjacency) -> (idx: usize)
    requires
        graph_order(*old(g)) < GRAPH_CAPACITY,
    ensures
        idx == graph_order(*old(g)),
        graph_order(*final(g)) == graph_order(*old(g)) + 1,
        graph_edges(*final(g)) == graph_edges(*old(g)),
{
    g.add_node(()).index()
}

/// `Graph::add_edge`: appends an edge from `a` to `b` and returns its index,
/// which is the number of edges before the call. Both nodes must exist and
/// the graph must be below its capacity, else the call panics.
#[verifier::external_body]
fn graph_add_edge(g: &mut Adjacency, a: usize, b: usize) -> (idx: usize)
    requires
        a < graph_order(*old(g)),
        b < graph_order(*old(g)),
        graph_edges(*old(g)).len() < GRAPH_CAPACITY,
    ensures
        idx == graph_edges(*old(g)).len(),
        graph_order(*final(g)) == graph_order(*old(g)),
        graph_edges(*final(g)) == graph_edges(*old(g)).push((a, b)),
{
    g.add_edge(NodeIndex::new(a), NodeIndex::new(b), ()).index()
}

/// `Graph::find_edge`: the most recently added edge from `a` to `b`, if there
/// is one.
#[verifier::external_body]
fn graph_find_edge(g: &Adjacency, a: usize, b: usize) -> (r: Option<usize>)
    requires
        a < graph_order(*g),
        b < graph_order(*g),
    ensures
        match r {
            Some(e) => e < graph_edges(*g).len() && graph_edges(*g)[e as int] == (a, b)
                && forall|i: int| e < i < graph_edges(*g).len() ==> graph_edges(*g)[i] != (a, b),
            None => forall|i: int| 0 <= i < graph_edges(*g).len() ==> graph_edges(*g)[i] != (a, b),
        },
{
    g.find_edge(NodeIndex::new(a), NodeIndex::new(b)).map(|e| e.index())
}

/// `Graph::neighbors`: the targets of the edges that leave `a`, in reverse
/// order of their addition.
#[verifier::external_body]
fn graph_neighbors(g: &Adjacency, a: usize) -> (r: Vec<usize>)
    requires
        a < graph_order(*g),
    ensures
        r@ == out_targets(graph_edges(*g), a),
{
    g.neighbors(NodeIndex::new(a)).map(|n| n.index()).collect()
}

/// `Graph::edges`, counted: the number of edges that leave `a`.
#[verifier::external_body]
fn graph_out_degree(g: &Adjacency, a: usize) -> (n: usize)
    requires
        a < graph_order(*g),
    ensures
        n == out_targets(graph_edges(*g), a).len(),
{
    g.edges(NodeIndex::new(a)).count()
}

/// `Graph::edges_connecting`, counted: the number of edges from `a` to `b`.
#[verifier::external_body]
fn graph_count_connecting(g: &Adjacency, a: usize, b: usize) -> (n: usize)
    requires
        a < graph_order(*g),
        b < graph_order(*g),
    ensures
        n == count_connecting(graph_edges(*g), a, b),
{
    g.edges_connecting(NodeIndex::new(a), NodeIndex::new(b)).count()
}

/// A graph that was grown node by node and edge by edge, and from which
/// nothing was ever taken: its nodes and edges are numbered in the order in
/// which they were added.
pub struct Grown {
    inner: Adjacency,
}

impl Grown {
    /// The number of nodes of the graph.
    pub closed spec fn order(&self) -> nat {
        graph_order(self.inner)
    }

    /// The edges of the graph in the order in which they were added, each as
    /// the pair of the indices of its source and its target.
    pub closed spec fn edges(&self) -> Seq<(usize, usize)> {
        graph_edges(self.inner)
    }

    /// A graph without nodes and edges.
    pub fn new() -> (g: Self)
        ensures
            g.order() == 0,
            g.edges() == Seq::<(usize, usize)>::empty(),
    {
        Grown { inner: graph_new() }
    }

    /// Adds a node and returns its index, which is the number of nodes
    /// before. The graph must be below its capacity.
    pub fn add_node(&mut self) -> (idx: usize)
        requires
            old(self).order() < GRAPH_CAPACITY,
        ensures
            idx == old(self).order(),
            final(self).order() == old(self).order() + 1,
            final(self).edges() == old(self).edges(),
    {
        graph_add_node(&mut self.inner)
    }

    /// Adds an edge from `a` to `b`, which must be nodes of the graph, and
    /// returns its index, which is the number of edges before. The graph
    /// must be below its capacity.
    pub fn add_edge(&mut self, a: usize, b: usize) -> (idx: usize)
        requires
            a < old(self).order(),
            b < old(self).order(),
            old(self).edges().len() < GRAPH_CAPACITY,
        ensures
            idx == old(self).edges().len(),
            final(self).order() == old(self).order(),
            final(self).edges() == old(self).edges().push((a, b)),
    {
        graph_add_edge(&mut self.inner, a, b)
    }

    /// Returns the index of the edge from `a` to `b` that was added last, if
    /// there is one. Both must be nodes of the graph.
    pub fn find_edge(&self, a: usize, b: usize) -> (r: Option<usize>)
        requires
            a < self.order(),
            b < self.order(),
        ensures
            match r {
                Some(e) => e < self.edges().len() && self.edges()[e as int] == (a, b)
                    && forall|i: int| e < i < self.edges().len() ==> self.edges()[i] != (a, b),
                None => forall|i: int| 0 <= i < self.edges().len() ==> self.edges()[i] != (a, b),
            },
    {
        graph_find_edge(&self.inner, a, b)
    }

    /// Returns the targets of the edges that leave the node `a`, the target
    /// of the edge that was added last first.
    pub fn neighbors(&self, a: usize) -> (r: Vec<usize>)
        requires
            a < self.order(),
        ensures
            r@ == out_targets(self.edges(), a),
    {
        graph_neighbors(&self.inner, a)
    }

    /// Returns the number of edges that leave the node `a`.
    pub fn out_degree(&self, a: usize) -> (n: usize)
        requires
            a < self.order(),
        ensures
            n == out_targets(self.edges(), a).len(),
    {
        graph_out_degree(&self.inner, a)
    }

    /// Returns the number of edges from the node `a` to the node `b`.
    pub fn count_connecting(&self, a: usize, b: usize) -> (n: usize)
        requires
            a < self.order(),
            b < self.order(),
        ensures
            n == count_connecting(self.edges(), a, b),
    {
        graph_count_connecting(&self.inner, a, b)
    }
}

} // verus!
