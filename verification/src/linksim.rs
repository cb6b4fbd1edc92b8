//! The interface to link-level simulators: what a simulator is handed, and
//! what it hands back.

use crate::fxhash::{fx_map_get, fx_map_insert, fx_map_new};
use crate::graph::{out_targets, Grown, GRAPH_CAPACITY};
use crate::network::topology::TopologyError;
use crate::network::types::{FctRecord, Flow, FlowId, Link, Node, NodeId, NodeKind};
use crate::units::{BitsPerSec, Nanosecs};
use rustc_hash::FxHashMap;
use vstd::prelude::*;

verus! {

/// The kinds of nodes in a link-level simulation.
#[derive(Debug, Clone, Copy, PartialEq, Eq, Structural)]
pub enum LinkSimNodeKind {
    /// A host that sends.
    Source,
    /// A host that receives.
    Destination,
    /// A switch.
    Switch,
}

/// A node in a link-level simulation.
#[derive(Debug, Clone, Copy, PartialEq, Eq, Structural)]
pub struct LinkSimNode {
    /// The identifier of the node.
    pub id: NodeId,
    /// The kind of the node.
    pub kind: LinkSimNodeKind,
}

/// A link in a link-level simulation.
#[derive(Debug, Clone, Copy, PartialEq, Eq, Structural)]
pub struct LinkSimLink {
    /// The node at which the link starts.
    pub from: NodeId,
    /// The node at which the link ends.
    pub to: NodeId,
    /// The bandwidth of the link.
    pub total_bandwidth: BitsPerSec,
    /// The bandwidth that acknowledgements leave free.
    pub available_bandwidth: BitsPerSec,
    /// The propagation delay.
    pub delay: Nanosecs,
}

/// The reasons for which a link-level simulation fails.
#[derive(Debug, Clone, PartialEq, Eq)]
pub enum LinkSimError {
    /// There is no channel with this index.
    UnknownEdge(usize),
    /// Reading or writing failed.
    Io(String),
    /// The link-level topology is not valid.
    Topology(TopologyError),
    /// Any other failure.
    Other(String),
}

/// A descriptor of a link-level simulation: a channel as the bottleneck, the
/// links that lead to and from it, the nodes at their ends, and the flows
/// by their identifiers.
#[derive(Debug, Clone)]
pub struct LinkSimDesc {
    /// The index of the channel.
    pub edge: usize,
    /// The channel as a link.
    pub bottleneck: LinkSimLink,
    /// The links other than the bottleneck.
    pub other_links: Vec<LinkSimLink>,
    /// The nodes.
    pub nodes: Vec<LinkSimNode>,
    /// The identifiers of the flows.
    pub flows: Vec<FlowId>,
}

/// A full specification of a link-level simulation.
#[derive(Debug)]
pub struct LinkSimSpec {
    /// The index of the channel.
    pub edge: usize,
    /// The channel as a link.
    pub bottleneck: LinkSimLink,
    /// The links other than the bottleneck.
    pub other_links: Vec<LinkSimLink>,
    /// The nodes.
    pub nodes: Vec<LinkSimNode>,
    /// The flows.
    pub flows: Vec<Flow>,
}

/// What a specification of a link-level simulation holds.
pub struct SpecView {
    pub edge: usize,
    pub bottleneck: LinkSimLink,
    pub other_links: Seq<LinkSimLink>,
    pub nodes: Seq<LinkSimNode>,
    pub flows: Seq<Flow>,
}

/// What a simulation gives: the records of the flows, or the reason for
/// which it failed.
pub open spec fn outcome_of(r: Result<Vec<FctRecord>, LinkSimError>) -> Result<
    Seq<FctRecord>,
    LinkSimError,
> {
    match r {
        Ok(records) => Ok(records@),
        Err(e) => Err(e),
    }
}

/// A link-level simulator.
pub trait LinkSim {
    /// Whether the simulator may answer the specification `spec` with
    /// `out`. A simulator says by this what it promises of its answers; one
    /// that says nothing accepts every answer.
    open spec fn answers(&self, spec: SpecView, out: Result<Seq<FctRecord>, LinkSimError>) -> bool {
        true
    }

    /// The name of the simulator, by which a worker finds it.
    fn name(&self) -> String;

    /// Simulates the given specification and returns the records of the
    /// completion of its flows.
    fn simulate(&self, spec: LinkSimSpec) -> (r: Result<Vec<FctRecord>, LinkSimError>)
        ensures
            self.answers(spec@, outcome_of(r)),
    ;
}

/// The new identifier of `id`.
pub open spec fn renamed(map: Map<usize, usize>, id: NodeId) -> NodeId {
    NodeId(map[id.0])
}

/// The link with its ends renamed.
pub open spec fn relabel_link(map: Map<usize, usize>, link: LinkSimLink) -> LinkSimLink {
    LinkSimLink {
        from: renamed(map, link.from),
        to: renamed(map, link.to),
        total_bandwidth: link.total_bandwidth,
        available_bandwidth: link.available_bandwidth,
        delay: link.delay,
    }
}

/// The specification with every identifier of a node renamed.
pub open spec fn relabel(map: Map<usize, usize>, spec: SpecView) -> SpecView {
    SpecView {
        edge: spec.edge,
        bottleneck: relabel_link(map, spec.bottleneck),
        other_links: spec.other_links.map_values(|l: LinkSimLink| relabel_link(map, l)),
        nodes: spec.nodes.map_values(
            |n: LinkSimNode| LinkSimNode { id: renamed(map, n.id), kind: n.kind },
        ),
        flows: spec.flows.map_values(
            |f: Flow|
                Flow {
                    id: f.id,
                    src: renamed(map, f.src),
                    dst: renamed(map, f.dst),
                    size: f.size,
                    start: f.start,
                },
        ),
    }
}

/// The map from the identifier of every node to its position among the
/// nodes; for an identifier that several nodes carry, the last position.
pub open spec fn positions(nodes: Seq<LinkSimNode>) -> Map<usize, usize>
    decreases nodes.len(),
{
    if nodes.len() == 0 {
        Map::empty()
    } else {
        positions(nodes.drop_last()).insert(nodes.last().id.0, (nodes.len() - 1) as usize)
    }
}

/// The map from every position among the nodes to the identifier of the
/// node that stands there.
pub open spec fn identifiers(nodes: Seq<LinkSimNode>) -> Map<usize, usize> {
    Map::new(|i: usize| i < nodes.len(), |i: usize| nodes[i as int].id.0)
}

/// Whether some node carries the identifier `id`.
pub open spec fn known(nodes: Seq<LinkSimNode>, id: NodeId) -> bool {
    exists|i: int| 0 <= i < nodes.len() && nodes[i].id == id
}

/// The identifiers that are mapped to positions are those of the nodes, and
/// each is mapped to a position at which a node carries it.
pub proof fn lemma_positions(nodes: Seq<LinkSimNode>, id: NodeId)
    requires
        nodes.len() <= usize::MAX,
    ensures
        positions(nodes).contains_key(id.0) <==> known(nodes, id),
        positions(nodes).contains_key(id.0) ==> positions(nodes)[id.0] < nodes.len()
            && nodes[positions(nodes)[id.0] as int].id == id,
    decreases nodes.len(),
{
    if nodes.len() > 0 {
        let rest = nodes.drop_last();
        lemma_positions(rest, id);
        if known(rest, id) {
            let i = choose|i: int| 0 <= i < rest.len() && rest[i].id == id;
            assert(nodes[i].id == id);
        }
        if known(nodes, id) {
            let i = choose|i: int| 0 <= i < nodes.len() && nodes[i].id == id;
            if i < rest.len() {
                assert(rest[i].id == id);
            }
        }
        if nodes.last().id == id {
            assert(nodes[nodes.len() - 1].id == id);
        } else if positions(rest).contains_key(id.0) {
            assert(nodes[positions(rest)[id.0] as int] == rest[positions(rest)[id.0] as int]);
        }
    }
}

/// Where no two nodes carry the same identifier, every node is mapped to its
/// own position.
pub proof fn lemma_positions_distinct(nodes: Seq<LinkSimNode>, i: int)
    requires
        0 <= i < nodes.len(),
        nodes.len() <= usize::MAX,
        forall|a: int, b: int| 0 <= a < b < nodes.len() ==> nodes[a].id != nodes[b].id,
    ensures
        positions(nodes).contains_key(nodes[i].id.0),
        positions(nodes)[nodes[i].id.0] == i,
{
    lemma_positions(nodes, nodes[i].id);
    let p = positions(nodes)[nodes[i].id.0] as int;
    if p < i {
        assert(nodes[p].id != nodes[i].id);
    } else if i < p {
        assert(nodes[i].id != nodes[p].id);
    }
}

impl LinkSimSpec {
    /// What the specification holds.
    pub open spec fn view(&self) -> SpecView {
        SpecView {
            edge: self.edge,
            bottleneck: self.bottleneck,
            other_links: self.other_links@,
            nodes: self.nodes@,
            flows: self.flows@,
        }
    }

    /// Whether every end of a link and of a flow is one of the nodes.
    pub open spec fn closed(&self) -> bool {
        &&& known(self.nodes@, self.bottleneck.from)
        &&& known(self.nodes@, self.bottleneck.to)
        &&& forall|i: int|
            0 <= i < self.other_links@.len() ==> known(
                self.nodes@,
                (#[trigger] self.other_links@[i]).from,
            ) && known(self.nodes@, self.other_links@[i].to)
        &&& forall|i: int|
            0 <= i < self.flows@.len() ==> known(self.nodes@, (#[trigger] self.flows@[i]).src)
                && known(self.nodes@, self.flows@[i].dst)
    }

    /// Returns true if every end of a link and of a flow is one of the
    /// nodes.
    pub fn is_closed(&self) -> (r: bool)
        ensures
            r == self.closed(),
    {
        let mut ids = fx_map_new();
        let mut i: usize = 0;
        while i < self.nodes.len()
            invariant
                i <= self.nodes@.len(),
                ids@ == positions(self.nodes@.take(i as int)),
            decreases self.nodes@.len() - i,
        {
            fx_map_insert(&mut ids, self.nodes[i].id.0, i);
            proof {
                assert(self.nodes@.take(i + 1).drop_last() =~= self.nodes@.take(i as int));
            }
            i += 1;
        }
        proof {
            assert(self.nodes@.take(i as int) =~= self.nodes@);
            assert(self.nodes@.len() == self.nodes.len());
            lemma_positions(self.nodes@, self.bottleneck.from);
            lemma_positions(self.nodes@, self.bottleneck.to);
        }
        if fx_map_get(&ids, self.bottleneck.from.0).is_none() || fx_map_get(
            &ids,
            self.bottleneck.to.0,
        ).is_none() {
            return false;
        }
        let mut k: usize = 0;
        while k < self.other_links.len()
            invariant
                k <= self.other_links@.len(),
                self.nodes@.len() <= usize::MAX,
                ids@ == positions(self.nodes@),
                forall|j: int|
                    0 <= j < k ==> known(self.nodes@, (#[trigger] self.other_links@[j]).from)
                        && known(self.nodes@, self.other_links@[j].to),
            decreases self.other_links@.len() - k,
        {
            let link = self.other_links[k];
            proof {
                lemma_positions(self.nodes@, link.from);
                lemma_positions(self.nodes@, link.to);
            }
            if fx_map_get(&ids, link.from.0).is_none() || fx_map_get(&ids, link.to.0).is_none() {
                return false;
            }
            k += 1;
        }
        let mut k: usize = 0;
        while k < self.flows.len()
            invariant
                k <= self.flows@.len(),
                self.nodes@.len() <= usize::MAX,
                ids@ == positions(self.nodes@),
                forall|j: int|
                    0 <= j < k ==> known(self.nodes@, (#[trigger] self.flows@[j]).src) && known(
                        self.nodes@,
                        self.flows@[j].dst,
                    ),
            decreases self.flows@.len() - k,
        {
            let flow = self.flows[k];
            proof {
                lemma_positions(self.nodes@, flow.src);
                lemma_positions(self.nodes@, flow.dst);
            }
            if fx_map_get(&ids, flow.src.0).is_none() || fx_map_get(&ids, flow.dst.0).is_none() {
                return false;
            }
            k += 1;
        }
        true
    }

    /// The nodes of the specification.
    pub fn nodes(&self) -> (r: &[LinkSimNode])
        ensures
            r@ == self.nodes@,
    {
        self.nodes.as_slice()
    }

    /// The links of the specification: the bottleneck, then the others.
    pub fn links(&self) -> (r: Vec<LinkSimLink>)
        ensures
            r@ == seq![self.bottleneck] + self.other_links@,
    {
        let mut out: Vec<LinkSimLink> = Vec::new();
        out.push(self.bottleneck);
        let mut i: usize = 0;
        while i < self.other_links.len()
            invariant
                i <= self.other_links@.len(),
                out@ == seq![self.bottleneck] + self.other_links@.take(i as int),
            decreases self.other_links@.len() - i,
        {
            out.push(self.other_links[i]);
            proof {
                assert(self.other_links@.take(i + 1) =~= self.other_links@.take(i as int).push(
                    self.other_links@[i as int],
                ));
                assert(out@ =~= seq![self.bottleneck] + self.other_links@.take(i + 1));
            }
            i += 1;
        }
        proof {
            assert(self.other_links@.take(i as int) =~= self.other_links@);
        }
        out
    }

    /// The nodes of the specification as nodes of a network: sources and
    /// destinations are hosts.
    pub fn generic_nodes(&self) -> (r: Vec<Node>)
        ensures
            r@ == self.nodes@.map_values(|n: LinkSimNode| generic_node(n)),
    {
        let mut out: Vec<Node> = Vec::new();
        let mut i: usize = 0;
        while i < self.nodes.len()
            invariant
                i <= self.nodes@.len(),
                out@ == self.nodes@.take(i as int).map_values(|n: LinkSimNode| generic_node(n)),
            decreases self.nodes@.len() - i,
        {
            let n = self.nodes[i];
            let kind = match n.kind {
                LinkSimNodeKind::Source => NodeKind::Host,
                LinkSimNodeKind::Destination => NodeKind::Host,
                LinkSimNodeKind::Switch => NodeKind::Switch,
            };
            out.push(Node::new(n.id, kind));
            proof {
                assert(self.nodes@.take(i + 1) =~= self.nodes@.take(i as int).push(n));
                assert(out@ =~= self.nodes@.take(i + 1).map_values(
                    |n: LinkSimNode| generic_node(n),
                ));
            }
            i += 1;
        }
        proof {
            assert(self.nodes@.take(i as int) =~= self.nodes@);
        }
        out
    }

    /// The links of the specification as links of a network, with the
    /// bandwidth that acknowledgements leave free.
    pub fn generic_links(&self) -> (r: Vec<Link>)
        ensures
            r@ == (seq![self.bottleneck] + self.other_links@).map_values(
                |l: LinkSimLink| generic_link(l),
            ),
    {
        let links = self.links();
        let mut out: Vec<Link> = Vec::new();
        let mut i: usize = 0;
        while i < links.len()
            invariant
                i <= links@.len(),
                out@ == links@.take(i as int).map_values(|l: LinkSimLink| generic_link(l)),
            decreases links@.len() - i,
        {
            let l = links[i];
            out.push(Link { a: l.from, b: l.to, bandwidth: l.available_bandwidth, delay: l.delay });
            proof {
                assert(links@.take(i + 1) =~= links@.take(i as int).push(l));
                assert(out@ =~= links@.take(i + 1).map_values(|l: LinkSimLink| generic_link(l)));
            }
            i += 1;
        }
        proof {
            assert(links@.take(i as int) =~= links@);
        }
        out
    }

    /// Returns a copy of the specification in which the nodes are numbered
    /// from zero in their order, together with the map from the old
    /// identifiers to the new ones. Every end of a link and of a flow must be
    /// one of the nodes.
    #[verifier::rlimit(50)]
    pub fn contiguousify(&self) -> (r: (Self, FxHashMap<usize, usize>))
        requires
            self.closed(),
        ensures
            r.1@ == positions(self.nodes@),
            r.0@ == relabel(r.1@, self@),
    {
        let mut old2new = fx_map_new();
        let mut i: usize = 0;
        while i < self.nodes.len()
            invariant
                i <= self.nodes@.len(),
                old2new@ == positions(self.nodes@.take(i as int)),
            decreases self.nodes@.len() - i,
        {
            fx_map_insert(&mut old2new, self.nodes[i].id.0, i);
            proof {
                assert(self.nodes@.take(i + 1).drop_last() =~= self.nodes@.take(i as int));
            }
            i += 1;
        }
        proof {
            assert(self.nodes@.take(i as int) =~= self.nodes@);
        }
        let ghost map = old2new@;
        assert(self.nodes@.len() == self.nodes.len());
        let bottleneck = Self::renamed_link(&old2new, Ghost(self.nodes@), &self.bottleneck);
        let mut other_links: Vec<LinkSimLink> = Vec::new();
        let mut k: usize = 0;
        while k < self.other_links.len()
            invariant
                k <= self.other_links@.len(),
                self.closed(),
                self.nodes@.len() <= usize::MAX,
                old2new@ == positions(self.nodes@),
                map == old2new@,
                other_links@ == self.other_links@.take(k as int).map_values(
                    |l: LinkSimLink| relabel_link(map, l),
                ),
            decreases self.other_links@.len() - k,
        {
            let link = Self::renamed_link(&old2new, Ghost(self.nodes@), &self.other_links[k]);
            other_links.push(link);
            proof {
                assert(self.other_links@.take(k + 1) =~= self.other_links@.take(k as int).push(
                    self.other_links@[k as int],
                ));
                assert(other_links@ =~= self.other_links@.take(k + 1).map_values(
                    |l: LinkSimLink| relabel_link(map, l),
                ));
            }
            k += 1;
        }
        let mut nodes: Vec<LinkSimNode> = Vec::new();
        let mut k: usize = 0;
        while k < self.nodes.len()
            invariant
                k <= self.nodes@.len(),
                old2new@ == positions(self.nodes@),
                map == old2new@,
                nodes@ == self.nodes@.take(k as int).map_values(
                    |n: LinkSimNode| LinkSimNode { id: renamed(map, n.id), kind: n.kind },
                ),
            decreases self.nodes@.len() - k,
        {
            let n = self.nodes[k];
            proof {
                assert(known(self.nodes@, n.id));
            }
            let id = Self::renamed_id(&old2new, Ghost(self.nodes@), n.id);
            nodes.push(LinkSimNode { id, kind: n.kind });
            proof {
                assert(self.nodes@.take(k + 1) =~= self.nodes@.take(k as int).push(n));
                assert(nodes@ =~= self.nodes@.take(k + 1).map_values(
                    |n: LinkSimNode| LinkSimNode { id: renamed(map, n.id), kind: n.kind },
                ));
            }
            k += 1;
        }
        let mut flows: Vec<Flow> = Vec::new();
        let mut k: usize = 0;
        while k < self.flows.len()
            invariant
                k <= self.flows@.len(),
                self.closed(),
                self.nodes@.len() <= usize::MAX,
                old2new@ == positions(self.nodes@),
                map == old2new@,
                flows@ == self.flows@.take(k as int).map_values(
                    |f: Flow|
                        Flow {
                            id: f.id,
                            src: renamed(map, f.src),
                            dst: renamed(map, f.dst),
                            size: f.size,
                            start: f.start,
                        },
                ),
            decreases self.flows@.len() - k,
        {
            let f = self.flows[k];
            let src = Self::renamed_id(&old2new, Ghost(self.nodes@), f.src);
            let dst = Self::renamed_id(&old2new, Ghost(self.nodes@), f.dst);
            flows.push(Flow { id: f.id, src, dst, size: f.size, start: f.start });
            proof {
                assert(self.flows@.take(k + 1) =~= self.flows@.take(k as int).push(f));
                assert(flows@ =~= self.flows@.take(k + 1).map_values(
                    |f: Flow|
                        Flow {
                            id: f.id,
                            src: renamed(map, f.src),
                            dst: renamed(map, f.dst),
                            size: f.size,
                            start: f.start,
                        },
                ));
            }
            k += 1;
        }
        proof {
            assert(self.other_links@.take(self.other_links@.len() as int) =~= self.other_links@);
            assert(self.nodes@.take(self.nodes@.len() as int) =~= self.nodes@);
            assert(self.flows@.take(self.flows@.len() as int) =~= self.flows@);
        }
        (LinkSimSpec { edge: self.edge, bottleneck, other_links, nodes, flows }, old2new)
    }

    fn renamed_id(
        old2new: &FxHashMap<usize, usize>,
        nodes: Ghost<Seq<LinkSimNode>>,
        id: NodeId,
    ) -> (r: NodeId)
        requires
            old2new@ == positions(nodes@),
            nodes@.len() <= usize::MAX,
            known(nodes@, id),
        ensures
            r == renamed(old2new@, id),
    {
        proof {
            lemma_positions(nodes@, id);
        }
        match fx_map_get(old2new, id.0) {
            Some(new) => NodeId(new),
            None => id,
        }
    }

    fn renamed_link(
        old2new: &FxHashMap<usize, usize>,
        nodes: Ghost<Seq<LinkSimNode>>,
        link: &LinkSimLink,
    ) -> (r: LinkSimLink)
        requires
            old2new@ == positions(nodes@),
            nodes@.len() <= usize::MAX,
            known(nodes@, link.from),
            known(nodes@, link.to),
        ensures
            r == relabel_link(old2new@, *link),
    {
        LinkSimLink {
            from: Self::renamed_id(old2new, nodes, link.from),
            to: Self::renamed_id(old2new, nodes, link.to),
            total_bandwidth: link.total_bandwidth,
            available_bandwidth: link.available_bandwidth,
            delay: link.delay,
        }
    }
}

/// A node of a link-level simulation as a node of a network.
pub open spec fn generic_node(n: LinkSimNode) -> Node {
    Node {
        id: n.id,
        kind: match n.kind {
            LinkSimNodeKind::Source => NodeKind::Host,
            LinkSimNodeKind::Destination => NodeKind::Host,
            LinkSimNodeKind::Switch => NodeKind::Switch,
        },
    }
}

/// A link of a link-level simulation as a link of a network.
pub open spec fn generic_link(l: LinkSimLink) -> Link {
    Link { a: l.from, b: l.to, bandwidth: l.available_bandwidth, delay: l.delay }
}

/// Renumbering loses nothing: where no two nodes of a specification carry
/// the same identifier and every end of a link and of a flow is one of the
/// nodes, the new identifiers are the positions of the nodes, and renaming
/// the renumbered specification by the identifiers that stand at those
/// positions gives the specification back.
#[verifier::rlimit(50)]
pub proof fn lemma_contiguousify_roundtrip(spec: SpecView)
    requires
        spec.nodes.len() <= usize::MAX,
        forall|a: int, b: int| 0 <= a < b < spec.nodes.len() ==> spec.nodes[a].id != spec.nodes[b].id,
        known(spec.nodes, spec.bottleneck.from),
        known(spec.nodes, spec.bottleneck.to),
        forall|i: int|
            0 <= i < spec.other_links.len() ==> known(spec.nodes, (#[trigger] spec.other_links[i]).from)
                && known(spec.nodes, spec.other_links[i].to),
        forall|i: int|
            0 <= i < spec.flows.len() ==> known(spec.nodes, (#[trigger] spec.flows[i]).src) && known(
                spec.nodes,
                spec.flows[i].dst,
            ),
    ensures
        forall|i: int|
            0 <= i < spec.nodes.len() ==> (#[trigger] relabel(
                positions(spec.nodes),
                spec,
            ).nodes[i]).id.0 == i,
        forall|id: NodeId|
            #[trigger] known(spec.nodes, id) ==> positions(spec.nodes).contains_key(id.0)
                && identifiers(spec.nodes)[positions(spec.nodes)[id.0]] == id.0,
        relabel(identifiers(spec.nodes), relabel(positions(spec.nodes), spec)) == spec,
{
    let there = positions(spec.nodes);
    let back = identifiers(spec.nodes);
    let moved = relabel(there, spec);
    let again = relabel(back, moved);
    assert forall|id: NodeId| #[trigger] known(spec.nodes, id) implies there.contains_key(id.0)
        && back[there[id.0]] == id.0 && renamed(back, renamed(there, id)) == id by {
        lemma_positions(spec.nodes, id);
    }
    assert forall|i: int| 0 <= i < spec.nodes.len() implies (#[trigger] moved.nodes[i]).id.0
        == i by {
        lemma_positions_distinct(spec.nodes, i);
    }
    assert(again.nodes =~= spec.nodes) by {
        assert forall|i: int| 0 <= i < spec.nodes.len() implies again.nodes[i] == spec.nodes[i] by {
            assert(known(spec.nodes, spec.nodes[i].id));
        }
    }
    assert(again.other_links =~= spec.other_links) by {
        assert forall|i: int| 0 <= i < spec.other_links.len() implies again.other_links[i]
            == spec.other_links[i] by {
            assert(known(spec.nodes, spec.other_links[i].from));
        }
    }
    assert(again.flows =~= spec.flows) by {
        assert forall|i: int| 0 <= i < spec.flows.len() implies again.flows[i]
            == spec.flows[i] by {
            assert(known(spec.nodes, spec.flows[i].src));
        }
    }
}

/// The test for a link to start at `cur`.
pub open spec fn leaves(cur: NodeId) -> spec_fn(LinkSimLink) -> bool {
    |l: LinkSimLink| l.from == cur
}

/// The test for a link to lead from `cur` to `dst`.
pub open spec fn joins(cur: NodeId, dst: NodeId) -> spec_fn(LinkSimLink) -> bool {
    |l: LinkSimLink| l.from == cur && l.to == dst
}

/// The position of the latest link that passes the test, if there is one.
pub open spec fn latest(links: Seq<LinkSimLink>, test: spec_fn(LinkSimLink) -> bool) -> Option<int>
    decreases links.len(),
{
    if links.len() == 0 {
        None
    } else if test(links.last()) {
        Some(links.len() - 1)
    } else {
        latest(links.drop_last(), test)
    }
}

/// The link that is taken at `cur` on the way to `dst`: the latest link from
/// `cur` to `dst`, or else the latest link that starts at `cur`; none where
/// no link starts at `cur`.
pub open spec fn next_link(links: Seq<LinkSimLink>, cur: NodeId, dst: NodeId) -> Option<
    LinkSimLink,
> {
    match latest(links, joins(cur, dst)) {
        Some(e) => Some(links[e]),
        None => match latest(links, leaves(cur)) {
            Some(e) => Some(links[e]),
            None => None,
        },
    }
}

/// The links on the way from `cur` to `dst`; none where the way ends before
/// `dst` or takes more than `fuel` links.
pub open spec fn link_path(links: Seq<LinkSimLink>, cur: NodeId, dst: NodeId, fuel: nat) -> Option<
    Seq<LinkSimLink>,
>
    decreases fuel,
{
    if cur == dst {
        Some(Seq::empty())
    } else if fuel == 0 {
        None
    } else {
        match next_link(links, cur, dst) {
            None => None,
            Some(link) => match link_path(links, link.to, dst, (fuel - 1) as nat) {
                None => None,
                Some(rest) => Some(seq![link] + rest),
            },
        }
    }
}

/// The latest link that passes a test is the one after which no link passes
/// it.
pub proof fn lemma_latest(links: Seq<LinkSimLink>, test: spec_fn(LinkSimLink) -> bool)
    ensures
        match latest(links, test) {
            Some(e) => 0 <= e < links.len() && test(links[e]) && forall|f: int|
                e < f < links.len() ==> !test(#[trigger] links[f]),
            None => forall|f: int| 0 <= f < links.len() ==> !test(#[trigger] links[f]),
        },
    decreases links.len(),
{
    if links.len() > 0 && !test(links.last()) {
        let rest = links.drop_last();
        lemma_latest(rest, test);
        match latest(rest, test) {
            Some(e) => {
                assert(rest[e] == links[e]);
                assert forall|f: int| e < f < links.len() implies !test(#[trigger] links[f]) by {
                    if f < rest.len() {
                        assert(rest[f] == links[f]);
                    }
                }
            },
            None => {
                assert forall|f: int| 0 <= f < links.len() implies !test(#[trigger] links[f]) by {
                    if f < rest.len() {
                        assert(rest[f] == links[f]);
                    }
                }
            },
        }
    }
}

/// The first of the targets of the edges that leave a node is the target of
/// the latest of those edges.
pub proof fn lemma_first_target(edges: Seq<(usize, usize)>, a: usize)
    ensures
        out_targets(edges, a).len() == 0 ==> forall|f: int|
            0 <= f < edges.len() ==> (#[trigger] edges[f]).0 != a,
        out_targets(edges, a).len() > 0 ==> exists|e: int|
            0 <= e < edges.len() && #[trigger] edges[e] == (a, out_targets(edges, a)[0])
                && forall|f: int| e < f < edges.len() ==> (#[trigger] edges[f]).0 != a,
    decreases edges.len(),
{
    if edges.len() > 0 {
        let rest = edges.drop_last();
        lemma_first_target(rest, a);
        if edges.last().0 == a {
            let e = edges.len() - 1;
            assert(edges[e] == (a, out_targets(edges, a)[0]));
        } else {
            if out_targets(rest, a).len() > 0 {
                let e = choose|e: int|
                    0 <= e < rest.len() && #[trigger] rest[e] == (a, out_targets(rest, a)[0])
                        && forall|f: int| e < f < rest.len() ==> (#[trigger] rest[f]).0 != a;
                assert(edges[e] == rest[e]);
                assert forall|f: int| e < f < edges.len() implies (#[trigger] edges[f]).0 != a by {
                    if f < rest.len() {
                        assert(rest[f] == edges[f]);
                    }
                }
            } else {
                assert forall|f: int| 0 <= f < edges.len() implies (#[trigger] edges[f]).0 != a by {
                    if f < rest.len() {
                        assert(rest[f] == edges[f]);
                    }
                }
            }
        }
    }
}

/// A link-level topology: the nodes and links of a specification as a graph.
pub struct LinkSimTopo {
    pub graph: Grown,
    pub nodes: Vec<LinkSimNode>,
    pub links: Vec<LinkSimLink>,
    pub nid2nix: FxHashMap<usize, usize>,
}

impl LinkSimTopo {
    /// The edge of the graph that stands for a link.
    pub open spec fn edge_of(&self, link: LinkSimLink) -> (usize, usize) {
        (positions(self.nodes@)[link.from.0], positions(self.nodes@)[link.to.0])
    }

    /// The graph holds a node for every node and an edge for every link, in
    /// their order, and every link joins two of the nodes.
    pub open spec fn wf(&self) -> bool {
        &&& self.nodes@.len() < GRAPH_CAPACITY
        &&& self.links@.len() < GRAPH_CAPACITY
        &&& self.graph.order() == self.nodes@.len()
        &&& self.nid2nix@ == positions(self.nodes@)
        &&& forall|i: int|
            0 <= i < self.links@.len() ==> known(self.nodes@, (#[trigger] self.links@[i]).from)
                && known(self.nodes@, self.links@[i].to)
        &&& self.graph.edges() == self.links@.map_values(|l: LinkSimLink| self.edge_of(l))
    }

    /// Builds the topology of a specification, every end of whose links must
    /// be one of its nodes. The graph numbers nodes and edges with 32 bits.
    pub fn new(spec: &LinkSimSpec) -> (r: Self)
        requires
            spec.closed(),
            spec.nodes@.len() < GRAPH_CAPACITY,
            spec.other_links@.len() + 1 < GRAPH_CAPACITY,
        ensures
            r.wf(),
            r.nodes@ == spec.nodes@,
            r.links@ == seq![spec.bottleneck] + spec.other_links@,
    {
        let mut graph = Grown::new();
        let mut nid2nix = fx_map_new();
        let mut nodes: Vec<LinkSimNode> = Vec::new();
        let mut i: usize = 0;
        while i < spec.nodes.len()
            invariant
                i <= spec.nodes@.len(),
                spec.nodes@.len() < GRAPH_CAPACITY,
                graph.order() == i,
                graph.edges() == Seq::<(usize, usize)>::empty(),
                nodes@ == spec.nodes@.take(i as int),
                nid2nix@ == positions(spec.nodes@.take(i as int)),
            decreases spec.nodes@.len() - i,
        {
            let n = spec.nodes[i];
            let nix = graph.add_node();
            fx_map_insert(&mut nid2nix, n.id.0, nix);
            nodes.push(n);
            proof {
                assert(spec.nodes@.take(i + 1).drop_last() =~= spec.nodes@.take(i as int));
                assert(spec.nodes@.take(i + 1) =~= spec.nodes@.take(i as int).push(n));
            }
            i += 1;
        }
        proof {
            assert(spec.nodes@.take(i as int) =~= spec.nodes@);
        }
        let all = spec.links();
        let mut links: Vec<LinkSimLink> = Vec::new();
        let ghost pos = positions(spec.nodes@);
        let mut k: usize = 0;
        while k < all.len()
            invariant
                k <= all@.len(),
                all@ == seq![spec.bottleneck] + spec.other_links@,
                all@.len() < GRAPH_CAPACITY,
                spec.closed(),
                spec.nodes@.len() < GRAPH_CAPACITY,
                pos == positions(spec.nodes@),
                nid2nix@ == pos,
                graph.order() == spec.nodes@.len(),
                links@ == all@.take(k as int),
                graph.edges() == all@.take(k as int).map_values(
                    |l: LinkSimLink| (pos[l.from.0], pos[l.to.0]),
                ),
            decreases all@.len() - k,
        {
            let l = all[k];
            proof {
                if k == 0 {
                    assert(l == spec.bottleneck);
                } else {
                    assert(l == spec.other_links@[k - 1]);
                }
                lemma_positions(spec.nodes@, l.from);
                lemma_positions(spec.nodes@, l.to);
            }
            let from = match fx_map_get(&nid2nix, l.from.0) {
                Some(nix) => nix,
                None => 0,
            };
            let to = match fx_map_get(&nid2nix, l.to.0) {
                Some(nix) => nix,
                None => 0,
            };
            let _ = graph.add_edge(from, to);
            links.push(l);
            proof {
                assert(all@.take(k + 1) =~= all@.take(k as int).push(l));
                assert(graph.edges() =~= all@.take(k + 1).map_values(
                    |l: LinkSimLink| (pos[l.from.0], pos[l.to.0]),
                ));
            }
            k += 1;
        }
        let r = LinkSimTopo { graph, nodes, links, nid2nix };
        proof {
            assert(all@.take(k as int) =~= all@);
            assert forall|i: int| 0 <= i < r.links@.len() implies known(
                r.nodes@,
                (#[trigger] r.links@[i]).from,
            ) && known(r.nodes@, r.links@[i].to) by {
                if i > 0 {
                    assert(r.links@[i] == spec.other_links@[i - 1]);
                }
            }
            assert(r.graph.edges() =~= r.links@.map_values(|l: LinkSimLink| r.edge_of(l)));
        }
        r
    }

    /// Returns the links on the way from `src` to `dst`: at every node the
    /// latest link to `dst` is taken, or else the latest link that starts at
    /// the node. There is no way where a node is reached at which no link
    /// starts, or where the walk does not arrive after as many links as
    /// there are nodes.
    pub fn path(&self, src: NodeId, dst: NodeId) -> (r: Option<Vec<LinkSimLink>>)
        requires
            self.wf(),
            known(self.nodes@, src),
        ensures
            match r {
                Some(path) => link_path(self.links@, src, dst, self.nodes@.len()) == Some(path@),
                None => link_path(self.links@, src, dst, self.nodes@.len()) is None,
            },
    {
        let mut path: Vec<LinkSimLink> = Vec::new();
        let mut cur = src;
        let mut fuel = self.nodes.len();
        let ghost links = self.links@;
        proof {
            assert(path@ + Seq::<LinkSimLink>::empty() =~= path@);
        }
        while cur != dst
            invariant
                self.wf(),
                links == self.links@,
                known(self.nodes@, cur),
                fuel <= self.nodes@.len(),
                link_path(links, src, dst, self.nodes@.len()) == match link_path(
                    links,
                    cur,
                    dst,
                    fuel as nat,
                ) {
                    None => None::<Seq<LinkSimLink>>,
                    Some(rest) => Some(path@ + rest),
                },
            decreases fuel,
        {
            if fuel == 0 {
                return None;
            }
            let link = match self.step(cur, dst) {
                Some(link) => link,
                None => {
                    return None;
                },
            };
            proof {
                match link_path(links, link.to, dst, (fuel - 1) as nat) {
                    None => {},
                    Some(rest) => {
                        assert(path@ + (seq![link] + rest) =~= path@.push(link) + rest);
                    },
                }
            }
            path.push(link);
            cur = link.to;
            fuel -= 1;
        }
        proof {
            assert(path@ + Seq::<LinkSimLink>::empty() =~= path@);
        }
        Some(path)
    }

    /// Returns the link that is taken at `cur` on the way to `dst`.
    #[verifier::rlimit(50)]
    fn step(&self, cur: NodeId, dst: NodeId) -> (r: Option<LinkSimLink>)
        requires
            self.wf(),
            known(self.nodes@, cur),
        ensures
            r == next_link(self.links@, cur, dst),
            r matches Some(link) ==> known(self.nodes@, link.to),
    {
        let ghost edges = self.graph.edges();
        let ghost pos = positions(self.nodes@);
        proof {
            lemma_positions(self.nodes@, cur);
            lemma_positions(self.nodes@, dst);
            self.lemma_edge_ends(cur);
            self.lemma_edge_ends(dst);
            lemma_latest(self.links@, joins(cur, dst));
            lemma_latest(self.links@, leaves(cur));
        }
        let nix = match fx_map_get(&self.nid2nix, cur.0) {
            Some(nix) => nix,
            None => 0,
        };
        let direct = match fx_map_get(&self.nid2nix, dst.0) {
            Some(dix) => self.graph.find_edge(nix, dix),
            None => None,
        };
        match direct {
            Some(e) => {
                proof {
                    match latest(self.links@, joins(cur, dst)) {
                        Some(j) => {
                            assert(edges[j] == (pos[cur.0], pos[dst.0]));
                            if j < e {
                                assert(joins(cur, dst)(self.links@[e as int]));
                            }
                        },
                        None => {
                            assert(joins(cur, dst)(self.links@[e as int]));
                        },
                    }
                }
                Some(self.links[e])
            },
            None => {
                proof {
                    match latest(self.links@, joins(cur, dst)) {
                        Some(j) => {
                            assert(self.links@[j].to == dst);
                            assert(known(self.nodes@, self.links@[j].to));
                            assert(edges[j] == (pos[cur.0], pos[dst.0]));
                        },
                        None => {},
                    }
                    lemma_first_target(edges, nix);
                }
                let targets = self.graph.neighbors(nix);
                if targets.len() == 0 {
                    proof {
                        match latest(self.links@, leaves(cur)) {
                            Some(j) => {
                                assert(edges[j].0 == nix);
                            },
                            None => {},
                        }
                    }
                    return None;
                }
                let ghost w = choose|w: int|
                    0 <= w < edges.len() && #[trigger] edges[w] == (nix, targets@[0])
                        && forall|f: int| w < f < edges.len() ==> (#[trigger] edges[f]).0 != nix;
                proof {
                    assert(known(self.nodes@, self.links@[w].to));
                    lemma_positions(self.nodes@, self.links@[w].to);
                    assert(edges[w] == self.edge_of(self.links@[w]));
                }
                match self.graph.find_edge(nix, targets[0]) {
                    Some(e) => {
                        proof {
                            if e < w {
                                assert(edges[w] == (nix, targets@[0]));
                            } else if w < e {
                                assert(edges[e as int].0 != nix);
                            }
                            assert(e == w);
                            match latest(self.links@, leaves(cur)) {
                                Some(j) => {
                                    assert(edges[j].0 == nix);
                                    if j < e {
                                        assert(leaves(cur)(self.links@[e as int]));
                                    }
                                },
                                None => {
                                    assert(leaves(cur)(self.links@[e as int]));
                                },
                            }
                        }
                        Some(self.links[e])
                    },
                    None => {
                        proof {
                            assert(edges[w] == (nix, targets@[0]));
                        }
                        None
                    },
                }
            },
        }
    }

    /// A link starts at a node exactly if its edge starts at the position of
    /// the node, and it ends at a node exactly if its edge does.
    #[verifier::rlimit(50)]
    pub proof fn lemma_edge_ends(&self, id: NodeId)
        requires
            self.wf(),
        ensures
            self.graph.edges().len() == self.links@.len(),
            forall|f: int|
                0 <= f < self.links@.len() ==> {
                    &&& (#[trigger] self.graph.edges()[f]) == self.edge_of(self.links@[f])
                    &&& known(self.nodes@, id) ==> (self.links@[f].from == id <==> self.graph.edges()[f].0 == positions(self.nodes@)[id.0])
                    &&& known(self.nodes@, id) ==> (self.links@[f].to == id <==> self.graph.edges()[f].1 == positions(self.nodes@)[id.0])
                    &&& !known(self.nodes@, id) ==> self.links@[f].from != id && self.links@[f].to
                        != id
                    &&& self.graph.edges()[f].0 < self.nodes@.len()
                    &&& self.graph.edges()[f].1 < self.nodes@.len()
                },
    {
        let edges = self.graph.edges();
        assert forall|f: int| 0 <= f < self.links@.len() implies {
            &&& (#[trigger] edges[f]) == self.edge_of(self.links@[f])
            &&& known(self.nodes@, id) ==> (self.links@[f].from == id <==> edges[f].0 == positions(
                self.nodes@,
            )[id.0])
            &&& known(self.nodes@, id) ==> (self.links@[f].to == id <==> edges[f].1 == positions(
                self.nodes@,
            )[id.0])
            &&& !known(self.nodes@, id) ==> self.links@[f].from != id && self.links@[f].to != id
            &&& edges[f].0 < self.nodes@.len()
            &&& edges[f].1 < self.nodes@.len()
        } by {
            assert(known(self.nodes@, self.links@[f].from) && known(
                self.nodes@,
                self.links@[f].to,
            ));
            lemma_positions(self.nodes@, self.links@[f].from);
            lemma_positions(self.nodes@, self.links@[f].to);
            lemma_positions(self.nodes@, id);
        }
    }
}

} // verus!
