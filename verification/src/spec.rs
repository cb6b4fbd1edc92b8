//! Specifications of a simulation: nodes, links and flows, and their
//! validation.

use crate::graph::GRAPH_CAPACITY;
use crate::network::topology::{first_error, is_host, valid_topology, TopologyError};
use crate::network::types::{Flow, FlowId, Link, Node, NodeId, NodeKind};
use crate::network::Network;
use crate::seqs::is_first;
use std::collections::HashSet;
use vstd::prelude::*;

verus! {

broadcast use vstd::std_specs::hash::group_hash_axioms;

/// A simulation specification.
pub struct Spec {
    /// The nodes of the topology.
    pub nodes: Vec<Node>,
    /// The links of the topology.
    pub links: Vec<Link>,
    /// The flows of the workload.
    pub flows: Vec<Flow>,
}

/// The reasons for which a specification is not valid.
#[derive(Debug, Clone, Copy, PartialEq, Eq, Structural)]
pub enum SpecError {
    /// The source of a flow is no declared host.
    InvalidFlowSrc {
        /// The flow.
        flow: FlowId,
        /// Its source.
        src: NodeId,
    },
    /// The destination of a flow is no declared host.
    InvalidFlowDst {
        /// The flow.
        flow: FlowId,
        /// Its destination.
        dst: NodeId,
    },
    /// The nodes and links are no topology.
    InvalidTopology(TopologyError),
}

/// The test for the flow at a position to start or end at a node that is no
/// declared host.
pub open spec fn misplaced(nodes: Seq<Node>, flows: Seq<Flow>) -> spec_fn(int) -> bool {
    |i: int| !is_host(nodes, flows[i].src.0) || !is_host(nodes, flows[i].dst.0)
}

/// Whether every flow starts and ends at a declared host.
pub open spec fn flows_valid(nodes: Seq<Node>, flows: Seq<Flow>) -> bool {
    forall|i: int|
        0 <= i < flows.len() ==> is_host(nodes, (#[trigger] flows[i]).src.0) && is_host(
            nodes,
            flows[i].dst.0,
        )
}

/// Whether `err` is the error that validation reports: for the first flow
/// that starts or ends at a node that is no declared host, its source if
/// that is at fault and its destination otherwise; where all flows are in
/// order, the error of the topology.
pub open spec fn spec_error(
    nodes: Seq<Node>,
    links: Seq<Link>,
    flows: Seq<Flow>,
    err: SpecError,
) -> bool {
    match err {
        SpecError::InvalidFlowSrc { flow, src } => exists|i: int|
            is_first(flows.len() as int, misplaced(nodes, flows), i) && !is_host(
                nodes,
                flows[i].src.0,
            ) && flow == flows[i].id && src == flows[i].src,
        SpecError::InvalidFlowDst { flow, dst } => exists|i: int|
            is_first(flows.len() as int, misplaced(nodes, flows), i) && is_host(
                nodes,
                flows[i].src.0,
            ) && flow == flows[i].id && dst == flows[i].dst,
        SpecError::InvalidTopology(e) => flows_valid(nodes, flows) && first_error(nodes, links, e),
    }
}

/// A specification that has been validated: a network and flows between its
/// hosts.
pub struct ValidSpec {
    pub network: Network,
    pub flows: Vec<Flow>,
}

impl ValidSpec {
    /// The flows of the specification.
    pub fn collect_flows(&self) -> (r: Vec<Flow>)
        ensures
            r@ == self.flows@,
    {
        self.flows.clone()
    }
}

impl Spec {
    /// Validates the specification: every flow must start and end at a
    /// declared host, and the nodes and links must form a topology.
    #[verifier::rlimit(50)]
    pub fn validate(self) -> (r: Result<ValidSpec, SpecError>)
        requires
            self.nodes@.len() < GRAPH_CAPACITY,
            2 * self.links@.len() < GRAPH_CAPACITY,
        ensures
            r is Ok <==> flows_valid(self.nodes@, self.flows@) && valid_topology(
                self.nodes@,
                self.links@,
            ),
            match r {
                Ok(valid) => {
                    &&& valid.network.wf()
                    &&& valid.network.routes.routes_of(&valid.network.topology)
                    &&& crate::network::topology::in_id_order(
                        self.nodes@,
                        valid.network.topology.nodes@,
                    )
                    &&& valid.network.topology.links@ == self.links@
                    &&& valid.flows@ == self.flows@
                },
                Err(e) => spec_error(self.nodes@, self.links@, self.flows@, e),
            },
    {
        let mut hosts: HashSet<usize> = HashSet::new();
        let mut i: usize = 0;
        while i < self.nodes.len()
            invariant
                i <= self.nodes@.len(),
                forall|id: usize| hosts@.contains(id) <==> is_host(self.nodes@.take(i as int), id),
            decreases self.nodes@.len() - i,
        {
            let node = self.nodes[i];
            if let NodeKind::Host = node.kind {
                hosts.insert(node.id.0);
            }
            proof {
                let before = self.nodes@.take(i as int);
                let after = self.nodes@.take(i + 1);
                assert forall|id: usize| hosts@.contains(id) <==> is_host(after, id) by {
                    if is_host(before, id) {
                        let j = choose|j: int|
                            0 <= j < before.len() && before[j].id.0 == id && before[j].kind
                                == NodeKind::Host;
                        assert(after[j] == before[j]);
                    }
                    if is_host(after, id) {
                        let j = choose|j: int|
                            0 <= j < after.len() && after[j].id.0 == id && after[j].kind
                                == NodeKind::Host;
                        if j < i {
                            assert(before[j] == after[j]);
                        }
                    }
                    if id == node.id.0 && node.kind == NodeKind::Host {
                        assert(after[i as int] == node);
                    }
                }
            }
            i += 1;
        }
        proof {
            assert(self.nodes@.take(i as int) =~= self.nodes@);
        }
        let mut k: usize = 0;
        while k < self.flows.len()
            invariant
                k <= self.flows@.len(),
                forall|id: usize| hosts@.contains(id) <==> is_host(self.nodes@, id),
                forall|j: int|
                    0 <= j < k ==> is_host(self.nodes@, (#[trigger] self.flows@[j]).src.0)
                        && is_host(self.nodes@, self.flows@[j].dst.0),
            decreases self.flows@.len() - k,
        {
            let flow = self.flows[k];
            proof {
                let test = misplaced(self.nodes@, self.flows@);
                assert forall|j: int| 0 <= j < k implies !(#[trigger] test(j)) by {
                    assert(is_host(self.nodes@, self.flows@[j].src.0));
                }
            }
            if !hosts.contains(&flow.src.0) {
                proof {
                    assert(misplaced(self.nodes@, self.flows@)(k as int));
                    assert(is_first(
                        self.flows@.len() as int,
                        misplaced(self.nodes@, self.flows@),
                        k as int,
                    ));
                }
                return Err(SpecError::InvalidFlowSrc { flow: flow.id, src: flow.src });
            }
            if !hosts.contains(&flow.dst.0) {
                proof {
                    assert(misplaced(self.nodes@, self.flows@)(k as int));
                    assert(is_first(
                        self.flows@.len() as int,
                        misplaced(self.nodes@, self.flows@),
                        k as int,
                    ));
                }
                return Err(SpecError::InvalidFlowDst { flow: flow.id, dst: flow.dst });
            }
            k += 1;
        }
        match Network::new(self.nodes.as_slice(), self.links.as_slice()) {
            Ok(network) => Ok(ValidSpec { network, flows: self.flows }),
            Err(e) => Err(SpecError::InvalidTopology(e)),
        }
    }
}

/// A specification for which an error is reported is not valid.
pub proof fn lemma_spec_error_excludes_valid(
    nodes: Seq<Node>,
    links: Seq<Link>,
    flows: Seq<Flow>,
    err: SpecError,
)
    requires
        spec_error(nodes, links, flows, err),
    ensures
        !(flows_valid(nodes, flows) && valid_topology(nodes, links)),
{
    match err {
        SpecError::InvalidFlowSrc { flow, src } => {
            let i = choose|i: int|
                is_first(flows.len() as int, misplaced(nodes, flows), i) && !is_host(
                    nodes,
                    flows[i].src.0,
                ) && flow == flows[i].id && src == flows[i].src;
            assert(misplaced(nodes, flows)(i));
        },
        SpecError::InvalidFlowDst { flow, dst } => {
            let i = choose|i: int|
                is_first(flows.len() as int, misplaced(nodes, flows), i) && is_host(
                    nodes,
                    flows[i].src.0,
                ) && flow == flows[i].id && dst == flows[i].dst;
            assert(misplaced(nodes, flows)(i));
        },
        SpecError::InvalidTopology(e) => {
            crate::network::topology::lemma_error_excludes_valid(nodes, links, e);
        },
    }
}

} // verus!
