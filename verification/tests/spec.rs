use parsimon::network::topology::TopologyError;
use parsimon::network::types::{Flow, FlowId, Link, Node, NodeId};
use parsimon::spec::{Spec, SpecError};
use parsimon::testing;
use parsimon::units::{BitsPerSec, Bytes, Nanosecs};

fn flows() -> Vec<Flow> {
    let flow = Flow {
        id: FlowId::new(0),
        src: NodeId::new(0),
        dst: NodeId::new(2),
        size: Bytes::new(0),
        start: Nanosecs::new(0),
    };
    vec![flow]
}

fn spec() -> Spec {
    let (nodes, links) = testing::eight_node_config();
    let flows = flows();
    Spec {
        nodes,
        links,
        flows,
    }
}

#[test]
fn valid_spec_succeeds() {
    let spec = spec();
    assert!(spec.validate().is_ok());
}

#[test]
fn invalid_flow_src_fails() {
    let mut spec = spec();
    let flow = Flow {
        id: FlowId::new(1),
        src: NodeId::new(100),
        dst: NodeId::new(2),
        size: Bytes::new(0),
        start: Nanosecs::new(0),
    };
    spec.flows.push(flow);
    assert!(matches!(
        spec.validate(),
        Err(SpecError::InvalidFlowSrc { .. })
    ));
}

#[test]
fn invalid_flow_dst_fails() {
    let mut spec = spec();
    let flow = Flow {
        id: FlowId::new(1),
        src: NodeId::new(0),
        dst: NodeId::new(100),
        size: Bytes::new(0),
        start: Nanosecs::new(0),
    };
    spec.flows.push(flow);
    assert!(matches!(
        spec.validate(),
        Err(SpecError::InvalidFlowDst { .. })
    ));
}

#[test]
fn flows_must_run_between_hosts() {
    // A switch is no valid end of a flow; the source is checked first.
    let mut spec = spec();
    spec.flows.push(Flow {
        id: FlowId::new(7),
        src: NodeId::new(4),
        dst: NodeId::new(100),
        size: Bytes::new(0),
        start: Nanosecs::new(0),
    });
    assert_eq!(
        spec.validate().err(),
        Some(SpecError::InvalidFlowSrc { flow: FlowId::new(7), src: NodeId::new(4) })
    );
    let mut spec = self::spec();
    spec.flows.push(Flow {
        id: FlowId::new(8),
        src: NodeId::new(1),
        dst: NodeId::new(5),
        size: Bytes::new(0),
        start: Nanosecs::new(0),
    });
    assert_eq!(
        spec.validate().err(),
        Some(SpecError::InvalidFlowDst { flow: FlowId::new(8), dst: NodeId::new(5) })
    );
}

#[test]
fn invalid_topology_is_reported_after_the_flows() {
    let nodes = vec![Node::new_host(NodeId::new(0)), Node::new_host(NodeId::new(1))];
    let links = vec![Link::new(NodeId::new(0), NodeId::new(0), BitsPerSec::new(1), Nanosecs::new(1))];
    let spec = Spec { nodes: nodes.clone(), links: links.clone(), flows: vec![] };
    assert_eq!(
        spec.validate().err(),
        Some(SpecError::InvalidTopology(TopologyError::NodeAdjacentSelf(NodeId::new(0))))
    );
    let mut flows = flows();
    flows[0].dst = NodeId::new(2);
    let spec = Spec { nodes, links, flows };
    assert!(matches!(spec.validate(), Err(SpecError::InvalidFlowDst { .. })));
}
