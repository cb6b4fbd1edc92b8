use parsimon::cluster::DefaultClustering;
use parsimon::edist::BucketOpts;
use parsimon::linksim::{LinkSim, LinkSimError, LinkSimSpec};
use parsimon::network::simulate::SimOpts;
use parsimon::network::topology::TopologyError;
use parsimon::network::types::{FctRecord, Flow, FlowId, Link, Node, NodeId};
use parsimon::run::{run, Error};
use parsimon::spec::{Spec, SpecError};
use parsimon::testing;
use parsimon::units::{BitsPerSec, Bytes, Nanosecs};
use rand::rngs::StdRng;
use rand::SeedableRng;

struct Twice;

impl LinkSim for Twice {
    fn name(&self) -> String {
        "twice".into()
    }

    fn simulate(&self, spec: LinkSimSpec) -> Result<Vec<FctRecord>, LinkSimError> {
        Ok(spec
            .flows
            .iter()
            .map(|f| FctRecord {
                id: f.id,
                size: f.size,
                start: f.start,
                fct: Nanosecs::new(2000),
                ideal: Nanosecs::new(1000),
            })
            .collect())
    }
}

fn flow(id: usize, src: usize, dst: usize) -> Flow {
    Flow {
        id: FlowId::new(id),
        src: NodeId::new(src),
        dst: NodeId::new(dst),
        size: Bytes::new(800),
        start: Nanosecs::new(id as u64),
    }
}

#[test]
fn run_turns_a_spec_into_delays() {
    let (nodes, links) = testing::eight_node_config();
    let flows = vec![flow(0, 0, 1), flow(1, 1, 0), flow(2, 0, 1)];
    let spec = Spec { nodes, links, flows };
    let delays =
        run(spec, SimOpts::new(Twice, BucketOpts::default()), DefaultClustering).unwrap();
    let mut rng = StdRng::seed_from_u64(0);
    let pair = (NodeId::new(0), NodeId::new(1));
    assert_eq!(delays.predict(Bytes::new(800), pair, &mut rng), Some(Nanosecs::new(2000)));
    assert_eq!(delays.predict(Bytes::new(2800), pair, &mut rng), Some(Nanosecs::new(6000)));
    let pair = (NodeId::new(0), NodeId::new(2));
    assert_eq!(delays.predict(Bytes::new(800), pair, &mut rng), None);
}

#[test]
fn run_reports_what_is_wrong() {
    let (nodes, links) = testing::eight_node_config();
    let spec = Spec { nodes: nodes.clone(), links: links.clone(), flows: vec![flow(0, 0, 9)] };
    let res = run(spec, SimOpts::new(Twice, BucketOpts::default()), DefaultClustering);
    assert_eq!(
        res.err(),
        Some(Error::InvalidSpec(SpecError::InvalidFlowDst {
            flow: FlowId::new(0),
            dst: NodeId::new(9)
        }))
    );
    let mut more = links.clone();
    more.push(links[0]);
    let spec = Spec { nodes, links: more, flows: vec![] };
    let res = run(spec, SimOpts::new(Twice, BucketOpts::default()), DefaultClustering);
    assert_eq!(
        res.err(),
        Some(Error::InvalidSpec(SpecError::InvalidTopology(TopologyError::DuplicateLink {
            n1: NodeId::new(0),
            n2: NodeId::new(4)
        })))
    );
}

#[test]
fn run_needs_a_route_for_every_flow() {
    let nodes = vec![
        Node::new_host(NodeId::new(0)),
        Node::new_switch(NodeId::new(1)),
        Node::new_host(NodeId::new(2)),
        Node::new_switch(NodeId::new(3)),
    ];
    let link = |a, b| Link::new(NodeId::new(a), NodeId::new(b), BitsPerSec::new(8), Nanosecs::new(1));
    let links = vec![link(0, 1), link(2, 3)];
    let flows = vec![flow(5, 0, 0), flow(6, 2, 0), flow(7, 0, 2)];
    let spec = Spec { nodes, links, flows };
    let res = run(spec, SimOpts::new(Twice, BucketOpts::default()), DefaultClustering);
    assert_eq!(
        res.err(),
        Some(Error::Unroutable { flow: FlowId::new(6), src: NodeId::new(2), dst: NodeId::new(0) })
    );
}

#[test]
fn run_without_flows_gives_no_distributions() {
    let (nodes, links) = testing::eight_node_config();
    let spec = Spec { nodes, links, flows: vec![] };
    let delays =
        run(spec, SimOpts::new(Twice, BucketOpts::default()), DefaultClustering).unwrap();
    let mut rng = StdRng::seed_from_u64(0);
    for src in 0..4 {
        for dst in 0..4 {
            let pair = (NodeId::new(src), NodeId::new(dst));
            assert_eq!(delays.predict(Bytes::new(800), pair, &mut rng), None);
        }
    }
}
