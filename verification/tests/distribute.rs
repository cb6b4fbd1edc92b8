use parsimon::cluster::Cluster;
use parsimon::distribute::{is_complete, simulate_chunk, WorkerParams};
use parsimon::linksim::{LinkSim, LinkSimError, LinkSimSpec};
use parsimon::network::sim::SimNetwork;
use parsimon::network::types::{FctRecord, Flow, FlowId, NodeId};
use parsimon::network::simulate::SimNetworkError;
use parsimon::network::Network;
use parsimon::testing;
use parsimon::units::{Bytes, Nanosecs};

fn flow(id: usize, src: usize, dst: usize) -> Flow {
    Flow {
        id: FlowId::new(id),
        src: NodeId::new(src),
        dst: NodeId::new(dst),
        size: Bytes::new(10),
        start: Nanosecs::new(id as u64),
    }
}

fn sims(flows: Vec<Flow>) -> SimNetwork {
    let (nodes, links) = testing::eight_node_config();
    Network::new(&nodes, &links).unwrap().into_simulations(flows)
}

struct Echo;

impl LinkSim for Echo {
    fn name(&self) -> String {
        "echo".into()
    }

    fn simulate(&self, spec: LinkSimSpec) -> Result<Vec<FctRecord>, LinkSimError> {
        if spec.edge == 1000 {
            return Err(LinkSimError::UnknownEdge(1000));
        }
        Ok(spec
            .flows
            .iter()
            .map(|f| FctRecord {
                id: f.id,
                size: f.size,
                start: f.start,
                fct: Nanosecs::new(spec.edge as u64),
                ideal: Nanosecs::new(0),
            })
            .collect())
    }
}

#[test]
fn work_is_shared_out_evenly() {
    let network = sims(Vec::new());
    for nr_workers in [1, 2, 3, 5, 16, 17, 40] {
        let shares = network.assign_work_randomly(nr_workers);
        assert_eq!(shares.len(), nr_workers);
        let mut all: Vec<usize> = shares.iter().flatten().copied().collect();
        all.sort();
        assert_eq!(all, (0..16).collect::<Vec<_>>());
        let most = (16 + nr_workers - 1) / nr_workers;
        assert!(shares.iter().all(|s| s.len() <= most));
        assert_eq!(shares[0].len(), most);
    }
    // The order is random: it is not the order of the clusters.
    let shares = network.assign_work_randomly(1);
    assert_ne!(shares[0], (0..16).collect::<Vec<_>>());
    // With clusters of several channels only the representatives are shared.
    let mut network = sims(Vec::new());
    network.set_clusters(vec![
        Cluster::new(3, (0..8).collect()),
        Cluster::new(12, (8..16).collect()),
    ]);
    let mut shares = network.assign_work_randomly(2);
    shares.sort();
    assert_eq!(shares, vec![vec![3], vec![12]]);
}

#[test]
fn workers_are_sent_descriptors_and_flows() {
    let network = sims(vec![flow(0, 0, 1), flow(1, 0, 2), flow(2, 3, 2)]);
    let edge = |a, b| network.find_edge(NodeId::new(a), NodeId::new(b)).unwrap();
    let edges = vec![edge(0, 4), edge(4, 0), edge(5, 2), 1000];
    let params = network
        .worker_params(("echo".into(), "{}".into()), &edges)
        .unwrap();
    assert_eq!(params.link_sim, ("echo".to_string(), "{}".to_string()));
    // Channels without flows and channels that are none have no descriptor.
    let described: Vec<usize> = params.descs.iter().map(|d| d.edge).collect();
    assert_eq!(described, vec![edge(0, 4), edge(5, 2)]);
    // Every flow that is named is sent once.
    let sent: Vec<usize> = params.flows.iter().map(|f| f.id.inner()).collect();
    assert_eq!(sent, vec![0, 1, 2]);
    assert_eq!(params.flows[2], flow(2, 3, 2));

    let out = simulate_chunk(params, &Echo).unwrap();
    assert_eq!(out.len(), 2);
    assert_eq!(out[0].0, edge(0, 4));
    assert_eq!(out[1].0, edge(5, 2));
    let ids = |recs: &Vec<FctRecord>| recs.iter().map(|r| r.id.inner()).collect::<Vec<_>>();
    assert_eq!(ids(&out[0].1), vec![0, 1]);
    assert_eq!(ids(&out[1].1), vec![1, 2]);
    assert!(out[1].1.iter().all(|r| r.fct == Nanosecs::new(edge(5, 2) as u64)));
}

#[test]
fn a_failed_simulation_fails_the_chunk() {
    let network = sims(vec![flow(0, 0, 1)]);
    let edge = network.find_edge(NodeId::new(0), NodeId::new(4)).unwrap();
    let mut params = network
        .worker_params(("echo".into(), String::new()), &vec![edge])
        .unwrap();
    params.descs[0].edge = 1000;
    assert_eq!(simulate_chunk(params, &Echo).err(), Some(LinkSimError::UnknownEdge(1000)));
    let params = WorkerParams { link_sim: (String::new(), String::new()), descs: vec![], flows: vec![] };
    assert_eq!(simulate_chunk(params, &Echo), Ok(vec![]));
}

#[test]
fn channels_that_are_no_bottleneck_are_refused() {
    // Host 0 both sends and receives along the channels between the
    // switches when the flows are forced through by hand-made clusters.
    let network = sims(vec![flow(0, 0, 2), flow(1, 2, 0)]);
    for e in 0..16 {
        let chan = network.edge(e).unwrap();
        if chan.nr_flows() > 0 {
            assert!(network.can_describe(e));
        }
    }
    let res = network.worker_params((String::new(), String::new()), &(0..16).collect());
    assert!(res.is_ok());
    let _: Option<SimNetworkError> = res.err();
}

#[test]
fn parameters_without_a_named_flow_are_incomplete() {
    let network = sims(vec![flow(0, 0, 1), flow(1, 0, 2)]);
    let edge = network.find_edge(NodeId::new(0), NodeId::new(4)).unwrap();
    let mut params = network
        .worker_params(("echo".into(), String::new()), &vec![edge])
        .unwrap();
    assert!(is_complete(&params));
    params.flows.pop();
    assert!(!is_complete(&params));
    params.descs.clear();
    assert!(is_complete(&params));
}
