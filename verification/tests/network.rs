use parsimon::cluster::{Cluster, DefaultClustering};
use parsimon::edist::{BucketOpts, PktNormDelay};
use parsimon::linksim::{LinkSim, LinkSimError, LinkSimLink, LinkSimNode, LinkSimNodeKind, LinkSimSpec};
use parsimon::network::simulate::{SimNetworkError, SimOpts};
use parsimon::network::sim::SimNetwork;
use parsimon::network::types::{Channel, FctRecord, Flow, FlowId, Link, Node, NodeId};
use parsimon::network::Network;
use parsimon::routing::RoutingAlgo;
use parsimon::testing;
use parsimon::units::{BitsPerSec, Bytes, Nanosecs};
use rand::rngs::StdRng;
use rand::SeedableRng;
use std::collections::HashSet;

fn flow(id: usize, src: usize, dst: usize, size: u64, start: u64) -> Flow {
    Flow {
        id: FlowId::new(id),
        src: NodeId::new(src),
        dst: NodeId::new(dst),
        size: Bytes::new(size),
        start: Nanosecs::new(start),
    }
}

fn two_flows() -> Vec<Flow> {
    vec![
        flow(0, 0, 1, 1234, 1_000_000_000),
        flow(1, 0, 2, 5678, 2_000_000_000),
    ]
}

fn eight_node_sims(flows: Vec<Flow>) -> SimNetwork {
    let (nodes, links) = testing::eight_node_config();
    let network = Network::new(&nodes, &links).expect("failed to create topology");
    network.into_simulations(flows)
}

fn ids(flows: &[FlowId]) -> Vec<usize> {
    flows.iter().map(|f| f.inner()).collect()
}

fn set(ids: &[usize]) -> HashSet<usize> {
    ids.iter().copied().collect()
}

/// A simulator that reports for every flow a delay of one microsecond per
/// packet on top of an ideal time of one microsecond.
struct Steady;

impl LinkSim for Steady {
    fn name(&self) -> String {
        "steady".into()
    }

    fn simulate(&self, spec: LinkSimSpec) -> Result<Vec<FctRecord>, LinkSimError> {
        Ok(spec
            .flows
            .iter()
            .map(|f| FctRecord {
                id: f.id,
                size: f.size,
                start: f.start,
                fct: Nanosecs::new(1000 + 1000 * f.size.nr_packets()),
                ideal: Nanosecs::new(1000),
            })
            .collect())
    }
}

/// A simulator that always fails.
struct Broken;

impl LinkSim for Broken {
    fn name(&self) -> String {
        "broken".into()
    }

    fn simulate(&self, _spec: LinkSimSpec) -> Result<Vec<FctRecord>, LinkSimError> {
        Err(LinkSimError::Io("no simulator".into()))
    }
}

#[test]
fn ecmp_replication_works() {
    let flows = (0..100)
        .map(|i| flow(i, 0, 3, 1_000, 2_000_000_000))
        .collect::<Vec<_>>();
    let network = eight_node_sims(flows);

    // The ECMP group contains edges (4, 6) and (4, 7)
    let e1 = network.find_edge(NodeId::new(4), NodeId::new(6)).unwrap();
    let e2 = network.find_edge(NodeId::new(4), NodeId::new(7)).unwrap();

    // Flow counts for the links should be close to each other
    assert_eq!(
        (
            network.edge(e1).unwrap().nr_flows(),
            network.edge(e2).unwrap().nr_flows(),
        ),
        (55, 45)
    );
}

#[test]
fn default_clustering_is_one_to_one() {
    let network = eight_node_sims(Vec::new());
    assert_eq!(network.nr_clusters(), network.topology.nr_edges());
    assert!(network
        .clusters()
        .iter()
        .enumerate()
        .all(|(i, c)| c.representative() == i && c.members() == vec![i] && c.contains(&i)));
}

#[test]
fn flows_are_put_on_their_paths() {
    let network = eight_node_sims(two_flows());
    let edge = |a, b| network.find_edge(NodeId::new(a), NodeId::new(b));
    // The up-link of host 0 carries both flows, in the order of their starts.
    let up = network.edge(edge(0, 4).unwrap()).unwrap();
    assert_eq!(ids(&up.flow_ids()), vec![0, 1]);
    assert_eq!(up.nr_bytes, Bytes::new(1234 + 5678));
    assert_eq!(up.nr_ack_bytes, Bytes::new(2 * 60 + 6 * 60));
    assert_eq!(up.flow_srcs, [0].into_iter().collect());
    assert_eq!(up.flow_dsts, [1, 2].into_iter().collect());
    assert_eq!(up.flow_start, Nanosecs::new(1_000_000_000));
    assert_eq!(up.flow_end, Nanosecs::new(2_000_000_000));
    assert_eq!(network.duration_of(edge(0, 4).unwrap()), Some(Nanosecs::new(1_000_000_000)));
    // There is no channel between the rack switches.
    assert_eq!(edge(4, 5), None);
    // The first flow stays in its rack.
    assert_eq!(ids(&network.edge(edge(4, 1).unwrap()).unwrap().flow_ids()), vec![0]);
    // The second flow crosses one of the aggregation switches.
    let via6 = network.edge(edge(4, 6).unwrap()).unwrap().nr_flows()
        + network.edge(edge(6, 5).unwrap()).unwrap().nr_flows();
    let via7 = network.edge(edge(4, 7).unwrap()).unwrap().nr_flows()
        + network.edge(edge(7, 5).unwrap()).unwrap().nr_flows();
    assert!((via6, via7) == (2, 0) || (via6, via7) == (0, 2));
    assert_eq!(ids(&network.edge(edge(5, 2).unwrap()).unwrap().flow_ids()), vec![1]);
    // Every flow is on as many channels as its path has hops.
    let total: usize = (0..network.topology.nr_edges())
        .map(|e| network.edge(e).unwrap().nr_flows())
        .sum();
    assert_eq!(total, 2 + 4);
    // The flows of a channel can be had by their identifiers.
    let on_up = network.flows_on(edge(0, 4).unwrap()).unwrap();
    assert_eq!(on_up, two_flows());
    assert_eq!(network.flows_on(100), None);
    assert_eq!(network.duration_of(100), None);
    assert!(network.edge(100).is_none());
    assert_eq!(network.node(NodeId::new(5)), Some(&Node::new_switch(NodeId::new(5))));
    assert_eq!(network.node(NodeId::new(8)), None);
}

#[test]
fn flows_on_a_channel_are_sorted_by_start() {
    let flows = vec![
        flow(0, 0, 1, 10, 300),
        flow(1, 0, 1, 10, 100),
        flow(2, 0, 1, 10, 200),
        flow(3, 0, 1, 10, 100),
    ];
    let network = eight_node_sims(flows);
    let e = network.find_edge(NodeId::new(0), NodeId::new(4)).unwrap();
    // Flows with one start keep the order in which they were given.
    assert_eq!(ids(&network.edge(e).unwrap().flow_ids()), vec![1, 3, 2, 0]);
    assert_eq!(network.edge(e).unwrap().nr_bytes, Bytes::new(40));
    assert_eq!(network.duration_of(e), Some(Nanosecs::new(200)));
}

#[test]
fn the_hash_picks_the_path() {
    // Whichever aggregation switch a flow goes through on its way up, it
    // goes on through the same one on its way down.
    let flows = (0..40).map(|i| flow(i, 1, 2, 1, 0)).collect::<Vec<_>>();
    let network = eight_node_sims(flows);
    let edge = |a, b| network.find_edge(NodeId::new(a), NodeId::new(b)).unwrap();
    let on = |a, b| set(&ids(&network.edge(edge(a, b)).unwrap().flow_ids()));
    assert_eq!(on(4, 6), on(6, 5));
    assert_eq!(on(4, 7), on(7, 5));
    assert_eq!(on(4, 6).len() + on(4, 7).len(), 40);
    assert!(on(4, 6).is_disjoint(&on(4, 7)));
    assert_eq!(on(1, 4).len(), 40);
    assert_eq!(on(5, 2).len(), 40);
    assert_eq!(on(5, 3).len(), 0);
}

#[test]
fn ack_rate_comes_from_the_reverse_channel() {
    // 10 packets from host 1 to host 0 between two starts one second apart
    // send 10 acknowledgements of 60 bytes against them.
    let flows = vec![flow(0, 1, 0, 5_000, 0), flow(1, 1, 0, 5_000, 1_000_000_000)];
    let network = eight_node_sims(flows);
    let up = network.find_edge(NodeId::new(0), NodeId::new(4)).unwrap();
    let down = network.find_edge(NodeId::new(4), NodeId::new(0)).unwrap();
    assert_eq!(network.ack_rate_of(up), Some(BitsPerSec::new(10 * 60 * 8)));
    assert_eq!(network.ack_rate_of(down), Some(BitsPerSec::new(0)));
    assert_eq!(network.ack_rate_of(100), None);
    // One flow alone spans no time: the rate counts as zero.
    let network = eight_node_sims(vec![flow(0, 1, 0, 5_000, 7)]);
    assert_eq!(network.ack_rate_of(up), Some(BitsPerSec::new(0)));
}

#[test]
fn ack_rate_is_rounded() {
    // One packet each, three seconds apart: 120 bytes = 960 bits over 3 s.
    let flows = vec![flow(0, 1, 0, 1, 0), flow(1, 1, 0, 1, 3_000_000_000)];
    let network = eight_node_sims(flows);
    let up = network.find_edge(NodeId::new(0), NodeId::new(4)).unwrap();
    assert_eq!(network.ack_rate_of(up), Some(BitsPerSec::new(320)));
    // 960 bits over 7 s is 137.14 bits per second.
    let flows = vec![flow(0, 1, 0, 1, 0), flow(1, 1, 0, 1, 7_000_000_000)];
    let network = eight_node_sims(flows);
    assert_eq!(network.ack_rate_of(up), Some(BitsPerSec::new(137)));
    // 960 bits over 640 ms is 1500 bits per second; over 1.28 s it is 750.
    let flows = vec![flow(0, 1, 0, 1, 0), flow(1, 1, 0, 1, 1_280_000_000)];
    let network = eight_node_sims(flows);
    assert_eq!(network.ack_rate_of(up), Some(BitsPerSec::new(750)));
}

fn node(id: usize, kind: LinkSimNodeKind) -> LinkSimNode {
    LinkSimNode { id: NodeId::new(id), kind }
}

#[test]
fn link_sim_desc_correct() {
    let network = eight_node_sims(two_flows());
    let edge = |a, b| network.find_edge(NodeId::new(a), NodeId::new(b)).unwrap();
    let gbps10 = BitsPerSec::new(10_000_000_000);

    // An up-link from a host: no links from sources, fat links to the
    // destinations.
    let e = edge(0, 4);
    assert!(network.can_describe(e));
    let desc = network.link_sim_desc(e).unwrap();
    assert_eq!(desc.edge, e);
    assert_eq!(ids(&desc.flows), vec![0, 1]);
    assert_eq!(
        desc.bottleneck,
        LinkSimLink {
            from: NodeId::new(0),
            to: NodeId::new(4),
            total_bandwidth: gbps10,
            available_bandwidth: gbps10,
            delay: Nanosecs::new(1000),
        }
    );
    let mut nodes = desc.nodes.clone();
    nodes.sort_by_key(|n| n.id);
    assert_eq!(
        nodes,
        vec![
            node(0, LinkSimNodeKind::Source),
            node(1, LinkSimNodeKind::Destination),
            node(2, LinkSimNodeKind::Destination),
            node(4, LinkSimNodeKind::Switch),
        ]
    );
    let mut links = desc.other_links.clone();
    links.sort_by_key(|l| l.to);
    let fat = BitsPerSec::new(100_000_000_000);
    assert_eq!(
        links,
        vec![
            LinkSimLink {
                from: NodeId::new(4),
                to: NodeId::new(1),
                total_bandwidth: fat,
                available_bandwidth: fat,
                delay: Nanosecs::new(1000),
            },
            LinkSimLink {
                from: NodeId::new(4),
                to: NodeId::new(2),
                total_bandwidth: fat,
                available_bandwidth: fat,
                delay: Nanosecs::new(3000),
            },
        ]
    );

    // A down-link to a host: one link from the source, none to destinations.
    let e = edge(5, 2);
    let desc = network.link_sim_desc(e).unwrap();
    assert_eq!(ids(&desc.flows), vec![1]);
    assert_eq!(
        desc.nodes,
        vec![
            node(0, LinkSimNodeKind::Source),
            node(2, LinkSimNodeKind::Destination),
            node(5, LinkSimNodeKind::Switch),
        ]
    );
    assert_eq!(
        desc.other_links,
        vec![LinkSimLink {
            from: NodeId::new(0),
            to: NodeId::new(5),
            total_bandwidth: gbps10,
            available_bandwidth: gbps10,
            delay: Nanosecs::new(3000),
        }]
    );

    // A channel without flows has no descriptor.
    assert!(network.link_sim_desc(edge(5, 3)).is_none());
    assert!(network.link_sim_desc(1000).is_none());
}

#[test]
fn acknowledgements_take_from_the_bandwidth() {
    // The flows from host 1 to host 0 send acknowledgements up the link of
    // host 0, which the flow from host 0 must share.
    let flows = vec![
        flow(0, 1, 0, 5_000, 0),
        flow(1, 1, 0, 5_000, 1_000_000_000),
        flow(2, 0, 3, 100, 5),
    ];
    let network = eight_node_sims(flows);
    let edge = |a, b| network.find_edge(NodeId::new(a), NodeId::new(b)).unwrap();
    let desc = network.link_sim_desc(edge(0, 4)).unwrap();
    assert_eq!(desc.bottleneck.total_bandwidth, BitsPerSec::new(10_000_000_000));
    assert_eq!(
        desc.bottleneck.available_bandwidth,
        BitsPerSec::new(10_000_000_000 - 4800)
    );
    // On the way to a later bottleneck the first channel counts.
    let path = network.path(NodeId::new(0), NodeId::new(3), 0);
    let last = path.iter().last().unwrap().0;
    let desc = network.link_sim_desc(last).unwrap();
    assert_eq!(desc.other_links.len(), 1);
    assert_eq!(
        desc.other_links[0].available_bandwidth,
        BitsPerSec::new(10_000_000_000 - 4800)
    );
    assert_eq!(desc.other_links[0].delay, Nanosecs::new(3000));
    assert_eq!(path.delay(), Nanosecs::new(4000));
    assert_eq!(path.bandwidths(), vec![BitsPerSec::new(10_000_000_000); 4]);
    assert_eq!(path.iter()[0].1.src(), NodeId::new(0));
    assert_eq!(path.iter()[3].1.dst(), NodeId::new(3));
}

#[test]
fn clustering_can_be_replaced() {
    let mut network = eight_node_sims(two_flows());
    let nr_edges = network.topology.nr_edges();
    let all = Cluster::new(3, (0..nr_edges).collect());
    network.set_clusters(vec![all]);
    assert_eq!(network.nr_clusters(), 1);
    assert_eq!(network.clusters()[0].representative(), 3);
    network.cluster(DefaultClustering);
    assert_eq!(network.nr_clusters(), 1);
    assert_eq!(network.clusters()[0].members().len(), nr_edges);
}

#[test]
fn simulations_are_folded_into_delays() {
    let network = eight_node_sims(two_flows());
    let up = network.find_edge(NodeId::new(0), NodeId::new(4)).unwrap();
    let idle = network.find_edge(NodeId::new(3), NodeId::new(5)).unwrap();
    let delays = network
        .into_delays(SimOpts::new(Steady, BucketOpts::default()))
        .expect("simulations failed");
    // Two records make one bucket without an upper end.
    let dists = &delays.topology.channels[up].dists;
    let ranges = dists.bucket_ranges();
    assert_eq!(ranges.len(), 1);
    assert_eq!((ranges[0].start, ranges[0].end), (Bytes::new(0), Bytes::new(u64::MAX)));
    let dist = dists.for_size(Bytes::new(1)).unwrap();
    assert_eq!(
        dist.samples,
        vec![
            PktNormDelay { delay: Nanosecs::new(2000), nr_pkts: 2 },
            PktNormDelay { delay: Nanosecs::new(6000), nr_pkts: 6 },
        ]
    );
    // A channel that carries no flow has no distribution.
    assert!(delays.topology.channels[idle].dists.for_size(Bytes::new(1)).is_none());
    assert!(delays.topology.channels[idle].dists.bucket_ranges().is_empty());
    assert_eq!(delays.nodes().len(), 8);
    assert_eq!(delays.links().len(), 8);
}

#[test]
fn failed_simulations_fail_the_run() {
    let network = eight_node_sims(two_flows());
    let res = network.into_delays(SimOpts::new(Broken, BucketOpts::default()));
    assert_eq!(
        res.err(),
        Some(SimNetworkError::LinkSim(LinkSimError::Io("no simulator".into())))
    );
    // Without flows nothing is simulated and nothing fails.
    let network = eight_node_sims(Vec::new());
    assert!(network.into_delays(SimOpts::new(Broken, BucketOpts::default())).is_ok());
}

#[test]
fn members_share_the_records_of_their_representative() {
    let mut network = eight_node_sims(two_flows());
    let nr_edges = network.topology.nr_edges();
    let up = network.find_edge(NodeId::new(0), NodeId::new(4)).unwrap();
    network.set_clusters(vec![Cluster::new(up, (0..nr_edges).collect())]);
    let delays = network
        .into_delays(SimOpts::new(Steady, BucketOpts::default()))
        .unwrap();
    for e in 0..nr_edges {
        let dist = delays.topology.channels[e].dists.for_size(Bytes::new(5)).unwrap();
        assert_eq!(dist.samples.len(), 2);
    }
}

#[test]
fn predictions_follow_the_paths() {
    let flows = vec![flow(0, 0, 1, 3_000, 0), flow(1, 0, 1, 500, 10)];
    let network = eight_node_sims(flows);
    let delays = network
        .into_delays(SimOpts::new(Steady, BucketOpts::default()))
        .unwrap();
    let mut rng = StdRng::seed_from_u64(1);
    // Both channels from host 0 to host 1 hold samples of 1000 ns per
    // packet: a flow of 4 packets meets 4000 ns on each.
    let delay = delays.predict(Bytes::new(3_500), (NodeId::new(0), NodeId::new(1)), &mut rng);
    assert_eq!(delay, Some(Nanosecs::new(8000)));
    let delay = delays.predict(Bytes::new(1), (NodeId::new(0), NodeId::new(1)), &mut rng);
    assert_eq!(delay, Some(Nanosecs::new(2000)));
    // No flow crossed the channels to host 3: there is no prediction.
    let delay = delays.predict(Bytes::new(1), (NodeId::new(0), NodeId::new(3)), &mut rng);
    assert_eq!(delay, None);
    // From a node to itself there is no path.
    let delay = delays.predict(Bytes::new(1), (NodeId::new(0), NodeId::new(0)), &mut rng);
    assert_eq!(delay, None);
    let delay = delays.predict(Bytes::new(1), (NodeId::new(0), NodeId::new(9)), &mut rng);
    assert_eq!(delay, None);
}

#[test]
fn predict_on_unused_link_is_none() {
    // No flow crosses the link between host 1 and the switch.
    let (nodes, links) = testing::three_node_config();
    let network = Network::new(&nodes, &links).unwrap();
    let sims = network.into_simulations(Vec::new());
    let delays = sims
        .into_delays(SimOpts::new(Steady, BucketOpts::default()))
        .unwrap();
    let mut rng = StdRng::seed_from_u64(0);
    for size in [0, 1, 1_000, 5_000_000] {
        let pair = (NodeId::new(2), NodeId::new(1));
        assert_eq!(delays.predict(Bytes::new(size), pair, &mut rng), None);
        let pair = (NodeId::new(0), NodeId::new(1));
        assert_eq!(delays.predict(Bytes::new(size), pair, &mut rng), None);
    }
}

#[test]
fn ideal_fct_of_the_network() {
    let (nodes, links) = testing::three_node_config();
    let network = Network::new(&nodes, &links).unwrap();
    let delays = network
        .into_simulations(Vec::new())
        .into_delays(SimOpts::new(Steady, BucketOpts::default()))
        .unwrap();
    let mut rng = StdRng::seed_from_u64(0);
    // One hop, one packet: 548 bytes at 10 Gbps take 438 ns, and the link
    // adds 1000 ns.
    let fct = delays.ideal_fct(Bytes::new(500), (NodeId::new(0), NodeId::new(2)), &mut rng);
    assert_eq!(fct, Some(Nanosecs::new(1438)));
    // Two hops.
    let fct = delays.ideal_fct(Bytes::new(500), (NodeId::new(0), NodeId::new(1)), &mut rng);
    assert_eq!(fct, Some(Nanosecs::new(2 * 438 + 2000)));
    let fct = delays.ideal_fct(Bytes::new(500), (NodeId::new(0), NodeId::new(0)), &mut rng);
    assert_eq!(fct, None);
}

#[test]
fn host_ids_and_routes() {
    let (nodes, links) = testing::eight_node_config();
    let network = Network::new(&nodes, &links).unwrap();
    assert_eq!(
        network.host_ids(),
        vec![NodeId::new(0), NodeId::new(1), NodeId::new(2), NodeId::new(3)]
    );
    assert!(network.has_route(NodeId::new(0), NodeId::new(3)));
    assert!(network.has_route(NodeId::new(0), NodeId::new(0)));
    assert!(!network.has_route(NodeId::new(0), NodeId::new(8)));
    assert_eq!(network.topology().nr_edges(), 16);
    // Two islands: no way leads from one to the other.
    let nodes = [
        Node::new_host(NodeId::new(0)),
        Node::new_switch(NodeId::new(1)),
        Node::new_host(NodeId::new(2)),
        Node::new_switch(NodeId::new(3)),
    ];
    let link = |a, b| Link::new(NodeId::new(a), NodeId::new(b), BitsPerSec::new(1), Nanosecs::new(1));
    let network = Network::new(&nodes, &[link(0, 1), link(2, 3)]).unwrap();
    assert!(network.has_route(NodeId::new(0), NodeId::new(1)));
    assert!(!network.has_route(NodeId::new(0), NodeId::new(2)));
    assert!(!network.has_route(NodeId::new(2), NodeId::new(0)));
}

#[test]
fn neighbours_come_latest_link_first() {
    let (nodes, links) = testing::eight_node_config();
    let network = Network::new(&nodes, &links).unwrap();
    let ids = |v: Vec<NodeId>| v.into_iter().map(|n| n.inner()).collect::<Vec<_>>();
    assert_eq!(ids(network.neighbors(NodeId::new(4))), vec![7, 6, 1, 0]);
    assert_eq!(ids(network.neighbors(NodeId::new(0))), vec![4]);
    assert_eq!(ids(network.neighbors(NodeId::new(8))), Vec::<usize>::new());
    assert_eq!(network.nodes(), &nodes[..]);
    assert_eq!(network.links(), &links[..]);
    let sims = network.into_simulations(two_flows());
    assert_eq!(sims.nodes(), &nodes[..]);
    assert_eq!(sims.links(), &links[..]);
    assert_eq!(sims.channels().len(), 16);
    assert_eq!(sims.edge_indices(), (0..16).collect::<Vec<_>>());
}

#[test]
fn links_around_a_channel_are_widened() {
    let network = eight_node_sims(two_flows());
    let edge = network.find_edge(NodeId::new(0), NodeId::new(4)).unwrap();
    let links = network.links_around(edge).unwrap();
    let given = network.links();
    assert_eq!(links.len(), given.len());
    for (link, old) in links.iter().zip(given.iter()) {
        assert_eq!((link.a, link.b, link.delay), (old.a, old.b, old.delay));
        if old.connects(NodeId::new(4), NodeId::new(0)) {
            assert_eq!(link.bandwidth, BitsPerSec::new(10_000_000_000));
        } else {
            assert_eq!(link.bandwidth, BitsPerSec::new(100_000_000_000));
        }
    }
    assert_eq!(links.iter().filter(|l| l.bandwidth == BitsPerSec::new(10_000_000_000)).count(), 1);
    assert_eq!(network.links_around(16), None);
}

#[test]
fn the_way_of_a_flow_rests_on_its_identifier_alone() {
    let flows: Vec<Flow> = (0..100).map(|i| flow(i, 0, 3, 1_000, 2_000_000_000)).collect();
    // The same flows, last first, with other sizes and starts.
    let shuffled: Vec<Flow> = (0..100)
        .rev()
        .map(|i| flow(i, 0, 3, 17 + i as u64, 5 * (100 - i as u64)))
        .collect();
    let one = eight_node_sims(flows);
    let other = eight_node_sims(shuffled);
    for e in 0..one.topology.nr_edges() {
        let on_one = set(&ids(&one.edge(e).unwrap().flow_ids()));
        let on_other = set(&ids(&other.edge(e).unwrap().flow_ids()));
        assert_eq!(on_one, on_other);
    }
    // Every flow leaves the first switch once, by one of the two ways up.
    let up6 = one.find_edge(NodeId::new(4), NodeId::new(6)).unwrap();
    let up7 = one.find_edge(NodeId::new(4), NodeId::new(7)).unwrap();
    let via6 = set(&ids(&one.edge(up6).unwrap().flow_ids()));
    let via7 = set(&ids(&one.edge(up7).unwrap().flow_ids()));
    assert_eq!(via6.len() + via7.len(), 100);
    assert!(via6.is_disjoint(&via7));
    // The second switch on the way is the hop that the hash picks.
    let hops = one.routes.next_hops(NodeId::new(4), NodeId::new(3)).unwrap();
    assert_eq!(hops.len(), 2);
    for i in 0..100 {
        let h = parsimon::utils::calculate_hash(&FlowId::new(i)) as usize;
        let picked = hops[h % 2].inner();
        assert_eq!(via6.contains(&i), picked == 6);
        assert_eq!(via7.contains(&i), picked == 7);
    }
}
