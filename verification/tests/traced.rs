use parsimon::network::ns3path::{
    calculate_hash_ns3, edge_indices_between_ns3, ip_to_node_id, make_key, node_id_to_ip,
};
use parsimon::network::types::{Flow, FlowId, NodeId};
use parsimon::network::Network;
use parsimon::testing;
use parsimon::units::{Bytes, Nanosecs};

#[test]
fn hash_is_murmur3() {
    assert_eq!(calculate_hash_ns3(b"", 0), 0);
    assert_eq!(calculate_hash_ns3(b"", 1), 0x514e28b7);
    assert_eq!(calculate_hash_ns3(b"test", 0), 0xba6bd213);
    assert_eq!(calculate_hash_ns3(b"Hello, world!", 0), 0xc0363e43);
    assert_eq!(
        calculate_hash_ns3(b"The quick brown fox jumps over the lazy dog", 0),
        0x2e4ff723
    );
    assert_eq!(calculate_hash_ns3(b"aaaa", 0x9747b28c), 0x5a97808a);
    assert_eq!(calculate_hash_ns3(b"abc", 0), 0xb3dd93fa);
}

#[test]
fn addresses_count_up_with_the_identifiers() {
    assert_eq!(node_id_to_ip(0), 0x0b000001);
    assert_eq!(node_id_to_ip(1), 0x0b000101);
    assert_eq!(node_id_to_ip(255), 0x0b00ff01);
    assert_eq!(node_id_to_ip(256), 0x0b010001);
    assert_eq!(node_id_to_ip(257), 0x0b010101);
    assert_eq!(ip_to_node_id(0x0b010101), 0x0b010000);
    assert_eq!(
        make_key(0x0b000001, 0x0b000301, 10000),
        vec![0x01, 0x00, 0x00, 0x0b, 0x01, 0x03, 0x00, 0x0b, 0x10, 0x27, 100, 0]
    );
}

fn flow(id: usize, src: usize, dst: usize) -> Flow {
    Flow {
        id: FlowId::new(id),
        src: NodeId::new(src),
        dst: NodeId::new(dst),
        size: Bytes::new(1_000),
        start: Nanosecs::new(2_000_000_000),
    }
}

#[test]
fn flows_are_traced_along_hashed_paths() {
    let (nodes, links) = testing::eight_node_config();
    let network = Network::new(&nodes, &links).unwrap();
    let flows: Vec<Flow> = (0..100).map(|i| flow(i, 0, 3)).collect();
    let sims = network.into_simulations_path(flows);
    let (channels, paths) = sims.get_routes().expect("no routes");
    let edge = |a, b| sims.find_edge(NodeId::new(a), NodeId::new(b)).unwrap();
    // All flows leave their host and reach the other; every one crosses one
    // of the two aggregation switches, up and down the same one.
    assert_eq!(channels.len(), 16);
    assert_eq!(channels[edge(0, 4)].len(), 100);
    assert_eq!(channels[edge(5, 3)].len(), 100);
    assert_eq!(channels[edge(4, 0)].len(), 0);
    let via6 = &channels[edge(4, 6)];
    let via7 = &channels[edge(4, 7)];
    assert_eq!(via6.len() + via7.len(), 100);
    assert!(via6.is_disjoint(via7));
    assert_eq!(&channels[edge(6, 5)], via6);
    assert_eq!(&channels[edge(7, 5)], via7);
    // The flows from one port on are spread over both switches.
    assert!(via6.len() > 20 && via7.len() > 20);
    // There is one entry for each of the two paths.
    assert_eq!(paths.len(), 2);
    for p in paths.iter() {
        assert_eq!((p.src, p.dst), (NodeId::new(0), NodeId::new(3)));
        assert_eq!(p.edges.len(), 4);
        assert_eq!(p.edges[0], edge(0, 4));
        assert_eq!(p.edges[3], edge(5, 3));
        let through = if p.edges[1] == edge(4, 6) { via6 } else { via7 };
        assert_eq!(&p.flows, through);
    }
    // The channels themselves carry no flows.
    assert_eq!(sims.edge(edge(0, 4)).unwrap().nr_flows(), 0);
    assert_eq!(sims.nr_clusters(), 16);
}

#[test]
fn tracing_nothing_gives_no_routes() {
    let (nodes, links) = testing::eight_node_config();
    let network = Network::new(&nodes, &links).unwrap();
    let sims = network.into_simulations_path(Vec::new());
    assert!(sims.get_routes().is_none());
    assert!(sims.channel_to_flowid_map.is_none());
    assert!(sims.path_to_flowid_map.is_none());
    // A flow from a host to itself goes along no channel.
    let network = Network::new(&nodes, &links).unwrap();
    let sims = network.into_simulations_path(vec![flow(1, 2, 2)]);
    assert!(sims.channel_to_flowid_map.is_none());
    let paths = sims.path_to_flowid_map.as_ref().unwrap();
    assert_eq!(paths.len(), 1);
    assert!(paths[0].edges.is_empty());
    assert!(paths[0].flows.contains(&1));
    assert!(sims.get_routes().is_none());
}

#[test]
fn first_flow_of_an_identifier_sets_the_port() {
    let (nodes, links) = testing::eight_node_config();
    let network = Network::new(&nodes, &links).unwrap();
    // Hosts take their first hop; switches hash the key with their own
    // identifier as the seed.
    let key = make_key(node_id_to_ip(0), node_id_to_ip(3), 10000);
    let path = edge_indices_between_ns3(
        &network.topology,
        &network.routes,
        NodeId::new(0),
        NodeId::new(3),
        &key,
    );
    let hops = network.routes.inner[4][3].clone();
    let pick = hops[(calculate_hash_ns3(&key, 4) as usize) % hops.len()];
    let up = network.topology.find_edge(NodeId::new(4), pick).unwrap();
    assert_eq!(path.len(), 4);
    assert_eq!(path[1], up);
    // Two flows with one identifier share the port of the first.
    let sims = network.into_simulations_path(vec![flow(9, 0, 3), flow(9, 0, 3)]);
    let paths = sims.path_to_flowid_map.as_ref().unwrap();
    assert_eq!(paths.len(), 1);
    assert_eq!(paths[0].edges, path);
    assert_eq!(paths[0].flows.len(), 1);
}
