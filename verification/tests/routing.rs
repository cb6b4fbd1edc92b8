use parsimon::network::topology::Topology;
use parsimon::network::types::NodeId;
use parsimon::routing::{BfsRoutes, RoutingAlgo};
use parsimon::testing;

fn sorted_hops(routes: &BfsRoutes, from: usize, to: usize) -> Vec<usize> {
    let mut hops = routes
        .next_hops(NodeId::new(from), NodeId::new(to))
        .expect("missing entry")
        .iter()
        .map(|id| id.inner())
        .collect::<Vec<_>>();
    hops.sort();
    hops
}

#[test]
fn routing_route_three_node_works() {
    let (nodes, links) = testing::three_node_config();
    let topo = Topology::new(&nodes, &links).expect("failed to create topology");
    let routes = BfsRoutes::new(&topo);
    let expected: [[&[usize]; 3]; 3] = [
        [&[], &[2], &[2]],
        [&[2], &[], &[2]],
        [&[0], &[1], &[]],
    ];
    for from in 0..3 {
        for to in 0..3 {
            assert_eq!(sorted_hops(&routes, from, to), expected[from][to], "{from} -> {to}");
        }
    }
    assert_eq!(routes.next_hops(NodeId::new(3), NodeId::new(0)), None);
    assert_eq!(routes.next_hops(NodeId::new(0), NodeId::new(3)), None);
}

#[test]
fn routing_route_eight_node_works() {
    let (nodes, links) = testing::eight_node_config();
    let topo = Topology::new(&nodes, &links).expect("failed to create topology");
    let routes = BfsRoutes::new(&topo);
    let expected: [[&[usize]; 8]; 8] = [
        [&[], &[4], &[4], &[4], &[4], &[4], &[4], &[4]],
        [&[4], &[], &[4], &[4], &[4], &[4], &[4], &[4]],
        [&[5], &[5], &[], &[5], &[5], &[5], &[5], &[5]],
        [&[5], &[5], &[5], &[], &[5], &[5], &[5], &[5]],
        [&[0], &[1], &[6, 7], &[6, 7], &[], &[6, 7], &[6], &[7]],
        [&[6, 7], &[6, 7], &[2], &[3], &[6, 7], &[], &[6], &[7]],
        [&[4], &[4], &[5], &[5], &[4], &[5], &[], &[4, 5]],
        [&[4], &[4], &[5], &[5], &[4], &[5], &[4, 5], &[]],
    ];
    for from in 0..8 {
        for to in 0..8 {
            assert_eq!(sorted_hops(&routes, from, to), expected[from][to], "{from} -> {to}");
        }
    }
}

#[test]
fn hops_come_in_the_order_of_the_search() {
    // The search meets the neighbours of a node latest link first, so that
    // from the rack switches the later aggregation switch comes first.
    let (nodes, links) = testing::eight_node_config();
    let topo = Topology::new(&nodes, &links).expect("failed to create topology");
    let routes = BfsRoutes::new(&topo);
    let hops = routes.next_hops(NodeId::new(4), NodeId::new(3)).unwrap();
    assert_eq!(hops, vec![NodeId::new(7), NodeId::new(6)]);
    assert_eq!(routes.next_hops_unchecked(NodeId::new(4), NodeId::new(3)), &hops);
    assert_eq!(routes.for_node(NodeId::new(4)).unwrap()[3], hops);
    assert!(routes.for_node(NodeId::new(8)).is_none());
}

#[test]
fn routes_between_hosts_go_both_ways() {
    let (nodes, links) = testing::eight_node_config();
    let topo = Topology::new(&nodes, &links).expect("failed to create topology");
    let routes = BfsRoutes::new(&topo);
    for a in 0..4 {
        for b in 0..4 {
            if a != b {
                let there = routes.next_hops(NodeId::new(a), NodeId::new(b)).unwrap();
                let back = routes.next_hops(NodeId::new(b), NodeId::new(a)).unwrap();
                assert_eq!(there.is_empty(), back.is_empty());
                assert!(!there.is_empty());
            }
        }
    }
}
