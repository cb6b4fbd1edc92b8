use parsimon::network::topology::{Topology, TopologyError};
use parsimon::network::types::{BasicChannel, Link, Node, NodeId, NodeKind};
use parsimon::testing;
use parsimon::units::{BitsPerSec, Nanosecs};

fn chan(src: usize, dst: usize) -> BasicChannel {
    BasicChannel::new(
        NodeId::new(src),
        NodeId::new(dst),
        BitsPerSec::new(10_000_000_000),
        Nanosecs::new(1000),
    )
}

#[test]
fn empty_topology_succeeds() {
    assert!(
        Topology::<BasicChannel>::new(&[], &[]).is_ok(),
        "failed to create empty topology"
    );
}

#[test]
fn three_node_topology_works() {
    let (nodes, links) = testing::three_node_config();
    let topo = Topology::new(&nodes, &links).expect("failed to create topology");
    assert_eq!(
        topo.nodes,
        vec![
            Node::new_host(NodeId::new(0)),
            Node::new_host(NodeId::new(1)),
            Node::new_switch(NodeId::new(2)),
        ]
    );
    assert_eq!(topo.channels, vec![chan(0, 2), chan(2, 0), chan(1, 2), chan(2, 1)]);
    assert_eq!(topo.nr_edges(), 4);
}

#[test]
fn eight_node_topology_works() {
    let (nodes, links) = testing::eight_node_config();
    let topo =
        Topology::<BasicChannel>::new(&nodes, &links).expect("failed to create topology");
    assert_eq!(topo.nodes.len(), 8);
    for (i, n) in topo.nodes.iter().enumerate() {
        assert_eq!(n.id, NodeId::new(i));
        let kind = if i < 4 { NodeKind::Host } else { NodeKind::Switch };
        assert_eq!(n.kind, kind);
    }
    assert_eq!(
        topo.channels,
        vec![
            chan(0, 4),
            chan(4, 0),
            chan(1, 4),
            chan(4, 1),
            chan(2, 5),
            chan(5, 2),
            chan(3, 5),
            chan(5, 3),
            chan(4, 6),
            chan(6, 4),
            chan(4, 7),
            chan(7, 4),
            chan(5, 6),
            chan(6, 5),
            chan(5, 7),
            chan(7, 5),
        ]
    );
    assert_eq!(topo.find_edge(NodeId::new(4), NodeId::new(6)), Some(8));
    assert_eq!(topo.find_edge(NodeId::new(4), NodeId::new(5)), None);
}

#[test]
fn duplicate_node_fails() {
    let n1 = Node::new_host(NodeId::new(0));
    let n2 = Node::new_host(NodeId::new(0)); // error
    let n3 = Node::new_switch(NodeId::new(2));
    let l1 = Link::new(n1.id, n3.id, BitsPerSec::default(), Nanosecs::default());
    let l2 = Link::new(n2.id, n3.id, BitsPerSec::default(), Nanosecs::default());
    let res = Topology::new(&[n1, n2, n3], &[l1, l2]);
    assert!(matches!(res, Err(TopologyError::DuplicateNodeId(..))));
}

#[test]
fn non_contiguous_node_ids_fails() {
    let n1 = Node::new_host(NodeId::new(0));
    let n2 = Node::new_host(NodeId::new(1));
    let n3 = Node::new_switch(NodeId::new(3)); // error
    let l1 = Link::new(n1.id, n3.id, BitsPerSec::default(), Nanosecs::default());
    let l2 = Link::new(n2.id, n3.id, BitsPerSec::default(), Nanosecs::default());
    let res = Topology::new(&[n1, n2, n3], &[l1, l2]);
    assert!(matches!(res, Err(TopologyError::HoleBeforeId(..))));
}

#[test]
fn node_adjacent_self_fails() {
    let n1 = Node::new_host(NodeId::new(0));
    let n2 = Node::new_host(NodeId::new(1));
    let n3 = Node::new_switch(NodeId::new(2));
    let l1 = Link::new(n1.id, n3.id, BitsPerSec::default(), Nanosecs::default());
    let l2 = Link::new(n2.id, n3.id, BitsPerSec::default(), Nanosecs::default());
    let l3 = Link::new(n3.id, n3.id, BitsPerSec::default(), Nanosecs::default()); // error
    let res = Topology::new(&[n1, n2, n3], &[l1, l2, l3]);
    assert!(matches!(res, Err(TopologyError::NodeAdjacentSelf(..))));
}

#[test]
fn undeclared_node_fails() {
    let n1 = Node::new_host(NodeId::new(0));
    let n2 = Node::new_host(NodeId::new(1));
    let n3 = Node::new_switch(NodeId::new(2));
    let l1 = Link::new(n1.id, n3.id, BitsPerSec::default(), Nanosecs::default());
    let l2 = Link::new(n2.id, n3.id, BitsPerSec::default(), Nanosecs::default());
    let l3 = Link::new(
        NodeId::new(3),
        n3.id,
        BitsPerSec::default(),
        Nanosecs::default(),
    );
    let res = Topology::new(&[n1, n2, n3], &[l1, l2, l3]);
    assert!(matches!(res, Err(TopologyError::UndeclaredNode(..))));
}

#[test]
fn duplicate_links_fails() {
    let n1 = Node::new_host(NodeId::new(0));
    let n2 = Node::new_host(NodeId::new(1));
    let n3 = Node::new_switch(NodeId::new(2));
    let l1 = Link::new(n1.id, n3.id, BitsPerSec::default(), Nanosecs::default());
    let l2 = Link::new(n2.id, n3.id, BitsPerSec::default(), Nanosecs::default());
    let l3 = Link::new(n2.id, n3.id, BitsPerSec::default(), Nanosecs::default()); // error
    let res = Topology::<BasicChannel>::new(&[n1, n2, n3], &[l1, l2, l3]);
    assert!(matches!(res, Err(TopologyError::DuplicateLink { .. })));
}

#[test]
fn too_many_host_links_fails() {
    let n1 = Node::new_host(NodeId::new(0));
    let n2 = Node::new_host(NodeId::new(1));
    let n3 = Node::new_switch(NodeId::new(2));
    let n4 = Node::new_switch(NodeId::new(3));
    let l1 = Link::new(n1.id, n3.id, BitsPerSec::default(), Nanosecs::default());
    let l2 = Link::new(n2.id, n3.id, BitsPerSec::default(), Nanosecs::default());
    let l3 = Link::new(n1.id, n4.id, BitsPerSec::default(), Nanosecs::default()); // error
    let res = Topology::new(&[n1, n2, n3, n4], &[l1, l2, l3]);
    assert!(matches!(
        res,
        Err(TopologyError::TooManyHostLinks { n: 2, .. })
    ));
}

#[test]
fn isolated_node_fails() {
    let n1 = Node::new_host(NodeId::new(0));
    let n2 = Node::new_host(NodeId::new(1));
    let n3 = Node::new_switch(NodeId::new(2));
    let n4 = Node::new_host(NodeId::new(3)); // error
    let l1 = Link::new(n1.id, n3.id, BitsPerSec::default(), Nanosecs::default());
    let l2 = Link::new(n2.id, n3.id, BitsPerSec::default(), Nanosecs::default());
    let res = Topology::new(&[n1, n2, n3, n4], &[l1, l2]);
    assert!(matches!(res, Err(TopologyError::IsolatedNode(..))));
}

#[test]
fn errors_name_their_first_finding() {
    let host = |i| Node::new_host(NodeId::new(i));
    let switch = |i| Node::new_switch(NodeId::new(i));
    let link = |a, b| Link::new(NodeId::new(a), NodeId::new(b), BitsPerSec::new(1), Nanosecs::new(1));
    // The smallest doubled identifier is named, however the nodes are ordered.
    let res = Topology::new(&[switch(5), host(3), host(5), switch(3)], &[]);
    assert_eq!(res.err(), Some(TopologyError::DuplicateNodeId(NodeId::new(3))));
    // The smallest identifier after a hole is named.
    let res = Topology::new(&[switch(4), host(0), host(2)], &[]);
    assert_eq!(res.err(), Some(TopologyError::HoleBeforeId(NodeId::new(2))));
    // A doubled identifier is reported before a hole.
    let res = Topology::new(&[host(0), host(2), host(2)], &[]);
    assert_eq!(res.err(), Some(TopologyError::DuplicateNodeId(NodeId::new(2))));
    // A link from a node to itself is reported before an undeclared node.
    let res = Topology::new(&[host(0), switch(1)], &[link(0, 9), link(1, 1)]);
    assert_eq!(res.err(), Some(TopologyError::NodeAdjacentSelf(NodeId::new(1))));
    // Of the two ends of a link, the first is named if it is at fault.
    let res = Topology::new(&[host(0), switch(1)], &[link(0, 1), link(7, 8)]);
    assert_eq!(res.err(), Some(TopologyError::UndeclaredNode(NodeId::new(7))));
    let res = Topology::new(&[host(0), switch(1)], &[link(0, 1), link(1, 8)]);
    assert_eq!(res.err(), Some(TopologyError::UndeclaredNode(NodeId::new(8))));
    // The smallest node without a link is named.
    let res = Topology::new(&[host(0), switch(1), host(2), host(3)], &[link(0, 1)]);
    assert_eq!(res.err(), Some(TopologyError::IsolatedNode(NodeId::new(2))));
    // The first doubled channel is named.
    let res = Topology::new(
        &[host(0), switch(1), switch(2)],
        &[link(0, 1), link(2, 1), link(1, 2)],
    );
    assert_eq!(
        res.err(),
        Some(TopologyError::DuplicateLink { n1: NodeId::new(2), n2: NodeId::new(1) })
    );
    // A doubled link is reported before a host with too many links.
    let res = Topology::new(
        &[host(0), switch(1), switch(2)],
        &[link(0, 1), link(0, 2), link(1, 2), link(1, 2)],
    );
    assert_eq!(
        res.err(),
        Some(TopologyError::DuplicateLink { n1: NodeId::new(1), n2: NodeId::new(2) })
    );
    let res = Topology::new(
        &[host(0), switch(1), switch(2), switch(3)],
        &[link(1, 2), link(0, 1), link(0, 2), link(0, 3)],
    );
    assert_eq!(
        res.err(),
        Some(TopologyError::TooManyHostLinks { id: NodeId::new(0), n: 3 })
    );
}

#[test]
fn nodes_are_put_in_order() {
    let nodes = [
        Node::new_switch(NodeId::new(2)),
        Node::new_host(NodeId::new(1)),
        Node::new_host(NodeId::new(0)),
    ];
    let links = [
        Link::new(NodeId::new(1), NodeId::new(2), BitsPerSec::new(5), Nanosecs::new(7)),
        Link::new(NodeId::new(2), NodeId::new(0), BitsPerSec::new(6), Nanosecs::new(8)),
    ];
    let topo = Topology::new(&nodes, &links).unwrap();
    assert_eq!(
        topo.nodes,
        vec![
            Node::new_host(NodeId::new(0)),
            Node::new_host(NodeId::new(1)),
            Node::new_switch(NodeId::new(2)),
        ]
    );
    assert_eq!(topo.links, links.to_vec());
    let c = |s, d, bw, dl| BasicChannel::new(NodeId::new(s), NodeId::new(d), BitsPerSec::new(bw), Nanosecs::new(dl));
    assert_eq!(topo.channels, vec![c(1, 2, 5, 7), c(2, 1, 5, 7), c(2, 0, 6, 8), c(0, 2, 6, 8)]);
    assert_eq!(topo.idx_of(&NodeId::new(2)), Some(2));
    assert_eq!(topo.idx_of(&NodeId::new(3)), None);
    assert_eq!(topo.find_edge(NodeId::new(0), NodeId::new(2)), Some(3));
    assert_eq!(topo.find_edge(NodeId::new(0), NodeId::new(1)), None);
    assert_eq!(topo.find_edge(NodeId::new(0), NodeId::new(9)), None);
}

#[test]
fn new_topo_old_topo_equiv() {
    let (nodes, links) = testing::eight_node_config();
    let topo1 =
        Topology::<BasicChannel>::new(&nodes, &links).expect("failed to create topology");
    let topo2 = Topology::new_traced(&topo1);
    // Iteration order matches the order of indices
    for (n1, n2) in topo1.nodes.iter().zip(topo2.nodes.iter()) {
        assert_eq!(n1, n2);
    }
    assert_eq!(topo1.nr_edges(), topo2.nr_edges());
    for (e1, e2) in topo1.channels.iter().zip(topo2.channels.iter()) {
        let e2 = &BasicChannel::new(
            e2.src,
            e2.dst,
            BitsPerSec::new(10_000_000_000),
            Nanosecs::new(1000),
        );
        assert_eq!(e1, e2);
    }
    for a in 0..8 {
        for b in 0..8 {
            let (a, b) = (NodeId::new(a), NodeId::new(b));
            assert_eq!(topo1.find_edge(a, b), topo2.find_edge(a, b));
        }
    }
    let topo3 = Topology::new_edist(&topo2);
    assert_eq!(topo3.nr_edges(), 16);
    assert_eq!(topo3.links, topo1.links);
    assert_eq!(topo3.find_edge(NodeId::new(5), NodeId::new(7)), Some(14));
    assert!(topo3.channels.iter().all(|c| c.dists.bucket_ranges().is_empty()));
}
