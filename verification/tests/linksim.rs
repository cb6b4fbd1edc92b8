use parsimon::linksim::{LinkSimLink, LinkSimNode, LinkSimNodeKind, LinkSimSpec};
use parsimon::network::types::{Flow, FlowId, Link, Node, NodeId};
use parsimon::units::{BitsPerSec, Bytes, Nanosecs};

fn link(from: usize, to: usize, total: u64, available: u64, delay: u64) -> LinkSimLink {
    LinkSimLink {
        from: NodeId::new(from),
        to: NodeId::new(to),
        total_bandwidth: BitsPerSec::new(total),
        available_bandwidth: BitsPerSec::new(available),
        delay: Nanosecs::new(delay),
    }
}

fn spec() -> LinkSimSpec {
    LinkSimSpec {
        edge: 7,
        bottleneck: link(40, 50, 100, 90, 5),
        other_links: vec![link(10, 40, 100, 80, 6), link(50, 30, 1000, 1000, 7)],
        nodes: vec![
            LinkSimNode { id: NodeId::new(10), kind: LinkSimNodeKind::Source },
            LinkSimNode { id: NodeId::new(30), kind: LinkSimNodeKind::Destination },
            LinkSimNode { id: NodeId::new(40), kind: LinkSimNodeKind::Switch },
            LinkSimNode { id: NodeId::new(50), kind: LinkSimNodeKind::Switch },
        ],
        flows: vec![Flow {
            id: FlowId::new(3),
            src: NodeId::new(10),
            dst: NodeId::new(30),
            size: Bytes::new(11),
            start: Nanosecs::new(12),
        }],
    }
}

#[test]
fn contiguousify_renumbers_from_zero() {
    let spec = spec();
    let (new, old2new) = spec.contiguousify();
    assert_eq!(old2new.len(), 4);
    for (old, new) in [(10, 0), (30, 1), (40, 2), (50, 3)] {
        assert_eq!(old2new[&old], new);
    }
    assert_eq!(new.edge, 7);
    assert_eq!(new.bottleneck, link(2, 3, 100, 90, 5));
    assert_eq!(new.other_links, vec![link(0, 2, 100, 80, 6), link(3, 1, 1000, 1000, 7)]);
    let ids: Vec<usize> = new.nodes.iter().map(|n| n.id.inner()).collect();
    assert_eq!(ids, vec![0, 1, 2, 3]);
    let kinds: Vec<_> = new.nodes.iter().map(|n| n.kind).collect();
    assert_eq!(kinds, spec.nodes.iter().map(|n| n.kind).collect::<Vec<_>>());
    assert_eq!(new.flows.len(), 1);
    assert_eq!((new.flows[0].src, new.flows[0].dst), (NodeId::new(0), NodeId::new(1)));
    assert_eq!(new.flows[0].id, FlowId::new(3));
    assert_eq!(new.flows[0].size, Bytes::new(11));
    assert_eq!(new.flows[0].start, Nanosecs::new(12));
}

#[test]
fn contiguousify_can_be_undone() {
    let spec = spec();
    let (new, old2new) = spec.contiguousify();
    let back = |id: NodeId| {
        let (old, _) = old2new.iter().find(|(_, &n)| n == id.inner()).unwrap();
        NodeId::new(*old)
    };
    let undo = |l: &LinkSimLink| LinkSimLink { from: back(l.from), to: back(l.to), ..*l };
    assert_eq!(undo(&new.bottleneck), spec.bottleneck);
    assert_eq!(new.other_links.iter().map(undo).collect::<Vec<_>>(), spec.other_links);
    for (n, o) in new.nodes.iter().zip(spec.nodes.iter()) {
        assert_eq!(back(n.id), o.id);
    }
    assert_eq!(back(new.flows[0].src), spec.flows[0].src);
    assert_eq!(back(new.flows[0].dst), spec.flows[0].dst);
}

#[test]
fn generic_nodes_and_links() {
    let spec = spec();
    assert_eq!(spec.nodes(), spec.nodes.as_slice());
    assert_eq!(spec.links().len(), 3);
    assert_eq!(spec.links()[0], spec.bottleneck);
    assert_eq!(
        spec.generic_nodes(),
        vec![
            Node::new_host(NodeId::new(10)),
            Node::new_host(NodeId::new(30)),
            Node::new_switch(NodeId::new(40)),
            Node::new_switch(NodeId::new(50)),
        ]
    );
    // The bandwidth of a generic link is what acknowledgements leave free.
    assert_eq!(
        spec.generic_links(),
        vec![
            Link::new(NodeId::new(40), NodeId::new(50), BitsPerSec::new(90), Nanosecs::new(5)),
            Link::new(NodeId::new(10), NodeId::new(40), BitsPerSec::new(80), Nanosecs::new(6)),
            Link::new(NodeId::new(50), NodeId::new(30), BitsPerSec::new(1000), Nanosecs::new(7)),
        ]
    );
}

#[test]
fn link_level_paths() {
    use_topo();
}

fn use_topo() {
    let spec = spec();
    let topo = parsimon::linksim::LinkSimTopo::new(&spec);
    assert_eq!(topo.nodes, spec.nodes);
    assert_eq!(topo.links.len(), 3);
    let n = NodeId::new;
    // From the source the only link is taken, then the bottleneck, then the
    // link to the destination.
    assert_eq!(
        topo.path(n(10), n(30)),
        Some(vec![link(10, 40, 100, 80, 6), link(40, 50, 100, 90, 5), link(50, 30, 1000, 1000, 7)])
    );
    assert_eq!(topo.path(n(40), n(50)), Some(vec![link(40, 50, 100, 90, 5)]));
    assert_eq!(topo.path(n(40), n(40)), Some(vec![]));
    // No link leaves the destination.
    assert_eq!(topo.path(n(30), n(10)), None);
    // A node that is never reached makes the walk end where no link leaves.
    assert_eq!(topo.path(n(10), n(99)), None);
}

#[test]
fn link_level_paths_prefer_the_direct_link() {
    let mut spec = spec();
    // Two links leave the source: the later one is taken, unless the other
    // leads to the destination.
    spec.other_links.push(link(10, 50, 7, 7, 7));
    spec.other_links.push(link(40, 10, 8, 8, 8));
    let topo = parsimon::linksim::LinkSimTopo::new(&spec);
    let n = NodeId::new;
    assert_eq!(
        topo.path(n(10), n(30)),
        Some(vec![link(10, 50, 7, 7, 7), link(50, 30, 1000, 1000, 7)])
    );
    assert_eq!(topo.path(n(10), n(40)), Some(vec![link(10, 40, 100, 80, 6)]));
    // A walk that runs in a circle is given up.
    spec.other_links.push(link(50, 40, 9, 9, 9));
    let topo = parsimon::linksim::LinkSimTopo::new(&spec);
    assert_eq!(topo.path(n(10), n(30)), Some(vec![link(10, 50, 7, 7, 7), link(50, 30, 1000, 1000, 7)]));
    assert_eq!(topo.path(n(50), n(99)), None);
}

#[test]
fn closed_spec_is_recognised() {
    assert!(spec().is_closed());
}

#[test]
fn link_to_unknown_node_is_not_closed() {
    let mut open = spec();
    open.other_links.push(link(10, 99, 1, 1, 1));
    assert!(!open.is_closed());
    let mut open = spec();
    open.bottleneck = link(41, 50, 100, 90, 5);
    assert!(!open.is_closed());
}

#[test]
fn flow_to_unknown_node_is_not_closed() {
    let mut open = spec();
    open.flows[0].dst = NodeId::new(31);
    assert!(!open.is_closed());
}
