//! Small topologies for trying the library out.

use crate::network::types::{Link, Node, NodeId, NodeKind};
use crate::units::{BitsPerSec, Nanosecs};
use vstd::prelude::*;

verus! {

/// A link of ten gigabits per second with a delay of one microsecond.
pub open spec fn standard_link(a: usize, b: usize) -> Link {
    Link {
        a: NodeId(a),
        b: NodeId(b),
        bandwidth: BitsPerSec(10_000_000_000),
        delay: Nanosecs(1000),
    }
}

fn make_link(a: usize, b: usize) -> (r: Link)
    ensures
        r == standard_link(a, b),
{
    Link {
        a: NodeId(a),
        b: NodeId(b),
        bandwidth: BitsPerSec(10_000_000_000),
        delay: Nanosecs(1000),
    }
}

/// Two hosts, `0` and `1`, joined by the switch `2`.
///
/// The links have ten gigabits per second and a delay of one microsecond.
pub fn three_node_config() -> (r: (Vec<Node>, Vec<Link>))
    ensures
        r.0@ == seq![
            Node { id: NodeId(0), kind: NodeKind::Host },
            Node { id: NodeId(1), kind: NodeKind::Host },
            Node { id: NodeId(2), kind: NodeKind::Switch },
        ],
        r.1@ == seq![standard_link(0, 2), standard_link(1, 2)],
{
    let mut nodes: Vec<Node> = Vec::new();
    nodes.push(Node::new_host(NodeId::new(0)));
    nodes.push(Node::new_host(NodeId::new(1)));
    nodes.push(Node::new_switch(NodeId::new(2)));
    let mut links: Vec<Link> = Vec::new();
    links.push(make_link(0, 2));
    links.push(make_link(1, 2));
    proof {
        assert(nodes@ =~= seq![
            Node { id: NodeId(0), kind: NodeKind::Host },
            Node { id: NodeId(1), kind: NodeKind::Host },
            Node { id: NodeId(2), kind: NodeKind::Switch },
        ]);
        assert(links@ =~= seq![standard_link(0, 2), standard_link(1, 2)]);
    }
    (nodes, links)
}

/// Four hosts, `0` to `3`, two switches at the top of the racks, `4` and
/// `5`, each joined to two hosts, and two aggregation switches, `6` and `7`,
/// each joined to both of the former.
///
/// The links have ten gigabits per second and a delay of one microsecond.
pub fn eight_node_config() -> (r: (Vec<Node>, Vec<Link>))
    ensures
        r.0@ == seq![
            Node { id: NodeId(0), kind: NodeKind::Host },
            Node { id: NodeId(1), kind: NodeKind::Host },
            Node { id: NodeId(2), kind: NodeKind::Host },
            Node { id: NodeId(3), kind: NodeKind::Host },
            Node { id: NodeId(4), kind: NodeKind::Switch },
            Node { id: NodeId(5), kind: NodeKind::Switch },
            Node { id: NodeId(6), kind: NodeKind::Switch },
            Node { id: NodeId(7), kind: NodeKind::Switch },
        ],
        r.1@ == seq![
            standard_link(0, 4),
            standard_link(1, 4),
            standard_link(2, 5),
            standard_link(3, 5),
            standard_link(4, 6),
            standard_link(4, 7),
            standard_link(5, 6),
            standard_link(5, 7),
        ],
{
    let mut nodes: Vec<Node> = Vec::new();
    nodes.push(Node::new_host(NodeId::new(0)));
    nodes.push(Node::new_host(NodeId::new(1)));
    nodes.push(Node::new_host(NodeId::new(2)));
    nodes.push(Node::new_host(NodeId::new(3)));
    nodes.push(Node::new_switch(NodeId::new(4)));
    nodes.push(Node::new_switch(NodeId::new(5)));
    nodes.push(Node::new_switch(NodeId::new(6)));
    nodes.push(Node::new_switch(NodeId::new(7)));
    let mut links: Vec<Link> = Vec::new();
    links.push(make_link(0, 4));
    links.push(make_link(1, 4));
    links.push(make_link(2, 5));
    links.push(make_link(3, 5));
    links.push(make_link(4, 6));
    links.push(make_link(4, 7));
    links.push(make_link(5, 6));
    links.push(make_link(5, 7));
    proof {
        assert(nodes@ =~= seq![
            Node { id: NodeId(0), kind: NodeKind::Host },
            Node { id: NodeId(1), kind: NodeKind::Host },
            Node { id: NodeId(2), kind: NodeKind::Host },
            Node { id: NodeId(3), kind: NodeKind::Host },
            Node { id: NodeId(4), kind: NodeKind::Switch },
            Node { id: NodeId(5), kind: NodeKind::Switch },
            Node { id: NodeId(6), kind: NodeKind::Switch },
            Node { id: NodeId(7), kind: NodeKind::Switch },
        ]);
        assert(links@ =~= seq![
            standard_link(0, 4),
            standard_link(1, 4),
            standard_link(2, 5),
            standard_link(3, 5),
            standard_link(4, 6),
            standard_link(4, 7),
            standard_link(5, 6),
            standard_link(5, 7),
        ]);
    }
    (nodes, links)
}

} // verus!
