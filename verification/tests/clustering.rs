use std::iter;

use parsimon::clustering::{deltas, percentiles};
use parsimon::network::types::{Flow, FlowId, NodeId};
use parsimon::units::{Bytes, Nanosecs};

#[test]
fn percentiles_sorts_and_indexes_correctly() {
    assert_eq!(
        percentiles(&[2, 1], |&x| x),
        iter::repeat(1)
            .take(500)
            .chain(iter::repeat(2).take(500))
            .collect::<Vec<_>>()
    )
}

#[test]
fn percentiles_of_three_values() {
    let data = [Bytes::new(30), Bytes::new(10), Bytes::new(20)];
    let qs = percentiles(&data, |b| b.into_u64());
    assert_eq!(qs.len(), 1000);
    assert_eq!(qs[0], 10);
    assert_eq!(qs[333], 10);
    assert_eq!(qs[334], 20);
    assert_eq!(qs[666], 20);
    assert_eq!(qs[667], 30);
    assert_eq!(qs[999], 30);
}

#[test]
fn deltas_are_the_gaps_between_starts() {
    let flow = |start| Flow {
        id: FlowId::new(0),
        src: NodeId::new(0),
        dst: NodeId::new(1),
        size: Bytes::new(1),
        start: Nanosecs::new(start),
    };
    let flows = [flow(5), flow(5), flow(12), flow(40)];
    assert_eq!(
        deltas(&flows),
        vec![Nanosecs::new(0), Nanosecs::new(7), Nanosecs::new(28)]
    );
}
