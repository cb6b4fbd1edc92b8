use parsimon::network::types::{BasicChannel, Flow, FlowId, NodeId};
use parsimon::units::{BitsPerSec, Bytes, Gbps, Nanosecs};
use parsimon::utils::{bdp, calculate_hash, ideal_fct, offered_bytes};
use std::collections::hash_map::DefaultHasher;
use std::hash::{Hash, Hasher};

fn hop(bandwidth: u64, delay: u64) -> BasicChannel {
    BasicChannel::new(
        NodeId::new(0),
        NodeId::new(1),
        BitsPerSec::new(bandwidth),
        Nanosecs::new(delay),
    )
}

#[test]
fn ideal_fct_one_hop_one_packet() {
    let hops = [hop(10_000_000_000, 1000)];
    assert_eq!(ideal_fct(Bytes::new(500), &hops), Nanosecs::new(1438));
}

#[test]
fn ideal_fct_counts_packets_and_hops() {
    let fast = hop(10_000_000_000, 1000);
    let slow = hop(1_000_000_000, 500);
    // Nothing to send: only the propagation delays are left.
    assert_eq!(ideal_fct(Bytes::new(0), &[fast, slow]), Nanosecs::new(1500));
    // One full packet of 1048 bytes over both hops: 838 ns and 8384 ns.
    assert_eq!(ideal_fct(Bytes::new(1000), &[fast, slow]), Nanosecs::new(838 + 8384 + 1500));
    // Two full packets and one of 500 bytes follow at the pace of the
    // slower hop.
    assert_eq!(
        ideal_fct(Bytes::new(3500), &[fast, slow]),
        Nanosecs::new(838 + 8384 + 2 * 8384 + 4384 + 1500)
    );
    // The result stops at the largest time.
    let crawl = hop(1, u64::MAX);
    assert_eq!(ideal_fct(Bytes::new(1), &[crawl]), Nanosecs::new(u64::MAX));
}

#[test]
fn ideal_fct_grows_with_size() {
    let hops = [hop(10_000_000_000, 1000), hop(40_000_000_000, 200), hop(3, 7)];
    let mut last = Nanosecs::new(0);
    for size in (0..5000).chain([u64::MAX - 1, u64::MAX]) {
        let fct = ideal_fct(Bytes::new(size), &hops);
        assert!(last <= fct, "size {size}");
        last = fct;
    }
}

#[test]
fn lengths_are_rounded() {
    let bw = BitsPerSec::new(10_000_000_000);
    assert_eq!(bw.length(Bytes::new(548)), Nanosecs::new(438));
    assert_eq!(bw.length(Bytes::new(0)), Nanosecs::new(0));
    assert_eq!(BitsPerSec::new(16).length(Bytes::new(1)), Nanosecs::new(500_000_000));
    assert_eq!(BitsPerSec::new(3).length(Bytes::new(1)), Nanosecs::new(2_666_666_667));
    assert_eq!(BitsPerSec::new(1).length(Bytes::new(u64::MAX)), Nanosecs::new(u64::MAX));
    assert_eq!(bw.scale_by(10), BitsPerSec::new(100_000_000_000));
    assert_eq!(BitsPerSec::new(u64::MAX).scale_by(2), BitsPerSec::new(u64::MAX));
    assert_eq!(BitsPerSec::from(Gbps::new(10)), bw);
    assert_eq!(Bytes::new(0).nr_packets(), 0);
    assert_eq!(Bytes::new(1).nr_packets(), 1);
    assert_eq!(Bytes::new(1000).nr_packets(), 1);
    assert_eq!(Bytes::new(1001).nr_packets(), 2);
}

#[test]
fn flow_hash_is_fixed() {
    for id in [0usize, 1, 2, 77, 1 << 40] {
        let mut s = DefaultHasher::new();
        id.hash(&mut s);
        assert_eq!(calculate_hash(&FlowId::new(id)), s.finish());
    }
    assert_ne!(calculate_hash(&FlowId::new(0)), calculate_hash(&FlowId::new(1)));
}

fn bandwidth() -> Gbps {
    Gbps::new(100)
}

fn interval() -> Nanosecs {
    Nanosecs::new(10_000)
}

fn flow_at(size: u64, start: u64) -> Flow {
    Flow { size: Bytes::new(size), start: Nanosecs::new(start), ..Default::default() }
}

// The loads as fractions of what the line carries in an interval, scaled to
// integers in [0, 100].
fn loads(flows: &[Flow]) -> Vec<u32> {
    let max_bytes = bdp(bandwidth(), interval()).into_u64() as f64;
    offered_bytes(bandwidth(), interval(), flows)
        .iter()
        .map(|bytes| (bytes.into_u64() as f64 / max_bytes * 100.0).round() as u32)
        .collect()
}

#[test]
fn bdp_correct() {
    assert_eq!(bdp(bandwidth(), interval()), Bytes::new(125_000));
}

#[test]
fn bdp_rounds_to_the_nearest_byte() {
    assert_eq!(bdp(Gbps::new(1), Nanosecs::new(3)), Bytes::new(0));
    assert_eq!(bdp(Gbps::new(1), Nanosecs::new(4)), Bytes::new(1));
    assert_eq!(bdp(Gbps::new(1), Nanosecs::new(11)), Bytes::new(1));
    assert_eq!(bdp(Gbps::new(1), Nanosecs::new(12)), Bytes::new(2));
    assert_eq!(bdp(Gbps::new(u64::MAX), Nanosecs::new(u64::MAX)), Bytes::new(u64::MAX));
}

#[test]
fn offered_loads_time_advances() {
    let flows = [flow_at(12_500, 10_000), flow_at(12_500, 20_000)];
    assert_eq!(loads(&flows), vec![0, 10, 10]);
}

#[test]
fn offered_loads_overflows_correctly() {
    let flows = [flow_at(1_000_000_000, 10_000)];
    let offered = loads(&flows);
    assert_eq!(offered[0], 0);
    let nr_expected_ones = 1_000_000_000 / bdp(bandwidth(), interval()).into_u64();
    assert_eq!(offered[1..].len(), nr_expected_ones as usize);
    assert!(offered[1..].iter().all(|&load| load == 100));
}

#[test]
fn offered_bytes_carry_over() {
    // An interval carries 125 bytes; what it cannot carry waits for the next.
    let bytes = |flows: &[Flow]| -> Vec<u64> {
        offered_bytes(Gbps::new(1), Nanosecs::new(1000), flows)
            .iter()
            .map(|b| b.into_u64())
            .collect()
    };
    assert_eq!(bdp(Gbps::new(1), Nanosecs::new(1000)), Bytes::new(125));
    assert_eq!(bytes(&[]), Vec::<u64>::new());
    assert_eq!(bytes(&[flow_at(0, 0)]), Vec::<u64>::new());
    assert_eq!(bytes(&[flow_at(300, 0)]), vec![125, 125, 50]);
    assert_eq!(bytes(&[flow_at(300, 999), flow_at(10, 1000)]), vec![125, 125, 60]);
    assert_eq!(bytes(&[flow_at(300, 0), flow_at(100, 3500)]), vec![125, 125, 50, 100]);
    assert_eq!(bytes(&[flow_at(100, 2000), flow_at(100, 0)]), vec![0, 0, 125, 75]);
    assert_eq!(bytes(&[flow_at(250, 5000)]), vec![0, 0, 0, 0, 0, 125, 125]);
}

#[test]
fn a_line_without_bandwidth_sends_nothing() {
    let dead = BitsPerSec::new(0);
    assert_eq!(dead.length(Bytes::new(0)), Nanosecs::new(0));
    assert_eq!(dead.length(Bytes::new(1)), Nanosecs::new(u64::MAX));
    // A flow without bytes takes the propagation delays, whatever the hops.
    let hops = [hop(10_000_000_000, 1000), hop(0, 250)];
    assert_eq!(ideal_fct(Bytes::new(0), &hops), Nanosecs::new(1250));
    assert_eq!(ideal_fct(Bytes::new(0), &[hop(10_000_000_000, 1000)]), Nanosecs::new(1000));
    // Bytes never get across a hop without bandwidth.
    assert_eq!(ideal_fct(Bytes::new(1), &hops), Nanosecs::new(u64::MAX));
    assert_eq!(ideal_fct(Bytes::new(5000), &hops), Nanosecs::new(u64::MAX));
}
