use parsimon::edist::PktNormDelay;
use parsimon::limbs::{minus, plus, times};
use parsimon::network::delay::delay_of;
use parsimon::units::{Bytes, Nanosecs};

fn sample(delay: u64, nr_pkts: u64) -> PktNormDelay {
    PktNormDelay { delay: Nanosecs::new(delay), nr_pkts }
}

#[test]
fn delays_per_packet_are_added_before_rounding() {
    // Two channels at half a nanosecond per packet make one nanosecond.
    let halves = [sample(1, 2), sample(1, 2)];
    assert_eq!(delay_of(Bytes::new(1), &halves), Nanosecs::new(1));
    // A third and two thirds make one; a third and a half make none.
    assert_eq!(delay_of(Bytes::new(1), &[sample(1, 3), sample(2, 3)]), Nanosecs::new(1));
    assert_eq!(delay_of(Bytes::new(1), &[sample(1, 3), sample(1, 2)]), Nanosecs::new(0));
    // 5/6 per packet over 6 packets is 5.
    assert_eq!(delay_of(Bytes::new(5001), &[sample(1, 3), sample(1, 2)]), Nanosecs::new(5));
    // One sample alone is scaled as it always was.
    assert_eq!(delay_of(Bytes::new(3000), &[sample(2000, 3)]), Nanosecs::new(2000));
    assert_eq!(delay_of(Bytes::new(1000), &[sample(2000, 3)]), Nanosecs::new(666));
    assert_eq!(delay_of(Bytes::new(1000), &[]), Nanosecs::new(0));
}

#[test]
fn delays_add_up_exactly_over_many_channels() {
    // Seven sevenths, over packets that share no factor with their
    // neighbours' in 64 bits.
    let p: u64 = 18_446_744_073_709_551_557;
    let q: u64 = 18_446_744_073_709_551_533;
    let samples = [sample(p - 1, p), sample(1, p), sample(q - 1, q), sample(1, q)];
    assert_eq!(delay_of(Bytes::new(1), &samples), Nanosecs::new(2));
    let short = [sample(p - 1, p), sample(1, p), sample(q - 2, q), sample(1, q)];
    assert_eq!(delay_of(Bytes::new(1), &short), Nanosecs::new(1));
    let sevenths: Vec<PktNormDelay> = (0..7).map(|_| sample(1, 7)).collect();
    assert_eq!(delay_of(Bytes::new(1), &sevenths), Nanosecs::new(1));
    assert_eq!(delay_of(Bytes::new(1), &sevenths[..6]), Nanosecs::new(0));
    assert_eq!(delay_of(Bytes::new(2500), &sevenths[..6]), Nanosecs::new(2));
}

#[test]
fn delays_stop_at_the_largest_time() {
    let huge = [sample(u64::MAX, 1), sample(u64::MAX, 1)];
    assert_eq!(delay_of(Bytes::new(1), &huge), Nanosecs::new(u64::MAX));
    assert_eq!(delay_of(Bytes::new(u64::MAX), &huge), Nanosecs::new(u64::MAX));
    // A delay over no packets is endless, unless it is none or the flow has
    // no packets.
    assert_eq!(delay_of(Bytes::new(1), &[sample(1, 2), sample(5, 0)]), Nanosecs::new(u64::MAX));
    assert_eq!(delay_of(Bytes::new(1), &[sample(3, 2), sample(0, 0)]), Nanosecs::new(1));
    assert_eq!(delay_of(Bytes::new(0), &[sample(3, 2), sample(5, 0)]), Nanosecs::new(0));
}

#[test]
fn numbers_of_many_limbs() {
    let max = u64::MAX;
    // (2^64 - 1)^2 = 2^128 - 2^65 + 1.
    assert_eq!(times(&vec![max], max), vec![1, max - 1]);
    assert_eq!(times(&vec![], 5), vec![0]);
    assert_eq!(times(&vec![3, 4], 0), vec![0, 0, 0]);
    assert_eq!(plus(&vec![max, max], &vec![1, 0]), vec![0, 0, 1]);
    assert_eq!(plus(&vec![1, 2], &vec![3, 4]), vec![4, 6, 0]);
    assert_eq!(minus(&vec![0, 0, 1], &vec![1, 0, 0]), Some(vec![max, max, 0]));
    assert_eq!(minus(&vec![5, 1], &vec![5, 1]), Some(vec![0, 0]));
    assert_eq!(minus(&vec![max, 0], &vec![0, 1]), None);
}
