use parsimon::edist::{
    bucket, pktnorm_delay, BucketOpts, EDist, EDistBuckets, EDistError, PktNormDelay, SizeRange,
};
use parsimon::network::types::{FctRecord, FlowId};
use parsimon::units::{Bytes, Nanosecs};
use rand::rngs::StdRng;
use rand::SeedableRng;

fn record(id: usize, size: u64) -> FctRecord {
    FctRecord {
        id: FlowId::new(id),
        size: Bytes::new(size),
        start: Nanosecs::new(0),
        fct: Nanosecs::new(3000),
        ideal: Nanosecs::new(1000),
    }
}

fn range(start: u64, end: u64) -> SizeRange {
    SizeRange { start: Bytes::new(start), end: Bytes::new(end) }
}

#[test]
fn bucketing_by_size() {
    // Sizes 1 to 200, and 101 to 150 once more.
    let mut data = Vec::new();
    for (i, size) in (1..=200).chain(101..=150).enumerate() {
        data.push(record(i, size));
    }
    assert_eq!(data.len(), 250);
    let buckets = bucket(&data, &BucketOpts::default());
    assert_eq!(buckets.len(), 2);
    assert_eq!(buckets[0].0, range(0, 101));
    assert_eq!(buckets[1].0, range(101, u64::MAX));
    assert_eq!(buckets[0].1.len(), 100);
    assert_eq!(buckets[1].1.len(), 150);
    assert!(buckets[0].1.iter().map(|r| r.size.into_u64()).eq(1..=100));
    let mut dists = EDistBuckets::new_empty();
    assert!(dists.fill(&data, BucketOpts::default()).is_ok());
    assert_eq!(dists.bucket_ranges(), vec![range(0, 101), range(101, u64::MAX)]);
    for size in [0, 1, 100] {
        assert_eq!(dists.for_size(Bytes::new(size)).unwrap().samples.len(), 100);
    }
    for size in [101, 200, 1_000_000] {
        assert_eq!(dists.for_size(Bytes::new(size)).unwrap().samples.len(), 150);
    }
    assert!(dists.for_size(Bytes::new(u64::MAX)).is_none());
}

#[test]
fn buckets_close_when_wide_and_full() {
    let sizes = [4, 1, 2, 2, 3, 8, 8, 8, 9, 20, 40];
    let data: Vec<_> = sizes.iter().enumerate().map(|(i, &s)| record(i, s)).collect();
    let buckets = bucket(&data, &BucketOpts::new(2, 3));
    let got: Vec<(SizeRange, Vec<u64>)> = buckets
        .iter()
        .map(|(r, recs)| (*r, recs.iter().map(|r| r.size.into_u64()).collect()))
        .collect();
    assert_eq!(
        got,
        vec![
            // From zero any size is wide enough: three records fill it, and
            // the second record of size 2 is taken along.
            (range(0, 3), vec![1, 2, 2]),
            // From 3 the size 8 is wide enough, and all of its records are
            // taken along.
            (range(3, 9), vec![3, 4, 8, 8, 8]),
            // From 9 the size 20 is wide enough but comes too early; 40
            // closes the bucket.
            (range(9, 41), vec![9, 20, 40]),
        ]
    );
    // Records of one size keep their order.
    let ids: Vec<usize> = buckets[1].1.iter().map(|r| r.id.inner()).collect();
    assert_eq!(ids, vec![4, 0, 5, 6, 7]);
}

#[test]
fn leftovers_form_a_last_bucket() {
    let data: Vec<_> = [5, 6, 7].iter().enumerate().map(|(i, &s)| record(i, s)).collect();
    let buckets = bucket(&data, &BucketOpts::new(2, 2));
    assert_eq!(buckets.len(), 2);
    assert_eq!(buckets[0].0, range(0, 7));
    assert_eq!(buckets[1].0, range(7, u64::MAX));
    assert_eq!(buckets[1].1.len(), 1);
    assert!(bucket(&[], &BucketOpts::default()).is_empty());
    let mut dists = EDistBuckets::new_empty();
    assert!(dists.bucket_ranges().is_empty());
    assert!(dists.fill(&[], BucketOpts::default()).is_ok());
    assert!(dists.bucket_ranges().is_empty());
}

#[test]
fn default_bucket_opts() {
    assert_eq!(BucketOpts::default(), BucketOpts::new(2, 100));
}

#[test]
fn delay_per_packet() {
    let mut rec = record(0, 2_500);
    assert_eq!(rec.delay(), Nanosecs::new(2000));
    assert_eq!(rec.nr_pkts(), 3);
    assert_eq!(pktnorm_delay(&rec), PktNormDelay { delay: Nanosecs::new(2000), nr_pkts: 3 });
    assert_eq!(pktnorm_delay(&rec).scale(3), 2000);
    assert_eq!(pktnorm_delay(&rec).scale(1), 666);
    assert_eq!(pktnorm_delay(&rec).scale(6), 4000);
    // Rounding can leave the measured time below the ideal one.
    rec.fct = Nanosecs::new(999);
    assert_eq!(rec.delay(), Nanosecs::new(0));
    rec.fct = Nanosecs::new(1000);
    assert_eq!(rec.delay(), Nanosecs::new(0));
    let huge = PktNormDelay { delay: Nanosecs::new(u64::MAX), nr_pkts: 1 };
    assert_eq!(huge.scale(2), u64::MAX);
    let none = PktNormDelay { delay: Nanosecs::new(5), nr_pkts: 0 };
    assert_eq!(none.scale(2), u64::MAX);
    assert_eq!(none.scale(0), 0);
    assert_eq!(PktNormDelay { delay: Nanosecs::new(0), nr_pkts: 0 }.scale(2), 0);
}

#[test]
fn edist_needs_values() {
    assert_eq!(EDist::from_values(&[]).err(), Some(EDistError::NoValues));
    let sample = PktNormDelay { delay: Nanosecs::new(7), nr_pkts: 2 };
    let dist = EDist::from_values(&[sample]).unwrap();
    let mut rng = StdRng::seed_from_u64(3);
    assert_eq!(dist.sample(&mut rng), sample);
    assert_eq!(
        EDist::new().sample(&mut rng),
        PktNormDelay { delay: Nanosecs::new(0), nr_pkts: 1 }
    );
    let many: Vec<_> = (0..50).map(|i| PktNormDelay { delay: Nanosecs::new(i), nr_pkts: 1 }).collect();
    let dist = EDist::from_values(&many).unwrap();
    for _ in 0..20 {
        assert!(many.contains(&dist.sample(&mut rng)));
    }
}

#[test]
fn size_ranges_are_half_open() {
    let r = range(3, 9);
    assert!(!r.contains(&Bytes::new(2)));
    assert!(r.contains(&Bytes::new(3)));
    assert!(r.contains(&Bytes::new(8)));
    assert!(!r.contains(&Bytes::new(9)));
}
