//! Empirical distributions of delay, bucketed by flow size.

use crate::network::types::FctRecord;
use crate::random::choose_one;
use crate::seqs::{sort_by_key, stable_sorted, Keyed};
use crate::units::{packets_of, Bytes, Nanosecs};
use rand::rngs::StdRng;
use vstd::prelude::*;

verus! {

/// A delay per packet, kept as the delay of a flow and the number of its
/// packets, so that nothing is lost to rounding.
#[derive(Debug, Clone, Copy, PartialEq, Eq, Structural)]
pub struct PktNormDelay {
    /// The delay of the flow.
    pub delay: Nanosecs,
    /// The number of packets of the flow.
    pub nr_pkts: u64,
}

impl PktNormDelay {
    /// The delay that a flow of `nr_pkts` packets meets at this delay per
    /// packet, as a mathematical integer: the delay per packet times the
    /// number of packets, rounded down. A delay over no packets counts as
    /// zero if it is zero and as endless otherwise.
    pub open spec fn spec_scale(self, nr_pkts: u64) -> int {
        if self.nr_pkts == 0 {
            if self.delay.0 == 0 || nr_pkts == 0 {
                0
            } else {
                u64::MAX as int
            }
        } else {
            (self.delay.0 * nr_pkts) / (self.nr_pkts as int)
        }
    }

    /// Returns the delay that a flow of `nr_pkts` packets meets at this delay
    /// per packet, cut off at the largest `u64`.
    pub fn scale(&self, nr_pkts: u64) -> (r: u64)
        ensures
            r == crate::units::saturate(self.spec_scale(nr_pkts)),
    {
        if self.nr_pkts == 0 {
            if self.delay.0 == 0 || nr_pkts == 0 {
                0
            } else {
                u64::MAX
            }
        } else {
            assert(self.delay.0 * nr_pkts <= 0xffff_ffff_ffff_ffff * 0xffff_ffff_ffff_ffff)
                by (nonlinear_arith)
                requires
                    self.delay.0 <= 0xffff_ffff_ffff_ffff,
                    nr_pkts <= 0xffff_ffff_ffff_ffff,
            ;
            let product: u128 = (self.delay.0 as u128) * (nr_pkts as u128);
            let q: u128 = product / (self.nr_pkts as u128);
            if q > u64::MAX as u128 {
                u64::MAX
            } else {
                q as u64
            }
        }
    }
}

/// The delay per packet of a record: its delay over the number of its
/// packets.
pub open spec fn spec_pktnorm(rec: FctRecord) -> PktNormDelay {
    PktNormDelay { delay: Nanosecs(rec.spec_delay()), nr_pkts: packets_of(rec.size.0 as int) as u64 }
}

/// Returns the delay per packet of a record.
pub fn pktnorm_delay(rec: &FctRecord) -> (r: PktNormDelay)
    ensures
        r == spec_pktnorm(*rec),
{
    PktNormDelay { delay: rec.delay(), nr_pkts: rec.nr_pkts() }
}

/// The reasons for which an empirical distribution cannot be built.
#[derive(Debug, Clone, Copy, PartialEq, Eq, Structural)]
pub enum EDistError {
    /// No values were given: a distribution is never empty.
    NoValues,
}

/// An empirical distribution: a list of samples, of which one is drawn.
#[derive(Debug, Clone)]
pub struct EDist {
    pub samples: Vec<PktNormDelay>,
}

impl EDist {
    /// A distribution without samples, which stands for a channel that was
    /// not simulated.
    pub fn new() -> (r: Self)
        ensures
            r.samples@ == Seq::<PktNormDelay>::empty(),
    {
        EDist { samples: Vec::new() }
    }

    /// Draws one of the samples; a delay of zero where there is none.
    pub fn sample(&self, rng: &mut StdRng) -> (r: PktNormDelay)
        ensures
            if self.samples@.len() == 0 {
                r == (PktNormDelay { delay: Nanosecs(0), nr_pkts: 1 })
            } else {
                self.samples@.contains(r)
            },
    {
        match choose_one(self.samples.as_slice(), rng) {
            Some(sample) => sample,
            None => PktNormDelay { delay: Nanosecs(0), nr_pkts: 1 },
        }
    }

    /// Builds a distribution from the given samples, of which there must be
    /// one at least.
    pub fn from_values(values: &[PktNormDelay]) -> (r: Result<Self, EDistError>)
        ensures
            match r {
                Ok(dist) => values@.len() > 0 && dist.samples@ == values@,
                Err(e) => values@.len() == 0 && e == EDistError::NoValues,
            },
    {
        if values.len() == 0 {
            return Err(EDistError::NoValues);
        }
        let mut samples: Vec<PktNormDelay> = Vec::new();
        let mut i: usize = 0;
        while i < values.len()
            invariant
                i <= values@.len(),
                samples@ == values@.take(i as int),
            decreases values@.len() - i,
        {
            samples.push(values[i]);
            proof {
                assert(values@.take(i + 1) =~= values@.take(i as int).push(values@[i as int]));
            }
            i += 1;
        }
        proof {
            assert(values@.take(i as int) =~= values@);
        }
        Ok(EDist { samples })
    }
}

/// A range of sizes: from `start` up to, but without, `end`.
#[derive(Debug, Clone, Copy, PartialEq, Eq, Structural)]
pub struct SizeRange {
    pub start: Bytes,
    pub end: Bytes,
}

impl SizeRange {
    /// Whether `size` lies in the range.
    pub open spec fn spec_contains(&self, size: Bytes) -> bool {
        self.start.0 <= size.0 < self.end.0
    }

    /// Returns true if `size` lies in the range.
    pub fn contains(&self, size: &Bytes) -> (r: bool)
        ensures
            r == self.spec_contains(*size),
    {
        self.start.0 <= size.0 && size.0 < self.end.0
    }
}

/// The parameters by which sizes are put into buckets.
#[derive(Debug, Clone, Copy, PartialEq, Eq, Structural)]
pub struct BucketOpts {
    /// A bucket is not closed before its largest size is `x` times its
    /// smallest.
    pub x: u8,
    /// A bucket is not closed before it holds `b` elements.
    pub b: usize,
}

impl BucketOpts {
    /// The parameters `x` and `b`.
    pub fn new(x: u8, b: usize) -> (r: Self)
        ensures
            r == (BucketOpts { x, b }),
    {
        BucketOpts { x, b }
    }
}

impl Default for BucketOpts {
    fn default() -> (r: Self)
        ensures
            r == (BucketOpts { x: 2, b: 100 }),
    {
        BucketOpts { x: 2, b: 100 }
    }
}

impl Keyed for FctRecord {
    /// Records are put in the order of their sizes.
    open spec fn spec_key(&self) -> u64 {
        self.size.0
    }

    fn key(&self) -> u64 {
        self.size.0
    }
}

/// Whether `sorted` is `records` put in the order of their sizes, with the
/// records of one size in the order in which they stand in `records`.
pub open spec fn is_sorted_by_size(records: Seq<FctRecord>, sorted: Seq<FctRecord>) -> bool {
    stable_sorted(records, sorted)
}

/// Whether a bucket that starts at `min` may be closed at the element at
/// position `j`, where the bucket began at position `from`: the size there
/// is `x` times `min` at least, and the bucket holds `b` elements at least.
pub open spec fn may_close(
    sorted: Seq<FctRecord>,
    from: int,
    j: int,
    min: u64,
    opts: BucketOpts,
) -> bool {
    sorted[j].size.0 >= opts.x * min && j - from + 1 >= opts.b
}

/// The first position from `j` on at which the bucket that began at `from`
/// may be closed; the length of `sorted` if there is none.
pub open spec fn closing_index(
    sorted: Seq<FctRecord>,
    from: int,
    j: int,
    min: u64,
    opts: BucketOpts,
) -> int
    decreases sorted.len() - j,
{
    if j >= sorted.len() {
        sorted.len() as int
    } else if may_close(sorted, from, j, min, opts) {
        j
    } else {
        closing_index(sorted, from, j + 1, min, opts)
    }
}

/// The first position from `k` on at which the size is another than at
/// `j`; the length of `sorted` if there is none.
pub open spec fn run_end(sorted: Seq<FctRecord>, j: int, k: int) -> int
    decreases sorted.len() - k,
{
    if 0 <= j < sorted.len() && 0 <= k < sorted.len() && sorted[k].size == sorted[j].size {
        run_end(sorted, j, k + 1)
    } else {
        k
    }
}

/// One more than `size`, as far as 64 bits hold it.
pub open spec fn next_size(size: u64) -> u64 {
    if size == u64::MAX {
        u64::MAX
    } else {
        (size + 1) as u64
    }
}

/// The buckets of records that are sorted by size, from position `from`
/// on, where the next bucket starts at the size `min`.
///
/// A bucket takes up elements until it may be closed, and then all further
/// elements of the size at which it was closed; it ends after that size, and
/// the next bucket begins there. Elements that are left when no bucket can
/// be closed form a last bucket without an upper end.
pub open spec fn buckets_from(
    sorted: Seq<FctRecord>,
    from: int,
    min: u64,
    opts: BucketOpts,
) -> Seq<(SizeRange, Seq<FctRecord>)>
    decreases sorted.len() - from,
{
    if from < 0 || from >= sorted.len() {
        Seq::empty()
    } else {
        let j = closing_index(sorted, from, from, min, opts);
        if j >= sorted.len() {
            seq![(
                SizeRange { start: Bytes(min), end: Bytes(u64::MAX) },
                sorted.subrange(from, sorted.len() as int),
            )]
        } else {
            let upto = run_end(sorted, j, j + 1);
            let end = next_size(sorted[j].size.0);
            if from < upto <= sorted.len() {
                seq![(SizeRange { start: Bytes(min), end: Bytes(end) }, sorted.subrange(from, upto))]
                    + buckets_from(sorted, upto, end, opts)
            } else {
                Seq::empty()
            }
        }
    }
}

/// Where a bucket may first be closed lies at or after the position from
/// which it is looked for, and nowhere before may it be closed.
pub proof fn lemma_closing_index(
    sorted: Seq<FctRecord>,
    from: int,
    j: int,
    min: u64,
    opts: BucketOpts,
)
    requires
        0 <= from <= j,
    ensures
        j <= closing_index(sorted, from, j, min, opts) || sorted.len() <= closing_index(
            sorted,
            from,
            j,
            min,
            opts,
        ),
        closing_index(sorted, from, j, min, opts) <= sorted.len() || j > sorted.len(),
        closing_index(sorted, from, j, min, opts) < sorted.len() ==> may_close(
            sorted,
            from,
            closing_index(sorted, from, j, min, opts),
            min,
            opts,
        ),
        !(j < sorted.len() && may_close(sorted, from, j, min, opts)) && j < sorted.len()
            ==> closing_index(sorted, from, j, min, opts) == closing_index(
            sorted,
            from,
            j + 1,
            min,
            opts,
        ),
    decreases sorted.len() - j,
{
    if j < sorted.len() && !may_close(sorted, from, j, min, opts) {
        lemma_closing_index(sorted, from, j + 1, min, opts);
    }
}

/// Puts records into buckets by their sizes.
///
/// The records are sorted by size. A bucket, which begins at size zero or
/// where the bucket before it ended, takes up records until its largest size
/// is `opts.x` times the size at which it begins and it holds `opts.b`
/// records; it then takes the further records of that largest size, and ends
/// after it. What is left over forms a last bucket without an upper end.
#[verifier::rlimit(50)]
pub fn bucket(data: &[FctRecord], opts: &BucketOpts) -> (r: Vec<(SizeRange, Vec<FctRecord>)>)
    ensures
        exists|sorted: Seq<FctRecord>|
            is_sorted_by_size(data@, sorted) && bucket_views(r@) == buckets_from(
                sorted,
                0,
                0,
                *opts,
            ),
{
    let mut sorted: Vec<FctRecord> = Vec::new();
    let mut i: usize = 0;
    while i < data.len()
        invariant
            i <= data@.len(),
            sorted@ == data@.take(i as int),
        decreases data@.len() - i,
    {
        sorted.push(data[i]);
        proof {
            assert(data@.take(i + 1) =~= data@.take(i as int).push(data@[i as int]));
        }
        i += 1;
    }
    proof {
        assert(data@.take(i as int) =~= data@);
    }
    sort_by_key(&mut sorted);
    assert(is_sorted_by_size(data@, sorted@));
    let len = sorted.len();
    let mut buckets: Vec<(SizeRange, Vec<FctRecord>)> = Vec::new();
    let mut from: usize = 0;
    let mut min: u64 = 0;
    proof {
        assert(bucket_views(buckets@) =~= Seq::empty());
    }
    while from < len
        invariant
            from <= len,
            len == sorted@.len(),
            buckets_from(sorted@, 0, 0, *opts) == bucket_views(buckets@) + buckets_from(
                sorted@,
                from as int,
                min,
                *opts,
            ),
        decreases len - from,
    {
        // Look for the first record at which the bucket may be closed.
        let mut j: usize = from;
        let mut acc: Vec<FctRecord> = Vec::new();
        let mut closed = false;
        proof {
            assert(sorted@.subrange(from as int, from as int) =~= Seq::<FctRecord>::empty());
        }
        while j < len && !closed
            invariant
                from <= j <= len,
                len == sorted@.len(),
                acc@ == sorted@.subrange(from as int, j as int),
                closing_index(sorted@, from as int, from as int, min, *opts) == closing_index(
                    sorted@,
                    from as int,
                    j as int,
                    min,
                    *opts,
                ),
                closed ==> j < len && may_close(sorted@, from as int, j as int, min, *opts),
            decreases len - j + (if closed { 0int } else { 1int }),
        {
            let size = sorted[j].size.0;
            assert(opts.x * min <= 255 * 0xffff_ffff_ffff_ffff) by (nonlinear_arith)
                requires
                    opts.x <= 255,
                    min <= 0xffff_ffff_ffff_ffff,
            ;
            let product: u128 = (opts.x as u128) * (min as u128);
            if size as u128 >= product && j - from + 1 >= opts.b {
                closed = true;
            } else {
                acc.push(sorted[j]);
                proof {
                    lemma_closing_index(sorted@, from as int, j as int, min, *opts);
                    assert(sorted@.subrange(from as int, j + 1) =~= sorted@.subrange(
                        from as int,
                        j as int,
                    ).push(sorted@[j as int]));
                }
                j += 1;
            }
        }
        if !closed {
            proof {
                assert(closing_index(sorted@, from as int, j as int, min, *opts) == len);
                let last = (
                    SizeRange { start: Bytes(min), end: Bytes(u64::MAX) },
                    sorted@.subrange(from as int, len as int),
                );
                assert(bucket_views(buckets@.push((last.0, acc))) =~= bucket_views(buckets@).push(
                    last,
                ));
                assert(buckets_from(sorted@, len as int, u64::MAX, *opts) =~= Seq::empty());
                assert(bucket_views(buckets@).push(last) + Seq::empty() =~= bucket_views(
                    buckets@,
                ) + seq![last]);
            }
            buckets.push((SizeRange { start: Bytes(min), end: Bytes(u64::MAX) }, acc));
            from = len;
            min = u64::MAX;
        } else {
            let closing = sorted[j].size;
            let ghost at = j as int;
            acc.push(sorted[j]);
            proof {
                assert(sorted@.subrange(from as int, j + 1) =~= sorted@.subrange(
                    from as int,
                    j as int,
                ).push(sorted@[j as int]));
                assert(closing_index(sorted@, from as int, j as int, min, *opts) == j);
            }
            j += 1;
            while j < len && sorted[j].size.0 == closing.0
                invariant
                    from <= at < j <= len,
                    len == sorted@.len(),
                    closing == sorted@[at].size,
                    acc@ == sorted@.subrange(from as int, j as int),
                    run_end(sorted@, at, at + 1) == run_end(sorted@, at, j as int),
                decreases len - j,
            {
                acc.push(sorted[j]);
                proof {
                    assert(sorted@.subrange(from as int, j + 1) =~= sorted@.subrange(
                        from as int,
                        j as int,
                    ).push(sorted@[j as int]));
                }
                j += 1;
            }
            let end: u64 = if closing.0 == u64::MAX {
                u64::MAX
            } else {
                closing.0 + 1
            };
            proof {
                assert(run_end(sorted@, at, j as int) == j);
                let this = (
                    SizeRange { start: Bytes(min), end: Bytes(end) },
                    sorted@.subrange(from as int, j as int),
                );
                assert(bucket_views(buckets@.push((this.0, acc))) =~= bucket_views(buckets@).push(
                    this,
                ));
                assert(bucket_views(buckets@).push(this) + buckets_from(
                    sorted@,
                    j as int,
                    end,
                    *opts,
                ) =~= bucket_views(buckets@) + (seq![this] + buckets_from(
                    sorted@,
                    j as int,
                    end,
                    *opts,
                )));
            }
            buckets.push((SizeRange { start: Bytes(min), end: Bytes(end) }, acc));
            from = j;
            min = end;
        }
    }
    proof {
        assert(buckets_from(sorted@, from as int, min, *opts) =~= Seq::empty());
        assert(bucket_views(buckets@) + Seq::empty() =~= bucket_views(buckets@));
        assert(is_sorted_by_size(data@, sorted@));
    }
    buckets
}

/// The buckets with their records as sequences.
pub open spec fn bucket_views(buckets: Seq<(SizeRange, Vec<FctRecord>)>) -> Seq<
    (SizeRange, Seq<FctRecord>),
> {
    buckets.map_values(|b: (SizeRange, Vec<FctRecord>)| (b.0, b.1@))
}

/// The samples of delay per packet of the given records, in their order.
pub open spec fn samples_of(records: Seq<FctRecord>) -> Seq<PktNormDelay> {
    records.map_values(|r: FctRecord| spec_pktnorm(r))
}

/// The ranges of the given buckets, each with the samples of its records.
pub open spec fn dists_of(buckets: Seq<(SizeRange, Seq<FctRecord>)>) -> Seq<
    (SizeRange, Seq<PktNormDelay>),
> {
    buckets.map_values(|b: (SizeRange, Seq<FctRecord>)| (b.0, samples_of(b.1)))
}

/// Empirical distributions bucketed by ranges of sizes.
#[derive(Debug, Clone)]
pub struct EDistBuckets {
    pub inner: Vec<(SizeRange, EDist)>,
}

impl EDistBuckets {
    /// The ranges with the samples of their distributions.
    pub open spec fn view(&self) -> Seq<(SizeRange, Seq<PktNormDelay>)> {
        self.inner@.map_values(|b: (SizeRange, EDist)| (b.0, b.1.samples@))
    }

    /// The test for the bucket at a position to cover `size`.
    pub open spec fn covering(&self, size: Bytes) -> spec_fn(int) -> bool {
        |k: int| self.inner@[k].0.spec_contains(size)
    }

    /// Whether some bucket covers `size`.
    pub open spec fn covers(&self, size: Bytes) -> bool {
        exists|k: int| 0 <= k < self.inner@.len() && (#[trigger] self.inner@[k]).0.spec_contains(size)
    }

    /// No buckets: the distributions of a channel that was not simulated,
    /// which has a distribution for no size.
    pub fn new_empty() -> (r: Self)
        ensures
            r@ == Seq::<(SizeRange, Seq<PktNormDelay>)>::empty(),
            r.inner@.len() == 0,
    {
        let r = EDistBuckets { inner: Vec::new() };
        proof {
            assert(r@ =~= Seq::<(SizeRange, Seq<PktNormDelay>)>::empty());
        }
        r
    }

    /// Replaces the buckets by those of the given records: the records are
    /// put into buckets by their sizes, and every bucket gets the
    /// distribution of the delays per packet of its records.
    #[verifier::rlimit(50)]
    pub fn fill(&mut self, data: &[FctRecord], opts: BucketOpts) -> (r: Result<(), EDistError>)
        ensures
            r is Ok,
            exists|sorted: Seq<FctRecord>|
                is_sorted_by_size(data@, sorted) && final(self)@ == dists_of(
                    buckets_from(sorted, 0, 0, opts),
                ),
    {
        let buckets = bucket(data, &opts);
        let ghost sorted = choose|sorted: Seq<FctRecord>|
            is_sorted_by_size(data@, sorted) && bucket_views(buckets@) == buckets_from(
                sorted,
                0,
                0,
                opts,
            );
        let mut inner: Vec<(SizeRange, EDist)> = Vec::new();
        let mut k: usize = 0;
        while k < buckets.len()
            invariant
                k <= buckets@.len(),
                inner@.len() == k,
                forall|a: int|
                    0 <= a < k ==> (#[trigger] inner@[a]).0 == buckets@[a].0 && inner@[a].1.samples@
                        == samples_of(buckets@[a].1@),
            decreases buckets@.len() - k,
        {
            let range = buckets[k].0;
            let records = &buckets[k].1;
            let mut samples: Vec<PktNormDelay> = Vec::new();
            let mut i: usize = 0;
            while i < records.len()
                invariant
                    i <= records@.len(),
                    samples@ == samples_of(records@.take(i as int)),
                decreases records@.len() - i,
            {
                samples.push(pktnorm_delay(&records[i]));
                proof {
                    assert(records@.take(i + 1) =~= records@.take(i as int).push(
                        records@[i as int],
                    ));
                    assert(samples@ =~= samples_of(records@.take(i + 1)));
                }
                i += 1;
            }
            proof {
                assert(records@.take(i as int) =~= records@);
            }
            let dist = EDist { samples };
            inner.push((range, dist));
            k += 1;
        }
        self.inner = inner;
        proof {
            assert(self@ =~= dists_of(bucket_views(buckets@)));
        }
        Ok(())
    }

    /// The ranges of the buckets, in their order.
    pub fn bucket_ranges(&self) -> (r: Vec<SizeRange>)
        ensures
            r@ == self.inner@.map_values(|b: (SizeRange, EDist)| b.0),
    {
        let mut out: Vec<SizeRange> = Vec::new();
        let mut k: usize = 0;
        while k < self.inner.len()
            invariant
                k <= self.inner@.len(),
                out@ == self.inner@.take(k as int).map_values(|b: (SizeRange, EDist)| b.0),
            decreases self.inner@.len() - k,
        {
            out.push(self.inner[k].0);
            proof {
                assert(self.inner@.take(k + 1) =~= self.inner@.take(k as int).push(
                    self.inner@[k as int],
                ));
                assert(out@ =~= self.inner@.take(k + 1).map_values(
                    |b: (SizeRange, EDist)| b.0,
                ));
            }
            k += 1;
        }
        proof {
            assert(self.inner@.take(k as int) =~= self.inner@);
        }
        out
    }

    /// Returns the distribution for a size: that of the first bucket whose
    /// range holds the size, if there is one. The size lies in the range of
    /// the bucket that is returned.
    pub fn for_size(&self, size: Bytes) -> (r: Option<&EDist>)
        ensures
            match r {
                Some(dist) => exists|k: int|
                    crate::seqs::is_first(self.inner@.len() as int, self.covering(size), k)
                        && *dist == self.inner@[k].1 && self.inner@[k].0.start.0 <= size.0
                        < self.inner@[k].0.end.0,
                None => !self.covers(size),
            },
    {
        let mut k: usize = 0;
        while k < self.inner.len()
            invariant
                k <= self.inner@.len(),
                forall|a: int|
                    0 <= a < k ==> !(#[trigger] self.inner@[a]).0.spec_contains(size),
            decreases self.inner@.len() - k,
        {
            if self.inner[k].0.contains(&size) {
                proof {
                    let test = self.covering(size);
                    assert(test(k as int));
                    assert forall|a: int| 0 <= a < k implies !(#[trigger] test(a)) by {
                        assert(!self.inner@[a].0.spec_contains(size));
                    }
                    assert(crate::seqs::is_first(self.inner@.len() as int, test, k as int));
                }
                return Some(&self.inner[k].1);
            }
            k += 1;
        }
        None
    }
}

} // verus!
