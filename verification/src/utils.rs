//! Helpers shared by the network types: the hash that spreads flows over
//! equal routes, ideal completion times, and the bytes that flows offer to a
//! line.

use crate::constants::{SZ_PKTHDR, SZ_PKTMAX};
use crate::network::types::{BasicChannel, Channel, Flow, FlowId};
use crate::network::topology::basic_of;
use crate::units::{div_round, saturate, BitsPerSec, Bytes, Gbps, Nanosecs, NANOS_PER_SEC};
use std::collections::hash_map::DefaultHasher;
use std::hash::Hasher;
use vstd::bytes::{spec_u64_to_le_bytes, u64_to_le_bytes};
use vstd::prelude::*;
use vstd::std_specs::hash::DefaultHasherAdditionalSpecFns;

verus! {

/// The hash of a flow identifier: what the default hasher of the standard
/// library, with its fixed keys, makes of the eight bytes of the identifier,
/// lowest byte first.
pub open spec fn spec_flow_hash(id: FlowId) -> u64 {
    DefaultHasher::spec_finish(seq![spec_u64_to_le_bytes(id.0 as u64)])
}

/// Computes the hash by which a flow picks among equal routes.
pub fn calculate_hash(id: &FlowId) -> (h: u64)
    ensures
        h == spec_flow_hash(*id),
{
    let mut s = DefaultHasher::new();
    let bytes = u64_to_le_bytes(id.0 as u64);
    s.write(bytes.as_slice());
    proof {
        assert(s@ =~= seq![spec_u64_to_le_bytes(id.0 as u64)]);
    }
    s.finish()
}

/// The time it takes to put `bytes` bytes on a line of `bandwidth` bits per
/// second, in nanoseconds, rounded to the nearest. A line without bandwidth
/// takes no time for no bytes and the largest time for any.
pub open spec fn length_of(bandwidth: u64, bytes: int) -> int {
    if bandwidth == 0 {
        if bytes <= 0 {
            0
        } else {
            u64::MAX as int
        }
    } else {
        div_round(bytes * 8 * NANOS_PER_SEC, bandwidth as int)
    }
}

/// The bytes of the first packet of a flow of `size` bytes, with its
/// header; nothing for a flow without bytes.
pub open spec fn head_size(size: u64) -> int {
    if size == 0 {
        0
    } else if size < SZ_PKTMAX {
        size + SZ_PKTHDR
    } else {
        SZ_PKTMAX + SZ_PKTHDR
    }
}

/// The bytes of a flow of `size` bytes after its first packet.
pub open spec fn rest_size(size: u64) -> int {
    if size < SZ_PKTMAX {
        0
    } else {
        size - SZ_PKTMAX
    }
}

/// The bytes of the last packet of `rest` bytes where that is not full, with
/// its header.
pub open spec fn partial_size(rest: int) -> int {
    if rest % (SZ_PKTMAX as int) == 0 {
        0
    } else {
        rest % (SZ_PKTMAX as int) + SZ_PKTHDR
    }
}

/// The time it takes to send `rest` bytes in packets over a line of
/// `bandwidth`: the full packets and the last one, each with its header.
pub open spec fn rest_delay(bandwidth: u64, rest: int) -> int {
    (rest / (SZ_PKTMAX as int)) * length_of(bandwidth, SZ_PKTMAX + SZ_PKTHDR) + length_of(
        bandwidth,
        partial_size(rest),
    )
}

/// The smallest bandwidth along the hops; the largest number where there is
/// no hop.
pub open spec fn min_bandwidth(hops: Seq<BasicChannel>) -> u64
    decreases hops.len(),
{
    if hops.len() == 0 {
        u64::MAX
    } else {
        let rest = min_bandwidth(hops.drop_last());
        if hops.last().bandwidth.0 < rest {
            hops.last().bandwidth.0
        } else {
            rest
        }
    }
}

/// The time it takes to send `bytes` bytes over every hop in turn.
pub open spec fn head_delay(hops: Seq<BasicChannel>, bytes: int) -> int
    decreases hops.len(),
{
    if hops.len() == 0 {
        0
    } else {
        head_delay(hops.drop_last(), bytes) + length_of(hops.last().bandwidth.0, bytes)
    }
}

/// The sum of the propagation delays of the hops.
pub open spec fn prop_delay(hops: Seq<BasicChannel>) -> int
    decreases hops.len(),
{
    if hops.len() == 0 {
        0
    } else {
        prop_delay(hops.drop_last()) + hops.last().delay.0
    }
}

/// The completion time of a flow of `size` bytes on an unloaded path: the
/// first packet is sent over every hop in turn, the packets after it follow
/// at the pace of the slowest hop, and everything travels for the sum of the
/// propagation delays.
pub open spec fn spec_ideal_fct(size: u64, hops: Seq<BasicChannel>) -> int {
    head_delay(hops, head_size(size)) + rest_delay(min_bandwidth(hops), rest_size(size))
        + prop_delay(hops)
}

/// The hops as plain channels.
pub open spec fn basics_of<T: Channel>(hops: Seq<T>) -> Seq<BasicChannel> {
    hops.map_values(|c: T| basic_of(c))
}

/// A rounded quotient grows with its numerator.
pub proof fn lemma_div_round_monotonic(a: int, b: int, den: int)
    requires
        0 <= a <= b,
        den > 0,
    ensures
        0 <= div_round(a, den) <= div_round(b, den),
{
    vstd::arithmetic::div_mod::lemma_div_is_ordered(2 * a + den, 2 * b + den, 2 * den);
    vstd::arithmetic::div_mod::lemma_div_pos_is_pos(2 * a + den, 2 * den);
}

/// Sending more bytes over a line takes no less time.
pub proof fn lemma_length_monotonic(bandwidth: u64, a: int, b: int)
    requires
        0 <= a <= b,
    ensures
        0 <= length_of(bandwidth, a) <= length_of(bandwidth, b),
{
    if bandwidth > 0 {
        assert(0 <= a * 8 * NANOS_PER_SEC <= b * 8 * NANOS_PER_SEC) by (nonlinear_arith)
            requires
                0 <= a <= b,
                NANOS_PER_SEC == 1_000_000_000,
        ;
        lemma_div_round_monotonic(a * 8 * NANOS_PER_SEC, b * 8 * NANOS_PER_SEC, bandwidth as int);
    }
}

/// Sending more bytes after the first packet takes no less time.
#[verifier::rlimit(50)]
pub proof fn lemma_rest_delay_monotonic(bandwidth: u64, a: int, b: int)
    requires
        0 <= a <= b,
    ensures
        0 <= rest_delay(bandwidth, a) <= rest_delay(bandwidth, b),
{
    let full = length_of(bandwidth, SZ_PKTMAX + SZ_PKTHDR);
    let qa = a / 1000;
    let qb = b / 1000;
    lemma_length_monotonic(bandwidth, 0, partial_size(a));
    lemma_length_monotonic(bandwidth, 0, partial_size(b));
    lemma_length_monotonic(bandwidth, partial_size(a), 1048);
    lemma_length_monotonic(bandwidth, 0, 1048);
    assert(0 <= qa <= qb);
    assert(0 <= qa * full) by (nonlinear_arith)
        requires
            0 <= qa,
            0 <= full,
    ;
    if qa == qb {
        assert(a % 1000 <= b % 1000);
        lemma_length_monotonic(bandwidth, partial_size(a), partial_size(b));
    } else {
        assert((qa + 1) * full <= qb * full) by (nonlinear_arith)
            requires
                qa + 1 <= qb,
                0 <= full,
        ;
        assert((qa + 1) * full == qa * full + full) by (nonlinear_arith);
    }
}

/// Sending more bytes over every hop in turn takes no less time.
pub proof fn lemma_head_delay_monotonic(hops: Seq<BasicChannel>, a: int, b: int)
    requires
        0 <= a <= b,
    ensures
        0 <= head_delay(hops, a) <= head_delay(hops, b),
    decreases hops.len(),
{
    if hops.len() > 0 {
        lemma_head_delay_monotonic(hops.drop_last(), a, b);
        lemma_length_monotonic(hops.last().bandwidth.0, a, b);
    }
}

/// Propagation delays add up to nothing negative.
pub proof fn lemma_prop_delay_nonnegative(hops: Seq<BasicChannel>)
    ensures
        prop_delay(hops) >= 0,
    decreases hops.len(),
{
    if hops.len() > 0 {
        lemma_prop_delay_nonnegative(hops.drop_last());
    }
}

/// No bytes take no time on any hop.
pub proof fn lemma_head_delay_empty(hops: Seq<BasicChannel>)
    ensures
        head_delay(hops, 0) == 0,
    decreases hops.len(),
{
    if hops.len() > 0 {
        lemma_head_delay_empty(hops.drop_last());
        let bandwidth = hops.last().bandwidth.0;
        if bandwidth > 0 {
            vstd::arithmetic::div_mod::lemma_basic_div(bandwidth as int, 2 * bandwidth);
        }
    }
}

/// A flow without bytes takes the propagation delays of the hops and
/// nothing more, whatever their bandwidths.
pub proof fn lemma_ideal_fct_empty(hops: Seq<BasicChannel>)
    ensures
        spec_ideal_fct(0, hops) == prop_delay(hops),
{
    lemma_head_delay_empty(hops);
    let slowest = min_bandwidth(hops);
    if slowest > 0 {
        vstd::arithmetic::div_mod::lemma_basic_div(slowest as int, 2 * slowest);
    }
}

/// The ideal completion time grows with the size of the flow: on one path,
/// a flow takes no less time than a smaller one.
pub proof fn lemma_ideal_fct_monotonic(small: u64, large: u64, hops: Seq<BasicChannel>)
    requires
        small <= large,
    ensures
        0 <= spec_ideal_fct(small, hops) <= spec_ideal_fct(large, hops),
        saturate(spec_ideal_fct(small, hops)) <= saturate(spec_ideal_fct(large, hops)),
{
    lemma_head_delay_monotonic(hops, head_size(small), head_size(large));
    lemma_rest_delay_monotonic(min_bandwidth(hops), rest_size(small), rest_size(large));
    lemma_prop_delay_nonnegative(hops);
}

/// Computes the completion time of a flow of `size` bytes on an unloaded
/// path of one hop or more. The result stops at the largest `u64`, which it
/// is where bytes must cross a hop without bandwidth; a flow without bytes
/// takes the propagation delays of the hops.
#[verifier::rlimit(50)]
pub fn ideal_fct<T: Channel>(size: Bytes, hops: &[T]) -> (r: Nanosecs)
    requires
        hops@.len() > 0,
    ensures
        r.0 == saturate(spec_ideal_fct(size.0, basics_of(hops@))),
{
    let ghost basics = basics_of(hops@);
    let sz_head: u64 = if size.0 == 0 {
        0
    } else if size.0 < SZ_PKTMAX {
        size.0 + SZ_PKTHDR
    } else {
        SZ_PKTMAX + SZ_PKTHDR
    };
    let sz_rest: u64 = if size.0 < SZ_PKTMAX {
        0
    } else {
        size.0 - SZ_PKTMAX
    };
    let mut min_bw: u64 = u64::MAX;
    let mut head: u64 = 0;
    let mut prop: u64 = 0;
    let mut i: usize = 0;
    proof {
        assert(basics.take(0) =~= Seq::<BasicChannel>::empty());
    }
    while i < hops.len()
        invariant
            i <= hops@.len(),
            basics == basics_of(hops@),
            sz_head == head_size(size.0),
            min_bw == min_bandwidth(basics.take(i as int)),
            head == saturate(head_delay(basics.take(i as int), sz_head as int)),
            prop == saturate(prop_delay(basics.take(i as int))),
            0 <= head_delay(basics.take(i as int), sz_head as int),
            0 <= prop_delay(basics.take(i as int)),
        decreases hops@.len() - i,
    {
        let bw = hops[i].bandwidth();
        let delay = hops[i].delay();
        proof {
            assert(basics[i as int] == basic_of(hops@[i as int]));
            assert(basics.take(i + 1).drop_last() =~= basics.take(i as int));
            assert(basics.take(i + 1).last() == basics[i as int]);
            lemma_length_monotonic(bw.0, 0, sz_head as int);
        }
        if bw.0 < min_bw {
            min_bw = bw.0;
        }
        let len = bw.length(Bytes(sz_head));
        head = head.saturating_add(len.0);
        prop = prop.saturating_add(delay.0);
        i += 1;
    }
    proof {
        assert(basics.take(i as int) =~= basics);
        lemma_length_monotonic(min_bw, 0, 1048);
        lemma_length_monotonic(min_bw, 0, partial_size(sz_rest as int));
    }
    let slowest = BitsPerSec(min_bw);
    let nr_full: u64 = sz_rest / SZ_PKTMAX;
    let partial: u64 = sz_rest % SZ_PKTMAX;
    let sz_partial: u64 = if partial == 0 {
        0
    } else {
        partial + SZ_PKTHDR
    };
    let full_len = slowest.length(Bytes(SZ_PKTMAX + SZ_PKTHDR));
    let partial_len = slowest.length(Bytes(sz_partial));
    let ghost full = length_of(min_bw, 1048);
    proof {
        assert(nr_full * full >= 0) by (nonlinear_arith)
            requires
                nr_full >= 0,
                full >= 0,
        ;
        assert(nr_full * full_len.0 <= 0xffff_ffff_ffff_ffff * 0xffff_ffff_ffff_ffff)
            by (nonlinear_arith)
            requires
                nr_full <= 0xffff_ffff_ffff_ffff,
                full_len.0 <= 0xffff_ffff_ffff_ffff,
        ;
        if full > u64::MAX && nr_full > 0 {
            assert(nr_full * full >= full) by (nonlinear_arith)
                requires
                    nr_full >= 1,
                    full >= 0,
            ;
            assert(nr_full * full_len.0 >= full_len.0) by (nonlinear_arith)
                requires
                    nr_full >= 1,
                    full_len.0 >= 0,
            ;
        }
    }
    let product: u128 = (nr_full as u128) * (full_len.0 as u128);
    let fulls: u64 = if product > u64::MAX as u128 {
        u64::MAX
    } else {
        product as u64
    };
    assert(fulls == saturate(nr_full * full));
    let rest = fulls.saturating_add(partial_len.0);
    let total = head.saturating_add(rest).saturating_add(prop);
    Nanosecs(total)
}

/// The bytes that are in flight on a line of `bandwidth` with a delay of
/// `delay`: the bandwidth in bytes per nanosecond times the delay, rounded to
/// the nearest byte.
pub open spec fn spec_bdp(bandwidth: Gbps, delay: Nanosecs) -> int {
    div_round(bandwidth.0 * delay.0, 8)
}

/// Computes the product of bandwidth and delay in bytes, cut off at the
/// largest `u64`.
pub fn bdp(bandwidth: Gbps, delay: Nanosecs) -> (r: Bytes)
    ensures
        r.0 == saturate(spec_bdp(bandwidth, delay)),
{
    assert(0 <= bandwidth.0 * delay.0 <= 0xffff_ffff_ffff_ffff * 0xffff_ffff_ffff_ffff)
        by (nonlinear_arith)
        requires
            0 <= bandwidth.0 <= 0xffff_ffff_ffff_ffff,
            0 <= delay.0 <= 0xffff_ffff_ffff_ffff,
    ;
    let product: u128 = (bandwidth.0 as u128) * (delay.0 as u128);
    let half: u128 = if product % 8 >= 4 {
        1
    } else {
        0
    };
    let q: u128 = product / 8 + half;
    proof {
        let p = bandwidth.0 * delay.0;
        assert(product == p);
        vstd::arithmetic::div_mod::lemma_fundamental_div_mod(p, 8);
        vstd::arithmetic::div_mod::lemma_fundamental_div_mod_converse(
            2 * p + 8,
            16,
            p / 8 + half,
            2 * (p % 8) + 8 - 16 * half,
        );
    }
    if q > u64::MAX as u128 {
        Bytes(u64::MAX)
    } else {
        Bytes(q as u64)
    }
}

/// What is left of `count` waiting bytes after `rounds` intervals, each of
/// which carries at most `cap` bytes.
pub open spec fn left_after(count: int, cap: int, rounds: int) -> int {
    if count > rounds * cap {
        count - rounds * cap
    } else {
        0
    }
}

/// The bytes that are offered in each of `rounds` intervals where `count`
/// bytes wait at first: every interval is offered what is left, as far as
/// it can carry it.
pub open spec fn drained(count: int, cap: int, rounds: int) -> Seq<int> {
    Seq::new(
        rounds as nat,
        |j: int|
            if left_after(count, cap, j) < cap {
                left_after(count, cap, j)
            } else {
                cap
            },
    )
}

/// The number of intervals that end before a flow that starts at `start` is
/// counted, where the current interval ends at `next`: none if the flow
/// starts before that, and else as many as it takes for an interval to end
/// after the start.
pub open spec fn rounds_until(start: int, next: int, interval: int) -> int {
    if start >= next {
        (start - next) / interval + 1
    } else {
        0
    }
}

/// The state of the count after the flows `flows`: the bytes that were
/// offered in the intervals that have ended, the bytes that wait, and the
/// end of the current interval. Every flow ends the intervals that end at or
/// before its start, and then adds its bytes to those that wait.
pub open spec fn backlog(flows: Seq<Flow>, interval: int, cap: int) -> (Seq<int>, int, int)
    decreases flows.len(),
{
    if flows.len() == 0 {
        (Seq::empty(), 0, interval)
    } else {
        let before = backlog(flows.drop_last(), interval, cap);
        let rounds = rounds_until(flows.last().start.0 as int, before.2, interval);
        (
            before.0 + drained(before.1, cap, rounds),
            left_after(before.1, cap, rounds) + flows.last().size.0,
            before.2 + rounds * interval,
        )
    }
}

/// The bytes that the flows offer to a line in every interval of length
/// `interval`, of which each carries at most `cap` bytes: what an interval
/// cannot carry waits for the next, and after the last flow the intervals go
/// on until nothing waits.
pub open spec fn spec_offered(flows: Seq<Flow>, interval: int, cap: int) -> Seq<int> {
    let state = backlog(flows, interval, cap);
    state.0 + drained(state.1, cap, (state.1 + cap - 1) / cap)
}

/// One more interval is offered what the intervals before it left, and
/// leaves the rest.
pub proof fn lemma_drained_step(count: int, cap: int, rounds: int)
    requires
        count >= 0,
        cap > 0,
        rounds >= 0,
    ensures
        drained(count, cap, rounds + 1) == drained(count, cap, rounds).push(
            if left_after(count, cap, rounds) < cap {
                left_after(count, cap, rounds)
            } else {
                cap
            },
        ),
        left_after(count, cap, rounds + 1) == if left_after(count, cap, rounds) < cap {
            0
        } else {
            left_after(count, cap, rounds) - cap
        },
        left_after(count, cap, rounds) <= count,
{
    assert((rounds + 1) * cap == rounds * cap + cap) by (nonlinear_arith);
    assert(rounds * cap >= 0) by (nonlinear_arith)
        requires
            rounds >= 0,
            cap > 0,
    ;
    assert(drained(count, cap, rounds + 1) =~= drained(count, cap, rounds).push(
        if left_after(count, cap, rounds) < cap {
            left_after(count, cap, rounds)
        } else {
            cap
        },
    ));
}

/// Computes the bytes that the flows offer, in every interval of length
/// `interval`, to a line of `bandwidth`, which carries in an interval the
/// product of its bandwidth and the interval. The flows are counted in the
/// order in which they are given.
///
/// The interval must not be empty, and the line must carry something in it.
pub fn offered_bytes(bandwidth: Gbps, interval: Nanosecs, flows: &[Flow]) -> (r: Vec<Bytes>)
    requires
        interval.0 > 0,
        saturate(spec_bdp(bandwidth, interval)) > 0,
    ensures
        r@.map_values(|b: Bytes| b.0 as int) == spec_offered(
            flows@,
            interval.0 as int,
            saturate(spec_bdp(bandwidth, interval)) as int,
        ),
{
    let cap: u64 = bdp(bandwidth, interval).0;
    let step: u128 = interval.0 as u128;
    let mut loads: Vec<Bytes> = Vec::new();
    let mut count: u128 = 0;
    let mut next: u128 = step;
    let mut i: usize = 0;
    proof {
        assert(flows@.take(0) =~= Seq::<Flow>::empty());
        assert(loads@.map_values(|b: Bytes| b.0 as int) =~= Seq::<int>::empty());
    }
    while i < flows.len()
        invariant
            i <= flows@.len(),
            cap > 0,
            step == interval.0,
            step > 0,
            cap == saturate(spec_bdp(bandwidth, interval)),
            count <= i * 0xffff_ffff_ffff_ffff,
            next <= 0xffff_ffff_ffff_ffff + step,
            (loads@.map_values(|b: Bytes| b.0 as int), count as int, next as int) == backlog(
                flows@.take(i as int),
                step as int,
                cap as int,
            ),
        decreases flows@.len() - i,
    {
        let flow = flows[i];
        let start: u128 = flow.start.0 as u128;
        let ghost before = backlog(flows@.take(i as int), step as int, cap as int);
        let ghost mut k: int = 0;
        proof {
            assert(drained(before.1, cap as int, 0) =~= Seq::<int>::empty());
            assert(before.0 + drained(before.1, cap as int, 0) =~= before.0);
            assert(0 * (cap as int) == 0);
            assert(0 * (step as int) == 0);
        }
        while start >= next
            invariant
                cap > 0,
                0 < step <= 0xffff_ffff_ffff_ffff,
                start <= 0xffff_ffff_ffff_ffff,
                k >= 0,
                before.1 >= 0,
                loads@.map_values(|b: Bytes| b.0 as int) == before.0 + drained(
                    before.1,
                    cap as int,
                    k,
                ),
                count == left_after(before.1, cap as int, k),
                next == before.2 + k * step,
                next <= 0xffff_ffff_ffff_ffff + step,
                k == 0 || start >= before.2 + (k - 1) * step,
            decreases start + step - next,
        {
            let offered: u64 = if count < cap as u128 {
                count as u64
            } else {
                cap
            };
            proof {
                lemma_drained_step(before.1, cap as int, k);
                assert((k + 1) * step == k * step + step) by (nonlinear_arith);
                assert(loads@.push(Bytes(offered)).map_values(|b: Bytes| b.0 as int)
                    =~= loads@.map_values(|b: Bytes| b.0 as int).push(offered as int));
                assert(before.0 + drained(before.1, cap as int, k).push(offered as int) =~= (
                before.0 + drained(before.1, cap as int, k)).push(offered as int));
                k = k + 1;
            }
            count = count - offered as u128;
            next = next + step;
            loads.push(Bytes(offered));
        }
        proof {
            let rounds = rounds_until(start as int, before.2, step as int);
            assert(k == rounds) by {
                if k > 0 {
                    let r = start - before.2 - (k - 1) * step;
                    assert(k * step == (k - 1) * step + step) by (nonlinear_arith);
                    vstd::arithmetic::div_mod::lemma_fundamental_div_mod_converse(
                        start - before.2,
                        step as int,
                        k - 1,
                        r,
                    );
                }
            }
            lemma_drained_step(before.1, cap as int, k);
            assert(flows@.take(i + 1).drop_last() =~= flows@.take(i as int));
            assert(flows@.take(i + 1).last() == flow);
            assert((i + 1) * 0xffff_ffff_ffff_ffff == i * 0xffff_ffff_ffff_ffff
                + 0xffff_ffff_ffff_ffff) by (nonlinear_arith);
            assert(i * 0xffff_ffff_ffff_ffff <= 0xffff_ffff_ffff_ffff * 0xffff_ffff_ffff_ffff)
                by (nonlinear_arith)
                requires
                    0 <= i <= 0xffff_ffff_ffff_ffff,
            ;
        }
        count = count + flow.size.0 as u128;
        i += 1;
    }
    let ghost state = backlog(flows@, step as int, cap as int);
    let ghost mut k: int = 0;
    proof {
        assert(flows@.take(i as int) =~= flows@);
        assert(drained(state.1, cap as int, 0) =~= Seq::<int>::empty());
        assert(state.0 + drained(state.1, cap as int, 0) =~= state.0);
        assert(0 * (cap as int) == 0);
    }
    while count > 0
        invariant
            cap > 0,
            k >= 0,
            state.1 >= 0,
            loads@.map_values(|b: Bytes| b.0 as int) == state.0 + drained(state.1, cap as int, k),
            count == left_after(state.1, cap as int, k),
            k == 0 || left_after(state.1, cap as int, k - 1) > 0,
        decreases count,
    {
        let offered: u64 = if count < cap as u128 {
            count as u64
        } else {
            cap
        };
        proof {
            lemma_drained_step(state.1, cap as int, k);
            assert(loads@.push(Bytes(offered)).map_values(|b: Bytes| b.0 as int)
                =~= loads@.map_values(|b: Bytes| b.0 as int).push(offered as int));
            assert(state.0 + drained(state.1, cap as int, k).push(offered as int) =~= (state.0
                + drained(state.1, cap as int, k)).push(offered as int));
            k = k + 1;
        }
        count = count - offered as u128;
        loads.push(Bytes(offered));
    }
    proof {
        let c = cap as int;
        assert(k == (state.1 + c - 1) / c) by {
            if k == 0 {
                assert(0 * c == 0);
                vstd::arithmetic::div_mod::lemma_basic_div(state.1 + c - 1, c);
            } else {
                assert(k * c == (k - 1) * c + c) by (nonlinear_arith);
                let r = state.1 + c - 1 - k * c;
                vstd::arithmetic::div_mod::lemma_fundamental_div_mod_converse(
                    state.1 + c - 1,
                    c,
                    k,
                    r,
                );
            }
        }
    }
    loads
}

} // verus!
