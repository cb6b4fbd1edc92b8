//! A network whose channels carry distributions of delay, and the queries
//! that it answers.

use crate::edist::{EDist, PktNormDelay};
use crate::limbs::{lemma_value_bound, lemma_value_push, minus, plus, radix, times, value};
use crate::network::topology::{basic_of, Topology};
use crate::network::types::{BasicChannel, Channel, EDistChannel, Link, Node, NodeId};
use crate::network::{edge_between, edges_along, lemma_adjacent_symmetric, routes_fit};
use crate::random::choose_one;
use crate::routing::{adjacent, BfsRoutes, RoutingAlgo};
use crate::units::{packets_of, saturate, Bytes, Nanosecs};
use crate::utils::{ideal_fct, spec_ideal_fct};
use rand::rngs::StdRng;
use vstd::prelude::*;

verus! {

/// Whether the way from `src` through `visited` follows the routes towards
/// `dst` and ends there: every node on it is one of the hops that the routes
/// offer at the node before it.
pub open spec fn is_route<R: RoutingAlgo>(
    routes: &R,
    src: NodeId,
    dst: NodeId,
    visited: Seq<NodeId>,
) -> bool {
    &&& visited.len() > 0
    &&& visited.last() == dst
    &&& follows(routes, src, dst, visited)
}

/// The node before the node at position `i` of a way that starts at `src`.
pub open spec fn node_before(src: NodeId, visited: Seq<NodeId>, i: int) -> NodeId {
    if i == 0 {
        src
    } else {
        visited[i - 1]
    }
}

/// Whether every node of the way from `src` through `visited` is one of the
/// hops towards `dst` that the routes offer at the node before it, which is
/// not `dst` itself.
pub open spec fn follows<R: RoutingAlgo>(
    routes: &R,
    src: NodeId,
    dst: NodeId,
    visited: Seq<NodeId>,
) -> bool {
    forall|i: int|
        0 <= i < visited.len() ==> {
            &&& #[trigger] node_before(src, visited, i) != dst
            &&& routes.hops(node_before(src, visited, i), dst) is Some
            &&& routes.hops(node_before(src, visited, i), dst)->0.contains(visited[i])
        }
}

/// Whether the routes lead from `src` to `dst` in fewer than `n` hops,
/// whichever hops are taken: every way from `src` that follows the routes
/// towards `dst` and has not arrived there has fewer than `n` hops, and the
/// routes offer a hop at its end.
pub open spec fn leads<R: RoutingAlgo>(routes: &R, n: nat, src: NodeId, dst: NodeId) -> bool {
    forall|visited: Seq<NodeId>|
        #[trigger] follows(routes, src, dst, visited) && node_before(
            src,
            visited,
            visited.len() as int,
        ) != dst ==> {
            &&& visited.len() < n
            &&& routes.hops(node_before(src, visited, visited.len() as int), dst) is Some
            &&& routes.hops(node_before(src, visited, visited.len() as int), dst)->0.len() > 0
        }
}

/// The way that visits nothing follows the routes.
pub proof fn lemma_follows_nothing<R: RoutingAlgo>(routes: &R, src: NodeId, dst: NodeId)
    ensures
        follows(routes, src, dst, Seq::empty()),
{
}

/// Every node of a way that follows the routes is a hop that the routes
/// offer at the node before it.
pub proof fn lemma_follows_at<R: RoutingAlgo>(
    routes: &R,
    src: NodeId,
    dst: NodeId,
    visited: Seq<NodeId>,
    i: int,
)
    requires
        follows(routes, src, dst, visited),
        0 <= i < visited.len(),
    ensures
        node_before(src, visited, i) != dst,
        routes.hops(node_before(src, visited, i), dst) is Some,
        routes.hops(node_before(src, visited, i), dst)->0.contains(visited[i]),
{
}

/// A way that follows the routes still does so after one more hop that the
/// routes offer at its end.
pub proof fn lemma_follows_push<R: RoutingAlgo>(
    routes: &R,
    src: NodeId,
    dst: NodeId,
    visited: Seq<NodeId>,
    next: NodeId,
)
    requires
        follows(routes, src, dst, visited),
        node_before(src, visited.push(next), visited.len() as int) != dst,
        routes.hops(node_before(src, visited.push(next), visited.len() as int), dst) is Some,
        routes.hops(node_before(src, visited.push(next), visited.len() as int), dst)->0.contains(
            next,
        ),
    ensures
        follows(routes, src, dst, visited.push(next)),
{
    let after = visited.push(next);
    assert forall|i: int| 0 <= i < after.len() implies {
        &&& #[trigger] node_before(src, after, i) != dst
        &&& routes.hops(node_before(src, after, i), dst) is Some
        &&& routes.hops(node_before(src, after, i), dst)->0.contains(after[i])
    } by {
        if i < visited.len() {
            assert(after[i] == visited[i]);
            assert(node_before(src, after, i) == node_before(src, visited, i));
        }
    }
}

/// Whether the sample is a delay over no packets that a flow with packets
/// meets: such a delay per packet is endless.
pub open spec fn endless(sample: PktNormDelay, nr_pkts: u64) -> bool {
    sample.nr_pkts == 0 && sample.delay.0 != 0 && nr_pkts != 0
}

/// Whether one of the samples is endless for a flow of `nr_pkts` packets.
pub open spec fn any_endless(samples: Seq<PktNormDelay>, nr_pkts: u64) -> bool {
    exists|i: int| 0 <= i < samples.len() && endless(#[trigger] samples[i], nr_pkts)
}

/// The number of packets by which the sample divides its delay; one for a
/// sample over no packets, which is not divided.
pub open spec fn divisor(sample: PktNormDelay) -> int {
    if sample.nr_pkts == 0 {
        1
    } else {
        sample.nr_pkts as int
    }
}

/// The delay of the sample times `nr_pkts`, which its packets divide;
/// nothing for a sample over no packets.
pub open spec fn dividend(sample: PktNormDelay, nr_pkts: u64) -> int {
    if sample.nr_pkts == 0 {
        0
    } else {
        sample.delay.0 * nr_pkts
    }
}

/// The common denominator of the delays per packet `samples`: the product
/// of their numbers of packets.
pub open spec fn common_packets(samples: Seq<PktNormDelay>) -> int
    decreases samples.len(),
{
    if samples.len() == 0 {
        1
    } else {
        common_packets(samples.drop_last()) * divisor(samples.last())
    }
}

/// The sum of the delays per packet `samples`, each times `nr_pkts`, over
/// their common denominator.
pub open spec fn summed_delays(samples: Seq<PktNormDelay>, nr_pkts: u64) -> int
    decreases samples.len(),
{
    if samples.len() == 0 {
        0
    } else {
        summed_delays(samples.drop_last(), nr_pkts) * divisor(samples.last()) + dividend(
            samples.last(),
            nr_pkts,
        ) * common_packets(samples.drop_last())
    }
}

/// The delay that a flow of `nr_pkts` packets meets in all, where it meets
/// the delays per packet `samples` on the channels of its path: the sum of
/// the delays per packet times the number of packets, rounded down once. It
/// is the largest `u64` where one of the samples is endless.
pub open spec fn total_scaled(samples: Seq<PktNormDelay>, nr_pkts: u64) -> int {
    if any_endless(samples, nr_pkts) {
        u64::MAX as int
    } else {
        summed_delays(samples, nr_pkts) / common_packets(samples)
    }
}

/// The common denominator is no less than one.
pub proof fn lemma_common_packets_positive(samples: Seq<PktNormDelay>)
    ensures
        common_packets(samples) >= 1,
    decreases samples.len(),
{
    if samples.len() > 0 {
        lemma_common_packets_positive(samples.drop_last());
        assert(common_packets(samples.drop_last()) * divisor(samples.last()) >= 1)
            by (nonlinear_arith)
            requires
                common_packets(samples.drop_last()) >= 1,
                divisor(samples.last()) >= 1,
        ;
    }
}

/// The delay in all is the one number `q` for which `q` times the common
/// denominator is at most the sum of the delays and `q + 1` times the
/// common denominator is more.
pub proof fn lemma_total_scaled_floor(samples: Seq<PktNormDelay>, nr_pkts: u64, q: int)
    requires
        !any_endless(samples, nr_pkts),
        q * common_packets(samples) <= summed_delays(samples, nr_pkts) < (q + 1) * common_packets(
            samples,
        ),
    ensures
        total_scaled(samples, nr_pkts) == q,
{
    let den = common_packets(samples);
    lemma_common_packets_positive(samples);
    assert((q + 1) * den == q * den + den) by (nonlinear_arith);
    vstd::arithmetic::div_mod::lemma_fundamental_div_mod_converse(
        summed_delays(samples, nr_pkts),
        den,
        q,
        summed_delays(samples, nr_pkts) - q * den,
    );
}

/// Returns the delay that a flow of `size` bytes meets in all, where it
/// meets the delays per packet `samples` on the channels of its path: the
/// delays per packet are added up as fractions, the sum is taken times the
/// packets of the flow, and only the result is rounded down. The result
/// stops at the largest `u64`.
#[verifier::rlimit(100)]
pub fn delay_of(size: Bytes, samples: &[PktNormDelay]) -> (r: Nanosecs)
    ensures
        r.0 == saturate(total_scaled(samples@, packets_of(size.0 as int) as u64)),
{
    let nr_pkts = size.nr_packets();
    // The sum so far is `whole` and the fraction `part` over `packets`.
    let mut whole: u64 = 0;
    let mut part: Vec<u64> = Vec::new();
    let mut packets: Vec<u64> = Vec::new();
    part.push(0);
    packets.push(1);
    let mut stuck = false;
    let ghost mut exact: int = 0;
    let mut i: usize = 0;
    proof {
        assert(samples@.take(0) =~= Seq::<PktNormDelay>::empty());
        lemma_value_push(Seq::<u64>::empty(), 0);
        lemma_value_push(Seq::<u64>::empty(), 1);
        assert(part@ =~= Seq::<u64>::empty().push(0));
        assert(packets@ =~= Seq::<u64>::empty().push(1));
        assert(radix(0) == 1);
        assert(exact * value(packets@) == 0) by (nonlinear_arith)
            requires
                exact == 0,
        ;
    }
    while i < samples.len()
        invariant
            i <= samples@.len(),
            nr_pkts == packets_of(size.0 as int),
            part@.len() == packets@.len(),
            value(packets@) == common_packets(samples@.take(i as int)),
            0 <= value(part@) < value(packets@),
            0 <= exact,
            summed_delays(samples@.take(i as int), nr_pkts) == exact * value(packets@) + value(
                part@,
            ),
            whole == saturate(exact),
            stuck == any_endless(samples@.take(i as int), nr_pkts),
        decreases samples@.len() - i,
    {
        let sample = samples[i];
        let ghost before = samples@.take(i as int);
        let ghost now = samples@.take(i + 1);
        proof {
            assert(now.drop_last() =~= before);
            assert(now.last() == sample);
            assert(any_endless(now, nr_pkts) == (any_endless(before, nr_pkts) || endless(
                sample,
                nr_pkts,
            ))) by {
                if any_endless(before, nr_pkts) {
                    let k = choose|k: int| 0 <= k < before.len() && endless(#[trigger] before[k], nr_pkts);
                    assert(endless(now[k], nr_pkts));
                }
                if endless(sample, nr_pkts) {
                    assert(endless(now[i as int], nr_pkts));
                }
                if any_endless(now, nr_pkts) {
                    let k = choose|k: int| 0 <= k < now.len() && endless(#[trigger] now[k], nr_pkts);
                    if k < i {
                        assert(endless(before[k], nr_pkts));
                    }
                }
            }
        }
        if sample.nr_pkts == 0 {
            if sample.delay.0 != 0 && nr_pkts != 0 {
                stuck = true;
            }
            proof {
                let d = common_packets(before);
                let n = summed_delays(before, nr_pkts);
                assert(d * 1 == d && n * 1 + 0 * d == n) by (nonlinear_arith);
            }
        } else {
            let p = sample.nr_pkts;
            assert(sample.delay.0 * nr_pkts <= 0xffff_ffff_ffff_ffff * 0xffff_ffff_ffff_ffff)
                by (nonlinear_arith)
                requires
                    0 <= sample.delay.0 <= 0xffff_ffff_ffff_ffff,
                    0 <= nr_pkts <= 0xffff_ffff_ffff_ffff,
            ;
            let scaled: u128 = (sample.delay.0 as u128) * (nr_pkts as u128);
            let quotient: u128 = scaled / (p as u128);
            let rest: u64 = (scaled % (p as u128)) as u64;
            let ghost old_part = value(part@);
            let ghost old_packets = value(packets@);
            let part_scaled = times(&part, p);
            let rest_scaled = times(&packets, rest);
            let sum = plus(&part_scaled, &rest_scaled);
            let mut all = times(&packets, p);
            proof {
                lemma_value_push(all@, 0);
                assert(0 * radix(all@.len()) == 0);
            }
            all.push(0);
            proof {
                vstd::arithmetic::div_mod::lemma_fundamental_div_mod(scaled as int, p as int);
                assert(value(all@) == old_packets * p);
                assert(value(sum@) == old_part * p + old_packets * rest);
                assert(0 <= old_part * p + old_packets * rest < 2 * (old_packets * p))
                    by (nonlinear_arith)
                    requires
                        0 <= old_part < old_packets,
                        0 <= rest < p,
                ;
                assert(summed_delays(now, nr_pkts) == (exact + quotient) * (old_packets * p) + (
                old_part * p + old_packets * rest)) by (nonlinear_arith)
                    requires
                        summed_delays(now, nr_pkts) == summed_delays(before, nr_pkts) * p + scaled
                            * old_packets,
                        summed_delays(before, nr_pkts) == exact * old_packets + old_part,
                        scaled == p * quotient + rest,
                ;
            }
            let extra: u128 = match minus(&sum, &all) {
                Some(left) => {
                    part = left;
                    1
                },
                None => {
                    part = sum;
                    0
                },
            };
            packets = all;
            proof {
                lemma_value_bound(part@);
                assert(extra * value(packets@) == if extra == 1 {
                    value(packets@)
                } else {
                    0
                }) by (nonlinear_arith)
                    requires
                        extra == 0 || extra == 1,
                ;
                assert(summed_delays(now, nr_pkts) == (exact + quotient + extra) * value(
                    packets@,
                ) + value(part@)) by (nonlinear_arith)
                    requires
                        summed_delays(now, nr_pkts) == (exact + quotient) * (old_packets * p) + (
                        old_part * p + old_packets * rest),
                        value(packets@) == old_packets * p,
                        value(part@) == old_part * p + old_packets * rest - extra * value(
                            packets@,
                        ),
                ;
                exact = exact + quotient + extra;
            }
            let step: u128 = if quotient >= 0xffff_ffff_ffff_ffff {
                0xffff_ffff_ffff_ffff
            } else {
                quotient + extra
            };
            let total: u128 = whole as u128 + step;
            whole = if total > 0xffff_ffff_ffff_ffff {
                u64::MAX
            } else {
                total as u64
            };
        }
        i += 1;
    }
    proof {
        assert(samples@.take(i as int) =~= samples@);
        vstd::arithmetic::div_mod::lemma_fundamental_div_mod_converse(
            summed_delays(samples@, nr_pkts),
            common_packets(samples@),
            exact,
            value(part@),
        );
    }
    if stuck {
        Nanosecs(u64::MAX)
    } else {
        Nanosecs(whole)
    }
}

/// A network in which every channel carries distributions of delay,
/// bucketed by flow size.
pub struct DelayNetwork<R = BfsRoutes> {
    pub topology: Topology<EDistChannel>,
    pub routes: R,
}

impl<R: RoutingAlgo> DelayNetwork<R> {
    /// The topology is well formed and the routes lead along its channels.
    pub open spec fn wf(&self) -> bool {
        &&& self.topology.wf()
        &&& routes_fit(&self.routes, &self.topology)
    }

    /// Whether every channel has a bucket for `size`.
    pub open spec fn all_cover(&self, size: Bytes) -> bool {
        forall|e: int|
            0 <= e < self.topology.channels@.len() ==> (#[trigger] self.topology.channels@[e]).dists.covers(
                size,
            )
    }

    /// Whether every channel along every way that follows the routes from
    /// `src` to `dst` has a bucket for `size`.
    pub open spec fn routes_cover(&self, size: Bytes, src: NodeId, dst: NodeId) -> bool {
        forall|visited: Seq<NodeId>, i: int|
            is_route(&self.routes, src, dst, visited) && 0 <= i < visited.len()
                ==> self.topology.channels@[(#[trigger] edges_along(
                self.topology.edges(),
                src,
                visited,
            )[i]) as int].dists.covers(size)
    }

    /// Whether no channel has a bucket for `size`.
    pub open spec fn none_covers(&self, size: Bytes) -> bool {
        forall|e: int|
            0 <= e < self.topology.channels@.len() ==> !(#[trigger] self.topology.channels@[e]).dists.covers(
                size,
            )
    }

    /// Whether `samples` can be drawn for a flow of `size` bytes on the
    /// channels `path`: every channel has a bucket for the size, and the
    /// sample for a channel is one of the samples of that bucket, or a delay
    /// of zero where the bucket has none.
    pub open spec fn drawn_along(
        &self,
        size: Bytes,
        path: Seq<usize>,
        samples: Seq<PktNormDelay>,
    ) -> bool {
        &&& samples.len() == path.len()
        &&& forall|i: int|
            0 <= i < path.len() ==> {
                &&& (#[trigger] path[i]) < self.topology.channels@.len()
                &&& exists|k: int|
                    {
                        &&& crate::seqs::is_first(
                            self.topology.channels@[path[i] as int].dists.inner@.len() as int,
                            self.topology.channels@[path[i] as int].dists.covering(size),
                            k,
                        )
                        &&& drawn_from(
                            self.topology.channels@[path[i] as int].dists.inner@[k].1,
                            samples[i],
                        )
                    }
            }
    }

    /// Walks from `src` towards `dst`, taking at every node one of the hops
    /// at random, and returns the indices of the channels it went along.
    /// Nothing is returned where `src` is `dst`, where a node offers no hop,
    /// or after as many hops as the topology has nodes; so a path is
    /// returned where `src` is not `dst` and the routes lead from the one to
    /// the other.
    #[verifier::rlimit(50)]
    pub fn random_path(&self, src: NodeId, dst: NodeId, rng: &mut StdRng) -> (r: Vec<usize>)
        requires
            self.wf(),
        ensures
            src == dst ==> r@.len() == 0,
            src != dst && leads(&self.routes, self.topology.nodes@.len(), src, dst) ==> r@.len() > 0,
            r@.len() > 0 ==> exists|visited: Seq<NodeId>|
                is_route(&self.routes, src, dst, visited) && r@ == edges_along(
                    self.topology.edges(),
                    src,
                    visited,
                ),
            forall|i: int| 0 <= i < r@.len() ==> (#[trigger] r@[i]) < self.topology.channels@.len(),
    {
        let n = self.topology.nodes.len();
        let ghost edges = self.topology.edges();
        let mut acc: Vec<usize> = Vec::new();
        let mut cur = src;
        let mut fuel = n;
        let ghost mut seen: Seq<NodeId> = Seq::empty();
        proof {
            assert(acc@ =~= edges_along(edges, src, seen));
            self.topology.lemma_edges();
            lemma_follows_nothing(&self.routes, src, dst);
        }
        while cur != dst
            invariant
                self.wf(),
                edges == self.topology.edges(),
                fuel <= n,
                acc@ == edges_along(edges, src, seen),
                cur == if seen.len() == 0 {
                    src
                } else {
                    seen.last()
                },
                forall|i: int| 0 <= i < acc@.len() ==> (#[trigger] acc@[i]) < edges.len(),
                edges.len() == self.topology.channels@.len(),
                follows(&self.routes, src, dst, seen),
                n == self.topology.nodes@.len(),
                fuel + seen.len() == n,
            decreases fuel,
        {
            proof {
                assert(cur == node_before(src, seen, seen.len() as int));
            }
            if fuel == 0 {
                return Vec::new();
            }
            let choices = match self.routes.next_hops(cur, dst) {
                Some(choices) => choices,
                None => {
                    return Vec::new();
                },
            };
            let next = match choose_one(choices.as_slice(), rng) {
                Some(next) => next,
                None => {
                    return Vec::new();
                },
            };
            proof {
                let i = choose|i: int| 0 <= i < choices@.len() && choices@[i] == next;
                assert(self.routes.hops(cur, dst)->0[i] == next);
                assert(adjacent(edges, cur.0, next.0));
                lemma_adjacent_symmetric(&self.topology, cur.0, next.0);
                self.topology.lemma_edges();
            }
            let e = match self.topology.graph.find_edge(cur.0, next.0) {
                Some(e) => e,
                None => {
                    proof {
                        let w = choose|w: int| 0 <= w < edges.len() && edges[w] == (cur.0, next.0);
                        assert(false);
                    }
                    return Vec::new();
                },
            };
            proof {
                assert(e == edge_between(edges, cur.0, next.0)) by {
                    let f = edge_between(edges, cur.0, next.0);
                    assert(e < edges.len() && edges[e as int] == (cur.0, next.0));
                    if f < e {
                        assert(edges[f as int] != edges[e as int]);
                    } else if e < f {
                        assert(edges[e as int] != edges[f as int]);
                    }
                }
                let ghost before = seen;
                seen = seen.push(next);
                assert(acc@.push(e) =~= edges_along(edges, src, seen)) by {
                    assert forall|i: int| 0 <= i < seen.len() implies acc@.push(e)[i]
                        == edges_along(edges, src, seen)[i] by {
                        if i < before.len() {
                            assert(acc@[i] == edges_along(edges, src, before)[i]);
                        }
                    }
                }
                assert(choices@.contains(next));
                lemma_follows_push(&self.routes, src, dst, before, next);
            }
            acc.push(e);
            cur = next;
            fuel -= 1;
        }
        proof {
            if acc@.len() > 0 {
                assert(is_route(&self.routes, src, dst, seen));
            }
            if src == dst {
                if seen.len() > 0 {
                    lemma_follows_at(&self.routes, src, dst, seen, 0);
                }
            }
        }
        acc
    }

    /// Draws, for a flow of `size` bytes, one delay per packet on every
    /// channel of `path`; `None` if a channel has no bucket for the size.
    #[verifier::rlimit(50)]
    pub fn sample_along(&self, size: Bytes, path: &Vec<usize>, rng: &mut StdRng) -> (r: Option<
        Vec<PktNormDelay>,
    >)
        requires
            forall|i: int| 0 <= i < path@.len() ==> (#[trigger] path@[i]) < self.topology.channels@.len(),
        ensures
            match r {
                Some(samples) => self.drawn_along(size, path@, samples@),
                None => exists|i: int|
                    0 <= i < path@.len() && !self.topology.channels@[(#[trigger] path@[i]) as int].dists.covers(
                        size,
                    ),
            },
    {
        let mut samples: Vec<PktNormDelay> = Vec::new();
        let mut i: usize = 0;
        while i < path.len()
            invariant
                i <= path@.len(),
                forall|j: int|
                    0 <= j < path@.len() ==> (#[trigger] path@[j]) < self.topology.channels@.len(),
                self.drawn_along(size, path@.take(i as int), samples@),
            decreases path@.len() - i,
        {
            let chan = &self.topology.channels[path[i]];
            match chan.dists.for_size(size) {
                Some(dist) => {
                    let sample = dist.sample(rng);
                    let ghost before = samples@;
                    samples.push(sample);
                    proof {
                        let now = path@.take(i + 1);
                        assert forall|j: int| 0 <= j < now.len() implies {
                            &&& (#[trigger] now[j]) < self.topology.channels@.len()
                            &&& exists|k: int|
                                {
                                    &&& crate::seqs::is_first(
                                        self.topology.channels@[now[j] as int].dists.inner@.len() as int,
                                        self.topology.channels@[now[j] as int].dists.covering(size),
                                        k,
                                    )
                                    &&& drawn_from(
                                        self.topology.channels@[now[j] as int].dists.inner@[k].1,
                                        samples@[j],
                                    )
                                }
                        } by {
                            if j < i {
                                assert(path@.take(i as int)[j] == now[j]);
                                assert(samples@[j] == before[j]);
                            }
                        }
                    }
                },
                None => {
                    return None;
                },
            }
            i += 1;
        }
        proof {
            assert(path@.take(i as int) =~= path@);
        }
        Some(samples)
    }

    /// Predicts the delay of a flow of `size` bytes from `src` to `dst`: a
    /// path is picked at random among the routes, a delay per packet is
    /// drawn on each of its channels, the delays per packet are added up,
    /// and their sum times the packets of the flow is rounded down.
    ///
    /// There is no prediction where no path leads from `src` to `dst`, or
    /// where a channel of the path has no bucket for the size, as is the
    /// case for every channel that was not simulated. There is one where
    /// `src` is not `dst`, the routes lead from the one to the other, and
    /// every channel along them has a bucket for the size.
    pub fn predict(&self, size: Bytes, endpoints: (NodeId, NodeId), rng: &mut StdRng) -> (r: Option<
        Nanosecs,
    >)
        requires
            self.wf(),
        ensures
            endpoints.0 == endpoints.1 ==> r is None,
            self.none_covers(size) ==> r is None,
            endpoints.0 != endpoints.1 && leads(
                &self.routes,
                self.topology.nodes@.len(),
                endpoints.0,
                endpoints.1,
            ) && (self.all_cover(size) || self.routes_cover(size, endpoints.0, endpoints.1))
                ==> r is Some,
            r matches Some(delay) ==> exists|visited: Seq<NodeId>, samples: Seq<PktNormDelay>|
                {
                    &&& is_route(&self.routes, endpoints.0, endpoints.1, visited)
                    &&& self.drawn_along(
                        size,
                        edges_along(self.topology.edges(), endpoints.0, visited),
                        samples,
                    )
                    &&& delay.0 == saturate(
                        total_scaled(samples, packets_of(size.0 as int) as u64),
                    )
                },
    {
        let path = self.random_path(endpoints.0, endpoints.1, rng);
        if path.len() == 0 {
            return None;
        }
        match self.sample_along(size, &path, rng) {
            Some(samples) => {
                proof {
                    let dists = self.topology.channels@[path@[0] as int].dists;
                    let k = choose|k: int|
                        crate::seqs::is_first(dists.inner@.len() as int, dists.covering(size), k);
                    assert(dists.inner@[k].0.spec_contains(size));
                    assert(dists.covers(size));
                }
                Some(delay_of(size, samples.as_slice()))
            },
            None => {
                proof {
                    let visited = choose|visited: Seq<NodeId>|
                        is_route(&self.routes, endpoints.0, endpoints.1, visited) && path@
                            == edges_along(self.topology.edges(), endpoints.0, visited);
                    let i = choose|i: int|
                        0 <= i < path@.len() && !self.topology.channels@[(
                        #[trigger] path@[i]) as int].dists.covers(size);
                    assert(path@[i] == edges_along(self.topology.edges(), endpoints.0, visited)[i]);
                }
                None
            },
        }
    }

    /// Computes the completion time of a flow of `size` bytes from `src` to
    /// `dst` on an unloaded network, along a path that is picked at random
    /// among the routes; `None` where no path leads from `src` to `dst`.
    pub fn ideal_fct(&self, size: Bytes, endpoints: (NodeId, NodeId), rng: &mut StdRng) -> (r:
        Option<Nanosecs>)
        requires
            self.wf(),
        ensures
            endpoints.0 == endpoints.1 ==> r is None,
            endpoints.0 != endpoints.1 && leads(
                &self.routes,
                self.topology.nodes@.len(),
                endpoints.0,
                endpoints.1,
            ) ==> r is Some,
            r matches Some(fct) ==> exists|visited: Seq<NodeId>|
                {
                    &&& is_route(&self.routes, endpoints.0, endpoints.1, visited)
                    &&& fct.0 == saturate(
                        spec_ideal_fct(
                            size.0,
                            channels_along(
                                self.topology.basics(),
                                edges_along(self.topology.edges(), endpoints.0, visited),
                            ),
                        ),
                    )
                },
    {
        let path = self.random_path(endpoints.0, endpoints.1, rng);
        if path.len() == 0 {
            return None;
        }
        let hops = self.hops_along(&path);
        proof {
            assert(crate::utils::basics_of(hops@) =~= hops@);
        }
        Some(ideal_fct(size, hops.as_slice()))
    }

    /// The channels with the indices `path`, as plain channels.
    pub fn hops_along(&self, path: &Vec<usize>) -> (r: Vec<BasicChannel>)
        requires
            forall|i: int| 0 <= i < path@.len() ==> (#[trigger] path@[i]) < self.topology.channels@.len(),
        ensures
            r@ == channels_along(self.topology.basics(), path@),
    {
        let mut hops: Vec<BasicChannel> = Vec::new();
        let mut i: usize = 0;
        while i < path.len()
            invariant
                i <= path@.len(),
                forall|j: int|
                    0 <= j < path@.len() ==> (#[trigger] path@[j]) < self.topology.channels@.len(),
                hops@.len() == i,
                forall|j: int|
                    0 <= j < i ==> (#[trigger] hops@[j]) == self.topology.basics()[path@[j] as int],
            decreases path@.len() - i,
        {
            let chan = &self.topology.channels[path[i]];
            hops.push(BasicChannel::new(chan.src(), chan.dst(), chan.bandwidth(), chan.delay()));
            i += 1;
        }
        proof {
            assert(hops@ =~= channels_along(self.topology.basics(), path@));
        }
        hops
    }

    /// The nodes of the network, in the order of their identifiers.
    pub fn nodes(&self) -> (r: &[Node])
        ensures
            r@ == self.topology.nodes@,
    {
        self.topology.nodes.as_slice()
    }

    /// The links of the network.
    pub fn links(&self) -> (r: &[Link])
        ensures
            r@ == self.topology.links@,
    {
        self.topology.links.as_slice()
    }
}

/// Whether `sample` can be drawn from `dist`: it is one of its samples, or a
/// delay of zero where there is none.
pub open spec fn drawn_from(dist: EDist, sample: PktNormDelay) -> bool {
    if dist.samples@.len() == 0 {
        sample == (PktNormDelay { delay: Nanosecs(0), nr_pkts: 1 })
    } else {
        dist.samples@.contains(sample)
    }
}

/// The channels with the indices `path`.
pub open spec fn channels_along(channels: Seq<BasicChannel>, path: Seq<usize>) -> Seq<BasicChannel> {
    Seq::new(path.len(), |i: int| channels[path[i] as int])
}

} // verus!
