//! Link scheduler.
//!
//! Weights come from the configured bandwidths or from the rate controller.
//! Flows pinned to a link stay there.  Bulk chunks leave out links whose
//! round-trip time is far from the others', and are spread over the rest by
//! the configured strategy: in proportion to the weights, in turn, on the best
//! link alone, or tier by tier.

use crate::accuracy::{lemma_dyadic_part, lemma_mean_is_close, lemma_part_is_close, lemma_same_fraction, lemma_same_units};
use crate::binary64::{lemma_fraction, lemma_fraction_order, lemma_whole_fraction, lemma_zero_product, Binary64};
use crate::config::{LinkSchedulerConfig, LinkTierConfig};
use crate::flow_classifier::FlowMode;
use crate::measure::{as_mbps, as_millis, blend, blended, greatest, larger, least, lemma_extremes, lemma_extremes_occur, max_of, mbps, millis, min_of, monus,
    scale, scaled, smaller};
use crate::order::{is_stable_order, law_order_is_stable, law_order_keeps_keys, lemma_filter_start, lemma_filter_step, order_of, stable_order};
use crate::share::{checked_sum, first_max, last_max, law_first_max, law_slot_is_proportional, start, lemma_part_of_total, lemma_slot, lemma_start_grows,
    lemma_total_take, pick, position_of_first_max, position_of_last_max, shares_at, slot, sum, total};
use crate::text::{decimal, fixed_text, join, push_decimal, push_fixed, push_joined};
use vstd::prelude::*;

verus! {

/// How long weights are left alone after an adjustment (nanoseconds).
pub const ADJUSTMENT_INTERVAL_NS: u64 = 1_000_000_000;

/// Bandwidth of a link in the absence of configuration: 10 Mbps in bytes/sec.
pub const DEFAULT_BANDWIDTH: u64 = 1_250_000;

/// Link health state.
#[derive(Debug, Clone, Copy, PartialEq, Eq, Structural)]
pub enum LinkHealth {
    Normal,
    /// Delivering less than expected
    Degraded,
}

/// How bulk chunks are spread over the links.
#[derive(Debug, Clone, Copy, PartialEq, Eq, Structural)]
pub enum Strategy {
    /// The links of the highest tier with room, in proportion to their
    /// capacities
    TieredFill,
    /// One link after the other
    RoundRobin,
    /// The link of the greatest weight
    SingleBest,
    /// All links in proportion to their weights
    Weighted,
}

/// The strategy of a name; weighted rounds for any other.
pub open spec fn strategy_of(name: Seq<char>) -> Strategy {
    if name == "tiered_fill"@ {
        Strategy::TieredFill
    } else if name == "round_robin"@ {
        Strategy::RoundRobin
    } else if name == "single_best"@ {
        Strategy::SingleBest
    } else {
        Strategy::Weighted
    }
}

impl Strategy {
    /// The strategy of a name.
    pub fn named(name: &String) -> (r: Strategy)
        ensures
            r == strategy_of(name@),
    {
        if *name == String::from_str("tiered_fill") {
            Strategy::TieredFill
        } else if *name == String::from_str("round_robin") {
            Strategy::RoundRobin
        } else if *name == String::from_str("single_best") {
            Strategy::SingleBest
        } else {
            Strategy::Weighted
        }
    }
}

/// Scheduling decision.
#[derive(Debug, Clone)]
pub struct ScheduleDecision {
    /// Link to send on
    pub link_id: usize,
    /// How long to wait before sending (microseconds)
    pub delay_us: u64,
    /// Links that took part in the choice
    pub participating_links: Vec<usize>,
}

/// Per-link state with throughput tracking.
#[derive(Debug, Clone, Copy)]
pub struct LinkState {
    pub id: usize,
    /// Configured expected bandwidth (bytes/sec), the starting point
    pub configured_bandwidth_bps: u64,
    /// Measured actual bandwidth (bytes/sec)
    pub measured_bandwidth_bps: u64,
    /// Current weight for scheduling
    pub weight: u32,
    /// Bytes sent through this link
    pub bytes_sent: u64,
    /// Bytes acknowledged or measured as received
    pub bytes_delivered: u64,
    /// RTT in microseconds (smoothed)
    pub rtt_us: u64,
    /// Health state
    pub health: LinkHealth,
    /// Last measurement update (nanoseconds)
    pub last_update: u64,
}

/// Weight of a bandwidth: one per Mbps, at least one.
pub open spec fn weight_of(bps: u64) -> u32 {
    (larger((bps / 125_000) as nat, 1) % 0x1_0000_0000) as u32
}

impl LinkState {
    /// A link with its configured bandwidth, nothing measured yet.
    pub open spec fn fresh(id: usize, bandwidth: u64, now_ns: u64) -> LinkState {
        LinkState {
            id,
            configured_bandwidth_bps: bandwidth,
            measured_bandwidth_bps: bandwidth,
            weight: weight_of(bandwidth),
            bytes_sent: 0,
            bytes_delivered: 0,
            rtt_us: 0,
            health: LinkHealth::Normal,
            last_update: now_ns,
        }
    }

    /// The bandwidth to reckon with: measured, or configured before anything
    /// was measured.
    pub open spec fn bandwidth(self) -> u64 {
        if self.measured_bandwidth_bps > 0 {
            self.measured_bandwidth_bps
        } else {
            self.configured_bandwidth_bps
        }
    }

    /// The smoothed round-trip time with one measurement more; zero is none.
    pub open spec fn rtt_with(self, rtt_us: u64) -> u64 {
        if rtt_us == 0 {
            self.rtt_us
        } else if self.rtt_us == 0 {
            rtt_us
        } else {
            blended(Binary64::fraction(125, 1000), rtt_us, self.rtt_us)
        }
    }

    /// The link with one measurement more.
    pub open spec fn measured(self, bandwidth: u64, rtt_us: u64, now_ns: u64) -> LinkState {
        LinkState {
            rtt_us: self.rtt_with(rtt_us),
            measured_bandwidth_bps: if bandwidth == 0 {
                self.measured_bandwidth_bps
            } else if self.measured_bandwidth_bps == 0 {
                bandwidth
            } else {
                blended(Binary64::fraction(3, 10), bandwidth, self.measured_bandwidth_bps)
            },
            bytes_delivered: (self.bytes_delivered + bandwidth) as u64,
            last_update: now_ns,
            ..self
        }
    }

    /// Share of the bytes sent that was delivered, at most one.
    pub open spec fn delivered_share(self) -> Binary64 {
        if self.bytes_sent == 0 {
            Binary64::of_nat(1)
        } else {
            Binary64::of_nat(self.bytes_delivered as nat).quotient(Binary64::of_nat(self.bytes_sent as nat)).lesser(
                Binary64::of_nat(1),
            )
        }
    }

    /// The link at its configured weight.
    pub open spec fn at_configured_weight(self) -> LinkState {
        LinkState { weight: weight_of(self.configured_bandwidth_bps), ..self }
    }

    /// The link in one word: weight and configured weight, measured Mbps, RTT
    /// in ms, health.
    pub open spec fn status_text(self) -> Seq<char> {
        "L"@ + decimal(self.id as nat) + "[w:"@ + decimal(self.weight as nat) + "/"@ + decimal(
            weight_of(self.configured_bandwidth_bps) as nat,
        ) + "|meas:"@ + fixed_text(mbps(Binary64::of_nat(self.measured_bandwidth_bps as nat)), 0) + "Mbps|"@
            + fixed_text(millis(self.rtt_us as nat), 1) + "ms|"@ + (match self.health {
            LinkHealth::Normal => "OK"@,
            LinkHealth::Degraded => "DEG"@,
        }) + "]"@
    }

    fn status(&self) -> (r: String)
        ensures
            r@ == self.status_text(),
    {
        let mut r: String = String::from_str("L");
        push_decimal(&mut r, self.id as u64);
        r.append("[w:");
        push_decimal(&mut r, self.weight as u64);
        r.append("/");
        push_decimal(&mut r, Self::bandwidth_to_weight(self.configured_bandwidth_bps) as u64);
        r.append("|meas:");
        push_fixed(&mut r, as_mbps(Binary64::from_u64(self.measured_bandwidth_bps)), 0);
        r.append("Mbps|");
        push_fixed(&mut r, as_millis(self.rtt_us), 1);
        r.append("ms|");
        r.append(
            match self.health {
                LinkHealth::Normal => "OK",
                LinkHealth::Degraded => "DEG",
            },
        );
        r.append("]");
        r
    }

    /// A link with its configured bandwidth.
    pub fn new(id: usize, configured_bandwidth_bps: u64, now_ns: u64) -> (r: LinkState)
        ensures
            r == Self::fresh(id, configured_bandwidth_bps, now_ns),
    {
        let weight: u32 = Self::bandwidth_to_weight(configured_bandwidth_bps);
        LinkState {
            id,
            configured_bandwidth_bps,
            measured_bandwidth_bps: configured_bandwidth_bps,
            weight,
            bytes_sent: 0,
            bytes_delivered: 0,
            rtt_us: 0,
            health: LinkHealth::Normal,
            last_update: now_ns,
        }
    }

    /// Convert bandwidth to weight (1 Mbps = 1 weight unit).
    pub fn bandwidth_to_weight(bps: u64) -> (r: u32)
        ensures
            r == weight_of(bps),
    {
        let units: u64 = bps / 125_000;
        let units: u64 = if units >= 1 {
            units
        } else {
            1
        };
        (units % 0x1_0000_0000) as u32
    }

    /// Effective bandwidth for weight calculation.
    pub fn effective_bandwidth(&self) -> (r: u64)
        ensures
            r == self.bandwidth(),
    {
        if self.measured_bandwidth_bps > 0 {
            self.measured_bandwidth_bps
        } else {
            self.configured_bandwidth_bps
        }
    }

    /// Update RTT with EWMA smoothing.
    pub fn update_rtt(&mut self, rtt_us: u64)
        ensures
            *final(self) == (LinkState { rtt_us: old(self).rtt_with(rtt_us), ..*old(self) }),
    {
        if rtt_us == 0 {
            return;
        }
        if self.rtt_us == 0 {
            self.rtt_us = rtt_us;
        } else {
            self.rtt_us = blend(Binary64::ratio(125, 1000), rtt_us, self.rtt_us);
        }
    }

    /// Delivery ratio (0.0 to 1.0).
    pub fn delivery_ratio(&self) -> (r: Binary64)
        ensures
            r == self.delivered_share(),
    {
        if self.bytes_sent == 0 {
            return Binary64::from_u64(1);
        }
        Binary64::from_u64(self.bytes_delivered).over(Binary64::from_u64(self.bytes_sent)).min(Binary64::from_u64(1))
    }

    /// Time to drain `pending_bytes`, in seconds; `None` on a link without
    /// bandwidth.
    pub fn drain_time(&self, pending_bytes: u64) -> (r: Option<Binary64>)
        ensures
            r == if self.bandwidth() == 0 {
                None
            } else {
                Some(Binary64::of_nat(pending_bytes as nat).quotient(Binary64::of_nat(self.bandwidth() as nat)))
            },
    {
        let bandwidth: u64 = self.effective_bandwidth();
        if bandwidth == 0 {
            return None;
        }
        Some(Binary64::from_u64(pending_bytes).over(Binary64::from_u64(bandwidth)))
    }

    /// One-way latency estimate (microseconds).
    pub fn one_way_latency_us(&self) -> (r: u64)
        ensures
            r == self.rtt_us / 2,
    {
        self.rtt_us / 2
    }
}

// ---------------------------------------------------------------------------
// Model
// ---------------------------------------------------------------------------

/// The links' weights, as shares.
pub open spec fn weight_shares(links: Seq<LinkState>) -> Seq<u64> {
    links.map_values(|l: LinkState| l.weight as u64)
}

/// The links that carry traffic.
pub open spec fn active(links: Seq<LinkState>) -> Seq<LinkState> {
    links.filter(|l: LinkState| l.weight > 0)
}

/// The links that carry traffic and whose round-trip time is known.
pub open spec fn timed(links: Seq<LinkState>) -> Seq<LinkState> {
    links.filter(|l: LinkState| l.weight > 0 && l.rtt_us > 0)
}

/// The links whose round-trip time does not exceed `limit`.
pub open spec fn within(links: Seq<LinkState>, limit: u64) -> Seq<LinkState> {
    links.filter(|l: LinkState| l.rtt_us <= limit)
}

/// The links' round-trip times.
pub open spec fn rtts(links: Seq<LinkState>) -> Seq<u64> {
    links.map_values(|l: LinkState| l.rtt_us)
}

/// The links in the order of their round-trip times.
pub open spec fn by_rtt(links: Seq<LinkState>) -> Seq<LinkState> {
    order_of(rtts(links), links.len()).map_values(|k: usize| links[k as int])
}

/// The links' numbers.
pub open spec fn ids(links: Seq<LinkState>) -> Seq<usize> {
    links.map_values(|l: LinkState| l.id)
}

/// The greatest round-trip time of a bulk link: two and a half times the
/// median.
pub open spec fn bulk_limit(links: Seq<LinkState>) -> u64 {
    scaled(by_rtt(timed(links))[(timed(links).len() / 2) as int].rtt_us as nat, Binary64::fraction(25, 10))
}

/// The links for bulk traffic: those with a round-trip time up to the limit,
/// fastest first; all that carry traffic while too few times are known.
pub open spec fn bulk_links(links: Seq<LinkState>) -> Seq<usize> {
    if timed(links).len() <= 1 {
        ids(active(links))
    } else {
        let near = within(by_rtt(timed(links)), bulk_limit(links));
        if near.len() == 0 {
            ids(by_rtt(timed(links)))
        } else {
            ids(near)
        }
    }
}

/// Whether the links are numbered by their places.
pub open spec fn numbered(links: Seq<LinkState>) -> bool {
    forall|i: int| 0 <= i < links.len() ==> (#[trigger] links[i]).id == i
}

/// Whether `list` names some of `n` links, none twice.
pub open spec fn lists(list: Seq<usize>, n: nat) -> bool {
    &&& forall|p: int| 0 <= p < list.len() ==> (#[trigger] list[p]) < n
    &&& forall|p: int, q: int| 0 <= p < q < list.len() ==> list[p] != list[q]
}

// ---------------------------------------------------------------------------
// Lists of links
// ---------------------------------------------------------------------------

/// Whether `links` are some of `n` links, none twice.
spec fn distinct(links: Seq<LinkState>, n: nat) -> bool {
    &&& forall|p: int| 0 <= p < links.len() ==> (#[trigger] links[p]).id < n
    &&& forall|p: int, q: int| 0 <= p < q < links.len() ==> (#[trigger] links[p]).id != (#[trigger] links[q]).id
}

proof fn lemma_filter_distinct(links: Seq<LinkState>, keep: spec_fn(LinkState) -> bool, n: nat)
    requires
        distinct(links, n),
    ensures
        distinct(links.filter(keep), n),
        links.filter(keep).len() <= links.len(),
        forall|k: int| 0 <= k < links.filter(keep).len() ==> keep(#[trigger] links.filter(keep)[k]),
        forall|k: int| 0 <= k < links.filter(keep).len() ==> links.contains(#[trigger] links.filter(keep)[k]),
    decreases links.len(),
{
    reveal(Seq::filter);
    if links.len() > 0 {
        let shorter = links.drop_last();
        assert forall|p: int, q: int| 0 <= p < q < shorter.len() implies (#[trigger] shorter[p]).id
            != (#[trigger] shorter[q]).id by {
            assert(shorter[p] == links[p] && shorter[q] == links[q]);
        }
        lemma_filter_distinct(shorter, keep, n);
        let kept = shorter.filter(keep);
        let all = links.filter(keep);
        assert forall|i: int| 0 <= i < kept.len() implies links.contains(#[trigger] kept[i]) && kept[i].id
            != links.last().id by {
            assert(shorter.contains(kept[i]));
            let j = choose|j: int| 0 <= j < shorter.len() && shorter[j] == kept[i];
            assert(links[j] == kept[i]);
        }
        assert(links.contains(links[links.len() - 1]));
        assert forall|p: int, q: int| 0 <= p < q < all.len() implies (#[trigger] all[p]).id != (#[trigger] all[q]).id by {
            assert(all[p] == kept[p]);
            if q < kept.len() {
                assert(all[q] == kept[q]);
            }
        }
        assert forall|i: int| 0 <= i < all.len() implies links.contains(#[trigger] all[i]) by {
            if i < kept.len() {
                assert(all[i] == kept[i]);
            }
        }
    }
}

proof fn lemma_by_rtt(links: Seq<LinkState>, n: nat)
    requires
        distinct(links, n),
        links.len() <= usize::MAX,
    ensures
        distinct(by_rtt(links), n),
        by_rtt(links).len() == links.len(),
        forall|p: int| 0 <= p < links.len() ==> links.contains(#[trigger] by_rtt(links)[p]),
        forall|p: int, q: int|
            0 <= p < q < links.len() ==> (#[trigger] by_rtt(links)[p]).rtt_us <= (#[trigger] by_rtt(links)[q]).rtt_us,
{
    law_order_is_stable(rtts(links), links.len());
    let order = order_of(rtts(links), links.len());
    let sorted = by_rtt(links);
    assert forall|p: int| 0 <= p < links.len() implies links.contains(#[trigger] sorted[p]) && sorted[p].id < n by {
        assert(sorted[p] == links[order[p] as int]);
    }
    assert forall|p: int, q: int| 0 <= p < q < links.len() implies (#[trigger] sorted[p]).id != (
    #[trigger] sorted[q]).id && sorted[p].rtt_us <= sorted[q].rtt_us by {
        assert(sorted[p] == links[order[p] as int] && sorted[q] == links[order[q] as int]);
        assert(order[p] != order[q]);
        assert(rtts(links)[order[p] as int] <= rtts(links)[order[q] as int]);
        if order[p] < order[q] {
            assert(links[order[p] as int].id != links[order[q] as int].id);
        } else {
            assert(links[order[q] as int].id != links[order[p] as int].id);
        }
    }
}

/// The bulk links are some of the links, none twice, and all carry traffic.
proof fn lemma_bulk_links(links: Seq<LinkState>)
    requires
        numbered(links),
        links.len() <= usize::MAX,
    ensures
        lists(bulk_links(links), links.len()),
        forall|p: int| 0 <= p < bulk_links(links).len() ==> links[(#[trigger] bulk_links(links)[p]) as int].weight > 0,
        timed(links).len() > 1 ==> bulk_links(links).len() > 0,
{
    let n = links.len();
    lemma_filter_distinct(links, |l: LinkState| l.weight > 0, n);
    lemma_filter_distinct(links, |l: LinkState| l.weight > 0 && l.rtt_us > 0, n);
    let t = timed(links);
    lemma_by_rtt(t, n);
    lemma_filter_distinct(by_rtt(t), |l: LinkState| l.rtt_us <= bulk_limit(links), n);
    let near = within(by_rtt(t), bulk_limit(links));
    let chosen = if t.len() <= 1 {
        active(links)
    } else if near.len() == 0 {
        by_rtt(t)
    } else {
        near
    };
    assert(bulk_links(links) == ids(chosen));
    assert(distinct(chosen, n));
    assert forall|p: int| 0 <= p < chosen.len() implies links[(#[trigger] chosen[p]).id as int] == chosen[p]
        && chosen[p].weight > 0 by {
        if t.len() > 1 {
            if near.len() > 0 {
                assert(by_rtt(t).contains(near[p]));
                let j = choose|j: int| 0 <= j < by_rtt(t).len() && by_rtt(t)[j] == near[p];
                assert(t.contains(by_rtt(t)[j]));
            } else {
                assert(t.contains(by_rtt(t)[p]));
            }
            let i = choose|i: int| 0 <= i < t.len() && t[i] == chosen[p];
            assert(links.contains(t[i]));
        } else {
            assert(links.contains(chosen[p]));
        }
        let i = choose|i: int| 0 <= i < links.len() && links[i] == chosen[p];
        assert(links[i].id == i);
    }
    assert forall|p: int| 0 <= p < bulk_links(links).len() implies (#[trigger] bulk_links(links)[p]) < n
        && links[bulk_links(links)[p] as int].weight > 0 by {
        assert(bulk_links(links)[p] == chosen[p].id);
    }
    assert forall|p: int, q: int| 0 <= p < q < bulk_links(links).len() implies bulk_links(links)[p] != bulk_links(
        links,
    )[q] by {
        assert(bulk_links(links)[p] == chosen[p].id && bulk_links(links)[q] == chosen[q].id);
    }
}

/// The elements that `keep` picks out.
fn pick_timed(links: &Vec<LinkState>) -> (r: Vec<LinkState>)
    ensures
        r@ == timed(links@),
{
    let mut r: Vec<LinkState> = Vec::new();
    let mut i: usize = 0;
    let ghost keep = |l: LinkState| l.weight > 0 && l.rtt_us > 0;
    proof {
        lemma_filter_start(links@, keep);
    }
    while i < links.len()
        invariant
            i <= links@.len(),
            keep == (|l: LinkState| l.weight > 0 && l.rtt_us > 0),
            r@ == links@.take(i as int).filter(keep),
        decreases links.len() - i,
    {
        proof {
            lemma_filter_step(links@, keep, i as int);
        }
        let link: LinkState = links[i];
        if link.weight > 0 && link.rtt_us > 0 {
            r.push(link);
        }
        i = i + 1;
    }
    r
}

fn pick_active(links: &Vec<LinkState>) -> (r: Vec<LinkState>)
    ensures
        r@ == active(links@),
{
    let mut r: Vec<LinkState> = Vec::new();
    let mut i: usize = 0;
    let ghost keep = |l: LinkState| l.weight > 0;
    proof {
        lemma_filter_start(links@, keep);
    }
    while i < links.len()
        invariant
            i <= links@.len(),
            keep == (|l: LinkState| l.weight > 0),
            r@ == links@.take(i as int).filter(keep),
        decreases links.len() - i,
    {
        proof {
            lemma_filter_step(links@, keep, i as int);
        }
        let link: LinkState = links[i];
        if link.weight > 0 {
            r.push(link);
        }
        i = i + 1;
    }
    r
}

fn pick_within(links: &Vec<LinkState>, limit: u64) -> (r: Vec<LinkState>)
    ensures
        r@ == within(links@, limit),
{
    let mut r: Vec<LinkState> = Vec::new();
    let mut i: usize = 0;
    let ghost keep = |l: LinkState| l.rtt_us <= limit;
    proof {
        lemma_filter_start(links@, keep);
    }
    while i < links.len()
        invariant
            i <= links@.len(),
            keep == (|l: LinkState| l.rtt_us <= limit),
            r@ == links@.take(i as int).filter(keep),
        decreases links.len() - i,
    {
        proof {
            lemma_filter_step(links@, keep, i as int);
        }
        let link: LinkState = links[i];
        if link.rtt_us <= limit {
            r.push(link);
        }
        i = i + 1;
    }
    r
}

fn sort_by_rtt(links: &Vec<LinkState>) -> (r: Vec<LinkState>)
    ensures
        r@ == by_rtt(links@),
        r@.len() == links@.len(),
{
    let mut keys: Vec<u64> = Vec::new();
    let mut i: usize = 0;
    while i < links.len()
        invariant
            i <= links@.len(),
            keys@ == rtts(links@).take(i as int),
        decreases links.len() - i,
    {
        keys.push(links[i].rtt_us);
        i = i + 1;
        assert(keys@ =~= rtts(links@).take(i as int));
    }
    assert(keys@ =~= rtts(links@));
    let order: Vec<usize> = stable_order(&keys);
    let mut r: Vec<LinkState> = Vec::new();
    let mut p: usize = 0;
    while p < order.len()
        invariant
            p <= order@.len(),
            order@.len() == links@.len(),
            order@ == order_of(rtts(links@), links@.len()),
            is_stable_order(keys@, links@.len(), order@),
            r@ == by_rtt(links@).take(p as int),
        decreases order.len() - p,
    {
        r.push(links[order[p]]);
        p = p + 1;
        assert(r@ =~= by_rtt(links@).take(p as int));
    }
    assert(r@ =~= by_rtt(links@));
    r
}

fn ids_of(links: &Vec<LinkState>) -> (r: Vec<usize>)
    ensures
        r@ == ids(links@),
{
    let mut r: Vec<usize> = Vec::new();
    let mut i: usize = 0;
    while i < links.len()
        invariant
            i <= links@.len(),
            r@ == ids(links@).take(i as int),
        decreases links.len() - i,
    {
        r.push(links[i].id);
        i = i + 1;
        assert(r@ =~= ids(links@).take(i as int));
    }
    assert(r@ =~= ids(links@));
    r
}

fn weights_of(links: &Vec<LinkState>) -> (r: Vec<u64>)
    ensures
        r@ == weight_shares(links@),
{
    let mut r: Vec<u64> = Vec::new();
    let mut i: usize = 0;
    while i < links.len()
        invariant
            i <= links@.len(),
            r@ == weight_shares(links@).take(i as int),
        decreases links.len() - i,
    {
        r.push(links[i].weight as u64);
        i = i + 1;
        assert(r@ =~= weight_shares(links@).take(i as int));
    }
    assert(r@ =~= weight_shares(links@));
    r
}

/// The links for bulk traffic.
fn find_bulk_links(links: &Vec<LinkState>) -> (r: Vec<usize>)
    ensures
        r@ == bulk_links(links@),
{
    let timed_links: Vec<LinkState> = pick_timed(links);
    if timed_links.len() <= 1 {
        ids_of(&pick_active(links))
    } else {
        let sorted: Vec<LinkState> = sort_by_rtt(&timed_links);
        let median: u64 = sorted[sorted.len() / 2].rtt_us;
        let limit: u64 = scale(median, Binary64::ratio(25, 10));
        let near: Vec<LinkState> = pick_within(&sorted, limit);
        if near.len() == 0 {
            ids_of(&sorted)
        } else {
            ids_of(&near)
        }
    }
}

/// The weights of the listed links.
fn weights_at(links: &Vec<LinkState>, list: &Vec<usize>) -> (r: Vec<u64>)
    requires
        lists(list@, links@.len()),
    ensures
        r@ == shares_at(weight_shares(links@), list@),
{
    let mut r: Vec<u64> = Vec::new();
    let mut i: usize = 0;
    while i < list.len()
        invariant
            i <= list@.len(),
            lists(list@, links@.len()),
            r@ == shares_at(weight_shares(links@), list@).take(i as int),
        decreases list.len() - i,
    {
        r.push(links[list[i]].weight as u64);
        i = i + 1;
        assert(r@ =~= shares_at(weight_shares(links@), list@).take(i as int));
    }
    assert(r@ =~= shares_at(weight_shares(links@), list@));
    r
}

// ---------------------------------------------------------------------------
// The scheduler
// ---------------------------------------------------------------------------

/// Link scheduler.
#[derive(Debug, Clone)]
pub struct LinkScheduler {
    pub config: LinkSchedulerConfig,
    pub links: Vec<LinkState>,
    /// Position in the round
    pub cursor: u64,
    /// Total weight of all links, at least one
    pub total_weight: u32,
    /// Last adjustment (nanoseconds)
    pub last_adjustment: u64,
    /// Link with the highest configured bandwidth
    pub preferred_link: Option<usize>,
    /// Direction: true = upload (client to server), false = download
    pub is_upload: bool,
    /// Links for bulk traffic (round-trip outliers left out)
    pub bulk_eligible: Vec<usize>,
    /// Total weight of the bulk links, at least one
    pub bulk_total_weight: u32,
}

/// What a [`ScheduleDecision`] holds.
pub struct DecisionView {
    pub link_id: usize,
    pub delay_us: u64,
    pub participating_links: Seq<usize>,
}

impl View for ScheduleDecision {
    type V = DecisionView;

    open spec fn view(&self) -> DecisionView {
        DecisionView {
            link_id: self.link_id,
            delay_us: self.delay_us,
            participating_links: self.participating_links@,
        }
    }
}

/// What becomes of a chunk.
pub struct ChoiceView {
    pub link_id: usize,
    pub links: Seq<usize>,
    pub cursor: u64,
}

/// The cursor `bytes` on.
pub open spec fn moved(cursor: u64, bytes: nat) -> u64 {
    ((cursor + bytes) % 0x1_0000_0000_0000_0000) as u64
}

/// The cursor one position on.
pub open spec fn advanced(cursor: u64) -> u64 {
    if cursor == u64::MAX {
        0
    } else {
        (cursor + 1) as u64
    }
}

/// The sum of the weights, at least one.
pub open spec fn weight_sum(weights: Seq<u64>) -> u32 {
    larger(total(weights), 1) as u32
}

/// The links' configured weights, as shares.
pub open spec fn configured_shares(links: Seq<LinkState>) -> Seq<u64> {
    links.map_values(|l: LinkState| weight_of(l.configured_bandwidth_bps) as u64)
}

/// The links once `bytes` are recorded as sent on one of them.
pub open spec fn with_sent(links: Seq<LinkState>, link_id: int, bytes: nat) -> Seq<LinkState> {
    if 0 <= link_id < links.len() {
        links.update(
            link_id,
            LinkState { bytes_sent: (links[link_id].bytes_sent + bytes) as u64, ..links[link_id] },
        )
    } else {
        links
    }
}

/// The links with the first weights replaced.
pub open spec fn reweighted(links: Seq<LinkState>, weights: Seq<u32>) -> Seq<LinkState> {
    Seq::new(
        links.len(),
        |i: int|
            if i < weights.len() {
                LinkState { weight: weights[i], ..links[i] }
            } else {
                links[i]
            },
    )
}

/// The links with the first weights replaced, a weight of zero counting as
/// degraded.
pub open spec fn rate_controlled(links: Seq<LinkState>, weights: Seq<u32>) -> Seq<LinkState> {
    Seq::new(
        links.len(),
        |i: int|
            if i < weights.len() {
                LinkState {
                    weight: weights[i],
                    health: if weights[i] > 0 {
                        LinkHealth::Normal
                    } else {
                        LinkHealth::Degraded
                    },
                    ..links[i]
                }
            } else {
                links[i]
            },
    )
}

/// All links at their configured weights and healthy.
pub open spec fn restored(links: Seq<LinkState>) -> Seq<LinkState> {
    links.map_values(|l: LinkState| LinkState { health: LinkHealth::Normal, ..l.at_configured_weight() })
}

impl LinkScheduler {
    pub open spec fn wf(self) -> bool {
        &&& numbered(self.links@)
        &&& lists(self.bulk_eligible@, self.links@.len())
        &&& total(weight_shares(self.links@)) <= u32::MAX
        &&& total(configured_shares(self.links@)) <= u32::MAX
        &&& self.total_weight == weight_sum(weight_shares(self.links@))
        &&& self.bulk_total_weight >= 1
    }

    /// The weights of the bulk links.
    pub open spec fn bulk_shares(self) -> Seq<u64> {
        shares_at(weight_shares(self.links@), self.bulk_eligible@)
    }

    /// Whether the bulk links are those of the current weights and times.
    pub open spec fn bulk_is_current(self) -> bool {
        &&& self.bulk_eligible@ == bulk_links(self.links@)
        &&& self.bulk_total_weight == weight_sum(self.bulk_shares())
    }

    /// The link of the next position in the round over all links; the first
    /// one if none carries traffic.
    pub open spec fn next_of_all(self) -> usize {
        let weights = weight_shares(self.links@);
        if total(weights) == 0 {
            0
        } else {
            slot(weights, (advanced(self.cursor) % (total(weights) as u64)) as nat)->0
        }
    }

    /// The link of the next position in the round over the bulk links; the
    /// first of them where the weights fell short since the round was drawn
    /// up.
    pub open spec fn next_of_bulk(self) -> usize {
        match slot(self.bulk_shares(), (advanced(self.cursor) % (self.bulk_total_weight as u64)) as nat) {
            Some(p) => self.bulk_eligible@[p as int],
            None => if self.bulk_eligible@.len() > 0 {
                self.bulk_eligible@[0]
            } else {
                0
            },
        }
    }

    /// The link of the next bulk chunk in weighted rounds.
    pub open spec fn next_multi(self) -> usize {
        if self.bulk_eligible@.len() >= 2 {
            self.next_of_bulk()
        } else {
            self.next_of_all()
        }
    }

    /// The links to choose from for bulk chunks: the bulk links, all links
    /// while those are fewer than two, and none without weight.
    pub open spec fn bulk_pool(self) -> Seq<usize> {
        let list = if self.bulk_eligible@.len() >= 2 {
            self.bulk_eligible@
        } else {
            ids(self.links@)
        };
        list.filter(|id: usize| self.links@[id as int].weight > 0)
    }

    /// The tiers, as positions by priority, whose links are to choose from.
    pub open spec fn bulk_tiers(self) -> Seq<usize> {
        let pool = self.bulk_pool();
        self.tiers_by_priority().filter(|k: usize| pool.contains(self.config.link_tiers@[k as int].link_id))
    }

    /// The strategy in force: the configured one where it has links to choose
    /// from, else weighted rounds.
    pub open spec fn strategy(self) -> Strategy {
        let wanted = strategy_of(self.config.strategy@);
        if wanted is TieredFill && self.bulk_tiers().len() == 0 {
            Strategy::Weighted
        } else if self.bulk_pool().len() == 0 {
            Strategy::Weighted
        } else {
            wanted
        }
    }

    /// The link whose turn it is at a position of the cursor.
    pub open spec fn in_turn(self, position: nat) -> usize {
        self.bulk_pool()[(position % self.bulk_pool().len()) as int]
    }

    /// The link of the greatest weight, the first of several.
    pub open spec fn best_link(self) -> usize {
        let pool = self.bulk_pool();
        pool[first_max(shares_at(weight_shares(self.links@), pool))->0 as int]
    }

    /// What becomes of a bulk chunk: its link, the links that took part, and
    /// where the cursor stands then.
    pub open spec fn bulk_choice(self, chunk_size: nat) -> ChoiceView {
        match self.strategy() {
            Strategy::TieredFill => {
                let (link_id, links, moves) = self.next_tiered(self.bulk_tiers());
                ChoiceView {
                    link_id,
                    links,
                    cursor: if moves {
                        moved(self.cursor, chunk_size)
                    } else {
                        self.cursor
                    },
                }
            },
            Strategy::RoundRobin => ChoiceView {
                link_id: self.in_turn(advanced(self.cursor) as nat),
                links: self.bulk_pool(),
                cursor: advanced(self.cursor),
            },
            Strategy::SingleBest => ChoiceView {
                link_id: self.best_link(),
                links: seq![self.best_link()],
                cursor: self.cursor,
            },
            Strategy::Weighted => ChoiceView {
                link_id: self.next_multi(),
                links: self.bulk_eligible@,
                cursor: advanced(self.cursor),
            },
        }
    }

    /// The decision on a bulk chunk.
    pub open spec fn bulk_decision(self, chunk_size: nat) -> DecisionView {
        let choice = self.bulk_choice(chunk_size);
        DecisionView {
            link_id: choice.link_id,
            delay_us: if self.config.enable_sync {
                self.sync_delay(choice.link_id as int)
            } else {
                0
            },
            participating_links: choice.links,
        }
    }

    /// Whether the sums over the tiers of bulk chunks fit the machine.
    pub open spec fn bulk_tiers_fit(self) -> bool {
        self.strategy() is TieredFill ==> self.tiers_fit(self.bulk_tiers())
    }

    /// The one-way latencies of the links that carry traffic.
    pub open spec fn latencies(self) -> Seq<u64> {
        active(self.links@).map_values(|l: LinkState| (l.rtt_us / 2) as u64)
    }

    /// How long to hold a chunk for one link so that it arrives with those on
    /// the slowest link.
    pub open spec fn sync_delay(self, link_id: int) -> u64 {
        if 0 <= link_id < self.links@.len() {
            smaller(
                monus(greatest(self.latencies()) as nat, (self.links@[link_id].rtt_us / 2) as nat),
                (self.config.max_send_delay_ms * 1000) as nat,
            ) as u64
        } else {
            0
        }
    }

    /// Whether `bytes` more can be recorded as sent on a link.
    pub open spec fn can_record(self, link_id: int, bytes: nat) -> bool {
        0 <= link_id < self.links@.len() ==> self.links@[link_id].bytes_sent + bytes <= u64::MAX
    }

    /// Whether nothing but links and cursor may differ.
    pub open spec fn same_setup(self, other: LinkScheduler) -> bool {
        &&& self.config == other.config
        &&& self.total_weight == other.total_weight
        &&& self.last_adjustment == other.last_adjustment
        &&& self.preferred_link == other.preferred_link
        &&& self.is_upload == other.is_upload
        &&& self.bulk_eligible == other.bulk_eligible
        &&& self.bulk_total_weight == other.bulk_total_weight
    }

    /// The round-trip times known of the bulk links.
    pub open spec fn bulk_rtts(self) -> Seq<u64> {
        rtts(
            self.bulk_eligible@.map_values(|id: usize| self.links@[id as int]).filter(
                |l: LinkState| l.rtt_us > 0,
            ),
        )
    }
}

proof fn lemma_weights_after_sent(links: Seq<LinkState>, link_id: int, bytes: nat)
    ensures
        weight_shares(with_sent(links, link_id, bytes)) == weight_shares(links),
        configured_shares(with_sent(links, link_id, bytes)) == configured_shares(links),
        numbered(links) ==> numbered(with_sent(links, link_id, bytes)),
{
    assert(weight_shares(with_sent(links, link_id, bytes)) =~= weight_shares(links));
    assert(configured_shares(with_sent(links, link_id, bytes)) =~= configured_shares(links));
}

proof fn lemma_filter_lists(list: Seq<usize>, keep: spec_fn(usize) -> bool, n: nat)
    requires
        lists(list, n),
    ensures
        lists(list.filter(keep), n),
        forall|p: int| 0 <= p < list.filter(keep).len() ==> keep(#[trigger] list.filter(keep)[p]),
        forall|p: int| 0 <= p < list.filter(keep).len() ==> list.contains(#[trigger] list.filter(keep)[p]),
        list.filter(keep).len() <= list.len(),
    decreases list.len(),
{
    reveal(Seq::filter);
    if list.len() > 0 {
        let shorter = list.drop_last();
        lemma_filter_lists(shorter, keep, n);
        let kept = shorter.filter(keep);
        let all = list.filter(keep);
        assert forall|i: int| 0 <= i < kept.len() implies list.contains(#[trigger] kept[i]) && kept[i]
            != list.last() by {
            assert(shorter.contains(kept[i]));
            let j = choose|j: int| 0 <= j < shorter.len() && shorter[j] == kept[i];
            assert(list[j] == kept[i]);
        }
        assert(list.contains(list[list.len() - 1]));
        assert forall|i: int| 0 <= i < all.len() implies list.contains(#[trigger] all[i]) by {
            if i < kept.len() {
                assert(all[i] == kept[i]);
            }
        }
    }
}

/// The links to choose from are some of the links, none twice, and all of
/// them carry traffic.
proof fn lemma_pool(s: LinkScheduler)
    requires
        s.wf(),
    ensures
        lists(ids(s.links@), s.links@.len()),
        lists(s.bulk_pool(), s.links@.len()),
        forall|p: int| 0 <= p < s.bulk_pool().len() ==> s.links@[(#[trigger] s.bulk_pool()[p]) as int].weight > 0,
        s.bulk_eligible@.len() >= 2 ==> forall|p: int|
            0 <= p < s.bulk_pool().len() ==> s.bulk_eligible@.contains(#[trigger] s.bulk_pool()[p]),
{
    let list = if s.bulk_eligible@.len() >= 2 {
        s.bulk_eligible@
    } else {
        ids(s.links@)
    };
    lemma_filter_lists(list, |id: usize| s.links@[id as int].weight > 0, s.links@.len());
}

impl LinkScheduler {
    /// Create scheduler with configured bandwidths (bytes/sec).
    /// `is_upload`: true for client (sending uploads), false for server.
    pub fn new(config: LinkSchedulerConfig, configured_bandwidths: &Vec<u64>, is_upload: bool, now_ns: u64) -> (r:
        LinkScheduler)
        requires
            total(configured_bandwidths@.map_values(|b: u64| weight_of(b) as u64)) <= u32::MAX,
        ensures
            r.wf(),
            r.config == config,
            r.links@ == Seq::new(
                configured_bandwidths@.len(),
                |i: int| LinkState::fresh(i as usize, configured_bandwidths@[i], now_ns),
            ),
            r.cursor == 0,
            r.last_adjustment == now_ns,
            r.preferred_link == last_max(configured_bandwidths@),
            r.is_upload == is_upload,
            r.bulk_eligible@ == ids(r.links@),
            r.bulk_total_weight == r.total_weight,
    {
        let mut links: Vec<LinkState> = Vec::new();
        let mut id: usize = 0;
        while id < configured_bandwidths.len()
            invariant
                id <= configured_bandwidths@.len(),
                links@.len() == id,
                forall|i: int|
                    0 <= i < id ==> links@[i] == LinkState::fresh(i as usize, configured_bandwidths@[i], now_ns),
            decreases configured_bandwidths.len() - id,
        {
            links.push(LinkState::new(id, configured_bandwidths[id], now_ns));
            id = id + 1;
        }
        assert(links@ =~= Seq::new(
            configured_bandwidths@.len(),
            |i: int| LinkState::fresh(i as usize, configured_bandwidths@[i], now_ns),
        ));
        assert(weight_shares(links@) =~= configured_bandwidths@.map_values(|b: u64| weight_of(b) as u64));
        assert(configured_shares(links@) =~= weight_shares(links@));
        let total_weight: u32 = Self::sum_of_weights(&weights_of(&links));
        let preferred_link: Option<usize> = position_of_last_max(configured_bandwidths);
        let bulk_eligible: Vec<usize> = ids_of(&links);
        LinkScheduler {
            config,
            links,
            cursor: 0,
            total_weight,
            last_adjustment: now_ns,
            preferred_link,
            is_upload,
            bulk_eligible,
            bulk_total_weight: total_weight,
        }
    }

    fn sum_of_weights(weights: &Vec<u64>) -> (r: u32)
        requires
            total(weights@) <= u32::MAX,
        ensures
            r == weight_sum(weights@),
            r >= 1,
    {
        let t: u64 = sum(weights);
        if t >= 1 {
            t as u32
        } else {
            1
        }
    }

    /// Create with default equal weights.
    pub fn new_default(config: LinkSchedulerConfig, num_links: usize, is_upload: bool, now_ns: u64) -> (r:
        LinkScheduler)
        requires
            num_links * 10 <= u32::MAX,
        ensures
            r.wf(),
            r.config == config,
            r.links@ == Seq::new(
                num_links as nat,
                |i: int| LinkState::fresh(i as usize, DEFAULT_BANDWIDTH, now_ns),
            ),
            r.cursor == 0,
            r.last_adjustment == now_ns,
            num_links > 0 ==> r.preferred_link == Some((num_links - 1) as usize),
            num_links == 0 ==> r.preferred_link is None,
            r.is_upload == is_upload,
            r.bulk_eligible@ == ids(r.links@),
            r.bulk_total_weight == r.total_weight,
    {
        let mut configured: Vec<u64> = Vec::new();
        let mut i: usize = 0;
        while i < num_links
            invariant
                i <= num_links,
                configured@ == Seq::new(i as nat, |j: int| DEFAULT_BANDWIDTH),
            decreases num_links - i,
        {
            configured.push(DEFAULT_BANDWIDTH);
            i = i + 1;
            assert(configured@ =~= Seq::new(i as nat, |j: int| DEFAULT_BANDWIDTH));
        }
        proof {
            let shares = configured@.map_values(|b: u64| weight_of(b) as u64);
            assert(shares =~= Seq::new(num_links as nat, |j: int| 10u64));
            lemma_equal_total(num_links as nat, 10);
            lemma_equal_last_max(num_links as nat, DEFAULT_BANDWIDTH);
        }
        let r: LinkScheduler = Self::new(config, &configured, is_upload, now_ns);
        assert(r.links@ =~= Seq::new(
            num_links as nat,
            |i: int| LinkState::fresh(i as usize, DEFAULT_BANDWIDTH, now_ns),
        ));
        r
    }

    fn record_sent(&mut self, link_id: usize, bytes: usize)
        requires
            old(self).wf(),
            old(self).can_record(link_id as int, bytes as nat),
        ensures
            final(self).wf(),
            final(self).same_setup(*old(self)),
            final(self).cursor == old(self).cursor,
            final(self).links@ == with_sent(old(self).links@, link_id as int, bytes as nat),
    {
        proof {
            lemma_weights_after_sent(self.links@, link_id as int, bytes as nat);
        }
        if link_id < self.links.len() {
            let mut link: LinkState = self.links[link_id];
            link.bytes_sent = link.bytes_sent + bytes as u64;
            self.links.set(link_id, link);
        }
    }

    /// Weighted round-robin selection.
    fn weighted_select(&mut self) -> (r: usize)
        requires
            old(self).wf(),
        ensures
            r == old(self).next_of_all(),
            final(self).wf(),
            final(self).same_setup(*old(self)),
            final(self).cursor == advanced(old(self).cursor),
            final(self).links@ == old(self).links@,
    {
        self.cursor = self.cursor.wrapping_add(1);
        let pos: u64 = self.cursor % (self.total_weight as u64);
        let weights: Vec<u64> = weights_of(&self.links);
        proof {
            assert(weights.len() <= usize::MAX);
            lemma_slot(weights@, pos as nat);
        }
        match pick(&weights, pos) {
            Some(i) => i,
            None => 0,
        }
    }

    /// Weighted round-robin selection among bulk-eligible links only.
    fn weighted_select_bulk(&mut self) -> (r: usize)
        requires
            old(self).wf(),
        ensures
            r == old(self).next_of_bulk(),
            final(self).wf(),
            final(self).same_setup(*old(self)),
            final(self).cursor == advanced(old(self).cursor),
            final(self).links@ == old(self).links@,
    {
        self.cursor = self.cursor.wrapping_add(1);
        let pos: u64 = self.cursor % (self.bulk_total_weight as u64);
        let weights: Vec<u64> = weights_at(&self.links, &self.bulk_eligible);
        match pick(&weights, pos) {
            Some(p) => self.bulk_eligible[p],
            None => if self.bulk_eligible.len() > 0 {
                self.bulk_eligible[0]
            } else {
                0
            },
        }
    }

    /// Delay for arrival synchronization (microseconds).
    fn calculate_sync_delay(&self, target_link: usize) -> (r: u64)
        ensures
            r == self.sync_delay(target_link as int),
    {
        if target_link >= self.links.len() {
            return 0;
        }
        let carrying: Vec<LinkState> = pick_active(&self.links);
        let mut latencies: Vec<u64> = Vec::new();
        let mut i: usize = 0;
        while i < carrying.len()
            invariant
                i <= carrying@.len(),
                carrying@ == active(self.links@),
                latencies@ == self.latencies().take(i as int),
            decreases carrying.len() - i,
        {
            latencies.push(carrying[i].one_way_latency_us());
            i = i + 1;
            assert(latencies@ =~= self.latencies().take(i as int));
        }
        assert(latencies@ =~= self.latencies());
        let max_latency: u64 = max_of(&latencies);
        let target_latency: u64 = self.links[target_link].one_way_latency_us();
        let behind: u64 = max_latency.saturating_sub(target_latency);
        let limit: u128 = self.config.max_send_delay_ms as u128 * 1000;
        if behind as u128 <= limit {
            behind
        } else {
            limit as u64
        }
    }

    /// Multi-link scheduling: weighted round robin among bulk-eligible links.
    fn schedule_multi_link(&mut self, chunk_size: usize) -> (r: ScheduleDecision)
        requires
            old(self).wf(),
            old(self).can_record(old(self).next_multi() as int, chunk_size as nat),
        ensures
            final(self).wf(),
            final(self).same_setup(*old(self)),
            r@ == (DecisionView {
                link_id: old(self).next_multi(),
                delay_us: if old(self).config.enable_sync {
                    old(self).sync_delay(old(self).next_multi() as int)
                } else {
                    0
                },
                participating_links: old(self).bulk_eligible@,
            }),
            final(self).cursor == advanced(old(self).cursor),
            final(self).links@ == with_sent(old(self).links@, r.link_id as int, chunk_size as nat),
    {
        let link_id: usize = if self.bulk_eligible.len() >= 2 {
            self.weighted_select_bulk()
        } else {
            self.weighted_select()
        };
        let delay_us: u64 = if self.config.enable_sync {
            self.calculate_sync_delay(link_id)
        } else {
            0
        };
        self.record_sent(link_id, chunk_size);
        ScheduleDecision { link_id, delay_us, participating_links: copy_list(&self.bulk_eligible) }
    }

    /// Single-link scheduling: weighted round robin across all links.
    fn schedule_single_link(&mut self, chunk_size: usize) -> (r: ScheduleDecision)
        requires
            old(self).wf(),
            old(self).can_record(old(self).next_of_all() as int, chunk_size as nat),
        ensures
            final(self).wf(),
            final(self).same_setup(*old(self)),
            r@ == (DecisionView {
                link_id: old(self).next_of_all(),
                delay_us: 0,
                participating_links: ids(old(self).links@),
            }),
            final(self).cursor == advanced(old(self).cursor),
            final(self).links@ == with_sent(old(self).links@, r.link_id as int, chunk_size as nat),
    {
        let link_id: usize = self.weighted_select();
        let participating_links: Vec<usize> = ids_of(&self.links);
        self.record_sent(link_id, chunk_size);
        ScheduleDecision { link_id, delay_us: 0, participating_links }
    }

    /// Schedule a chunk based on flow mode: a pinned flow on its link at once,
    /// a bulk flow by the configured strategy.
    pub fn schedule(&mut self, chunk_size: usize, flow_mode: &FlowMode) -> (r: ScheduleDecision)
        requires
            old(self).wf(),
            match *flow_mode {
                FlowMode::Realtime { link_id } => old(self).can_record(link_id as int, chunk_size as nat),
                FlowMode::SingleLink { link_id } => old(self).can_record(link_id as int, chunk_size as nat),
                FlowMode::Bulk => old(self).bulk_tiers_fit() && old(self).can_record(
                    old(self).bulk_choice(chunk_size as nat).link_id as int,
                    chunk_size as nat,
                ),
            },
        ensures
            final(self).wf(),
            final(self).same_setup(*old(self)),
            final(self).links@ == with_sent(old(self).links@, r.link_id as int, chunk_size as nat),
            flow_mode is Bulk ==> r@ == old(self).bulk_decision(chunk_size as nat) && final(self).cursor == old(
                self,
            ).bulk_choice(chunk_size as nat).cursor,
            *flow_mode matches FlowMode::Realtime { link_id } ==> final(self).cursor == old(self).cursor && r@ == (
            DecisionView { link_id, delay_us: 0, participating_links: seq![link_id] }),
            *flow_mode matches FlowMode::SingleLink { link_id } ==> final(self).cursor == old(self).cursor && r@ == (
            DecisionView { link_id, delay_us: 0, participating_links: seq![link_id] }),
    {
        match flow_mode {
            FlowMode::Realtime { link_id } => self.schedule_pinned(chunk_size, *link_id),
            FlowMode::SingleLink { link_id } => self.schedule_pinned(chunk_size, *link_id),
            FlowMode::Bulk => self.schedule_bulk(chunk_size),
        }
    }

    /// Schedule a bulk chunk by the configured strategy.
    fn schedule_bulk(&mut self, chunk_size: usize) -> (r: ScheduleDecision)
        requires
            old(self).wf(),
            old(self).bulk_tiers_fit(),
            old(self).can_record(old(self).bulk_choice(chunk_size as nat).link_id as int, chunk_size as nat),
        ensures
            final(self).wf(),
            final(self).same_setup(*old(self)),
            final(self).links@ == with_sent(old(self).links@, r.link_id as int, chunk_size as nat),
            r@ == old(self).bulk_decision(chunk_size as nat),
            final(self).cursor == old(self).bulk_choice(chunk_size as nat).cursor,
    {
        let pool: Vec<usize> = self.find_pool();
        if pool.len() == 0 {
            return self.schedule_multi_link(chunk_size);
        }
        match Strategy::named(&self.config.strategy) {
            Strategy::TieredFill => {
                let tiers: Vec<usize> = self.find_bulk_tiers(&pool);
                if tiers.len() == 0 {
                    return self.schedule_multi_link(chunk_size);
                }
                let (link_id, links, moves) = self.choose_tiered(&tiers);
                let cursor: u64 = if moves {
                    self.cursor.wrapping_add(chunk_size as u64)
                } else {
                    self.cursor
                };
                self.commit(chunk_size, link_id, links, cursor)
            },
            Strategy::RoundRobin => {
                let cursor: u64 = self.cursor.wrapping_add(1);
                let link_id: usize = pool[(cursor % (pool.len() as u64)) as usize];
                self.commit(chunk_size, link_id, pool, cursor)
            },
            Strategy::SingleBest => {
                let link_id: usize = match position_of_first_max(&weights_at(&self.links, &pool)) {
                    Some(p) => pool[p],
                    None => 0,
                };
                let links: Vec<usize> = vec![link_id];
                assert(links@ =~= seq![link_id]);
                self.commit(chunk_size, link_id, links, self.cursor)
            },
            Strategy::Weighted => self.schedule_multi_link(chunk_size),
        }
    }

    /// Send a bulk chunk on a link, held back where arrivals are synchronized.
    fn commit(&mut self, chunk_size: usize, link_id: usize, links: Vec<usize>, cursor: u64) -> (r: ScheduleDecision)
        requires
            old(self).wf(),
            old(self).can_record(link_id as int, chunk_size as nat),
        ensures
            final(self).wf(),
            final(self).same_setup(*old(self)),
            final(self).cursor == cursor,
            final(self).links@ == with_sent(old(self).links@, link_id as int, chunk_size as nat),
            r@ == (DecisionView {
                link_id,
                delay_us: if old(self).config.enable_sync {
                    old(self).sync_delay(link_id as int)
                } else {
                    0
                },
                participating_links: links@,
            }),
    {
        let delay_us: u64 = if self.config.enable_sync {
            self.calculate_sync_delay(link_id)
        } else {
            0
        };
        self.cursor = cursor;
        self.record_sent(link_id, chunk_size);
        ScheduleDecision { link_id, delay_us, participating_links: links }
    }

    /// The links to choose from for bulk chunks.
    fn find_pool(&self) -> (r: Vec<usize>)
        requires
            self.wf(),
        ensures
            r@ == self.bulk_pool(),
            lists(r@, self.links@.len()),
    {
        let list: Vec<usize> = if self.bulk_eligible.len() >= 2 {
            copy_list(&self.bulk_eligible)
        } else {
            ids_of(&self.links)
        };
        let ghost keep = |id: usize| self.links@[id as int].weight > 0;
        let mut r: Vec<usize> = Vec::new();
        let mut i: usize = 0;
        proof {
            lemma_filter_start(list@, keep);
            lemma_pool(*self);
        }
        while i < list.len()
            invariant
                i <= list@.len(),
                lists(list@, self.links@.len()),
                keep == (|id: usize| self.links@[id as int].weight > 0),
                r@ == list@.take(i as int).filter(keep),
            decreases list.len() - i,
        {
            proof {
                lemma_filter_step(list@, keep, i as int);
            }
            if self.links[list[i]].weight > 0 {
                r.push(list[i]);
            }
            i = i + 1;
        }
        r
    }

    fn schedule_pinned(&mut self, chunk_size: usize, link_id: usize) -> (r: ScheduleDecision)
        requires
            old(self).wf(),
            old(self).can_record(link_id as int, chunk_size as nat),
        ensures
            final(self).wf(),
            final(self).same_setup(*old(self)),
            final(self).cursor == old(self).cursor,
            final(self).links@ == with_sent(old(self).links@, link_id as int, chunk_size as nat),
            r@ == (DecisionView { link_id, delay_us: 0, participating_links: seq![link_id] }),
    {
        self.record_sent(link_id, chunk_size);
        let participating_links: Vec<usize> = vec![link_id];
        assert(participating_links@ =~= seq![link_id]);
        ScheduleDecision { link_id, delay_us: 0, participating_links }
    }

    /// Schedule a chunk without a flow: over the bulk links if `multi_link`,
    /// over all links if not.
    pub fn schedule_bool(&mut self, chunk_size: usize, multi_link: bool) -> (r: ScheduleDecision)
        requires
            old(self).wf(),
            multi_link ==> old(self).can_record(old(self).next_multi() as int, chunk_size as nat),
            !multi_link ==> old(self).can_record(old(self).next_of_all() as int, chunk_size as nat),
        ensures
            final(self).wf(),
            final(self).same_setup(*old(self)),
            final(self).cursor == advanced(old(self).cursor),
            final(self).links@ == with_sent(old(self).links@, r.link_id as int, chunk_size as nat),
            multi_link ==> r@ == (DecisionView {
                link_id: old(self).next_multi(),
                delay_us: if old(self).config.enable_sync {
                    old(self).sync_delay(old(self).next_multi() as int)
                } else {
                    0
                },
                participating_links: old(self).bulk_eligible@,
            }),
            !multi_link ==> r@ == (DecisionView {
                link_id: old(self).next_of_all(),
                delay_us: 0,
                participating_links: ids(old(self).links@),
            }),
    {
        if multi_link {
            self.schedule_multi_link(chunk_size)
        } else {
            self.schedule_single_link(chunk_size)
        }
    }
}

impl LinkScheduler {
    /// The links with a measurement of one of them.
    pub open spec fn with_measurement(self, link_id: int, bandwidth: u64, rtt_us: u64, now_ns: u64) -> Seq<LinkState> {
        if 0 <= link_id < self.links@.len() {
            self.links@.update(link_id, self.links@[link_id].measured(bandwidth, rtt_us, now_ns))
        } else {
            self.links@
        }
    }

    /// Whether the weights are due for an adjustment.
    pub open spec fn due(self, now_ns: u64) -> bool {
        monus(now_ns as nat, self.last_adjustment as nat) >= ADJUSTMENT_INTERVAL_NS
    }

    /// Update link with measured performance data (called periodically).
    pub fn update_link(
        &mut self,
        link_id: usize,
        measured_bandwidth_bps: u64,
        rtt_us: u64,
        _healthy: bool,
        now_ns: u64,
    )
        requires
            old(self).wf(),
            link_id < old(self).links@.len() ==> old(self).links@[link_id as int].bytes_delivered
                + measured_bandwidth_bps <= u64::MAX,
        ensures
            final(self).wf(),
            final(self).bulk_is_current(),
            final(self).config == old(self).config,
            final(self).cursor == old(self).cursor,
            final(self).preferred_link == old(self).preferred_link,
            final(self).is_upload == old(self).is_upload,
            !old(self).due(now_ns) ==> final(self).last_adjustment == old(self).last_adjustment && final(self).links@
                == old(self).with_measurement(link_id as int, measured_bandwidth_bps, rtt_us, now_ns),
            old(self).due(now_ns) ==> final(self).last_adjustment == now_ns && final(self).links@ == restored(
                old(self).with_measurement(link_id as int, measured_bandwidth_bps, rtt_us, now_ns),
            ),
    {
        if link_id < self.links.len() {
            let mut link: LinkState = self.links[link_id];
            link.update_rtt(rtt_us);
            if measured_bandwidth_bps > 0 {
                if link.measured_bandwidth_bps == 0 {
                    link.measured_bandwidth_bps = measured_bandwidth_bps;
                } else {
                    link.measured_bandwidth_bps = blend(
                        Binary64::ratio(3, 10),
                        measured_bandwidth_bps,
                        link.measured_bandwidth_bps,
                    );
                }
                link.bytes_delivered = link.bytes_delivered + measured_bandwidth_bps;
            }
            link.last_update = now_ns;
            self.links.set(link_id, link);
            assert(weight_shares(self.links@) =~= weight_shares(old(self).links@));
            assert(configured_shares(self.links@) =~= configured_shares(old(self).links@));
        }
        assert(self.links@ == old(self).with_measurement(link_id as int, measured_bandwidth_bps, rtt_us, now_ns));
        self.maybe_adjust_weights(now_ns);
        self.update_bulk_eligible();
    }

    /// Puts the weights back to the configured bandwidths, at most once in
    /// the adjustment interval.
    pub fn maybe_adjust_weights(&mut self, now_ns: u64)
        requires
            old(self).wf(),
        ensures
            final(self).wf(),
            final(self).config == old(self).config,
            final(self).cursor == old(self).cursor,
            final(self).preferred_link == old(self).preferred_link,
            final(self).is_upload == old(self).is_upload,
            final(self).bulk_eligible == old(self).bulk_eligible,
            final(self).bulk_total_weight == old(self).bulk_total_weight,
            !old(self).due(now_ns) ==> *final(self) == *old(self),
            old(self).due(now_ns) ==> final(self).last_adjustment == now_ns && final(self).links@ == restored(
                old(self).links@,
            ),
    {
        if now_ns.saturating_sub(self.last_adjustment) < ADJUSTMENT_INTERVAL_NS {
            return;
        }
        self.last_adjustment = now_ns;
        let ghost before = self.links@;
        let mut i: usize = 0;
        while i < self.links.len()
            invariant
                i <= self.links@.len(),
                self.links@.len() == before.len(),
                forall|j: int| 0 <= j < i ==> self.links@[j] == restored(before)[j],
                forall|j: int| i <= j < before.len() ==> self.links@[j] == before[j],
                self.last_adjustment == now_ns,
                self.config == old(self).config,
                self.cursor == old(self).cursor,
                self.preferred_link == old(self).preferred_link,
                self.is_upload == old(self).is_upload,
                self.bulk_eligible == old(self).bulk_eligible,
                self.bulk_total_weight == old(self).bulk_total_weight,
            decreases before.len() - i,
        {
            let mut link: LinkState = self.links[i];
            link.weight = LinkState::bandwidth_to_weight(link.configured_bandwidth_bps);
            link.health = LinkHealth::Normal;
            self.links.set(i, link);
            i = i + 1;
        }
        assert(self.links@ =~= restored(before));
        assert(weight_shares(self.links@) =~= configured_shares(before));
        assert(configured_shares(self.links@) =~= configured_shares(before));
        self.recalculate_total_weight();
    }

    fn recalculate_total_weight(&mut self)
        requires
            total(weight_shares(old(self).links@)) <= u32::MAX,
        ensures
            *final(self) == (LinkScheduler {
                total_weight: weight_sum(weight_shares(old(self).links@)),
                ..*old(self)
            }),
    {
        self.total_weight = Self::sum_of_weights(&weights_of(&self.links));
    }

    /// Recalculates which links are eligible for bulk scheduling: links whose
    /// RTT is more than 2.5x the median would cause excessive reordering.
    fn update_bulk_eligible(&mut self)
        requires
            old(self).wf(),
        ensures
            final(self).wf(),
            final(self).bulk_is_current(),
            final(self).config == old(self).config,
            final(self).links == old(self).links,
            final(self).cursor == old(self).cursor,
            final(self).total_weight == old(self).total_weight,
            final(self).last_adjustment == old(self).last_adjustment,
            final(self).preferred_link == old(self).preferred_link,
            final(self).is_upload == old(self).is_upload,
    {
        let list: Vec<usize> = find_bulk_links(&self.links);
        proof {
            assert(self.links.len() <= usize::MAX);
            lemma_bulk_links(self.links@);
            lemma_part_of_total(weight_shares(self.links@), list@);
        }
        let weights: Vec<u64> = weights_at(&self.links, &list);
        self.bulk_total_weight = Self::sum_of_weights(&weights);
        self.bulk_eligible = list;
    }

    /// The spread of the one-way times of the bulk links (ms).
    pub open spec fn spread_ms(self) -> u64 {
        if self.bulk_rtts().len() < 2 {
            0
        } else {
            ((greatest(self.bulk_rtts()) - least(self.bulk_rtts())) / 2000) as u64
        }
    }

    /// One-way RTT spread in milliseconds among bulk-eligible links, for the
    /// receiver's reorder timeout.
    pub fn bulk_rtt_spread_ms(&self) -> (r: u64)
        requires
            self.wf(),
        ensures
            r == self.spread_ms(),
            r <= u64::MAX / 2000,
    {
        let ghost listed = self.bulk_eligible@.map_values(|id: usize| self.links@[id as int]);
        let ghost keep = |l: LinkState| l.rtt_us > 0;
        let mut known: Vec<u64> = Vec::new();
        let mut i: usize = 0;
        proof {
            lemma_filter_start(listed, keep);
            assert(rtts(Seq::<LinkState>::empty()) =~= Seq::<u64>::empty());
        }
        while i < self.bulk_eligible.len()
            invariant
                i <= self.bulk_eligible@.len(),
                self.wf(),
                keep == (|l: LinkState| l.rtt_us > 0),
                listed == self.bulk_eligible@.map_values(|id: usize| self.links@[id as int]),
                known@ == rtts(listed.take(i as int).filter(keep)),
            decreases self.bulk_eligible.len() - i,
        {
            proof {
                lemma_filter_step(listed, keep, i as int);
            }
            let rtt: u64 = self.links[self.bulk_eligible[i]].rtt_us;
            if rtt > 0 {
                known.push(rtt);
            }
            i = i + 1;
            assert(known@ =~= rtts(listed.take(i as int).filter(keep)));
        }
        proof {
            lemma_filter_start(listed, keep);
        }
        assert(known@ == self.bulk_rtts());
        if known.len() < 2 {
            return 0;
        }
        let low: u64 = min_of(&known);
        let high: u64 = max_of(&known);
        proof {
            lemma_extremes(known@, 0);
        }
        (high - low) / 2000
    }

    /// Acknowledge bytes (for delivery tracking).
    pub fn ack_bytes(&mut self, link_id: usize, bytes: u64)
        requires
            old(self).wf(),
            link_id < old(self).links@.len() ==> old(self).links@[link_id as int].bytes_delivered + bytes <= u64::MAX,
        ensures
            final(self).wf(),
            final(self).same_setup(*old(self)),
            final(self).cursor == old(self).cursor,
            final(self).links@ == if link_id < old(self).links@.len() {
                old(self).links@.update(
                    link_id as int,
                    (LinkState {
                        bytes_delivered: (old(self).links@[link_id as int].bytes_delivered + bytes) as u64,
                        ..old(self).links@[link_id as int]
                    }),
                )
            } else {
                old(self).links@
            },
    {
        if link_id < self.links.len() {
            let mut link: LinkState = self.links[link_id];
            link.bytes_delivered = link.bytes_delivered + bytes;
            self.links.set(link_id, link);
            assert(weight_shares(self.links@) =~= weight_shares(old(self).links@));
            assert(configured_shares(self.links@) =~= configured_shares(old(self).links@));
        }
    }

    /// Set explicit weights.  The bulk links stay those of the last update.
    pub fn set_weights(&mut self, weights: &[u32])
        requires
            old(self).wf(),
            total(weight_shares(reweighted(old(self).links@, weights@))) <= u32::MAX,
        ensures
            final(self).wf(),
            final(self).links@ == reweighted(old(self).links@, weights@),
            final(self).config == old(self).config,
            final(self).cursor == old(self).cursor,
            final(self).last_adjustment == old(self).last_adjustment,
            final(self).preferred_link == old(self).preferred_link,
            final(self).is_upload == old(self).is_upload,
            final(self).bulk_eligible == old(self).bulk_eligible,
            final(self).bulk_total_weight == old(self).bulk_total_weight,
    {
        let ghost before = self.links@;
        let mut i: usize = 0;
        while i < weights.len() && i < self.links.len()
            invariant
                i <= self.links@.len(),
                i <= weights@.len(),
                self.links@.len() == before.len(),
                forall|j: int| 0 <= j < i ==> self.links@[j] == reweighted(before, weights@)[j],
                forall|j: int| i <= j < before.len() ==> self.links@[j] == before[j],
                *self == (LinkScheduler { links: self.links, ..*old(self) }),
            decreases before.len() - i,
        {
            let mut link: LinkState = self.links[i];
            link.weight = weights[i];
            self.links.set(i, link);
            i = i + 1;
        }
        assert(self.links@ =~= reweighted(before, weights@));
        assert(configured_shares(self.links@) =~= configured_shares(before));
        self.recalculate_total_weight();
    }

    /// Set weights from the rate controller.
    pub fn set_rate_controlled_weights(&mut self, weights: &[u32])
        requires
            old(self).wf(),
            total(weight_shares(rate_controlled(old(self).links@, weights@))) <= u32::MAX,
        ensures
            final(self).wf(),
            final(self).bulk_is_current(),
            final(self).links@ == rate_controlled(old(self).links@, weights@),
            final(self).config == old(self).config,
            final(self).cursor == old(self).cursor,
            final(self).last_adjustment == old(self).last_adjustment,
            final(self).preferred_link == old(self).preferred_link,
            final(self).is_upload == old(self).is_upload,
    {
        let ghost before = self.links@;
        let mut i: usize = 0;
        while i < weights.len() && i < self.links.len()
            invariant
                i <= self.links@.len(),
                i <= weights@.len(),
                self.links@.len() == before.len(),
                forall|j: int| 0 <= j < i ==> self.links@[j] == rate_controlled(before, weights@)[j],
                forall|j: int| i <= j < before.len() ==> self.links@[j] == before[j],
                *self == (LinkScheduler { links: self.links, ..*old(self) }),
            decreases before.len() - i,
        {
            let mut link: LinkState = self.links[i];
            link.weight = weights[i];
            link.health = if weights[i] > 0 {
                LinkHealth::Normal
            } else {
                LinkHealth::Degraded
            };
            self.links.set(i, link);
            i = i + 1;
        }
        assert(self.links@ =~= rate_controlled(before, weights@));
        assert(configured_shares(self.links@) =~= configured_shares(before));
        self.recalculate_total_weight();
        self.update_bulk_eligible();
    }

    /// Force reset to configured values; measurements start anew.
    pub fn force_recalculate(&mut self)
        requires
            old(self).wf(),
        ensures
            final(self).wf(),
            final(self).links@ == old(self).links@.map_values(
                |l: LinkState| LinkState { measured_bandwidth_bps: 0, ..l.at_configured_weight() },
            ),
            final(self).config == old(self).config,
            final(self).cursor == old(self).cursor,
            final(self).last_adjustment == old(self).last_adjustment,
            final(self).preferred_link == old(self).preferred_link,
            final(self).is_upload == old(self).is_upload,
            final(self).bulk_eligible == old(self).bulk_eligible,
            final(self).bulk_total_weight == old(self).bulk_total_weight,
    {
        let ghost before = self.links@;
        let ghost after = before.map_values(
            |l: LinkState| LinkState { measured_bandwidth_bps: 0, ..l.at_configured_weight() },
        );
        let mut i: usize = 0;
        while i < self.links.len()
            invariant
                i <= self.links@.len(),
                self.links@.len() == before.len(),
                after == before.map_values(
                    |l: LinkState| LinkState { measured_bandwidth_bps: 0, ..l.at_configured_weight() },
                ),
                forall|j: int| 0 <= j < i ==> self.links@[j] == after[j],
                forall|j: int| i <= j < before.len() ==> self.links@[j] == before[j],
                *self == (LinkScheduler { links: self.links, ..*old(self) }),
            decreases before.len() - i,
        {
            let mut link: LinkState = self.links[i];
            link.weight = LinkState::bandwidth_to_weight(link.configured_bandwidth_bps);
            link.measured_bandwidth_bps = 0;
            self.links.set(i, link);
            i = i + 1;
        }
        assert(self.links@ =~= after);
        assert(weight_shares(self.links@) =~= configured_shares(before));
        assert(configured_shares(self.links@) =~= configured_shares(before));
        self.recalculate_total_weight();
    }

    /// Status summary for logging.
    pub fn status_summary(&self) -> (r: String)
        ensures
            r@ == join(self.links@.map_values(|l: LinkState| l.status_text()), " "@),
    {
        let mut parts: Vec<String> = Vec::new();
        let ghost texts = self.links@.map_values(|l: LinkState| l.status_text());
        let mut i: usize = 0;
        while i < self.links.len()
            invariant
                i <= self.links@.len(),
                texts == self.links@.map_values(|l: LinkState| l.status_text()),
                parts@.len() == i,
                forall|j: int| 0 <= j < i ==> (#[trigger] parts@[j])@ == texts[j],
            decreases self.links.len() - i,
        {
            parts.push(self.links[i].status());
            i = i + 1;
        }
        assert(parts@.map_values(|p: String| p@) =~= texts);
        let mut r: String = String::new();
        push_joined(&mut r, &parts, " ");
        assert(r@ =~= join(texts, " "@));
        r
    }

    /// Current weights.
    pub fn weights(&self) -> (r: Vec<u32>)
        ensures
            r@ == self.links@.map_values(|l: LinkState| l.weight),
    {
        let mut r: Vec<u32> = Vec::new();
        let mut i: usize = 0;
        while i < self.links.len()
            invariant
                i <= self.links@.len(),
                r@ == self.links@.map_values(|l: LinkState| l.weight).take(i as int),
            decreases self.links.len() - i,
        {
            r.push(self.links[i].weight);
            i = i + 1;
            assert(r@ =~= self.links@.map_values(|l: LinkState| l.weight).take(i as int));
        }
        assert(r@ =~= self.links@.map_values(|l: LinkState| l.weight));
        r
    }

    /// Weights of the configured bandwidths.
    pub fn target_weights(&self) -> (r: Vec<u32>)
        ensures
            r@ == self.links@.map_values(|l: LinkState| weight_of(l.configured_bandwidth_bps)),
    {
        let mut r: Vec<u32> = Vec::new();
        let mut i: usize = 0;
        while i < self.links.len()
            invariant
                i <= self.links@.len(),
                r@ == self.links@.map_values(|l: LinkState| weight_of(l.configured_bandwidth_bps)).take(i as int),
            decreases self.links.len() - i,
        {
            r.push(LinkState::bandwidth_to_weight(self.links[i].configured_bandwidth_bps));
            i = i + 1;
            assert(r@ =~= self.links@.map_values(|l: LinkState| weight_of(l.configured_bandwidth_bps)).take(
                i as int,
            ));
        }
        assert(r@ =~= self.links@.map_values(|l: LinkState| weight_of(l.configured_bandwidth_bps)));
        r
    }

    /// Health of every link.
    pub fn health_states(&self) -> (r: Vec<LinkHealth>)
        ensures
            r@ == self.links@.map_values(|l: LinkState| l.health),
    {
        let mut r: Vec<LinkHealth> = Vec::new();
        let mut i: usize = 0;
        while i < self.links.len()
            invariant
                i <= self.links@.len(),
                r@ == self.links@.map_values(|l: LinkState| l.health).take(i as int),
            decreases self.links.len() - i,
        {
            r.push(self.links[i].health);
            i = i + 1;
            assert(r@ =~= self.links@.map_values(|l: LinkState| l.health).take(i as int));
        }
        assert(r@ =~= self.links@.map_values(|l: LinkState| l.health));
        r
    }

    /// Which links carry traffic.
    pub fn health(&self) -> (r: Vec<bool>)
        ensures
            r@ == self.links@.map_values(|l: LinkState| l.weight > 0),
    {
        let mut r: Vec<bool> = Vec::new();
        let mut i: usize = 0;
        while i < self.links.len()
            invariant
                i <= self.links@.len(),
                r@ == self.links@.map_values(|l: LinkState| l.weight > 0).take(i as int),
            decreases self.links.len() - i,
        {
            r.push(self.links[i].weight > 0);
            i = i + 1;
            assert(r@ =~= self.links@.map_values(|l: LinkState| l.weight > 0).take(i as int));
        }
        assert(r@ =~= self.links@.map_values(|l: LinkState| l.weight > 0));
        r
    }

    /// Bandwidths to reckon with.
    pub fn effective_capacities(&self) -> (r: Vec<u64>)
        ensures
            r@ == self.links@.map_values(|l: LinkState| l.bandwidth()),
    {
        let mut r: Vec<u64> = Vec::new();
        let mut i: usize = 0;
        while i < self.links.len()
            invariant
                i <= self.links@.len(),
                r@ == self.links@.map_values(|l: LinkState| l.bandwidth()).take(i as int),
            decreases self.links.len() - i,
        {
            r.push(self.links[i].effective_bandwidth());
            i = i + 1;
            assert(r@ =~= self.links@.map_values(|l: LinkState| l.bandwidth()).take(i as int));
        }
        assert(r@ =~= self.links@.map_values(|l: LinkState| l.bandwidth()));
        r
    }

    /// Measured bandwidths.
    pub fn measured_bandwidths(&self) -> (r: Vec<u64>)
        ensures
            r@ == self.links@.map_values(|l: LinkState| l.measured_bandwidth_bps),
    {
        let mut r: Vec<u64> = Vec::new();
        let mut i: usize = 0;
        while i < self.links.len()
            invariant
                i <= self.links@.len(),
                r@ == self.links@.map_values(|l: LinkState| l.measured_bandwidth_bps).take(i as int),
            decreases self.links.len() - i,
        {
            r.push(self.links[i].measured_bandwidth_bps);
            i = i + 1;
            assert(r@ =~= self.links@.map_values(|l: LinkState| l.measured_bandwidth_bps).take(i as int));
        }
        assert(r@ =~= self.links@.map_values(|l: LinkState| l.measured_bandwidth_bps));
        r
    }

    /// Configured bandwidths.
    pub fn historical_bandwidths(&self) -> (r: Vec<u64>)
        ensures
            r@ == self.links@.map_values(|l: LinkState| l.configured_bandwidth_bps),
    {
        let mut r: Vec<u64> = Vec::new();
        let mut i: usize = 0;
        while i < self.links.len()
            invariant
                i <= self.links@.len(),
                r@ == self.links@.map_values(|l: LinkState| l.configured_bandwidth_bps).take(i as int),
            decreases self.links.len() - i,
        {
            r.push(self.links[i].configured_bandwidth_bps);
            i = i + 1;
            assert(r@ =~= self.links@.map_values(|l: LinkState| l.configured_bandwidth_bps).take(i as int));
        }
        assert(r@ =~= self.links@.map_values(|l: LinkState| l.configured_bandwidth_bps));
        r
    }
}

// ---------------------------------------------------------------------------
// Tiers
// ---------------------------------------------------------------------------

/// The tiers' priorities.
pub open spec fn priorities(tiers: Seq<LinkTierConfig>) -> Seq<u64> {
    tiers.map_values(|t: LinkTierConfig| t.priority as u64)
}

impl LinkScheduler {
    /// The tiers, as positions, by priority.
    pub open spec fn tiers_by_priority(self) -> Seq<usize> {
        order_of(priorities(self.config.link_tiers@), self.config.link_tiers@.len())
    }

    /// Whether a tier is of one link type and its link exists.
    pub open spec fn is_tier_of(self, k: usize, kind: Seq<char>) -> bool {
        &&& self.config.link_tiers@[k as int].link_type@ == kind
        &&& self.config.link_tiers@[k as int].link_id < self.links@.len()
    }

    /// Those of the tiers that are of one link type and whose links exist.
    pub open spec fn tiers_of(self, order: Seq<usize>, kind: Seq<char>) -> Seq<usize> {
        order.filter(|k: usize| self.is_tier_of(k, kind))
    }

    /// The capacities of tiers in the scheduler's direction.
    pub open spec fn capacities(self, tiers: Seq<usize>) -> Seq<u64> {
        tiers.map_values(
            |k: usize|
                if self.is_upload {
                    self.config.link_tiers@[k as int].capacity_up_bps
                } else {
                    self.config.link_tiers@[k as int].capacity_down_bps
                },
        )
    }

    /// The bandwidths measured on the tiers' links.
    pub open spec fn loads(self, tiers: Seq<usize>) -> Seq<u64> {
        tiers.map_values(
            |k: usize| self.links@[self.config.link_tiers@[k as int].link_id as int].measured_bandwidth_bps,
        )
    }

    /// The tiers' links.
    pub open spec fn tier_links(self, tiers: Seq<usize>) -> Seq<usize> {
        tiers.map_values(|k: usize| self.config.link_tiers@[k as int].link_id)
    }

    /// Whether all ADSL links together carry less than nine tenths of their
    /// capacity.
    pub open spec fn adsl_has_room(self, order: Seq<usize>) -> bool {
        let adsl = self.tiers_of(order, "adsl"@);
        total(self.loads(adsl)) < scaled(total(self.capacities(adsl)), Binary64::fraction(90, 100))
    }

    /// The link of the tiers that the cursor falls on, in proportion to the
    /// capacities; the first where there is no capacity.
    pub open spec fn filled(self, tiers: Seq<usize>) -> usize {
        let capacity = total(self.capacities(tiers));
        if capacity > 0 {
            self.tier_links(tiers)[slot(self.capacities(tiers), (self.cursor % (capacity as u64)) as nat)->0 as int]
        } else {
            self.tier_links(tiers)[0]
        }
    }

    /// The link of the next chunk by tiers, the links of its tier, and
    /// whether the cursor moves on: ADSL while it has room, else Starlink,
    /// else the tier of highest priority.
    pub open spec fn next_tiered(self, order: Seq<usize>) -> (usize, Seq<usize>, bool) {
        let adsl = self.tiers_of(order, "adsl"@);
        let starlink = self.tiers_of(order, "starlink"@);
        if self.adsl_has_room(order) {
            (self.filled(adsl), self.tier_links(adsl), true)
        } else if starlink.len() > 0 {
            (self.filled(starlink), self.tier_links(starlink), total(self.capacities(starlink)) > 0)
        } else {
            let first = if order.len() > 0 {
                self.config.link_tiers@[order[0] as int].link_id
            } else {
                0
            };
            (first, seq![first], false)
        }
    }

    /// Whether the sums over the tiers fit the machine.
    pub open spec fn tiers_fit(self, order: Seq<usize>) -> bool {
        &&& total(self.capacities(self.tiers_of(order, "adsl"@))) <= u64::MAX
        &&& total(self.loads(self.tiers_of(order, "adsl"@))) <= u64::MAX
        &&& !self.adsl_has_room(order) ==> total(self.capacities(self.tiers_of(order, "starlink"@))) <= u64::MAX
    }

    fn sort_tiers(&self) -> (r: Vec<usize>)
        ensures
            r@ == self.tiers_by_priority(),
            is_stable_order(priorities(self.config.link_tiers@), self.config.link_tiers@.len(), r@),
    {
        let mut keys: Vec<u64> = Vec::new();
        let mut i: usize = 0;
        while i < self.config.link_tiers.len()
            invariant
                i <= self.config.link_tiers@.len(),
                keys@ == priorities(self.config.link_tiers@).take(i as int),
            decreases self.config.link_tiers.len() - i,
        {
            keys.push(self.config.link_tiers[i].priority as u64);
            i = i + 1;
            assert(keys@ =~= priorities(self.config.link_tiers@).take(i as int));
        }
        assert(keys@ =~= priorities(self.config.link_tiers@));
        stable_order(&keys)
    }

    /// Whether `tiers` are positions of tiers whose links exist.
    spec fn sound(self, tiers: Seq<usize>) -> bool {
        forall|p: int|
            0 <= p < tiers.len() ==> (#[trigger] tiers[p]) < self.config.link_tiers@.len()
                && self.config.link_tiers@[tiers[p] as int].link_id < self.links@.len()
    }

    fn select_tiers(&self, order: &Vec<usize>, kind: &String) -> (r: Vec<usize>)
        requires
            forall|p: int| 0 <= p < order@.len() ==> (#[trigger] order@[p]) < self.config.link_tiers@.len(),
        ensures
            r@ == self.tiers_of(order@, kind@),
            self.sound(r@),
    {
        let ghost keep = |k: usize| self.is_tier_of(k, kind@);
        let mut r: Vec<usize> = Vec::new();
        let mut i: usize = 0;
        proof {
            lemma_filter_start(order@, keep);
        }
        while i < order.len()
            invariant
                i <= order@.len(),
                keep == (|k: usize| self.is_tier_of(k, kind@)),
                forall|p: int| 0 <= p < order@.len() ==> (#[trigger] order@[p]) < self.config.link_tiers@.len(),
                r@ == order@.take(i as int).filter(keep),
                self.sound(r@),
            decreases order.len() - i,
        {
            proof {
                lemma_filter_step(order@, keep, i as int);
            }
            let k: usize = order[i];
            if self.config.link_tiers[k].link_type == *kind && self.config.link_tiers[k].link_id < self.links.len() {
                r.push(k);
            }
            i = i + 1;
        }
        r
    }

    fn capacities_of(&self, tiers: &Vec<usize>) -> (r: Vec<u64>)
        requires
            self.sound(tiers@),
        ensures
            r@ == self.capacities(tiers@),
    {
        let mut r: Vec<u64> = Vec::new();
        let mut i: usize = 0;
        while i < tiers.len()
            invariant
                i <= tiers@.len(),
                self.sound(tiers@),
                r@ == self.capacities(tiers@).take(i as int),
            decreases tiers.len() - i,
        {
            let tier: &LinkTierConfig = &self.config.link_tiers[tiers[i]];
            r.push(
                if self.is_upload {
                    tier.capacity_up_bps
                } else {
                    tier.capacity_down_bps
                },
            );
            i = i + 1;
            assert(r@ =~= self.capacities(tiers@).take(i as int));
        }
        assert(r@ =~= self.capacities(tiers@));
        r
    }

    fn loads_of(&self, tiers: &Vec<usize>) -> (r: Vec<u64>)
        requires
            self.sound(tiers@),
        ensures
            r@ == self.loads(tiers@),
    {
        let mut r: Vec<u64> = Vec::new();
        let mut i: usize = 0;
        while i < tiers.len()
            invariant
                i <= tiers@.len(),
                self.sound(tiers@),
                r@ == self.loads(tiers@).take(i as int),
            decreases tiers.len() - i,
        {
            r.push(self.links[self.config.link_tiers[tiers[i]].link_id].measured_bandwidth_bps);
            i = i + 1;
            assert(r@ =~= self.loads(tiers@).take(i as int));
        }
        assert(r@ =~= self.loads(tiers@));
        r
    }

    fn links_of(&self, tiers: &Vec<usize>) -> (r: Vec<usize>)
        requires
            self.sound(tiers@),
        ensures
            r@ == self.tier_links(tiers@),
    {
        let mut r: Vec<usize> = Vec::new();
        let mut i: usize = 0;
        while i < tiers.len()
            invariant
                i <= tiers@.len(),
                self.sound(tiers@),
                r@ == self.tier_links(tiers@).take(i as int),
            decreases tiers.len() - i,
        {
            r.push(self.config.link_tiers[tiers[i]].link_id);
            i = i + 1;
            assert(r@ =~= self.tier_links(tiers@).take(i as int));
        }
        assert(r@ =~= self.tier_links(tiers@));
        r
    }

    fn fill(&self, tiers: &Vec<usize>, capacities: &Vec<u64>, capacity: u64) -> (r: usize)
        requires
            self.sound(tiers@),
            tiers@.len() > 0,
            capacities@ == self.capacities(tiers@),
            capacity == total(capacities@),
        ensures
            r == self.filled(tiers@),
            r < self.links@.len(),
    {
        if capacity > 0 {
            proof {
                assert(capacities.len() <= usize::MAX);
                lemma_slot(capacities@, (self.cursor % capacity) as nat);
            }
            if let Some(p) = pick(capacities, self.cursor % capacity) {
                return self.config.link_tiers[tiers[p]].link_id;
            }
        }
        self.config.link_tiers[tiers[0]].link_id
    }

    /// Those of the tiers whose links are to choose from, by priority.
    fn find_bulk_tiers(&self, pool: &Vec<usize>) -> (r: Vec<usize>)
        requires
            pool@ == self.bulk_pool(),
        ensures
            r@ == self.bulk_tiers(),
            forall|p: int| 0 <= p < r@.len() ==> (#[trigger] r@[p]) < self.config.link_tiers@.len(),
    {
        let order: Vec<usize> = self.sort_tiers();
        let ghost keep = |k: usize| pool@.contains(self.config.link_tiers@[k as int].link_id);
        let mut r: Vec<usize> = Vec::new();
        let mut i: usize = 0;
        proof {
            lemma_filter_start(order@, keep);
        }
        while i < order.len()
            invariant
                i <= order@.len(),
                keep == (|k: usize| pool@.contains(self.config.link_tiers@[k as int].link_id)),
                forall|p: int| 0 <= p < order@.len() ==> (#[trigger] order@[p]) < self.config.link_tiers@.len(),
                r@ == order@.take(i as int).filter(keep),
                forall|p: int| 0 <= p < r@.len() ==> (#[trigger] r@[p]) < self.config.link_tiers@.len(),
            decreases order.len() - i,
        {
            proof {
                lemma_filter_step(order@, keep, i as int);
            }
            if is_listed(pool, self.config.link_tiers[order[i]].link_id) {
                r.push(order[i]);
            }
            i = i + 1;
        }
        r
    }

    /// The link of the next chunk by tiers, the links of its tier, and
    /// whether the cursor moves on.
    fn choose_tiered(&self, order: &Vec<usize>) -> (r: (usize, Vec<usize>, bool))
        requires
            forall|p: int| 0 <= p < order@.len() ==> (#[trigger] order@[p]) < self.config.link_tiers@.len(),
            self.tiers_fit(order@),
        ensures
            (r.0, r.1@, r.2) == self.next_tiered(order@),
    {
        let adsl: Vec<usize> = self.select_tiers(order, &String::from_str("adsl"));
        let starlink: Vec<usize> = self.select_tiers(order, &String::from_str("starlink"));
        let adsl_capacities: Vec<u64> = self.capacities_of(&adsl);
        let adsl_capacity: u64 = sum(&adsl_capacities);
        let adsl_load: u64 = sum(&self.loads_of(&adsl));
        let threshold: u64 = scale(adsl_capacity, Binary64::ratio(90, 100));
        if adsl_load < threshold {
            proof {
                lemma_fraction(90, 100);
                lemma_zero_product(Binary64::fraction(90, 100));
                if adsl@.len() == 0 {
                    assert(adsl_capacities@.len() == 0);
                }
            }
            return (self.fill(&adsl, &adsl_capacities, adsl_capacity), self.links_of(&adsl), true);
        }
        if starlink.len() > 0 {
            let capacities: Vec<u64> = self.capacities_of(&starlink);
            let capacity: u64 = sum(&capacities);
            return (self.fill(&starlink, &capacities, capacity), self.links_of(&starlink), capacity > 0);
        }
        let first: usize = if order.len() > 0 {
            self.config.link_tiers[order[0]].link_id
        } else {
            0
        };
        let links: Vec<usize> = vec![first];
        assert(links@ =~= seq![first]);
        (first, links, false)
    }

    /// Tiered fill scheduling: spread across the ADSL links in proportion to
    /// their capacities; overflow to Starlink once ADSL is saturated.
    pub fn schedule_tiered_fill(&mut self, chunk_size: usize) -> (r: ScheduleDecision)
        requires
            old(self).wf(),
            old(self).tiers_fit(old(self).tiers_by_priority()),
            old(self).can_record(
                old(self).next_tiered(old(self).tiers_by_priority()).0 as int,
                chunk_size as nat,
            ),
        ensures
            final(self).wf(),
            final(self).same_setup(*old(self)),
            r@ == (DecisionView {
                link_id: old(self).next_tiered(old(self).tiers_by_priority()).0,
                delay_us: 0,
                participating_links: old(self).next_tiered(old(self).tiers_by_priority()).1,
            }),
            final(self).cursor == if old(self).next_tiered(old(self).tiers_by_priority()).2 {
                moved(old(self).cursor, chunk_size as nat)
            } else {
                old(self).cursor
            },
            final(self).links@ == with_sent(old(self).links@, r.link_id as int, chunk_size as nat),
    {
        let order: Vec<usize> = self.sort_tiers();
        let (link_id, participating_links, moves) = self.choose_tiered(&order);
        if moves {
            self.cursor = self.cursor.wrapping_add(chunk_size as u64);
        }
        self.record_sent(link_id, chunk_size);
        ScheduleDecision { link_id, delay_us: 0, participating_links }
    }

    /// Whether the sums over the tiers of bulk chunks fit the machine.
    pub fn can_fill_tiers(&self) -> (r: bool)
        requires
            self.wf(),
        ensures
            r == self.bulk_tiers_fit(),
    {
        let pool: Vec<usize> = self.find_pool();
        if pool.len() == 0 || Strategy::named(&self.config.strategy) != Strategy::TieredFill {
            return true;
        }
        let order: Vec<usize> = self.find_bulk_tiers(&pool);
        if order.len() == 0 {
            return true;
        }
        let adsl: Vec<usize> = self.select_tiers(&order, &String::from_str("adsl"));
        match (checked_sum(&self.capacities_of(&adsl)), checked_sum(&self.loads_of(&adsl))) {
            (Some(capacity), Some(load)) => {
                let starlink: Vec<usize> = self.select_tiers(&order, &String::from_str("starlink"));
                load < scale(capacity, Binary64::ratio(90, 100)) || checked_sum(
                    &self.capacities_of(&starlink),
                ).is_some()
            },
            _ => false,
        }
    }
}

/// Whether `list` names `id`.
fn is_listed(list: &Vec<usize>, id: usize) -> (r: bool)
    ensures
        r == list@.contains(id),
{
    let mut i: usize = 0;
    while i < list.len()
        invariant
            i <= list@.len(),
            forall|p: int| 0 <= p < i ==> list@[p] != id,
        decreases list.len() - i,
    {
        if list[i] == id {
            assert(list@[i as int] == id);
            return true;
        }
        i = i + 1;
    }
    false
}

fn copy_list(list: &Vec<usize>) -> (r: Vec<usize>)
    ensures
        r@ == list@,
{
    let mut r: Vec<usize> = Vec::new();
    let mut i: usize = 0;
    while i < list.len()
        invariant
            i <= list@.len(),
            r@ == list@.take(i as int),
        decreases list.len() - i,
    {
        r.push(list[i]);
        i = i + 1;
        assert(r@ =~= list@.take(i as int));
    }
    assert(r@ =~= list@);
    r
}

proof fn lemma_equal_total(n: nat, share: u64)
    ensures
        total(Seq::new(n, |j: int| share)) == n * share,
    decreases n,
{
    if n > 0 {
        let shares = Seq::new(n, |j: int| share);
        let shorter = Seq::new((n - 1) as nat, |j: int| share);
        assert(shares.drop_last() =~= shorter);
        lemma_equal_total((n - 1) as nat, share);
        assert((n - 1) * share + share == n * share) by (nonlinear_arith);
    }
}

proof fn lemma_equal_last_max(n: nat, value: u64)
    requires
        n <= usize::MAX,
    ensures
        last_max(Seq::new(n, |j: int| value)) == if n == 0 {
            None
        } else {
            Some((n - 1) as usize)
        },
    decreases n,
{
    if n > 0 {
        let values = Seq::new(n, |j: int| value);
        let shorter = Seq::new((n - 1) as nat, |j: int| value);
        assert(values.drop_last() =~= shorter);
        lemma_equal_last_max((n - 1) as nat, value);
    }
}

// ---------------------------------------------------------------------------
// Laws
// ---------------------------------------------------------------------------

/// The round over all links never picks a link without weight while any link
/// has some.
pub proof fn law_round_skips_idle_links(s: LinkScheduler)
    requires
        s.wf(),
        s.links@.len() <= usize::MAX,
        total(weight_shares(s.links@)) > 0,
    ensures
        s.next_of_all() < s.links@.len(),
        s.links@[s.next_of_all() as int].weight > 0,
{
    let weights = weight_shares(s.links@);
    lemma_slot(weights, (advanced(s.cursor) % (total(weights) as u64)) as nat);
}

/// Over any full round of the cursor, each link is picked exactly as often as
/// its weight says.
pub proof fn law_round_is_proportional(s: LinkScheduler, from: nat, i: int)
    requires
        s.wf(),
        s.links@.len() <= usize::MAX,
        0 <= i < s.links@.len(),
        total(weight_shares(s.links@)) > 0,
    ensures
        crate::share::picks(weight_shares(s.links@), from, s.total_weight as nat, i) == s.links@[i].weight,
{
    crate::share::law_full_round(weight_shares(s.links@), from, i);
}

/// In weighted rounds bulk chunks never go to a link without weight while any
/// link has some, provided the bulk links are those of the current weights.
pub proof fn law_bulk_skips_idle_links(s: LinkScheduler)
    requires
        s.wf(),
        s.bulk_is_current(),
        s.links@.len() <= usize::MAX,
        total(weight_shares(s.links@)) > 0,
    ensures
        s.next_multi() < s.links@.len(),
        s.links@[s.next_multi() as int].weight > 0,
{
    if s.bulk_eligible@.len() >= 2 {
        lemma_bulk_links(s.links@);
        let shares = s.bulk_shares();
        let pos = (advanced(s.cursor) % (s.bulk_total_weight as u64)) as nat;
        assert(shares[0] > 0) by {
            assert(s.links@[s.bulk_eligible@[0] as int].weight > 0);
        }
        lemma_total_take(shares, 0);
        lemma_start_grows(shares, 1, shares.len() as int);
        lemma_part_of_total(weight_shares(s.links@), s.bulk_eligible@);
        lemma_lists_fit(s.bulk_eligible@, s.links@.len());
        lemma_slot(shares, pos);
    } else {
        law_round_skips_idle_links(s);
    }
}

/// A list without repetition is no longer than what it lists.
proof fn lemma_lists_fit(list: Seq<usize>, n: nat)
    requires
        lists(list, n),
    ensures
        list.len() <= n,
{
    let places = list.map_values(|k: usize| k as int);
    assert(places.no_duplicates());
    places.unique_seq_to_set();
    assert forall|x: int| #[trigger] places.to_set().contains(x) implies 0 <= x < n by {
        let p = choose|p: int| 0 <= p < places.len() && places[p] == x;
        assert(list[p] == x);
    }
    let all = vstd::set_lib::set_int_range(0, n as int);
    vstd::set_lib::lemma_int_range(0, n as int);
    assert(places.to_set().subset_of(all));
    vstd::set_lib::lemma_len_subset(places.to_set(), all);
}

/// Among links whose times are known, none slower than two and a half times
/// the median carries bulk traffic.
pub proof fn law_bulk_leaves_out_slow_links(links: Seq<LinkState>, p: int)
    requires
        numbered(links),
        links.len() <= usize::MAX,
        timed(links).len() > 1,
        within(by_rtt(timed(links)), bulk_limit(links)).len() > 0,
        0 <= p < bulk_links(links).len(),
    ensures
        links[bulk_links(links)[p] as int].rtt_us <= bulk_limit(links),
{
    let n = links.len();
    lemma_filter_distinct(links, |l: LinkState| l.weight > 0 && l.rtt_us > 0, n);
    let t = timed(links);
    lemma_by_rtt(t, n);
    lemma_filter_distinct(by_rtt(t), |l: LinkState| l.rtt_us <= bulk_limit(links), n);
    let near = within(by_rtt(t), bulk_limit(links));
    assert(bulk_links(links)[p] == near[p].id);
    assert(by_rtt(t).contains(near[p]));
    let j = choose|j: int| 0 <= j < by_rtt(t).len() && by_rtt(t)[j] == near[p];
    assert(t.contains(by_rtt(t)[j]));
    let i = choose|i: int| 0 <= i < t.len() && t[i] == near[p];
    assert(links.contains(t[i]));
    let m = choose|m: int| 0 <= m < links.len() && links[m] == near[p];
    assert(links[m].id == m);
}

/// Measurements never change a weight: it stays, or goes back to that of the
/// configured bandwidth.
pub proof fn law_weights_ignore_measurements(
    s: LinkScheduler,
    link_id: int,
    bandwidth: u64,
    rtt_us: u64,
    now_ns: u64,
    i: int,
)
    requires
        0 <= i < s.links@.len(),
    ensures
        s.with_measurement(link_id, bandwidth, rtt_us, now_ns)[i].weight == s.links@[i].weight,
        restored(s.with_measurement(link_id, bandwidth, rtt_us, now_ns))[i].weight == weight_of(
            s.links@[i].configured_bandwidth_bps,
        ),
{
}

/// Chunks sent at one time on two links that carry traffic arrive at one
/// time, as long as neither delay runs into the limit.
pub proof fn law_sync_aligns_arrivals(s: LinkScheduler, a: int, b: int)
    requires
        0 <= a < s.links@.len(),
        0 <= b < s.links@.len(),
        s.links@[a].weight > 0,
        s.links@[b].weight > 0,
        s.sync_delay(a) < s.config.max_send_delay_ms * 1000,
        s.sync_delay(b) < s.config.max_send_delay_ms * 1000,
    ensures
        s.links@[a].rtt_us / 2 + s.sync_delay(a) == s.links@[b].rtt_us / 2 + s.sync_delay(b),
{
    lemma_latency_known(s, a);
    lemma_latency_known(s, b);
}

proof fn lemma_latency_known(s: LinkScheduler, a: int)
    requires
        0 <= a < s.links@.len(),
        s.links@[a].weight > 0,
    ensures
        s.links@[a].rtt_us / 2 <= greatest(s.latencies()),
{
    let keep = |l: LinkState| l.weight > 0;
    s.links@.lemma_filter_contains(keep, a);
    let kept = active(s.links@);
    let p = choose|p: int| 0 <= p < kept.len() && kept[p] == s.links@[a];
    assert(s.latencies()[p] == s.links@[a].rtt_us / 2);
    lemma_extremes(s.latencies(), p);
}

/// Filled by tiers, a chunk goes to an ADSL link while all of them together
/// have room, and overflows to a Starlink link, where there is one, once they
/// have none.
pub proof fn law_tiers_fill_in_order(s: LinkScheduler, order: Seq<usize>)
    requires
        order.len() <= usize::MAX,
        s.tiers_fit(order),
    ensures
        s.adsl_has_room(order) ==> s.tier_links(s.tiers_of(order, "adsl"@)).contains(s.next_tiered(order).0),
        !s.adsl_has_room(order) && s.tiers_of(order, "starlink"@).len() > 0 ==> s.tier_links(
            s.tiers_of(order, "starlink"@),
        ).contains(s.next_tiered(order).0),
{
    let adsl = s.tiers_of(order, "adsl"@);
    let starlink = s.tiers_of(order, "starlink"@);
    if s.adsl_has_room(order) {
        lemma_fraction(90, 100);
        lemma_zero_product(Binary64::fraction(90, 100));
        lemma_filled_is_a_tier(s, order, "adsl"@);
    } else if starlink.len() > 0 {
        lemma_filled_is_a_tier(s, order, "starlink"@);
    }
}

proof fn lemma_filled_is_a_tier(s: LinkScheduler, order: Seq<usize>, kind: Seq<char>)
    requires
        order.len() <= usize::MAX,
        total(s.capacities(s.tiers_of(order, kind))) <= u64::MAX,
        total(s.capacities(s.tiers_of(order, kind))) > 0 || s.tiers_of(order, kind).len() > 0,
    ensures
        s.tier_links(s.tiers_of(order, kind)).contains(s.filled(s.tiers_of(order, kind))),
{
    let tiers = s.tiers_of(order, kind);
    let capacities = s.capacities(tiers);
    let capacity = total(capacities);
    let p: int = if capacity > 0 {
        order.lemma_filter_len(|k: usize| s.is_tier_of(k, kind));
        lemma_slot(capacities, (s.cursor % (capacity as u64)) as nat);
        slot(capacities, (s.cursor % (capacity as u64)) as nat)->0 as int
    } else {
        0
    };
    assert(s.tier_links(tiers)[p] == s.filled(tiers));
}

proof fn lemma_tier_links(s: LinkScheduler, order: Seq<usize>, kind: Seq<char>, link_id: usize)
    requires
        s.tier_links(s.tiers_of(order, kind)).contains(link_id),
    ensures
        exists|p: int| 0 <= p < order.len() && s.config.link_tiers@[#[trigger] order[p] as int].link_id == link_id,
{
    let keep = |k: usize| s.is_tier_of(k, kind);
    let tiers = s.tiers_of(order, kind);
    let t = choose|t: int| 0 <= t < tiers.len() && s.tier_links(tiers)[t] == link_id;
    order.lemma_filter_contains_rev(keep, tiers[t]);
    let p = choose|p: int| 0 <= p < order.len() && order[p] == tiers[t];
    assert(s.config.link_tiers@[order[p] as int].link_id == link_id);
}

/// By whatever strategy, a bulk chunk goes to a link that carries traffic and
/// whose round-trip time is near the others', while there are such links.
pub proof fn law_every_strategy_keeps_to_the_bulk_links(s: LinkScheduler, chunk_size: nat)
    requires
        s.wf(),
        s.bulk_is_current(),
        s.bulk_tiers_fit(),
        s.links@.len() <= usize::MAX,
        s.config.link_tiers@.len() <= usize::MAX,
        total(weight_shares(s.links@)) > 0,
    ensures
        s.bulk_choice(chunk_size).link_id < s.links@.len(),
        s.links@[s.bulk_choice(chunk_size).link_id as int].weight > 0,
        s.bulk_eligible@.len() >= 2 ==> s.bulk_eligible@.contains(s.bulk_choice(chunk_size).link_id),
{
    lemma_pool(s);
    let pool = s.bulk_pool();
    let link_id = s.bulk_choice(chunk_size).link_id;
    lemma_lists_fit(pool, s.links@.len());
    match s.strategy() {
        Strategy::TieredFill => {
            lemma_tiered_in_pool(s);
        },
        Strategy::RoundRobin => {
            assert(pool.contains(s.in_turn(advanced(s.cursor) as nat)));
        },
        Strategy::SingleBest => {
            law_first_max(shares_at(weight_shares(s.links@), pool));
            assert(pool.contains(s.best_link()));
        },
        Strategy::Weighted => {
            law_bulk_skips_idle_links(s);
            lemma_next_of_bulk(s);
        },
    }
    if !(s.strategy() is Weighted) {
        let p = choose|p: int| 0 <= p < pool.len() && pool[p] == link_id;
        assert(pool[p] == link_id);
    }
}

proof fn lemma_next_of_bulk(s: LinkScheduler)
    requires
        s.wf(),
        s.links@.len() <= usize::MAX,
    ensures
        s.bulk_eligible@.len() >= 2 ==> s.bulk_eligible@.contains(s.next_multi()),
{
    if s.bulk_eligible@.len() >= 2 {
        let shares = s.bulk_shares();
        let pos = (advanced(s.cursor) % (s.bulk_total_weight as u64)) as nat;
        lemma_lists_fit(s.bulk_eligible@, s.links@.len());
        lemma_slot(shares, pos);
        match slot(shares, pos) {
            Some(p) => {
                assert(s.bulk_eligible@[p as int] == s.next_multi());
            },
            None => {
                assert(s.bulk_eligible@[0] == s.next_multi());
            },
        }
    }
}

proof fn lemma_tiered_in_pool(s: LinkScheduler)
    requires
        s.strategy() is TieredFill,
        s.bulk_tiers_fit(),
        s.config.link_tiers@.len() <= usize::MAX,
    ensures
        s.bulk_pool().contains(s.next_tiered(s.bulk_tiers()).0),
{
    let pool = s.bulk_pool();
    let order = s.bulk_tiers();
    let keep = |k: usize| pool.contains(s.config.link_tiers@[k as int].link_id);
    law_order_is_stable(priorities(s.config.link_tiers@), s.config.link_tiers@.len());
    s.tiers_by_priority().lemma_filter_len(keep);
    law_tiers_fill_in_order(s, order);
    let link_id = s.next_tiered(order).0;
    if s.adsl_has_room(order) {
        lemma_tier_links(s, order, "adsl"@, link_id);
    } else if s.tiers_of(order, "starlink"@).len() > 0 {
        lemma_tier_links(s, order, "starlink"@, link_id);
    } else {
        assert(s.config.link_tiers@[order[0] as int].link_id == link_id);
    }
    let p = choose|p: int| 0 <= p < order.len() && s.config.link_tiers@[#[trigger] order[p] as int].link_id == link_id;
    s.tiers_by_priority().lemma_filter_pred(keep, p);
}

/// The best link weighs no less than any other to choose from.
pub proof fn law_best_link_weighs_most(s: LinkScheduler, p: int)
    requires
        s.wf(),
        s.links@.len() <= usize::MAX,
        0 <= p < s.bulk_pool().len(),
    ensures
        s.bulk_pool().contains(s.best_link()),
        s.links@[s.bulk_pool()[p] as int].weight <= s.links@[s.best_link() as int].weight,
{
    lemma_pool(s);
    let pool = s.bulk_pool();
    lemma_lists_fit(pool, s.links@.len());
    let shares = shares_at(weight_shares(s.links@), pool);
    law_first_max(shares);
    assert(shares[p] == s.links@[pool[p] as int].weight);
    assert(shares[first_max(shares)->0 as int] == s.links@[s.best_link() as int].weight);
    assert(pool.contains(s.best_link()));
}

/// In turn, every link to choose from comes exactly once in as many positions
/// of the cursor as there are links, from wherever one counts.
pub proof fn law_turns_are_equal(s: LinkScheduler, from: nat, p: nat)
    requires
        s.wf(),
        p < s.bulk_pool().len(),
    ensures
        exists|k: nat| from <= k < from + s.bulk_pool().len() && #[trigger] s.in_turn(k) == s.bulk_pool()[p as int],
        forall|j: nat, k: nat|
            from <= j < from + s.bulk_pool().len() && from <= k < from + s.bulk_pool().len() && #[trigger] s.in_turn(j)
                == #[trigger] s.in_turn(k) ==> j == k,
{
    lemma_pool(s);
    let pool = s.bulk_pool();
    let links = pool.len();
    let rounds: int = (from / links) as int;
    vstd::arithmetic::div_mod::lemma_fundamental_div_mod(from as int, links as int);
    vstd::arithmetic::div_mod::lemma_mod_bound(from as int, links as int);
    let round = if p >= from % links {
        rounds
    } else {
        rounds + 1
    };
    let k = (links * round + p) as nat;
    assert(links * (rounds + 1) == links * rounds + links) by (nonlinear_arith);
    vstd::arithmetic::div_mod::lemma_fundamental_div_mod_converse(k as int, links as int, round, p as int);
    assert(s.in_turn(k) == pool[p as int]);
    assert forall|j: nat, k: nat|
        from <= j < from + links && from <= k < from + links && #[trigger] s.in_turn(j) == #[trigger] s.in_turn(k)
            implies j == k by {
        vstd::arithmetic::div_mod::lemma_fundamental_div_mod(j as int, links as int);
        vstd::arithmetic::div_mod::lemma_fundamental_div_mod(k as int, links as int);
        vstd::arithmetic::div_mod::lemma_mod_bound(j as int, links as int);
        vstd::arithmetic::div_mod::lemma_mod_bound(k as int, links as int);
        assert(j % links == k % links);
        let a = (j / links) as int;
        let b = (k / links) as int;
        assert(a == b) by (nonlinear_arith)
            requires
                links > 0,
                -(links as int) < links * a - links * b < links,
        ;
    }
}

/// No chunk waits longer than the configured limit.
pub proof fn law_sync_delay_is_bounded(s: LinkScheduler, link_id: int)
    ensures
        s.sync_delay(link_id) <= s.config.max_send_delay_ms * 1000,
{
}

/// A link with no less than one Mbps configured weighs its Mbps.
pub proof fn law_weight_is_mbps(bps: u64)
    requires
        125_000 <= bps < 125_000 * 0x1_0000_0000,
    ensures
        weight_of(bps) == bps / 125_000,
{
}

// ---------------------------------------------------------------------------
// Bulk links
// ---------------------------------------------------------------------------

/// Whether a link carries traffic and its round-trip time is known.
pub open spec fn is_timed(l: LinkState) -> bool {
    l.weight > 0 && l.rtt_us > 0
}

/// Whether `sorted` holds the known round-trip times of the links that carry
/// traffic, in order.
pub open spec fn sorts_times(links: Seq<LinkState>, sorted: Seq<u64>) -> bool {
    &&& sorted.to_multiset() == links.filter(|l: LinkState| is_timed(l)).map_values(
        |l: LinkState| l.rtt_us,
    ).to_multiset()
    &&& forall|p: int, q: int| 0 <= p < q < sorted.len() ==> sorted[p] <= sorted[q]
}

/// Once two times are known, a link is for bulk traffic if and only if it
/// carries traffic, its time is known, and twice its time is no more than five
/// times the median.
pub proof fn law_bulk_links_are_near_the_median(links: Seq<LinkState>, sorted: Seq<u64>, i: usize)
    requires
        numbered(links),
        links.len() <= usize::MAX,
        sorts_times(links, sorted),
        sorted.len() >= 2,
        sorted[(sorted.len() / 2) as int] < 0x4_0000_0000_0000,
        i < links.len(),
    ensures
        bulk_links(links).contains(i) <==> links[i as int].weight > 0 && links[i as int].rtt_us > 0 && 2
            * links[i as int].rtt_us <= 5 * sorted[(sorted.len() / 2) as int],
{
    let n = links.len();
    let t = timed(links);
    assert((|l: LinkState| is_timed(l)) =~= (|l: LinkState| l.weight > 0 && l.rtt_us > 0));
    assert(links.filter(|l: LinkState| is_timed(l)) == t);
    assert(t.map_values(|l: LinkState| l.rtt_us) == rtts(t));
    lemma_numbered_distinct(links);
    lemma_filter_distinct(links, |l: LinkState| l.weight > 0 && l.rtt_us > 0, n);
    lemma_by_rtt(t, n);
    lemma_sorted_times(t, sorted, n);
    let m = sorted[(sorted.len() / 2) as int];
    let limit = bulk_limit(links);
    assert(limit == 5 * m / 2) by {
        lemma_same_fraction(25, 10, 5, 2);
        vstd::arithmetic::power2::lemma2_to64();
        lemma_dyadic_part(m as nat, 5, 1);
    }
    let order = by_rtt(t);
    lemma_filter_distinct(order, |l: LinkState| l.rtt_us <= limit, n);
    let near = within(order, limit);
    let middle = (t.len() / 2) as int;
    order.lemma_filter_contains(|l: LinkState| l.rtt_us <= limit, middle);
    assert(near.len() > 0);
    assert(bulk_links(links) == ids(near));
    let l = links[i as int];
    if bulk_links(links).contains(i) {
        let p = choose|p: int| 0 <= p < near.len() && ids(near)[p] == i;
        assert(order.contains(near[p]));
        let j = choose|j: int| 0 <= j < order.len() && order[j] == near[p];
        assert(t.contains(order[j]));
        let k = choose|k: int| 0 <= k < t.len() && t[k] == near[p];
        assert(is_timed(t[k]));
        assert(links.contains(t[k]));
        let h = choose|h: int| 0 <= h < links.len() && links[h] == near[p];
        assert(links[h].id == h);
        assert(near[p] == l);
    }
    if is_timed(l) && 2 * l.rtt_us <= 5 * m {
        links.lemma_filter_contains(|l: LinkState| l.weight > 0 && l.rtt_us > 0, i as int);
        let k = choose|k: int| 0 <= k < t.len() && t[k] == l;
        lemma_by_rtt_has(t, k);
        let j = choose|j: int| 0 <= j < order.len() && order[j] == l;
        order.lemma_filter_contains(|l: LinkState| l.rtt_us <= limit, j);
        let p = choose|p: int| 0 <= p < near.len() && near[p] == l;
        assert(ids(near)[p] == i);
    }
}

/// The bulk links come fastest first once two times are known.
pub proof fn law_bulk_links_come_fastest_first(links: Seq<LinkState>, p: int, q: int)
    requires
        numbered(links),
        links.len() <= usize::MAX,
        timed(links).len() >= 2,
        0 <= p < q < bulk_links(links).len(),
    ensures
        links[bulk_links(links)[p] as int].rtt_us <= links[bulk_links(links)[q] as int].rtt_us,
{
    let n = links.len();
    let t = timed(links);
    lemma_numbered_distinct(links);
    lemma_filter_distinct(links, |l: LinkState| l.weight > 0 && l.rtt_us > 0, n);
    lemma_by_rtt(t, n);
    let order = by_rtt(t);
    let limit = bulk_limit(links);
    lemma_filter_distinct(order, |l: LinkState| l.rtt_us <= limit, n);
    let near = within(order, limit);
    let chosen = if near.len() == 0 {
        order
    } else {
        near
    };
    assert(bulk_links(links) == ids(chosen));
    lemma_filter_sorted(order, |l: LinkState| l.rtt_us <= limit);
    assert(chosen[p].rtt_us <= chosen[q].rtt_us);
    assert forall|r: int| 0 <= r < chosen.len() implies links[(#[trigger] chosen[r]).id as int] == chosen[r] by {
        if near.len() > 0 {
            assert(order.contains(near[r]));
        }
        let j = choose|j: int| 0 <= j < order.len() && order[j] == chosen[r];
        assert(t.contains(order[j]));
        let k = choose|k: int| 0 <= k < t.len() && t[k] == chosen[r];
        assert(links.contains(t[k]));
        let h = choose|h: int| 0 <= h < links.len() && links[h] == chosen[r];
        assert(links[h].id == h);
    }
}

/// While fewer than two times are known, the bulk links are all that carry
/// traffic.
pub proof fn law_bulk_links_before_times_are_known(links: Seq<LinkState>, i: usize)
    requires
        numbered(links),
        links.len() <= usize::MAX,
        links.filter(|l: LinkState| is_timed(l)).len() < 2,
        i < links.len(),
    ensures
        bulk_links(links).contains(i) <==> links[i as int].weight > 0,
{
    assert((|l: LinkState| is_timed(l)) =~= (|l: LinkState| l.weight > 0 && l.rtt_us > 0));
    let carry = active(links);
    lemma_bulk_links(links);
    if bulk_links(links).contains(i) {
        let p = choose|p: int| 0 <= p < bulk_links(links).len() && bulk_links(links)[p] == i;
        assert(links[bulk_links(links)[p] as int].weight > 0);
    }
    if links[i as int].weight > 0 {
        links.lemma_filter_contains(|l: LinkState| l.weight > 0, i as int);
        let p = choose|p: int| 0 <= p < carry.len() && carry[p] == links[i as int];
        assert(ids(carry)[p] == i);
    }
}

proof fn lemma_numbered_distinct(links: Seq<LinkState>)
    requires
        numbered(links),
    ensures
        distinct(links, links.len()),
{
}

proof fn lemma_by_rtt_has(links: Seq<LinkState>, k: int)
    requires
        0 <= k < links.len() <= usize::MAX,
    ensures
        by_rtt(links).contains(links[k]),
{
    let n = links.len();
    let keys = rtts(links);
    law_order_is_stable(keys, n);
    let order = order_of(keys, n);
    let places = order.map_values(|k: usize| k as int);
    assert forall|p: int, q: int| 0 <= p < q < places.len() implies places[p] != places[q] by {
        assert(order[p] != order[q]);
    }
    places.unique_seq_to_set();
    let all = vstd::set_lib::set_int_range(0, n as int);
    vstd::set_lib::lemma_int_range(0, n as int);
    assert forall|x: int| #[trigger] places.to_set().contains(x) implies all.contains(x) by {
        let p = choose|p: int| 0 <= p < places.len() && places[p] == x;
        assert(order[p] == x);
    }
    vstd::set_lib::lemma_subset_equality(places.to_set(), all);
    assert(places.to_set().contains(k));
    let p = choose|p: int| 0 <= p < places.len() && places[p] == k;
    assert(by_rtt(links)[p] == links[k]);
}

proof fn lemma_sorted_times(t: Seq<LinkState>, sorted: Seq<u64>, n: nat)
    requires
        distinct(t, n),
        t.len() <= usize::MAX,
        sorted.to_multiset() == rtts(t).to_multiset(),
        forall|p: int, q: int| 0 <= p < q < sorted.len() ==> sorted[p] <= sorted[q],
    ensures
        sorted == rtts(by_rtt(t)),
        sorted.len() == t.len(),
{
    broadcast use vstd::seq_lib::group_to_multiset_ensures;

    let keys = rtts(t);
    law_order_keeps_keys(keys, t.len());
    lemma_by_rtt(t, n);
    assert(keys.take(t.len() as int) =~= keys);
    let order = order_of(keys, t.len());
    law_order_is_stable(keys, t.len());
    assert(rtts(by_rtt(t)) =~= order.map_values(|k: usize| keys[k as int]));
    let leq = |a: u64, b: u64| a <= b;
    assert forall|p: int, q: int| 0 <= p < q < by_rtt(t).len() implies rtts(by_rtt(t))[p] <= rtts(by_rtt(t))[q] by {
        assert(by_rtt(t)[p].rtt_us <= by_rtt(t)[q].rtt_us);
    }
    vstd::seq_lib::lemma_sorted_unique(sorted, rtts(by_rtt(t)), leq);
}

proof fn lemma_filter_sorted(links: Seq<LinkState>, keep: spec_fn(LinkState) -> bool)
    requires
        forall|p: int, q: int| 0 <= p < q < links.len() ==> (#[trigger] links[p]).rtt_us <= (#[trigger] links[q]).rtt_us,
    ensures
        forall|p: int, q: int|
            0 <= p < q < links.filter(keep).len() ==> (#[trigger] links.filter(keep)[p]).rtt_us <= (
            #[trigger] links.filter(keep)[q]).rtt_us,
    decreases links.len(),
{
    reveal(Seq::filter);
    if links.len() > 0 {
        let shorter = links.drop_last();
        assert forall|p: int, q: int| 0 <= p < q < shorter.len() implies (#[trigger] shorter[p]).rtt_us <= (
        #[trigger] shorter[q]).rtt_us by {
            assert(shorter[p] == links[p] && shorter[q] == links[q]);
        }
        lemma_filter_sorted(shorter, keep);
        let kept = shorter.filter(keep);
        let all = links.filter(keep);
        assert forall|p: int, q: int| 0 <= p < q < all.len() implies (#[trigger] all[p]).rtt_us <= (
        #[trigger] all[q]).rtt_us by {
            assert(all[p] == kept[p]);
            if q < kept.len() {
                assert(all[q] == kept[q]);
            } else {
                shorter.lemma_filter_contains_rev(keep, kept[p]);
                let j = choose|j: int| 0 <= j < shorter.len() && shorter[j] == kept[p];
                assert(links[j] == kept[p]);
            }
        }
    }
}

// ---------------------------------------------------------------------------
// Measurements
// ---------------------------------------------------------------------------

/// A measured time counts one eighth against seven of the smoothed one; the
/// first counts as it is, and zero does not count.
pub proof fn law_times_are_averaged(s: LinkScheduler, i: int, bandwidth: u64, rtt_us: u64, now_ns: u64)
    requires
        0 <= i < s.links@.len(),
        s.links@[i].rtt_us < 0x100_0000_0000,
        rtt_us < 0x100_0000_0000,
    ensures
        ({
            let old_us = s.links@[i].rtt_us;
            let new_us = s.with_measurement(i, bandwidth, rtt_us, now_ns)[i].rtt_us;
            &&& rtt_us == 0 ==> new_us == old_us
            &&& rtt_us > 0 && old_us == 0 ==> new_us == rtt_us
            &&& rtt_us > 0 && old_us > 0 ==> 8 * new_us <= rtt_us + 7 * old_us <= 8 * (new_us + 1)
        }),
{
    lemma_same_fraction(125, 1000, 1, 8);
    lemma_mean_is_close(1, 8, rtt_us as nat, s.links@[i].rtt_us as nat);
}

/// A measured bandwidth counts three tenths against seven of the smoothed one;
/// the first counts as it is, and zero does not count.
pub proof fn law_bandwidths_are_averaged(s: LinkScheduler, i: int, bandwidth: u64, rtt_us: u64, now_ns: u64)
    requires
        0 <= i < s.links@.len(),
        s.links@[i].measured_bandwidth_bps < 0x100_0000_0000,
        bandwidth < 0x100_0000_0000,
    ensures
        ({
            let old_bps = s.links@[i].measured_bandwidth_bps;
            let new_bps = s.with_measurement(i, bandwidth, rtt_us, now_ns)[i].measured_bandwidth_bps;
            &&& bandwidth == 0 ==> new_bps == old_bps
            &&& bandwidth > 0 && old_bps == 0 ==> new_bps == bandwidth
            &&& bandwidth > 0 && old_bps > 0 ==> 10 * new_bps <= 3 * bandwidth + 7 * old_bps <= 10 * (new_bps + 1)
        }),
{
    lemma_mean_is_close(3, 10, bandwidth as nat, s.links@[i].measured_bandwidth_bps as nat);
}

/// A measurement of one link counts what it delivered and touches nothing else
/// of it, nor any other link.
pub proof fn law_measurement_touches_one_link(
    s: LinkScheduler,
    link_id: int,
    bandwidth: u64,
    rtt_us: u64,
    now_ns: u64,
    i: int,
)
    requires
        0 <= i < s.links@.len(),
        s.links@[i].bytes_delivered + bandwidth <= u64::MAX,
    ensures
        ({
            let before = s.links@[i];
            let after = s.with_measurement(link_id, bandwidth, rtt_us, now_ns)[i];
            &&& i != link_id ==> after == before
            &&& i == link_id ==> after.bytes_delivered == before.bytes_delivered + bandwidth && after.last_update == now_ns
            &&& after.id == before.id && after.weight == before.weight && after.health == before.health
                && after.bytes_sent == before.bytes_sent && after.configured_bandwidth_bps
                == before.configured_bandwidth_bps
        }),
{
}

/// The weights go back to the configured ones at most once a second.
pub proof fn law_weights_rest_for_a_second(s: LinkScheduler, now_ns: u64)
    ensures
        s.due(now_ns) <==> now_ns - s.last_adjustment >= 1_000_000_000,
{
}

/// A link put back weighs its configured bandwidth in Mbps, at least one, and
/// is healthy; nothing else of it changes.
pub proof fn law_restored_links_weigh_their_mbps(links: Seq<LinkState>, i: int)
    requires
        0 <= i < links.len(),
        links[i].configured_bandwidth_bps < 125_000 * 0x1_0000_0000,
    ensures
        ({
            let before = links[i];
            let after = restored(links)[i];
            &&& restored(links).len() == links.len()
            &&& before.configured_bandwidth_bps < 125_000 ==> after.weight == 1
            &&& before.configured_bandwidth_bps >= 125_000 ==> after.weight * 125_000 <= before.configured_bandwidth_bps < (
            after.weight + 1) * 125_000
            &&& after.health is Normal
            &&& after == (LinkState { weight: after.weight, health: after.health, ..before })
        }),
{
}

/// New weights replace the first ones and touch nothing else; from the rate
/// controller, a link is degraded exactly if its new weight is zero.
pub proof fn law_new_weights(links: Seq<LinkState>, weights: Seq<u32>, i: int)
    requires
        0 <= i < links.len(),
    ensures
        reweighted(links, weights).len() == links.len(),
        rate_controlled(links, weights).len() == links.len(),
        i >= weights.len() ==> reweighted(links, weights)[i] == links[i] && rate_controlled(links, weights)[i] == links[i],
        i < weights.len() ==> reweighted(links, weights)[i].weight == weights[i] && rate_controlled(
            links,
            weights,
        )[i].weight == weights[i] && reweighted(links, weights)[i].health == links[i].health && (rate_controlled(
            links,
            weights,
        )[i].health is Degraded <==> weights[i] == 0),
        rate_controlled(links, weights)[i].rtt_us == links[i].rtt_us,
        rate_controlled(links, weights)[i].id == links[i].id,
        reweighted(links, weights)[i].rtt_us == links[i].rtt_us,
        reweighted(links, weights)[i].id == links[i].id,
{
}

/// A link delivers what arrived over what was sent, all of it where nothing
/// was sent and never more than all.
pub proof fn law_delivered_share(l: LinkState)
    requires
        l.bytes_sent < 0x20_0000_0000_0000,
        l.bytes_delivered < 0x20_0000_0000_0000,
    ensures
        l.bytes_sent == 0 ==> l.delivered_share() == Binary64::of_nat(1),
        0 < l.bytes_sent <= l.bytes_delivered ==> l.delivered_share() == Binary64::of_nat(1),
        l.bytes_delivered <= l.bytes_sent && l.bytes_sent > 0 ==> l.delivered_share() == Binary64::fraction(
            l.bytes_delivered as nat,
            l.bytes_sent as nat,
        ),
{
    if l.bytes_sent > 0 {
        let d = l.bytes_delivered as nat;
        let n = l.bytes_sent as nat;
        lemma_whole_fraction(1);
        lemma_fraction(d, n);
        lemma_fraction(1, 1);
        if d <= n {
            lemma_fraction_order(d, n, 1, 1);
        }
        if n <= d {
            lemma_fraction_order(1, 1, d, n);
        }
        reveal(Binary64::less);
        reveal(Binary64::at_most);
        let x = Binary64::fraction(d, n);
        let one = Binary64::of_nat(1);
        if n <= d && !one.less(x) {
            lemma_same_units(x.mag(), one.mag());
        }
    }
}

/// The spread is half the difference of the slowest and the fastest bulk link,
/// in whole milliseconds: no two bulk links are further apart.
pub proof fn law_spread_covers_the_bulk_links(s: LinkScheduler, p: int, q: int)
    requires
        0 <= p < s.bulk_eligible@.len(),
        0 <= q < s.bulk_eligible@.len(),
        p != q,
        s.links@[s.bulk_eligible@[p] as int].rtt_us > 0,
        s.links@[s.bulk_eligible@[q] as int].rtt_us > 0,
    ensures
        ({
            let a = s.links@[s.bulk_eligible@[p] as int].rtt_us;
            let b = s.links@[s.bulk_eligible@[q] as int].rtt_us;
            &&& a - b < 2000 * (s.spread_ms() + 1)
            &&& (forall|r: int|
                0 <= r < s.bulk_eligible@.len() && s.links@[(#[trigger] s.bulk_eligible@[r]) as int].rtt_us > 0 ==> b
                    <= s.links@[s.bulk_eligible@[r] as int].rtt_us <= a) ==> 2000 * s.spread_ms() <= a - b
        }),
{
    let listed = s.bulk_eligible@.map_values(|id: usize| s.links@[id as int]);
    let keep = |l: LinkState| l.rtt_us > 0;
    let kept = listed.filter(keep);
    let times = s.bulk_rtts();
    assert(times == rtts(kept));
    lemma_two_kept(listed, keep, p, q);
    listed.lemma_filter_contains(keep, p);
    listed.lemma_filter_contains(keep, q);
    let a = s.links@[s.bulk_eligible@[p] as int].rtt_us;
    let b = s.links@[s.bulk_eligible@[q] as int].rtt_us;
    let i = choose|i: int| 0 <= i < kept.len() && kept[i] == listed[p];
    let j = choose|j: int| 0 <= j < kept.len() && kept[j] == listed[q];
    assert(times[i] == a && times[j] == b);
    lemma_extremes(times, i);
    lemma_extremes(times, j);
    lemma_extremes_occur(times);
    let g = choose|k: int| 0 <= k < times.len() && times[k] == greatest(times);
    let l = choose|k: int| 0 <= k < times.len() && times[k] == least(times);
    listed.lemma_filter_contains_rev(keep, kept[g]);
    listed.lemma_filter_contains_rev(keep, kept[l]);
    listed.lemma_filter_pred(keep, g);
    listed.lemma_filter_pred(keep, l);
    let u = choose|u: int| 0 <= u < listed.len() && listed[u] == kept[g];
    let v = choose|v: int| 0 <= v < listed.len() && listed[v] == kept[l];
    assert(s.links@[s.bulk_eligible@[u] as int].rtt_us == greatest(times));
    assert(s.links@[s.bulk_eligible@[v] as int].rtt_us == least(times));
}

proof fn lemma_two_kept(links: Seq<LinkState>, keep: spec_fn(LinkState) -> bool, p: int, q: int)
    requires
        0 <= p < links.len(),
        0 <= q < links.len(),
        p != q,
        keep(links[p]),
        keep(links[q]),
    ensures
        links.filter(keep).len() >= 2,
    decreases links.len(),
{
    reveal(Seq::filter);
    let shorter = links.drop_last();
    let last = links.len() - 1;
    if p < last && q < last {
        lemma_two_kept(shorter, keep, p, q);
    } else if p < last {
        shorter.lemma_filter_contains(keep, p);
    } else {
        shorter.lemma_filter_contains(keep, q);
    }
}

// ---------------------------------------------------------------------------
// Choices
// ---------------------------------------------------------------------------

/// A bulk chunk waits for as long as the slowest link takes longer than its
/// own, one way, up to the limit; without synchronisation it does not wait.
pub proof fn law_chunks_wait_for_the_slowest_link(s: LinkScheduler, chunk_size: nat, slowest: int)
    requires
        0 <= slowest < s.links@.len(),
        s.links@[slowest].weight > 0,
        forall|i: int|
            0 <= i < s.links@.len() && (#[trigger] s.links@[i]).weight > 0 ==> s.links@[i].rtt_us
                <= s.links@[slowest].rtt_us,
        s.bulk_decision(chunk_size).link_id < s.links@.len(),
        s.config.max_send_delay_ms * 1000 <= u64::MAX,
    ensures
        ({
            let d = s.bulk_decision(chunk_size);
            let own = s.links@[d.link_id as int].rtt_us / 2;
            let longest = s.links@[slowest].rtt_us / 2;
            let limit = s.config.max_send_delay_ms * 1000;
            &&& !s.config.enable_sync ==> d.delay_us == 0
            &&& s.config.enable_sync && own >= longest ==> d.delay_us == 0
            &&& s.config.enable_sync && own < longest && longest - own <= limit ==> d.delay_us == longest - own
            &&& s.config.enable_sync && longest - own > limit ==> d.delay_us == limit
        }),
{
    lemma_latency_known(s, slowest);
    let times = s.latencies();
    let keep = |l: LinkState| l.weight > 0;
    let kept = active(s.links@);
    s.links@.lemma_filter_contains(keep, slowest);
    lemma_extremes_occur(times);
    let g = choose|k: int| 0 <= k < times.len() && times[k] == greatest(times);
    s.links@.lemma_filter_contains_rev(keep, kept[g]);
    s.links@.lemma_filter_pred(keep, g);
    let u = choose|u: int| 0 <= u < s.links@.len() && s.links@[u] == kept[g];
    assert(s.links@[u].weight > 0);
    assert(greatest(times) == s.links@[slowest].rtt_us / 2);
}

/// Bulk chunks choose among the bulk links that carry traffic, or among all
/// that do while the bulk links are fewer than two.
pub proof fn law_links_to_choose_from(s: LinkScheduler, i: usize)
    requires
        s.wf(),
        s.links@.len() <= usize::MAX,
        i < s.links@.len(),
    ensures
        s.bulk_pool().contains(i) <==> s.links@[i as int].weight > 0 && (s.bulk_eligible@.len() >= 2
            ==> s.bulk_eligible@.contains(i)),
{
    let list = if s.bulk_eligible@.len() >= 2 {
        s.bulk_eligible@
    } else {
        ids(s.links@)
    };
    let keep = |id: usize| s.links@[id as int].weight > 0;
    assert(s.bulk_pool() == list.filter(keep));
    assert(ids(s.links@)[i as int] == i);
    if s.bulk_pool().contains(i) {
        list.lemma_filter_contains_rev(keep, i);
        let p = choose|p: int| 0 <= p < s.bulk_pool().len() && s.bulk_pool()[p] == i;
        list.lemma_filter_pred(keep, p);
    }
    if s.links@[i as int].weight > 0 && list.contains(i) {
        let p = choose|p: int| 0 <= p < list.len() && list[p] == i;
        list.lemma_filter_contains(keep, p);
    }
}

proof fn lemma_strategy_names()
    ensures
        strategy_of("round_robin"@) is RoundRobin,
        strategy_of("single_best"@) is SingleBest,
        strategy_of("tiered_fill"@) is TieredFill,
{
    reveal_strlit("round_robin");
    reveal_strlit("single_best");
    reveal_strlit("tiered_fill");
    assert("round_robin"@[0] == 'r' && "single_best"@[0] == 's' && "tiered_fill"@[0] == 't');
}

/// In turn, the chunk goes to the link at the next place of the cursor, and
/// the cursor moves on by one.
pub proof fn law_round_robin_takes_turns(s: LinkScheduler, chunk_size: nat)
    requires
        s.config.strategy@ == "round_robin"@,
        s.bulk_pool().len() > 0,
        s.cursor < u64::MAX,
    ensures
        s.bulk_decision(chunk_size).link_id == s.bulk_pool()[(s.cursor + 1) % (s.bulk_pool().len() as int)],
        s.bulk_choice(chunk_size).cursor == s.cursor + 1,
        s.bulk_decision(chunk_size).participating_links == s.bulk_pool(),
{
    lemma_strategy_names();
}

/// On the best link alone, no link to choose from weighs more than the one
/// taken, none before it as much, and the cursor stays.
pub proof fn law_single_best_takes_the_heaviest(s: LinkScheduler, chunk_size: nat, p: int)
    requires
        s.wf(),
        s.links@.len() <= usize::MAX,
        s.config.strategy@ == "single_best"@,
        0 <= p < s.bulk_pool().len(),
    ensures
        ({
            let d = s.bulk_decision(chunk_size);
            &&& s.bulk_pool().contains(d.link_id)
            &&& s.links@[s.bulk_pool()[p] as int].weight <= s.links@[d.link_id as int].weight
            &&& d.participating_links == seq![d.link_id]
            &&& s.bulk_choice(chunk_size).cursor == s.cursor
        }),
{
    lemma_strategy_names();
    law_best_link_weighs_most(s, p);
}

/// By any other name, the chunk goes to the link whose part of the line of the
/// bulk links' weights holds the next place of the cursor; all links' weights
/// while the bulk links are fewer than two.
pub proof fn law_weighted_rounds_follow_the_weights(s: LinkScheduler, chunk_size: nat, at: int)
    requires
        s.wf(),
        s.bulk_is_current(),
        s.links@.len() <= usize::MAX,
        s.config.strategy@ != "round_robin"@,
        s.config.strategy@ != "single_best"@,
        s.config.strategy@ != "tiered_fill"@,
        s.cursor < u64::MAX,
        total(weight_shares(s.links@)) > 0,
        0 <= at,
    ensures
        ({
            let d = s.bulk_decision(chunk_size);
            let all = s.links@.map_values(|l: LinkState| l.weight as u64);
            let bulk = s.bulk_eligible@.map_values(|id: usize| s.links@[id as int].weight as u64);
            let place = s.cursor + 1;
            &&& d.participating_links == s.bulk_eligible@
            &&& s.bulk_choice(chunk_size).cursor == s.cursor + 1
            &&& s.bulk_eligible@.len() < 2 && at < s.links@.len() ==> (d.link_id == at <==> start(all, at) <= (place
                % (total(all) as int)) < start(all, at) + all[at])
            &&& s.bulk_eligible@.len() >= 2 && at < s.bulk_eligible@.len() ==> (d.link_id == s.bulk_eligible@[at]
                <==> start(bulk, at) <= (place % (total(bulk) as int)) < start(bulk, at) + bulk[at])
        }),
{
    let all = s.links@.map_values(|l: LinkState| l.weight as u64);
    let bulk = s.bulk_eligible@.map_values(|id: usize| s.links@[id as int].weight as u64);
    assert(all == weight_shares(s.links@));
    assert(bulk =~= s.bulk_shares());
    assert(s.strategy() is Weighted);
    if s.bulk_eligible@.len() < 2 {
        let place = (advanced(s.cursor) % (total(all) as u64)) as nat;
        lemma_slot(all, place);
        if at < s.links@.len() {
            law_slot_is_proportional(all, place, at);
        }
    } else {
        lemma_bulk_links(s.links@);
        lemma_lists_fit(s.bulk_eligible@, s.links@.len());
        assert(bulk[0] > 0) by {
            assert(s.links@[s.bulk_eligible@[0] as int].weight > 0);
        }
        lemma_total_take(bulk, 0);
        lemma_start_grows(bulk, 1, bulk.len() as int);
        lemma_part_of_total(weight_shares(s.links@), s.bulk_eligible@);
        let place = (advanced(s.cursor) % (s.bulk_total_weight as u64)) as nat;
        lemma_slot(bulk, place);
        if at < s.bulk_eligible@.len() {
            law_slot_is_proportional(bulk, place, at);
        }
    }
}

/// Whether a tier's link exists and is of a type.
pub open spec fn has_type(s: LinkScheduler, k: usize, kind: Seq<char>) -> bool {
    s.config.link_tiers@[k as int].link_type@ == kind && s.config.link_tiers@[k as int].link_id < s.links@.len()
}

/// The capacities of the tiers of one link type in the scheduler's direction,
/// those whose links exist.
pub open spec fn capacities_by_type(s: LinkScheduler, order: Seq<usize>, kind: Seq<char>) -> Seq<u64> {
    order.filter(|k: usize| has_type(s, k, kind)).map_values(
        |k: usize|
            if s.is_upload {
                s.config.link_tiers@[k as int].capacity_up_bps
            } else {
                s.config.link_tiers@[k as int].capacity_down_bps
            },
    )
}

/// The bandwidths measured on the links of one link type.
pub open spec fn loads_by_type(s: LinkScheduler, order: Seq<usize>, kind: Seq<char>) -> Seq<u64> {
    order.filter(|k: usize| has_type(s, k, kind)).map_values(|k: usize| s.links@[s.config.link_tiers@[k as int].link_id as int].measured_bandwidth_bps)
}

/// The ADSL links take the chunk while they carry less than nine tenths of
/// their capacity, to one byte per second; once they do not, Starlink links
/// take it where there are any, and else the link of the first tier.
pub proof fn law_adsl_fills_to_nine_tenths(s: LinkScheduler, order: Seq<usize>)
    requires
        order.len() <= usize::MAX,
        s.tiers_fit(order),
        total(capacities_by_type(s, order, "adsl"@)) < 0x100_0000_0000,
    ensures
        ({
            let capacity = total(capacities_by_type(s, order, "adsl"@));
            let load = total(loads_by_type(s, order, "adsl"@));
            let taken = s.next_tiered(order).0;
            let on = |kind: Seq<char>|
                exists|p: int|
                    0 <= p < order.len() && s.config.link_tiers@[(#[trigger] order[p]) as int].link_type@ == kind
                        && s.config.link_tiers@[order[p] as int].link_id == taken;
            let has_starlink = exists|p: int|
                0 <= p < order.len() && s.config.link_tiers@[(#[trigger] order[p]) as int].link_type@ == "starlink"@
                    && s.config.link_tiers@[order[p] as int].link_id < s.links@.len();
            &&& 10 * (load + 1) < 9 * capacity ==> on("adsl"@)
            &&& 10 * load + 10 > 9 * capacity && has_starlink ==> on("starlink"@)
            &&& 10 * load + 10 > 9 * capacity && !has_starlink && order.len() > 0 ==> taken
                == s.config.link_tiers@[order[0] as int].link_id
        }),
{
    let adsl = s.tiers_of(order, "adsl"@);
    let starlink = s.tiers_of(order, "starlink"@);
    lemma_by_type(s, order, "adsl"@);
    lemma_by_type(s, order, "starlink"@);
    law_tiers_fill_in_order(s, order);
    let capacity = total(capacities_by_type(s, order, "adsl"@));
    let load = total(loads_by_type(s, order, "adsl"@));
    lemma_part_is_close(capacity, 90, 100);
    let taken = s.next_tiered(order).0;
    if s.adsl_has_room(order) {
        lemma_tier_of_type(s, order, "adsl"@, taken);
    } else if starlink.len() > 0 {
        lemma_tier_of_type(s, order, "starlink"@, taken);
    }
    let keep = |k: usize| s.is_tier_of(k, "starlink"@);
    if exists|p: int|
        0 <= p < order.len() && s.config.link_tiers@[(#[trigger] order[p]) as int].link_type@ == "starlink"@
            && s.config.link_tiers@[order[p] as int].link_id < s.links@.len() {
        let p = choose|p: int|
            0 <= p < order.len() && s.config.link_tiers@[(#[trigger] order[p]) as int].link_type@ == "starlink"@
                && s.config.link_tiers@[order[p] as int].link_id < s.links@.len();
        order.lemma_filter_contains(keep, p);
    } else if starlink.len() > 0 {
        order.lemma_filter_contains_rev(keep, starlink[0]);
        order.lemma_filter_pred(keep, 0);
        let p = choose|p: int| 0 <= p < order.len() && order[p] == starlink[0];
        assert(s.config.link_tiers@[order[p] as int].link_type@ == "starlink"@);
    }
}

proof fn lemma_by_type(s: LinkScheduler, order: Seq<usize>, kind: Seq<char>)
    ensures
        capacities_by_type(s, order, kind) == s.capacities(s.tiers_of(order, kind)),
        loads_by_type(s, order, kind) == s.loads(s.tiers_of(order, kind)),
{
    let raw = |k: usize| has_type(s, k, kind);
    let named = |k: usize| s.is_tier_of(k, kind);
    assert(raw =~= named);
    assert(order.filter(raw) == s.tiers_of(order, kind));
    assert(capacities_by_type(s, order, kind) =~= s.capacities(s.tiers_of(order, kind)));
    assert(loads_by_type(s, order, kind) =~= s.loads(s.tiers_of(order, kind)));
}

proof fn lemma_tier_of_type(s: LinkScheduler, order: Seq<usize>, kind: Seq<char>, link_id: usize)
    requires
        s.tier_links(s.tiers_of(order, kind)).contains(link_id),
    ensures
        exists|p: int|
            0 <= p < order.len() && s.config.link_tiers@[(#[trigger] order[p]) as int].link_type@ == kind
                && s.config.link_tiers@[order[p] as int].link_id == link_id,
{
    let keep = |k: usize| s.is_tier_of(k, kind);
    let tiers = s.tiers_of(order, kind);
    let t = choose|t: int| 0 <= t < tiers.len() && s.tier_links(tiers)[t] == link_id;
    order.lemma_filter_contains_rev(keep, tiers[t]);
    order.lemma_filter_pred(keep, t);
    let p = choose|p: int| 0 <= p < order.len() && order[p] == tiers[t];
    assert(s.config.link_tiers@[order[p] as int].link_id == link_id);
}

/// Within the ADSL links the chunk goes to the one whose part of the line of
/// their capacities holds the cursor, which moves on by the chunk's size.
pub proof fn law_tier_is_filled_by_capacity(s: LinkScheduler, chunk_size: nat, at: int)
    requires
        s.config.strategy@ == "tiered_fill"@,
        s.bulk_tiers().len() > 0,
        s.bulk_pool().len() > 0,
        s.bulk_tiers_fit(),
        s.adsl_has_room(s.bulk_tiers()),
        s.config.link_tiers@.len() <= usize::MAX,
        s.cursor + chunk_size <= u64::MAX,
        0 <= at < capacities_by_type(s, s.bulk_tiers(), "adsl"@).len(),
    ensures
        ({
            let c = capacities_by_type(s, s.bulk_tiers(), "adsl"@);
            let place = s.cursor as int % (total(c) as int);
            &&& start(c, at) <= place < start(c, at) + c[at] ==> s.bulk_decision(chunk_size).link_id
                == s.config.link_tiers@[s.tiers_of(s.bulk_tiers(), "adsl"@)[at] as int].link_id
            &&& s.bulk_choice(chunk_size).cursor == s.cursor + chunk_size
        }),
{
    lemma_strategy_names();
    let order = s.bulk_tiers();
    lemma_by_type(s, order, "adsl"@);
    let tiers = s.tiers_of(order, "adsl"@);
    let c = s.capacities(tiers);
    let pool = s.bulk_pool();
    s.tiers_by_priority().lemma_filter_len(|k: usize| pool.contains(s.config.link_tiers@[k as int].link_id));
    law_order_is_stable(priorities(s.config.link_tiers@), s.config.link_tiers@.len());
    order.lemma_filter_len(|k: usize| s.is_tier_of(k, "adsl"@));
    lemma_fraction(90, 100);
    lemma_zero_product(Binary64::fraction(90, 100));
    assert(total(c) > 0);
    let place = (s.cursor % (total(c) as u64)) as nat;
    lemma_slot(c, place);
    law_slot_is_proportional(c, place, at);
}

/// Tiers come by priority, the lowest number first.
pub proof fn law_tiers_come_by_priority(s: LinkScheduler, p: int, q: int)
    requires
        s.config.link_tiers@.len() <= usize::MAX,
        0 <= p < q < s.config.link_tiers@.len(),
    ensures
        s.tiers_by_priority().len() == s.config.link_tiers@.len(),
        s.config.link_tiers@[s.tiers_by_priority()[p] as int].priority
            <= s.config.link_tiers@[s.tiers_by_priority()[q] as int].priority,
{
    let keys = priorities(s.config.link_tiers@);
    law_order_is_stable(keys, s.config.link_tiers@.len());
    let order = s.tiers_by_priority();
    assert(keys[order[p] as int] <= keys[order[q] as int]);
}

/// Once the ADSL links have no room, the chunk goes to the Starlink link whose
/// part of the line of their capacities holds the cursor, which then moves on;
/// without capacity it goes to the first of them and the cursor stays.
pub proof fn law_overflow_is_filled_by_capacity(s: LinkScheduler, order: Seq<usize>, at: int)
    requires
        order.len() <= usize::MAX,
        s.tiers_fit(order),
        !s.adsl_has_room(order),
        0 <= at < capacities_by_type(s, order, "starlink"@).len(),
    ensures
        ({
            let c = capacities_by_type(s, order, "starlink"@);
            let place = s.cursor as int % (total(c) as int);
            let tiers = s.tiers_of(order, "starlink"@);
            &&& total(c) > 0 && start(c, at) <= place < start(c, at) + c[at] ==> s.next_tiered(order).0
                == s.config.link_tiers@[tiers[at] as int].link_id
            &&& total(c) == 0 ==> s.next_tiered(order).0 == s.config.link_tiers@[tiers[0] as int].link_id
            &&& s.next_tiered(order).2 <==> total(c) > 0
            &&& s.next_tiered(order).1.len() == c.len()
        }),
{
    lemma_by_type(s, order, "starlink"@);
    let tiers = s.tiers_of(order, "starlink"@);
    let c = s.capacities(tiers);
    order.lemma_filter_len(|k: usize| s.is_tier_of(k, "starlink"@));
    if total(c) > 0 {
        let place = (s.cursor % (total(c) as u64)) as nat;
        lemma_slot(c, place);
        law_slot_is_proportional(c, place, at);
    }
}

/// A link's bandwidth is the measured one once there is any, else the
/// configured one.
pub proof fn law_measured_bandwidth_counts(l: LinkState)
    ensures
        l.measured_bandwidth_bps > 0 ==> l.bandwidth() == l.measured_bandwidth_bps,
        l.measured_bandwidth_bps == 0 ==> l.bandwidth() == l.configured_bandwidth_bps,
{
}

/// What is sent counts on its link and on no other, and changes nothing else.
pub proof fn law_sent_bytes_are_counted(links: Seq<LinkState>, link_id: int, bytes: nat, i: int)
    requires
        0 <= i < links.len(),
        links[i].bytes_sent + bytes <= u64::MAX,
    ensures
        with_sent(links, link_id, bytes).len() == links.len(),
        i == link_id ==> with_sent(links, link_id, bytes)[i].bytes_sent == links[i].bytes_sent + bytes,
        i != link_id ==> with_sent(links, link_id, bytes)[i] == links[i],
        with_sent(links, link_id, bytes)[i] == (LinkState {
            bytes_sent: with_sent(links, link_id, bytes)[i].bytes_sent,
            ..links[i]
        }),
{
}

/// The cursor goes up by what it is moved, and starts over at the end.
pub proof fn law_cursor_starts_over(cursor: u64, bytes: nat)
    requires
        bytes <= u64::MAX,
    ensures
        advanced(cursor) as int == (cursor + 1) % 0x1_0000_0000_0000_0000,
        cursor + bytes <= u64::MAX ==> moved(cursor, bytes) == cursor + bytes,
        cursor + bytes > u64::MAX ==> moved(cursor, bytes) == cursor + bytes - 0x1_0000_0000_0000_0000,
{
}

/// A round begins anew for each link with its configured bandwidth, nothing
/// measured and nothing sent.
pub proof fn law_fresh_link(id: usize, bandwidth: u64, now_ns: u64)
    requires
        bandwidth < 125_000 * 0x1_0000_0000,
    ensures
        ({
            let l = LinkState::fresh(id, bandwidth, now_ns);
            &&& l.id == id && l.rtt_us == 0 && l.bytes_sent == 0 && l.bytes_delivered == 0 && l.health is Normal
            &&& l.configured_bandwidth_bps == bandwidth && l.bandwidth() == bandwidth && l.last_update == now_ns
            &&& bandwidth >= 125_000 ==> l.weight * 125_000 <= bandwidth < (l.weight + 1) * 125_000
            &&& bandwidth < 125_000 ==> l.weight == 1
        }),
{
}

/// While no link carries traffic, the round over all links stays at the first.
pub proof fn law_idle_round_stays_at_the_first(s: LinkScheduler)
    requires
        forall|i: int| 0 <= i < s.links@.len() ==> (#[trigger] s.links@[i]).weight == 0,
    ensures
        s.next_of_all() == 0,
{
    lemma_no_weight(weight_shares(s.links@));
}

proof fn lemma_no_weight(weights: Seq<u64>)
    requires
        forall|i: int| 0 <= i < weights.len() ==> (#[trigger] weights[i]) == 0,
    ensures
        total(weights) == 0,
    decreases weights.len(),
{
    if weights.len() > 0 {
        let shorter = weights.drop_last();
        assert forall|i: int| 0 <= i < shorter.len() implies (#[trigger] shorter[i]) == 0 by {
            assert(shorter[i] == weights[i]);
        }
        lemma_no_weight(shorter);
        assert(weights.last() == weights[weights.len() - 1]);
    }
}

/// Tiers can be filled unless a sum over one kind of them overflows.
pub proof fn law_ordinary_tiers_fit(s: LinkScheduler, order: Seq<usize>)
    requires
        total(capacities_by_type(s, order, "adsl"@)) <= u64::MAX,
        total(loads_by_type(s, order, "adsl"@)) <= u64::MAX,
        total(capacities_by_type(s, order, "starlink"@)) <= u64::MAX,
    ensures
        s.tiers_fit(order),
        order == s.bulk_tiers() ==> s.bulk_tiers_fit(),
{
    lemma_by_type(s, order, "adsl"@);
    lemma_by_type(s, order, "starlink"@);
}

} // verus!
