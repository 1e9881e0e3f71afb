//! Flow classifier.
//!
//! Classifies flows into three modes:
//! - Realtime: VoIP, gaming, SSH; pinned to the lowest-latency eligible link
//! - SingleLink: default moderate traffic; one link
//! - Bulk: large sustained transfers; multi-link aggregation with sync delay

use crate::accuracy::{lemma_dyadic_part, lemma_part_is_close, lemma_whole_quotient, lemma_whole_seconds};
use crate::binary64::{lemma_fraction_order, lemma_fractions_apart, lemma_whole_fraction, Binary64};
use crate::config::{FlowClassifierConfig, LinkTierConfig, RealtimeConfig};
use crate::measure::{as_seconds, larger, monus, scale, scaled, seconds};
use crate::order::{lemma_filter_start, lemma_filter_step};
use crate::protocol::{ports, FlowId};
use crate::share::{
    checked_sum, first_min, last_max, law_first_min, law_last_max, law_slot_is_proportional,
    lemma_filtered_total, lemma_slot, pick, position_of_first_min, position_of_last_max, slot,
    start, sum, total,
};
use crate::wire::get_be;
use std::collections::HashMap;
use vstd::prelude::*;

verus! {

broadcast use vstd::std_specs::hash::group_hash_axioms;

/// Flow routing mode.
#[derive(Debug, Clone, Copy, PartialEq, Eq, Structural)]
pub enum FlowMode {
    /// Pin to lowest-latency eligible link (VoIP, gaming, SSH)
    Realtime { link_id: usize },
    /// Use one link only
    SingleLink { link_id: usize },
    /// Scatter across multiple links with sync delay
    Bulk,
}

impl FlowMode {
    /// The mode's number on the wire.
    pub open spec fn code(self) -> u8 {
        match self {
            FlowMode::Realtime { .. } => 0,
            FlowMode::SingleLink { .. } => 1,
            FlowMode::Bulk => 2,
        }
    }

    /// The mode with a number on the wire; unknown numbers mean one link.
    pub open spec fn of_code(value: u8, link_id: usize) -> FlowMode {
        if value == 0 {
            FlowMode::Realtime { link_id }
        } else if value == 2 {
            FlowMode::Bulk
        } else {
            FlowMode::SingleLink { link_id }
        }
    }

    /// Convert to wire format byte.
    pub fn to_wire(&self) -> (r: u8)
        ensures
            r == self.code(),
    {
        match self {
            FlowMode::Realtime { .. } => 0,
            FlowMode::SingleLink { .. } => 1,
            FlowMode::Bulk => 2,
        }
    }

    /// Convert from wire format byte; the wire does not carry the link.
    pub fn from_wire(value: u8, link_id: usize) -> (r: FlowMode)
        ensures
            r == Self::of_code(value, link_id),
    {
        match value {
            0 => FlowMode::Realtime { link_id },
            1 => FlowMode::SingleLink { link_id },
            2 => FlowMode::Bulk,
            _ => FlowMode::SingleLink { link_id },
        }
    }
}

/// How long bandwidth samples are kept (nanoseconds).
pub const SAMPLE_LIFE_NS: u64 = 5_000_000_000;

/// How long packet timestamps are kept (nanoseconds).
pub const CADENCE_LIFE_NS: u64 = 2_000_000_000;

/// Bandwidth below which a steady flow of small packets counts as realtime:
/// 1 Mbps in bytes/sec.
pub const REALTIME_BANDWIDTH: u64 = 125_000;

/// State of a tracked flow.  Instants are nanoseconds of a monotonic clock.
#[derive(Debug)]
pub struct FlowState {
    pub flow_id: FlowId,
    pub mode: FlowMode,
    pub bytes_seen: u64,
    pub packets_seen: u64,
    pub first_seen: u64,
    pub last_seen: u64,
    /// Bandwidth samples (instant, bytes) in sliding window
    pub bandwidth_samples: Vec<(u64, u64)>,
    /// Time above the threshold (nanoseconds)
    pub time_above_threshold: u64,
    /// When the flow started to be on the other side of the threshold
    pub exceeded_threshold_at: Option<u64>,
    /// Packet timestamps for cadence detection (realtime heuristic)
    pub packet_timestamps: Vec<u64>,
    /// Sticky flag: once classified as realtime, stays realtime
    pub is_realtime: bool,
    /// Cached protocol number from IP header
    pub protocol: u8,
    /// Cached dst port
    pub dst_port: u16,
    /// Cached src port
    pub src_port: u16,
}

/// What a [`FlowState`] holds.
#[verifier::ext_equal]
pub struct FlowView {
    pub flow_id: FlowId,
    pub mode: FlowMode,
    pub bytes_seen: u64,
    pub packets_seen: u64,
    pub first_seen: u64,
    pub last_seen: u64,
    pub samples: Seq<(u64, u64)>,
    pub time_above_threshold: u64,
    pub exceeded_at: Option<u64>,
    pub stamps: Seq<u64>,
    pub is_realtime: bool,
    pub protocol: u8,
    pub dst_port: u16,
    pub src_port: u16,
}

impl View for FlowState {
    type V = FlowView;

    open spec fn view(&self) -> FlowView {
        FlowView {
            flow_id: self.flow_id,
            mode: self.mode,
            bytes_seen: self.bytes_seen,
            packets_seen: self.packets_seen,
            first_seen: self.first_seen,
            last_seen: self.last_seen,
            samples: self.bandwidth_samples@,
            time_above_threshold: self.time_above_threshold,
            exceeded_at: self.exceeded_threshold_at,
            stamps: self.packet_timestamps@,
            is_realtime: self.is_realtime,
            protocol: self.protocol,
            dst_port: self.dst_port,
            src_port: self.src_port,
        }
    }
}

/// The samples of the window that ends now.
pub open spec fn recent_samples(samples: Seq<(u64, u64)>, window_ns: nat, now_ns: u64) -> Seq<(u64, u64)> {
    samples.filter(|s: (u64, u64)| s.0 + window_ns > now_ns)
}

/// The instants of the window that ends now.
pub open spec fn recent_stamps(stamps: Seq<u64>, window_ns: nat, now_ns: u64) -> Seq<u64> {
    stamps.filter(|t: u64| t + window_ns > now_ns)
}

/// The sizes of the samples.
pub open spec fn sizes(samples: Seq<(u64, u64)>) -> Seq<u64> {
    samples.map_values(|s: (u64, u64)| s.1)
}

impl FlowView {
    /// The samples kept were all counted.
    pub open spec fn wf(self) -> bool {
        total(sizes(self.samples)) <= self.bytes_seen
    }

    /// The flow is in realtime mode if and only if it is flagged so.
    pub open spec fn consistent(self) -> bool {
        self.mode is Realtime <==> self.is_realtime
    }

    /// A flow that no packet was seen of.
    pub open spec fn fresh(flow_id: FlowId, link_id: usize, now_ns: u64) -> FlowView {
        FlowView {
            flow_id,
            mode: FlowMode::SingleLink { link_id },
            bytes_seen: 0,
            packets_seen: 0,
            first_seen: now_ns,
            last_seen: now_ns,
            samples: Seq::empty(),
            time_above_threshold: 0,
            exceeded_at: None,
            stamps: Seq::empty(),
            is_realtime: false,
            protocol: 0,
            dst_port: 0,
            src_port: 0,
        }
    }

    /// The flow with the tuple of its first packet.
    pub open spec fn labelled(self, tuple: (u8, u16, u16)) -> FlowView {
        if self.packets_seen == 0 {
            FlowView { protocol: tuple.0, src_port: tuple.1, dst_port: tuple.2, ..self }
        } else {
            self
        }
    }

    /// The flow with one packet more; old samples and instants are dropped.
    pub open spec fn recorded(self, bytes: nat, now_ns: u64) -> FlowView {
        FlowView {
            bytes_seen: (self.bytes_seen + bytes) as u64,
            packets_seen: (self.packets_seen + 1) as u64,
            last_seen: now_ns,
            samples: recent_samples(self.samples.push((now_ns, bytes as u64)), SAMPLE_LIFE_NS as nat, now_ns),
            stamps: recent_stamps(self.stamps.push(now_ns), CADENCE_LIFE_NS as nat, now_ns),
            ..self
        }
    }

    /// Bytes per second over the window that ends now.
    pub open spec fn bandwidth(self, window_ns: nat, now_ns: u64) -> u64 {
        if window_ns == 0 {
            0
        } else {
            Binary64::of_nat(total(sizes(recent_samples(self.samples, window_ns, now_ns)))).quotient(
                seconds(window_ns),
            ).truncated() as u64
        }
    }

    /// Packets per second over the window that ends now.
    pub open spec fn cadence(self, window_ns: nat, now_ns: u64) -> Binary64 {
        if window_ns == 0 {
            Binary64::of_nat(0)
        } else {
            Binary64::of_nat(recent_stamps(self.stamps, window_ns, now_ns).len()).quotient(seconds(window_ns))
        }
    }

    /// The flow as realtime traffic on a link.
    pub open spec fn pinned(self, link_id: usize) -> FlowView {
        FlowView { is_realtime: true, mode: FlowMode::Realtime { link_id }, ..self }
    }

    /// The flow in a mode, with the time since when it has been on the other
    /// side of the threshold.
    pub open spec fn in_mode(self, mode: FlowMode, exceeded_at: Option<u64>) -> FlowView {
        FlowView { mode, exceeded_at, ..self }
    }
}

impl FlowState {
    /// A flow that no packet was seen of.
    pub fn new(flow_id: FlowId, fastest_link: usize, now_ns: u64) -> (r: FlowState)
        ensures
            r@ == FlowView::fresh(flow_id, fastest_link, now_ns),
            r@.wf(),
    {
        let r: FlowState = FlowState {
            flow_id,
            mode: FlowMode::SingleLink { link_id: fastest_link },
            bytes_seen: 0,
            packets_seen: 0,
            first_seen: now_ns,
            last_seen: now_ns,
            bandwidth_samples: Vec::new(),
            time_above_threshold: 0,
            exceeded_threshold_at: None,
            packet_timestamps: Vec::new(),
            is_realtime: false,
            protocol: 0,
            dst_port: 0,
            src_port: 0,
        };
        assert(r@ =~= FlowView::fresh(flow_id, fastest_link, now_ns));
        assert(sizes(r@.samples) =~= Seq::<u64>::empty());
        r
    }

    /// Estimate current bandwidth (bytes/sec).
    pub fn estimated_bandwidth(&self, window_ns: u128, now_ns: u64) -> (r: u64)
        requires
            self@.wf(),
            window_ns / 1_000_000_000 <= u64::MAX,
        ensures
            r == self@.bandwidth(window_ns as nat, now_ns),
    {
        if window_ns == 0 {
            return 0;
        }
        let recent: Vec<(u64, u64)> = keep_samples(&self.bandwidth_samples, window_ns, now_ns);
        let bytes: Vec<u64> = sizes_of(&recent);
        proof {
            lemma_filtered_total(
                self@.samples,
                |s: (u64, u64)| s.0 + window_ns as nat > now_ns,
                |s: (u64, u64)| s.1,
            );
        }
        Binary64::from_u64(sum(&bytes)).over(as_seconds(window_ns)).to_u64()
    }

    /// Record a packet.
    pub fn record_bytes(&mut self, bytes: usize, now_ns: u64)
        requires
            old(self)@.wf(),
            old(self).bytes_seen + bytes <= u64::MAX,
            old(self).packets_seen < u64::MAX,
        ensures
            final(self)@ == old(self)@.recorded(bytes as nat, now_ns),
            final(self)@.wf(),
    {
        self.bytes_seen = self.bytes_seen + bytes as u64;
        self.packets_seen = self.packets_seen + 1;
        self.last_seen = now_ns;
        let ghost before = self.bandwidth_samples@;
        self.bandwidth_samples.push((now_ns, bytes as u64));
        self.packet_timestamps.push(now_ns);
        proof {
            let pushed = before.push((now_ns, bytes as u64));
            assert(sizes(pushed).drop_last() =~= sizes(before));
            lemma_filtered_total(
                pushed,
                |s: (u64, u64)| s.0 + SAMPLE_LIFE_NS as nat > now_ns,
                |s: (u64, u64)| s.1,
            );
        }
        self.bandwidth_samples = keep_samples(&self.bandwidth_samples, SAMPLE_LIFE_NS as u128, now_ns);
        self.packet_timestamps = keep_stamps(&self.packet_timestamps, CADENCE_LIFE_NS as u128, now_ns);
        assert(self@ =~= old(self)@.recorded(bytes as nat, now_ns));
    }

    /// Packets per second in a given window.
    pub fn packets_per_second(&self, window_ns: u128, now_ns: u64) -> (r: Binary64)
        requires
            window_ns / 1_000_000_000 <= u64::MAX,
        ensures
            r == self@.cadence(window_ns as nat, now_ns),
    {
        if window_ns == 0 {
            return Binary64::from_u64(0);
        }
        let recent: Vec<u64> = keep_stamps(&self.packet_timestamps, window_ns, now_ns);
        Binary64::from_u64(recent.len() as u64).over(as_seconds(window_ns))
    }
}

fn keep_samples(samples: &Vec<(u64, u64)>, window_ns: u128, now_ns: u64) -> (r: Vec<(u64, u64)>)
    requires
        window_ns / 1_000_000_000 <= u64::MAX,
    ensures
        r@ == recent_samples(samples@, window_ns as nat, now_ns),
{
    let ghost keep = |s: (u64, u64)| s.0 + window_ns as nat > now_ns;
    let mut r: Vec<(u64, u64)> = Vec::new();
    let mut i: usize = 0;
    proof {
        lemma_filter_start(samples@, keep);
    }
    while i < samples.len()
        invariant
            i <= samples@.len(),
            window_ns / 1_000_000_000 <= u64::MAX,
            keep == (|s: (u64, u64)| s.0 + window_ns as nat > now_ns),
            r@ == samples@.take(i as int).filter(keep),
        decreases samples.len() - i,
    {
        proof {
            lemma_filter_step(samples@, keep, i as int);
        }
        let sample: (u64, u64) = samples[i];
        if sample.0 as u128 + window_ns > now_ns as u128 {
            r.push(sample);
        }
        i = i + 1;
    }
    r
}

fn keep_stamps(stamps: &Vec<u64>, window_ns: u128, now_ns: u64) -> (r: Vec<u64>)
    requires
        window_ns / 1_000_000_000 <= u64::MAX,
    ensures
        r@ == recent_stamps(stamps@, window_ns as nat, now_ns),
{
    let ghost keep = |t: u64| t + window_ns as nat > now_ns;
    let mut r: Vec<u64> = Vec::new();
    let mut i: usize = 0;
    proof {
        lemma_filter_start(stamps@, keep);
    }
    while i < stamps.len()
        invariant
            i <= stamps@.len(),
            window_ns / 1_000_000_000 <= u64::MAX,
            keep == (|t: u64| t + window_ns as nat > now_ns),
            r@ == stamps@.take(i as int).filter(keep),
        decreases stamps.len() - i,
    {
        proof {
            lemma_filter_step(stamps@, keep, i as int);
        }
        let stamp: u64 = stamps[i];
        if stamp as u128 + window_ns > now_ns as u128 {
            r.push(stamp);
        }
        i = i + 1;
    }
    r
}

fn sizes_of(samples: &Vec<(u64, u64)>) -> (r: Vec<u64>)
    ensures
        r@ == sizes(samples@),
{
    let mut r: Vec<u64> = Vec::new();
    let mut i: usize = 0;
    while i < samples.len()
        invariant
            i <= samples@.len(),
            r@ == sizes(samples@).take(i as int),
        decreases samples.len() - i,
    {
        r.push(samples[i].1);
        i = i + 1;
        assert(r@ =~= sizes(samples@).take(i as int));
    }
    assert(r@ =~= sizes(samples@));
    r
}

// ---------------------------------------------------------------------------
// The classifier
// ---------------------------------------------------------------------------

/// Flow classifier for routing decisions.
#[derive(Debug)]
pub struct FlowClassifier {
    /// Active flows, by the number of their flow ID
    pub flows: HashMap<u64, FlowState>,
    pub config: FlowClassifierConfig,
    pub realtime_config: RealtimeConfig,
    /// Link tiers (for finding realtime-eligible links)
    pub link_tiers: Vec<LinkTierConfig>,
    /// Link bandwidths (bytes/sec)
    pub link_bandwidths: Vec<u64>,
    /// Link RTTs in microseconds
    pub link_rtts: Vec<u64>,
    /// Per-link weight factors from the optimizer, one by default;
    /// multiplied with the bandwidth where flows are spread over links
    pub weight_factors: Vec<Binary64>,
    /// Fastest link (by bandwidth)
    pub fastest_link: usize,
    /// Lowest-latency realtime-eligible link
    pub realtime_link: usize,
    /// Total available bandwidth
    pub total_bandwidth: u64,
}

/// Flow classifier statistics.
#[derive(Debug, Clone, Copy, PartialEq, Eq, Structural)]
pub struct FlowClassifierStats {
    pub total_flows: usize,
    pub single_link_flows: usize,
    pub bulk_flows: usize,
    pub realtime_flows: usize,
    pub fastest_link: usize,
    pub realtime_link: usize,
}

/// Protocol, source and destination port of an IP packet; zeros where it is
/// too short.
pub open spec fn tuple_of(packet: Seq<u8>) -> (u8, u16, u16) {
    if packet.len() < 20 {
        (0, 0, 0)
    } else {
        (packet[9], ports(packet).0 as u16, ports(packet).1 as u16)
    }
}

/// The greatest position of the greatest value, or zero.
pub open spec fn fastest_of(bandwidths: Seq<u64>) -> usize {
    match last_max(bandwidths) {
        Some(i) => i,
        None => 0,
    }
}

/// The tiers eligible for realtime traffic whose links exist, as positions.
pub open spec fn eligible_tiers(tiers: Seq<LinkTierConfig>, num_links: nat) -> Seq<usize> {
    Seq::new(tiers.len(), |k: int| k as usize).filter(
        |k: usize| tiers[k as int].realtime_eligible && tiers[k as int].link_id < num_links,
    )
}

/// A round-trip time to compare by: unknown counts as endless.
pub open spec fn rtt_or_endless(rtts: Seq<u64>, link_id: int) -> u64 {
    if link_id < rtts.len() && rtts[link_id] > 0 {
        rtts[link_id]
    } else {
        u64::MAX
    }
}

/// The link for realtime traffic: the eligible one with the least round-trip
/// time, or of highest priority where none is known.
pub open spec fn realtime_link_of(tiers: Seq<LinkTierConfig>, num_links: nat, rtts: Seq<u64>) -> usize {
    let eligible = eligible_tiers(tiers, num_links);
    let known = exists|p: int|
        0 <= p < eligible.len() && tiers[(#[trigger] eligible[p]) as int].link_id < rtts.len()
            && rtts[tiers[eligible[p] as int].link_id as int] > 0;
    let keys = eligible.map_values(
        |k: usize|
            if known {
                rtt_or_endless(rtts, tiers[k as int].link_id as int)
            } else {
                tiers[k as int].priority as u64
            },
    );
    match first_min(keys) {
        Some(p) => tiers[eligible[p as int] as int].link_id,
        None => 0,
    }
}

impl FlowClassifier {
    /// The flows, by number.
    pub open spec fn flow_map(self) -> Map<u64, FlowView> {
        self.flows@.map_values(|f: FlowState| f@)
    }

    /// Every flow holds what it counted, and its mode and flag agree.
    pub open spec fn wf(self) -> bool {
        forall|k: u64| #[trigger]
            self.flows@.dom().contains(k) ==> self.flows@[k]@.wf() && self.flows@[k]@.consistent()
    }

    /// Whether everything but the flows is the same.
    pub open spec fn same_setup(self, other: FlowClassifier) -> bool {
        self == FlowClassifier { flows: self.flows, ..other }
    }

    /// The weight factor of a link; one where none is set.
    pub open spec fn factor(self, i: int) -> Binary64 {
        if i < self.weight_factors@.len() {
            self.weight_factors@[i]
        } else {
            Binary64::of_nat(1)
        }
    }

    /// The links' shares of the flows: bandwidth times weight factor.
    pub open spec fn link_shares(self) -> Seq<u64> {
        Seq::new(self.link_bandwidths@.len(), |i: int| scaled(self.link_bandwidths@[i] as nat, self.factor(i)))
    }

    /// The link that a flow is assigned to: its number on the line of shares.
    pub open spec fn link_of(self, flow_id: FlowId) -> usize {
        let shares = self.link_shares();
        if total(shares) == 0 {
            0
        } else {
            slot(shares, (flow_id.0 % (total(shares) as u64)) as nat)->0
        }
    }

    /// Whether protocol and ports are known for realtime traffic.
    pub open spec fn realtime_ports(self, tuple: (u8, u16, u16)) -> bool {
        let udp = self.realtime_config.realtime_udp_ports@;
        let tcp = self.realtime_config.realtime_tcp_ports@;
        ||| tuple.0 == 17 && (udp.contains(tuple.1) || udp.contains(tuple.2))
        ||| tuple.0 == 6 && (tcp.contains(tuple.1) || tcp.contains(tuple.2))
    }

    /// The fastest link's bandwidth, at least one.
    pub open spec fn fastest_bandwidth(self) -> nat {
        if self.fastest_link < self.link_bandwidths@.len() {
            larger(self.link_bandwidths@[self.fastest_link as int] as nat, 1)
        } else {
            1
        }
    }

    /// Whether a flow looks like realtime traffic: many small packets, little
    /// bandwidth.
    pub open spec fn has_cadence(self, f: FlowView, len: nat, now_ns: u64) -> bool {
        let window = (self.config.realtime_window_ms * 1_000_000) as nat;
        &&& Binary64::of_nat(self.config.realtime_pps_threshold as nat).less(f.cadence(window, now_ns))
        &&& len <= self.realtime_config.max_realtime_packet_size
        &&& f.bandwidth(window, now_ns) < REALTIME_BANDWIDTH
    }

    /// A flow's bandwidth as a fraction of the fastest link's.
    pub open spec fn ratio(self, f: FlowView, now_ns: u64) -> Binary64 {
        Binary64::of_nat(f.bandwidth((self.config.flow_window_ms * 1_000_000) as nat, now_ns) as nat).quotient(
            Binary64::of_nat(self.fastest_bandwidth()),
        )
    }

    /// The mode by bandwidth: to bulk once above the multi-link threshold
    /// after being above the single-link threshold for long enough, back to
    /// one link after being below the single-link threshold for long enough.
    pub open spec fn by_bandwidth(self, f: FlowView, assigned: usize, now_ns: u64) -> FlowView {
        let ratio = self.ratio(f, now_ns);
        let since = match f.exceeded_at {
            Some(t) => t,
            None => now_ns,
        };
        let lasted = monus(now_ns as nat, since as nat) >= self.config.monitor_duration_ms * 1_000_000;
        match f.mode {
            FlowMode::SingleLink { .. } => if !self.config.single_link_threshold.less(ratio) {
                f.in_mode(f.mode, None)
            } else if self.config.multi_link_threshold.less(ratio) && lasted {
                f.in_mode(FlowMode::Bulk, None)
            } else {
                f.in_mode(f.mode, Some(since))
            },
            FlowMode::Bulk => if !ratio.less(self.config.single_link_threshold) {
                f.in_mode(f.mode, None)
            } else if lasted {
                f.in_mode(FlowMode::SingleLink { link_id: assigned }, None)
            } else {
                f.in_mode(f.mode, Some(since))
            },
            FlowMode::Realtime { .. } => f,
        }
    }

    /// The flow once a packet of it was recorded and judged.
    pub open spec fn judged(
        self,
        f: FlowView,
        signalled: bool,
        len: nat,
        assigned: usize,
        now_ns: u64,
    ) -> FlowView {
        if f.is_realtime || signalled || self.has_cadence(f, len, now_ns) {
            f.pinned(self.realtime_link)
        } else {
            self.by_bandwidth(f, assigned, now_ns)
        }
    }

    /// The flow before a packet of it.
    pub open spec fn flow_before(self, flow_id: FlowId, now_ns: u64) -> FlowView {
        if self.flows@.dom().contains(flow_id.0) {
            self.flows@[flow_id.0]@
        } else {
            FlowView::fresh(flow_id, self.link_of(flow_id), now_ns)
        }
    }

    /// The flow after a packet of it.
    pub open spec fn flow_after(self, flow_id: FlowId, packet: Seq<u8>, now_ns: u64) -> FlowView {
        let tuple = tuple_of(packet);
        self.judged(
            self.flow_before(flow_id, now_ns).labelled(tuple).recorded(packet.len(), now_ns),
            self.realtime_ports(tuple),
            packet.len(),
            self.link_of(flow_id),
            now_ns,
        )
    }

    /// Whether classifying a packet stays within the machine's integers.
    pub open spec fn accepts(self, packet: Seq<u8>) -> bool {
        FlowId::of_packet(packet) matches Some(id) ==> {
            &&& total(self.link_shares()) <= u64::MAX
            &&& self.flows@.dom().contains(id.0) ==> self.flows@[id.0].bytes_seen + packet.len() <= u64::MAX
                && self.flows@[id.0].packets_seen < u64::MAX
        }
    }

    /// The flows not heard of for too long.
    pub open spec fn expired(self, now_ns: u64) -> Set<u64> {
        self.flows@.dom().filter(
            |k: u64|
                monus(now_ns as nat, self.flows@[k].last_seen as nat) >= self.config.flow_expiry_ms * 1_000_000,
        )
    }

    /// How many flows are in modes with a number on the wire.
    pub open spec fn count(self, code: u8) -> nat {
        self.flows@.dom().filter(|k: u64| self.flows@[k].mode.code() == code).len()
    }
}

fn find_eligible(tiers: &Vec<LinkTierConfig>, num_links: usize) -> (r: Vec<usize>)
    ensures
        r@ == eligible_tiers(tiers@, num_links as nat),
        forall|p: int|
            0 <= p < r@.len() ==> (#[trigger] r@[p]) < tiers@.len() && tiers@[r@[p] as int].link_id < num_links,
{
    let ghost all = Seq::new(tiers@.len(), |k: int| k as usize);
    let ghost keep = |k: usize| tiers@[k as int].realtime_eligible && tiers@[k as int].link_id < num_links as nat;
    let mut r: Vec<usize> = Vec::new();
    let mut k: usize = 0;
    proof {
        lemma_filter_start(all, keep);
    }
    while k < tiers.len()
        invariant
            k <= tiers@.len(),
            all == Seq::new(tiers@.len(), |k: int| k as usize),
            keep == (|k: usize| tiers@[k as int].realtime_eligible && tiers@[k as int].link_id < num_links as nat),
            r@ == all.take(k as int).filter(keep),
            forall|p: int|
                0 <= p < r@.len() ==> (#[trigger] r@[p]) < tiers@.len() && tiers@[r@[p] as int].link_id < num_links,
        decreases tiers.len() - k,
    {
        proof {
            lemma_filter_step(all, keep, k as int);
        }
        if tiers[k].realtime_eligible && tiers[k].link_id < num_links {
            r.push(k);
        }
        k = k + 1;
    }
    r
}

/// The link for realtime traffic.
fn find_realtime_link(tiers: &Vec<LinkTierConfig>, num_links: usize, rtts: &Vec<u64>) -> (r: usize)
    ensures
        r == realtime_link_of(tiers@, num_links as nat, rtts@),
{
    let eligible: Vec<usize> = find_eligible(tiers, num_links);
    let mut known: bool = false;
    let mut i: usize = 0;
    while i < eligible.len()
        invariant
            i <= eligible@.len(),
            forall|p: int| 0 <= p < eligible@.len() ==> (#[trigger] eligible@[p]) < tiers@.len(),
            known == exists|p: int|
                0 <= p < i && tiers@[(#[trigger] eligible@[p]) as int].link_id < rtts@.len()
                    && rtts@[tiers@[eligible@[p] as int].link_id as int] > 0,
        decreases eligible.len() - i,
    {
        let link_id: usize = tiers[eligible[i]].link_id;
        if link_id < rtts.len() && rtts[link_id] > 0 {
            known = true;
        }
        i = i + 1;
    }
    let ghost key = |k: usize|
        if known {
            rtt_or_endless(rtts@, tiers@[k as int].link_id as int)
        } else {
            tiers@[k as int].priority as u64
        };
    let mut keys: Vec<u64> = Vec::new();
    let mut j: usize = 0;
    while j < eligible.len()
        invariant
            j <= eligible@.len(),
            forall|p: int| 0 <= p < eligible@.len() ==> (#[trigger] eligible@[p]) < tiers@.len(),
            key == (|k: usize|
                if known {
                    rtt_or_endless(rtts@, tiers@[k as int].link_id as int)
                } else {
                    tiers@[k as int].priority as u64
                }),
            keys@ == eligible@.map_values(key).take(j as int),
        decreases eligible.len() - j,
    {
        let tier: &LinkTierConfig = &tiers[eligible[j]];
        let value: u64 = if known {
            if tier.link_id < rtts.len() && rtts[tier.link_id] > 0 {
                rtts[tier.link_id]
            } else {
                u64::MAX
            }
        } else {
            tier.priority as u64
        };
        keys.push(value);
        j = j + 1;
        assert(keys@ =~= eligible@.map_values(key).take(j as int));
    }
    assert(keys@ =~= eligible@.map_values(key));
    match position_of_first_min(&keys) {
        Some(p) => tiers[eligible[p]].link_id,
        None => 0,
    }
}

fn repeat<T: Copy>(value: T, n: usize) -> (r: Vec<T>)
    ensures
        r@ == Seq::new(n as nat, |i: int| value),
{
    let mut r: Vec<T> = Vec::new();
    let mut i: usize = 0;
    while i < n
        invariant
            i <= n,
            r@ == Seq::new(i as nat, |j: int| value),
        decreases n - i,
    {
        r.push(value);
        i = i + 1;
        assert(r@ =~= Seq::new(i as nat, |j: int| value));
    }
    r
}

fn has_port(ports: &Vec<u16>, port: u16) -> (r: bool)
    ensures
        r == ports@.contains(port),
{
    let mut i: usize = 0;
    while i < ports.len()
        invariant
            i <= ports@.len(),
            forall|j: int| 0 <= j < i ==> ports@[j] != port,
        decreases ports.len() - i,
    {
        if ports[i] == port {
            return true;
        }
        i = i + 1;
    }
    false
}

/// The numbers of the flows, in some order.
fn keys_of(flows: &HashMap<u64, FlowState>) -> (r: Vec<u64>)
    ensures
        r@.no_duplicates(),
        r@.to_set() == flows@.dom(),
{
    let mut r: Vec<u64> = Vec::new();
    let ghost all = flows@.dom();
    for key in iter: flows.keys()
        invariant
            r@ == iter.seq().unref().take(iter.index()),
            iter.seq().unref().to_set() == all,
            iter.seq().no_duplicates(),
            iter.index() == iter.seq().len() ==> r@.to_set() == all,
    {
        r.push(*key);
        assert(r@ =~= iter.seq().unref().take(iter.index() + 1));
        assert(iter.seq().unref().take(iter.seq().len() as int) =~= iter.seq().unref());
    }
    r
}

impl FlowClassifier {
    /// A classifier without flows.
    pub fn new(
        config: FlowClassifierConfig,
        realtime_config: RealtimeConfig,
        link_tiers: Vec<LinkTierConfig>,
        link_bandwidths: Vec<u64>,
    ) -> (r: FlowClassifier)
        requires
            total(link_bandwidths@) <= u64::MAX,
        ensures
            r.wf(),
            r.flow_map() == Map::<u64, FlowView>::empty(),
            r.config == config,
            r.realtime_config == realtime_config,
            r.link_tiers == link_tiers,
            r.link_bandwidths == link_bandwidths,
            r.link_rtts@ == Seq::new(link_bandwidths@.len(), |i: int| 0u64),
            r.weight_factors@ == Seq::new(link_bandwidths@.len(), |i: int| Binary64::of_nat(1)),
            r.fastest_link == fastest_of(link_bandwidths@),
            r.realtime_link == realtime_link_of(link_tiers@, link_bandwidths@.len(), r.link_rtts@),
            r.total_bandwidth == total(link_bandwidths@),
    {
        let num_links: usize = link_bandwidths.len();
        let fastest_link: usize = match position_of_last_max(&link_bandwidths) {
            Some(i) => i,
            None => 0,
        };
        let total_bandwidth: u64 = sum(&link_bandwidths);
        let link_rtts: Vec<u64> = repeat(0, num_links);
        let realtime_link: usize = find_realtime_link(&link_tiers, num_links, &link_rtts);
        let r: FlowClassifier = FlowClassifier {
            flows: HashMap::new(),
            config,
            realtime_config,
            link_tiers,
            link_bandwidths,
            link_rtts,
            weight_factors: repeat(Binary64::from_u64(1), num_links),
            fastest_link,
            realtime_link,
            total_bandwidth,
        };
        assert(r.flow_map() =~= Map::<u64, FlowView>::empty());
        r
    }

    /// Update link bandwidths.  All zeros are ignored: nothing was measured
    /// yet.
    pub fn update_bandwidths(&mut self, bandwidths: Vec<u64>)
        requires
            old(self).wf(),
            total(bandwidths@) <= u64::MAX,
        ensures
            final(self).wf(),
            total(bandwidths@) == 0 ==> *final(self) == *old(self),
            total(bandwidths@) > 0 ==> *final(self) == (FlowClassifier {
                link_bandwidths: bandwidths,
                fastest_link: fastest_of(bandwidths@),
                total_bandwidth: total(bandwidths@) as u64,
                ..*old(self)
            }),
    {
        let new_total: u64 = sum(&bandwidths);
        if new_total == 0 {
            return;
        }
        self.fastest_link = match position_of_last_max(&bandwidths) {
            Some(i) => i,
            None => 0,
        };
        self.total_bandwidth = new_total;
        self.link_bandwidths = bandwidths;
    }

    /// Update link RTTs; realtime traffic moves to the eligible link with the
    /// lowest.
    pub fn update_rtts(&mut self, rtts: Vec<u64>)
        requires
            old(self).wf(),
        ensures
            final(self).wf(),
            *final(self) == (FlowClassifier {
                link_rtts: rtts,
                realtime_link: realtime_link_of(
                    old(self).link_tiers@,
                    old(self).link_bandwidths@.len(),
                    rtts@,
                ),
                ..*old(self)
            }),
    {
        self.realtime_link = find_realtime_link(&self.link_tiers, self.link_bandwidths.len(), &rtts);
        self.link_rtts = rtts;
    }

    /// Set optimizer weight factors.
    pub fn set_weight_factors(&mut self, factors: Vec<Binary64>)
        requires
            old(self).wf(),
        ensures
            final(self).wf(),
            *final(self) == (FlowClassifier { weight_factors: factors, ..*old(self) }),
    {
        self.weight_factors = factors;
    }

    /// Current weight factors.
    pub fn weight_factors(&self) -> (r: &Vec<Binary64>)
        ensures
            *r == self.weight_factors,
    {
        &self.weight_factors
    }

    fn shares(&self) -> (r: Vec<u64>)
        ensures
            r@ == self.link_shares(),
    {
        let mut r: Vec<u64> = Vec::new();
        let mut i: usize = 0;
        while i < self.link_bandwidths.len()
            invariant
                i <= self.link_bandwidths@.len(),
                r@ == self.link_shares().take(i as int),
            decreases self.link_bandwidths.len() - i,
        {
            let factor: Binary64 = if i < self.weight_factors.len() {
                self.weight_factors[i]
            } else {
                Binary64::from_u64(1)
            };
            r.push(scale(self.link_bandwidths[i], factor));
            i = i + 1;
            assert(r@ =~= self.link_shares().take(i as int));
        }
        assert(r@ =~= self.link_shares());
        r
    }

    /// Assigns a link to a flow by weighted hashing: flows are spread in
    /// proportion to bandwidth times weight factor.
    pub fn weighted_flow_link(&self, flow_id: FlowId) -> (r: usize)
        requires
            total(self.link_shares()) <= u64::MAX,
        ensures
            r == self.link_of(flow_id),
    {
        let shares: Vec<u64> = self.shares();
        let whole: u64 = sum(&shares);
        if whole == 0 {
            return 0;
        }
        proof {
            assert(shares.len() <= usize::MAX);
            lemma_slot(shares@, (flow_id.0 % whole) as nat);
        }
        match pick(&shares, flow_id.0 % whole) {
            Some(i) => i,
            None => 0,
        }
    }

    /// Protocol and ports of an IP packet.
    pub fn extract_tuple(packet: &[u8]) -> (r: (u8, u16, u16))
        ensures
            r == tuple_of(packet@),
    {
        if packet.len() < 20 {
            return (0, 0, 0);
        }
        let ihl: usize = (packet[0] % 16) as usize * 4;
        let protocol: u8 = packet[9];
        proof {
            crate::wire::lemma_byte_ranges();
        }
        if packet.len() >= ihl + 4 && (protocol == 6 || protocol == 17) {
            let src: u64 = get_be(packet, ihl, 2);
            let dst: u64 = get_be(packet, ihl + 2, 2);
            (protocol, src as u16, dst as u16)
        } else {
            (protocol, 0, 0)
        }
    }

    /// Whether protocol and ports are known for realtime traffic.
    pub fn is_realtime_packet(&self, protocol: u8, src_port: u16, dst_port: u16) -> (r: bool)
        ensures
            r == self.realtime_ports((protocol, src_port, dst_port)),
    {
        if protocol == 17 {
            if has_port(&self.realtime_config.realtime_udp_ports, dst_port) || has_port(
                &self.realtime_config.realtime_udp_ports,
                src_port,
            ) {
                return true;
            }
        }
        if protocol == 6 {
            if has_port(&self.realtime_config.realtime_tcp_ports, dst_port) || has_port(
                &self.realtime_config.realtime_tcp_ports,
                src_port,
            ) {
                return true;
            }
        }
        false
    }

    fn shows_cadence(&self, flow: &FlowState, len: usize, now_ns: u64) -> (r: bool)
        requires
            flow@.wf(),
        ensures
            r == self.has_cadence(flow@, len as nat, now_ns),
    {
        let window: u128 = self.config.realtime_window_ms as u128 * 1_000_000;
        let pps: Binary64 = flow.packets_per_second(window, now_ns);
        let bandwidth: u64 = flow.estimated_bandwidth(window, now_ns);
        Binary64::from_u64(self.config.realtime_pps_threshold as u64).lt(pps) && len
            <= self.realtime_config.max_realtime_packet_size && bandwidth < REALTIME_BANDWIDTH
    }

    fn judge_bandwidth(&self, flow: &mut FlowState, assigned: usize, now_ns: u64)
        requires
            old(flow)@.wf(),
        ensures
            final(flow)@ == self.by_bandwidth(old(flow)@, assigned, now_ns),
    {
        let fastest_bw: u64 = if self.fastest_link < self.link_bandwidths.len() {
            self.link_bandwidths[self.fastest_link]
        } else {
            1
        };
        let fastest_bw: u64 = if fastest_bw >= 1 {
            fastest_bw
        } else {
            1
        };
        let flow_bw: u64 = flow.estimated_bandwidth(self.config.flow_window_ms as u128 * 1_000_000, now_ns);
        let ratio: Binary64 = Binary64::from_u64(flow_bw).over(Binary64::from_u64(fastest_bw));
        let since: u64 = match flow.exceeded_threshold_at {
            Some(t) => t,
            None => now_ns,
        };
        let lasted: bool = now_ns.saturating_sub(since) as u128 >= self.config.monitor_duration_ms as u128 * 1_000_000;
        match flow.mode {
            FlowMode::SingleLink { .. } => {
                if self.config.single_link_threshold.lt(ratio) {
                    if self.config.multi_link_threshold.lt(ratio) && lasted {
                        flow.mode = FlowMode::Bulk;
                        flow.exceeded_threshold_at = None;
                    } else {
                        flow.exceeded_threshold_at = Some(since);
                    }
                } else {
                    flow.exceeded_threshold_at = None;
                }
            },
            FlowMode::Bulk => {
                if ratio.lt(self.config.single_link_threshold) {
                    if lasted {
                        flow.mode = FlowMode::SingleLink { link_id: assigned };
                        flow.exceeded_threshold_at = None;
                    } else {
                        flow.exceeded_threshold_at = Some(since);
                    }
                } else {
                    flow.exceeded_threshold_at = None;
                }
            },
            FlowMode::Realtime { .. } => {},
        }
    }

    fn judge(&self, flow: &mut FlowState, signalled: bool, len: usize, assigned: usize, now_ns: u64)
        requires
            old(flow)@.wf(),
        ensures
            final(flow)@ == self.judged(old(flow)@, signalled, len as nat, assigned, now_ns),
    {
        if flow.is_realtime || signalled || self.shows_cadence(flow, len, now_ns) {
            flow.is_realtime = true;
            flow.mode = FlowMode::Realtime { link_id: self.realtime_link };
        } else {
            self.judge_bandwidth(flow, assigned, now_ns);
        }
    }

    /// Whether [`FlowClassifier::classify`] can classify the packet.
    pub fn can_classify(&self, packet: &[u8]) -> (r: bool)
        ensures
            r == self.accepts(packet@),
    {
        match FlowId::from_packet(packet) {
            None => true,
            Some(id) => {
                if checked_sum(&self.shares()).is_none() {
                    return false;
                }
                match self.flows.get(&id.0) {
                    None => true,
                    Some(flow) => packet.len() as u64 <= u64::MAX - flow.bytes_seen && flow.packets_seen < u64::MAX,
                }
            },
        }
    }

    /// Classify a packet and return the routing decision.
    pub fn classify(&mut self, packet: &[u8], now_ns: u64) -> (r: FlowMode)
        requires
            old(self).wf(),
            old(self).accepts(packet@),
        ensures
            final(self).wf(),
            final(self).same_setup(*old(self)),
            FlowId::of_packet(packet@) is None ==> r is Bulk && final(self).flow_map() == old(self).flow_map(),
            FlowId::of_packet(packet@) matches Some(id) ==> r == old(self).flow_after(id, packet@, now_ns).mode
                && final(self).flow_map() == old(self).flow_map().insert(
                id.0,
                old(self).flow_after(id, packet@, now_ns),
            ),
    {
        let flow_id: FlowId = match FlowId::from_packet(packet) {
            Some(id) => id,
            None => {
                return FlowMode::Bulk;
            },
        };
        let (protocol, src_port, dst_port): (u8, u16, u16) = Self::extract_tuple(packet);
        let signalled: bool = self.is_realtime_packet(protocol, src_port, dst_port);
        let assigned: usize = self.weighted_flow_link(flow_id);
        let mut flow: FlowState = match self.flows.remove(&flow_id.0) {
            Some(flow) => flow,
            None => FlowState::new(flow_id, assigned, now_ns),
        };
        if flow.packets_seen == 0 {
            flow.protocol = protocol;
            flow.src_port = src_port;
            flow.dst_port = dst_port;
        }
        flow.record_bytes(packet.len(), now_ns);
        self.judge(&mut flow, signalled, packet.len(), assigned, now_ns);
        let mode: FlowMode = flow.mode;
        self.flows.insert(flow_id.0, flow);
        assert(self.flow_map() =~= old(self).flow_map().insert(
            flow_id.0,
            old(self).flow_after(flow_id, packet@, now_ns),
        ));
        mode
    }

    /// Current mode for a flow (without updating).
    pub fn get_mode(&self, flow_id: FlowId) -> (r: Option<FlowMode>)
        ensures
            r == if self.flow_map().dom().contains(flow_id.0) {
                Some(self.flow_map()[flow_id.0].mode)
            } else {
                None
            },
    {
        match self.flows.get(&flow_id.0) {
            Some(flow) => Some(flow.mode),
            None => None,
        }
    }

    /// Expire old flows.
    pub fn expire_flows(&mut self, now_ns: u64)
        requires
            old(self).wf(),
        ensures
            final(self).wf(),
            final(self).same_setup(*old(self)),
            final(self).flow_map() == old(self).flow_map().remove_keys(old(self).expired(now_ns)),
    {
        let expiry: u128 = self.config.flow_expiry_ms as u128 * 1_000_000;
        let keys: Vec<u64> = keys_of(&self.flows);
        let mut i: usize = 0;
        while i < keys.len()
            invariant
                i <= keys@.len(),
                keys@.no_duplicates(),
                keys@.to_set() == old(self).flows@.dom(),
                expiry == old(self).config.flow_expiry_ms * 1_000_000,
                self.same_setup(*old(self)),
                forall|k: u64| #[trigger]
                    self.flows@.dom().contains(k) <==> old(self).flows@.dom().contains(k) && !(old(self).expired(
                        now_ns,
                    ).contains(k) && keys@.take(i as int).contains(k)),
                forall|k: u64| #[trigger]
                    self.flows@.dom().contains(k) ==> self.flows@[k] == old(self).flows@[k],
            decreases keys.len() - i,
        {
            let key: u64 = keys[i];
            assert(keys@.contains(key));
            let ghost before = self.flows@;
            proof {
                assert(!keys@.take(i as int).contains(key));
                assert(before.dom().contains(key));
                assert forall|k: u64| keys@.take(i + 1).contains(k) <==> keys@.take(i as int).contains(k) || k == key by {
                    assert(keys@.take(i + 1) =~= keys@.take(i as int).push(key));
                    if keys@.take(i as int).contains(k) {
                        let j = choose|j: int| 0 <= j < i && keys@.take(i as int)[j] == k;
                        assert(keys@.take(i + 1)[j] == k);
                    }
                    if k == key {
                        assert(keys@.take(i + 1)[i as int] == k);
                    }
                }
            }
            let stale: bool = match self.flows.get(&key) {
                Some(flow) => now_ns.saturating_sub(flow.last_seen) as u128 >= expiry,
                None => false,
            };
            if stale {
                self.flows.remove(&key);
            }
            i = i + 1;
        }
        proof {
            assert(keys@.take(i as int) =~= keys@);
            assert forall|k: u64| keys@.contains(k) == old(self).flows@.dom().contains(k) by {
                assert(keys@.to_set().contains(k) == keys@.contains(k));
            }
        }
        assert(self.flow_map() =~= old(self).flow_map().remove_keys(old(self).expired(now_ns)));
    }

    /// Flow statistics.
    pub fn stats(&self) -> (r: FlowClassifierStats)
        ensures
            r.total_flows == self.flow_map().dom().len(),
            r.realtime_flows == self.count(0),
            r.single_link_flows == self.count(1),
            r.bulk_flows == self.count(2),
            r.fastest_link == self.fastest_link,
            r.realtime_link == self.realtime_link,
    {
        assert(self.flow_map().dom() =~= self.flows@.dom());
        FlowClassifierStats {
            total_flows: self.flows.len(),
            single_link_flows: self.count_mode(1),
            bulk_flows: self.count_mode(2),
            realtime_flows: self.count_mode(0),
            fastest_link: self.fastest_link,
            realtime_link: self.realtime_link,
        }
    }

    fn count_mode(&self, code: u8) -> (r: usize)
        ensures
            r == self.count(code),
    {
        let ghost chosen = |k: u64| self.flows@[k].mode.code() == code;
        let keys: Vec<u64> = keys_of(&self.flows);
        let mut n: usize = 0;
        let mut i: usize = 0;
        assert(keys@.take(0).to_set().filter(chosen) =~= Set::<u64>::empty());
        while i < keys.len()
            invariant
                i <= keys@.len(),
                n <= i,
                keys@.no_duplicates(),
                keys@.to_set() == self.flows@.dom(),
                chosen == (|k: u64| self.flows@[k].mode.code() == code),
                n == keys@.take(i as int).to_set().filter(chosen).len(),
            decreases keys.len() - i,
        {
            let key: u64 = keys[i];
            assert(keys@.contains(key));
            assert(self.flows@.dom().contains(key));
            let ghost seen = keys@.take(i as int).to_set();
            proof {
                vstd::seq_lib::seq_to_set_is_finite(keys@.take(i as int));
                assert(!keys@.take(i as int).contains(key));
                assert(keys@.take(i + 1) =~= keys@.take(i as int).push(key));
                assert(keys@.take(i + 1).to_set() =~= seen.insert(key)) by {
                    assert forall|k: u64| keys@.take(i + 1).contains(k) <==> keys@.take(i as int).contains(k) || k
                        == key by {
                        if keys@.take(i as int).contains(k) {
                            let j = choose|j: int| 0 <= j < i && keys@.take(i as int)[j] == k;
                            assert(keys@.take(i + 1)[j] == k);
                        }
                        if k == key {
                            assert(keys@.take(i + 1)[i as int] == k);
                        }
                    }
                }
                if chosen(key) {
                    assert(seen.insert(key).filter(chosen) =~= seen.filter(chosen).insert(key));
                } else {
                    assert(seen.insert(key).filter(chosen) =~= seen.filter(chosen));
                }
                seen.lemma_len_filter(chosen);
            }
            let hit: bool = match self.flows.get(&key) {
                Some(flow) => flow.mode.to_wire() == code,
                None => false,
            };
            if hit {
                n = n + 1;
            }
            i = i + 1;
        }
        assert(keys@.take(i as int) =~= keys@);
        n
    }
}

// ---------------------------------------------------------------------------
// Laws
// ---------------------------------------------------------------------------

/// A mode survives the wire, given its link.
pub proof fn law_mode_survives_the_wire(mode: FlowMode, link_id: usize)
    requires
        match mode {
            FlowMode::Realtime { link_id: l } => l == link_id,
            FlowMode::SingleLink { link_id: l } => l == link_id,
            FlowMode::Bulk => true,
        },
    ensures
        FlowMode::of_code(mode.code(), link_id) == mode,
{
}

/// Once realtime, always realtime, on whatever link is best for it now.
pub proof fn law_realtime_is_sticky(c: FlowClassifier, id: FlowId, packet: Seq<u8>, now_ns: u64)
    requires
        c.wf(),
        c.flow_before(id, now_ns).mode is Realtime,
    ensures
        c.flow_after(id, packet, now_ns).is_realtime,
        c.flow_after(id, packet, now_ns).mode == (FlowMode::Realtime { link_id: c.realtime_link }),
{
}

/// A call on a classifier.
pub enum ClassifierCall {
    Classify { packet: Seq<u8>, now_ns: u64 },
    ExpireFlows { now_ns: u64 },
    UpdateBandwidths { bandwidths: Seq<u64> },
    UpdateRtts { rtts: Seq<u64> },
    SetWeightFactors { factors: Seq<Binary64> },
}

impl FlowClassifier {
    /// Whether a call leads from this classifier to another one.
    pub open spec fn steps_to(self, call: ClassifierCall, after: FlowClassifier) -> bool {
        match call {
            ClassifierCall::Classify { packet, now_ns } => {
                &&& after.wf()
                &&& after.same_setup(self)
                &&& after.flow_map() == match FlowId::of_packet(packet) {
                    Some(id) => self.flow_map().insert(id.0, self.flow_after(id, packet, now_ns)),
                    None => self.flow_map(),
                }
            },
            ClassifierCall::ExpireFlows { now_ns } => {
                &&& after.wf()
                &&& after.same_setup(self)
                &&& after.flow_map() == self.flow_map().remove_keys(self.expired(now_ns))
            },
            ClassifierCall::UpdateBandwidths { bandwidths } => if total(bandwidths) == 0 {
                after == self
            } else {
                &&& after.link_bandwidths@ == bandwidths
                &&& after == FlowClassifier {
                    link_bandwidths: after.link_bandwidths,
                    fastest_link: fastest_of(bandwidths),
                    total_bandwidth: total(bandwidths) as u64,
                    ..self
                }
            },
            ClassifierCall::UpdateRtts { rtts } => {
                &&& after.link_rtts@ == rtts
                &&& after == FlowClassifier {
                    link_rtts: after.link_rtts,
                    realtime_link: realtime_link_of(self.link_tiers@, self.link_bandwidths@.len(), rtts),
                    ..self
                }
            },
            ClassifierCall::SetWeightFactors { factors } => {
                &&& after.weight_factors@ == factors
                &&& after == FlowClassifier { weight_factors: after.weight_factors, ..self }
            },
        }
    }

    /// Whether a flow is tracked, in realtime mode.
    pub open spec fn is_realtime_flow(self, id: FlowId) -> bool {
        self.flow_map().dom().contains(id.0) && self.flow_map()[id.0].mode is Realtime
    }
}

/// Whether the calls lead from each classifier to the next.
pub open spec fn classifier_run(states: Seq<FlowClassifier>, calls: Seq<ClassifierCall>) -> bool {
    &&& states.len() == calls.len() + 1
    &&& forall|k: int| #![trigger calls[k]] 0 <= k < calls.len() ==> states[k].steps_to(calls[k], states[k + 1])
}

/// Over any run of calls that leaves a realtime flow unexpired the flow stays
/// realtime, and its next packet goes to the link that is best for realtime
/// traffic by then, whatever the packet is.
pub proof fn law_realtime_stays(
    states: Seq<FlowClassifier>,
    calls: Seq<ClassifierCall>,
    id: FlowId,
    k: nat,
    packet: Seq<u8>,
    now_ns: u64,
)
    requires
        states.len() > 0,
        states[0].wf(),
        states[0].is_realtime_flow(id),
        classifier_run(states, calls),
        k <= calls.len(),
        forall|j: int|
            0 <= j < k ==> ((#[trigger] calls[j]) matches ClassifierCall::ExpireFlows { now_ns }
                ==> !states[j].expired(now_ns).contains(id.0)),
    ensures
        states[k as int].wf(),
        states[k as int].is_realtime_flow(id),
        states[k as int].flow_after(id, packet, now_ns).mode == (FlowMode::Realtime {
            link_id: states[k as int].realtime_link,
        }),
    decreases k,
{
    if k > 0 {
        let p = (k - 1) as nat;
        let before = states[p as int];
        let call = calls[p as int];
        law_realtime_stays(states, calls, id, p, packet, now_ns);
        assert(before.steps_to(call, states[k as int]));
        let after = states[k as int];
        match call {
            ClassifierCall::Classify { packet: other, now_ns: then } => {
                law_realtime_stays(states, calls, id, p, other, then);
                if let Some(of) = FlowId::of_packet(other) {
                    assert(of.0 == id.0 ==> of == id);
                }
            },
            ClassifierCall::ExpireFlows { .. } => {},
            _ => {
                assert(after.flows == before.flows);
            },
        }
        assert(after.is_realtime_flow(id));
    }
    let c = states[k as int];
    assert(c.flow_map()[id.0] == c.flows@[id.0]@);
    assert(c.flows@.dom().contains(id.0));
    law_realtime_is_sticky(c, id, packet, now_ns);
}

/// A packet to or from a known realtime port makes its flow realtime at once.
pub proof fn law_known_ports_are_realtime(c: FlowClassifier, id: FlowId, packet: Seq<u8>, now_ns: u64)
    requires
        c.realtime_ports(tuple_of(packet)),
    ensures
        c.flow_after(id, packet, now_ns).mode == (FlowMode::Realtime { link_id: c.realtime_link }),
{
}

/// A flow on one link whose bandwidth does not exceed the single-link
/// threshold stays on that link.
pub proof fn law_small_flow_stays_on_its_link(c: FlowClassifier, f: FlowView, link_id: usize, assigned: usize, now_ns: u64)
    requires
        f.mode == (FlowMode::SingleLink { link_id }),
        !c.config.single_link_threshold.less(c.ratio(f, now_ns)),
    ensures
        c.by_bandwidth(f, assigned, now_ns).mode == f.mode,
        c.by_bandwidth(f, assigned, now_ns).exceeded_at is None,
{
}

/// No flow turns to bulk unless it exceeds the multi-link threshold and has
/// exceeded the single-link threshold for the monitoring time.
pub proof fn law_bulk_takes_time(c: FlowClassifier, f: FlowView, assigned: usize, now_ns: u64)
    requires
        f.mode !is Bulk,
        c.by_bandwidth(f, assigned, now_ns).mode is Bulk,
    ensures
        c.config.multi_link_threshold.less(c.ratio(f, now_ns)),
        c.config.single_link_threshold.less(c.ratio(f, now_ns)),
        c.config.monitor_duration_ms == 0 || (f.exceeded_at is Some && now_ns - f.exceeded_at->0
            >= c.config.monitor_duration_ms * 1_000_000),
{
}

/// A new flow starts out on the one link that its number assigns it to.
pub proof fn law_new_flow_takes_its_link(c: FlowClassifier, id: FlowId, now_ns: u64)
    requires
        !c.flows@.dom().contains(id.0),
    ensures
        c.flow_before(id, now_ns).mode == (FlowMode::SingleLink { link_id: c.link_of(id) }),
{
}

/// Flows are spread over the links in proportion to their shares: of as many
/// consecutive numbers as there are shares, each link gets its own.
pub proof fn law_flows_are_spread_by_share(c: FlowClassifier, from: nat, i: int)
    requires
        0 <= i < c.link_bandwidths@.len() <= usize::MAX,
        total(c.link_shares()) > 0,
    ensures
        crate::share::picks(c.link_shares(), from, total(c.link_shares()), i) == scaled(
            c.link_bandwidths@[i] as nat,
            c.factor(i),
        ),
{
    crate::share::law_full_round(c.link_shares(), from, i);
}

/// No flow is assigned to a link without a share while any link has one.
pub proof fn law_no_flow_on_a_dead_link(c: FlowClassifier, id: FlowId)
    requires
        0 < total(c.link_shares()) <= u64::MAX,
        c.link_bandwidths@.len() <= usize::MAX,
    ensures
        c.link_of(id) < c.link_bandwidths@.len(),
        c.link_shares()[c.link_of(id) as int] > 0,
{
    let shares = c.link_shares();
    lemma_slot(shares, (id.0 % (total(shares) as u64)) as nat);
}

/// Realtime traffic goes to an eligible link, where there is one, and to none
/// slower than another eligible link whose time is known.
pub proof fn law_realtime_link_is_best(tiers: Seq<LinkTierConfig>, num_links: nat, rtts: Seq<u64>, p: int)
    requires
        tiers.len() <= usize::MAX,
        0 <= p < eligible_tiers(tiers, num_links).len(),
    ensures
        exists|q: int|
            0 <= q < eligible_tiers(tiers, num_links).len() && realtime_link_of(tiers, num_links, rtts)
                == tiers[(#[trigger] eligible_tiers(tiers, num_links)[q]) as int].link_id,
        rtt_or_endless(rtts, realtime_link_of(tiers, num_links, rtts) as int) <= rtt_or_endless(
            rtts,
            tiers[eligible_tiers(tiers, num_links)[p] as int].link_id as int,
        ),
{
    let eligible = eligible_tiers(tiers, num_links);
    let known = exists|p: int|
        0 <= p < eligible.len() && tiers[(#[trigger] eligible[p]) as int].link_id < rtts.len()
            && rtts[tiers[eligible[p] as int].link_id as int] > 0;
    let keys = eligible.map_values(
        |k: usize|
            if known {
                rtt_or_endless(rtts, tiers[k as int].link_id as int)
            } else {
                tiers[k as int].priority as u64
            },
    );
    Seq::new(tiers.len(), |k: int| k as usize).lemma_filter_len(
        |k: usize| tiers[k as int].realtime_eligible && tiers[k as int].link_id < num_links,
    );
    crate::share::law_first_min(keys);
    let q = first_min(keys)->0 as int;
    assert(keys[p] >= keys[q]);
    assert(realtime_link_of(tiers, num_links, rtts) == tiers[eligible[q] as int].link_id);
    if !known {
        assert(!(tiers[eligible[p] as int].link_id < rtts.len() && rtts[tiers[eligible[p] as int].link_id as int] > 0));
    }
}

// ---------------------------------------------------------------------------
// What a packet does to its flow
// ---------------------------------------------------------------------------

/// A packet is recorded with its flow, whatever becomes of the flow's mode:
/// bytes and packets count up, samples are kept for five seconds and instants
/// for two, and the first packet labels the flow.
pub proof fn law_packet_is_recorded(c: FlowClassifier, id: FlowId, packet: Seq<u8>, now_ns: u64)
    requires
        c.flow_before(id, now_ns).bytes_seen + packet.len() <= u64::MAX,
        c.flow_before(id, now_ns).packets_seen < u64::MAX,
    ensures
        ({
            let before = c.flow_before(id, now_ns);
            let after = c.flow_after(id, packet, now_ns);
            &&& after.flow_id == before.flow_id
            &&& after.bytes_seen == before.bytes_seen + packet.len()
            &&& after.packets_seen == before.packets_seen + 1
            &&& after.first_seen == before.first_seen
            &&& after.last_seen == now_ns
            &&& after.samples == before.samples.push((now_ns, packet.len() as u64)).filter(
                |s: (u64, u64)| s.0 + 5_000_000_000 > now_ns,
            )
            &&& after.stamps == before.stamps.push(now_ns).filter(|t: u64| t + 2_000_000_000 > now_ns)
            &&& before.packets_seen == 0 ==> (after.protocol, after.src_port, after.dst_port) == tuple_of(packet)
            &&& before.packets_seen > 0 ==> after.protocol == before.protocol && after.src_port == before.src_port
                && after.dst_port == before.dst_port
        }),
{
    let before = c.flow_before(id, now_ns);
    assert((|s: (u64, u64)| s.0 + SAMPLE_LIFE_NS as nat > now_ns) =~= (|s: (u64, u64)| s.0 + 5_000_000_000 > now_ns));
    assert((|t: u64| t + CADENCE_LIFE_NS as nat > now_ns) =~= (|t: u64| t + 2_000_000_000 > now_ns));
}

/// A flow that is not tracked yet starts now, on one link, with nothing seen.
pub proof fn law_untracked_flow_is_new(c: FlowClassifier, id: FlowId, now_ns: u64)
    requires
        !c.flow_map().dom().contains(id.0),
    ensures
        c.flow_before(id, now_ns).bytes_seen == 0,
        c.flow_before(id, now_ns).packets_seen == 0,
        c.flow_before(id, now_ns).first_seen == now_ns,
        c.flow_before(id, now_ns).samples.len() == 0,
        c.flow_before(id, now_ns).stamps.len() == 0,
        c.flow_before(id, now_ns).exceeded_at is None,
        !c.flow_before(id, now_ns).is_realtime,
        c.flow_before(id, now_ns).flow_id == id,
        c.flow_before(id, now_ns).mode == (FlowMode::SingleLink { link_id: c.link_of(id) }),
{
    assert(c.flow_map().dom() =~= c.flows@.dom());
}

/// A bulk flow goes back to its assigned link once its share of the fastest
/// link has been below the single-link threshold for the monitoring time;
/// before that it stays bulk, and the instant at which it fell below is
/// remembered.  At or above the threshold that instant is forgotten.
pub proof fn law_bulk_flow_goes_back(c: FlowClassifier, id: FlowId, packet: Seq<u8>, now_ns: u64)
    requires
        c.flow_before(id, now_ns).mode is Bulk,
        !c.flow_after(id, packet, now_ns).is_realtime,
    ensures
        ({
            let before = c.flow_before(id, now_ns);
            let after = c.flow_after(id, packet, now_ns);
            let below = c.ratio(after, now_ns).less(c.config.single_link_threshold);
            let time = c.config.monitor_duration_ms * 1_000_000;
            &&& !below ==> after.mode is Bulk && after.exceeded_at is None
            &&& below && before.exceeded_at is Some && now_ns - before.exceeded_at->0 >= time ==> after.mode == (
            FlowMode::SingleLink { link_id: c.link_of(id) }) && after.exceeded_at is None
            &&& below && before.exceeded_at is Some && now_ns - before.exceeded_at->0 < time && time > 0 ==> after.mode
                is Bulk && after.exceeded_at == before.exceeded_at
            &&& below && before.exceeded_at is None && time > 0 ==> after.mode is Bulk && after.exceeded_at == Some(now_ns)
        }),
{
    let before = c.flow_before(id, now_ns);
    let after = c.flow_after(id, packet, now_ns);
    let recorded = before.labelled(tuple_of(packet)).recorded(packet.len(), now_ns);
    assert(after.samples == recorded.samples);
    assert(c.ratio(after, now_ns) == c.ratio(recorded, now_ns));
}

/// A flow on one link turns to bulk once its share of the fastest link is
/// above the multi-link threshold and has been above the single-link threshold
/// for the monitoring time; before that it stays on its link, and the instant
/// at which it rose above the single-link threshold is remembered.  At or
/// below that threshold the instant is forgotten.
pub proof fn law_growing_flow_turns_bulk(c: FlowClassifier, id: FlowId, packet: Seq<u8>, now_ns: u64)
    requires
        c.flow_before(id, now_ns).mode is SingleLink,
        !c.flow_after(id, packet, now_ns).is_realtime,
    ensures
        ({
            let before = c.flow_before(id, now_ns);
            let after = c.flow_after(id, packet, now_ns);
            let ratio = c.ratio(after, now_ns);
            let above = c.config.single_link_threshold.less(ratio);
            let high = c.config.multi_link_threshold.less(ratio);
            let time = c.config.monitor_duration_ms * 1_000_000;
            let lasted = if before.exceeded_at is Some {
                now_ns - before.exceeded_at->0 >= time || time == 0
            } else {
                time == 0
            };
            &&& !above ==> after.mode == before.mode && after.exceeded_at is None
            &&& above && high && lasted ==> after.mode is Bulk && after.exceeded_at is None
            &&& above && !(high && lasted) ==> after.mode == before.mode && after.exceeded_at == (
            if before.exceeded_at is Some {
                before.exceeded_at
            } else {
                Some(now_ns)
            })
        }),
{
    let before = c.flow_before(id, now_ns);
    let after = c.flow_after(id, packet, now_ns);
    let recorded = before.labelled(tuple_of(packet)).recorded(packet.len(), now_ns);
    assert(after.samples == recorded.samples);
    assert(c.ratio(after, now_ns) == c.ratio(recorded, now_ns));
}

/// The bytes of the samples younger than a window.
pub open spec fn bytes_within(samples: Seq<(u64, u64)>, window_ns: nat, now_ns: u64) -> nat {
    total(samples.filter(|s: (u64, u64)| s.0 + window_ns > now_ns).map_values(|s: (u64, u64)| s.1))
}

/// A flow's bandwidth is the bytes of the window per second of it, and its
/// share is that bandwidth over the fastest link's.  (Windows of whole
/// seconds.)
pub proof fn law_share_of_the_fastest_link(c: FlowClassifier, f: FlowView, now_ns: u64, w: nat)
    requires
        c.config.flow_window_ms == 1000 * w,
        0 < w <= 1024,
        bytes_within(f.samples, w * 1_000_000_000, now_ns) < 0x100_0000_0000,
        c.fastest_link < c.link_bandwidths@.len(),
        0 < c.link_bandwidths@[c.fastest_link as int],
    ensures
        f.bandwidth(w * 1_000_000_000, now_ns) == bytes_within(f.samples, w * 1_000_000_000, now_ns) / w,
        c.ratio(f, now_ns) == Binary64::fraction(
            bytes_within(f.samples, w * 1_000_000_000, now_ns) / w,
            c.link_bandwidths@[c.fastest_link as int] as nat,
        ),
{
    lemma_bandwidth(f, w, now_ns);
    assert((c.config.flow_window_ms * 1_000_000) as nat == w * 1_000_000_000);
}

proof fn lemma_bandwidth(f: FlowView, w: nat, now_ns: u64)
    requires
        0 < w <= 1024,
        bytes_within(f.samples, w * 1_000_000_000, now_ns) < 0x100_0000_0000,
    ensures
        f.bandwidth(w * 1_000_000_000, now_ns) == bytes_within(f.samples, w * 1_000_000_000, now_ns) / w,
{
    let window = w * 1_000_000_000;
    let bytes = bytes_within(f.samples, window, now_ns);
    lemma_whole_seconds(w);
    lemma_whole_quotient(bytes, w);
    assert(bytes / w <= bytes) by (nonlinear_arith)
        requires
            w >= 1,
    ;
}

/// A flow is realtime if it was, if the packet's port is known for it, or if
/// it sends more small packets per second than the threshold on less than a
/// megabit per second; and only then.  It then goes to the link that is best
/// for realtime traffic.  (Windows of whole seconds.)
pub proof fn law_what_is_realtime(c: FlowClassifier, id: FlowId, packet: Seq<u8>, now_ns: u64, w: nat)
    requires
        c.config.realtime_window_ms == 1000 * w,
        0 < w <= 1000,
        c.config.realtime_pps_threshold <= 1000,
        bytes_within(c.flow_after(id, packet, now_ns).samples, w * 1_000_000_000, now_ns) < 0x100_0000_0000,
        recent_stamps(c.flow_after(id, packet, now_ns).stamps, w * 1_000_000_000, now_ns).len() <= 1000,
    ensures
        ({
            let before = c.flow_before(id, now_ns);
            let after = c.flow_after(id, packet, now_ns);
            let (protocol, src, dst) = tuple_of(packet);
            let udp = c.realtime_config.realtime_udp_ports@;
            let tcp = c.realtime_config.realtime_tcp_ports@;
            let known = (protocol == 17 && (udp.contains(src) || udp.contains(dst))) || (protocol == 6 && (tcp.contains(src)
                || tcp.contains(dst)));
            let packets = after.stamps.filter(|t: u64| t + w * 1_000_000_000 > now_ns).len();
            let steady = packets > c.config.realtime_pps_threshold * w && packet.len()
                <= c.realtime_config.max_realtime_packet_size && bytes_within(
                after.samples,
                w * 1_000_000_000,
                now_ns,
            ) / w < 125_000;
            &&& after.is_realtime <==> before.is_realtime || known || steady
            &&& after.is_realtime ==> after.mode == (FlowMode::Realtime { link_id: c.realtime_link })
        }),
{
    let before = c.flow_before(id, now_ns);
    let after = c.flow_after(id, packet, now_ns);
    let recorded = before.labelled(tuple_of(packet)).recorded(packet.len(), now_ns);
    assert(after.samples == recorded.samples && after.stamps == recorded.stamps);
    let window = w * 1_000_000_000;
    assert((c.config.realtime_window_ms * 1_000_000) as nat == window);
    lemma_bandwidth(recorded, w, now_ns);
    lemma_whole_seconds(w);
    let packets = recent_stamps(recorded.stamps, window, now_ns).len();
    assert((|t: u64| t + window > now_ns) =~= (|t: u64| t + w * 1_000_000_000 > now_ns));
    let threshold = c.config.realtime_pps_threshold as nat;
    lemma_whole_fraction(threshold);
    let limit = Binary64::of_nat(threshold);
    let pps = Binary64::fraction(packets, w);
    assert(recorded.cadence(window, now_ns) == pps);
    assert(limit.less(pps) <==> packets > threshold * w) by {
        crate::binary64::lemma_fraction(packets, w);
        crate::binary64::lemma_fraction(threshold, 1);
        if packets > threshold * w {
            lemma_fractions_apart(threshold, 1, packets, w);
        } else {
            lemma_fraction_order(packets, w, threshold, 1);
        }
        reveal(Binary64::less);
        reveal(Binary64::at_most);
    }
}

/// The ports stand behind the IP header, whose length is the low half of its
/// first byte, in words of four bytes; TCP and UDP alone have them.
pub proof fn law_ports_follow_the_header(packet: Seq<u8>)
    requires
        packet.len() >= 20,
    ensures
        ({
            let ihl = (packet[0] % 16) * 4;
            let ported = packet.len() >= ihl + 4 && (packet[9] == 6 || packet[9] == 17);
            &&& tuple_of(packet).0 == packet[9]
            &&& ported ==> tuple_of(packet).1 == packet[ihl] * 256 + packet[ihl + 1] && tuple_of(packet).2 == packet[ihl + 2]
                * 256 + packet[ihl + 3]
            &&& !ported ==> tuple_of(packet).1 == 0 && tuple_of(packet).2 == 0
        }),
{
    let ihl = (packet[0] % 16) * 4;
    if packet.len() >= ihl + 4 {
        let a = packet.subrange(ihl, ihl + 2);
        let b = packet.subrange(ihl + 2, ihl + 4);
        reveal_with_fuel(crate::wire::be, 3);
        assert(a.drop_last().drop_last().len() == 0);
        assert(b.drop_last().drop_last().len() == 0);
        assert(a.drop_last().last() == packet[ihl] && a.last() == packet[ihl + 1]);
        assert(b.drop_last().last() == packet[ihl + 2] && b.last() == packet[ihl + 3]);
    }
}

/// A link's share of the flows is its bandwidth times its weight factor, the
/// factor given as a decimal; without a factor it is the bandwidth.
pub proof fn law_shares_follow_bandwidth(c: FlowClassifier, i: int, p: nat, q: nat)
    requires
        0 <= i < c.link_bandwidths@.len(),
        c.link_bandwidths@[i] < 0x100_0000_0000,
        0 < q <= 1000,
        p <= 2 * q,
    ensures
        i >= c.weight_factors@.len() || c.weight_factors@[i] == Binary64::of_nat(1) ==> c.link_shares()[i]
            == c.link_bandwidths@[i],
        i < c.weight_factors@.len() && c.weight_factors@[i] == Binary64::fraction(p, q) ==> q * c.link_shares()[i]
            <= c.link_bandwidths@[i] * p <= q * (c.link_shares()[i] + 1),
{
    let n = c.link_bandwidths@[i] as nat;
    lemma_part_is_close(n, p, q);
    vstd::arithmetic::power2::lemma2_to64();
    assert(n * 1 == n);
    lemma_dyadic_part(n, 1, 0);
    lemma_whole_fraction(1);
    assert(n / 1 == n);
}

/// A flow's number, taken round the line of all shares, lies in the share of
/// the link that the flow is assigned to.
pub proof fn law_number_lies_in_the_share(c: FlowClassifier, id: FlowId)
    requires
        0 < total(c.link_shares()) <= u64::MAX,
        c.link_bandwidths@.len() <= usize::MAX,
    ensures
        ({
            let shares = c.link_shares();
            let link = c.link_of(id) as int;
            let place = id.0 as nat % total(shares);
            link < shares.len() && start(shares, link) <= place < start(shares, link) + shares[link]
        }),
{
    let shares = c.link_shares();
    let place = (id.0 % (total(shares) as u64)) as nat;
    lemma_slot(shares, place);
    law_slot_is_proportional(shares, place, slot(shares, place)->0 as int);
}

/// No link is faster than the fastest.
pub proof fn law_fastest_is_fastest(bandwidths: Seq<u64>, i: int)
    requires
        0 <= i < bandwidths.len() <= usize::MAX,
    ensures
        fastest_of(bandwidths) < bandwidths.len(),
        bandwidths[i] <= bandwidths[fastest_of(bandwidths) as int],
{
    law_last_max(bandwidths);
}

/// The eligible tiers are those marked so whose links exist.
proof fn lemma_eligible(tiers: Seq<LinkTierConfig>, num_links: nat)
    requires
        tiers.len() <= usize::MAX,
    ensures
        eligible_tiers(tiers, num_links).len() <= tiers.len(),
        forall|p: int|
            0 <= p < eligible_tiers(tiers, num_links).len() ==> (#[trigger] eligible_tiers(tiers, num_links)[p]) < tiers.len()
                && tiers[eligible_tiers(tiers, num_links)[p] as int].realtime_eligible
                && tiers[eligible_tiers(tiers, num_links)[p] as int].link_id < num_links,
        forall|k: int|
            0 <= k < tiers.len() && tiers[k].realtime_eligible && tiers[k].link_id < num_links ==> eligible_tiers(
                tiers,
                num_links,
            ).contains(#[trigger] (k as usize)),
{
    let all = Seq::new(tiers.len(), |k: int| k as usize);
    let keep = |k: usize| tiers[k as int].realtime_eligible && tiers[k as int].link_id < num_links;
    all.lemma_filter_len(keep);
    let chosen = eligible_tiers(tiers, num_links);
    assert(chosen == all.filter(keep));
    assert forall|p: int| 0 <= p < chosen.len() implies (#[trigger] chosen[p]) < tiers.len()
        && tiers[chosen[p] as int].realtime_eligible && tiers[chosen[p] as int].link_id < num_links by {
        all.lemma_filter_pred(keep, p);
        assert(all.filter(keep).contains(chosen[p]));
        all.lemma_filter_contains_rev(keep, chosen[p]);
    }
    assert forall|k: int|
        0 <= k < tiers.len() && tiers[k].realtime_eligible && tiers[k].link_id < num_links implies chosen.contains(
        #[trigger] (k as usize),
    ) by {
        all.lemma_filter_contains(keep, k);
        assert(all[k] == k as usize);
    }
}

/// Realtime traffic goes to a link of a tier marked for it.  If the time of
/// any such link is known, it goes to one whose time is known, and none of
/// them is faster; if none is known, to the one of highest priority.
pub proof fn law_realtime_goes_to_the_fastest_eligible(
    tiers: Seq<LinkTierConfig>,
    num_links: nat,
    rtts: Seq<u64>,
    k: int,
)
    requires
        tiers.len() <= usize::MAX,
        0 <= k < tiers.len(),
        tiers[k].realtime_eligible,
        tiers[k].link_id < num_links,
    ensures
        ({
            let link = realtime_link_of(tiers, num_links, rtts) as int;
            let other = tiers[k].link_id as int;
            let known = |l: int| l < rtts.len() && rtts[l] > 0;
            &&& exists|t: int|
                0 <= t < tiers.len() && (#[trigger] tiers[t]).realtime_eligible && tiers[t].link_id == link && link < num_links
            &&& known(other) && rtts[other] < u64::MAX ==> known(link) && rtts[link] <= rtts[other]
            &&& (forall|t: int|
                0 <= t < tiers.len() && (#[trigger] tiers[t]).realtime_eligible && tiers[t].link_id < num_links ==> !known(
                    tiers[t].link_id as int,
                )) ==> exists|t: int|
                0 <= t < tiers.len() && (#[trigger] tiers[t]).realtime_eligible && tiers[t].link_id == link
                    && tiers[t].priority <= tiers[k].priority
        }),
{
    lemma_eligible(tiers, num_links);
    let eligible = eligible_tiers(tiers, num_links);
    assert(eligible.contains(k as usize));
    let p = choose|p: int| 0 <= p < eligible.len() && eligible[p] == k as usize;
    law_realtime_link_is_best(tiers, num_links, rtts, p);
    let known = exists|p: int|
        0 <= p < eligible.len() && tiers[(#[trigger] eligible[p]) as int].link_id < rtts.len()
            && rtts[tiers[eligible[p] as int].link_id as int] > 0;
    let keys = eligible.map_values(
        |k: usize|
            if known {
                rtt_or_endless(rtts, tiers[k as int].link_id as int)
            } else {
                tiers[k as int].priority as u64
            },
    );
    law_first_min(keys);
    let q = first_min(keys)->0 as int;
    assert(keys[p] >= keys[q]);
    let t = eligible[q] as int;
    assert(tiers[t].realtime_eligible && tiers[t].link_id == realtime_link_of(tiers, num_links, rtts));
    assert(tiers[eligible[p] as int] == tiers[k]);
}

/// A flow expires once nothing was heard of it for the expiry time.
pub proof fn law_silent_flows_expire(c: FlowClassifier, now_ns: u64, id: u64)
    requires
        c.config.flow_expiry_ms > 0,
    ensures
        c.expired(now_ns).contains(id) <==> c.flow_map().dom().contains(id) && now_ns - c.flow_map()[id].last_seen
            >= c.config.flow_expiry_ms * 1_000_000,
{
    assert(c.flow_map().dom() =~= c.flows@.dom());
}

/// The flows are counted by their modes.
pub proof fn law_flows_are_counted_by_mode(c: FlowClassifier)
    ensures
        c.count(0) == c.flow_map().dom().filter(|k: u64| c.flow_map()[k].mode is Realtime).len(),
        c.count(1) == c.flow_map().dom().filter(|k: u64| c.flow_map()[k].mode is SingleLink).len(),
        c.count(2) == c.flow_map().dom().filter(|k: u64| c.flow_map()[k].mode is Bulk).len(),
{
    assert(c.flow_map().dom() =~= c.flows@.dom());
    assert(c.flows@.dom().filter(|k: u64| c.flows@[k].mode.code() == 0) =~= c.flow_map().dom().filter(
        |k: u64| c.flow_map()[k].mode is Realtime,
    ));
    assert(c.flows@.dom().filter(|k: u64| c.flows@[k].mode.code() == 1) =~= c.flow_map().dom().filter(
        |k: u64| c.flow_map()[k].mode is SingleLink,
    ));
    assert(c.flows@.dom().filter(|k: u64| c.flows@[k].mode.code() == 2) =~= c.flow_map().dom().filter(
        |k: u64| c.flow_map()[k].mode is Bulk,
    ));
}

/// On the wire a realtime flow is 0, one on a single link 1 and a bulk flow 2;
/// any other number counts as a single link.
pub proof fn law_mode_numbers(mode: FlowMode, value: u8, link_id: usize)
    ensures
        mode is Realtime ==> mode.code() == 0,
        mode is SingleLink ==> mode.code() == 1,
        mode is Bulk ==> mode.code() == 2,
        value == 0 ==> FlowMode::of_code(value, link_id) == (FlowMode::Realtime { link_id }),
        value == 2 ==> FlowMode::of_code(value, link_id) is Bulk,
        value == 1 || value > 2 ==> FlowMode::of_code(value, link_id) == (FlowMode::SingleLink { link_id }),
{
}

/// A packet is accepted unless a count is about to overflow.
pub proof fn law_ordinary_packet_is_accepted(c: FlowClassifier, packet: Seq<u8>)
    requires
        total(c.link_shares()) <= u64::MAX,
        forall|k: u64| #[trigger]
            c.flow_map().dom().contains(k) ==> c.flow_map()[k].bytes_seen + packet.len() <= u64::MAX
                && c.flow_map()[k].packets_seen < u64::MAX,
    ensures
        c.accepts(packet),
{
    assert(c.flow_map().dom() =~= c.flows@.dom());
    if let Some(id) = FlowId::of_packet(packet) {
        if c.flows@.dom().contains(id.0) {
            assert(c.flow_map().dom().contains(id.0));
        }
    }
}

} // verus!
