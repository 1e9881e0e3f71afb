//! Metrics collection for performance measurement and A/B testing.

use crate::accuracy::{
    lemma_difference_order, lemma_dyadic_part, lemma_minus_self, lemma_nonnegative_difference, lemma_part_is_close,
    lemma_plus_zero, lemma_same_fraction, lemma_same_units, lemma_whole_seconds,
};
use crate::binary64::{
    lemma_fraction, lemma_fraction_order, lemma_of_nat, lemma_part_of_integer, lemma_part_order, lemma_quotient_order,
    lemma_rounded_zero, lemma_whole_fraction, lemma_zero, Binary64,
};
use crate::clock::utc_now;
use crate::measure::{as_mbps, as_millis, as_seconds, law_mean_of_integers, law_milliseconds, law_peak_is_the_greatest, mbps, mean, mean_of, millis, monus, peak, peak_of, seconds};
use crate::order::{is_stable_order, law_order_is_stable, law_order_keeps_keys, order_of, stable_order};
use crate::share::total;
use crate::NUM_LINKS;
use std::collections::VecDeque;
use vstd::prelude::*;

verus! {

/// Snapshots kept by [`MetricsCollector::new`].
pub const DEFAULT_HISTORY: usize = 1000;

// ---------------------------------------------------------------------------
// Snapshots
// ---------------------------------------------------------------------------

/// Snapshot of system metrics at a point in time.
#[derive(Debug)]
pub struct Metrics {
    /// When it was taken (nanoseconds since 1970-01-01 UTC)
    pub timestamp: i64,
    /// Download (bytes/sec)
    pub throughput_down: Binary64,
    /// Upload (bytes/sec)
    pub throughput_up: Binary64,
    /// Download (Mbps)
    pub throughput_down_mbps: Binary64,
    /// Upload (Mbps)
    pub throughput_up_mbps: Binary64,
    /// Raw bytes sent
    pub bytes_sent: u64,
    /// Raw bytes received
    pub bytes_received: u64,
    /// Latency (milliseconds)
    pub latency_avg_ms: Binary64,
    pub latency_min_ms: Binary64,
    pub latency_max_ms: Binary64,
    pub latency_p50_ms: Binary64,
    pub latency_p95_ms: Binary64,
    pub latency_p99_ms: Binary64,
    /// Latency (microseconds), for precise measurements
    pub latency_p50_us: u64,
    pub latency_p99_us: u64,
    /// Packet statistics
    pub packets_sent: u64,
    pub packets_received: u64,
    pub packets_lost: u64,
    pub loss_ratio: Binary64,
    /// Chunk statistics
    pub chunks_sent: u64,
    pub chunks_received: u64,
    pub chunks_reordered: u64,
    pub reorder_ratio: Binary64,
    /// Missing sequences
    pub gaps_detected: u64,
    pub gap_ratio: Binary64,
    /// Resource usage
    pub cpu_usage_percent: Binary64,
    pub memory_usage_bytes: u64,
    /// Per-link metrics
    pub links: Vec<LinkMetrics>,
    /// Flow statistics
    pub active_flows: usize,
    pub single_link_flows: usize,
    pub multi_link_flows: usize,
}

/// What a [`Metrics`] holds.
#[verifier::ext_equal]
pub struct MetricsView {
    pub timestamp: i64,
    pub throughput_down: Binary64,
    pub throughput_up: Binary64,
    pub throughput_down_mbps: Binary64,
    pub throughput_up_mbps: Binary64,
    pub bytes_sent: u64,
    pub bytes_received: u64,
    pub latency_avg_ms: Binary64,
    pub latency_min_ms: Binary64,
    pub latency_max_ms: Binary64,
    pub latency_p50_ms: Binary64,
    pub latency_p95_ms: Binary64,
    pub latency_p99_ms: Binary64,
    pub latency_p50_us: u64,
    pub latency_p99_us: u64,
    pub packets_sent: u64,
    pub packets_received: u64,
    pub packets_lost: u64,
    pub loss_ratio: Binary64,
    pub chunks_sent: u64,
    pub chunks_received: u64,
    pub chunks_reordered: u64,
    pub reorder_ratio: Binary64,
    pub gaps_detected: u64,
    pub gap_ratio: Binary64,
    pub cpu_usage_percent: Binary64,
    pub memory_usage_bytes: u64,
    pub links: Seq<LinkMetrics>,
    pub active_flows: usize,
    pub single_link_flows: usize,
    pub multi_link_flows: usize,
}

impl View for Metrics {
    type V = MetricsView;

    open spec fn view(&self) -> MetricsView {
        MetricsView {
            timestamp: self.timestamp,
            throughput_down: self.throughput_down,
            throughput_up: self.throughput_up,
            throughput_down_mbps: self.throughput_down_mbps,
            throughput_up_mbps: self.throughput_up_mbps,
            bytes_sent: self.bytes_sent,
            bytes_received: self.bytes_received,
            latency_avg_ms: self.latency_avg_ms,
            latency_min_ms: self.latency_min_ms,
            latency_max_ms: self.latency_max_ms,
            latency_p50_ms: self.latency_p50_ms,
            latency_p95_ms: self.latency_p95_ms,
            latency_p99_ms: self.latency_p99_ms,
            latency_p50_us: self.latency_p50_us,
            latency_p99_us: self.latency_p99_us,
            packets_sent: self.packets_sent,
            packets_received: self.packets_received,
            packets_lost: self.packets_lost,
            loss_ratio: self.loss_ratio,
            chunks_sent: self.chunks_sent,
            chunks_received: self.chunks_received,
            chunks_reordered: self.chunks_reordered,
            reorder_ratio: self.reorder_ratio,
            gaps_detected: self.gaps_detected,
            gap_ratio: self.gap_ratio,
            cpu_usage_percent: self.cpu_usage_percent,
            memory_usage_bytes: self.memory_usage_bytes,
            links: self.links@,
            active_flows: self.active_flows,
            single_link_flows: self.single_link_flows,
            multi_link_flows: self.multi_link_flows,
        }
    }
}

/// Per-link metrics.
#[derive(Debug, Clone, Copy)]
pub struct LinkMetrics {
    pub link_id: usize,
    /// Throughput (bytes/sec)
    pub throughput_down: Binary64,
    pub throughput_up: Binary64,
    /// Latency (milliseconds)
    pub rtt_avg_ms: Binary64,
    pub rtt_min_ms: Binary64,
    pub rtt_max_ms: Binary64,
    pub jitter_ms: Binary64,
    /// Reliability
    pub packets_sent: u64,
    pub packets_acked: u64,
    pub loss_ratio: Binary64,
    /// State
    pub is_active: bool,
    /// Estimated bandwidth (bytes/sec)
    pub bandwidth_estimate: Binary64,
}

impl LinkMetrics {
    /// A link without traffic.
    pub open spec fn idle(link_id: usize) -> LinkMetrics {
        LinkMetrics {
            link_id,
            throughput_down: Binary64::of_nat(0),
            throughput_up: Binary64::of_nat(0),
            rtt_avg_ms: Binary64::of_nat(0),
            rtt_min_ms: Binary64::of_nat(0),
            rtt_max_ms: Binary64::of_nat(0),
            jitter_ms: Binary64::of_nat(0),
            packets_sent: 0,
            packets_acked: 0,
            loss_ratio: Binary64::of_nat(0),
            is_active: true,
            bandwidth_estimate: Binary64::of_nat(0),
        }
    }
}

impl Default for LinkMetrics {
    fn default() -> (r: LinkMetrics)
        ensures
            r == LinkMetrics::idle(0),
    {
        let zero: Binary64 = Binary64::from_u64(0);
        LinkMetrics {
            link_id: 0,
            throughput_down: zero,
            throughput_up: zero,
            rtt_avg_ms: zero,
            rtt_min_ms: zero,
            rtt_max_ms: zero,
            jitter_ms: zero,
            packets_sent: 0,
            packets_acked: 0,
            loss_ratio: zero,
            is_active: true,
            bandwidth_estimate: zero,
        }
    }
}

impl MetricsView {
    /// Metrics of a system without traffic.
    pub open spec fn idle(timestamp: i64) -> MetricsView {
        MetricsView {
            timestamp: timestamp,
            throughput_down: Binary64::of_nat(0),
            throughput_up: Binary64::of_nat(0),
            throughput_down_mbps: Binary64::of_nat(0),
            throughput_up_mbps: Binary64::of_nat(0),
            bytes_sent: 0,
            bytes_received: 0,
            latency_avg_ms: Binary64::of_nat(0),
            latency_min_ms: Binary64::of_nat(0),
            latency_max_ms: Binary64::of_nat(0),
            latency_p50_ms: Binary64::of_nat(0),
            latency_p95_ms: Binary64::of_nat(0),
            latency_p99_ms: Binary64::of_nat(0),
            latency_p50_us: 0,
            latency_p99_us: 0,
            packets_sent: 0,
            packets_received: 0,
            packets_lost: 0,
            loss_ratio: Binary64::of_nat(0),
            chunks_sent: 0,
            chunks_received: 0,
            chunks_reordered: 0,
            reorder_ratio: Binary64::of_nat(0),
            gaps_detected: 0,
            gap_ratio: Binary64::of_nat(0),
            cpu_usage_percent: Binary64::of_nat(0),
            memory_usage_bytes: 0,
            links: Seq::new(NUM_LINKS as nat, |i: int| LinkMetrics::idle(i as usize)),
            active_flows: 0,
            single_link_flows: 0,
            multi_link_flows: 0,
        }
    }
}

impl Metrics {
    /// Metrics of a system without traffic.
    pub fn idle_at(timestamp: i64) -> (r: Metrics)
        ensures
            r@ == MetricsView::idle(timestamp),
    {
        let zero: Binary64 = Binary64::from_u64(0);
        let mut links: Vec<LinkMetrics> = Vec::new();
        let mut i: usize = 0;
        while i < NUM_LINKS
            invariant
                i <= NUM_LINKS,
                links@ == Seq::new(i as nat, |j: int| LinkMetrics::idle(j as usize)),
            decreases NUM_LINKS - i,
        {
            let mut link: LinkMetrics = LinkMetrics::default();
            link.link_id = i;
            links.push(link);
            i = i + 1;
            assert(links@ =~= Seq::new(i as nat, |j: int| LinkMetrics::idle(j as usize)));
        }
        Metrics {
            timestamp,
            throughput_down: zero,
            throughput_up: zero,
            throughput_down_mbps: zero,
            throughput_up_mbps: zero,
            bytes_sent: 0,
            bytes_received: 0,
            latency_avg_ms: zero,
            latency_min_ms: zero,
            latency_max_ms: zero,
            latency_p50_ms: zero,
            latency_p95_ms: zero,
            latency_p99_ms: zero,
            latency_p50_us: 0,
            latency_p99_us: 0,
            packets_sent: 0,
            packets_received: 0,
            packets_lost: 0,
            loss_ratio: zero,
            chunks_sent: 0,
            chunks_received: 0,
            chunks_reordered: 0,
            reorder_ratio: zero,
            gaps_detected: 0,
            gap_ratio: zero,
            cpu_usage_percent: zero,
            memory_usage_bytes: 0,
            links,
            active_flows: 0,
            single_link_flows: 0,
            multi_link_flows: 0,
        }
    }
}

impl Default for Metrics {
    /// Metrics of a system without traffic, now.
    fn default() -> (r: Metrics)
        ensures
            r@ == MetricsView::idle(r.timestamp),
    {
        Metrics::idle_at(utc_now())
    }
}

impl Clone for Metrics {
    fn clone(&self) -> (r: Metrics)
        ensures
            r@ == self@,
    {
        let mut links: Vec<LinkMetrics> = Vec::new();
        let mut i: usize = 0;
        while i < self.links.len()
            invariant
                i <= self.links@.len(),
                links@ == self.links@.take(i as int),
            decreases self.links.len() - i,
        {
            links.push(self.links[i]);
            i = i + 1;
            assert(links@ =~= self.links@.take(i as int));
        }
        assert(links@ =~= self.links@);
        Metrics {
            timestamp: self.timestamp,
            throughput_down: self.throughput_down,
            throughput_up: self.throughput_up,
            throughput_down_mbps: self.throughput_down_mbps,
            throughput_up_mbps: self.throughput_up_mbps,
            bytes_sent: self.bytes_sent,
            bytes_received: self.bytes_received,
            latency_avg_ms: self.latency_avg_ms,
            latency_min_ms: self.latency_min_ms,
            latency_max_ms: self.latency_max_ms,
            latency_p50_ms: self.latency_p50_ms,
            latency_p95_ms: self.latency_p95_ms,
            latency_p99_ms: self.latency_p99_ms,
            latency_p50_us: self.latency_p50_us,
            latency_p99_us: self.latency_p99_us,
            packets_sent: self.packets_sent,
            packets_received: self.packets_received,
            packets_lost: self.packets_lost,
            loss_ratio: self.loss_ratio,
            chunks_sent: self.chunks_sent,
            chunks_received: self.chunks_received,
            chunks_reordered: self.chunks_reordered,
            reorder_ratio: self.reorder_ratio,
            gaps_detected: self.gaps_detected,
            gap_ratio: self.gap_ratio,
            cpu_usage_percent: self.cpu_usage_percent,
            memory_usage_bytes: self.memory_usage_bytes,
            links,
            active_flows: self.active_flows,
            single_link_flows: self.single_link_flows,
            multi_link_flows: self.multi_link_flows,
        }
    }
}

// ---------------------------------------------------------------------------
// Counters
// ---------------------------------------------------------------------------

/// Raw counters that get converted to metrics.
#[derive(Debug)]
pub struct RawCounters {
    /// Bytes transferred in the current window
    pub bytes_down: u64,
    pub bytes_up: u64,
    /// Packet counts
    pub packets_sent: u64,
    pub packets_received: u64,
    pub packets_lost: u64,
    /// Chunk counts
    pub chunks_sent: u64,
    pub chunks_received: u64,
    pub chunks_reordered: u64,
    pub gaps_detected: u64,
    /// Latency samples (microseconds)
    pub latency_samples: Vec<u64>,
    /// Per-link counters
    pub link_bytes_down: Vec<u64>,
    pub link_bytes_up: Vec<u64>,
    pub link_packets_sent: Vec<u64>,
    pub link_packets_acked: Vec<u64>,
    /// Per-link RTT samples (microseconds)
    pub link_rtt_samples: Vec<Vec<u64>>,
    /// Flow counts
    pub active_flows: usize,
    pub single_link_flows: usize,
    pub multi_link_flows: usize,
    /// Window start (nanoseconds)
    pub window_start: u64,
}

/// What a [`RawCounters`] holds.
#[verifier::ext_equal]
pub struct CountersView {
    pub bytes_down: u64,
    pub bytes_up: u64,
    pub packets_sent: u64,
    pub packets_received: u64,
    pub packets_lost: u64,
    pub chunks_sent: u64,
    pub chunks_received: u64,
    pub chunks_reordered: u64,
    pub gaps_detected: u64,
    pub latency_samples: Seq<u64>,
    pub link_bytes_down: Seq<u64>,
    pub link_bytes_up: Seq<u64>,
    pub link_packets_sent: Seq<u64>,
    pub link_packets_acked: Seq<u64>,
    pub link_rtt_samples: Seq<Seq<u64>>,
    pub active_flows: usize,
    pub single_link_flows: usize,
    pub multi_link_flows: usize,
    pub window_start: u64,
}

impl View for RawCounters {
    type V = CountersView;

    open spec fn view(&self) -> CountersView {
        CountersView {
            bytes_down: self.bytes_down,
            bytes_up: self.bytes_up,
            packets_sent: self.packets_sent,
            packets_received: self.packets_received,
            packets_lost: self.packets_lost,
            chunks_sent: self.chunks_sent,
            chunks_received: self.chunks_received,
            chunks_reordered: self.chunks_reordered,
            gaps_detected: self.gaps_detected,
            latency_samples: self.latency_samples@,
            link_bytes_down: self.link_bytes_down@,
            link_bytes_up: self.link_bytes_up@,
            link_packets_sent: self.link_packets_sent@,
            link_packets_acked: self.link_packets_acked@,
            link_rtt_samples: self.link_rtt_samples@.map_values(|v: Vec<u64>| v@),
            active_flows: self.active_flows,
            single_link_flows: self.single_link_flows,
            multi_link_flows: self.multi_link_flows,
            window_start: self.window_start,
        }
    }
}

/// Counters with one of them increased; one that does not exist changes
/// nothing.
pub open spec fn bumped(counters: Seq<u64>, i: int, by: nat) -> Seq<u64> {
    if 0 <= i < counters.len() {
        counters.update(i, (counters[i] + by) as u64)
    } else {
        counters
    }
}

fn bump(counters: &mut Vec<u64>, i: usize, by: u64)
    requires
        i < old(counters)@.len() ==> old(counters)@[i as int] + by <= u64::MAX,
    ensures
        final(counters)@ == bumped(old(counters)@, i as int, by as nat),
{
    if i < counters.len() {
        let sum: u64 = counters[i] + by;
        counters.set(i, sum);
    }
}

impl CountersView {
    /// Counters at zero, in a window that starts now.
    pub open spec fn fresh(now_ns: u64) -> CountersView {
        CountersView {
            bytes_down: 0,
            bytes_up: 0,
            packets_sent: 0,
            packets_received: 0,
            packets_lost: 0,
            chunks_sent: 0,
            chunks_received: 0,
            chunks_reordered: 0,
            gaps_detected: 0,
            latency_samples: Seq::empty(),
            link_bytes_down: Seq::new(NUM_LINKS as nat, |i: int| 0u64),
            link_bytes_up: Seq::new(NUM_LINKS as nat, |i: int| 0u64),
            link_packets_sent: Seq::new(NUM_LINKS as nat, |i: int| 0u64),
            link_packets_acked: Seq::new(NUM_LINKS as nat, |i: int| 0u64),
            link_rtt_samples: Seq::new(NUM_LINKS as nat, |i: int| Seq::<u64>::empty()),
            active_flows: 0,
            single_link_flows: 0,
            multi_link_flows: 0,
            window_start: now_ns,
        }
    }

    /// One RTT sample of a link more.
    pub open spec fn with_rtt(self, link_id: int, rtt_us: u64) -> CountersView {
        if 0 <= link_id < self.link_rtt_samples.len() {
            CountersView {
                link_rtt_samples: self.link_rtt_samples.update(
                    link_id,
                    self.link_rtt_samples[link_id].push(rtt_us),
                ),
                ..self
            }
        } else {
            self
        }
    }
}

/// Something to record.
pub enum Recording {
    PacketTx { size: usize },
    PacketRx { size: usize },
    ChunkTx { size: usize },
    ChunkRx { size: usize },
    BytesDown { bytes: u64 },
    BytesUp { bytes: u64 },
    PacketSent { link_id: usize },
    PacketReceived,
    PacketLost,
    PacketAcked { link_id: usize },
    ChunkSent,
    ChunkReceived,
    ChunkReordered,
    Gap,
    Latency { latency_us: u64 },
    LinkRtt { link_id: usize, rtt_us: u64 },
    LinkBytesDown { link_id: usize, bytes: u64 },
    LinkBytesUp { link_id: usize, bytes: u64 },
    FlowCounts { active: usize, single: usize, multi: usize },
}

impl CountersView {
    /// The counters with one thing more recorded.
    pub open spec fn with(self, recording: Recording) -> CountersView {
        match recording {
            Recording::PacketTx { size } => CountersView {
                packets_sent: (self.packets_sent + 1) as u64,
                bytes_up: (self.bytes_up + size) as u64,
                ..self
            },
            Recording::PacketRx { size } => CountersView {
                packets_received: (self.packets_received + 1) as u64,
                bytes_down: (self.bytes_down + size) as u64,
                ..self
            },
            Recording::ChunkTx { size } => CountersView {
                chunks_sent: (self.chunks_sent + 1) as u64,
                bytes_up: (self.bytes_up + size) as u64,
                ..self
            },
            Recording::ChunkRx { size } => CountersView {
                chunks_received: (self.chunks_received + 1) as u64,
                bytes_down: (self.bytes_down + size) as u64,
                ..self
            },
            Recording::BytesDown { bytes } => CountersView { bytes_down: (self.bytes_down + bytes) as u64, ..self },
            Recording::BytesUp { bytes } => CountersView { bytes_up: (self.bytes_up + bytes) as u64, ..self },
            Recording::PacketSent { link_id } => CountersView {
                packets_sent: (self.packets_sent + 1) as u64,
                link_packets_sent: bumped(self.link_packets_sent, link_id as int, 1),
                ..self
            },
            Recording::PacketReceived => CountersView {
                packets_received: (self.packets_received + 1) as u64,
                ..self
            },
            Recording::PacketLost => CountersView { packets_lost: (self.packets_lost + 1) as u64, ..self },
            Recording::PacketAcked { link_id } => CountersView {
                link_packets_acked: bumped(self.link_packets_acked, link_id as int, 1),
                ..self
            },
            Recording::ChunkSent => CountersView { chunks_sent: (self.chunks_sent + 1) as u64, ..self },
            Recording::ChunkReceived => CountersView { chunks_received: (self.chunks_received + 1) as u64, ..self },
            Recording::ChunkReordered => CountersView {
                chunks_reordered: (self.chunks_reordered + 1) as u64,
                ..self
            },
            Recording::Gap => CountersView { gaps_detected: (self.gaps_detected + 1) as u64, ..self },
            Recording::Latency { latency_us } => CountersView {
                latency_samples: self.latency_samples.push(latency_us),
                ..self
            },
            Recording::LinkRtt { link_id, rtt_us } => self.with_rtt(link_id as int, rtt_us),
            Recording::LinkBytesDown { link_id, bytes } => CountersView {
                link_bytes_down: bumped(self.link_bytes_down, link_id as int, bytes as nat),
                ..self
            },
            Recording::LinkBytesUp { link_id, bytes } => CountersView {
                link_bytes_up: bumped(self.link_bytes_up, link_id as int, bytes as nat),
                ..self
            },
            Recording::FlowCounts { active, single, multi } => CountersView {
                active_flows: active,
                single_link_flows: single,
                multi_link_flows: multi,
                ..self
            },
        }
    }
}

impl RawCounters {
    /// The counters cover the links.
    pub open spec fn wf(self) -> bool {
        &&& self.link_bytes_down@.len() == NUM_LINKS
        &&& self.link_bytes_up@.len() == NUM_LINKS
        &&& self.link_packets_sent@.len() == NUM_LINKS
        &&& self.link_packets_acked@.len() == NUM_LINKS
        &&& self.link_rtt_samples@.len() == NUM_LINKS
    }

    fn new(now_ns: u64) -> (r: RawCounters)
        ensures
            r.wf(),
            r@ == CountersView::fresh(now_ns),
    {
        let r: RawCounters = RawCounters {
            bytes_down: 0,
            bytes_up: 0,
            packets_sent: 0,
            packets_received: 0,
            packets_lost: 0,
            chunks_sent: 0,
            chunks_received: 0,
            chunks_reordered: 0,
            gaps_detected: 0,
            latency_samples: Vec::new(),
            link_bytes_down: vec![0, 0, 0, 0, 0],
            link_bytes_up: vec![0, 0, 0, 0, 0],
            link_packets_sent: vec![0, 0, 0, 0, 0],
            link_packets_acked: vec![0, 0, 0, 0, 0],
            link_rtt_samples: vec![Vec::new(), Vec::new(), Vec::new(), Vec::new(), Vec::new()],
            active_flows: 0,
            single_link_flows: 0,
            multi_link_flows: 0,
            window_start: now_ns,
        };
        assert(r@ =~= CountersView::fresh(now_ns)) by {
            assert(r@.link_bytes_down =~= CountersView::fresh(now_ns).link_bytes_down);
            assert(r@.link_rtt_samples =~= CountersView::fresh(now_ns).link_rtt_samples);
        }
        r
    }
}

// ---------------------------------------------------------------------------
// Collector
// ---------------------------------------------------------------------------

/// Metrics collector: accumulates counters and keeps a history of snapshots.
#[derive(Debug)]
pub struct MetricsCollector {
    pub counters: RawCounters,
    pub history: VecDeque<Metrics>,
    pub max_history: usize,
}

impl MetricsCollector {
    /// The counters cover the links.
    pub open spec fn wf(self) -> bool {
        self.counters.wf()
    }

    /// The snapshots kept, oldest first.
    pub open spec fn kept(self) -> Seq<MetricsView> {
        self.history@.map_values(|m: Metrics| m@)
    }

    /// Create a new metrics collector with default history size.
    pub fn new(now_ns: u64) -> (r: MetricsCollector)
        ensures
            r.wf(),
            r.counters@ == CountersView::fresh(now_ns),
            r.history@ == Seq::<Metrics>::empty(),
            r.max_history == DEFAULT_HISTORY,
    {
        Self::with_history(DEFAULT_HISTORY, now_ns)
    }

    /// Create a new metrics collector with custom history size.
    pub fn with_history(max_history: usize, now_ns: u64) -> (r: MetricsCollector)
        ensures
            r.wf(),
            r.counters@ == CountersView::fresh(now_ns),
            r.history@ == Seq::<Metrics>::empty(),
            r.max_history == max_history,
    {
        MetricsCollector { counters: RawCounters::new(now_ns), history: VecDeque::new(), max_history }
    }

    /// Record a packet transmitted (its bytes too).
    pub fn record_packet_tx(&mut self, bytes: usize)
        requires
            old(self).wf(),
            old(self).counters.packets_sent + 1 <= u64::MAX,
            old(self).counters.bytes_up + bytes <= u64::MAX,
        ensures
            final(self).wf(),
            final(self).history == old(self).history,
            final(self).max_history == old(self).max_history,
            final(self).counters@ == old(self).counters@.with((Recording::PacketTx { size: bytes })),
    {
        self.counters.packets_sent = self.counters.packets_sent + 1;
        self.counters.bytes_up = self.counters.bytes_up + bytes as u64;
    }

    /// Record a packet received (its bytes too).
    pub fn record_packet_rx(&mut self, bytes: usize)
        requires
            old(self).wf(),
            old(self).counters.packets_received + 1 <= u64::MAX,
            old(self).counters.bytes_down + bytes <= u64::MAX,
        ensures
            final(self).wf(),
            final(self).history == old(self).history,
            final(self).max_history == old(self).max_history,
            final(self).counters@ == old(self).counters@.with((Recording::PacketRx { size: bytes })),
    {
        self.counters.packets_received = self.counters.packets_received + 1;
        self.counters.bytes_down = self.counters.bytes_down + bytes as u64;
    }

    /// Record a chunk transmitted.
    pub fn record_chunk_tx(&mut self, bytes: usize)
        requires
            old(self).wf(),
            old(self).counters.chunks_sent + 1 <= u64::MAX,
            old(self).counters.bytes_up + bytes <= u64::MAX,
        ensures
            final(self).wf(),
            final(self).history == old(self).history,
            final(self).max_history == old(self).max_history,
            final(self).counters@ == old(self).counters@.with((Recording::ChunkTx { size: bytes })),
    {
        self.counters.chunks_sent = self.counters.chunks_sent + 1;
        self.counters.bytes_up = self.counters.bytes_up + bytes as u64;
    }

    /// Record a chunk received.
    pub fn record_chunk_rx(&mut self, bytes: usize)
        requires
            old(self).wf(),
            old(self).counters.chunks_received + 1 <= u64::MAX,
            old(self).counters.bytes_down + bytes <= u64::MAX,
        ensures
            final(self).wf(),
            final(self).history == old(self).history,
            final(self).max_history == old(self).max_history,
            final(self).counters@ == old(self).counters@.with((Recording::ChunkRx { size: bytes })),
    {
        self.counters.chunks_received = self.counters.chunks_received + 1;
        self.counters.bytes_down = self.counters.bytes_down + bytes as u64;
    }

    /// Record bytes received.
    pub fn record_bytes_down(&mut self, bytes: u64)
        requires
            old(self).wf(),
            old(self).counters.bytes_down + bytes <= u64::MAX,
        ensures
            final(self).wf(),
            final(self).history == old(self).history,
            final(self).max_history == old(self).max_history,
            final(self).counters@ == old(self).counters@.with((Recording::BytesDown { bytes })),
    {
        self.counters.bytes_down = self.counters.bytes_down + bytes;
    }

    /// Record bytes sent.
    pub fn record_bytes_up(&mut self, bytes: u64)
        requires
            old(self).wf(),
            old(self).counters.bytes_up + bytes <= u64::MAX,
        ensures
            final(self).wf(),
            final(self).history == old(self).history,
            final(self).max_history == old(self).max_history,
            final(self).counters@ == old(self).counters@.with((Recording::BytesUp { bytes })),
    {
        self.counters.bytes_up = self.counters.bytes_up + bytes;
    }

    /// Record a packet sent on a link.
    pub fn record_packet_sent(&mut self, link_id: usize)
        requires
            old(self).wf(),
            old(self).counters.packets_sent < u64::MAX,
            link_id < NUM_LINKS ==> old(self).counters.link_packets_sent@[link_id as int] < u64::MAX,
        ensures
            final(self).wf(),
            final(self).history == old(self).history,
            final(self).max_history == old(self).max_history,
            final(self).counters@ == old(self).counters@.with((Recording::PacketSent { link_id })),
    {
        self.counters.packets_sent = self.counters.packets_sent + 1;
        bump(&mut self.counters.link_packets_sent, link_id, 1);
    }

    /// Record a packet received.
    pub fn record_packet_received(&mut self)
        requires
            old(self).wf(),
            old(self).counters.packets_received + 1 <= u64::MAX,
        ensures
            final(self).wf(),
            final(self).history == old(self).history,
            final(self).max_history == old(self).max_history,
            final(self).counters@ == old(self).counters@.with(Recording::PacketReceived),
    {
        self.counters.packets_received = self.counters.packets_received + 1;
    }

    /// Record a packet lost.
    pub fn record_packet_lost(&mut self)
        requires
            old(self).wf(),
            old(self).counters.packets_lost + 1 <= u64::MAX,
        ensures
            final(self).wf(),
            final(self).history == old(self).history,
            final(self).max_history == old(self).max_history,
            final(self).counters@ == old(self).counters@.with(Recording::PacketLost),
    {
        self.counters.packets_lost = self.counters.packets_lost + 1;
    }

    /// Record a packet acknowledged on a link.
    pub fn record_packet_acked(&mut self, link_id: usize)
        requires
            old(self).wf(),
            link_id < NUM_LINKS ==> old(self).counters.link_packets_acked@[link_id as int] + 1 <= u64::MAX,
        ensures
            final(self).wf(),
            final(self).history == old(self).history,
            final(self).max_history == old(self).max_history,
            final(self).counters@ == old(self).counters@.with((Recording::PacketAcked { link_id })),
    {
        bump(&mut self.counters.link_packets_acked, link_id, 1);
    }

    /// Record a chunk sent.
    pub fn record_chunk_sent(&mut self)
        requires
            old(self).wf(),
            old(self).counters.chunks_sent + 1 <= u64::MAX,
        ensures
            final(self).wf(),
            final(self).history == old(self).history,
            final(self).max_history == old(self).max_history,
            final(self).counters@ == old(self).counters@.with(Recording::ChunkSent),
    {
        self.counters.chunks_sent = self.counters.chunks_sent + 1;
    }

    /// Record a chunk received.
    pub fn record_chunk_received(&mut self)
        requires
            old(self).wf(),
            old(self).counters.chunks_received + 1 <= u64::MAX,
        ensures
            final(self).wf(),
            final(self).history == old(self).history,
            final(self).max_history == old(self).max_history,
            final(self).counters@ == old(self).counters@.with(Recording::ChunkReceived),
    {
        self.counters.chunks_received = self.counters.chunks_received + 1;
    }

    /// Record a chunk out of order.
    pub fn record_chunk_reordered(&mut self)
        requires
            old(self).wf(),
            old(self).counters.chunks_reordered + 1 <= u64::MAX,
        ensures
            final(self).wf(),
            final(self).history == old(self).history,
            final(self).max_history == old(self).max_history,
            final(self).counters@ == old(self).counters@.with(Recording::ChunkReordered),
    {
        self.counters.chunks_reordered = self.counters.chunks_reordered + 1;
    }

    /// Record a missing sequence.
    pub fn record_gap(&mut self)
        requires
            old(self).wf(),
            old(self).counters.gaps_detected + 1 <= u64::MAX,
        ensures
            final(self).wf(),
            final(self).history == old(self).history,
            final(self).max_history == old(self).max_history,
            final(self).counters@ == old(self).counters@.with(Recording::Gap),
    {
        self.counters.gaps_detected = self.counters.gaps_detected + 1;
    }

    /// Record a latency sample.
    pub fn record_latency_us(&mut self, latency_us: u64)
        requires
            old(self).wf(),
        ensures
            final(self).wf(),
            final(self).history == old(self).history,
            final(self).max_history == old(self).max_history,
            final(self).counters@ == old(self).counters@.with((Recording::Latency { latency_us })),
    {
        self.counters.latency_samples.push(latency_us);
    }

    /// Record an RTT sample of a link.
    pub fn record_link_rtt_us(&mut self, link_id: usize, rtt_us: u64)
        requires
            old(self).wf(),
        ensures
            final(self).wf(),
            final(self).history == old(self).history,
            final(self).max_history == old(self).max_history,
            final(self).counters@ == old(self).counters@.with((Recording::LinkRtt { link_id, rtt_us })),
    {
        if link_id < NUM_LINKS {
            self.counters.link_rtt_samples[link_id].push(rtt_us);
        }
        assert(self.counters@ =~= old(self).counters@.with_rtt(link_id as int, rtt_us)) by {
            assert(self.counters@.link_rtt_samples =~= old(self).counters@.with_rtt(link_id as int, rtt_us).link_rtt_samples);
        }
    }

    /// Record bytes received on a link.
    pub fn record_link_bytes_down(&mut self, link_id: usize, bytes: u64)
        requires
            old(self).wf(),
            link_id < NUM_LINKS ==> old(self).counters.link_bytes_down@[link_id as int] + bytes <= u64::MAX,
        ensures
            final(self).wf(),
            final(self).history == old(self).history,
            final(self).max_history == old(self).max_history,
            final(self).counters@ == old(self).counters@.with((Recording::LinkBytesDown { link_id, bytes })),
    {
        bump(&mut self.counters.link_bytes_down, link_id, bytes);
    }

    /// Record bytes sent on a link.
    pub fn record_link_bytes_up(&mut self, link_id: usize, bytes: u64)
        requires
            old(self).wf(),
            link_id < NUM_LINKS ==> old(self).counters.link_bytes_up@[link_id as int] + bytes <= u64::MAX,
        ensures
            final(self).wf(),
            final(self).history == old(self).history,
            final(self).max_history == old(self).max_history,
            final(self).counters@ == old(self).counters@.with((Recording::LinkBytesUp { link_id, bytes })),
    {
        bump(&mut self.counters.link_bytes_up, link_id, bytes);
    }

    /// Record how many flows there are.
    pub fn record_flow_counts(&mut self, active: usize, single: usize, multi: usize)
        requires
            old(self).wf(),
        ensures
            final(self).wf(),
            final(self).history == old(self).history,
            final(self).max_history == old(self).max_history,
            final(self).counters@ == old(self).counters@.with((Recording::FlowCounts { active, single, multi })),
    {
        self.counters.active_flows = active;
        self.counters.single_link_flows = single;
        self.counters.multi_link_flows = multi;
    }
}

// ---------------------------------------------------------------------------
// Statistics of samples
// ---------------------------------------------------------------------------

/// Samples in ascending order.
pub open spec fn sorted(samples: Seq<u64>) -> Seq<u64> {
    order_of(samples, samples.len()).map_values(|i: usize| samples[i as int])
}

/// Samples in microseconds as milliseconds.
pub open spec fn all_millis(samples: Seq<u64>) -> Seq<Binary64> {
    samples.map_values(|us: u64| millis(us as nat))
}

/// The position of a percentile among `n` sorted samples.
pub open spec fn rank(n: nat, percent: nat) -> nat {
    Binary64::of_nat((n - 1) as nat).product(Binary64::fraction(percent, 100)).truncated()
}

/// The sample at a percentile, in milliseconds.
pub open spec fn percentile(samples: Seq<u64>, percent: nat) -> Binary64 {
    millis(sorted(samples)[rank(samples.len(), percent) as int] as nat)
}

/// Mean, least, greatest, and the 50th, 95th and 99th percentiles of samples
/// in microseconds, as milliseconds; zeros where there is no sample.
pub open spec fn percentiles(samples: Seq<u64>) -> (Binary64, Binary64, Binary64, Binary64, Binary64, Binary64) {
    let zero = Binary64::of_nat(0);
    if samples.len() == 0 {
        (zero, zero, zero, zero, zero, zero)
    } else {
        (
            mean(all_millis(sorted(samples))),
            millis(sorted(samples)[0] as nat),
            millis(sorted(samples).last() as nat),
            percentile(samples, 50),
            percentile(samples, 95),
            percentile(samples, 99),
        )
    }
}

fn rank_of(n: usize, percent: u64) -> (r: usize)
    requires
        n > 0,
        percent <= 99,
    ensures
        r == rank(n as nat, percent as nat),
        r < n,
{
    proof {
        lemma_part_of_integer((n - 1) as nat, percent as nat);
    }
    Binary64::from_u64((n - 1) as u64).times(Binary64::ratio(percent, 100)).to_u64() as usize
}

/// Mean, least, greatest, and the 50th, 95th and 99th percentiles of samples
/// in microseconds, as milliseconds.
pub fn calculate_percentiles(samples: &Vec<u64>) -> (r: (
    Binary64,
    Binary64,
    Binary64,
    Binary64,
    Binary64,
    Binary64,
))
    ensures
        r == percentiles(samples@),
{
    let zero: Binary64 = Binary64::from_u64(0);
    let n: usize = samples.len();
    if n == 0 {
        return (zero, zero, zero, zero, zero, zero);
    }
    let order: Vec<usize> = stable_order(samples);
    let mut values: Vec<Binary64> = Vec::new();
    let mut i: usize = 0;
    while i < n
        invariant
            i <= n,
            n == samples@.len(),
            order@ == order_of(samples@, n as nat),
            order@.len() == n,
            forall|p: int| 0 <= p < n ==> (#[trigger] order@[p]) < n,
            values@ == all_millis(sorted(samples@)).take(i as int),
        decreases n - i,
    {
        values.push(as_millis(samples[order[i]]));
        i = i + 1;
        assert(values@ =~= all_millis(sorted(samples@)).take(i as int));
    }
    assert(values@ =~= all_millis(sorted(samples@)));
    (
        mean_of(&values),
        values[0],
        values[n - 1],
        values[rank_of(n, 50)],
        values[rank_of(n, 95)],
        values[rank_of(n, 99)],
    )
}

/// A sample as a signed number.
pub open spec fn signed(sample: u64) -> int {
    if sample <= i64::MAX {
        sample as int
    } else {
        sample - 0x1_0000_0000_0000_0000
    }
}

/// The distance between a sample and the one before it.
pub open spec fn step(samples: Seq<u64>, i: int) -> nat {
    let d = signed(samples[i]) - signed(samples[i - 1]);
    (if d < 0 {
        -d
    } else {
        d
    }) as nat
}

/// Whether the distances between samples stay within signed 64-bit integers.
pub open spec fn steps_fit(samples: Seq<u64>) -> bool {
    forall|i: int| 1 <= i < samples.len() ==> #[trigger] step(samples, i) <= i64::MAX
}

/// The mean distance between successive samples in microseconds, as
/// milliseconds; zero where there are fewer than two.
pub open spec fn jitter(samples: Seq<u64>) -> Binary64 {
    if samples.len() < 2 {
        Binary64::of_nat(0)
    } else {
        mean(
            Seq::new((samples.len() - 1) as nat, |i: int| Binary64::of_nat(step(samples, i + 1))),
        ).quotient(Binary64::of_nat(1000))
    }
}

fn signed_sample(sample: u64) -> (r: i128)
    ensures
        r == signed(sample),
{
    if sample <= i64::MAX as u64 {
        sample as i128
    } else {
        sample as i128 - 0x1_0000_0000_0000_0000
    }
}

fn step_at(samples: &Vec<u64>, i: usize) -> (r: u128)
    requires
        1 <= i < samples@.len(),
    ensures
        r == step(samples@, i as int),
{
    let d: i128 = signed_sample(samples[i]) - signed_sample(samples[i - 1]);
    if d < 0 {
        (0 - d) as u128
    } else {
        d as u128
    }
}

/// The mean distance between successive samples in microseconds, as
/// milliseconds.
pub fn calculate_jitter(samples: &Vec<u64>) -> (r: Binary64)
    requires
        steps_fit(samples@),
    ensures
        r == jitter(samples@),
{
    let n: usize = samples.len();
    if n < 2 {
        return Binary64::from_u64(0);
    }
    let ghost steps = Seq::new((n - 1) as nat, |i: int| Binary64::of_nat(step(samples@, i + 1)));
    let mut diffs: Vec<Binary64> = Vec::new();
    let mut i: usize = 1;
    while i < n
        invariant
            1 <= i <= n,
            n == samples@.len(),
            steps_fit(samples@),
            steps == Seq::new((n - 1) as nat, |i: int| Binary64::of_nat(step(samples@, i + 1))),
            diffs@ == steps.take(i - 1),
        decreases n - i,
    {
        let d: u128 = step_at(samples, i);
        assert(d <= i64::MAX);
        diffs.push(Binary64::from_u64(d as u64));
        i = i + 1;
        assert(diffs@ =~= steps.take(i - 1));
    }
    assert(diffs@ =~= steps);
    mean_of(&diffs).over(Binary64::from_u64(1000))
}

fn can_measure_jitter(samples: &Vec<u64>) -> (r: bool)
    ensures
        r == steps_fit(samples@),
{
    let mut i: usize = 1;
    while i < samples.len()
        invariant
            1 <= i,
            forall|j: int| 1 <= j < i && j < samples@.len() ==> #[trigger] step(samples@, j) <= i64::MAX,
        decreases samples.len() - i,
    {
        if step_at(samples, i) > i64::MAX as u128 {
            return false;
        }
        i = i + 1;
    }
    true
}

// ---------------------------------------------------------------------------
// Taking a snapshot
// ---------------------------------------------------------------------------

/// `part / whole`, the whole one at least.
pub open spec fn portion(part: u64, whole: u64) -> Binary64 {
    Binary64::of_nat(part as nat).quotient(
        Binary64::of_nat(
            if whole >= 1 {
                whole as nat
            } else {
                1
            },
        ),
    )
}

fn portion_of(part: u64, whole: u64) -> (r: Binary64)
    ensures
        r == portion(part, whole),
{
    let at_least_one: u64 = if whole >= 1 {
        whole
    } else {
        1
    };
    Binary64::from_u64(part).over(Binary64::from_u64(at_least_one))
}

impl CountersView {
    /// The length of the window in seconds, a millisecond at least.
    pub open spec fn window_secs(self, now_ns: u64) -> Binary64 {
        seconds(monus(now_ns as nat, self.window_start as nat)).greater(Binary64::fraction(1, 1000))
    }

    /// A number of bytes per second of the window.
    pub open spec fn per_second(self, bytes: u64, now_ns: u64) -> Binary64 {
        Binary64::of_nat(bytes as nat).quotient(self.window_secs(now_ns))
    }

    /// The sample at a position among the sorted ones, zero where there is
    /// none.
    pub open spec fn latency_at(self, i: nat) -> u64 {
        if i < self.latency_samples.len() {
            sorted(self.latency_samples)[i as int]
        } else {
            0
        }
    }

    /// The metrics of a link.
    pub open spec fn link_metrics(self, i: int, now_ns: u64) -> LinkMetrics {
        let rtts = percentiles(self.link_rtt_samples[i]);
        LinkMetrics {
            link_id: i as usize,
            throughput_down: self.per_second(self.link_bytes_down[i], now_ns),
            throughput_up: self.per_second(self.link_bytes_up[i], now_ns),
            rtt_avg_ms: rtts.0,
            rtt_min_ms: rtts.1,
            rtt_max_ms: rtts.2,
            jitter_ms: jitter(self.link_rtt_samples[i]),
            packets_sent: self.link_packets_sent[i],
            packets_acked: self.link_packets_acked[i],
            loss_ratio: Binary64::of_nat(1).difference(
                portion(self.link_packets_acked[i], self.link_packets_sent[i]),
            ).greater(Binary64::of_nat(0)),
            is_active: self.link_packets_sent[i] > 0,
            bandwidth_estimate: self.per_second(self.link_bytes_up[i], now_ns),
        }
    }

    /// The metrics of the window: rates over its length, statistics of its
    /// samples, and ratios of its counts.
    pub open spec fn metrics(self, now_ns: u64, timestamp: i64, cpu: Binary64, memory: u64) -> MetricsView {
        let latency = percentiles(self.latency_samples);
        MetricsView {
            timestamp,
            throughput_down: self.per_second(self.bytes_down, now_ns),
            throughput_up: self.per_second(self.bytes_up, now_ns),
            throughput_down_mbps: mbps(self.per_second(self.bytes_down, now_ns)),
            throughput_up_mbps: mbps(self.per_second(self.bytes_up, now_ns)),
            bytes_sent: self.bytes_up,
            bytes_received: self.bytes_down,
            latency_avg_ms: latency.0,
            latency_min_ms: latency.1,
            latency_max_ms: latency.2,
            latency_p50_ms: latency.3,
            latency_p95_ms: latency.4,
            latency_p99_ms: latency.5,
            latency_p50_us: self.latency_at(self.latency_samples.len() / 2),
            latency_p99_us: self.latency_at(
                Binary64::of_nat(self.latency_samples.len()).product(Binary64::fraction(99, 100)).truncated(),
            ),
            packets_sent: self.packets_sent,
            packets_received: self.packets_received,
            packets_lost: self.packets_lost,
            loss_ratio: portion(self.packets_lost, self.packets_sent),
            chunks_sent: self.chunks_sent,
            chunks_received: self.chunks_received,
            chunks_reordered: self.chunks_reordered,
            reorder_ratio: portion(self.chunks_reordered, self.chunks_received),
            gaps_detected: self.gaps_detected,
            gap_ratio: portion(self.gaps_detected, self.chunks_received),
            cpu_usage_percent: cpu,
            memory_usage_bytes: memory,
            links: Seq::new(NUM_LINKS as nat, |i: int| self.link_metrics(i, now_ns)),
            active_flows: self.active_flows,
            single_link_flows: self.single_link_flows,
            multi_link_flows: self.multi_link_flows,
        }
    }

    /// Whether the jitter of every link can be calculated.
    pub open spec fn steps_fit(self) -> bool {
        forall|i: int| 0 <= i < self.link_rtt_samples.len() ==> steps_fit(#[trigger] self.link_rtt_samples[i])
    }
}

impl RawCounters {
    fn per_second(&self, bytes: u64, secs: Binary64) -> (r: Binary64)
        ensures
            r == Binary64::of_nat(bytes as nat).quotient(secs),
    {
        Binary64::from_u64(bytes).over(secs)
    }

    fn window_secs(&self, now_ns: u64) -> (r: Binary64)
        ensures
            r == self@.window_secs(now_ns),
    {
        let elapsed: u64 = if now_ns >= self.window_start {
            now_ns - self.window_start
        } else {
            0
        };
        as_seconds(elapsed as u128).max(Binary64::ratio(1, 1000))
    }

    fn link_metrics(&self, i: usize, now_ns: u64) -> (r: LinkMetrics)
        requires
            self.wf(),
            i < NUM_LINKS,
            steps_fit(self.link_rtt_samples@[i as int]@),
        ensures
            r == self@.link_metrics(i as int, now_ns),
    {
        let secs: Binary64 = self.window_secs(now_ns);
        let samples: &Vec<u64> = &self.link_rtt_samples[i];
        assert(self@.link_rtt_samples[i as int] == samples@);
        let rtts: (Binary64, Binary64, Binary64, Binary64, Binary64, Binary64) = calculate_percentiles(samples);
        let jitter_ms: Binary64 = calculate_jitter(samples);
        let sent: u64 = self.link_packets_sent[i];
        let acked: u64 = self.link_packets_acked[i];
        let loss: Binary64 = Binary64::from_u64(1).minus(portion_of(acked, sent));
        LinkMetrics {
            link_id: i,
            throughput_down: self.per_second(self.link_bytes_down[i], secs),
            throughput_up: self.per_second(self.link_bytes_up[i], secs),
            rtt_avg_ms: rtts.0,
            rtt_min_ms: rtts.1,
            rtt_max_ms: rtts.2,
            jitter_ms,
            packets_sent: sent,
            packets_acked: acked,
            loss_ratio: loss.max(Binary64::from_u64(0)),
            is_active: sent > 0,
            bandwidth_estimate: self.per_second(self.link_bytes_up[i], secs),
        }
    }

    fn latency_at(&self, order: &Vec<usize>, i: u64) -> (r: u64)
        requires
            order@ == order_of(self.latency_samples@, self.latency_samples@.len()),
            is_stable_order(self.latency_samples@, self.latency_samples@.len(), order@),
        ensures
            r == self@.latency_at(i as nat),
    {
        if i < self.latency_samples.len() as u64 {
            self.latency_samples[order[i as usize]]
        } else {
            0
        }
    }

    fn metrics(&self, now_ns: u64, timestamp: i64, cpu: Binary64, memory: u64) -> (r: Metrics)
        requires
            self.wf(),
            self@.steps_fit(),
        ensures
            r@ == self@.metrics(now_ns, timestamp, cpu, memory),
    {
        let secs: Binary64 = self.window_secs(now_ns);
        let throughput_down: Binary64 = self.per_second(self.bytes_down, secs);
        let throughput_up: Binary64 = self.per_second(self.bytes_up, secs);
        let latency: (Binary64, Binary64, Binary64, Binary64, Binary64, Binary64) = calculate_percentiles(
            &self.latency_samples,
        );
        let ghost all = Seq::new(NUM_LINKS as nat, |i: int| self@.link_metrics(i, now_ns));
        let mut links: Vec<LinkMetrics> = Vec::new();
        let mut i: usize = 0;
        while i < NUM_LINKS
            invariant
                i <= NUM_LINKS,
                self.wf(),
                self@.steps_fit(),
                all == Seq::new(NUM_LINKS as nat, |i: int| self@.link_metrics(i, now_ns)),
                links@ == all.take(i as int),
            decreases NUM_LINKS - i,
        {
            assert(steps_fit(self@.link_rtt_samples[i as int]));
            links.push(self.link_metrics(i, now_ns));
            i = i + 1;
            assert(links@ =~= all.take(i as int));
        }
        assert(links@ =~= all);
        let n: u64 = self.latency_samples.len() as u64;
        let late: u64 = Binary64::from_u64(n).times(Binary64::ratio(99, 100)).to_u64();
        let order: Vec<usize> = stable_order(&self.latency_samples);
        Metrics {
            timestamp,
            throughput_down,
            throughput_up,
            throughput_down_mbps: as_mbps(throughput_down),
            throughput_up_mbps: as_mbps(throughput_up),
            bytes_sent: self.bytes_up,
            bytes_received: self.bytes_down,
            latency_avg_ms: latency.0,
            latency_min_ms: latency.1,
            latency_max_ms: latency.2,
            latency_p50_ms: latency.3,
            latency_p95_ms: latency.4,
            latency_p99_ms: latency.5,
            latency_p50_us: self.latency_at(&order, n / 2),
            latency_p99_us: self.latency_at(&order, late),
            packets_sent: self.packets_sent,
            packets_received: self.packets_received,
            packets_lost: self.packets_lost,
            loss_ratio: portion_of(self.packets_lost, self.packets_sent),
            chunks_sent: self.chunks_sent,
            chunks_received: self.chunks_received,
            chunks_reordered: self.chunks_reordered,
            reorder_ratio: portion_of(self.chunks_reordered, self.chunks_received),
            gaps_detected: self.gaps_detected,
            gap_ratio: portion_of(self.gaps_detected, self.chunks_received),
            cpu_usage_percent: cpu,
            memory_usage_bytes: memory,
            links,
            active_flows: self.active_flows,
            single_link_flows: self.single_link_flows,
            multi_link_flows: self.multi_link_flows,
        }
    }
}

/// A history with one snapshot more; the oldest goes where it is full.
pub open spec fn remembered(kept: Seq<MetricsView>, max_history: nat, m: MetricsView) -> Seq<MetricsView> {
    (if kept.len() >= max_history && kept.len() > 0 {
        kept.skip(1)
    } else {
        kept
    }).push(m)
}

impl MetricsCollector {
    /// Whether [`MetricsCollector::snapshot`] can be called.
    pub fn can_snapshot(&self) -> (r: bool)
        requires
            self.wf(),
        ensures
            r == self.counters@.steps_fit(),
    {
        let mut i: usize = 0;
        while i < self.counters.link_rtt_samples.len()
            invariant
                i <= self.counters.link_rtt_samples@.len(),
                forall|j: int| 0 <= j < i ==> steps_fit(#[trigger] self.counters@.link_rtt_samples[j]),
            decreases self.counters.link_rtt_samples.len() - i,
        {
            assert(self.counters@.link_rtt_samples[i as int] == self.counters.link_rtt_samples@[i as int]@);
            if !can_measure_jitter(&self.counters.link_rtt_samples[i]) {
                return false;
            }
            i = i + 1;
        }
        true
    }

    /// Take a snapshot of current metrics and reset counters.
    pub fn snapshot(&mut self, now_ns: u64, cpu: Binary64, memory: u64) -> (r: Metrics)
        requires
            old(self).wf(),
            old(self).counters@.steps_fit(),
        ensures
            final(self).wf(),
            final(self).max_history == old(self).max_history,
            final(self).counters@ == CountersView::fresh(now_ns),
            r@ == old(self).counters@.metrics(now_ns, r.timestamp, cpu, memory),
            final(self).kept() == remembered(old(self).kept(), old(self).max_history as nat, r@),
    {
        self.snapshot_at(now_ns, utc_now(), cpu, memory)
    }

    /// The snapshot with a given timestamp.
    pub fn snapshot_at(&mut self, now_ns: u64, timestamp: i64, cpu: Binary64, memory: u64) -> (r: Metrics)
        requires
            old(self).wf(),
            old(self).counters@.steps_fit(),
        ensures
            final(self).wf(),
            final(self).max_history == old(self).max_history,
            final(self).counters@ == CountersView::fresh(now_ns),
            r@ == old(self).counters@.metrics(now_ns, timestamp, cpu, memory),
            final(self).kept() == remembered(old(self).kept(), old(self).max_history as nat, r@),
    {
        let metrics: Metrics = self.counters.metrics(now_ns, timestamp, cpu, memory);
        self.counters = RawCounters::new(now_ns);
        if self.history.len() >= self.max_history {
            let _ = self.history.pop_front();
        }
        self.history.push_back(metrics.clone());
        assert(self.kept() =~= remembered(old(self).kept(), old(self).max_history as nat, metrics@));
        metrics
    }

    /// Get metrics history.
    pub fn history(&self) -> (r: Vec<Metrics>)
        ensures
            r@.map_values(|m: Metrics| m@) == self.kept(),
    {
        let mut r: Vec<Metrics> = Vec::new();
        let mut i: usize = 0;
        while i < self.history.len()
            invariant
                i <= self.history@.len(),
                r@.len() == i,
                forall|j: int| 0 <= j < i ==> (#[trigger] r@[j])@ == self.history@[j]@,
            decreases self.history.len() - i,
        {
            r.push(self.history[i].clone());
            i = i + 1;
        }
        assert(r@.map_values(|m: Metrics| m@) =~= self.kept());
        r
    }

    /// Clear history.
    pub fn clear_history(&mut self)
        requires
            old(self).wf(),
        ensures
            final(self).wf(),
            final(self).counters == old(self).counters,
            final(self).max_history == old(self).max_history,
            final(self).history@ == Seq::<Metrics>::empty(),
    {
        self.history = VecDeque::new();
    }
}

// ---------------------------------------------------------------------------
// Summary
// ---------------------------------------------------------------------------

/// Summary statistics from metrics history.
#[derive(Debug, Clone, Copy)]
pub struct MetricsSummary {
    pub sample_count: usize,
    pub avg_throughput_down_mbps: Binary64,
    pub avg_throughput_up_mbps: Binary64,
    pub max_throughput_down_mbps: Binary64,
    pub max_throughput_up_mbps: Binary64,
    pub avg_latency_ms: Binary64,
    pub max_latency_ms: Binary64,
    pub avg_loss_ratio: Binary64,
    pub avg_reorder_ratio: Binary64,
    pub avg_cpu_percent: Binary64,
}

impl MetricsSummary {
    /// The summary of no sample.
    pub open spec fn empty() -> MetricsSummary {
        MetricsSummary {
            sample_count: 0,
            avg_throughput_down_mbps: Binary64::of_nat(0),
            avg_throughput_up_mbps: Binary64::of_nat(0),
            max_throughput_down_mbps: Binary64::of_nat(0),
            max_throughput_up_mbps: Binary64::of_nat(0),
            avg_latency_ms: Binary64::of_nat(0),
            max_latency_ms: Binary64::of_nat(0),
            avg_loss_ratio: Binary64::of_nat(0),
            avg_reorder_ratio: Binary64::of_nat(0),
            avg_cpu_percent: Binary64::of_nat(0),
        }
    }

    /// Means and peaks over a history.
    pub open spec fn of_history(kept: Seq<MetricsView>) -> MetricsSummary {
        if kept.len() == 0 {
            MetricsSummary::empty()
        } else {
            let down = kept.map_values(|m: MetricsView| m.throughput_down);
            let up = kept.map_values(|m: MetricsView| m.throughput_up);
            MetricsSummary {
                sample_count: kept.len() as usize,
                avg_throughput_down_mbps: mbps(mean(down)),
                avg_throughput_up_mbps: mbps(mean(up)),
                max_throughput_down_mbps: mbps(peak(down)),
                max_throughput_up_mbps: mbps(peak(up)),
                avg_latency_ms: mean(kept.map_values(|m: MetricsView| m.latency_avg_ms)),
                max_latency_ms: peak(kept.map_values(|m: MetricsView| m.latency_max_ms)),
                avg_loss_ratio: mean(kept.map_values(|m: MetricsView| m.loss_ratio)),
                avg_reorder_ratio: mean(kept.map_values(|m: MetricsView| m.reorder_ratio)),
                avg_cpu_percent: mean(kept.map_values(|m: MetricsView| m.cpu_usage_percent)),
            }
        }
    }
}

impl Default for MetricsSummary {
    fn default() -> (r: MetricsSummary)
        ensures
            r == MetricsSummary::empty(),
    {
        let zero: Binary64 = Binary64::from_u64(0);
        MetricsSummary {
            sample_count: 0,
            avg_throughput_down_mbps: zero,
            avg_throughput_up_mbps: zero,
            max_throughput_down_mbps: zero,
            max_throughput_up_mbps: zero,
            avg_latency_ms: zero,
            max_latency_ms: zero,
            avg_loss_ratio: zero,
            avg_reorder_ratio: zero,
            avg_cpu_percent: zero,
        }
    }
}

impl MetricsCollector {
    /// Calculate summary statistics over history.
    pub fn summarize(&self) -> (r: MetricsSummary)
        ensures
            r == MetricsSummary::of_history(self.kept()),
    {
        let n: usize = self.history.len();
        if n == 0 {
            return MetricsSummary::default();
        }
        let ghost kept = self.kept();
        let mut down: Vec<Binary64> = Vec::new();
        let mut up: Vec<Binary64> = Vec::new();
        let mut latency: Vec<Binary64> = Vec::new();
        let mut worst: Vec<Binary64> = Vec::new();
        let mut loss: Vec<Binary64> = Vec::new();
        let mut reorder: Vec<Binary64> = Vec::new();
        let mut cpu: Vec<Binary64> = Vec::new();
        let mut i: usize = 0;
        while i < n
            invariant
                i <= n,
                n == self.history@.len(),
                kept == self.kept(),
                down@ == kept.map_values(|m: MetricsView| m.throughput_down).take(i as int),
                up@ == kept.map_values(|m: MetricsView| m.throughput_up).take(i as int),
                latency@ == kept.map_values(|m: MetricsView| m.latency_avg_ms).take(i as int),
                worst@ == kept.map_values(|m: MetricsView| m.latency_max_ms).take(i as int),
                loss@ == kept.map_values(|m: MetricsView| m.loss_ratio).take(i as int),
                reorder@ == kept.map_values(|m: MetricsView| m.reorder_ratio).take(i as int),
                cpu@ == kept.map_values(|m: MetricsView| m.cpu_usage_percent).take(i as int),
            decreases n - i,
        {
            let m: &Metrics = &self.history[i];
            assert(kept[i as int] == m@);
            down.push(m.throughput_down);
            up.push(m.throughput_up);
            latency.push(m.latency_avg_ms);
            worst.push(m.latency_max_ms);
            loss.push(m.loss_ratio);
            reorder.push(m.reorder_ratio);
            cpu.push(m.cpu_usage_percent);
            i = i + 1;
            assert(down@ =~= kept.map_values(|m: MetricsView| m.throughput_down).take(i as int));
            assert(up@ =~= kept.map_values(|m: MetricsView| m.throughput_up).take(i as int));
            assert(latency@ =~= kept.map_values(|m: MetricsView| m.latency_avg_ms).take(i as int));
            assert(worst@ =~= kept.map_values(|m: MetricsView| m.latency_max_ms).take(i as int));
            assert(loss@ =~= kept.map_values(|m: MetricsView| m.loss_ratio).take(i as int));
            assert(reorder@ =~= kept.map_values(|m: MetricsView| m.reorder_ratio).take(i as int));
            assert(cpu@ =~= kept.map_values(|m: MetricsView| m.cpu_usage_percent).take(i as int));
        }
        assert(down@ =~= kept.map_values(|m: MetricsView| m.throughput_down));
        assert(up@ =~= kept.map_values(|m: MetricsView| m.throughput_up));
        assert(latency@ =~= kept.map_values(|m: MetricsView| m.latency_avg_ms));
        assert(worst@ =~= kept.map_values(|m: MetricsView| m.latency_max_ms));
        assert(loss@ =~= kept.map_values(|m: MetricsView| m.loss_ratio));
        assert(reorder@ =~= kept.map_values(|m: MetricsView| m.reorder_ratio));
        assert(cpu@ =~= kept.map_values(|m: MetricsView| m.cpu_usage_percent));
        MetricsSummary {
            sample_count: n,
            avg_throughput_down_mbps: as_mbps(mean_of(&down)),
            avg_throughput_up_mbps: as_mbps(mean_of(&up)),
            max_throughput_down_mbps: as_mbps(peak_of(&down)),
            max_throughput_up_mbps: as_mbps(peak_of(&up)),
            avg_latency_ms: mean_of(&latency),
            max_latency_ms: peak_of(&worst),
            avg_loss_ratio: mean_of(&loss),
            avg_reorder_ratio: mean_of(&reorder),
            avg_cpu_percent: mean_of(&cpu),
        }
    }
}

// ---------------------------------------------------------------------------
// Laws
// ---------------------------------------------------------------------------

/// Percentiles are ordered: least, 50th, 95th, 99th, greatest.
pub proof fn law_percentiles_are_ordered(samples: Seq<u64>)
    requires
        0 < samples.len() <= usize::MAX,
    ensures
        percentiles(samples).1.at_most(percentiles(samples).3),
        percentiles(samples).3.at_most(percentiles(samples).4),
        percentiles(samples).4.at_most(percentiles(samples).5),
        percentiles(samples).5.at_most(percentiles(samples).2),
{
    let n = samples.len();
    let m = (n - 1) as nat;
    law_order_is_stable(samples, n);
    lemma_part_order(m, 50, 95);
    lemma_part_order(m, 95, 99);
    lemma_part_of_integer(m, 99);
    lemma_sorted_order(samples, 0, rank(n, 50) as int);
    lemma_sorted_order(samples, rank(n, 50) as int, rank(n, 95) as int);
    lemma_sorted_order(samples, rank(n, 95) as int, rank(n, 99) as int);
    lemma_sorted_order(samples, rank(n, 99) as int, n - 1);
}

proof fn lemma_sorted_order(samples: Seq<u64>, i: int, j: int)
    requires
        samples.len() <= usize::MAX,
        0 <= i <= j < samples.len(),
    ensures
        millis(sorted(samples)[i] as nat).at_most(millis(sorted(samples)[j] as nat)),
{
    law_order_is_stable(samples, samples.len());
    let order = order_of(samples, samples.len());
    assert(sorted(samples)[i] <= sorted(samples)[j]) by {
        if i < j {
            assert(samples[order[i] as int] <= samples[order[j] as int]);
        }
    }
    lemma_quotient_order(sorted(samples)[i] as nat, sorted(samples)[j] as nat, 1000);
}

/// The history never holds more snapshots than configured (one at least), and
/// the latest is kept.
pub proof fn law_history_is_bounded(kept: Seq<MetricsView>, max_history: nat, m: MetricsView)
    requires
        max_history >= 1,
        kept.len() <= max_history,
    ensures
        remembered(kept, max_history, m).len() <= max_history,
        remembered(kept, max_history, m).last() == m,
{
}

/// A count that is kept over a window.
pub enum Tally {
    BytesDown,
    BytesUp,
    PacketsSent,
    PacketsReceived,
    PacketsLost,
    ChunksSent,
    ChunksReceived,
    ChunksReordered,
    Gaps,
    LinkBytesDown(int),
    LinkBytesUp(int),
    LinkPacketsSent(int),
    LinkPacketsAcked(int),
}

/// A counter of a link, zero for a link that does not exist.
pub open spec fn count_at(counters: Seq<u64>, i: int) -> nat {
    if 0 <= i < counters.len() {
        counters[i] as nat
    } else {
        0
    }
}

impl CountersView {
    /// Whether the counters cover the links.
    pub open spec fn covers_links(self) -> bool {
        &&& self.link_bytes_down.len() == NUM_LINKS
        &&& self.link_bytes_up.len() == NUM_LINKS
        &&& self.link_packets_sent.len() == NUM_LINKS
        &&& self.link_packets_acked.len() == NUM_LINKS
        &&& self.link_rtt_samples.len() == NUM_LINKS
    }

    /// What a count has come to.
    pub open spec fn tally(self, t: Tally) -> nat {
        match t {
            Tally::BytesDown => self.bytes_down as nat,
            Tally::BytesUp => self.bytes_up as nat,
            Tally::PacketsSent => self.packets_sent as nat,
            Tally::PacketsReceived => self.packets_received as nat,
            Tally::PacketsLost => self.packets_lost as nat,
            Tally::ChunksSent => self.chunks_sent as nat,
            Tally::ChunksReceived => self.chunks_received as nat,
            Tally::ChunksReordered => self.chunks_reordered as nat,
            Tally::Gaps => self.gaps_detected as nat,
            Tally::LinkBytesDown(i) => count_at(self.link_bytes_down, i),
            Tally::LinkBytesUp(i) => count_at(self.link_bytes_up, i),
            Tally::LinkPacketsSent(i) => count_at(self.link_packets_sent, i),
            Tally::LinkPacketsAcked(i) => count_at(self.link_packets_acked, i),
        }
    }

    /// Whether no count overflows by one thing more recorded.
    pub open spec fn has_room_for(self, recording: Recording) -> bool {
        forall|t: Tally| #[trigger] self.tally(t) + recording.adds(t) <= u64::MAX
    }
}

impl Recording {
    /// What it adds to a count.
    pub open spec fn adds(self, t: Tally) -> nat {
        match (self, t) {
            (Recording::PacketTx { .. }, Tally::PacketsSent) => 1,
            (Recording::PacketTx { size }, Tally::BytesUp) => size as nat,
            (Recording::PacketRx { .. }, Tally::PacketsReceived) => 1,
            (Recording::PacketRx { size }, Tally::BytesDown) => size as nat,
            (Recording::ChunkTx { .. }, Tally::ChunksSent) => 1,
            (Recording::ChunkTx { size }, Tally::BytesUp) => size as nat,
            (Recording::ChunkRx { .. }, Tally::ChunksReceived) => 1,
            (Recording::ChunkRx { size }, Tally::BytesDown) => size as nat,
            (Recording::BytesDown { bytes }, Tally::BytesDown) => bytes as nat,
            (Recording::BytesUp { bytes }, Tally::BytesUp) => bytes as nat,
            (Recording::PacketSent { .. }, Tally::PacketsSent) => 1,
            (Recording::PacketSent { link_id }, Tally::LinkPacketsSent(i)) if link_id == i && i < NUM_LINKS => 1,
            (Recording::PacketReceived, Tally::PacketsReceived) => 1,
            (Recording::PacketLost, Tally::PacketsLost) => 1,
            (Recording::PacketAcked { link_id }, Tally::LinkPacketsAcked(i)) if link_id == i && i < NUM_LINKS => 1,
            (Recording::ChunkSent, Tally::ChunksSent) => 1,
            (Recording::ChunkReceived, Tally::ChunksReceived) => 1,
            (Recording::ChunkReordered, Tally::ChunksReordered) => 1,
            (Recording::Gap, Tally::Gaps) => 1,
            (Recording::LinkBytesDown { link_id, bytes }, Tally::LinkBytesDown(i)) if link_id == i && i
                < NUM_LINKS => bytes as nat,
            (Recording::LinkBytesUp { link_id, bytes }, Tally::LinkBytesUp(i)) if link_id == i && i
                < NUM_LINKS => bytes as nat,
            _ => 0,
        }
    }
}

/// What recordings add to a count together.
pub open spec fn amount(recordings: Seq<Recording>, t: Tally) -> nat
    decreases recordings.len(),
{
    if recordings.len() == 0 {
        0
    } else {
        amount(recordings.drop_last(), t) + recordings.last().adds(t)
    }
}

/// A call on a collector.
pub enum CollectorCall {
    Record(Recording),
    Snapshot { now_ns: u64, timestamp: i64, cpu: Binary64, memory: u64 },
}

impl MetricsCollector {
    /// Whether a call leads from this collector to another one.
    pub open spec fn steps_to(self, call: CollectorCall, after: MetricsCollector) -> bool {
        &&& after.max_history == self.max_history
        &&& match call {
            CollectorCall::Record(recording) => {
                &&& self.counters@.has_room_for(recording)
                &&& after.counters@ == self.counters@.with(recording)
                &&& after.kept() == self.kept()
            },
            CollectorCall::Snapshot { now_ns, timestamp, cpu, memory } => {
                &&& after.counters@ == CountersView::fresh(now_ns)
                &&& after.kept() == remembered(
                    self.kept(),
                    self.max_history as nat,
                    self.counters@.metrics(now_ns, timestamp, cpu, memory),
                )
            },
        }
    }
}

/// Whether the calls lead from each collector to the next.
pub open spec fn collector_run(states: Seq<MetricsCollector>, calls: Seq<CollectorCall>) -> bool {
    &&& states.len() == calls.len() + 1
    &&& forall|k: int| #![trigger calls[k]] 0 <= k < calls.len() ==> states[k].steps_to(calls[k], states[k + 1])
}

/// What the first `k` calls recorded since the last snapshot among them.
pub open spec fn recorded_since(calls: Seq<CollectorCall>, k: nat) -> Seq<Recording>
    decreases k,
{
    if k == 0 {
        Seq::empty()
    } else {
        match calls[k - 1] {
            CollectorCall::Record(recording) => recorded_since(calls, (k - 1) as nat).push(recording),
            CollectorCall::Snapshot { .. } => Seq::empty(),
        }
    }
}

/// The snapshots that the first `k` calls gave, in order.
pub open spec fn snapshots(states: Seq<MetricsCollector>, calls: Seq<CollectorCall>, k: nat) -> Seq<MetricsView>
    decreases k,
{
    if k == 0 {
        Seq::empty()
    } else {
        let before = snapshots(states, calls, (k - 1) as nat);
        match calls[k - 1] {
            CollectorCall::Record(_) => before,
            CollectorCall::Snapshot { now_ns, timestamp, cpu, memory } => before.push(
                states[k - 1].counters@.metrics(now_ns, timestamp, cpu, memory),
            ),
        }
    }
}

proof fn lemma_recording_adds(c: CountersView, recording: Recording, t: Tally)
    requires
        c.covers_links(),
        c.has_room_for(recording),
    ensures
        c.with(recording).tally(t) == c.tally(t) + recording.adds(t),
        c.with(recording).covers_links(),
{
    assert(c.tally(t) + recording.adds(t) <= u64::MAX);
}

/// At every point of a run each count is what was recorded of it since the
/// last snapshot, or since the collector was made.
pub proof fn law_counts_are_of_the_window(
    states: Seq<MetricsCollector>,
    calls: Seq<CollectorCall>,
    start_ns: u64,
    k: nat,
    t: Tally,
)
    requires
        states.len() > 0,
        states[0].counters@ == CountersView::fresh(start_ns),
        collector_run(states, calls),
        k <= calls.len(),
    ensures
        states[k as int].counters@.covers_links(),
        states[k as int].counters@.tally(t) == amount(recorded_since(calls, k), t),
    decreases k,
{
    if k > 0 {
        let p = (k - 1) as nat;
        law_counts_are_of_the_window(states, calls, start_ns, p, t);
        let call = calls[p as int];
        assert(states[p as int].steps_to(call, states[k as int]));
        match call {
            CollectorCall::Record(recording) => {
                lemma_recording_adds(states[p as int].counters@, recording, t);
                let before = recorded_since(calls, p);
                assert(before.push(recording).drop_last() =~= before);
            },
            CollectorCall::Snapshot { .. } => {},
        }
    }
}

/// A snapshot shows what was recorded since the one before, or since the
/// collector was made; one taken right after it shows nothing.
pub proof fn law_snapshot_shows_its_window(
    states: Seq<MetricsCollector>,
    calls: Seq<CollectorCall>,
    start_ns: u64,
    k: nat,
    i: int,
)
    requires
        states.len() > 0,
        states[0].counters@ == CountersView::fresh(start_ns),
        collector_run(states, calls),
        k < calls.len(),
        calls[k as int] is Snapshot,
        0 <= i < NUM_LINKS,
    ensures
        ({
            let m = snapshots(states, calls, k + 1).last();
            let recorded = recorded_since(calls, k);
            &&& m.bytes_received == amount(recorded, Tally::BytesDown)
            &&& m.bytes_sent == amount(recorded, Tally::BytesUp)
            &&& m.packets_sent == amount(recorded, Tally::PacketsSent)
            &&& m.packets_received == amount(recorded, Tally::PacketsReceived)
            &&& m.packets_lost == amount(recorded, Tally::PacketsLost)
            &&& m.chunks_sent == amount(recorded, Tally::ChunksSent)
            &&& m.chunks_received == amount(recorded, Tally::ChunksReceived)
            &&& m.chunks_reordered == amount(recorded, Tally::ChunksReordered)
            &&& m.gaps_detected == amount(recorded, Tally::Gaps)
            &&& m.links[i].packets_sent == amount(recorded, Tally::LinkPacketsSent(i))
            &&& m.links[i].packets_acked == amount(recorded, Tally::LinkPacketsAcked(i))
            &&& m.links[i].throughput_down == states[k as int].counters@.per_second(
                amount(recorded, Tally::LinkBytesDown(i)) as u64,
                calls[k as int]->now_ns,
            )
            &&& m.links[i].throughput_up == states[k as int].counters@.per_second(
                amount(recorded, Tally::LinkBytesUp(i)) as u64,
                calls[k as int]->now_ns,
            )
        }),
        recorded_since(calls, k + 1).len() == 0,
{
    law_counts_are_of_the_window(states, calls, start_ns, k, Tally::BytesDown);
    law_counts_are_of_the_window(states, calls, start_ns, k, Tally::BytesUp);
    law_counts_are_of_the_window(states, calls, start_ns, k, Tally::PacketsSent);
    law_counts_are_of_the_window(states, calls, start_ns, k, Tally::PacketsReceived);
    law_counts_are_of_the_window(states, calls, start_ns, k, Tally::PacketsLost);
    law_counts_are_of_the_window(states, calls, start_ns, k, Tally::ChunksSent);
    law_counts_are_of_the_window(states, calls, start_ns, k, Tally::ChunksReceived);
    law_counts_are_of_the_window(states, calls, start_ns, k, Tally::ChunksReordered);
    law_counts_are_of_the_window(states, calls, start_ns, k, Tally::Gaps);
    law_counts_are_of_the_window(states, calls, start_ns, k, Tally::LinkPacketsSent(i));
    law_counts_are_of_the_window(states, calls, start_ns, k, Tally::LinkPacketsAcked(i));
    law_counts_are_of_the_window(states, calls, start_ns, k, Tally::LinkBytesDown(i));
    law_counts_are_of_the_window(states, calls, start_ns, k, Tally::LinkBytesUp(i));
}

/// The history holds the latest snapshots, oldest first: all of them while
/// they fit, and as many as configured from then on.
pub proof fn law_history_is_the_latest(states: Seq<MetricsCollector>, calls: Seq<CollectorCall>, k: nat)
    requires
        states.len() > 0,
        states[0].kept().len() == 0,
        states[0].max_history >= 1,
        collector_run(states, calls),
        k <= calls.len(),
    ensures
        states[k as int].max_history == states[0].max_history,
        states[k as int].kept() == snapshots(states, calls, k).skip(
            monus(snapshots(states, calls, k).len(), states[0].max_history as nat) as int,
        ),
        states[k as int].kept().len() <= states[0].max_history,
        k > 0 && calls[k - 1] is Snapshot ==> states[k as int].kept().last() == snapshots(states, calls, k).last(),
    decreases k,
{
    let h = states[0].max_history as nat;
    let all = snapshots(states, calls, k);
    if k == 0 {
        assert(states[0].kept() =~= all.skip(0));
    } else {
        let p = (k - 1) as nat;
        law_history_is_the_latest(states, calls, p);
        let before = snapshots(states, calls, p);
        assert(states[p as int].steps_to(calls[p as int], states[k as int]));
        match calls[p as int] {
            CollectorCall::Record(_) => {
                assert(all == before);
            },
            CollectorCall::Snapshot { now_ns, timestamp, cpu, memory } => {
                let m = states[p as int].counters@.metrics(now_ns, timestamp, cpu, memory);
                assert(all == before.push(m));
                assert(states[k as int].kept() =~= all.skip(monus(all.len(), h) as int));
            },
        }
    }
}

/// A window without traffic counts nothing, and has no latency and no active
/// link.
pub proof fn law_idle_window_is_empty(now_ns: u64, later_ns: u64, timestamp: i64, cpu: Binary64, memory: u64)
    ensures
        ({
            let m = CountersView::fresh(now_ns).metrics(later_ns, timestamp, cpu, memory);
            &&& m.bytes_sent == 0
            &&& m.bytes_received == 0
            &&& m.packets_sent == 0
            &&& m.latency_avg_ms == Binary64::of_nat(0)
            &&& m.latency_p50_us == 0
            &&& m.latency_p99_us == 0
            &&& forall|i: int| 0 <= i < NUM_LINKS ==> !(#[trigger] m.links[i]).is_active
        }),
{
}

// ---------------------------------------------------------------------------
// What a snapshot says in numbers
// ---------------------------------------------------------------------------

proof fn lemma_window(c: CountersView, now_ns: u64, w: nat)
    requires
        0 < w,
        now_ns - c.window_start == w * 1_000_000_000,
    ensures
        c.window_secs(now_ns) == Binary64::of_nat(w),
{
    lemma_whole_seconds(w);
    lemma_whole_fraction(w);
    lemma_fraction_order(1, 1000, w, 1);
    reveal(Binary64::less);
    reveal(Binary64::at_most);
}

/// Throughput is bytes per second of the window, down and up, of the whole and
/// of each link.  (Windows of whole seconds.)
pub proof fn law_throughput_is_bytes_per_second(
    c: CountersView,
    now_ns: u64,
    timestamp: i64,
    cpu: Binary64,
    memory: u64,
    w: nat,
    i: int,
)
    requires
        0 < w,
        now_ns - c.window_start == w * 1_000_000_000,
        0 <= i < NUM_LINKS,
    ensures
        ({
            let m = c.metrics(now_ns, timestamp, cpu, memory);
            &&& m.throughput_down == Binary64::fraction(c.bytes_down as nat, w)
            &&& m.throughput_up == Binary64::fraction(c.bytes_up as nat, w)
            &&& m.throughput_down_mbps == mbps(m.throughput_down)
            &&& m.throughput_up_mbps == mbps(m.throughput_up)
            &&& m.links[i].throughput_down == Binary64::fraction(c.link_bytes_down[i] as nat, w)
            &&& m.links[i].throughput_up == Binary64::fraction(c.link_bytes_up[i] as nat, w)
            &&& m.links[i].bandwidth_estimate == Binary64::fraction(c.link_bytes_up[i] as nat, w)
            &&& m.links[i].link_id == i
            &&& m.timestamp == timestamp && m.cpu_usage_percent == cpu && m.memory_usage_bytes == memory
            &&& m.active_flows == c.active_flows && m.single_link_flows == c.single_link_flows && m.multi_link_flows
                == c.multi_link_flows
        }),
{
    lemma_window(c, now_ns, w);
}

/// A window shorter than a millisecond counts as one.
pub proof fn law_short_window_is_a_millisecond(c: CountersView, now_ns: u64)
    requires
        now_ns < c.window_start + 1_000_000,
    ensures
        c.metrics(now_ns, 0, Binary64::of_nat(0), 0).throughput_down == Binary64::of_nat(c.bytes_down as nat).quotient(
            Binary64::fraction(1, 1000),
        ),
{
    let ns = monus(now_ns as nat, c.window_start as nat);
    crate::measure::law_seconds(ns);
    lemma_fraction_order(ns, 1_000_000_000, 1, 1000);
    reveal(Binary64::less);
    reveal(Binary64::at_most);
    lemma_fraction(ns, 1_000_000_000);
    lemma_fraction(1, 1000);
    let a = Binary64::fraction(ns, 1_000_000_000);
    let b = Binary64::fraction(1, 1000);
    if !a.less(b) {
        lemma_same_units(a.mag(), b.mag());
    }
}

/// Ratios are parts of what was sent or received; where nothing was, the part
/// stands alone.
pub proof fn law_ratios_are_parts(c: CountersView, now_ns: u64, timestamp: i64, cpu: Binary64, memory: u64)
    ensures
        ({
            let m = c.metrics(now_ns, timestamp, cpu, memory);
            let of = |n: u64|
                if n == 0 {
                    1nat
                } else {
                    n as nat
                };
            &&& m.loss_ratio == Binary64::fraction(c.packets_lost as nat, of(c.packets_sent))
            &&& m.reorder_ratio == Binary64::fraction(c.chunks_reordered as nat, of(c.chunks_received))
            &&& m.gap_ratio == Binary64::fraction(c.gaps_detected as nat, of(c.chunks_received))
        }),
{
}

/// A link loses what was not acknowledged of what it sent: everything where
/// nothing was, nothing where all was, and never more where more was.
pub proof fn law_link_loss_is_what_was_not_acknowledged(c: CountersView, d: CountersView, now_ns: u64, i: int)
    requires
        0 <= i < NUM_LINKS,
        0 < c.link_packets_sent[i] < 0x20_0000_0000_0000,
        c.link_packets_acked[i] < 0x20_0000_0000_0000,
        d.link_packets_sent[i] == c.link_packets_sent[i],
        c.link_packets_acked[i] <= d.link_packets_acked[i] < 0x20_0000_0000_0000,
    ensures
        ({
            let loss = c.link_metrics(i, now_ns).loss_ratio;
            &&& c.link_packets_acked[i] == 0 ==> loss == Binary64::of_nat(1)
            &&& c.link_packets_acked[i] >= c.link_packets_sent[i] ==> loss == Binary64::of_nat(0)
            &&& c.link_packets_acked[i] <= c.link_packets_sent[i] ==> loss == Binary64::of_nat(1).difference(
                Binary64::fraction(c.link_packets_acked[i] as nat, c.link_packets_sent[i] as nat),
            )
            &&& d.link_metrics(i, now_ns).loss_ratio.at_most(loss)
            &&& c.link_metrics(i, now_ns).is_active
        }),
{
    lemma_link_loss(c, i, now_ns);
    lemma_link_loss(d, i, now_ns);
    let n = c.link_packets_sent[i] as nat;
    let a = c.link_packets_acked[i] as nat;
    let b = d.link_packets_acked[i] as nat;
    let one = Binary64::of_nat(1);
    lemma_of_nat(1);
    lemma_fraction(a, n);
    lemma_fraction(b, n);
    assert(a * n <= b * n) by (nonlinear_arith)
        requires
            a <= b,
    ;
    lemma_fraction_order(a, n, b, n);
    lemma_difference_order(Binary64::fraction(a, n), Binary64::fraction(b, n), one);
    reveal(Binary64::less);
    reveal(Binary64::at_most);
}

proof fn lemma_link_loss(c: CountersView, i: int, now_ns: u64)
    requires
        0 <= i < NUM_LINKS,
        0 < c.link_packets_sent[i] < 0x20_0000_0000_0000,
        c.link_packets_acked[i] < 0x20_0000_0000_0000,
    ensures
        ({
            let n = c.link_packets_sent[i] as nat;
            let a = c.link_packets_acked[i] as nat;
            let rest = Binary64::of_nat(1).difference(Binary64::fraction(a, n));
            let loss = c.link_metrics(i, now_ns).loss_ratio;
            &&& a == 0 ==> loss == Binary64::of_nat(1)
            &&& a >= n ==> loss == Binary64::of_nat(0)
            &&& a <= n ==> loss == rest
            &&& loss == rest.greater(Binary64::of_nat(0))
        }),
{
    let n = c.link_packets_sent[i] as nat;
    let a = c.link_packets_acked[i] as nat;
    let one = Binary64::of_nat(1);
    let zero = Binary64::of_nat(0);
    let x = Binary64::fraction(a, n);
    let rest = one.difference(x);
    lemma_of_nat(1);
    lemma_of_nat(0);
    lemma_zero();
    lemma_rounded_zero(1);
    lemma_whole_fraction(1);
    lemma_whole_fraction(0);
    lemma_fraction(a, n);
    lemma_plus_zero(one);
    reveal(Binary64::less);
    reveal(Binary64::at_most);
    if a == 0 {
        lemma_same_fraction(0, n, 0, 1);
    }
    if a <= n {
        lemma_fraction_order(a, n, 1, 1);
        lemma_nonnegative_difference(x, one);
    }
    if a >= n {
        lemma_fraction_order(1, 1, a, n);
        lemma_difference_order(one, x, one);
        lemma_minus_self(one);
        crate::accuracy::lemma_difference_sign(one, x);
        if a == n {
            lemma_same_fraction(n, n, 1, 1);
        } else if !rest.less(zero) {
            assert(rest.signed_units() == 0);
            assert(!one.less(x));
            lemma_same_units(one.mag(), x.mag());
        }
    }
}

/// Latencies are the least, the greatest and the percentiles of the samples
/// put in order, in milliseconds: the 50th is the middle one, the lower of two,
/// and no more than 95 and 99 of a hundred parts come before the others.
pub proof fn law_latencies_by_rank(
    c: CountersView,
    now_ns: u64,
    timestamp: i64,
    cpu: Binary64,
    memory: u64,
    ranked: Seq<u64>,
)
    requires
        0 < c.latency_samples.len() < 0x100_0000_0000,
        c.latency_samples.len() <= usize::MAX,
        ranked.to_multiset() == c.latency_samples.to_multiset(),
        forall|p: int, q: int| 0 <= p < q < ranked.len() ==> ranked[p] <= ranked[q],
    ensures
        ({
            let m = c.metrics(now_ns, timestamp, cpu, memory);
            let n = ranked.len();
            let last = (n - 1) as nat;
            &&& n == c.latency_samples.len()
            &&& m.latency_min_ms == millis(ranked[0] as nat)
            &&& m.latency_max_ms == millis(ranked[n - 1] as nat)
            &&& m.latency_p50_ms == millis(ranked[(n - 1) / 2] as nat)
            &&& m.latency_p50_us == ranked[(n / 2) as int]
            &&& exists|k: nat|
                k < n && 100 * k <= 95 * last <= 100 * (k + 1) && m.latency_p95_ms == millis(
                    #[trigger] ranked[k as int] as nat,
                )
            &&& exists|k: nat|
                k < n && 100 * k <= 99 * last <= 100 * (k + 1) && m.latency_p99_ms == millis(
                    #[trigger] ranked[k as int] as nat,
                )
            &&& exists|k: nat|
                k < n && 100 * k <= 99 * n <= 100 * (k + 1) && m.latency_p99_us == #[trigger] ranked[k as int]
        }),
{
    let samples = c.latency_samples;
    lemma_ranked(samples, ranked);
    let n = samples.len();
    let last = (n - 1) as nat;
    vstd::arithmetic::power2::lemma2_to64();
    lemma_same_fraction(50, 100, 1, 2);
    lemma_dyadic_part(last, 1, 1);
    assert(rank(n, 50) == last / 2);
    lemma_part_is_close(last, 95, 100);
    lemma_part_is_close(last, 99, 100);
    lemma_part_is_close(n, 99, 100);
    lemma_part_of_integer(last, 95);
    lemma_part_of_integer(last, 99);
    let a = rank(n, 95);
    let b = rank(n, 99);
    let d = Binary64::of_nat(n).product(Binary64::fraction(99, 100)).truncated();
    assert(100 * d <= 99 * n);
    assert(ranked[a as int] == sorted(samples)[a as int]);
    assert(ranked[b as int] == sorted(samples)[b as int]);
    assert(ranked[d as int] == sorted(samples)[d as int]);
}

proof fn lemma_ranked(samples: Seq<u64>, ranked: Seq<u64>)
    requires
        samples.len() <= usize::MAX,
        ranked.to_multiset() == samples.to_multiset(),
        forall|p: int, q: int| 0 <= p < q < ranked.len() ==> ranked[p] <= ranked[q],
    ensures
        ranked == sorted(samples),
        ranked.len() == samples.len(),
{
    broadcast use vstd::seq_lib::group_to_multiset_ensures;

    let n = samples.len();
    law_order_keeps_keys(samples, n);
    law_order_is_stable(samples, n);
    assert(samples.take(n as int) =~= samples);
    let order = order_of(samples, n);
    assert(sorted(samples) =~= order.map_values(|k: usize| samples[k as int]));
    assert forall|p: int, q: int| 0 <= p < q < n implies sorted(samples)[p] <= sorted(samples)[q] by {
        assert(samples[order[p] as int] <= samples[order[q] as int]);
    }
    vstd::seq_lib::lemma_sorted_unique(ranked, sorted(samples), |a: u64, b: u64| a <= b);
}

/// The average latency of samples of whole milliseconds is their sum over
/// their number; `ms` are the samples, in order.
pub proof fn law_average_latency(
    c: CountersView,
    now_ns: u64,
    timestamp: i64,
    cpu: Binary64,
    memory: u64,
    ms: Seq<u64>,
)
    requires
        0 < ms.len() < 0x100_0000_0000,
        ms.len() <= usize::MAX,
        total(ms) < 0x20_0000_0000_0000,
        forall|p: int, q: int| 0 <= p < q < ms.len() ==> ms[p] <= ms[q],
        forall|p: int| 0 <= p < ms.len() ==> (#[trigger] ms[p]) * 1000 < 0x1000_0000_0000,
        ms.map_values(|v: u64| (v * 1000) as u64).to_multiset() == c.latency_samples.to_multiset(),
        c.latency_samples.len() <= usize::MAX,
    ensures
        c.metrics(now_ns, timestamp, cpu, memory).latency_avg_ms == Binary64::fraction(total(ms), ms.len()),
{
    let us = ms.map_values(|v: u64| (v * 1000) as u64);
    lemma_ranked(c.latency_samples, us);
    let floats = all_millis(us);
    assert forall|p: int| 0 <= p < ms.len() implies #[trigger] floats[p] == Binary64::of_nat(ms[p] as nat) by {
        law_milliseconds(us[p] as nat);
    }
    assert(floats =~= ms.map_values(|v: u64| Binary64::of_nat(v as nat)));
    law_mean_of_integers(ms);
}

/// The steps between consecutive samples, without their signs.
pub open spec fn gaps(samples: Seq<u64>) -> Seq<u64> {
    Seq::new(
        (samples.len() - 1) as nat,
        |i: int|
            if samples[i + 1] >= samples[i] {
                (samples[i + 1] - samples[i]) as u64
            } else {
                (samples[i] - samples[i + 1]) as u64
            },
    )
}

/// A link's jitter is the mean step from one sample to the next, up or down, in
/// milliseconds; without two samples there is none.
pub proof fn law_jitter_is_the_mean_step(c: CountersView, now_ns: u64, i: int)
    requires
        0 <= i < NUM_LINKS,
        c.link_rtt_samples[i].len() < 0x20_0000_0000_0000,
        c.link_rtt_samples[i].len() >= 2 ==> total(gaps(c.link_rtt_samples[i])) < 0x20_0000_0000_0000,
        forall|k: int| 0 <= k < c.link_rtt_samples[i].len() ==> #[trigger] c.link_rtt_samples[i][k] <= i64::MAX,
    ensures
        ({
            let samples = c.link_rtt_samples[i];
            let jitter_ms = c.link_metrics(i, now_ns).jitter_ms;
            &&& samples.len() < 2 ==> jitter_ms == Binary64::of_nat(0)
            &&& samples.len() >= 2 ==> jitter_ms == Binary64::fraction(
                total(gaps(samples)),
                (samples.len() - 1) as nat,
            ).quotient(Binary64::of_nat(1000))
        }),
{
    let samples = c.link_rtt_samples[i];
    if samples.len() >= 2 {
        let steps = gaps(samples);
        law_mean_of_integers(steps);
        assert(steps.map_values(|v: u64| Binary64::of_nat(v as nat)) =~= Seq::new(
            (samples.len() - 1) as nat,
            |i: int| Binary64::of_nat(step(samples, i + 1)),
        ));
    }
}

/// A link's round-trip times are the least and greatest of its samples.
pub proof fn law_link_times_by_rank(c: CountersView, now_ns: u64, i: int, ranked: Seq<u64>)
    requires
        0 <= i < NUM_LINKS,
        0 < c.link_rtt_samples[i].len() <= usize::MAX,
        ranked.to_multiset() == c.link_rtt_samples[i].to_multiset(),
        forall|p: int, q: int| 0 <= p < q < ranked.len() ==> ranked[p] <= ranked[q],
    ensures
        ({
            let m = c.link_metrics(i, now_ns);
            &&& ranked.len() == c.link_rtt_samples[i].len()
            &&& m.rtt_min_ms == millis(ranked[0] as nat)
            &&& m.rtt_max_ms == millis(ranked[ranked.len() - 1] as nat)
            &&& m.rtt_avg_ms == mean(ranked.map_values(|us: u64| millis(us as nat)))
        }),
{
    lemma_ranked(c.link_rtt_samples[i], ranked);
    assert(all_millis(ranked) =~= ranked.map_values(|us: u64| millis(us as nat)));
}

/// A summary's maxima are no less than any snapshot's, and are some snapshot's
/// or zero; it counts the snapshots.
pub proof fn law_summary_maxima(kept: Seq<MetricsView>, i: int)
    requires
        0 <= i < kept.len() <= usize::MAX,
    ensures
        ({
            let s = MetricsSummary::of_history(kept);
            let down = peak(kept.map_values(|m: MetricsView| m.throughput_down));
            let up = peak(kept.map_values(|m: MetricsView| m.throughput_up));
            &&& s.sample_count == kept.len()
            &&& s.max_throughput_down_mbps == mbps(down) && !down.less(kept[i].throughput_down)
            &&& s.max_throughput_up_mbps == mbps(up) && !up.less(kept[i].throughput_up)
            &&& !s.max_latency_ms.less(kept[i].latency_max_ms)
            &&& s.max_latency_ms == Binary64::of_nat(0) || exists|k: int|
                0 <= k < kept.len() && (#[trigger] kept[k]).latency_max_ms == s.max_latency_ms
        }),
{
    let down = kept.map_values(|m: MetricsView| m.throughput_down);
    let up = kept.map_values(|m: MetricsView| m.throughput_up);
    let latencies = kept.map_values(|m: MetricsView| m.latency_max_ms);
    law_peak_is_the_greatest(down, i);
    law_peak_is_the_greatest(up, i);
    law_peak_is_the_greatest(latencies, i);
    if latencies.contains(peak(latencies)) {
        let k = choose|k: int| 0 <= k < latencies.len() && latencies[k] == peak(latencies);
        assert(kept[k].latency_max_ms == peak(latencies));
    }
}

/// A summary averages the snapshots' figures, each counted once: here of
/// snapshots whose figures are integers.
pub proof fn law_summary_averages(kept: Seq<MetricsView>, down: Seq<u64>, up: Seq<u64>, latency: Seq<u64>)
    requires
        0 < kept.len() <= usize::MAX,
        kept.len() < 0x20_0000_0000_0000,
        down.len() == kept.len() && up.len() == kept.len() && latency.len() == kept.len(),
        total(down) < 0x20_0000_0000_0000 && total(up) < 0x20_0000_0000_0000 && total(latency) < 0x20_0000_0000_0000,
        forall|i: int|
            0 <= i < kept.len() ==> (#[trigger] kept[i]).throughput_down == Binary64::of_nat(down[i] as nat)
                && kept[i].throughput_up == Binary64::of_nat(up[i] as nat) && kept[i].latency_avg_ms == Binary64::of_nat(
                latency[i] as nat,
            ),
    ensures
        ({
            let s = MetricsSummary::of_history(kept);
            &&& s.avg_throughput_down_mbps == mbps(Binary64::fraction(total(down), kept.len()))
            &&& s.avg_throughput_up_mbps == mbps(Binary64::fraction(total(up), kept.len()))
            &&& s.avg_latency_ms == Binary64::fraction(total(latency), kept.len())
        }),
{
    law_mean_of_integers(down);
    law_mean_of_integers(up);
    law_mean_of_integers(latency);
    assert(kept.map_values(|m: MetricsView| m.throughput_down) =~= down.map_values(
        |v: u64| Binary64::of_nat(v as nat),
    ));
    assert(kept.map_values(|m: MetricsView| m.throughput_up) =~= up.map_values(|v: u64| Binary64::of_nat(v as nat)));
    assert(kept.map_values(|m: MetricsView| m.latency_avg_ms) =~= latency.map_values(
        |v: u64| Binary64::of_nat(v as nat),
    ));
}

/// Where every snapshot has the same loss, reorder ratio or CPU load, the
/// summary has it too: here of one snapshot.
pub proof fn law_summary_of_one(m: MetricsView)
    requires
        m.loss_ratio.finite() && m.reorder_ratio.finite() && m.cpu_usage_percent.finite(),
        !m.loss_ratio.negative() && !m.reorder_ratio.negative() && !m.cpu_usage_percent.negative(),
    ensures
        ({
            let s = MetricsSummary::of_history(seq![m]);
            &&& s.avg_loss_ratio == m.loss_ratio
            &&& s.avg_reorder_ratio == m.reorder_ratio
            &&& s.avg_cpu_percent == m.cpu_usage_percent
        }),
{
    let kept = seq![m];
    lemma_mean_of_one(kept.map_values(|m: MetricsView| m.loss_ratio));
    lemma_mean_of_one(kept.map_values(|m: MetricsView| m.reorder_ratio));
    lemma_mean_of_one(kept.map_values(|m: MetricsView| m.cpu_usage_percent));
}

proof fn lemma_mean_of_one(values: Seq<Binary64>)
    requires
        values.len() == 1,
        values[0].finite(),
        !values[0].negative(),
    ensures
        mean(values) == values[0],
{
    reveal_with_fuel(crate::measure::float_total, 2);
    lemma_plus_zero(values[0]);
    crate::accuracy::lemma_times_one(values[0]);
}

/// A latency and a link's round-trip time join the samples, as the last of
/// them, and flow counts replace the old ones; nothing else changes.
pub proof fn law_samples_are_recorded(c: CountersView, latency_us: u64, link_id: usize, rtt_us: u64, i: int)
    requires
        0 <= i < c.link_rtt_samples.len(),
    ensures
        ({
            let after = c.with(Recording::Latency { latency_us });
            after == (CountersView { latency_samples: c.latency_samples.push(latency_us), ..c })
        }),
        ({
            let after = c.with(Recording::LinkRtt { link_id, rtt_us });
            &&& after.link_rtt_samples.len() == c.link_rtt_samples.len()
            &&& i == link_id ==> after.link_rtt_samples[i] == c.link_rtt_samples[i].push(rtt_us)
            &&& i != link_id ==> after.link_rtt_samples[i] == c.link_rtt_samples[i]
            &&& after.latency_samples == c.latency_samples && after.bytes_down == c.bytes_down && after.packets_sent
                == c.packets_sent
        }),
{
}

} // verus!
