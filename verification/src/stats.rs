//! Statistics collector.
//!
//! Collects per-link statistics for bandwidth estimation, RTT measurement,
//! and health monitoring.

use crate::accuracy::{lemma_mean_is_close, lemma_whole_quotient, lemma_whole_seconds};
use crate::binary64::{lemma_fractions_apart, lemma_fraction_order, Binary64};
use crate::measure::{as_mbps, as_millis, as_seconds, mbps, millis, monus, seconds};
use crate::share::{sum, total};
use crate::text::{decimal, fixed_text, join, push_decimal, push_fixed, push_joined};
use crate::NUM_LINKS;
use std::collections::VecDeque;
use vstd::prelude::*;

verus! {

/// RTT samples kept per link.
pub const MAX_RTT_SAMPLES: usize = 100;

/// RTT above which a link is unhealthy (microseconds).
pub const UNHEALTHY_RTT_US: u64 = 500_000;

// ---------------------------------------------------------------------------
// Counters
// ---------------------------------------------------------------------------

/// Counters for the hot path (per-link senders and receivers).  They wrap
/// around.
#[derive(Debug)]
pub struct AtomicCounters {
    pub tx_bytes: Vec<u64>,
    pub tx_packets: Vec<u64>,
    pub rx_bytes: Vec<u64>,
    pub rx_packets: Vec<u64>,
}

/// The sum modulo 2^64.
pub open spec fn wrapped(a: u64, b: nat) -> u64 {
    ((a + b) % 0x1_0000_0000_0000_0000) as u64
}

/// Counters with one of them increased modulo 2^64; one that does not exist
/// changes nothing.
pub open spec fn added_to(counters: Seq<u64>, i: int, by: nat) -> Seq<u64> {
    if 0 <= i < counters.len() {
        counters.update(i, wrapped(counters[i], by))
    } else {
        counters
    }
}

fn zeros(n: usize) -> (r: Vec<u64>)
    ensures
        r@ == Seq::new(n as nat, |i: int| 0u64),
{
    let mut r: Vec<u64> = Vec::new();
    let mut i: usize = 0;
    while i < n
        invariant
            i <= n,
            r@ == Seq::new(i as nat, |i: int| 0u64),
        decreases n - i,
    {
        r.push(0);
        i = i + 1;
        assert(r@ =~= Seq::new(i as nat, |i: int| 0u64));
    }
    r
}

fn wrapping_sum(a: u64, b: u64) -> (r: u64)
    ensures
        r == wrapped(a, b as nat),
{
    a.wrapping_add(b)
}

impl AtomicCounters {
    /// All counters cover the same links.
    pub open spec fn wf(self) -> bool {
        &&& self.tx_packets@.len() == self.tx_bytes@.len()
        &&& self.rx_bytes@.len() == self.tx_bytes@.len()
        &&& self.rx_packets@.len() == self.tx_bytes@.len()
    }

    /// Number of links.
    pub open spec fn len(self) -> nat {
        self.tx_bytes@.len()
    }

    /// Counters at zero.
    pub fn new(num_links: usize) -> (r: AtomicCounters)
        ensures
            r.wf(),
            r.tx_bytes@ == Seq::new(num_links as nat, |i: int| 0u64),
            r.tx_packets@ == Seq::new(num_links as nat, |i: int| 0u64),
            r.rx_bytes@ == Seq::new(num_links as nat, |i: int| 0u64),
            r.rx_packets@ == Seq::new(num_links as nat, |i: int| 0u64),
    {
        AtomicCounters {
            tx_bytes: zeros(num_links),
            tx_packets: zeros(num_links),
            rx_bytes: zeros(num_links),
            rx_packets: zeros(num_links),
        }
    }

    /// Record TX.
    pub fn record_tx(&mut self, link_id: usize, bytes: usize)
        requires
            old(self).wf(),
        ensures
            final(self).wf(),
            final(self).tx_bytes@ == added_to(old(self).tx_bytes@, link_id as int, bytes as nat),
            final(self).tx_packets@ == added_to(old(self).tx_packets@, link_id as int, 1),
            final(self).rx_bytes == old(self).rx_bytes,
            final(self).rx_packets == old(self).rx_packets,
    {
        if link_id < self.tx_bytes.len() {
            let sum_bytes: u64 = wrapping_sum(self.tx_bytes[link_id], bytes as u64);
            let sum_packets: u64 = wrapping_sum(self.tx_packets[link_id], 1);
            self.tx_bytes.set(link_id, sum_bytes);
            self.tx_packets.set(link_id, sum_packets);
        }
    }

    /// Record RX.
    pub fn record_rx(&mut self, link_id: usize, bytes: usize)
        requires
            old(self).wf(),
        ensures
            final(self).wf(),
            final(self).rx_bytes@ == added_to(old(self).rx_bytes@, link_id as int, bytes as nat),
            final(self).rx_packets@ == added_to(old(self).rx_packets@, link_id as int, 1),
            final(self).tx_bytes == old(self).tx_bytes,
            final(self).tx_packets == old(self).tx_packets,
    {
        if link_id < self.rx_bytes.len() {
            let sum_bytes: u64 = wrapping_sum(self.rx_bytes[link_id], bytes as u64);
            let sum_packets: u64 = wrapping_sum(self.rx_packets[link_id], 1);
            self.rx_bytes.set(link_id, sum_bytes);
            self.rx_packets.set(link_id, sum_packets);
        }
    }

    /// Drain accumulated TX counters for a link.
    pub fn drain_tx(&mut self, link_id: usize) -> (r: (u64, u64))
        requires
            old(self).wf(),
            link_id < old(self).len(),
        ensures
            final(self).wf(),
            r == (old(self).tx_bytes@[link_id as int], old(self).tx_packets@[link_id as int]),
            final(self).tx_bytes@ == old(self).tx_bytes@.update(link_id as int, 0),
            final(self).tx_packets@ == old(self).tx_packets@.update(link_id as int, 0),
            final(self).rx_bytes == old(self).rx_bytes,
            final(self).rx_packets == old(self).rx_packets,
    {
        let bytes: u64 = self.tx_bytes[link_id];
        let packets: u64 = self.tx_packets[link_id];
        self.tx_bytes.set(link_id, 0);
        self.tx_packets.set(link_id, 0);
        (bytes, packets)
    }

    /// Drain accumulated RX counters for a link.
    pub fn drain_rx(&mut self, link_id: usize) -> (r: (u64, u64))
        requires
            old(self).wf(),
            link_id < old(self).len(),
        ensures
            final(self).wf(),
            r == (old(self).rx_bytes@[link_id as int], old(self).rx_packets@[link_id as int]),
            final(self).rx_bytes@ == old(self).rx_bytes@.update(link_id as int, 0),
            final(self).rx_packets@ == old(self).rx_packets@.update(link_id as int, 0),
            final(self).tx_bytes == old(self).tx_bytes,
            final(self).tx_packets == old(self).tx_packets,
    {
        let bytes: u64 = self.rx_bytes[link_id];
        let packets: u64 = self.rx_packets[link_id];
        self.rx_bytes.set(link_id, 0);
        self.rx_packets.set(link_id, 0);
        (bytes, packets)
    }
}

// ---------------------------------------------------------------------------
// One link
// ---------------------------------------------------------------------------

/// Per-link statistics.
#[derive(Debug, Clone)]
pub struct LinkStats {
    pub id: usize,
    /// TX bytes in current window
    pub tx_bytes: u64,
    /// TX packets in current window
    pub tx_packets: u64,
    /// RX bytes in current window
    pub rx_bytes: u64,
    /// RX packets in current window
    pub rx_packets: u64,
    /// RTT samples (microseconds)
    pub rtt_samples: VecDeque<u64>,
    /// Smoothed RTT (EWMA, microseconds)
    pub smoothed_rtt_us: u64,
    /// Estimated bandwidth (bytes/sec)
    pub bandwidth_bps: u64,
    /// Packet loss ratio (0.0 - 1.0)
    pub loss_ratio: Binary64,
    /// Link health state
    pub healthy: bool,
    /// Pending bytes awaiting ACK
    pub pending_bytes: u64,
    /// Last activity (nanoseconds)
    pub last_activity: u64,
    /// Window start (nanoseconds)
    pub window_start: u64,
}

/// What a [`LinkStats`] holds.
#[verifier::ext_equal]
pub struct LinkStatsView {
    pub id: usize,
    pub tx_bytes: u64,
    pub tx_packets: u64,
    pub rx_bytes: u64,
    pub rx_packets: u64,
    pub rtt_samples: Seq<u64>,
    pub smoothed_rtt_us: u64,
    pub bandwidth_bps: u64,
    pub loss_ratio: Binary64,
    pub healthy: bool,
    pub pending_bytes: u64,
    pub last_activity: u64,
    pub window_start: u64,
}

impl View for LinkStats {
    type V = LinkStatsView;

    open spec fn view(&self) -> LinkStatsView {
        LinkStatsView {
            id: self.id,
            tx_bytes: self.tx_bytes,
            tx_packets: self.tx_packets,
            rx_bytes: self.rx_bytes,
            rx_packets: self.rx_packets,
            rtt_samples: self.rtt_samples@,
            smoothed_rtt_us: self.smoothed_rtt_us,
            bandwidth_bps: self.bandwidth_bps,
            loss_ratio: self.loss_ratio,
            healthy: self.healthy,
            pending_bytes: self.pending_bytes,
            last_activity: self.last_activity,
            window_start: self.window_start,
        }
    }
}

/// A moving average with weight `alpha` on the sample.
pub open spec fn smoothed(alpha: Binary64, old: u64, sample: u64) -> u64 {
    Binary64::of_nat(1).difference(alpha).product(Binary64::of_nat(old as nat)).sum(
        alpha.product(Binary64::of_nat(sample as nat)),
    ).truncated() as u64
}

impl LinkStatsView {
    /// A link that nothing was sent or received on.
    pub open spec fn fresh(id: usize, now_ns: u64) -> LinkStatsView {
        LinkStatsView {
            id,
            tx_bytes: 0,
            tx_packets: 0,
            rx_bytes: 0,
            rx_packets: 0,
            rtt_samples: Seq::empty(),
            smoothed_rtt_us: 0,
            bandwidth_bps: 0,
            loss_ratio: Binary64::of_nat(0),
            healthy: true,
            pending_bytes: 0,
            last_activity: now_ns,
            window_start: now_ns,
        }
    }

    /// Bytes and packets sent and received, the sent ones pending.
    pub open spec fn counted(self, tx: (nat, nat), rx: (nat, nat)) -> LinkStatsView {
        LinkStatsView {
            tx_bytes: (self.tx_bytes + tx.0) as u64,
            tx_packets: (self.tx_packets + tx.1) as u64,
            pending_bytes: (self.pending_bytes + tx.0) as u64,
            rx_bytes: (self.rx_bytes + rx.0) as u64,
            rx_packets: (self.rx_packets + rx.1) as u64,
            ..self
        }
    }

    /// Whether counting stays within the machine's integers.
    pub open spec fn can_count(self, tx: (nat, nat), rx: (nat, nat)) -> bool {
        &&& self.tx_bytes + tx.0 <= u64::MAX
        &&& self.tx_packets + tx.1 <= u64::MAX
        &&& self.pending_bytes + tx.0 <= u64::MAX
        &&& self.rx_bytes + rx.0 <= u64::MAX
        &&& self.rx_packets + rx.1 <= u64::MAX
    }

    /// Active at an instant.
    pub open spec fn active_at(self, now_ns: u64) -> LinkStatsView {
        LinkStatsView { last_activity: now_ns, ..self }
    }

    /// One RTT sample more; the oldest goes where there are too many.
    pub open spec fn with_rtt(self, rtt_us: u64, alpha: Binary64) -> LinkStatsView {
        let all = self.rtt_samples.push(rtt_us);
        LinkStatsView {
            rtt_samples: if all.len() > MAX_RTT_SAMPLES {
                all.skip(1)
            } else {
                all
            },
            smoothed_rtt_us: if self.smoothed_rtt_us == 0 {
                rtt_us
            } else {
                smoothed(alpha, self.smoothed_rtt_us, rtt_us)
            },
            ..self
        }
    }

    /// Bandwidth estimated anew once the window is over, from what was sent
    /// in it.
    pub open spec fn windowed(self, window_ns: nat, now_ns: u64) -> LinkStatsView {
        let elapsed = monus(now_ns as nat, self.window_start as nat);
        if elapsed >= window_ns {
            LinkStatsView {
                bandwidth_bps: if elapsed > 0 {
                    Binary64::of_nat(self.tx_bytes as nat).quotient(seconds(elapsed)).truncated() as u64
                } else {
                    self.bandwidth_bps
                },
                tx_bytes: 0,
                tx_packets: 0,
                rx_bytes: 0,
                rx_packets: 0,
                window_start: now_ns,
                ..self
            }
        } else {
            self
        }
    }

    /// Healthy unless half of the packets are lost or the RTT is above half a
    /// second.
    pub open spec fn examined(self) -> LinkStatsView {
        LinkStatsView {
            healthy: !Binary64::fraction(5, 10).less(self.loss_ratio) && self.smoothed_rtt_us <= UNHEALTHY_RTT_US,
            ..self
        }
    }

    /// The link in one word: Mbps, RTT in ms and health.
    pub open spec fn summary_text(self) -> Seq<char> {
        "L"@ + decimal(self.id as nat) + "["@ + fixed_text(mbps(Binary64::of_nat(self.bandwidth_bps as nat)), 1)
            + "Mbps/"@ + fixed_text(millis(self.smoothed_rtt_us as nat), 1) + "ms/"@ + (if self.healthy {
            "OK"@
        } else {
            "DOWN"@
        }) + "]"@
    }
}

impl LinkStats {
    /// A link that nothing was sent or received on.
    pub fn new(id: usize, now_ns: u64) -> (r: LinkStats)
        ensures
            r@ == LinkStatsView::fresh(id, now_ns),
    {
        let r: LinkStats = LinkStats {
            id,
            tx_bytes: 0,
            tx_packets: 0,
            rx_bytes: 0,
            rx_packets: 0,
            rtt_samples: VecDeque::with_capacity(MAX_RTT_SAMPLES),
            smoothed_rtt_us: 0,
            bandwidth_bps: 0,
            loss_ratio: Binary64::from_u64(0),
            healthy: true,
            pending_bytes: 0,
            last_activity: now_ns,
            window_start: now_ns,
        };
        assert(r@ =~= LinkStatsView::fresh(id, now_ns));
        r
    }

    /// Record transmitted bytes.
    pub fn record_tx(&mut self, bytes: usize, now_ns: u64)
        requires
            old(self)@.can_count((bytes as nat, 1), (0, 0)),
        ensures
            final(self)@ == old(self)@.counted((bytes as nat, 1), (0, 0)).active_at(now_ns),
    {
        self.tx_bytes = self.tx_bytes + bytes as u64;
        self.tx_packets = self.tx_packets + 1;
        self.pending_bytes = self.pending_bytes + bytes as u64;
        self.last_activity = now_ns;
    }

    /// Record received bytes.
    pub fn record_rx(&mut self, bytes: usize, now_ns: u64)
        requires
            old(self)@.can_count((0, 0), (bytes as nat, 1)),
        ensures
            final(self)@ == old(self)@.counted((0, 0), (bytes as nat, 1)).active_at(now_ns),
    {
        self.rx_bytes = self.rx_bytes + bytes as u64;
        self.rx_packets = self.rx_packets + 1;
        self.last_activity = now_ns;
    }

    /// Record RTT sample.
    pub fn record_rtt(&mut self, rtt_us: u64, alpha: Binary64)
        ensures
            final(self)@ == old(self)@.with_rtt(rtt_us, alpha),
    {
        let ghost all = self.rtt_samples@.push(rtt_us);
        self.rtt_samples.push_back(rtt_us);
        if self.rtt_samples.len() > MAX_RTT_SAMPLES {
            self.rtt_samples.pop_front();
            assert(self.rtt_samples@ =~= all.skip(1));
        }
        if self.smoothed_rtt_us == 0 {
            self.smoothed_rtt_us = rtt_us;
        } else {
            let rest: Binary64 = Binary64::from_u64(1).minus(alpha);
            self.smoothed_rtt_us = rest.times(Binary64::from_u64(self.smoothed_rtt_us)).plus(
                alpha.times(Binary64::from_u64(rtt_us)),
            ).to_u64();
        }
        assert(self@ =~= old(self)@.with_rtt(rtt_us, alpha));
    }

    /// Record ACK (for pending bytes tracking).
    pub fn record_ack(&mut self, bytes: u64)
        ensures
            final(self)@ == (LinkStatsView {
                pending_bytes: monus(old(self).pending_bytes as nat, bytes as nat) as u64,
                ..old(self)@
            }),
    {
        self.pending_bytes = self.pending_bytes.saturating_sub(bytes);
    }

    /// Update bandwidth estimate.
    pub fn update_bandwidth(&mut self, window_ns: u128, now_ns: u64)
        ensures
            final(self)@ == old(self)@.windowed(window_ns as nat, now_ns),
    {
        let elapsed: u64 = now_ns.saturating_sub(self.window_start);
        if elapsed as u128 >= window_ns {
            if elapsed > 0 {
                self.bandwidth_bps = Binary64::from_u64(self.tx_bytes).over(as_seconds(elapsed as u128)).to_u64();
            }
            self.tx_bytes = 0;
            self.tx_packets = 0;
            self.rx_bytes = 0;
            self.rx_packets = 0;
            self.window_start = now_ns;
        }
    }

    /// Update health status.  Inactivity is no evidence of a problem.
    pub fn update_health(&mut self, _timeout_ns: u64)
        ensures
            final(self)@ == old(self)@.examined(),
    {
        let high_loss: bool = Binary64::ratio(5, 10).lt(self.loss_ratio);
        let very_high_rtt: bool = self.smoothed_rtt_us > UNHEALTHY_RTT_US;
        self.healthy = !high_loss && !very_high_rtt;
    }

    /// Current bandwidth in Mbps.
    pub fn bandwidth_mbps(&self) -> (r: Binary64)
        ensures
            r == mbps(Binary64::of_nat(self@.bandwidth_bps as nat)),
    {
        as_mbps(Binary64::from_u64(self.bandwidth_bps))
    }

    /// Smoothed RTT in milliseconds.
    pub fn rtt_ms(&self) -> (r: Binary64)
        ensures
            r == millis(self@.smoothed_rtt_us as nat),
    {
        as_millis(self.smoothed_rtt_us)
    }

    fn summary(&self) -> (r: String)
        ensures
            r@ == self@.summary_text(),
    {
        let mut r: String = String::from_str("L");
        push_decimal(&mut r, self.id as u64);
        r.append("[");
        push_fixed(&mut r, self.bandwidth_mbps(), 1);
        r.append("Mbps/");
        push_fixed(&mut r, self.rtt_ms(), 1);
        r.append("ms/");
        r.append(
            if self.healthy {
                "OK"
            } else {
                "DOWN"
            },
        );
        r.append("]");
        r
    }
}

// ---------------------------------------------------------------------------
// All links
// ---------------------------------------------------------------------------

/// How long a link may be silent before its health is in doubt (nanoseconds).
pub const HEALTH_TIMEOUT_NS: u64 = 5_000_000_000;

/// Statistics collector for all links.
#[derive(Debug)]
pub struct StatsCollector {
    /// Per-link stats
    pub links: Vec<LinkStats>,
    /// EWMA alpha for RTT smoothing
    pub ewma_alpha: Binary64,
    /// Bandwidth calculation window (milliseconds)
    pub bandwidth_window_ms: u64,
    /// Counters that the hot path fills
    pub atomic: AtomicCounters,
}

impl StatsCollector {
    /// The counters cover the links.
    pub open spec fn wf(self) -> bool {
        self.atomic.wf() && self.atomic.len() == self.links@.len()
    }

    /// What the links hold.
    pub open spec fn link_views(self) -> Seq<LinkStatsView> {
        self.links@.map_values(|l: LinkStats| l@)
    }

    /// Whether everything but the links is the same.
    pub open spec fn same_setup(self, other: StatsCollector) -> bool {
        &&& self.ewma_alpha == other.ewma_alpha
        &&& self.bandwidth_window_ms == other.bandwidth_window_ms
        &&& self.atomic == other.atomic
    }

    /// The links with one of them changed; a link that does not exist changes
    /// nothing.
    pub open spec fn with_link(self, link_id: int, link: LinkStatsView) -> Seq<LinkStatsView> {
        if 0 <= link_id < self.links@.len() {
            self.link_views().update(link_id, link)
        } else {
            self.link_views()
        }
    }

    /// What the counters of a link hold.
    pub open spec fn delta(self, i: int) -> ((nat, nat), (nat, nat)) {
        (
            (self.atomic.tx_bytes@[i] as nat, self.atomic.tx_packets@[i] as nat),
            (self.atomic.rx_bytes@[i] as nat, self.atomic.rx_packets@[i] as nat),
        )
    }

    /// A link after a tick: the counters folded in, the bandwidth and health
    /// updated.
    pub open spec fn ticked(self, i: int, now_ns: u64) -> LinkStatsView {
        let (tx, rx) = self.delta(i);
        let link = self.link_views()[i];
        let counted = link.counted(tx, rx);
        (if tx.0 > 0 || rx.0 > 0 {
            counted.active_at(now_ns)
        } else {
            counted
        }).windowed((self.bandwidth_window_ms * 1_000_000) as nat, now_ns).examined()
    }

    /// A collector for links that nothing was sent or received on.
    pub fn new(num_links: usize, ewma_alpha: Binary64, bandwidth_window_ms: u64, now_ns: u64) -> (r: StatsCollector)
        ensures
            r.wf(),
            r.link_views() == Seq::new(num_links as nat, |i: int| LinkStatsView::fresh(i as usize, now_ns)),
            r.ewma_alpha == ewma_alpha,
            r.bandwidth_window_ms == bandwidth_window_ms,
            r.atomic.tx_bytes@ == Seq::new(num_links as nat, |i: int| 0u64),
            r.atomic.tx_packets@ == Seq::new(num_links as nat, |i: int| 0u64),
            r.atomic.rx_bytes@ == Seq::new(num_links as nat, |i: int| 0u64),
            r.atomic.rx_packets@ == Seq::new(num_links as nat, |i: int| 0u64),
    {
        let mut links: Vec<LinkStats> = Vec::new();
        let mut i: usize = 0;
        while i < num_links
            invariant
                i <= num_links,
                links@.len() == i,
                forall|j: int| 0 <= j < i ==> (#[trigger] links@[j])@ == LinkStatsView::fresh(j as usize, now_ns),
            decreases num_links - i,
        {
            links.push(LinkStats::new(i, now_ns));
            i = i + 1;
        }
        let r: StatsCollector = StatsCollector {
            links,
            ewma_alpha,
            bandwidth_window_ms,
            atomic: AtomicCounters::new(num_links),
        };
        assert(r.link_views() =~= Seq::new(num_links as nat, |i: int| LinkStatsView::fresh(i as usize, now_ns)));
        r
    }

    /// A collector with the usual settings: five links, alpha 0.2, windows of
    /// one second.
    pub fn standard(now_ns: u64) -> (r: StatsCollector)
        ensures
            r.wf(),
            r.link_views() == Seq::new(NUM_LINKS as nat, |i: int| LinkStatsView::fresh(i as usize, now_ns)),
            r.ewma_alpha == Binary64::fraction(2, 10),
            r.bandwidth_window_ms == 1000,
            r.atomic.tx_bytes@ == Seq::new(NUM_LINKS as nat, |i: int| 0u64),
            r.atomic.tx_packets@ == Seq::new(NUM_LINKS as nat, |i: int| 0u64),
            r.atomic.rx_bytes@ == Seq::new(NUM_LINKS as nat, |i: int| 0u64),
            r.atomic.rx_packets@ == Seq::new(NUM_LINKS as nat, |i: int| 0u64),
    {
        Self::new(NUM_LINKS, Binary64::ratio(2, 10), 1000, now_ns)
    }

    /// The counters for the hot path.
    pub fn atomic_counters(&self) -> (r: &AtomicCounters)
        ensures
            *r == self.atomic,
    {
        &self.atomic
    }

    /// Record TX on a link.
    pub fn record_tx(&mut self, link_id: usize, bytes: usize, now_ns: u64)
        requires
            old(self).wf(),
            link_id < old(self).links@.len() ==> old(self).link_views()[link_id as int].can_count(
                (bytes as nat, 1),
                (0, 0),
            ),
        ensures
            final(self).wf(),
            final(self).same_setup(*old(self)),
            final(self).link_views() == old(self).with_link(
                link_id as int,
                old(self).link_views()[link_id as int].counted((bytes as nat, 1), (0, 0)).active_at(now_ns),
            ),
    {
        if link_id < self.links.len() {
            self.links[link_id].record_tx(bytes, now_ns);
        }
        assert(self.link_views() =~= old(self).with_link(
            link_id as int,
            old(self).link_views()[link_id as int].counted((bytes as nat, 1), (0, 0)).active_at(now_ns),
        ));
    }

    /// Record RX on a link.
    pub fn record_rx(&mut self, link_id: usize, bytes: usize, now_ns: u64)
        requires
            old(self).wf(),
            link_id < old(self).links@.len() ==> old(self).link_views()[link_id as int].can_count(
                (0, 0),
                (bytes as nat, 1),
            ),
        ensures
            final(self).wf(),
            final(self).same_setup(*old(self)),
            final(self).link_views() == old(self).with_link(
                link_id as int,
                old(self).link_views()[link_id as int].counted((0, 0), (bytes as nat, 1)).active_at(now_ns),
            ),
    {
        if link_id < self.links.len() {
            self.links[link_id].record_rx(bytes, now_ns);
        }
        assert(self.link_views() =~= old(self).with_link(
            link_id as int,
            old(self).link_views()[link_id as int].counted((0, 0), (bytes as nat, 1)).active_at(now_ns),
        ));
    }

    /// Record RTT measurement.
    pub fn record_rtt(&mut self, link_id: usize, rtt_us: u64)
        requires
            old(self).wf(),
        ensures
            final(self).wf(),
            final(self).same_setup(*old(self)),
            final(self).link_views() == old(self).with_link(
                link_id as int,
                old(self).link_views()[link_id as int].with_rtt(rtt_us, old(self).ewma_alpha),
            ),
    {
        if link_id < self.links.len() {
            let alpha: Binary64 = self.ewma_alpha;
            self.links[link_id].record_rtt(rtt_us, alpha);
        }
        assert(self.link_views() =~= old(self).with_link(
            link_id as int,
            old(self).link_views()[link_id as int].with_rtt(rtt_us, old(self).ewma_alpha),
        ));
    }

    /// Record ACK.
    pub fn record_ack(&mut self, link_id: usize, bytes: u64)
        requires
            old(self).wf(),
        ensures
            final(self).wf(),
            final(self).same_setup(*old(self)),
            final(self).link_views() == old(self).with_link(
                link_id as int,
                (LinkStatsView {
                    pending_bytes: monus(
                        old(self).link_views()[link_id as int].pending_bytes as nat,
                        bytes as nat,
                    ) as u64,
                    ..old(self).link_views()[link_id as int]
                }),
            ),
    {
        if link_id < self.links.len() {
            self.links[link_id].record_ack(bytes);
        }
        assert(self.link_views() =~= old(self).with_link(
            link_id as int,
            LinkStatsView {
                pending_bytes: monus(
                    old(self).link_views()[link_id as int].pending_bytes as nat,
                    bytes as nat,
                ) as u64,
                ..old(self).link_views()[link_id as int]
            },
        ));
    }

    /// Whether a tick stays within the machine's integers.
    pub open spec fn accepts_tick(self) -> bool {
        forall|i: int|
            0 <= i < self.links@.len() ==> (#[trigger] self.links@[i])@.can_count(self.delta(i).0, self.delta(i).1)
    }

    /// Whether [`StatsCollector::tick`] can be called.
    pub fn can_tick(&self) -> (r: bool)
        requires
            self.wf(),
        ensures
            r == self.accepts_tick(),
    {
        let mut i: usize = 0;
        while i < self.links.len()
            invariant
                i <= self.links@.len(),
                self.wf(),
                forall|j: int|
                    0 <= j < i ==> (#[trigger] self.links@[j])@.can_count(self.delta(j).0, self.delta(j).1),
            decreases self.links.len() - i,
        {
            let link: &LinkStats = &self.links[i];
            let tx: u64 = self.atomic.tx_bytes[i];
            let fits: bool = tx <= u64::MAX - link.tx_bytes && tx <= u64::MAX - link.pending_bytes
                && self.atomic.tx_packets[i] <= u64::MAX - link.tx_packets && self.atomic.rx_bytes[i] <= u64::MAX
                - link.rx_bytes && self.atomic.rx_packets[i] <= u64::MAX - link.rx_packets;
            if !fits {
                assert(!self.links@[i as int]@.can_count(self.delta(i as int).0, self.delta(i as int).1));
                return false;
            }
            i = i + 1;
        }
        true
    }

    /// Periodic update (call every second or so).  Folds the counters into
    /// the per-link stats and returns what they held: bytes sent and received
    /// per link.
    pub fn tick(&mut self, now_ns: u64) -> (r: Vec<(u64, u64)>)
        requires
            old(self).wf(),
            old(self).accepts_tick(),
        ensures
            final(self).wf(),
            final(self).ewma_alpha == old(self).ewma_alpha,
            final(self).bandwidth_window_ms == old(self).bandwidth_window_ms,
            final(self).atomic.tx_bytes@ == Seq::new(old(self).links@.len(), |i: int| 0u64),
            final(self).atomic.tx_packets@ == Seq::new(old(self).links@.len(), |i: int| 0u64),
            final(self).atomic.rx_bytes@ == Seq::new(old(self).links@.len(), |i: int| 0u64),
            final(self).atomic.rx_packets@ == Seq::new(old(self).links@.len(), |i: int| 0u64),
            final(self).link_views() == Seq::new(old(self).links@.len(), |i: int| old(self).ticked(i, now_ns)),
            r@ == Seq::new(
                old(self).links@.len(),
                |i: int| (old(self).atomic.tx_bytes@[i], old(self).atomic.rx_bytes@[i]),
            ),
    {
        let mut deltas: Vec<(u64, u64)> = Vec::new();
        let window: u128 = self.bandwidth_window_ms as u128 * 1_000_000;
        let mut i: usize = 0;
        while i < self.links.len()
            invariant
                i <= self.links@.len(),
                old(self).wf(),
                old(self).accepts_tick(),
                self.wf(),
                self.links@.len() == old(self).links@.len(),
                self.ewma_alpha == old(self).ewma_alpha,
                self.bandwidth_window_ms == old(self).bandwidth_window_ms,
                window == self.bandwidth_window_ms * 1_000_000,
                deltas@.len() == i,
                forall|j: int|
                    0 <= j < i ==> deltas@[j] == (old(self).atomic.tx_bytes@[j], old(self).atomic.rx_bytes@[j]),
                forall|j: int|
                    0 <= j < i ==> (#[trigger] self.links@[j])@ == old(self).ticked(j, now_ns),
                forall|j: int|
                    #![trigger self.links@[j]]
                    i <= j < self.links@.len() ==> self.links@[j] == old(self).links@[j],
                forall|j: int|
                    #![trigger self.atomic.tx_bytes@[j]]
                    0 <= j < self.links@.len() ==> self.atomic.tx_bytes@[j] == if j < i {
                        0
                    } else {
                        old(self).atomic.tx_bytes@[j]
                    },
                forall|j: int|
                    #![trigger self.atomic.tx_packets@[j]]
                    0 <= j < self.links@.len() ==> self.atomic.tx_packets@[j] == if j < i {
                        0
                    } else {
                        old(self).atomic.tx_packets@[j]
                    },
                forall|j: int|
                    #![trigger self.atomic.rx_bytes@[j]]
                    0 <= j < self.links@.len() ==> self.atomic.rx_bytes@[j] == if j < i {
                        0
                    } else {
                        old(self).atomic.rx_bytes@[j]
                    },
                forall|j: int|
                    #![trigger self.atomic.rx_packets@[j]]
                    0 <= j < self.links@.len() ==> self.atomic.rx_packets@[j] == if j < i {
                        0
                    } else {
                        old(self).atomic.rx_packets@[j]
                    },
            decreases self.links.len() - i,
        {
            assert(self.links@[i as int] == old(self).links@[i as int]);
            assert(old(self).links@[i as int]@.can_count(
                old(self).delta(i as int).0,
                old(self).delta(i as int).1,
            ));
            let (tx_bytes, tx_packets): (u64, u64) = self.atomic.drain_tx(i);
            let (rx_bytes, rx_packets): (u64, u64) = self.atomic.drain_rx(i);
            self.links[i].fold((tx_bytes, tx_packets), (rx_bytes, rx_packets), now_ns);
            self.links[i].update_bandwidth(window, now_ns);
            self.links[i].update_health(HEALTH_TIMEOUT_NS);
            deltas.push((tx_bytes, rx_bytes));
            i = i + 1;
        }
        assert(self.link_views() =~= Seq::new(old(self).links@.len(), |i: int| old(self).ticked(i, now_ns)));
        assert(deltas@ =~= Seq::new(
            old(self).links@.len(),
            |i: int| (old(self).atomic.tx_bytes@[i], old(self).atomic.rx_bytes@[i]),
        ));
        assert(self.atomic.tx_bytes@ =~= Seq::new(old(self).links@.len(), |i: int| 0u64));
        assert(self.atomic.tx_packets@ =~= Seq::new(old(self).links@.len(), |i: int| 0u64));
        assert(self.atomic.rx_bytes@ =~= Seq::new(old(self).links@.len(), |i: int| 0u64));
        assert(self.atomic.rx_packets@ =~= Seq::new(old(self).links@.len(), |i: int| 0u64));
        deltas
    }

    /// Bandwidths of all links (bytes/sec).
    pub fn bandwidths(&self) -> (r: Vec<u64>)
        ensures
            r@ == self.link_views().map_values(|l: LinkStatsView| l.bandwidth_bps),
    {
        let mut r: Vec<u64> = Vec::new();
        let mut i: usize = 0;
        while i < self.links.len()
            invariant
                i <= self.links@.len(),
                r@.len() == i,
                forall|j: int| 0 <= j < i ==> r@[j] == (#[trigger] self.links@[j])@.bandwidth_bps,
            decreases self.links.len() - i,
        {
            r.push(self.links[i].bandwidth_bps);
            i = i + 1;
        }
        assert(r@ =~= self.link_views().map_values(|l: LinkStatsView| l.bandwidth_bps));
        r
    }

    /// RTTs of all links (microseconds).
    pub fn rtts(&self) -> (r: Vec<u64>)
        ensures
            r@ == self.link_views().map_values(|l: LinkStatsView| l.smoothed_rtt_us),
    {
        let mut r: Vec<u64> = Vec::new();
        let mut i: usize = 0;
        while i < self.links.len()
            invariant
                i <= self.links@.len(),
                r@.len() == i,
                forall|j: int| 0 <= j < i ==> r@[j] == (#[trigger] self.links@[j])@.smoothed_rtt_us,
            decreases self.links.len() - i,
        {
            r.push(self.links[i].smoothed_rtt_us);
            i = i + 1;
        }
        assert(r@ =~= self.link_views().map_values(|l: LinkStatsView| l.smoothed_rtt_us));
        r
    }

    /// Health status of all links.
    pub fn health(&self) -> (r: Vec<bool>)
        ensures
            r@ == self.link_views().map_values(|l: LinkStatsView| l.healthy),
    {
        let mut r: Vec<bool> = Vec::new();
        let mut i: usize = 0;
        while i < self.links.len()
            invariant
                i <= self.links@.len(),
                r@.len() == i,
                forall|j: int| 0 <= j < i ==> r@[j] == (#[trigger] self.links@[j])@.healthy,
            decreases self.links.len() - i,
        {
            r.push(self.links[i].healthy);
            i = i + 1;
        }
        assert(r@ =~= self.link_views().map_values(|l: LinkStatsView| l.healthy));
        r
    }

    /// Total bandwidth (all links, bytes/sec).
    pub fn total_bandwidth(&self) -> (r: u64)
        requires
            total(self.link_views().map_values(|l: LinkStatsView| l.bandwidth_bps)) <= u64::MAX,
        ensures
            r == total(self.link_views().map_values(|l: LinkStatsView| l.bandwidth_bps)),
    {
        sum(&self.bandwidths())
    }

    /// Summary for logging.
    pub fn summary(&self) -> (r: String)
        ensures
            r@ == join(self.link_views().map_values(|l: LinkStatsView| l.summary_text()), " "@),
    {
        let ghost texts = self.link_views().map_values(|l: LinkStatsView| l.summary_text());
        let mut parts: Vec<String> = Vec::new();
        let mut i: usize = 0;
        while i < self.links.len()
            invariant
                i <= self.links@.len(),
                texts == self.link_views().map_values(|l: LinkStatsView| l.summary_text()),
                parts@.len() == i,
                forall|j: int| 0 <= j < i ==> (#[trigger] parts@[j])@ == texts[j],
            decreases self.links.len() - i,
        {
            parts.push(self.links[i].summary());
            i = i + 1;
        }
        assert(parts@.map_values(|p: String| p@) =~= texts);
        let mut r: String = String::new();
        push_joined(&mut r, &parts, " ");
        assert(r@ =~= join(texts, " "@));
        r
    }
}

impl LinkStats {
    /// Folds counters in.
    fn fold(&mut self, tx: (u64, u64), rx: (u64, u64), now_ns: u64)
        requires
            old(self)@.can_count((tx.0 as nat, tx.1 as nat), (rx.0 as nat, rx.1 as nat)),
        ensures
            final(self)@ == if tx.0 > 0 || rx.0 > 0 {
                old(self)@.counted((tx.0 as nat, tx.1 as nat), (rx.0 as nat, rx.1 as nat)).active_at(now_ns)
            } else {
                old(self)@.counted((tx.0 as nat, tx.1 as nat), (rx.0 as nat, rx.1 as nat))
            },
    {
        if tx.0 > 0 || rx.0 > 0 {
            self.last_activity = now_ns;
        }
        self.tx_bytes = self.tx_bytes + tx.0;
        self.tx_packets = self.tx_packets + tx.1;
        self.pending_bytes = self.pending_bytes + tx.0;
        self.rx_bytes = self.rx_bytes + rx.0;
        self.rx_packets = self.rx_packets + rx.1;
    }
}

// ---------------------------------------------------------------------------
// Laws
// ---------------------------------------------------------------------------

/// A call on the counters.
pub enum CounterCall {
    RecordTx { link_id: usize, bytes: usize },
    RecordRx { link_id: usize, bytes: usize },
    DrainTx { link_id: usize },
    DrainRx { link_id: usize },
}

impl AtomicCounters {
    /// Whether the counters hold nothing yet.
    pub open spec fn is_new(self, n: nat) -> bool {
        &&& self.tx_bytes@ == Seq::new(n, |i: int| 0u64)
        &&& self.tx_packets@ == Seq::new(n, |i: int| 0u64)
        &&& self.rx_bytes@ == Seq::new(n, |i: int| 0u64)
        &&& self.rx_packets@ == Seq::new(n, |i: int| 0u64)
    }

    /// Whether the counters hold the same.
    pub open spec fn same(self, other: AtomicCounters) -> bool {
        &&& self.tx_bytes@ == other.tx_bytes@
        &&& self.tx_packets@ == other.tx_packets@
        &&& self.rx_bytes@ == other.rx_bytes@
        &&& self.rx_packets@ == other.rx_packets@
    }

    /// Whether a call leads from these counters to others.
    pub open spec fn steps_to(self, call: CounterCall, after: AtomicCounters) -> bool {
        match call {
            CounterCall::RecordTx { link_id, bytes } => {
                &&& after.tx_bytes@ == added_to(self.tx_bytes@, link_id as int, bytes as nat)
                &&& after.tx_packets@ == added_to(self.tx_packets@, link_id as int, 1)
                &&& after.rx_bytes@ == self.rx_bytes@
                &&& after.rx_packets@ == self.rx_packets@
            },
            CounterCall::RecordRx { link_id, bytes } => {
                &&& after.rx_bytes@ == added_to(self.rx_bytes@, link_id as int, bytes as nat)
                &&& after.rx_packets@ == added_to(self.rx_packets@, link_id as int, 1)
                &&& after.tx_bytes@ == self.tx_bytes@
                &&& after.tx_packets@ == self.tx_packets@
            },
            CounterCall::DrainTx { link_id } => {
                &&& link_id < self.len()
                &&& after.tx_bytes@ == self.tx_bytes@.update(link_id as int, 0)
                &&& after.tx_packets@ == self.tx_packets@.update(link_id as int, 0)
                &&& after.rx_bytes@ == self.rx_bytes@
                &&& after.rx_packets@ == self.rx_packets@
            },
            CounterCall::DrainRx { link_id } => {
                &&& link_id < self.len()
                &&& after.rx_bytes@ == self.rx_bytes@.update(link_id as int, 0)
                &&& after.rx_packets@ == self.rx_packets@.update(link_id as int, 0)
                &&& after.tx_bytes@ == self.tx_bytes@
                &&& after.tx_packets@ == self.tx_packets@
            },
        }
    }
}

/// Whether the calls lead from each of the counters to the next.
pub open spec fn counter_run(states: Seq<AtomicCounters>, calls: Seq<CounterCall>) -> bool {
    &&& states.len() == calls.len() + 1
    &&& forall|k: int| #![trigger calls[k]] 0 <= k < calls.len() ==> states[k].steps_to(calls[k], states[k + 1])
}

/// The sizes recorded as sent on a link by the first `k` calls, since the last
/// of them that drained it.
pub open spec fn sent_since(calls: Seq<CounterCall>, k: nat, i: int) -> Seq<u64>
    decreases k,
{
    if k == 0 {
        Seq::empty()
    } else {
        let before = sent_since(calls, (k - 1) as nat, i);
        match calls[k - 1] {
            CounterCall::RecordTx { link_id, bytes } if link_id == i => before.push(bytes as u64),
            CounterCall::DrainTx { link_id } if link_id == i => Seq::empty(),
            _ => before,
        }
    }
}

/// The sizes recorded as received on a link by the first `k` calls, since the
/// last of them that drained it.
pub open spec fn received_since(calls: Seq<CounterCall>, k: nat, i: int) -> Seq<u64>
    decreases k,
{
    if k == 0 {
        Seq::empty()
    } else {
        let before = received_since(calls, (k - 1) as nat, i);
        match calls[k - 1] {
            CounterCall::RecordRx { link_id, bytes } if link_id == i => before.push(bytes as u64),
            CounterCall::DrainRx { link_id } if link_id == i => Seq::empty(),
            _ => before,
        }
    }
}

proof fn lemma_counted(bytes: u64, packets: u64, sizes: Seq<u64>, size: u64)
    requires
        bytes == total(sizes) % 0x1_0000_0000_0000_0000,
        packets == sizes.len() % 0x1_0000_0000_0000_0000,
    ensures
        wrapped(bytes, size as nat) == total(sizes.push(size)) % 0x1_0000_0000_0000_0000,
        wrapped(packets, 1) == sizes.push(size).len() % 0x1_0000_0000_0000_0000,
{
    assert(sizes.push(size).drop_last() =~= sizes);
}

/// What a link's counters hold, and so what a drain of it gives, is the sum
/// and the number of the sizes recorded since the last drain, modulo 2^64,
/// whatever else was recorded and drained before.
pub proof fn law_drain_gives_the_records(
    states: Seq<AtomicCounters>,
    calls: Seq<CounterCall>,
    n: nat,
    k: nat,
    i: int,
)
    requires
        states.len() > 0,
        states[0].is_new(n),
        counter_run(states, calls),
        k <= calls.len(),
        0 <= i < n,
    ensures
        states[k as int].wf(),
        states[k as int].len() == n,
        states[k as int].tx_bytes@[i] == total(sent_since(calls, k, i)) % 0x1_0000_0000_0000_0000,
        states[k as int].tx_packets@[i] == sent_since(calls, k, i).len() % 0x1_0000_0000_0000_0000,
        states[k as int].rx_bytes@[i] == total(received_since(calls, k, i)) % 0x1_0000_0000_0000_0000,
        states[k as int].rx_packets@[i] == received_since(calls, k, i).len() % 0x1_0000_0000_0000_0000,
    decreases k,
{
    if k > 0 {
        let p = (k - 1) as nat;
        law_drain_gives_the_records(states, calls, n, p, i);
        let call = calls[p as int];
        let before = states[p as int];
        let after = states[k as int];
        assert(before.steps_to(call, after));
        match call {
            CounterCall::RecordTx { link_id, bytes } => {
                let sizes = sent_since(calls, p, i);
                if link_id == i {
                    lemma_counted(before.tx_bytes@[i], before.tx_packets@[i], sizes, bytes as u64);
                    assert(sent_since(calls, k, i) == sizes.push(bytes as u64));
                } else {
                    assert(sent_since(calls, k, i) == sizes);
                }
                assert(received_since(calls, k, i) == received_since(calls, p, i));
            },
            CounterCall::RecordRx { link_id, bytes } => {
                let sizes = received_since(calls, p, i);
                if link_id == i {
                    lemma_counted(before.rx_bytes@[i], before.rx_packets@[i], sizes, bytes as u64);
                    assert(received_since(calls, k, i) == sizes.push(bytes as u64));
                } else {
                    assert(received_since(calls, k, i) == sizes);
                }
                assert(sent_since(calls, k, i) == sent_since(calls, p, i));
            },
            CounterCall::DrainTx { link_id } => {
                assert(received_since(calls, k, i) == received_since(calls, p, i));
            },
            CounterCall::DrainRx { link_id } => {
                assert(sent_since(calls, k, i) == sent_since(calls, p, i));
            },
        }
    }
}

/// A drain empties the counters of its link and direction and no others, so a
/// second one gives nothing; a record on a link that does not exist changes
/// nothing.
pub proof fn law_drain_empties_one_link(before: AtomicCounters, call: CounterCall, after: AtomicCounters, i: int)
    requires
        before.wf(),
        before.steps_to(call, after),
        0 <= i < before.len(),
    ensures
        after.wf(),
        after.len() == before.len(),
        call matches CounterCall::DrainTx { link_id } ==> {
            &&& after.rx_bytes@ == before.rx_bytes@
            &&& after.rx_packets@ == before.rx_packets@
            &&& (after.tx_bytes@[i], after.tx_packets@[i]) == if link_id == i {
                (0u64, 0u64)
            } else {
                (before.tx_bytes@[i], before.tx_packets@[i])
            }
        },
        call matches CounterCall::DrainRx { link_id } ==> {
            &&& after.tx_bytes@ == before.tx_bytes@
            &&& after.tx_packets@ == before.tx_packets@
            &&& (after.rx_bytes@[i], after.rx_packets@[i]) == if link_id == i {
                (0u64, 0u64)
            } else {
                (before.rx_bytes@[i], before.rx_packets@[i])
            }
        },
        call matches CounterCall::RecordTx { link_id, bytes } ==> (link_id >= before.len() ==> after.same(before)),
        call matches CounterCall::RecordRx { link_id, bytes } ==> (link_id >= before.len() ==> after.same(before)),
{
}

/// No more RTT samples are kept than configured, and the latest is.
pub proof fn law_rtt_samples_are_bounded(l: LinkStatsView, rtt_us: u64, alpha: Binary64)
    requires
        l.rtt_samples.len() <= MAX_RTT_SAMPLES,
    ensures
        l.with_rtt(rtt_us, alpha).rtt_samples.len() <= MAX_RTT_SAMPLES,
        l.with_rtt(rtt_us, alpha).rtt_samples.last() == rtt_us,
{
}

/// Inactivity alone never makes a link unhealthy: a link without measured
/// loss or RTT is healthy, however long ago it was active.
pub proof fn law_silence_is_no_illness(l: LinkStatsView)
    requires
        l.loss_ratio == Binary64::of_nat(0),
        l.smoothed_rtt_us == 0,
    ensures
        l.examined().healthy,
{
    crate::binary64::lemma_fraction_order(0, 1, 5, 10);
    crate::binary64::lemma_whole_fraction(0);
    reveal(Binary64::less);
    reveal(Binary64::at_most);
}

/// A time counts by the configured weight, a decimal here, against the rest on
/// the smoothed one; the first counts as it is.
pub proof fn law_times_are_smoothed(l: LinkStatsView, rtt_us: u64, alpha: Binary64, p: nat, q: nat)
    requires
        alpha == Binary64::fraction(p, q),
        0 < q <= 100,
        p <= q,
        rtt_us < 0x100_0000_0000,
        l.smoothed_rtt_us < 0x100_0000_0000,
    ensures
        ({
            let after = l.with_rtt(rtt_us, alpha).smoothed_rtt_us;
            &&& l.smoothed_rtt_us == 0 ==> after == rtt_us
            &&& l.smoothed_rtt_us > 0 ==> q * after <= p * rtt_us + (q - p) * l.smoothed_rtt_us <= q * (after + 1)
        }),
{
    lemma_mean_is_close(p, q, rtt_us as nat, l.smoothed_rtt_us as nat);
}

/// The samples kept are the latest hundred, in order.
pub proof fn law_latest_times_are_kept(l: LinkStatsView, rtt_us: u64, alpha: Binary64, k: int)
    requires
        l.rtt_samples.len() <= 100,
        0 < k < l.with_rtt(rtt_us, alpha).rtt_samples.len(),
    ensures
        ({
            let after = l.with_rtt(rtt_us, alpha).rtt_samples;
            &&& after.len() == if l.rtt_samples.len() < 100 {
                l.rtt_samples.len() + 1
            } else {
                100
            }
            &&& after[after.len() - 1 - k] == l.rtt_samples[l.rtt_samples.len() - k]
            &&& after.last() == rtt_us
        }),
{
}

/// At the end of a window the bandwidth is the bytes sent per second of it, and
/// the counts start over; before that nothing changes.  (Windows of whole
/// seconds.)
pub proof fn law_bandwidth_is_bytes_per_second(l: LinkStatsView, window_ns: nat, now_ns: u64, w: nat)
    requires
        0 < w <= 1024,
        now_ns - l.window_start == w * 1_000_000_000,
        l.tx_bytes < 0x100_0000_0000,
    ensures
        ({
            let after = l.windowed(window_ns, now_ns);
            &&& w * 1_000_000_000 < window_ns ==> after == l
            &&& w * 1_000_000_000 >= window_ns ==> after.bandwidth_bps == l.tx_bytes as nat / w && after.tx_bytes == 0
                && after.tx_packets == 0 && after.rx_bytes == 0 && after.rx_packets == 0 && after.window_start == now_ns
            &&& after.smoothed_rtt_us == l.smoothed_rtt_us && after.rtt_samples == l.rtt_samples && after.loss_ratio
                == l.loss_ratio && after.pending_bytes == l.pending_bytes && after.last_activity == l.last_activity
        }),
{
    lemma_whole_seconds(w);
    lemma_whole_quotient(l.tx_bytes as nat, w);
    assert(l.tx_bytes as nat / w <= l.tx_bytes) by (nonlinear_arith)
        requires
            w >= 1,
    ;
}

/// A link is healthy exactly if it loses no more than half, the loss a decimal
/// here, and its smoothed time is no more than half a second.
pub proof fn law_what_is_healthy(l: LinkStatsView, p: nat, q: nat)
    requires
        l.loss_ratio == Binary64::fraction(p, q),
        0 < q <= 1000,
        p <= 1000,
    ensures
        l.examined().healthy <==> 2 * p <= q && l.smoothed_rtt_us <= 500_000,
        l.examined() == (LinkStatsView { healthy: l.examined().healthy, ..l }),
{
    reveal(Binary64::less);
    reveal(Binary64::at_most);
    crate::binary64::lemma_fraction(p, q);
    crate::binary64::lemma_fraction(5, 10);
    if 2 * p <= q {
        lemma_fraction_order(p, q, 5, 10);
    } else {
        lemma_fractions_apart(5, 10, p, q);
    }
}

/// A tick within the window adds what was recorded since the last, and notes
/// when there was any traffic.
pub proof fn law_tick_adds_the_records(s: StatsCollector, i: int, now_ns: u64)
    requires
        s.wf(),
        s.accepts_tick(),
        0 <= i < s.links@.len(),
        s.bandwidth_window_ms > 0,
        now_ns - s.links@[i].window_start < s.bandwidth_window_ms * 1_000_000,
    ensures
        ({
            let before = s.links@[i];
            let after = s.ticked(i, now_ns);
            let sent = s.atomic.tx_bytes@[i];
            let received = s.atomic.rx_bytes@[i];
            &&& after.tx_bytes == before.tx_bytes + sent
            &&& after.tx_packets == before.tx_packets + s.atomic.tx_packets@[i]
            &&& after.rx_bytes == before.rx_bytes + received
            &&& after.rx_packets == before.rx_packets + s.atomic.rx_packets@[i]
            &&& after.pending_bytes == before.pending_bytes + sent
            &&& sent > 0 || received > 0 ==> after.last_activity == now_ns
            &&& sent == 0 && received == 0 ==> after.last_activity == before.last_activity
            &&& after.bandwidth_bps == before.bandwidth_bps && after.smoothed_rtt_us == before.smoothed_rtt_us
        }),
{
    assert(s.links@[i]@.can_count(s.delta(i).0, s.delta(i).1));
    assert(s.link_views()[i] == s.links@[i]@);
}

/// The tick that ends a window counts what was recorded since the last one
/// towards its bandwidth.
pub proof fn law_tick_measures_the_window(s: StatsCollector, i: int, now_ns: u64, w: nat)
    requires
        s.wf(),
        s.accepts_tick(),
        0 <= i < s.links@.len(),
        0 < w <= 1024,
        now_ns - s.links@[i].window_start == w * 1_000_000_000,
        w * 1000 >= s.bandwidth_window_ms,
        s.links@[i].tx_bytes + s.atomic.tx_bytes@[i] < 0x100_0000_0000,
    ensures
        s.ticked(i, now_ns).bandwidth_bps == (s.links@[i].tx_bytes + s.atomic.tx_bytes@[i]) as nat / w,
        s.ticked(i, now_ns).tx_bytes == 0,
        s.ticked(i, now_ns).window_start == now_ns,
{
    assert(s.links@[i]@.can_count(s.delta(i).0, s.delta(i).1));
    assert(s.link_views()[i] == s.links@[i]@);
    let (tx, rx) = s.delta(i);
    let counted = s.link_views()[i].counted(tx, rx);
    let active = if tx.0 > 0 || rx.0 > 0 {
        counted.active_at(now_ns)
    } else {
        counted
    };
    law_bandwidth_is_bytes_per_second(active, (s.bandwidth_window_ms * 1_000_000) as nat, now_ns, w);
}

/// A tick is accepted unless a count is about to overflow.
pub proof fn law_ordinary_tick_is_accepted(s: StatsCollector)
    requires
        s.wf(),
        forall|i: int|
            0 <= i < s.links@.len() ==> (#[trigger] s.links@[i]).tx_bytes < 0x4000_0000_0000_0000 && s.links@[i].tx_packets
                < 0x4000_0000_0000_0000 && s.links@[i].rx_bytes < 0x4000_0000_0000_0000 && s.links@[i].rx_packets
                < 0x4000_0000_0000_0000 && s.links@[i].pending_bytes < 0x4000_0000_0000_0000 && s.atomic.tx_bytes@[i]
                < 0x4000_0000_0000_0000 && s.atomic.tx_packets@[i] < 0x4000_0000_0000_0000 && s.atomic.rx_bytes@[i]
                < 0x4000_0000_0000_0000 && s.atomic.rx_packets@[i] < 0x4000_0000_0000_0000,
    ensures
        s.accepts_tick(),
{
}

} // verus!
