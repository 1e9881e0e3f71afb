//! What a client does with packets and, once a second, with its measurements.
//!
//! The programs around the library own the sockets, the clock and the locks;
//! the steps here take the components and say what becomes of them.

use crate::binary64::Binary64;
use crate::chunk_aggregator::{size_with, Chunk, ChunkAggregator, ChunkContents};
use crate::flow_classifier::{FlowClassifier, FlowMode};
use crate::link_scheduler::{rate_controlled, restored, weight_shares, LinkScheduler, LinkState, ADJUSTMENT_INTERVAL_NS};
use crate::measure::monus;
use crate::optimizer::{OptimizerSnapshot, SnapshotView, ThroughputOptimizer};
use crate::protocol::{AckPacket, AnnouncePacket, ChunkPacket, ChunkView, FlowId, Packet, PacketView, ProbePacket};
use crate::rate_controller::{RateController, RateState};
use crate::receiver::{ChunkReceiver, ReassemblyBuffer};
use crate::share::{checked_sum, total};
use crate::stats::{LinkStatsView, StatsCollector};
use crate::config::ReceiverConfig;
use vstd::prelude::*;

verus! {

// ---------------------------------------------------------------------------
// Packets
// ---------------------------------------------------------------------------

/// What a packet from a link asks for.
#[derive(Debug)]
pub enum Received {
    /// Send the acknowledgement, then hand the chunk to the receiver
    Chunk { ack: AckPacket, chunk: Chunk },
    /// Hand the announcement to the receiver
    Announcement(AnnouncePacket),
    /// Record a round-trip time (microseconds)
    Rtt(u64),
    /// Hand the probe to the rate controller
    Probe(ProbePacket),
    /// Nothing
    Ignored,
}

/// What a [`Received`] holds.
pub enum ReceivedView {
    Chunk(AckPacket, ChunkContents),
    Announcement(AnnouncePacket),
    Rtt(u64),
    Probe(ProbePacket),
    Ignored,
}

impl View for Received {
    type V = ReceivedView;

    open spec fn view(&self) -> ReceivedView {
        match *self {
            Received::Chunk { ack, chunk } => ReceivedView::Chunk(ack, chunk@),
            Received::Announcement(a) => ReceivedView::Announcement(a),
            Received::Rtt(rtt) => ReceivedView::Rtt(rtt),
            Received::Probe(p) => ReceivedView::Probe(p),
            Received::Ignored => ReceivedView::Ignored,
        }
    }
}

/// The round-trip time that an acknowledgement shows: none where it echoes no
/// time, or one that has not passed.
pub open spec fn rtt_of(echo_us: u64, now_us: u64) -> Option<u64> {
    if echo_us > 0 && now_us > echo_us {
        Some((now_us - echo_us) as u64)
    } else {
        None
    }
}

/// What a packet asks for.
pub open spec fn answer(packet: PacketView, link_id: u8, now_us: u64, now_ns: u64) -> ReceivedView {
    match packet {
        PacketView::Data(p) => ReceivedView::Chunk(
            AckPacket { chunk_id: p.chunk_id, link_id, echo_timestamp_us: 0, recv_timestamp_us: now_us },
            ChunkContents { data: p.payload, ..ChunkContents::fresh(p.chunk_id, now_ns) },
        ),
        PacketView::Announce(a) => ReceivedView::Announcement(a),
        PacketView::Ack(a) => match rtt_of(a.echo_timestamp_us, now_us) {
            Some(rtt) => ReceivedView::Rtt(rtt),
            None => ReceivedView::Ignored,
        },
        PacketView::Probe(p) => ReceivedView::Probe(p),
        _ => ReceivedView::Ignored,
    }
}

/// The round-trip time that an acknowledgement shows.
pub fn ack_rtt(echo_us: u64, now_us: u64) -> (r: Option<u64>)
    ensures
        r == rtt_of(echo_us, now_us),
{
    if echo_us > 0 && now_us > echo_us {
        Some(now_us - echo_us)
    } else {
        None
    }
}

/// What to do with a packet that a link received.
pub fn receive(packet: Packet, link_id: u8, now_us: u64, now_ns: u64) -> (r: Received)
    ensures
        r@ == answer(packet@, link_id, now_us, now_ns),
{
    match packet {
        Packet::Data(p) => {
            let ack: AckPacket = AckPacket {
                chunk_id: p.chunk_id,
                link_id,
                echo_timestamp_us: 0,
                recv_timestamp_us: now_us,
            };
            let mut chunk: Chunk = Chunk::new(p.chunk_id, now_ns);
            chunk.data = p.payload;
            Received::Chunk { ack, chunk }
        },
        Packet::Announce(a) => Received::Announcement(a),
        Packet::Ack(a) => match ack_rtt(a.echo_timestamp_us, now_us) {
            Some(rtt) => Received::Rtt(rtt),
            None => Received::Ignored,
        },
        Packet::Probe(p) => Received::Probe(p),
        _ => Received::Ignored,
    }
}

/// The packet that carries a whole chunk over a link.
pub fn outgoing(chunk: Chunk, link_id: u8) -> (r: ChunkPacket)
    requires
        chunk@.data.len() <= u32::MAX,
    ensures
        r@ == (ChunkView {
            chunk_id: chunk@.id,
            link_id,
            total_size: chunk@.data.len() as u32,
            offset: 0,
            payload: chunk@.data,
        }),
{
    let total_size: u32 = chunk.data.len() as u32;
    ChunkPacket { chunk_id: chunk.id, link_id, total_size, offset: 0, payload: chunk.data }
}

/// How the flow of a chunk is routed; a chunk of no known flow goes over all
/// links.
pub fn chunk_mode(classifier: &FlowClassifier, flow_id: Option<FlowId>) -> (r: FlowMode)
    ensures
        r == match flow_id {
            Some(id) => if classifier.flow_map().dom().contains(id.0) {
                classifier.flow_map()[id.0].mode
            } else {
                FlowMode::Bulk
            },
            None => FlowMode::Bulk,
        },
{
    match flow_id {
        Some(id) => match classifier.get_mode(id) {
            Some(mode) => mode,
            None => FlowMode::Bulk,
        },
        None => FlowMode::Bulk,
    }
}

// ---------------------------------------------------------------------------
// Traffic
// ---------------------------------------------------------------------------

/// A link with traffic of the last second folded in.
pub open spec fn folded(s: RateState, delta: (u64, u64)) -> RateState {
    let sent = if delta.0 > 0 {
        RateState {
            total_tx_bytes: (s.total_tx_bytes + delta.0) as u64,
            total_tx_packets: (s.total_tx_packets + 1) as u64,
            ..s
        }
    } else {
        s
    };
    if delta.1 > 0 {
        RateState {
            total_rx_bytes: (s.total_rx_bytes + delta.1) as u64,
            total_rx_packets: (s.total_rx_packets + 1) as u64,
            ..sent
        }
    } else {
        sent
    }
}

/// The links with traffic of the last second folded in.
pub open spec fn all_folded(states: Seq<RateState>, deltas: Seq<(u64, u64)>) -> Seq<RateState> {
    Seq::new(
        states.len(),
        |i: int|
            if i < deltas.len() {
                folded(states[i], deltas[i])
            } else {
                states[i]
            },
    )
}

/// Whether folding the traffic of one link in stays within the machine's
/// integers.
pub open spec fn link_fits(s: RateState, delta: (u64, u64)) -> bool {
    &&& delta.0 > 0 ==> delta.0 <= usize::MAX && s.total_tx_bytes + delta.0 <= u64::MAX && s.total_tx_packets
        < u64::MAX
    &&& delta.1 > 0 ==> delta.1 <= usize::MAX && s.total_rx_bytes + delta.1 <= u64::MAX && s.total_rx_packets
        < u64::MAX
}

/// Whether folding traffic in stays within the machine's integers.
pub open spec fn fold_fits(states: Seq<RateState>, deltas: Seq<(u64, u64)>) -> bool {
    forall|i: int| 0 <= i < deltas.len() && i < states.len() ==> #[trigger] link_fits(states[i], deltas[i])
}

/// Whether [`fold_traffic`] can be called.
pub fn can_fold_traffic(rates: &RateController, deltas: &Vec<(u64, u64)>) -> (r: bool)
    ensures
        r == fold_fits(rates.states@, deltas@),
{
    let mut i: usize = 0;
    while i < deltas.len() && i < rates.states.len()
        invariant
            i <= deltas@.len(),
            i <= rates.states@.len(),
            forall|j: int| 0 <= j < i ==> #[trigger] link_fits(rates.states@[j], deltas@[j]),
        decreases deltas.len() - i,
    {
        let s: &RateState = &rates.states[i];
        let (tx, rx): (u64, u64) = deltas[i];
        let sent: bool = tx == 0 || (tx <= usize::MAX as u64 && tx <= u64::MAX - s.total_tx_bytes && s.total_tx_packets
            < u64::MAX);
        let received: bool = rx == 0 || (rx <= usize::MAX as u64 && rx <= u64::MAX - s.total_rx_bytes
            && s.total_rx_packets < u64::MAX);
        if !sent || !received {
            assert(!link_fits(rates.states@[i as int], deltas@[i as int]));
            return false;
        }
        i = i + 1;
    }
    true
}

/// Fold the traffic of the last second, bytes sent and received per link, into
/// the rate controller.
pub fn fold_traffic(rates: &mut RateController, deltas: &Vec<(u64, u64)>)
    requires
        old(rates).wf(),
        fold_fits(old(rates).states@, deltas@),
    ensures
        final(rates).wf(),
        final(rates).config == old(rates).config,
        final(rates).states@ == all_folded(old(rates).states@, deltas@),
{
    let ghost before = rates.states@;
    let mut i: usize = 0;
    assert(rates.states@ =~= all_folded(before, deltas@.take(0)));
    while i < deltas.len()
        invariant
            i <= deltas@.len(),
            before == old(rates).states@,
            fold_fits(before, deltas@),
            rates.wf(),
            rates.config == old(rates).config,
            rates.states@ == all_folded(before, deltas@.take(i as int)),
        decreases deltas.len() - i,
    {
        let (tx, rx): (u64, u64) = deltas[i];
        assert(i < before.len() ==> rates.states@[i as int] == before[i as int] && link_fits(
            before[i as int],
            deltas@[i as int],
        ));
        if tx > 0 {
            rates.record_tx(i, tx as usize);
        }
        if rx > 0 {
            rates.record_rx(i, rx as usize);
        }
        i = i + 1;
        assert(rates.states@ =~= all_folded(before, deltas@.take(i as int)));
    }
    assert(deltas@.take(i as int) =~= deltas@);
}

// ---------------------------------------------------------------------------
// Measurements
// ---------------------------------------------------------------------------

/// The round-trip times to go by: those of the rate controller's probes where
/// it is enabled, those of acknowledgements elsewhere.
pub open spec fn times_of(rates: Seq<RateState>, enabled: bool, measured: Seq<u64>) -> Seq<u64> {
    if enabled {
        Seq::new(
            measured.len(),
            |i: int|
                if i < rates.len() {
                    rates[i].srtt_us
                } else {
                    0
                },
        )
    } else {
        measured
    }
}

/// The round-trip times to go by.
pub fn link_rtts(rates: &RateController, measured: &Vec<u64>) -> (r: Vec<u64>)
    ensures
        r@ == times_of(rates.states@, rates.config.enabled, measured@),
{
    let ghost all = times_of(rates.states@, rates.config.enabled, measured@);
    let enabled: bool = rates.enabled();
    let mut r: Vec<u64> = Vec::new();
    let mut i: usize = 0;
    while i < measured.len()
        invariant
            i <= measured@.len(),
            enabled == rates.config.enabled,
            all == times_of(rates.states@, rates.config.enabled, measured@),
            r@ == all.take(i as int),
        decreases measured.len() - i,
    {
        let rtt: u64 = if enabled {
            rates.rtt_us(i)
        } else {
            measured[i]
        };
        r.push(rtt);
        i = i + 1;
        assert(r@ =~= all.take(i as int));
    }
    assert(r@ =~= all);
    r
}

/// The scheduler's links, and when their weights were last adjusted, once the
/// first `n` links have been measured.
pub open spec fn measured_links(
    links: Seq<LinkState>,
    adjusted: u64,
    bandwidths: Seq<u64>,
    rtts: Seq<u64>,
    now_ns: u64,
    n: nat,
) -> (Seq<LinkState>, u64)
    decreases n,
{
    if n == 0 {
        (links, adjusted)
    } else {
        let i = n - 1;
        let (before, at) = measured_links(links, adjusted, bandwidths, rtts, now_ns, i as nat);
        let after = if i < before.len() {
            before.update(i, before[i].measured(bandwidths[i], rtts[i], now_ns))
        } else {
            before
        };
        if monus(now_ns as nat, at as nat) >= ADJUSTMENT_INTERVAL_NS {
            (restored(after), now_ns)
        } else {
            (after, at)
        }
    }
}

/// Microseconds in whole milliseconds, modulo 2^32.
pub open spec fn whole_millis(us: u64) -> u32 {
    ((us / 1000) % 0x1_0000_0000) as u32
}

fn millis_of(us: u64) -> (r: u32)
    ensures
        r == whole_millis(us),
{
    ((us / 1000) % 0x1_0000_0000) as u32
}

/// The aggregator's statistics and optimal size once the first `n` links have
/// been measured.
pub open spec fn aggregated(
    aggregator: ChunkAggregator,
    bandwidths: Seq<u64>,
    rtts: Seq<u64>,
    n: nat,
) -> (Seq<(u64, u32)>, usize)
    decreases n,
{
    if n == 0 {
        (aggregator.link_stats@, aggregator.optimal_chunk_size)
    } else {
        let i = n - 1;
        let (stats, size) = aggregated(aggregator, bandwidths, rtts, i as nat);
        if i < stats.len() {
            let after = stats.update(i, (bandwidths[i], whole_millis(rtts[i])));
            (after, size_with(aggregator.config, size, after))
        } else {
            (stats, size)
        }
    }
}

/// Whether the scheduler can take measurements in.
pub open spec fn measurements_fit(links: Seq<LinkState>, bandwidths: Seq<u64>) -> bool {
    forall|i: int|
        0 <= i < links.len() && i < bandwidths.len() ==> (#[trigger] links[i]).bytes_delivered + bandwidths[i]
            <= u64::MAX
}

/// Tell the scheduler and the aggregator what the links were measured at.
pub fn share_measurements(
    scheduler: &mut LinkScheduler,
    aggregator: &mut ChunkAggregator,
    bandwidths: &Vec<u64>,
    rtts: &Vec<u64>,
    now_ns: u64,
)
    requires
        old(scheduler).wf(),
        old(aggregator).wf(),
        rtts@.len() == bandwidths@.len(),
        measurements_fit(old(scheduler).links@, bandwidths@),
    ensures
        final(scheduler).wf(),
        bandwidths@.len() > 0 ==> final(scheduler).bulk_is_current(),
        final(scheduler).config == old(scheduler).config,
        final(scheduler).cursor == old(scheduler).cursor,
        final(scheduler).preferred_link == old(scheduler).preferred_link,
        final(scheduler).is_upload == old(scheduler).is_upload,
        (final(scheduler).links@, final(scheduler).last_adjustment) == measured_links(
            old(scheduler).links@,
            old(scheduler).last_adjustment,
            bandwidths@,
            rtts@,
            now_ns,
            bandwidths@.len(),
        ),
        final(aggregator).wf(),
        final(aggregator).config == old(aggregator).config,
        final(aggregator).current_chunk == old(aggregator).current_chunk,
        final(aggregator).next_chunk_id == old(aggregator).next_chunk_id,
        (final(aggregator).link_stats@, final(aggregator).optimal_chunk_size) == aggregated(
            *old(aggregator),
            bandwidths@,
            rtts@,
            bandwidths@.len(),
        ),
{
    let ghost links = scheduler.links@;
    let mut i: usize = 0;
    while i < bandwidths.len()
        invariant
            i <= bandwidths@.len(),
            rtts@.len() == bandwidths@.len(),
            links == old(scheduler).links@,
            measurements_fit(links, bandwidths@),
            scheduler.wf(),
            i > 0 ==> scheduler.bulk_is_current(),
            scheduler.config == old(scheduler).config,
            scheduler.cursor == old(scheduler).cursor,
            scheduler.preferred_link == old(scheduler).preferred_link,
            scheduler.is_upload == old(scheduler).is_upload,
            (scheduler.links@, scheduler.last_adjustment) == measured_links(
                links,
                old(scheduler).last_adjustment,
                bandwidths@,
                rtts@,
                now_ns,
                i as nat,
            ),
            scheduler.links@.len() == links.len(),
            forall|j: int|
                i <= j < links.len() ==> (#[trigger] scheduler.links@[j]).bytes_delivered == links[j].bytes_delivered,
            aggregator.wf(),
            aggregator.config == old(aggregator).config,
            aggregator.current_chunk == old(aggregator).current_chunk,
            aggregator.next_chunk_id == old(aggregator).next_chunk_id,
            (aggregator.link_stats@, aggregator.optimal_chunk_size) == aggregated(
                *old(aggregator),
                bandwidths@,
                rtts@,
                i as nat,
            ),
        decreases bandwidths.len() - i,
    {
        let bandwidth: u64 = bandwidths[i];
        let rtt: u64 = rtts[i];
        assert(i < links.len() ==> links[i as int].bytes_delivered + bandwidth <= u64::MAX);
        let ghost due = scheduler.due(now_ns);
        let ghost before = scheduler.links@;
        scheduler.update_link(i, bandwidth, rtt, true, now_ns);
        aggregator.update_link_stats(i, bandwidth, millis_of(rtt));
        i = i + 1;
        proof {
            assert(measured_links(
                links,
                old(scheduler).last_adjustment,
                bandwidths@,
                rtts@,
                now_ns,
                i as nat,
            ).0 == scheduler.links@);
            assert forall|j: int| i <= j < links.len() implies (#[trigger] scheduler.links@[j]).bytes_delivered
                == links[j].bytes_delivered by {
                assert(before[j].bytes_delivered == links[j].bytes_delivered);
            }
        }
    }
}

/// Whether [`share_measurements`] can be called.
pub fn can_share_measurements(scheduler: &LinkScheduler, bandwidths: &Vec<u64>) -> (r: bool)
    ensures
        r == measurements_fit(scheduler.links@, bandwidths@),
{
    let mut i: usize = 0;
    while i < bandwidths.len() && i < scheduler.links.len()
        invariant
            i <= bandwidths@.len(),
            i <= scheduler.links@.len(),
            forall|j: int|
                0 <= j < i ==> (#[trigger] scheduler.links@[j]).bytes_delivered + bandwidths@[j] <= u64::MAX,
        decreases bandwidths.len() - i,
    {
        if scheduler.links[i].bytes_delivered > u64::MAX - bandwidths[i] {
            assert(scheduler.links@[i as int].bytes_delivered + bandwidths@[i as int] > u64::MAX);
            return false;
        }
        i = i + 1;
    }
    true
}

// ---------------------------------------------------------------------------
// Rates
// ---------------------------------------------------------------------------

/// The weights of links that were checked for timeouts.
pub open spec fn checked_weights(rates: RateController, now_ns: u64) -> Seq<u32> {
    rates.states@.map_values(|s: RateState| s.timed_out(rates.config, now_ns).weight_of())
}

/// Whether the weights of all links, those of the rate controller among them,
/// add up within the scheduler's integers.
pub open spec fn rates_fit(rates: RateController, scheduler: LinkScheduler, now_ns: u64) -> bool {
    rates.config.enabled ==> total(
        weight_shares(rate_controlled(scheduler.links@, checked_weights(rates, now_ns))),
    ) <= u32::MAX
}

/// Whether [`apply_rates`] can be called.
pub fn can_apply_rates(rates: &RateController, scheduler: &LinkScheduler, now_ns: u64) -> (r: bool)
    ensures
        r == rates_fit(*rates, *scheduler, now_ns),
{
    if !rates.enabled() {
        return true;
    }
    let ghost after = weight_shares(rate_controlled(scheduler.links@, checked_weights(*rates, now_ns)));
    let mut shares: Vec<u64> = Vec::new();
    let mut i: usize = 0;
    while i < scheduler.links.len()
        invariant
            i <= scheduler.links@.len(),
            after == weight_shares(rate_controlled(scheduler.links@, checked_weights(*rates, now_ns))),
            shares@ == after.take(i as int),
        decreases scheduler.links.len() - i,
    {
        let weight: u32 = if i < rates.states.len() {
            let mut link: RateState = rates.states[i];
            link.time_out(&rates.config, now_ns);
            link.weight()
        } else {
            scheduler.links[i].weight
        };
        shares.push(weight as u64);
        i = i + 1;
        assert(shares@ =~= after.take(i as int));
    }
    assert(shares@ =~= after);
    match checked_sum(&shares) {
        Some(sum) => sum <= u32::MAX as u64,
        None => false,
    }
}

/// Check for links that have gone silent, and push the weights of all links to
/// the scheduler.  Without rate control nothing happens.
pub fn apply_rates(rates: &mut RateController, scheduler: &mut LinkScheduler, now_ns: u64)
    requires
        old(rates).wf(),
        old(scheduler).wf(),
        rates_fit(*old(rates), *old(scheduler), now_ns),
    ensures
        final(rates).wf(),
        final(rates).config == old(rates).config,
        final(scheduler).wf(),
        old(rates).config.enabled ==> final(rates).states@ == old(rates).states@.map_values(
            |s: RateState| s.timed_out(old(rates).config, now_ns),
        ) && final(scheduler).bulk_is_current() && final(scheduler).links@ == rate_controlled(
            old(scheduler).links@,
            checked_weights(*old(rates), now_ns),
        ) && final(scheduler).config == old(scheduler).config && final(scheduler).cursor == old(scheduler).cursor
            && final(scheduler).last_adjustment == old(scheduler).last_adjustment && final(scheduler).preferred_link
            == old(scheduler).preferred_link && final(scheduler).is_upload == old(scheduler).is_upload,
        !old(rates).config.enabled ==> *final(rates) == *old(rates) && *final(scheduler) == *old(scheduler),
{
    if rates.enabled() {
        rates.check_timeouts(now_ns);
        let weights: Vec<u32> = rates.weights();
        assert(weights@ =~= checked_weights(*old(rates), now_ns));
        scheduler.set_rate_controlled_weights(weights.as_slice());
    }
}

// ---------------------------------------------------------------------------
// Optimizer
// ---------------------------------------------------------------------------

/// The loss ratios of `n` links; zeros without rate control.
pub open spec fn loss_ratios_of(rates: Seq<RateState>, enabled: bool, n: nat) -> Seq<Binary64> {
    Seq::new(
        n,
        |i: int|
            if enabled {
                Binary64::of_nat(
                    if i < rates.len() {
                        rates[i].loss as nat
                    } else {
                        255
                    },
                ).quotient(Binary64::of_nat(255))
            } else {
                Binary64::of_nat(0)
            },
    )
}

/// The loss ratios of `n` links.
pub fn loss_ratios(rates: &RateController, n: usize) -> (r: Vec<Binary64>)
    ensures
        r@ == loss_ratios_of(rates.states@, rates.config.enabled, n as nat),
{
    let ghost all = loss_ratios_of(rates.states@, rates.config.enabled, n as nat);
    let enabled: bool = rates.enabled();
    let mut r: Vec<Binary64> = Vec::new();
    let mut i: usize = 0;
    while i < n
        invariant
            i <= n,
            enabled == rates.config.enabled,
            all == loss_ratios_of(rates.states@, rates.config.enabled, n as nat),
            r@ == all.take(i as int),
        decreases n - i,
    {
        let ratio: Binary64 = if enabled {
            Binary64::from_u64(rates.loss(i) as u64).over(Binary64::from_u64(255))
        } else {
            Binary64::from_u64(0)
        };
        r.push(ratio);
        i = i + 1;
        assert(r@ =~= all.take(i as int));
    }
    assert(r@ =~= all);
    r
}

/// The snapshot that the optimizer goes by.
pub fn optimizer_snapshot(
    stats: &StatsCollector,
    rates: &RateController,
    classifier: &FlowClassifier,
    n: usize,
) -> (r: OptimizerSnapshot)
    ensures
        r@ == (SnapshotView {
            bandwidths: stats.link_views().map_values(|l: LinkStatsView| l.bandwidth_bps),
            losses: loss_ratios_of(rates.states@, rates.config.enabled, n as nat),
            healthy: stats.link_views().map_values(|l: LinkStatsView| l.healthy),
        }),
        r.active_flow_count == classifier.flow_map().dom().len(),
{
    OptimizerSnapshot {
        per_link_bandwidth_bps: stats.bandwidths(),
        per_link_loss_ratio: loss_ratios(rates, n),
        per_link_healthy: stats.health(),
        active_flow_count: classifier.stats().total_flows,
    }
}

/// Let the optimizer perturb, measure, accept or revert, and hand new weight
/// factors to the classifier.
pub fn optimize(
    optimizer: &mut ThroughputOptimizer,
    classifier: &mut FlowClassifier,
    snapshot: &OptimizerSnapshot,
    now_ns: u64,
)
    requires
        old(optimizer)@.wf(),
        old(optimizer)@.accepts(snapshot@),
        old(classifier).wf(),
    ensures
        final(optimizer)@.wf(),
        final(optimizer)@ == old(optimizer)@.ticked(snapshot@, now_ns),
        final(classifier).wf(),
        *final(classifier) == (FlowClassifier {
            weight_factors: final(classifier).weight_factors,
            ..*old(classifier)
        }),
        final(classifier).weight_factors@ == if old(optimizer)@.hands_out(snapshot@, now_ns) {
            final(optimizer)@.factors
        } else {
            old(classifier).weight_factors@
        },
{
    match optimizer.tick(snapshot, now_ns) {
        Some(factors) => classifier.set_weight_factors(factors),
        None => {},
    }
}

// ---------------------------------------------------------------------------
// Reordering
// ---------------------------------------------------------------------------

/// Least reorder timeout (ms).
pub const MIN_REORDER_TIMEOUT_MS: u64 = 5;

/// Greatest reorder timeout (ms).
pub const MAX_REORDER_TIMEOUT_MS: u64 = 200;

/// The reorder timeout for a spread of one-way times: one and a half times the
/// spread, within bounds; none where there is no spread.
pub open spec fn timeout_for(spread_ms: u64) -> Option<u64> {
    if spread_ms == 0 {
        None
    } else {
        let wanted = spread_ms * 3 / 2;
        Some(
            if wanted < MIN_REORDER_TIMEOUT_MS {
                MIN_REORDER_TIMEOUT_MS
            } else if wanted > MAX_REORDER_TIMEOUT_MS {
                MAX_REORDER_TIMEOUT_MS
            } else {
                wanted as u64
            },
        )
    }
}

/// The reorder timeout for a spread of one-way times (ms).
pub fn reorder_timeout(spread_ms: u64) -> (r: Option<u64>)
    requires
        spread_ms * 3 <= u64::MAX,
    ensures
        r == timeout_for(spread_ms),
{
    if spread_ms == 0 {
        return None;
    }
    let wanted: u64 = spread_ms * 3 / 2;
    if wanted < MIN_REORDER_TIMEOUT_MS {
        Some(MIN_REORDER_TIMEOUT_MS)
    } else if wanted > MAX_REORDER_TIMEOUT_MS {
        Some(MAX_REORDER_TIMEOUT_MS)
    } else {
        Some(wanted)
    }
}

/// Let the receiver wait for missing chunks as long as the spread of the bulk
/// links asks for.
pub fn adapt_reordering(scheduler: &LinkScheduler, receiver: &mut ChunkReceiver)
    requires
        scheduler.wf(),
        old(receiver).wf(),
    ensures
        final(receiver).wf(),
        match timeout_for(scheduler.spread_ms()) {
            Some(ms) => final(receiver).announcement_link == old(receiver).announcement_link && final(receiver).buffer
                == (ReassemblyBuffer {
                config: (ReceiverConfig { reorder_timeout_ms: ms, ..old(receiver).buffer.config }),
                ..old(receiver).buffer
            }),
            None => *final(receiver) == *old(receiver),
        },
{
    let spread: u64 = scheduler.bulk_rtt_spread_ms();
    match reorder_timeout(spread) {
        Some(ms) => receiver.set_reorder_timeout_ms(ms),
        None => {},
    }
}

// ---------------------------------------------------------------------------
// Laws
// ---------------------------------------------------------------------------

/// Every chunk that arrives is acknowledged under its own number and on the
/// link it came over, and handed on with its payload as it is.
pub proof fn law_every_chunk_is_acknowledged(p: ChunkView, link_id: u8, now_us: u64, now_ns: u64)
    ensures
        answer(PacketView::Data(p), link_id, now_us, now_ns) matches ReceivedView::Chunk(ack, chunk) && ack.chunk_id
            == p.chunk_id && ack.link_id == link_id && chunk.id == p.chunk_id && chunk.data == p.payload,
{
}

/// The reorder timeout grows with the spread of the links, and stays within
/// its bounds.
pub proof fn law_reorder_timeout_is_bounded(a: u64, b: u64)
    requires
        0 < a <= b,
    ensures
        timeout_for(a) is Some,
        timeout_for(b) is Some,
        MIN_REORDER_TIMEOUT_MS <= timeout_for(a)->0 <= timeout_for(b)->0 <= MAX_REORDER_TIMEOUT_MS,
{
}

/// Folding traffic in adds what was sent and received, and touches nothing
/// else of a link.
pub proof fn law_traffic_is_added_up(s: RateState, delta: (u64, u64))
    requires
        s.total_tx_bytes + delta.0 <= u64::MAX,
        s.total_rx_bytes + delta.1 <= u64::MAX,
    ensures
        folded(s, delta).total_tx_bytes == s.total_tx_bytes + delta.0,
        folded(s, delta).total_rx_bytes == s.total_rx_bytes + delta.1,
        folded(s, delta).tx_rate == s.tx_rate,
        folded(s, delta).state == s.state,
{
}

/// An acknowledgement measures the time since the probe it echoes, where it
/// echoes one from before; announcements and probes are handed on as they are.
pub proof fn law_acknowledgements_measure_time(a: AckPacket, link_id: u8, now_us: u64, now_ns: u64)
    ensures
        0 < a.echo_timestamp_us < now_us ==> (answer(PacketView::Ack(a), link_id, now_us, now_ns) matches ReceivedView::Rtt(
            rtt,
        ) && rtt + a.echo_timestamp_us == now_us),
        a.echo_timestamp_us == 0 || a.echo_timestamp_us >= now_us ==> answer(
            PacketView::Ack(a),
            link_id,
            now_us,
            now_ns,
        ) is Ignored,
{
}

/// A chunk's acknowledgement carries the time it arrived, and echoes none.
pub proof fn law_acknowledgement_carries_the_time(p: ChunkView, link_id: u8, now_us: u64, now_ns: u64)
    ensures
        answer(PacketView::Data(p), link_id, now_us, now_ns) matches ReceivedView::Chunk(ack, chunk)
            && ack.recv_timestamp_us == now_us && ack.echo_timestamp_us == 0 && chunk.created_at == now_ns,
{
}

/// The reorder timeout is one and a half times the spread, no less than five
/// and no more than two hundred milliseconds; without a spread there is none.
pub proof fn law_reorder_timeout_follows_the_spread(spread_ms: u64)
    ensures
        spread_ms == 0 <==> timeout_for(spread_ms) is None,
        0 < spread_ms && 3 * spread_ms < 10 ==> timeout_for(spread_ms) == Some(5u64),
        10 <= 3 * spread_ms <= 400 ==> 2 * timeout_for(spread_ms)->0 <= 3 * spread_ms < 2 * timeout_for(spread_ms)->0 + 2,
        3 * spread_ms > 400 ==> timeout_for(spread_ms) == Some(200u64),
{
}

/// Traffic in a direction counts as one packet more, none as none.
pub proof fn law_traffic_counts_as_a_packet(states: Seq<RateState>, deltas: Seq<(u64, u64)>, i: int)
    requires
        0 <= i < states.len(),
        fold_fits(states, deltas),
    ensures
        all_folded(states, deltas).len() == states.len(),
        i >= deltas.len() ==> all_folded(states, deltas)[i] == states[i],
        i < deltas.len() ==> {
            let before = states[i];
            let after = all_folded(states, deltas)[i];
            &&& after.total_tx_packets - before.total_tx_packets == if deltas[i].0 > 0 {
                1int
            } else {
                0
            }
            &&& after.total_rx_packets - before.total_rx_packets == if deltas[i].1 > 0 {
                1int
            } else {
                0
            }
            &&& after.total_tx_bytes == before.total_tx_bytes + deltas[i].0
            &&& after.total_rx_bytes == before.total_rx_bytes + deltas[i].1
            &&& after.srtt_us == before.srtt_us && after.loss == before.loss && after.state == before.state
        },
{
    if i < deltas.len() {
        assert(link_fits(states[i], deltas[i]));
    }
}

/// With rate control on, the links' times are the controller's; else those
/// measured.
pub proof fn law_whose_times_count(rates: Seq<RateState>, measured: Seq<u64>, i: int)
    requires
        0 <= i < measured.len(),
    ensures
        times_of(rates, false, measured) == measured,
        times_of(rates, true, measured).len() == measured.len(),
        i < rates.len() ==> times_of(rates, true, measured)[i] == rates[i].srtt_us,
        i >= rates.len() ==> times_of(rates, true, measured)[i] == 0,
{
}

/// A loss of 255 parts is all, of none nothing, and of `n` parts `n` of 255;
/// a link that the controller does not know loses all, and without rate control
/// none loses anything.
pub proof fn law_loss_in_parts(rates: Seq<RateState>, n: nat, i: int)
    requires
        0 <= i < n,
    ensures
        i < rates.len() ==> loss_ratios_of(rates, true, n)[i] == Binary64::fraction(rates[i].loss as nat, 255),
        i >= rates.len() || rates[i].loss == 255 ==> loss_ratios_of(rates, true, n)[i] == Binary64::of_nat(1),
        i < rates.len() && rates[i].loss == 0 ==> loss_ratios_of(rates, true, n)[i] == Binary64::of_nat(0),
        loss_ratios_of(rates, false, n)[i] == Binary64::of_nat(0),
        loss_ratios_of(rates, true, n).len() == n,
{
    crate::accuracy::lemma_same_fraction(255, 255, 1, 1);
    crate::accuracy::lemma_same_fraction(0, 255, 0, 1);
    crate::binary64::lemma_whole_fraction(1);
    crate::binary64::lemma_whole_fraction(0);
}

/// Between adjustments each link takes its own measurement, once.
pub proof fn law_links_take_their_measurements(
    links: Seq<LinkState>,
    adjusted: u64,
    bandwidths: Seq<u64>,
    rtts: Seq<u64>,
    now_ns: u64,
    n: nat,
    i: int,
)
    requires
        now_ns - adjusted < 1_000_000_000,
        0 <= i < links.len(),
    ensures
        ({
            let (after, at) = measured_links(links, adjusted, bandwidths, rtts, now_ns, n);
            &&& at == adjusted
            &&& after.len() == links.len()
            &&& i < n ==> after[i] == links[i].measured(bandwidths[i], rtts[i], now_ns)
            &&& i >= n ==> after[i] == links[i]
        }),
    decreases n,
{
    if n > 0 {
        law_links_take_their_measurements(links, adjusted, bandwidths, rtts, now_ns, (n - 1) as nat, i);
    }
}

/// An adjustment that is due puts every link back to its configured weight, and
/// each still takes its own measurement.
pub proof fn law_due_adjustment_restores_all(
    links: Seq<LinkState>,
    adjusted: u64,
    bandwidths: Seq<u64>,
    rtts: Seq<u64>,
    now_ns: u64,
    n: nat,
    i: int,
)
    requires
        now_ns - adjusted >= 1_000_000_000,
        n > 0,
        0 <= i < links.len(),
    ensures
        ({
            let (after, at) = measured_links(links, adjusted, bandwidths, rtts, now_ns, n);
            &&& at == now_ns
            &&& after.len() == links.len()
            &&& after[i].weight == crate::link_scheduler::weight_of(links[i].configured_bandwidth_bps)
            &&& after[i].configured_bandwidth_bps == links[i].configured_bandwidth_bps
            &&& after[i].health == crate::link_scheduler::LinkHealth::Normal
            &&& i < n ==> after[i].rtt_us == links[i].measured(bandwidths[i], rtts[i], now_ns).rtt_us
                && after[i].measured_bandwidth_bps == links[i].measured(
                bandwidths[i],
                rtts[i],
                now_ns,
            ).measured_bandwidth_bps
            &&& i >= n ==> after[i].rtt_us == links[i].rtt_us && after[i].measured_bandwidth_bps
                == links[i].measured_bandwidth_bps
        }),
    decreases n,
{
    if n > 1 {
        law_due_adjustment_restores_all(links, adjusted, bandwidths, rtts, now_ns, (n - 1) as nat, i);
    } else {
        reveal_with_fuel(measured_links, 2);
    }
}

/// The aggregator learns each link's bandwidth and its time in milliseconds.
pub proof fn law_aggregator_learns_the_links(
    aggregator: ChunkAggregator,
    bandwidths: Seq<u64>,
    rtts: Seq<u64>,
    n: nat,
    i: int,
)
    requires
        0 <= i < aggregator.link_stats@.len(),
        i < n,
        rtts[i] / 1000 <= u32::MAX,
    ensures
        ({
            let stats = aggregated(aggregator, bandwidths, rtts, n).0;
            &&& stats.len() == aggregator.link_stats@.len()
            &&& stats[i].0 == bandwidths[i]
            &&& stats[i].1 * 1000 <= rtts[i] < (stats[i].1 + 1) * 1000
        }),
    decreases n,
{
    lemma_aggregated_len(aggregator, bandwidths, rtts, (n - 1) as nat);
    if i < n - 1 {
        law_aggregator_learns_the_links(aggregator, bandwidths, rtts, (n - 1) as nat, i);
    }
}

proof fn lemma_aggregated_len(aggregator: ChunkAggregator, bandwidths: Seq<u64>, rtts: Seq<u64>, n: nat)
    ensures
        aggregated(aggregator, bandwidths, rtts, n).0.len() == aggregator.link_stats@.len(),
    decreases n,
{
    if n > 0 {
        lemma_aggregated_len(aggregator, bandwidths, rtts, (n - 1) as nat);
    }
}

/// A link not heard of for the timeout gets no weight; one in service that was
/// heard of weighs its rate in Mbps, at least one.
pub proof fn law_weights_of_the_heard(rates: RateController, now_ns: u64, i: int)
    requires
        0 <= i < rates.states@.len(),
        rates.states@[i].tx_rate < 0x1_0000_0000 * 125_000,
    ensures
        ({
            let s = rates.states@[i];
            let weight = checked_weights(rates, now_ns)[i];
            let silent = now_ns - s.last_probe_recv > rates.config.down_timeout_ms * 1_000_000;
            let serves = s.state == crate::protocol::PathState::Running || s.state == crate::protocol::PathState::Lossy;
            &&& checked_weights(rates, now_ns).len() == rates.states@.len()
            &&& silent || !serves ==> weight == 0
            &&& !silent && serves && s.tx_rate >= 125_000 ==> weight * 125_000 <= s.tx_rate < (weight + 1) * 125_000
            &&& !silent && serves && s.tx_rate < 125_000 ==> weight == 1
        }),
{
}

} // verus!
