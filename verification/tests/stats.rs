use chainlightning::binary64::Binary64;
use chainlightning::stats::{AtomicCounters, LinkStats, StatsCollector};

const SECOND: u64 = 1_000_000_000;

fn b(x: f64) -> Binary64 {
    Binary64 { bits: x.to_bits() }
}

#[test]
fn test_rtt_ewma() {
    let mut stats = LinkStats::new(0, 0);

    // First sample sets the value
    stats.record_rtt(100_000, b(0.2));
    assert_eq!(stats.smoothed_rtt_us, 100_000);

    // Subsequent samples are smoothed
    stats.record_rtt(200_000, b(0.2));
    // 0.8 * 100_000 + 0.2 * 200_000 = 120_000
    assert_eq!(stats.smoothed_rtt_us, 120_000);
}

#[test]
fn test_stats_collector() {
    let mut collector = StatsCollector::new(5, b(0.2), 100, 0);

    collector.record_tx(0, 1000, 0);
    collector.record_tx(1, 2000, 0);
    collector.record_rtt(0, 20_000);
    collector.record_rtt(1, 40_000);

    // Check RTT was recorded
    assert_eq!(collector.links[0].smoothed_rtt_us, 20_000);
    assert_eq!(collector.links[1].smoothed_rtt_us, 40_000);
}

// ---------------------------------------------------------------------------

#[test]
fn counters_wrap_and_drain() {
    let mut c = AtomicCounters::new(2);
    c.record_tx(0, 100);
    c.record_tx(0, 50);
    c.record_rx(1, 7);
    c.record_tx(9, 1);
    assert_eq!(c.drain_tx(0), (150, 2));
    assert_eq!(c.drain_tx(0), (0, 0));
    assert_eq!(c.drain_rx(1), (7, 1));
    c.tx_bytes[0] = u64::MAX;
    c.record_tx(0, 3);
    assert_eq!(c.drain_tx(0), (2, 1));
}

#[test]
fn tick_folds_the_counters_in() {
    let mut s = StatsCollector::standard(0);
    assert_eq!(s.links.len(), 5);
    s.atomic.record_tx(0, 1_250_000);
    s.atomic.record_rx(0, 10);
    s.atomic.record_tx(4, 500);
    assert!(s.can_tick());
    let deltas = s.tick(SECOND);
    assert_eq!(deltas, vec![(1_250_000, 10), (0, 0), (0, 0), (0, 0), (500, 0)]);
    assert_eq!(s.bandwidths(), vec![1_250_000, 0, 0, 0, 500]);
    assert_eq!(s.total_bandwidth(), 1_250_500);
    assert_eq!(s.links[0].pending_bytes, 1_250_000);
    assert_eq!(s.links[0].last_activity, SECOND);
    assert_eq!(s.links[1].last_activity, 0);
    assert_eq!(s.tick(SECOND + 1), vec![(0, 0); 5]);
    s.record_ack(0, 2_000_000);
    assert_eq!(s.links[0].pending_bytes, 0);
}

#[test]
fn ticks_that_would_overflow_are_noticed() {
    let mut s = StatsCollector::standard(0);
    s.links[2].tx_bytes = u64::MAX;
    s.atomic.record_tx(2, 1);
    assert!(!s.can_tick());
}

#[test]
fn health_is_about_loss_and_delay() {
    let mut s = StatsCollector::standard(0);
    s.links[0].loss_ratio = b(0.51);
    s.record_rtt(1, 500_001);
    s.record_rtt(2, 500_000);
    s.tick(SECOND);
    assert_eq!(s.health(), vec![false, false, true, true, true]);
    assert_eq!(s.rtts(), vec![0, 500_001, 500_000, 0, 0]);
}

#[test]
fn samples_are_bounded() {
    let mut l = LinkStats::new(3, 0);
    for i in 0..250 {
        l.record_rtt(i, b(0.5));
    }
    assert_eq!(l.rtt_samples.len(), 100);
    assert_eq!(l.rtt_samples.back(), Some(&249));
    assert_eq!(l.rtt_samples.front(), Some(&150));
}

#[test]
fn summary_in_one_line() {
    let mut s = StatsCollector::new(2, b(0.2), 1000, 0);
    s.record_tx(0, 1_250_000, 0);
    s.record_rtt(0, 20_500);
    s.links[1].loss_ratio = b(0.9);
    s.tick(SECOND);
    assert_eq!(s.summary(), "L0[10.0Mbps/20.5ms/OK] L1[0.0Mbps/0.0ms/DOWN]");
}

#[test]
fn the_total_is_of_all_links() {
    let mut s = StatsCollector::new(2, b(0.2), 1000, 0);
    s.links[0].bandwidth_bps = 100;
    s.links[1].bandwidth_bps = 50;
    s.links[1].healthy = false;
    assert_eq!(s.total_bandwidth(), 150);
}

#[test]
fn drains_give_what_was_recorded_since() {
    let mut c = AtomicCounters::new(3);
    let mut since: Vec<u64> = Vec::new();
    for k in 0..50u64 {
        c.record_tx((k % 4) as usize, k as usize);
        c.record_rx(1, 1);
        if k % 4 == 1 {
            since.push(k);
        }
        if k % 7 == 0 {
            c.drain_tx(0);
            c.drain_rx(1);
        }
        if k % 20 == 19 {
            assert_eq!(c.drain_tx(1), (since.iter().sum(), since.len() as u64));
            assert_eq!(c.drain_tx(1), (0, 0));
            since.clear();
        }
    }
    assert_eq!(c.drain_tx(1), (since.iter().sum(), since.len() as u64));
}

#[test]
fn a_standard_collector_has_counted_nothing() {
    let mut s = StatsCollector::standard(0);
    assert_eq!(s.tick(1), vec![(0, 0); 5]);
}
