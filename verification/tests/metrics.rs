use chainlightning::binary64::Binary64;
use chainlightning::metrics::{calculate_jitter, calculate_percentiles, Metrics, MetricsCollector};

const SECOND: u64 = 1_000_000_000;

fn b(x: f64) -> Binary64 {
    Binary64 { bits: x.to_bits() }
}

fn f(x: Binary64) -> f64 {
    f64::from_bits(x.bits)
}

#[test]
fn test_metrics_collector() {
    let mut collector = MetricsCollector::with_history(100, 0);

    collector.record_bytes_down(1000);
    collector.record_bytes_up(500);
    collector.record_packet_sent(0);
    collector.record_packet_received();
    collector.record_latency_us(10000);

    let metrics = collector.snapshot(SECOND, b(0.0), 0);

    assert!(f(metrics.throughput_down) > 0.0);
    assert!(f(metrics.throughput_up) > 0.0);
    assert!(metrics.packets_sent == 1);
    assert!(metrics.packets_received == 1);
}

#[test]
fn test_percentiles() {
    let samples: Vec<u64> = (1..=100).map(|i| i * 1000).collect();
    let (avg, min, max, p50, p95, _p99) = calculate_percentiles(&samples);

    assert!((f(avg) - 50.5).abs() < 0.1);
    assert!((f(min) - 1.0).abs() < 0.01);
    assert!((f(max) - 100.0).abs() < 0.01);
    assert!((f(p50) - 50.0).abs() < 1.0);
    assert!((f(p95) - 95.0).abs() < 1.0);
}

// ---------------------------------------------------------------------------

#[test]
fn percentiles_do_not_depend_on_the_order() {
    let mut samples: Vec<u64> = (1..=100).map(|i| i * 1000).collect();
    samples.reverse();
    let (avg, min, max, p50, p95, p99) = calculate_percentiles(&samples);
    assert_eq!(
        [f(avg), f(min), f(max), f(p50), f(p95), f(p99)],
        [50.5, 1.0, 100.0, 50.0, 95.0, 99.0]
    );
    assert_eq!(calculate_percentiles(&vec![]).0, b(0.0));
    let (avg, min, max, _, _, p99) = calculate_percentiles(&vec![1500]);
    assert_eq!([f(avg), f(min), f(max), f(p99)], [1.5; 4]);
}

#[test]
fn jitter_is_the_mean_step() {
    assert_eq!(f(calculate_jitter(&vec![])), 0.0);
    assert_eq!(f(calculate_jitter(&vec![5])), 0.0);
    assert_eq!(f(calculate_jitter(&vec![1000, 3000, 2000])), 1.5);
}

#[test]
fn snapshot_of_a_window() {
    let mut c = MetricsCollector::new(0);
    c.record_packet_tx(700);
    c.record_packet_rx(100);
    c.record_chunk_tx(300);
    c.record_chunk_rx(900);
    c.record_chunk_sent();
    c.record_chunk_received();
    c.record_chunk_reordered();
    c.record_gap();
    c.record_packet_lost();
    c.record_packet_sent(2);
    c.record_packet_sent(2);
    c.record_packet_sent(99);
    c.record_packet_acked(2);
    c.record_link_bytes_up(2, 4000);
    c.record_link_bytes_down(2, 8000);
    c.record_link_rtt_us(2, 1000);
    c.record_link_rtt_us(2, 3000);
    c.record_latency_us(9000);
    c.record_latency_us(1000);
    c.record_flow_counts(5, 3, 2);
    assert!(c.can_snapshot());
    let m = c.snapshot_at(2 * SECOND, 77, b(12.5), 4096);
    assert_eq!(m.timestamp, 77);
    assert_eq!((m.bytes_sent, m.bytes_received), (1000, 1000));
    assert_eq!((f(m.throughput_up), f(m.throughput_up_mbps)), (500.0, 0.004));
    assert_eq!((m.packets_sent, m.packets_received, m.packets_lost), (4, 1, 1));
    assert_eq!(f(m.loss_ratio), 0.25);
    assert_eq!((m.chunks_sent, m.chunks_received, m.chunks_reordered, m.gaps_detected), (2, 2, 1, 1));
    assert_eq!((f(m.reorder_ratio), f(m.gap_ratio)), (0.5, 0.5));
    assert_eq!((f(m.latency_min_ms), f(m.latency_avg_ms), f(m.latency_max_ms)), (1.0, 5.0, 9.0));
    assert_eq!((m.latency_p50_us, m.latency_p99_us), (9000, 9000));
    assert_eq!((f(m.cpu_usage_percent), m.memory_usage_bytes), (12.5, 4096));
    assert_eq!((m.active_flows, m.single_link_flows, m.multi_link_flows), (5, 3, 2));
    let l = &m.links[2];
    assert_eq!((l.link_id, l.packets_sent, l.packets_acked, l.is_active), (2, 2, 1, true));
    assert_eq!((f(l.throughput_up), f(l.throughput_down), f(l.bandwidth_estimate)), (2000.0, 4000.0, 2000.0));
    assert_eq!((f(l.rtt_avg_ms), f(l.rtt_min_ms), f(l.rtt_max_ms), f(l.jitter_ms)), (2.0, 1.0, 3.0, 2.0));
    assert_eq!(f(l.loss_ratio), 0.5);
    assert!(!m.links[0].is_active);
    // The next window starts empty.
    let next = c.snapshot_at(3 * SECOND, 78, b(0.0), 0);
    assert_eq!((next.bytes_sent, next.packets_sent, next.latency_p50_us), (0, 0, 0));
    assert_eq!(c.history().len(), 2);
    assert_eq!(c.history()[0].timestamp, 77);
    c.clear_history();
    assert!(c.history().is_empty());
}

#[test]
fn latencies_are_ranked_not_queued() {
    let mut c = MetricsCollector::new(0);
    c.record_latency_us(30_000);
    c.record_latency_us(10_000);
    c.record_latency_us(20_000);
    let m = c.snapshot_at(SECOND, 0, b(0.0), 0);
    assert_eq!((m.latency_p50_us, m.latency_p99_us), (20_000, 30_000));
    assert_eq!((f(m.latency_min_ms), f(m.latency_p50_ms), f(m.latency_max_ms)), (10.0, 20.0, 30.0));
}

#[test]
fn very_short_windows_count_as_a_millisecond() {
    let mut c = MetricsCollector::new(0);
    c.record_bytes_down(10);
    let m = c.snapshot_at(10, 0, b(0.0), 0);
    assert_eq!(f(m.throughput_down), 10.0 / 0.001);
}

#[test]
fn history_is_bounded() {
    let mut c = MetricsCollector::with_history(3, 0);
    for i in 0..5 {
        c.snapshot_at(i * SECOND, i as i64, b(0.0), 0);
    }
    let stamps: Vec<i64> = c.history().iter().map(|m| m.timestamp).collect();
    assert_eq!(stamps, vec![2, 3, 4]);
}

#[test]
fn summary_of_a_history() {
    let mut c = MetricsCollector::new(0);
    assert_eq!(c.summarize().sample_count, 0);
    c.record_bytes_down(1_000_000);
    c.record_latency_us(4000);
    c.snapshot_at(SECOND, 0, b(10.0), 0);
    c.record_bytes_down(3_000_000);
    c.record_latency_us(8000);
    c.snapshot_at(2 * SECOND, 0, b(30.0), 0);
    let s = c.summarize();
    assert_eq!(s.sample_count, 2);
    assert_eq!((f(s.avg_throughput_down_mbps), f(s.max_throughput_down_mbps)), (16.0, 24.0));
    assert_eq!((f(s.avg_latency_ms), f(s.max_latency_ms)), (6.0, 8.0));
    assert_eq!((f(s.avg_cpu_percent), f(s.avg_loss_ratio)), (20.0, 0.0));
}

#[test]
fn samples_that_cannot_be_subtracted_are_noticed() {
    let mut c = MetricsCollector::new(0);
    c.record_link_rtt_us(0, 0);
    c.record_link_rtt_us(0, 1 << 63);
    assert!(!c.can_snapshot());
}

#[test]
fn idle_metrics_have_all_links() {
    let m = Metrics::default();
    assert_eq!(m.links.len(), 5);
    assert_eq!(m.links[4].link_id, 4);
    assert!(m.timestamp > 1_600_000_000_000_000_000);
    assert_eq!(m.packets_sent, 0);
}

#[test]
fn every_snapshot_shows_its_own_window() {
    let mut c = MetricsCollector::with_history(2, 0);
    let mut shown = Vec::new();
    for k in 1..=4u64 {
        for _ in 0..k {
            c.record_packet_tx(100);
            c.record_packet_sent(1);
            c.record_chunk_rx(7);
            c.record_gap();
        }
        let m = c.snapshot_at(k * SECOND, k as i64, b(0.0), 0);
        assert_eq!((m.bytes_sent, m.bytes_received, m.packets_sent), (100 * k, 7 * k, 2 * k));
        assert_eq!((m.chunks_received, m.gaps_detected, m.links[1].packets_sent), (k, k, k));
        shown.push(m.packets_sent);
    }
    let kept: Vec<u64> = c.history().iter().map(|m| m.packets_sent).collect();
    assert_eq!(kept, shown[2..].to_vec());
    let empty = c.snapshot_at(5 * SECOND, 5, b(0.0), 0);
    assert_eq!((empty.bytes_sent, empty.packets_sent, empty.links[1].packets_sent), (0, 0, 0));
}
