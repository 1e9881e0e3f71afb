use chainlightning::binary64::Binary64;
use chainlightning::chunk_aggregator::{Chunk, ChunkAggregator};
use chainlightning::client::{
    ack_rtt, adapt_reordering, apply_rates, can_apply_rates, can_fold_traffic, can_share_measurements, chunk_mode,
    fold_traffic, link_rtts, loss_ratios, optimize, optimizer_snapshot, outgoing, receive, reorder_timeout, share_measurements,
    Received,
};
use chainlightning::config::{Config, OptimizerConfig, RateControlConfig};
use chainlightning::flow_classifier::{FlowClassifier, FlowMode};
use chainlightning::link_scheduler::LinkScheduler;
use chainlightning::optimizer::ThroughputOptimizer;
use chainlightning::protocol::{
    AckPacket, AnnouncePacket, ChunkId, ChunkPacket, FlowId, KeepalivePacket, Packet, PathState, ProbePacket,
};
use chainlightning::rate_controller::RateController;
use chainlightning::receiver::ChunkReceiver;
use chainlightning::stats::StatsCollector;
use chainlightning::usage::{resident_bytes, resident_kb};
use chainlightning::{links, LinkType};

const SECOND: u64 = 1_000_000_000;

fn f(x: Binary64) -> f64 {
    f64::from_bits(x.bits)
}

fn scheduler() -> LinkScheduler {
    LinkScheduler::new(Config::default().link_scheduler, &vec![7_500_000, 27_500_000], true, 0)
}

fn classifier() -> FlowClassifier {
    let c = Config::default();
    FlowClassifier::new(c.flow_classifier, c.realtime, c.link_scheduler.link_tiers, vec![7_500_000, 27_500_000])
}

#[test]
fn chunks_are_acknowledged_and_handed_on() {
    let packet = Packet::Data(ChunkPacket {
        chunk_id: ChunkId(7),
        link_id: 9,
        total_size: 3,
        offset: 0,
        payload: vec![0, 1, 42],
    });
    match receive(packet, 2, 1234, 99) {
        Received::Chunk { ack, chunk } => {
            assert_eq!(
                ack,
                AckPacket { chunk_id: ChunkId(7), link_id: 2, echo_timestamp_us: 0, recv_timestamp_us: 1234 }
            );
            assert_eq!((chunk.id, chunk.created_at), (ChunkId(7), 99));
            assert_eq!(chunk.extract_packets(), vec![vec![42u8]]);
        }
        other => panic!("{:?}", other),
    }
}

#[test]
fn other_packets_go_where_they_belong() {
    let ann = AnnouncePacket { chunk_id: ChunkId(1), link_id: 0, expected_size: 2, timestamp_us: 3 };
    assert!(matches!(receive(Packet::Announce(ann), 0, 0, 0), Received::Announcement(a) if a == ann));
    let ack = |echo| {
        Packet::Ack(AckPacket { chunk_id: ChunkId(1), link_id: 0, echo_timestamp_us: echo, recv_timestamp_us: 0 })
    };
    assert!(matches!(receive(ack(100), 0, 350, 0), Received::Rtt(250)));
    assert!(matches!(receive(ack(0), 0, 350, 0), Received::Ignored));
    assert!(matches!(receive(ack(350), 0, 350, 0), Received::Ignored));
    let keepalive = Packet::Keepalive(KeepalivePacket { link_id: 0, timestamp_us: 0 });
    assert!(matches!(receive(keepalive, 0, 0, 0), Received::Ignored));
    let probe = ProbePacket {
        link_id: 1,
        seq: 2,
        timestamp_us: 3,
        echo_timestamp_us: 4,
        tx_bytes: 5,
        tx_packets: 6,
        rx_bytes: 7,
        rx_packets: 8,
        loss_ratio: 9,
        path_state: PathState::Probing,
    };
    assert!(matches!(receive(Packet::Probe(probe), 0, 0, 0), Received::Probe(p) if p == probe));
    assert_eq!(ack_rtt(5, 9), Some(4));
}

#[test]
fn a_chunk_crosses_the_wire() {
    let mut chunk = Chunk::new(ChunkId(3), 0);
    chunk.add_packet(&[1, 2, 3]);
    let encoded = outgoing(chunk, 4).encode();
    match receive(Packet::decode(&encoded, |_| None).unwrap(), 4, 0, 0) {
        Received::Chunk { ack, chunk } => {
            assert_eq!(ack.chunk_id, ChunkId(3));
            assert_eq!(chunk.extract_packets(), vec![vec![1u8, 2, 3]]);
        }
        other => panic!("{:?}", other),
    }
}

#[test]
fn chunks_of_unknown_flows_go_everywhere() {
    let mut c = classifier();
    assert_eq!(chunk_mode(&c, None), FlowMode::Bulk);
    assert_eq!(chunk_mode(&c, Some(FlowId(5))), FlowMode::Bulk);
    let mut packet = vec![0u8; 40];
    packet[0] = 0x45;
    packet[9] = 6;
    packet[22..24].copy_from_slice(&[0, 22]);
    let mode = c.classify(&packet, 0);
    assert_eq!(chunk_mode(&c, FlowId::from_packet(&packet)), mode);
    assert!(matches!(mode, FlowMode::Realtime { .. }));
}

#[test]
fn traffic_is_folded_in() {
    let mut rc = RateController::new(RateControlConfig::default(), &[7_500_000, 27_500_000], 0);
    let deltas = vec![(1000, 0), (0, 50), (9, 9)];
    assert!(can_fold_traffic(&rc, &deltas));
    fold_traffic(&mut rc, &deltas);
    assert_eq!((rc.states[0].total_tx_bytes, rc.states[0].total_tx_packets), (1000, 1));
    assert_eq!((rc.states[0].total_rx_bytes, rc.states[0].total_rx_packets), (0, 0));
    assert_eq!((rc.states[1].total_rx_bytes, rc.states[1].total_rx_packets), (50, 1));
    rc.states[1].total_tx_bytes = u64::MAX;
    assert!(can_fold_traffic(&rc, &vec![(1, 1), (0, 1)]));
    assert!(!can_fold_traffic(&rc, &vec![(1, 1), (1, 1)]));
}

#[test]
fn probes_outrank_acknowledgements() {
    let mut config = RateControlConfig::default();
    let mut rc = RateController::new(config, &[7_500_000], 0);
    rc.states[0].srtt_us = 777;
    assert_eq!(link_rtts(&rc, &vec![5, 6]), vec![777, 0]);
    config.enabled = false;
    let rc = RateController::new(config, &[7_500_000], 0);
    assert_eq!(link_rtts(&rc, &vec![5, 6]), vec![5, 6]);
}

#[test]
fn measurements_reach_scheduler_and_aggregator() {
    let mut s = scheduler();
    let mut a = ChunkAggregator::new(Config::default().chunk_aggregator, 2, 0);
    let bandwidths = vec![1_000_000, 2_000_000];
    assert!(can_share_measurements(&s, &bandwidths));
    share_measurements(&mut s, &mut a, &bandwidths, &vec![20_000, 40_000], 1);
    assert_eq!(a.link_stats, vec![(1_000_000, 20), (2_000_000, 40)]);
    assert_eq!(a.optimal_chunk_size(), 1400);
    assert_eq!((s.links[0].rtt_us, s.links[1].rtt_us), (20_000, 40_000));
    assert_eq!(s.weights(), vec![60, 220]);
    s.links[1].bytes_delivered = u64::MAX;
    assert!(!can_share_measurements(&s, &bandwidths));
}

#[test]
fn rates_become_weights() {
    let mut rc = RateController::new(RateControlConfig::default(), &[7_500_000, 27_500_000], 0);
    let mut s = scheduler();
    rc.states[0].state = PathState::Down;
    apply_rates(&mut rc, &mut s, 1);
    assert_eq!(s.weights(), vec![0, 220]);
    let mut config = RateControlConfig::default();
    config.enabled = false;
    let mut rc = RateController::new(config, &[7_500_000, 27_500_000], 0);
    rc.states[1].state = PathState::Down;
    apply_rates(&mut rc, &mut s, 2);
    assert_eq!(s.weights(), vec![0, 220]);
}

#[test]
fn weights_that_do_not_fit_are_noticed() {
    let mut rc = RateController::new(RateControlConfig::default(), &[7_500_000, 27_500_000], 0);
    let s = scheduler();
    assert!(can_apply_rates(&rc, &s, 1));
    rc.states[0].tx_rate = 125_000 * 0xffff_ffff;
    assert!(!can_apply_rates(&rc, &s, 1));
    // A link that has gone silent weighs nothing
    assert!(can_apply_rates(&rc, &s, 3600 * SECOND));
    rc.config.enabled = false;
    assert!(can_apply_rates(&rc, &s, 1));
}

#[test]
fn traffic_that_does_not_fit_is_noticed() {
    let mut rc = RateController::new(RateControlConfig::default(), &[7_500_000], 0);
    rc.states[0].total_tx_bytes = u64::MAX - 5;
    rc.states[0].total_rx_packets = u64::MAX;
    assert!(can_fold_traffic(&rc, &vec![(5, 0), (9, 9)]));
    assert!(!can_fold_traffic(&rc, &vec![(6, 0)]));
    assert!(!can_fold_traffic(&rc, &vec![(0, 1)]));
}

#[test]
fn the_optimizer_steers_the_classifier() {
    let b = |x: f64| Binary64 { bits: x.to_bits() };
    let config = OptimizerConfig {
        enabled: true,
        measurement_window_secs: 1,
        step_size: b(0.10),
        min_improvement: b(0.05),
        max_weight_factor: b(2.0),
        min_weight_factor: b(0.5),
        cooldown_secs: 1,
        history_window_size: 60,
        min_active_throughput: 100_000,
        step_growth_factor: b(1.2),
        step_shrink_factor: b(0.7),
        min_step_size: b(0.02),
        max_step_size: b(0.30),
    };
    let mut rc = RateController::new(RateControlConfig::default(), &[7_500_000, 27_500_000], 0);
    rc.states[0].loss = 51;
    let mut c = classifier();
    let mut stats = StatsCollector::new(2, b(0.2), 1000, 0);
    let mut optimizer = ThroughputOptimizer::new(config, 2, 0);
    let losses: Vec<f64> = loss_ratios(&rc, 3).into_iter().map(f).collect();
    assert_eq!(losses, vec![0.2, 0.0, 1.0]);
    for i in 1..3 {
        stats.atomic.record_tx(0, 1_000_000);
        stats.tick(i * SECOND);
        let snapshot = optimizer_snapshot(&stats, &rc, &c, 2);
        assert_eq!(snapshot.per_link_bandwidth_bps, vec![1_000_000, 0]);
        assert_eq!(snapshot.per_link_healthy, vec![true, true]);
        assert!(optimizer.can_tick(&snapshot));
        optimize(&mut optimizer, &mut c, &snapshot, i * SECOND);
    }
    assert!(optimizer.current_experiment.is_some());
    assert_eq!(c.weight_factors(), optimizer.weight_factors());
    assert!(c.weight_factors().iter().any(|&x| f(x) != 1.0));
}

#[test]
fn reordering_adapts_to_the_spread() {
    assert_eq!(reorder_timeout(0), None);
    assert_eq!(reorder_timeout(1), Some(5));
    assert_eq!(reorder_timeout(20), Some(30));
    assert_eq!(reorder_timeout(1000), Some(200));
    let mut s = scheduler();
    let mut r = ChunkReceiver::new(Config::default().receiver);
    adapt_reordering(&s, &mut r);
    assert_eq!(r.buffer.config.reorder_timeout_ms, 25);
    s.update_link(0, 0, 20_000, true, 1);
    s.update_link(1, 0, 60_000, true, 1);
    let spread = s.bulk_rtt_spread_ms();
    adapt_reordering(&s, &mut r);
    assert_eq!(Some(r.buffer.config.reorder_timeout_ms), reorder_timeout(spread).or(Some(25)));
}

#[test]
fn example_links() {
    let l = links();
    let ports: Vec<u16> = l.iter().map(|x| x.port).collect();
    assert_eq!(ports, vec![50001, 50002, 50003, 50004, 50005]);
    assert_eq!(l[3].link_type, LinkType::Starlink);
    assert_eq!((l[4].interface, l[4].client_bind_ip), ("eth4", "10.0.4.1"));
    assert_eq!((l[0].expected_bandwidth_up, l[1].expected_bandwidth_down), (1_375_000, 27_500_000));
}

#[test]
fn memory_from_the_status_file() {
    let status = "Name:\tclient\nVmPeak:\t   99 kB\nVmRSS:\t    1234 kB\nVmRSS:\t 1 kB\n";
    assert_eq!(resident_kb(status), Some(1234));
    assert_eq!(resident_bytes(Some(1234)), 1_263_616);
    assert_eq!(resident_bytes(None), 0);
    assert_eq!(resident_kb(""), None);
    assert_eq!(resident_kb("Name:\tx"), None);
    assert_eq!(resident_kb("VmRSS:1234 kB"), None);
    assert_eq!(resident_kb("VmRSS:"), None);
    assert_eq!(resident_kb("VmRSS: +7"), Some(7));
    assert_eq!(resident_kb("VmRSS: +"), None);
    assert_eq!(resident_kb("VmRSS: -7"), None);
    assert_eq!(resident_kb("x\nVmRSS:\u{3000}18446744073709551615\r\n"), Some(u64::MAX));
    assert_eq!(resident_kb("VmRSS: 18446744073709551616"), None);
}
