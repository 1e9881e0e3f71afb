use chainlightning::binary64::Binary64;
use chainlightning::config::RateControlConfig;
use chainlightning::protocol::{PathState, ProbePacket};
use chainlightning::rate_controller::{RateController, RateState};

fn b(x: f64) -> Binary64 {
    Binary64 { bits: x.to_bits() }
}

fn f(x: Binary64) -> f64 {
    f64::from_bits(x.bits)
}

fn test_config() -> RateControlConfig {
    RateControlConfig::default()
}

/// A wall clock and a monotonic clock that move together.
struct Clock {
    us: u64,
    ns: u64,
}

impl Clock {
    fn new() -> Clock {
        Clock { us: 1_700_000_000_000_000, ns: 1_000_000_000 }
    }

    fn sleep_ms(&mut self, ms: u64) {
        self.us += ms * 1000;
        self.ns += ms * 1_000_000;
    }
}

fn process(rc: &mut RateController, probe: &ProbePacket, clock: &Clock) {
    assert!(rc.can_process_probe(probe, 0, clock.us, clock.ns));
    rc.process_probe_at(probe, 0, clock.us, clock.ns);
}

fn quiet_probe(seq: u32, timestamp_us: u64) -> ProbePacket {
    ProbePacket {
        link_id: 0,
        seq,
        timestamp_us,
        echo_timestamp_us: 0,
        tx_bytes: 0,
        tx_packets: 0,
        rx_bytes: 0,
        rx_packets: 0,
        loss_ratio: 0,
        path_state: PathState::Running,
    }
}

#[test]
fn test_initial_state() {
    let rates = vec![7_500_000u64, 27_500_000];
    let rc = RateController::new(test_config(), &rates, 0);

    assert_eq!(rc.rate(0), 7_500_000);
    assert_eq!(rc.rate(1), 27_500_000);

    let weights = rc.weights();
    assert_eq!(weights[0], 60);
    assert_eq!(weights[1], 220);

    assert_eq!(rc.link_state(0), PathState::Running);
    assert_eq!(rc.link_state(1), PathState::Running);
}

#[test]
fn test_min_rate_never_zero() {
    let rates = vec![100_000u64];
    let rc = RateController::new(test_config(), &rates, 0);

    assert!(rc.rate(0) > 0);
    let weights = rc.weights();
    assert!(weights[0] >= 1);
}

#[test]
fn test_rate_change_clamping() {
    let config = test_config();
    let mut state = RateState::new(0, 10_000_000, b(0.10), 0);

    state.apply_rate_change(20_000_000, &config);
    assert!(state.tx_rate <= 11_000_000);
    assert!(state.tx_rate >= 10_000_000);

    state.apply_rate_change(0, &config);
    assert!(state.tx_rate >= state.tx_min_rate);
}

#[test]
fn test_weight_when_down() {
    let rates = vec![7_500_000u64];
    let mut rc = RateController::new(test_config(), &rates, 0);

    rc.states[0].state = PathState::Down;
    assert_eq!(rc.weights()[0], 0);

    rc.states[0].state = PathState::Probing;
    assert_eq!(rc.weights()[0], 0);
}

#[test]
fn test_directional_loss_no_phantom_on_asymmetric_traffic() {
    let mut clock = Clock::new();
    let mut config = test_config();
    config.probe_interval_ms = 20;
    let rates = vec![7_500_000u64];
    let mut rc = RateController::new(config, &rates, clock.ns);

    // Baseline probe to initialize timing
    process(&mut rc, &quiet_probe(0, clock.us - 400_000), &clock);

    clock.sleep_ms(15);

    // Simulate heavy upload: lots of TX, minimal RX
    for _ in 0..100 {
        rc.record_tx(0, 10_000);
    }
    for _ in 0..5 {
        rc.record_rx(0, 51);
    }

    let probe = ProbePacket {
        link_id: 0,
        seq: 1,
        timestamp_us: clock.us - 200_000,
        echo_timestamp_us: 0,
        tx_bytes: 500,
        tx_packets: 5,
        rx_bytes: 900_000,
        rx_packets: 95,
        loss_ratio: 0,
        path_state: PathState::Running,
    };

    process(&mut rc, &probe, &clock);

    assert_ne!(rc.link_state(0), PathState::Down, "Asymmetric traffic should not cause DOWN state");
    assert!(rc.loss(0) < 50, "Loss should be low for asymmetric traffic, got: {}", rc.loss(0));
}

#[test]
fn test_probe_confidence_idle() {
    let rates = vec![7_500_000u64];
    let rc = RateController::new(test_config(), &rates, 0);

    let conf = f(rc.calculate_probe_confidence(0));
    assert!((conf - 1.0).abs() < 0.001, "Idle link should have confidence 1.0");
}

#[test]
fn test_probe_confidence_heavy_traffic() {
    let rates = vec![1_000_000u64];
    let mut rc = RateController::new(test_config(), &rates, 0);

    // Build initial probe to set snapshots
    let _ = rc.build_probes();

    // Send 80% of capacity in one probe interval (200ms)
    for _ in 0..160 {
        rc.record_tx(0, 1000);
    }

    let conf = f(rc.calculate_probe_confidence(0));
    assert!(conf < 0.5, "Heavy traffic should reduce confidence, got: {}", conf);
}

#[test]
fn test_tapa_loss_gating() {
    let mut clock = Clock::new();
    let mut config = test_config();
    config.loss_min_packets = 10;
    config.probe_interval_ms = 20;
    let rates = vec![1_000_000u64];
    let mut rc = RateController::new(config, &rates, clock.ns);

    // Cycle 0: Establish baseline snapshots
    for _ in 0..5 {
        rc.record_tx(0, 100);
    }
    let _ = rc.build_probes();
    let probe0 = ProbePacket {
        link_id: 0,
        seq: 0,
        timestamp_us: clock.us - 200_000,
        echo_timestamp_us: 0,
        tx_bytes: 0,
        tx_packets: 0,
        rx_bytes: 500,
        rx_packets: 5,
        loss_ratio: 0,
        path_state: PathState::Running,
    };
    process(&mut rc, &probe0, &clock);
    assert_eq!(rc.link_state(0), PathState::Running, "Baseline should be Running");

    clock.sleep_ms(15);

    // Cycle 1: Heavy traffic
    let _ = rc.build_probes();
    for _ in 0..200 {
        rc.record_tx(0, 5000);
    }

    let probe1 = ProbePacket {
        link_id: 0,
        seq: 1,
        timestamp_us: clock.us - 200_000,
        echo_timestamp_us: 0,
        tx_bytes: 100,
        tx_packets: 2,
        rx_bytes: 950_000,
        rx_packets: 195,
        loss_ratio: 0,
        path_state: PathState::Running,
    };

    process(&mut rc, &probe1, &clock);

    assert_eq!(
        rc.link_state(0),
        PathState::Running,
        "Heavy traffic with good delivery should stay Running with TAPA gating"
    );
}

#[test]
fn test_cross_link_phantom_detection() {
    let rates = vec![7_500_000u64; 5];
    let mut rc = RateController::new(test_config(), &rates, 0);

    for state in &mut rc.states {
        state.probe_confidence = b(0.2);
        state.loss = 50;
    }

    assert!(
        rc.all_links_phantom_loss(),
        "All links with high loss + low confidence should be detected as phantom"
    );
}

#[test]
fn test_fast_recovery_from_phantom_down() {
    let clock = Clock::new();
    let rates = vec![7_500_000u64];
    let mut rc = RateController::new(test_config(), &rates, clock.ns);

    rc.states[0].state = PathState::Down;
    rc.states[0].entered_down_confidence = b(0.1);
    rc.states[0].recovery_count = 0;

    process(&mut rc, &quiet_probe(1, clock.us - 200_000), &clock);

    assert_eq!(rc.link_state(0), PathState::Probing);
    assert!(
        rc.states[0].recovery_count >= rc.config.probe_recovery_count - 1,
        "Phantom DOWN should fast-track recovery"
    );
    assert!(
        rc.states[0].tx_rate > rc.states[0].tx_min_rate,
        "Phantom recovery should start at 50% max, not min"
    );
}

#[test]
fn test_real_loss_still_detected() {
    let mut clock = Clock::new();
    let mut config = test_config();
    config.loss_min_packets = 50;
    config.probe_interval_ms = 20;
    let rates = vec![7_500_000u64];
    let mut rc = RateController::new(config, &rates, clock.ns);

    for cycle in 0..20 {
        clock.sleep_ms(15);

        for _ in 0..10 {
            rc.record_tx(0, 1000);
        }

        let probe = ProbePacket {
            link_id: 0,
            seq: cycle + 1,
            timestamp_us: clock.us - 200_000,
            echo_timestamp_us: 0,
            tx_bytes: 0,
            tx_packets: 0,
            rx_bytes: 2000,
            rx_packets: 2,
            loss_ratio: 0,
            path_state: PathState::Running,
        };

        process(&mut rc, &probe, &clock);
    }

    assert!(rc.loss(0) > 20, "Real loss on idle link should be detected, got: {}", rc.loss(0));
}

#[test]
fn test_tapa_disabled_behaves_like_original() {
    let mut config = test_config();
    config.tapa_enabled = false;
    config.loss_min_packets = 10;
    let rates = vec![7_500_000u64];
    let rc = RateController::new(config, &rates, 0);

    let conf = f(rc.calculate_probe_confidence(0));
    assert!((conf - 1.0).abs() < 0.001);
}

// ---------------------------------------------------------------------------

#[test]
fn unknown_links_read_as_down() {
    let rc = RateController::new(test_config(), &[7_500_000], 0);
    assert_eq!(rc.num_links(), 1);
    assert_eq!(rc.rate(1), 0);
    assert_eq!(rc.rtt_us(1), 0);
    assert_eq!(rc.loss(1), 255);
    assert_eq!(rc.link_state(1), PathState::Down);
}

#[test]
fn rate_changes_are_capped_at_a_tenth() {
    let config = test_config();
    let mut state = RateState::new(0, 10_000_000, b(0.10), 0);
    state.tx_rate = 5_000_000;
    state.apply_rate_change(9_000_000, &config);
    assert_eq!(state.tx_rate, 5_500_000);
    state.apply_rate_change(1_000_000, &config);
    assert_eq!(state.tx_rate, 4_950_000);
    // Small rates can still move by 100 Kbps.
    state.tx_min_rate = 12_500;
    state.tx_rate = 20_000;
    state.apply_rate_change(1_000_000, &config);
    assert_eq!(state.tx_rate, 32_500);
}

#[test]
fn silent_link_goes_down_after_its_timeout() {
    let mut rc = RateController::new(test_config(), &[7_500_000, 7_500_000], 0);
    let clock = Clock::new();
    process(&mut rc, &quiet_probe(0, clock.us), &clock);
    rc.check_timeouts(clock.ns + 4_999_000_000);
    assert_eq!(rc.link_state(0), PathState::Running);
    rc.check_timeouts(clock.ns + 5_001_000_000);
    assert_eq!(rc.link_state(0), PathState::Down);
    assert_eq!(rc.weights()[0], 0);
}

#[test]
fn probes_report_the_traffic_between_them() {
    let mut rc = RateController::new(test_config(), &[7_500_000, 7_500_000], 0);
    rc.record_tx(0, 1400);
    rc.record_tx(0, 600);
    rc.record_rx(1, 100);
    let first = rc.build_probes_at(1_000_000);
    assert_eq!(first.len(), 2);
    assert_eq!((first[0].link_id, first[0].tx_bytes, first[0].tx_packets), (0, 2000, 2));
    assert_eq!((first[1].link_id, first[1].rx_bytes, first[1].rx_packets), (1, 100, 1));
    assert_eq!(first[0].timestamp_us, 1_000_000);
    let second = rc.build_probes_at(1_200_000);
    assert_eq!((second[0].tx_bytes, second[0].tx_packets), (0, 0));
    assert_eq!(second[0].seq, first[0].seq + 1);
}

#[test]
fn probe_of_an_unknown_link_changes_nothing() {
    let mut rc = RateController::new(test_config(), &[7_500_000], 0);
    let mut probe = quiet_probe(0, 1);
    probe.link_id = 9;
    assert!(rc.process_probe(&probe, 0, 1_000));
    assert_eq!(rc.rate(0), 7_500_000);
    assert_eq!(rc.link_state(0), PathState::Running);
}

#[test]
fn recovery_takes_its_probes() {
    let mut clock = Clock::new();
    let mut rc = RateController::new(test_config(), &[7_500_000], clock.ns);
    rc.states[0].state = PathState::Down;
    rc.states[0].entered_down_confidence = b(1.0);
    let mut states = Vec::new();
    for seq in 0..5 {
        clock.sleep_ms(200);
        process(&mut rc, &quiet_probe(seq, clock.us), &clock);
        states.push(rc.link_state(0));
    }
    assert_eq!(states[0], PathState::Probing);
    assert!(states.contains(&PathState::Running));
    assert_eq!(rc.weights()[0] > 0, rc.link_state(0) == PathState::Running);
}

#[test]
fn status_names_every_link() {
    let rc = RateController::new(test_config(), &[7_500_000, 27_500_000], 0);
    let s = rc.status_summary();
    assert!(s.starts_with("RateCtrl: L0["), "{}", s);
    assert!(s.contains("60/60Mbps"), "{}", s);
    assert!(s.contains("L1[220/220Mbps"), "{}", s);
    assert!(s.contains("RUN"), "{}", s);
}

#[test]
fn status_is_in_whole_milliseconds() {
    let mut rc = RateController::new(test_config(), &[7_500_000], 0);
    assert_eq!(rc.status_summary(), "RateCtrl: L0[60/60Mbps|0ms|SL0.0%|RL0.0%|c1.00|RUN|w:60]");
    rc.states[0].srtt_us = 30_400;
    assert_eq!(rc.status_summary(), "RateCtrl: L0[60/60Mbps|30ms|SL0.0%|RL0.0%|c1.00|RUN|w:60]");
}

#[test]
fn probes_report_what_was_recorded_since() {
    let mut rc = RateController::new(test_config(), &[7_500_000, 27_500_000], 0);
    let clock = Clock::new();
    rc.states[1].state = PathState::Down;
    for round in 1..=3u64 {
        for k in 0..round {
            rc.record_tx(1, (100 * k) as usize);
            rc.record_rx(1, 5);
            rc.record_tx(7, 1);
        }
        process(&mut rc, &quiet_probe(round as u32, clock.us), &clock);
        let probes = rc.build_probes_at(clock.us);
        assert_eq!(probes.len(), 2);
        let p = &probes[1];
        assert_eq!((p.link_id, p.seq, p.path_state), (1, round as u32, PathState::Down));
        assert_eq!((p.tx_bytes, p.tx_packets), (50 * round * (round - 1), round as u32));
        assert_eq!((p.rx_bytes, p.rx_packets), (5 * round, round as u32));
        assert_eq!((probes[0].tx_bytes, probes[0].tx_packets), (0, 0));
    }
}

#[test]
fn no_mix_of_calls_leaves_the_range() {
    let rates = [7_500_000u64, 25_000];
    let mut clock = Clock::new();
    let mut rc = RateController::new(test_config(), &rates, clock.ns);
    for k in 0..400u64 {
        rc.record_tx(0, 300_000);
        rc.record_tx(1, 4_000);
        let mut probe = quiet_probe(k as u32, clock.us);
        probe.link_id = (k % 2) as u8;
        probe.rx_bytes = 1 + k * 10;
        probe.tx_packets = 100;
        process(&mut rc, &probe, &clock);
        if k % 3 == 0 {
            rc.build_probes_at(clock.us);
        }
        clock.sleep_ms(if k % 50 == 49 { 6_000 } else { 200 });
        rc.check_timeouts(clock.ns);
        for i in 0..2 {
            let floor = (rates[i] / 10).max(12_500);
            assert!(floor <= rc.rate(i) && rc.rate(i) <= rates[i]);
            let out = matches!(rc.link_state(i), PathState::Down | PathState::Probing);
            let weight = if out { 0 } else { (rc.rate(i) / 125_000).max(1) as u32 };
            assert_eq!(rc.weights()[i], weight);
        }
    }
}

#[test]
fn counts_fade_by_a_sixteenth() {
    let mut rc = RateController::new(test_config(), &[7_500_000], 0);
    rc.states[0].send_tx_acc = 3200;
    rc.states[0].send_rx_acc = 1600;
    rc.states[0].recv_tx_acc = 1000;
    let clock = Clock::new();
    process(&mut rc, &quiet_probe(0, clock.us), &clock);
    let s = &rc.states[0];
    assert_eq!((s.send_tx_acc, s.send_rx_acc, s.recv_tx_acc), (3000, 1500, 1000));
    assert_eq!((s.send_loss, s.recv_loss, s.loss), (127, 0, 127));
}

#[test]
fn congestion_slows_a_link() {
    let mut rc = RateController::new(test_config(), &[7_500_000], 0);
    // 100 KB in a fifth of a second against 50 KB that arrived
    rc.record_tx(0, 100_000);
    let clock = Clock::new();
    let mut probe = quiet_probe(0, clock.us);
    probe.rx_bytes = 50_000;
    process(&mut rc, &probe, &clock);
    assert_eq!(rc.rate(0), 6_750_000);
}
