//! 1 GB download simulations: rate control, scheduling and probes together.
//!
//! Links: three ADSL lines of 62.5 Mbps and two Starlink dishes of 220 Mbps.

use chainlightning::config::{LinkSchedulerConfig, RateControlConfig};
use chainlightning::link_scheduler::LinkScheduler;
use chainlightning::protocol::{PathState, ProbePacket};
use chainlightning::rate_controller::RateController;

/// Link download bandwidths in bytes/sec
const LINK_BPS: [u64; 5] = [7_812_500, 27_500_000, 7_812_500, 27_500_000, 7_812_500];

const NUM_LINKS: usize = 5;

/// 1 GB in bytes
const ONE_GB: u64 = 1_073_741_824;

/// Probe interval in seconds (200ms)
const PROBE_SECS: f64 = 0.2;

/// A wall clock and a monotonic clock that move together.
struct Clock {
    us: u64,
    ns: u64,
}

impl Clock {
    fn new() -> Clock {
        Clock { us: 1_700_000_000_000_000, ns: 1_000_000_000 }
    }

    fn advance_us(&mut self, us: u64) {
        self.us += us;
        self.ns += us * 1000;
    }
}

fn make_rate_config() -> RateControlConfig {
    RateControlConfig::default()
}

fn make_scheduler_config() -> LinkSchedulerConfig {
    LinkSchedulerConfig {
        sync_interval_ms: 50,
        max_send_delay_ms: 100,
        enable_sync: false,
        strategy: "weighted".to_string(),
        link_tiers: vec![],
        flow_affinity: false,
        flow_affinity_timeout_secs: 30,
    }
}

fn scheduler() -> LinkScheduler {
    LinkScheduler::new(make_scheduler_config(), &LINK_BPS.to_vec(), false, 0)
}

fn process(rc: &mut RateController, probe: &ProbePacket, clock: &Clock) {
    assert!(rc.can_process_probe(probe, 0, clock.us, clock.ns));
    rc.process_probe_at(probe, 0, clock.us, clock.ns);
}

/// One probe cycle in the download direction (server to client).
///
/// - `last_server_ts`: timestamps from previous server probes (echoed by client for RTT)
/// - `congestion`: per-link factor (1.0 = healthy, 0.5 = 50% throughput)
/// - `alive`: per-link liveness (false = no probe response)
///
/// Returns bytes transferred per link this interval.
fn simulate_cycle(
    rc: &mut RateController,
    clock: &mut Clock,
    last_server_ts: &mut [u64; NUM_LINKS],
    congestion: &[f64; NUM_LINKS],
    alive: &[bool; NUM_LINKS],
) -> [u64; NUM_LINKS] {
    let mut bytes = [0u64; NUM_LINKS];

    for i in 0..NUM_LINKS {
        bytes[i] = (rc.rate(i) as f64 * PROBE_SECS) as u64;
    }

    // Server TX per packet
    for i in 0..NUM_LINKS {
        if bytes[i] > 0 {
            let num_pkts = (bytes[i] / 1400).max(1) as usize;
            let pkt_size = bytes[i] as usize / num_pkts;
            for _ in 0..num_pkts {
                rc.record_tx(i, pkt_size);
            }
        }
    }

    clock.advance_us(CYCLE_US);

    // Client response probes, before build_probes() resets the interval counters
    for i in 0..NUM_LINKS {
        if !alive[i] {
            continue;
        }

        let received = (bytes[i] as f64 * congestion[i]) as u64;
        let recv_pkts = if received > 0 { (received / 1400).max(1) as u32 } else { 0 };

        let client_probe = ProbePacket {
            link_id: i as u8,
            seq: 0,
            timestamp_us: clock.us + 10_000,
            echo_timestamp_us: last_server_ts[i],
            tx_bytes: 0,
            tx_packets: 0,
            rx_bytes: received,
            rx_packets: recv_pkts,
            loss_ratio: 0,
            path_state: PathState::Running,
        };

        process(rc, &client_probe, clock);
    }

    let server_probes = rc.build_probes_at(clock.us);
    for p in &server_probes {
        last_server_ts[p.link_id as usize] = p.timestamp_us;
    }

    bytes
}

/// How long a cycle takes.
const CYCLE_US: u64 = 200_000;

#[test]
fn test_1gb_steady_state_download() {
    let mut clock = Clock::new();
    let mut rc = RateController::new(make_rate_config(), &LINK_BPS, clock.ns);
    let mut sched = scheduler();

    let mut ts = [0u64; NUM_LINKS];
    let congestion = [1.0; NUM_LINKS];
    let alive = [true; NUM_LINKS];

    let mut total: u64 = 0;
    let mut per_link = [0u64; NUM_LINKS];
    let mut cycles: u32 = 0;

    while total < ONE_GB && cycles < 500 {
        let bytes = simulate_cycle(&mut rc, &mut clock, &mut ts, &congestion, &alive);
        for i in 0..NUM_LINKS {
            per_link[i] += bytes[i];
            total += bytes[i];
        }
        sched.set_rate_controlled_weights(&rc.weights());
        cycles += 1;
    }

    assert!(total >= ONE_GB, "Must transfer >= 1GB, got {}", total);
    assert!(cycles < 200, "Should finish in <200 cycles, took {}", cycles);

    for i in 0..NUM_LINKS {
        assert_eq!(rc.link_state(i), PathState::Running, "L{} should be Running", i);
    }

    // Weight sanity: ADSL ~60, Starlink ~220
    let w = rc.weights();
    for &i in &[0, 2, 4] {
        assert!(w[i] >= 40 && w[i] <= 80, "ADSL L{} weight {}, expected 40-80", i, w[i]);
    }
    for &i in &[1, 3] {
        assert!(w[i] >= 150 && w[i] <= 260, "Starlink L{} weight {}, expected 150-260", i, w[i]);
    }

    // Starlink carries more than ADSL
    for &sl in &[1, 3] {
        for &adsl in &[0, 2, 4] {
            assert!(
                per_link[sl] > per_link[adsl],
                "Starlink L{} ({}) should > ADSL L{} ({})",
                sl,
                per_link[sl],
                adsl,
                per_link[adsl]
            );
        }
    }
}

#[test]
fn test_congestion_reduces_weight_then_recovers() {
    let mut clock = Clock::new();
    let mut cfg = make_rate_config();
    cfg.tapa_enabled = false;
    let mut rc = RateController::new(cfg, &LINK_BPS, clock.ns);
    let mut sched = scheduler();

    let mut ts = [0u64; NUM_LINKS];
    let alive = [true; NUM_LINKS];
    let healthy = [1.0; NUM_LINKS];

    // Phase 1: Steady state (20 cycles = 4s)
    for _ in 0..20 {
        simulate_cycle(&mut rc, &mut clock, &mut ts, &healthy, &alive);
        sched.set_rate_controlled_weights(&rc.weights());
    }

    let w_before = rc.weights()[1];
    let r_before = rc.rate(1);

    // Phase 2: L1 congested at 50% for 50 cycles (10s)
    let congested = [1.0, 0.5, 1.0, 1.0, 1.0];
    for _ in 0..50 {
        simulate_cycle(&mut rc, &mut clock, &mut ts, &congested, &alive);
        sched.set_rate_controlled_weights(&rc.weights());
    }

    let w_cong = rc.weights()[1];
    let r_cong = rc.rate(1);

    assert!(r_cong < r_before, "Rate should drop: before={}, after={}", r_before, r_cong);
    assert!(w_cong < w_before, "Weight should drop: before={}, after={}", w_before, w_cong);

    // Other links unaffected
    for &i in &[0, 2, 3, 4] {
        assert_eq!(rc.link_state(i), PathState::Running, "L{} should stay Running", i);
    }

    // Phase 3: Congestion clears, recovery (30 cycles = 6s)
    for _ in 0..30 {
        simulate_cycle(&mut rc, &mut clock, &mut ts, &healthy, &alive);
        sched.set_rate_controlled_weights(&rc.weights());
    }

    let r_recovered = rc.rate(1);
    assert!(r_recovered > r_cong, "Rate should recover: congested={}, recovered={}", r_cong, r_recovered);
}

#[test]
fn test_link_failure_and_recovery() {
    let mut clock = Clock::new();
    let mut cfg = make_rate_config();
    cfg.down_timeout_ms = 1000;

    let mut rc = RateController::new(cfg, &LINK_BPS, clock.ns);
    let mut ts = [0u64; NUM_LINKS];
    let healthy = [1.0; NUM_LINKS];
    let all_alive = [true; NUM_LINKS];

    // Warm up: 10 cycles
    for _ in 0..10 {
        simulate_cycle(&mut rc, &mut clock, &mut ts, &healthy, &all_alive);
    }
    assert_eq!(rc.link_state(2), PathState::Running);

    // Phase 2: L2 goes dark (no probe responses)
    let l2_dead = [true, true, false, true, true];

    for _ in 0..12 {
        simulate_cycle(&mut rc, &mut clock, &mut ts, &healthy, &l2_dead);
        rc.check_timeouts(clock.ns);

        if rc.link_state(2) == PathState::Down {
            break;
        }
        clock.advance_us(150_000);
    }

    assert_eq!(rc.link_state(2), PathState::Down, "L2 should be DOWN after timeout");
    assert_eq!(rc.weights()[2], 0, "DOWN link weight must be 0");

    // Phase 3: L2 comes back
    for _ in 0..10 {
        simulate_cycle(&mut rc, &mut clock, &mut ts, &healthy, &all_alive);
        if rc.link_state(2) == PathState::Running {
            break;
        }
    }

    let final_state = rc.link_state(2);
    assert!(
        final_state == PathState::Running || final_state == PathState::Probing,
        "L2 should be Running or Probing, got {:?}",
        final_state
    );

    for &i in &[0, 1, 3, 4] {
        assert_eq!(rc.link_state(i), PathState::Running, "L{} should still be Running", i);
    }
}

#[test]
fn test_loss_detection() {
    let mut clock = Clock::new();
    let mut cfg = make_rate_config();
    cfg.tapa_enabled = false;
    cfg.loss_min_packets = 100;

    let mut rc = RateController::new(cfg, &LINK_BPS, clock.ns);
    let mut ts = [0u64; NUM_LINKS];
    let alive = [true; NUM_LINKS];

    // Warm up to build accumulators
    let clean = [1.0; NUM_LINKS];
    for _ in 0..20 {
        simulate_cycle(&mut rc, &mut clock, &mut ts, &clean, &alive);
    }

    // Severe loss on L4: client only gets 30% of packets
    let lossy = [1.0, 1.0, 1.0, 1.0, 0.3];
    for _ in 0..60 {
        simulate_cycle(&mut rc, &mut clock, &mut ts, &lossy, &alive);
    }

    // Rate should be reduced due to congestion detection
    assert!(
        rc.rate(4) < LINK_BPS[4],
        "Lossy link rate should decrease: max={}, got={}",
        LINK_BPS[4],
        rc.rate(4)
    );
}

#[test]
fn test_probe_packet_wire_format() {
    let probe = ProbePacket {
        link_id: 3,
        seq: 12345,
        timestamp_us: 1_700_000_000_000_000,
        echo_timestamp_us: 1_699_999_999_800_000,
        tx_bytes: 5_500_000,
        tx_packets: 3928,
        rx_bytes: 1_562_500,
        rx_packets: 1116,
        loss_ratio: 7,
        path_state: PathState::Lossy,
    };

    let encoded = probe.encode();

    assert_eq!(encoded.len(), 51, "Probe must be 51 bytes");
    assert_eq!(encoded[0], 0x06, "First byte must be MSG_PROBE (0x06)");

    let d = ProbePacket::decode(&encoded).expect("decode should succeed");
    assert_eq!(d.link_id, 3);
    assert_eq!(d.seq, 12345);
    assert_eq!(d.timestamp_us, 1_700_000_000_000_000);
    assert_eq!(d.echo_timestamp_us, 1_699_999_999_800_000);
    assert_eq!(d.tx_bytes, 5_500_000);
    assert_eq!(d.tx_packets, 3928);
    assert_eq!(d.rx_bytes, 1_562_500);
    assert_eq!(d.rx_packets, 1116);
    assert_eq!(d.loss_ratio, 7);
    assert_eq!(d.path_state, PathState::Lossy);

    // All PathState variants roundtrip
    for &state in &[PathState::Running, PathState::Lossy, PathState::Down, PathState::Probing] {
        let mut p = probe;
        p.path_state = state;
        let dec = ProbePacket::decode(&p.encode()).unwrap();
        assert_eq!(dec.path_state, state, "PathState {:?} roundtrip failed", state);
    }

    // Reject too-short buffer
    assert!(ProbePacket::decode(&[0x06; 10]).is_none(), "Short buffer should fail");

    // Reject wrong message type
    let mut bad = encoded.clone();
    bad[0] = 0xFF;
    assert!(ProbePacket::decode(&bad).is_none(), "Wrong msg type should fail");
}

#[test]
fn test_scheduler_weight_integration() {
    let mut sched = scheduler();

    // Initial weights from configured bandwidths
    let initial = sched.weights();
    assert_eq!(initial.len(), 5);

    // Simulate rate controller output: L1 halved, L2 down
    let rc_weights = vec![60u32, 110, 0, 220, 60];
    sched.set_rate_controlled_weights(&rc_weights);
    assert_eq!(sched.weights(), rc_weights);

    // Schedule 10k chunks and measure distribution
    let mut counts = [0u32; NUM_LINKS];
    for _ in 0..10_000 {
        let d = sched.schedule_bool(1400, false);
        counts[d.link_id] += 1;
    }

    // L2 (weight=0) must get zero chunks
    assert_eq!(counts[2], 0, "DOWN link should get 0 chunks");

    // Starlink L3 (w=220) / ADSL L0 (w=60) ratio should be ~3.67
    let ratio = counts[3] as f64 / counts[0] as f64;
    assert!(ratio > 2.5 && ratio < 5.5, "L3/L0 ratio should be ~3.67, got {:.2}", ratio);

    // L1 (w=110) / L0 (w=60) ratio should be ~1.83
    let ratio_l1 = counts[1] as f64 / counts[0] as f64;
    assert!(ratio_l1 > 1.2 && ratio_l1 < 2.8, "L1/L0 ratio should be ~1.83, got {:.2}", ratio_l1);
}

#[test]
fn test_1gb_with_link_degradation() {
    let mut clock = Clock::new();
    let mut rc = RateController::new(make_rate_config(), &LINK_BPS, clock.ns);
    let mut sched = scheduler();

    let mut ts = [0u64; NUM_LINKS];
    let alive = [true; NUM_LINKS];
    let healthy = [1.0; NUM_LINKS];

    let mut total: u64 = 0;
    let mut per_link = [0u64; NUM_LINKS];
    let mut cycles: u32 = 0;

    // First third healthy, middle third with L1 at 40% and L4 at 60%, then recovery
    let degraded = [1.0, 0.4, 1.0, 1.0, 0.6];
    for (target, congestion) in [(ONE_GB / 3, healthy), (2 * ONE_GB / 3, degraded), (ONE_GB, healthy)] {
        while total < target && cycles < 500 {
            let b = simulate_cycle(&mut rc, &mut clock, &mut ts, &congestion, &alive);
            for i in 0..NUM_LINKS {
                per_link[i] += b[i];
                total += b[i];
            }
            sched.set_rate_controlled_weights(&rc.weights());
            cycles += 1;
        }
    }

    assert!(total >= ONE_GB, "Must transfer >= 1GB");
    assert!(cycles < 500, "Should finish within 500 cycles");

    // All links contributed
    for i in 0..NUM_LINKS {
        assert!(per_link[i] > 0, "L{} should carry data", i);
    }

    // Lossy is acceptable: the 15/16 exponential decay of the loss
    // accumulators takes many cycles to clear.
    for i in 0..NUM_LINKS {
        let state = rc.link_state(i);
        assert!(
            state == PathState::Running || state == PathState::Lossy,
            "L{} should be Running or Lossy at end, got {:?}",
            i,
            state
        );
    }
}

#[test]
fn test_rate_floor_prevents_death_spiral() {
    let mut clock = Clock::new();
    let mut cfg = make_rate_config();
    cfg.tapa_enabled = false;
    let mut rc = RateController::new(cfg, &LINK_BPS, clock.ns);
    let mut ts = [0u64; NUM_LINKS];
    let alive = [true; NUM_LINKS];

    // Severe congestion on ALL links for 100 cycles (20s)
    let severe = [0.3; NUM_LINKS];
    for _ in 0..100 {
        simulate_cycle(&mut rc, &mut clock, &mut ts, &severe, &alive);
    }

    // Every link must remain above its floor rate
    for i in 0..NUM_LINKS {
        let rate = rc.rate(i);
        let floor = ((LINK_BPS[i] as f64 * 0.10) as u64).max(12_500);

        assert!(
            rate >= floor,
            "L{} rate {} must be >= floor {} (10% of {} or 12500)",
            i,
            rate,
            floor,
            LINK_BPS[i]
        );

        // Weight must be >= 1 (links still alive, not DOWN)
        assert!(rc.weights()[i] >= 1, "L{} weight must be >= 1 (still getting probes)", i);
    }
}

#[test]
fn test_rtt_measurement() {
    let mut clock = Clock::new();
    let mut rc = RateController::new(make_rate_config(), &LINK_BPS, clock.ns);
    let mut ts = [0u64; NUM_LINKS];
    let healthy = [1.0; NUM_LINKS];
    let alive = [true; NUM_LINKS];

    // Initial RTT should be 0
    for i in 0..NUM_LINKS {
        assert_eq!(rc.rtt_us(i), 0, "Initial RTT should be 0");
    }

    // Run several cycles - probes carry echo timestamps for RTT calculation
    for _ in 0..10 {
        simulate_cycle(&mut rc, &mut clock, &mut ts, &healthy, &alive);
    }

    let any_rtt = (0..NUM_LINKS).any(|i| rc.rtt_us(i) > 0);
    assert!(any_rtt);

    let summary = rc.status_summary();
    assert!(summary.contains("RateCtrl:"), "Summary should start with RateCtrl:");
    assert!(summary.contains("RUN"), "All links should show RUN state");
}

#[test]
fn test_dual_rate_controller_probe_exchange() {
    // Server controls download rate, client controls upload rate
    let down_bps = LINK_BPS;
    let up_bps: [u64; 5] = [1_587_500, 2_500_000, 1_587_500, 2_500_000, 1_587_500];

    let mut clock = Clock::new();
    let cfg = make_rate_config();
    let mut server_rc = RateController::new(cfg.clone(), &down_bps, clock.ns);
    let mut client_rc = RateController::new(cfg, &up_bps, clock.ns);

    let mut server_ts = [0u64; NUM_LINKS];
    let mut client_ts = [0u64; NUM_LINKS];

    // 50 cycles of bidirectional probe exchange
    for cycle in 0..50 {
        // Server sends download data, client receives it
        for i in 0..NUM_LINKS {
            let dl_bytes = (server_rc.rate(i) as f64 * PROBE_SECS) as usize;
            server_rc.record_tx(i, dl_bytes);
            client_rc.record_rx(i, dl_bytes);
        }

        // Client sends upload data, server receives it
        for i in 0..NUM_LINKS {
            let ul_bytes = (client_rc.rate(i) as f64 * PROBE_SECS) as usize;
            client_rc.record_tx(i, ul_bytes);
            server_rc.record_rx(i, ul_bytes);
        }

        clock.advance_us(CYCLE_US);
        let now = clock.us;

        for i in 0..NUM_LINKS {
            // Client to server probe
            let client_probe = ProbePacket {
                link_id: i as u8,
                seq: cycle,
                timestamp_us: now,
                echo_timestamp_us: server_ts[i],
                tx_bytes: (client_rc.rate(i) as f64 * PROBE_SECS) as u64,
                tx_packets: 100,
                rx_bytes: (server_rc.rate(i) as f64 * PROBE_SECS) as u64,
                rx_packets: 100,
                loss_ratio: 0,
                path_state: PathState::Running,
            };
            process(&mut server_rc, &client_probe, &clock);

            // Server to client probe
            let server_probe = ProbePacket {
                link_id: i as u8,
                seq: cycle,
                timestamp_us: now,
                echo_timestamp_us: client_ts[i],
                tx_bytes: (server_rc.rate(i) as f64 * PROBE_SECS) as u64,
                tx_packets: 100,
                rx_bytes: (client_rc.rate(i) as f64 * PROBE_SECS) as u64,
                rx_packets: 100,
                loss_ratio: 0,
                path_state: PathState::Running,
            };
            process(&mut client_rc, &server_probe, &clock);
        }

        // Build new probes
        let s_probes = server_rc.build_probes_at(clock.us);
        let c_probes = client_rc.build_probes_at(clock.us);
        for p in &s_probes {
            server_ts[p.link_id as usize] = p.timestamp_us;
        }
        for p in &c_probes {
            client_ts[p.link_id as usize] = p.timestamp_us;
        }
    }

    // Both controllers should have all links Running
    for i in 0..NUM_LINKS {
        assert_eq!(server_rc.link_state(i), PathState::Running, "Server L{} should be Running", i);
        assert_eq!(client_rc.link_state(i), PathState::Running, "Client L{} should be Running", i);
    }

    // Server weights should reflect download bandwidths
    let sw = server_rc.weights();
    for &i in &[0, 2, 4] {
        assert!(sw[i] >= 1, "Server ADSL weight should be positive");
    }
    for &i in &[1, 3] {
        assert!(sw[i] > sw[0], "Server Starlink weight should exceed ADSL");
    }

    // Client weights should reflect upload bandwidths
    let cw = client_rc.weights();
    for &i in &[0, 2, 4] {
        assert!(cw[i] >= 1, "Client ADSL weight should be positive");
    }
}
