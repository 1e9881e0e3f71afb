use chainlightning::binary64::Binary64;
use chainlightning::config::{FlowClassifierConfig, LinkTierConfig, RealtimeConfig};
use chainlightning::flow_classifier::{FlowClassifier, FlowMode};
use chainlightning::protocol::FlowId;

fn b(x: f64) -> Binary64 {
    Binary64 { bits: x.to_bits() }
}

fn test_config() -> FlowClassifierConfig {
    FlowClassifierConfig {
        single_link_threshold: b(0.66),
        multi_link_threshold: b(0.90),
        monitor_duration_ms: 2000,
        flow_window_ms: 1000,
        flow_expiry_ms: 30000,
        realtime_pps_threshold: 10,
        realtime_window_ms: 1000,
    }
}

fn test_realtime_config() -> RealtimeConfig {
    RealtimeConfig {
        realtime_udp_ports: vec![5060, 5061, 3478, 27015],
        realtime_tcp_ports: vec![22],
        max_realtime_packet_size: 600,
        force_adsl_only: true,
    }
}

fn tier(link_id: usize, priority: usize, adsl: bool) -> LinkTierConfig {
    LinkTierConfig {
        link_id,
        priority,
        capacity_down_bps: if adsl { 7_812_500 } else { 27_500_000 },
        capacity_up_bps: if adsl { 1_587_500 } else { 2_500_000 },
        utilization_threshold: if adsl { b(0.90) } else { b(0.95) },
        realtime_eligible: adsl,
        link_type: if adsl { "adsl".to_string() } else { "starlink".to_string() },
    }
}

fn test_link_tiers() -> Vec<LinkTierConfig> {
    vec![tier(2, 1, true), tier(0, 2, true), tier(1, 4, false), tier(3, 5, false), tier(4, 3, true)]
}

fn classifier() -> FlowClassifier {
    let bandwidths = vec![7_500_000, 27_500_000, 7_500_000, 27_500_000, 7_500_000];
    FlowClassifier::new(test_config(), test_realtime_config(), test_link_tiers(), bandwidths)
}

fn ip_packet(len: usize, protocol: u8, dst: [u8; 4], src_port: u16, dst_port: u16) -> Vec<u8> {
    let mut packet = vec![0u8; len];
    packet[0] = 0x45;
    packet[9] = protocol;
    packet[12..16].copy_from_slice(&[192, 168, 1, 1]);
    packet[16..20].copy_from_slice(&dst);
    packet[20..22].copy_from_slice(&src_port.to_be_bytes());
    packet[22..24].copy_from_slice(&dst_port.to_be_bytes());
    packet
}

#[test]
fn test_new_flow_is_single_link() {
    let mut c = classifier();
    let packet = ip_packet(1500, 6, [10, 0, 0, 1], 0x1F90, 0x0050);
    let mode = c.classify(&packet, 0);
    assert!(matches!(mode, FlowMode::SingleLink { .. }));
}

#[test]
fn test_ssh_classified_as_realtime() {
    let mut c = classifier();
    let packet = ip_packet(100, 6, [10, 0, 0, 1], 0xC000, 0x0016);
    let mode = c.classify(&packet, 0);
    assert!(matches!(mode, FlowMode::Realtime { link_id: 2 }));
}

#[test]
fn test_small_udp_non_realtime_port_is_single_link() {
    let mut c = classifier();
    let packet = ip_packet(60, 17, [8, 8, 8, 8], 0xC001, 0x0035);
    let mode = c.classify(&packet, 0);
    assert!(matches!(mode, FlowMode::SingleLink { .. }));
}

#[test]
fn test_known_realtime_udp_port_classified_as_realtime() {
    let mut c = classifier();
    let packet = ip_packet(200, 17, [10, 0, 0, 1], 0xC001, 0x13C4);
    let mode = c.classify(&packet, 0);
    assert!(matches!(mode, FlowMode::Realtime { link_id: 2 }));
}

#[test]
fn test_realtime_is_sticky() {
    let mut c = classifier();
    let packet = ip_packet(100, 6, [10, 0, 0, 1], 0xC000, 0x0016);
    let mode1 = c.classify(&packet, 0);
    assert!(matches!(mode1, FlowMode::Realtime { .. }));

    // Classify same flow again: should stay Realtime even with large packet
    let large_packet = ip_packet(1500, 6, [10, 0, 0, 1], 0xC000, 0x0016);
    let mode2 = c.classify(&large_packet, 1_000_000);
    assert!(matches!(mode2, FlowMode::Realtime { .. }));
}

// ---------------------------------------------------------------------------

#[test]
fn realtime_flows_follow_the_best_link() {
    let mut c = classifier();
    let packet = ip_packet(100, 6, [10, 0, 0, 1], 0xC000, 0x0016);
    c.classify(&packet, 0);
    for k in 1..200u64 {
        let other = ip_packet(1400, 6, [10, 0, 0, (k % 250) as u8], 40000, 443);
        c.classify(&other, k * 1_000_000);
        c.update_rtts(vec![k, 200 - k]);
        let large = ip_packet(1500, 6, [10, 0, 0, 1], 0xC000, 0x0016);
        let expected = FlowMode::Realtime { link_id: c.stats().realtime_link };
        assert_eq!(c.classify(&large, k * 1_000_000), expected);
    }
}

#[test]
fn short_packets_have_no_flow() {
    let mut c = classifier();
    assert!(matches!(c.classify(&[0x45; 10], 0), FlowMode::Bulk));
    assert_eq!(c.stats().total_flows, 0);
}

#[test]
fn modes_survive_the_wire() {
    for mode in [FlowMode::Realtime { link_id: 3 }, FlowMode::SingleLink { link_id: 3 }, FlowMode::Bulk] {
        assert_eq!(FlowMode::from_wire(mode.to_wire(), 3), mode);
    }
}

#[test]
fn sustained_heavy_flow_becomes_bulk() {
    let mut c = classifier();
    let packet = ip_packet(60_000, 6, [10, 0, 0, 1], 40000, 443);
    let mut now = 0u64;
    let mut last = c.classify(&packet, now);
    assert!(matches!(last, FlowMode::SingleLink { .. }));
    // 30 MB/s, above 90% of the fastest link, for four seconds.
    for _ in 0..2_000 {
        now += 2_000_000;
        last = c.classify(&packet, now);
    }
    assert!(matches!(last, FlowMode::Bulk), "{:?}", last);
    assert_eq!(c.stats().bulk_flows, 1);
}

#[test]
fn flows_expire() {
    let mut c = classifier();
    let packet = ip_packet(100, 6, [10, 0, 0, 1], 40000, 443);
    c.classify(&packet, 0);
    let id = FlowId::from_packet(&packet).unwrap();
    assert!(c.get_mode(id).is_some());
    c.expire_flows(29_000_000_000);
    assert!(c.get_mode(id).is_some());
    c.expire_flows(31_000_000_000);
    assert!(c.get_mode(id).is_none());
}

#[test]
fn realtime_follows_the_least_rtt() {
    let mut c = classifier();
    c.update_rtts(vec![10_000, 5_000, 30_000, 5_000, 40_000]);
    assert_eq!(c.stats().realtime_link, 0);
}

#[test]
fn factors_shift_flows() {
    let mut c = classifier();
    c.set_weight_factors(vec![b(0.0), b(1.0), b(0.0), b(0.0), b(0.0)]);
    for port in 1000..1100 {
        let packet = ip_packet(100, 6, [10, 0, 0, 1], port, 443);
        assert_eq!(c.weighted_flow_link(FlowId::from_packet(&packet).unwrap()), 1);
    }
}
