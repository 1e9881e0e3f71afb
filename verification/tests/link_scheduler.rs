use chainlightning::binary64::Binary64;
use chainlightning::config::{LinkSchedulerConfig, LinkTierConfig};
use chainlightning::flow_classifier::FlowMode;
use chainlightning::link_scheduler::{LinkScheduler, Strategy};

fn plain_config() -> LinkSchedulerConfig {
    LinkSchedulerConfig {
        sync_interval_ms: 50,
        max_send_delay_ms: 100,
        enable_sync: false,
        strategy: "tiered_fill".to_string(),
        link_tiers: vec![],
        flow_affinity: false,
        flow_affinity_timeout_secs: 30,
    }
}

#[test]
fn test_static_weights_not_affected_by_measured() {
    let second: u64 = 1_000_000_000;
    let configured = vec![7_500_000u64, 27_500_000];
    let mut scheduler = LinkScheduler::new(plain_config(), &configured, false, 10 * second);

    // Initial weights from configured bandwidths
    assert_eq!(scheduler.weights(), vec![60, 220]);

    // Feed degraded measurements - weights should NOT change
    scheduler.update_link(0, 625_000, 100_000, true, 10 * second);
    scheduler.update_link(1, 27_500_000, 40_000, true, 10 * second);

    scheduler.last_adjustment = 8 * second;
    scheduler.maybe_adjust_weights(10 * second);

    let weights = scheduler.weights();
    assert_eq!(weights[0], 60, "ADSL weight should stay at configured 60");
    assert_eq!(weights[1], 220, "Starlink weight should stay at configured 220");

    // Dynamic adaptation comes from rate controller instead
    scheduler.set_rate_controlled_weights(&[30, 220]);
    assert_eq!(scheduler.weights(), vec![30, 220]);
}

#[test]
fn test_weighted_distribution() {
    let configured = vec![7_500_000u64, 27_500_000, 7_500_000, 27_500_000, 7_500_000];
    let scheduler = LinkScheduler::new(plain_config(), &configured, false, 0);

    let weights = scheduler.weights();
    assert_eq!(weights[0], 60);
    assert_eq!(weights[1], 220);
    assert_eq!(weights[2], 60);
    assert_eq!(weights[3], 220);
    assert_eq!(weights[4], 60);
}

// ---------------------------------------------------------------------------

#[test]
fn single_flows_stay_where_they_are_sent() {
    let mut s = LinkScheduler::new(plain_config(), &vec![7_500_000, 27_500_000], true, 0);
    let d = s.schedule(1000, &FlowMode::SingleLink { link_id: 0 });
    assert_eq!((d.link_id, d.delay_us, d.participating_links), (0, 0, vec![0]));
    let d = s.schedule(1000, &FlowMode::Realtime { link_id: 1 });
    assert_eq!((d.link_id, d.delay_us, d.participating_links), (1, 0, vec![1]));
}

#[test]
fn a_round_is_proportional_to_the_weights() {
    let mut s = LinkScheduler::new(plain_config(), &vec![7_500_000, 27_500_000], true, 0);
    let mut counts = [0u32; 2];
    for _ in 0..280 {
        counts[s.schedule(1400, &FlowMode::Bulk).link_id] += 1;
    }
    assert_eq!(counts, [60, 220]);
}

#[test]
fn links_without_weight_carry_nothing() {
    let mut s = LinkScheduler::new(plain_config(), &vec![7_500_000, 27_500_000, 7_500_000], true, 0);
    s.set_rate_controlled_weights(&[60, 0, 60]);
    for _ in 0..500 {
        assert_ne!(s.schedule(1400, &FlowMode::Bulk).link_id, 1);
        assert_ne!(s.schedule_bool(1400, false).link_id, 1);
    }
    assert_eq!(s.health(), vec![true, false, true]);
}

#[test]
fn slow_links_are_left_out_of_bulk() {
    let mut s = LinkScheduler::new(plain_config(), &vec![7_500_000, 7_500_000, 7_500_000], true, 0);
    s.update_link(0, 0, 20_000, true, 1);
    s.update_link(1, 0, 24_000, true, 1);
    s.update_link(2, 0, 900_000, true, 1);
    let d = s.schedule(1400, &FlowMode::Bulk);
    assert_eq!(d.participating_links, vec![0, 1]);
    assert_eq!(s.bulk_rtt_spread_ms(), 2);
}

#[test]
fn status_of_links() {
    let mut s = LinkScheduler::new(plain_config(), &vec![7_500_000], true, 0);
    s.update_link(0, 1_250_000, 20_000, true, 1);
    // Seven parts of the configured 60 Mbps and three of the measured 10 Mbps
    assert_eq!(s.status_summary(), "L0[w:60/60|meas:45Mbps|20.0ms|OK]");
}

#[test]
fn defaults_without_configuration() {
    let s = LinkScheduler::new_default(plain_config(), 3, false, 0);
    assert_eq!(s.weights(), vec![10, 10, 10]);
    assert_eq!(s.target_weights(), s.weights());
}

fn tier(link_id: usize, priority: usize, capacity: u64, link_type: &str) -> LinkTierConfig {
    LinkTierConfig {
        link_id,
        priority,
        capacity_down_bps: capacity.saturating_mul(2),
        capacity_up_bps: capacity,
        utilization_threshold: Binary64 { bits: 0.9f64.to_bits() },
        link_type: link_type.to_string(),
        realtime_eligible: true,
    }
}

#[test]
fn tiers_fill_in_order() {
    let mut config = plain_config();
    config.link_tiers = vec![tier(1, 2, 500, "starlink"), tier(2, 1, 100, "adsl"), tier(0, 1, 300, "adsl")];
    let mut s = LinkScheduler::new(config, &vec![7_500_000, 27_500_000, 7_500_000], true, 0);
    s.links[0].measured_bandwidth_bps = 0;
    s.links[2].measured_bandwidth_bps = 0;
    // ADSL links in proportion to their capacities, those listed first at the front
    let picks: Vec<usize> = (0..8).map(|_| s.schedule_tiered_fill(50).link_id).collect();
    assert_eq!(picks, vec![2, 2, 0, 0, 0, 0, 0, 0]);
    assert_eq!(s.schedule_tiered_fill(1).participating_links, vec![2, 0]);
    // Nine tenths of the ADSL capacity in use
    s.links[0].measured_bandwidth_bps = 360;
    assert_eq!(s.schedule_tiered_fill(1).link_id, 1);
    s.links[0].measured_bandwidth_bps = 359;
    assert_ne!(s.schedule_tiered_fill(1).link_id, 1);
}

#[test]
fn without_tiers_the_first_link_is_filled() {
    let mut s = LinkScheduler::new(plain_config(), &vec![7_500_000, 27_500_000], true, 0);
    let d = s.schedule_tiered_fill(10);
    assert_eq!((d.link_id, d.participating_links), (0, vec![0]));
    assert_eq!(s.links[0].bytes_sent, 10);
}

#[test]
fn chunks_on_fast_links_wait_for_slow_ones() {
    let mut config = plain_config();
    config.enable_sync = true;
    let mut s = LinkScheduler::new(config, &vec![7_500_000, 7_500_000], true, 0);
    s.update_link(0, 0, 20_000, true, 1);
    s.update_link(1, 0, 40_000, true, 1);
    for _ in 0..120 {
        let d = s.schedule(1400, &FlowMode::Bulk);
        assert_eq!(d.delay_us, if d.link_id == 0 { 10_000 } else { 0 });
    }
    // No wait is longer than the limit
    s.update_link(1, 0, 4_000_000, true, 2);
    for _ in 0..120 {
        assert!(s.schedule(1400, &FlowMode::Bulk).delay_us <= 100_000);
    }
}

fn by_strategy(strategy: &str, link_tiers: Vec<LinkTierConfig>) -> LinkScheduler {
    let config = LinkSchedulerConfig { strategy: strategy.to_string(), link_tiers, ..plain_config() };
    let mut s = LinkScheduler::new(config, &vec![1_250_000, 2_500_000, 1_250_000, 2_500_000], true, 0);
    s.set_rate_controlled_weights(&[10, 20, 10, 20]);
    s
}

fn picks(s: &mut LinkScheduler, n: usize) -> Vec<usize> {
    (0..n).map(|_| s.schedule(100, &FlowMode::Bulk).link_id).collect()
}

#[test]
fn strategies_have_names() {
    assert_eq!(Strategy::named(&"tiered_fill".to_string()), Strategy::TieredFill);
    assert_eq!(Strategy::named(&"round_robin".to_string()), Strategy::RoundRobin);
    assert_eq!(Strategy::named(&"single_best".to_string()), Strategy::SingleBest);
    assert_eq!(Strategy::named(&"weighted".to_string()), Strategy::Weighted);
    assert_eq!(Strategy::named(&"anything".to_string()), Strategy::Weighted);
}

#[test]
fn round_robin_takes_turns() {
    let mut s = by_strategy("round_robin", vec![]);
    assert_eq!(picks(&mut s, 8), vec![1, 2, 3, 0, 1, 2, 3, 0]);
    assert_eq!(s.schedule(1, &FlowMode::Bulk).participating_links, vec![0, 1, 2, 3]);
    s.set_rate_controlled_weights(&[10, 0, 10, 20]);
    let mut counts = [0; 4];
    for link in picks(&mut s, 30) {
        counts[link] += 1;
    }
    assert_eq!(counts, [10, 0, 10, 10]);
}

#[test]
fn single_best_stays_on_the_heaviest_link() {
    let mut s = by_strategy("single_best", vec![]);
    let d = s.schedule(100, &FlowMode::Bulk);
    assert_eq!((d.link_id, d.participating_links), (1, vec![1]));
    assert_eq!(picks(&mut s, 4), vec![1; 4]);
    // The next best takes over from a link that is down
    s.set_rate_controlled_weights(&[10, 0, 10, 20]);
    assert_eq!(picks(&mut s, 4), vec![3; 4]);
    // A link far slower than the others is no bulk link
    s.set_rate_controlled_weights(&[10, 0, 11, 20]);
    for (i, rtt) in [(0, 10_000), (1, 10_000), (2, 12_000), (3, 90_000)] {
        s.update_link(i, 0, rtt, true, 0);
    }
    assert_eq!(picks(&mut s, 4), vec![2; 4]);
}

#[test]
fn tiers_are_filled_by_bulk_chunks() {
    let tiers = vec![tier(0, 1, 300, "adsl"), tier(2, 2, 300, "adsl"), tier(1, 3, 900, "starlink")];
    let mut s = by_strategy("tiered_fill", tiers);
    for link in s.links.iter_mut() {
        link.measured_bandwidth_bps = 0;
    }
    assert!(s.can_fill_tiers());
    assert_eq!(picks(&mut s, 6), vec![0, 0, 0, 2, 2, 2]);
    assert_eq!(s.schedule(1, &FlowMode::Bulk).participating_links, vec![0, 2]);
    // Nine tenths of the capacity in use: overflow
    s.links[0].measured_bandwidth_bps = 540;
    assert_eq!(picks(&mut s, 3), vec![1; 3]);
    // A tier that is down is left out
    s.links[0].measured_bandwidth_bps = 0;
    s.set_rate_controlled_weights(&[0, 20, 10, 20]);
    assert_eq!(picks(&mut s, 6), vec![2; 6]);
    // Without any tier that is up the links go round by weight
    s.set_rate_controlled_weights(&[0, 0, 0, 20]);
    assert_eq!(picks(&mut s, 3), vec![3; 3]);
}

#[test]
fn overflowing_tiers_are_noticed() {
    let tiers = vec![tier(0, 1, u64::MAX / 2, "adsl"), tier(2, 2, u64::MAX / 2 + 2, "adsl")];
    assert!(!by_strategy("tiered_fill", tiers.clone()).can_fill_tiers());
    assert!(by_strategy("weighted", tiers).can_fill_tiers());
}

#[test]
fn any_strategy_synchronizes_arrivals() {
    for strategy in ["round_robin", "single_best", "weighted"] {
        let mut s = by_strategy(strategy, vec![]);
        s.config.enable_sync = true;
        for (i, rtt) in [(0, 10_000), (1, 12_000), (2, 14_000), (3, 20_000)] {
            s.update_link(i, 0, rtt, true, 0);
        }
        for _ in 0..8 {
            let d = s.schedule(100, &FlowMode::Bulk);
            assert_eq!(d.delay_us + s.links[d.link_id].rtt_us / 2, 10_000);
        }
    }
}
