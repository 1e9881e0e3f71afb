use chainlightning::binary64::Binary64;
use chainlightning::config::OptimizerConfig;
use chainlightning::optimizer::{OptimizerSnapshot, OptimizerState, ThroughputOptimizer};

const SECOND: u64 = 1_000_000_000;

fn b(x: f64) -> Binary64 {
    Binary64 { bits: x.to_bits() }
}

fn f(x: Binary64) -> f64 {
    f64::from_bits(x.bits)
}

fn default_config() -> OptimizerConfig {
    OptimizerConfig {
        enabled: true,
        measurement_window_secs: 3,
        step_size: b(0.10),
        min_improvement: b(0.05),
        max_weight_factor: b(2.0),
        min_weight_factor: b(0.5),
        cooldown_secs: 1,
        history_window_size: 60,
        min_active_throughput: 100_000,
        step_growth_factor: b(1.2),
        step_shrink_factor: b(0.7),
        min_step_size: b(0.02),
        max_step_size: b(0.30),
    }
}

fn short_config() -> OptimizerConfig {
    OptimizerConfig { measurement_window_secs: 2, ..default_config() }
}

fn make_snapshot(bw: &[u64], loss: &[f64]) -> OptimizerSnapshot {
    let n = bw.len();
    OptimizerSnapshot {
        per_link_bandwidth_bps: bw.to_vec(),
        per_link_loss_ratio: loss.iter().map(|&x| b(x)).collect(),
        per_link_healthy: vec![true; n],
        active_flow_count: 10,
    }
}

#[test]
fn test_idle_when_disabled() {
    let mut config = default_config();
    config.enabled = false;
    let mut opt = ThroughputOptimizer::new(config, 5, 0);

    let snap = make_snapshot(&[5_000_000; 5], &[0.0; 5]);
    assert!(opt.tick(&snap, SECOND).is_none());
    assert_eq!(opt.state(), OptimizerState::Idle);
}

#[test]
fn test_idle_when_low_traffic() {
    let mut opt = ThroughputOptimizer::new(default_config(), 5, 0);

    let snap = make_snapshot(&[10_000; 5], &[0.0; 5]);
    assert!(opt.tick(&snap, SECOND).is_none());
    assert_eq!(opt.state(), OptimizerState::Idle);
}

#[test]
fn test_transitions_to_baseline_on_traffic() {
    let mut opt = ThroughputOptimizer::new(default_config(), 5, 0);

    let snap = make_snapshot(&[500_000; 5], &[0.0; 5]);
    opt.tick(&snap, SECOND);
    assert_eq!(opt.state(), OptimizerState::Baseline);
}

#[test]
fn test_baseline_to_experiment_transition() {
    let mut opt = ThroughputOptimizer::new(default_config(), 3, 0);

    for i in 0..4 {
        let snap = make_snapshot(&[1_000_000, 2_000_000, 1_000_000], &[0.0, 0.0, 0.0]);
        opt.tick(&snap, (i + 1) * SECOND);
    }

    assert_eq!(opt.state(), OptimizerState::Experimenting);
    assert!(opt.current_experiment.is_some());
}

#[test]
fn test_experiment_accept_on_improvement() {
    let mut opt = ThroughputOptimizer::new(short_config(), 3, 0);

    for i in 0..3 {
        let snap = make_snapshot(&[1_000_000, 2_000_000, 1_000_000], &[0.0, 0.0, 0.0]);
        opt.tick(&snap, (i + 1) * SECOND);
    }
    assert_eq!(opt.state(), OptimizerState::Experimenting);

    let mut got_factors = false;
    for i in 3..5 {
        let snap = make_snapshot(&[1_200_000, 2_200_000, 1_000_000], &[0.0, 0.0, 0.0]);
        if let Some(_) = opt.tick(&snap, (i + 1) * SECOND) {
            got_factors = true;
        }
    }

    assert!(got_factors, "Expected new factors after evaluation");
    assert_eq!(opt.state(), OptimizerState::Cooldown);
    assert_eq!(opt.total_accepts, 1);
}

#[test]
fn test_experiment_revert_on_no_improvement() {
    let mut opt = ThroughputOptimizer::new(short_config(), 3, 0);

    for i in 0..3 {
        opt.tick(&make_snapshot(&[1_000_000, 2_000_000, 1_000_000], &[0.0; 3]), (i + 1) * SECOND);
    }
    assert_eq!(opt.state(), OptimizerState::Experimenting);

    let experiment_link = opt.current_experiment.as_ref().unwrap().link_id;

    for i in 3..5 {
        opt.tick(&make_snapshot(&[1_000_000, 2_000_000, 1_000_000], &[0.0; 3]), (i + 1) * SECOND);
    }

    let factor = f(opt.weight_factors[experiment_link]);
    assert!((factor - 1.0).abs() < 0.001, "Expected factor reverted to 1.0, got {}", factor);
    assert_eq!(opt.total_accepts, 0);
}

#[test]
fn test_weight_factor_clamping() {
    let config = OptimizerConfig {
        enabled: true,
        measurement_window_secs: 1,
        step_size: b(0.50),
        min_improvement: b(0.01),
        max_weight_factor: b(2.0),
        min_weight_factor: b(0.5),
        cooldown_secs: 0,
        history_window_size: 60,
        min_active_throughput: 100_000,
        step_growth_factor: b(1.0),
        step_shrink_factor: b(1.0),
        min_step_size: b(0.01),
        max_step_size: b(0.90),
    };
    let mut opt = ThroughputOptimizer::new(config, 2, 0);

    // Start with max factor
    opt.weight_factors[0] = b(1.9);

    // Baseline tick
    opt.tick(&make_snapshot(&[1_000_000, 1_000_000], &[0.0; 2]), SECOND);

    // The experiment should clamp to max
    if let Some(ref exp) = opt.current_experiment {
        let new_factor = f(opt.weight_factors[exp.link_id]);
        assert!(new_factor <= 2.0, "Factor {} should be clamped to max 2.0", new_factor);
    }
}

#[test]
fn test_goes_idle_on_traffic_loss() {
    let mut opt = ThroughputOptimizer::new(default_config(), 3, 0);

    opt.tick(&make_snapshot(&[1_000_000; 3], &[0.0; 3]), SECOND);
    assert_eq!(opt.state(), OptimizerState::Baseline);

    opt.tick(&make_snapshot(&[1_000; 3], &[0.0; 3]), 2 * SECOND);
    assert_eq!(opt.state(), OptimizerState::Idle);
}

#[test]
fn test_status_summary() {
    let opt = ThroughputOptimizer::new(default_config(), 3, 0);
    let summary = opt.status_summary();
    assert!(summary.contains("Optimizer[IDLE]"));
    assert!(summary.contains("L0=1.00"));
    assert!(summary.contains("L1=1.00"));
    assert!(summary.contains("L2=1.00"));
}

#[test]
fn test_weighted_loss_computation() {
    let opt = ThroughputOptimizer::new(default_config(), 3, 0);

    // Link 1 has 2x bandwidth of others, 10% loss
    let snap = OptimizerSnapshot {
        per_link_bandwidth_bps: vec![1_000_000, 2_000_000, 1_000_000],
        per_link_loss_ratio: vec![b(0.0), b(0.10), b(0.0)],
        per_link_healthy: vec![true; 3],
        active_flow_count: 5,
    };

    let loss = f(opt.compute_weighted_loss(&snap));
    assert!((loss - 0.05).abs() < 0.001, "Expected ~0.05, got {}", loss);
}

// ---------------------------------------------------------------------------

#[test]
fn experiment_touches_one_link() {
    let mut opt = ThroughputOptimizer::new(short_config(), 3, 0);
    let mut started = None;
    for i in 0..3 {
        started = opt.tick(&make_snapshot(&[1_000_000; 3], &[0.0; 3]), (i + 1) * SECOND);
    }
    let factors: Vec<f64> = started.expect("an experiment began").into_iter().map(f).collect();
    assert_eq!(factors.iter().filter(|&&x| x != 1.0).count(), 1);
    // Traffic that stops takes the change back.
    let back = opt.tick(&make_snapshot(&[0; 3], &[0.0; 3]), 4 * SECOND).expect("the experiment ended");
    assert!(back.into_iter().all(|x| f(x) == 1.0));
    assert_eq!(opt.state(), OptimizerState::Idle);
}

#[test]
fn unchanged_factors_are_not_handed_out() {
    // A step of zero leaves the factors as they are
    let config = OptimizerConfig { step_size: b(0.0), min_step_size: b(0.0), ..short_config() };
    let mut opt = ThroughputOptimizer::new(config, 3, 0);
    for i in 0..3 {
        assert!(opt.tick(&make_snapshot(&[1_000_000; 3], &[0.0; 3]), (i + 1) * SECOND).is_none());
    }
    assert_eq!(opt.state(), OptimizerState::Experimenting);
    // Taking such an experiment back changes nothing either
    assert!(opt.tick(&make_snapshot(&[0; 3], &[0.0; 3]), 4 * SECOND).is_none());
    assert_eq!(opt.state(), OptimizerState::Idle);
    // A completed evaluation hands the factors out
    let mut results = Vec::new();
    for i in 4..9 {
        results.push(opt.tick(&make_snapshot(&[1_000_000; 3], &[0.0; 3]), (i + 1) * SECOND));
    }
    assert_eq!(opt.state(), OptimizerState::Cooldown);
    assert!(results[..4].iter().all(|r| r.is_none()));
    assert!(results[4].as_ref().unwrap().iter().all(|&x| f(x) == 1.0));
}

#[test]
fn a_factor_at_its_bound_stays_there() {
    let config = OptimizerConfig { max_weight_factor: b(1.0), ..short_config() };
    let mut opt = ThroughputOptimizer::new(config, 2, 0);
    for i in 0..3 {
        assert!(opt.tick(&make_snapshot(&[1_000_000; 2], &[0.0; 2]), (i + 1) * SECOND).is_none());
    }
    assert_eq!(opt.state(), OptimizerState::Experimenting);
}

#[test]
fn overflowing_throughput_is_noticed() {
    let opt = ThroughputOptimizer::new(default_config(), 2, 0);
    assert!(opt.can_tick(&make_snapshot(&[u64::MAX, 0], &[0.0; 2])));
    assert!(!opt.can_tick(&make_snapshot(&[u64::MAX, 1], &[0.0; 2])));
}

#[test]
fn step_shrinks_after_a_cycle_without_improvement() {
    // With one link every experiment that moves on ends a cycle
    let mut opt = ThroughputOptimizer::new(short_config(), 1, 0);
    let mut now = 0;
    let mut run = |opt: &mut ThroughputOptimizer, bandwidth: u64, ticks: u64| {
        for _ in 0..ticks {
            now += SECOND;
            opt.tick(&make_snapshot(&[bandwidth], &[0.0]), now);
        }
    };
    run(&mut opt, 1_000_000, 3);
    run(&mut opt, 2_000_000, 2);
    assert_eq!((opt.total_accepts, opt.no_improvement_streak), (1, 0));
    let grown = 0.10 * 1.2;
    assert_eq!(f(opt.current_step_size), grown);
    // An increase and a decrease, neither any better
    run(&mut opt, 2_000_000, 5);
    assert_eq!(f(opt.current_step_size), grown);
    run(&mut opt, 2_000_000, 5);
    assert_eq!((opt.total_experiments, opt.total_accepts, opt.no_improvement_streak), (3, 1, 1));
    assert_eq!(f(opt.current_step_size), grown * 0.7);
}

#[test]
fn one_improvement_saves_the_cycle() {
    let mut opt = ThroughputOptimizer::new(short_config(), 2, 0);
    let mut now = 0;
    let mut run = |opt: &mut ThroughputOptimizer, bandwidth: u64, ticks: u64| {
        for _ in 0..ticks {
            now += SECOND;
            opt.tick(&make_snapshot(&[bandwidth, bandwidth], &[0.0, 0.0]), now);
        }
    };
    run(&mut opt, 1_000_000, 3);
    run(&mut opt, 2_000_000, 2);
    assert!(opt.cycle_improved);
    run(&mut opt, 2_000_000, 10);
    assert_eq!((opt.total_experiments, opt.next_link_index, opt.cycle_improved), (3, 0, false));
    assert_eq!(f(opt.current_step_size), 0.10 * 1.2);
}
