use chainlightning::binary64::Binary64;
use chainlightning::clock::on_record;
use chainlightning::config::ParameterValue;
use chainlightning::framework::{create_standard_tests, recommend, ABTest, SuccessMetric, TestConfig, TestPhase, TestSuite};
use chainlightning::metrics::{Metrics, MetricsSummary};
use chainlightning::report::{is_json_path, TestReport};
use chainlightning::scenarios::{
    standard_scenarios, Direction, PacketSizeDistribution, ScenarioBuilder, TrafficPattern,
};

const MS: u64 = 1_000_000;

fn b(x: f64) -> Binary64 {
    Binary64 { bits: x.to_bits() }
}

fn f(x: Binary64) -> f64 {
    f64::from_bits(x.bits)
}

fn two_variants(metric: SuccessMetric, with_b: bool) -> TestConfig {
    TestConfig {
        name: "Test".to_string(),
        parameter_path: "test.param".to_string(),
        baseline_value: ParameterValue::Float(b(1.0)),
        variant_a_value: ParameterValue::Float(b(2.0)),
        variant_b_value: if with_b { Some(ParameterValue::Uint(3)) } else { None },
        phase_duration: 10 * MS,
        cooldown_duration: 5 * MS,
        min_samples: 1,
        success_metric: metric,
    }
}

fn sample(mbps: f64, latency_ms: f64, loss: f64) -> Metrics {
    let mut m = Metrics::idle_at(0);
    m.throughput_down_mbps = b(mbps);
    m.latency_avg_ms = b(latency_ms);
    m.loss_ratio = b(loss);
    m
}

#[test]
fn test_ab_test_phases() {
    let config = TestConfig {
        name: "Test".to_string(),
        parameter_path: "test.param".to_string(),
        baseline_value: ParameterValue::Float(b(1.0)),
        variant_a_value: ParameterValue::Float(b(2.0)),
        variant_b_value: None,
        phase_duration: 10 * MS,
        cooldown_duration: 5 * MS,
        min_samples: 1,
        success_metric: SuccessMetric::MaxThroughput,
    };

    let test = ABTest::new(config, 0);
    assert_eq!(test.phase(), TestPhase::Baseline);
}

// ---------------------------------------------------------------------------

#[test]
fn phases_follow_each_other() {
    let mut test = ABTest::new_at(two_variants(SuccessMetric::MaxThroughput, true), 0, 100);
    let mut now = 0;
    let mut phases = vec![test.phase()];
    for mbps in [10.0, 0.0, 30.0, 0.0, 20.0] {
        test.record_metrics(sample(mbps, 1.0, 0.0));
        assert!(!test.tick(now + 4 * MS));
        now += 10 * MS;
        test.tick(now);
        phases.push(test.phase());
    }
    assert_eq!(
        phases,
        vec![
            TestPhase::Baseline,
            TestPhase::Cooldown,
            TestPhase::VariantA,
            TestPhase::Cooldown,
            TestPhase::VariantB,
            TestPhase::Complete
        ]
    );
    let r = test.result_at(200);
    assert_eq!((r.started_at, r.completed_at), (100, 200));
    let scores: Vec<f64> = r.phases.iter().map(|p| f(p.score)).collect();
    assert_eq!(scores, vec![10.0, 30.0, 20.0]);
    assert_eq!(r.winner, Some("Variant A".to_string()));
    assert_eq!(f(r.confidence), 1.0);
    assert_eq!(
        r.recommendation,
        "Variant A wins with score 30.00 (confidence: 100%). Set test.param = Float(2.0)"
    );
}

#[test]
fn confidence_is_measured_in_deviations() {
    let mut test = ABTest::new_at(two_variants(SuccessMetric::MaxThroughput, true), 0, 0);
    let mut now = 0;
    for mbps in [10.0, 0.0, 11.0, 0.0, 11.0] {
        test.record_metrics(sample(mbps, 1.0, 0.0));
        now += 10 * MS;
        test.tick(now);
    }
    let r = test.result_at(0);
    // Two thirds of the way from 10 to 11, a third above the mean.
    let scores = [10.0f64, 11.0, 11.0];
    let mean = scores.iter().sum::<f64>() / 3.0;
    let variance = scores.iter().map(|s| (s - mean).powi(2)).sum::<f64>() / 3.0;
    let expected = ((11.0 - mean).abs() / variance.sqrt()).min(1.0);
    assert_eq!(f(r.confidence), expected);
    assert_eq!(r.winner, Some("Variant A".to_string()));
    assert!(r.recommendation.contains("(confidence: 71%)"), "{}", r.recommendation);
}

#[test]
fn equal_scores_give_no_confidence() {
    let mut test = ABTest::new_at(two_variants(SuccessMetric::MaxThroughput, false), 0, 0);
    let mut now = 0;
    for mbps in [10.0, 0.0, 10.0] {
        test.record_metrics(sample(mbps, 1.0, 0.0));
        now += 10 * MS;
        test.tick(now);
    }
    assert_eq!(test.phase(), TestPhase::Complete);
    let r = test.result_at(0);
    assert_eq!((r.winner, f(r.confidence)), (Some("Baseline".to_string()), 0.0));
}

#[test]
fn one_phase_is_not_enough() {
    let mut test = ABTest::new_at(two_variants(SuccessMetric::MaxThroughput, false), 0, 0);
    test.record_metrics(sample(10.0, 1.0, 0.0));
    test.tick(10 * MS);
    let r = test.result_at(0);
    assert_eq!((r.winner, r.recommendation), (None, "Insufficient data".to_string()));
}

#[test]
fn values_follow_the_phase() {
    let mut test = ABTest::new_at(two_variants(SuccessMetric::MaxThroughput, true), 0, 0);
    assert_eq!(test.current_parameter_value().text(), "Float(1.0)");
    test.current_phase = TestPhase::VariantA;
    assert_eq!(test.current_parameter_value().text(), "Float(2.0)");
    test.current_phase = TestPhase::VariantB;
    assert_eq!(test.current_parameter_value().text(), "Uint(3)");
    test.current_phase = TestPhase::Cooldown;
    assert_eq!(test.current_parameter_value().text(), "Float(1.0)");
}

#[test]
fn scores_of_a_summary() {
    let s = MetricsSummary {
        avg_throughput_down_mbps: b(50.0),
        avg_latency_ms: b(20.0),
        max_latency_ms: b(40.0),
        avg_loss_ratio: b(0.25),
        ..MetricsSummary::default()
    };
    let score = |m: SuccessMetric| f(m.score_of(&s));
    assert_eq!(score(SuccessMetric::MaxThroughput), 50.0);
    assert_eq!(score(SuccessMetric::MinLatencyP50), 50.0);
    assert_eq!(score(SuccessMetric::MinLatencyP99), 25.0);
    assert_eq!(score(SuccessMetric::MinPacketLoss), 0.75);
    let weighted = SuccessMetric::WeightedScore {
        throughput_weight: b(0.6),
        latency_weight: b(0.3),
        loss_weight: b(0.1),
    };
    assert_eq!(score(weighted), 0.5 * 0.6 + 0.5 * 0.3 + 0.75 * 0.1);
    let none = MetricsSummary::default();
    assert_eq!(f(SuccessMetric::MinLatencyP50.score_of(&none)), 0.0);
}

#[test]
fn idle_samples_do_not_lower_the_mean() {
    let mut test = ABTest::new_at(two_variants(SuccessMetric::MaxThroughput, false), 0, 0);
    for mbps in [0.0, 10.0, 20.0, 0.0] {
        test.record_metrics(sample(mbps, 0.0, 0.5));
    }
    test.tick(10 * MS);
    let p = &test.results[0];
    assert_eq!(p.samples, 4);
    assert_eq!(f(p.metrics_summary.avg_throughput_down_mbps), 15.0);
    assert_eq!(f(p.metrics_summary.max_throughput_down_mbps), 20.0);
    assert_eq!(f(p.metrics_summary.avg_latency_ms), 0.0);
    assert_eq!(f(p.metrics_summary.avg_loss_ratio), 0.5);
}

#[test]
fn a_suite_runs_its_tests_in_turn() {
    let mut suite = TestSuite::new();
    assert!(suite.tick(0));
    suite.add_test(two_variants(SuccessMetric::MaxThroughput, false));
    suite.add_test(two_variants(SuccessMetric::MinPacketLoss, false));
    suite.start(0);
    let mut now = 0;
    let mut done = false;
    let mut ticks = 0;
    while !done && ticks < 20 {
        suite.record_metrics(sample(10.0 + ticks as f64, 1.0, 0.0));
        now += 10 * MS;
        done = suite.tick(now);
        ticks += 1;
    }
    assert!(done);
    assert_eq!(suite.results().len(), 2);
    assert!(suite.current_test_mut().is_none());
    assert_eq!(suite.results()[0].winner, Some("Variant A".to_string()));
    assert_eq!(suite.results()[1].winner, Some("Baseline".to_string()));
}

#[test]
fn standard_tests_cover_four_parameters() {
    let tests = create_standard_tests();
    let paths: Vec<&str> = tests.iter().map(|t| t.parameter_path.as_str()).collect();
    assert_eq!(
        paths,
        vec![
            "flow_classifier.single_link_threshold",
            "chunk_aggregator.min_chunk_size",
            "chunk_aggregator.bdp_multiplier",
            "receiver.reorder_timeout_ms"
        ]
    );
    assert_eq!(tests[0].baseline_value.text(), "Float(0.66)");
    assert_eq!(tests[1].variant_b_value.as_ref().unwrap().text(), "Usize(131072)");
    assert_eq!(tests[2].variant_a_value.text(), "Float(0.5)");
    assert!(tests.iter().all(|t| t.phase_duration == 60_000 * MS && t.cooldown_duration == 10_000 * MS));
}

#[test]
fn recommendations_in_words() {
    assert_eq!(
        recommend("Baseline", b(1.234), b(0.5), "a.b", "Uint(7)"),
        "Baseline wins with score 1.23 (confidence: 50%). Set a.b = Uint(7)"
    );
}

#[test]
fn report_in_markdown() {
    let mut test = ABTest::new_at(two_variants(SuccessMetric::MaxThroughput, false), 0, 1_662_921_288_000_000_000);
    let mut now = 0;
    for mbps in [10.0, 0.0, 30.0] {
        test.record_metrics(sample(mbps, 2.5, 0.0));
        now += 10 * MS;
        test.tick(now);
    }
    let result = test.result_at(1_662_921_300_999_999_999);
    let report = TestReport::new_at("Nightly", vec![result], 1_662_921_288_000_000_000);
    assert_eq!((report.summary.total_tests, report.summary.tests_with_winner), (1, 1));
    let expected = "# Nightly\n\nGenerated: 2022-09-11 18:34:48 UTC\n\n## Summary\n\n- **Total Tests**: 1\n\
        - **Tests with Clear Winner**: 1\n- **Average Confidence**: 100.0%\n\n### Recommendations\n\n\
        1. Variant A wins with score 30.00 (confidence: 100%). Set test.param = Float(2.0)\n\n\
        ## Detailed Results\n\n### Test\n\n**Parameter**: `test.param`\n\n\
        **Duration**: 18:34:48 - 18:35:00\n\n\
        | Phase | Value | Samples | Throughput (Mbps) | Latency (ms) | Score |\n\
        |-------|-------|---------|-------------------|--------------|-------|\n\
        | Baseline | Float(1.0) | 1 | 10.00 | 2.50 | 10.00 |\n\
        | Variant A | Float(2.0) | 1 | 30.00 | 2.50 | 30.00 |\n\n\
        **Winner**: Variant A (confidence: 100%)\n\n---\n\n";
    assert_eq!(report.to_markdown(), expected);
    assert_eq!(
        report.render("then", &vec![("a".to_string(), "b".to_string())]).lines().nth(2),
        Some("Generated: then")
    );
}

#[test]
fn report_of_nothing() {
    let report = TestReport::new_at("Empty", vec![], -1);
    assert_eq!(
        report.to_markdown(),
        "# Empty\n\nGenerated: 1969-12-31 23:59:59 UTC\n\n## Summary\n\n- **Total Tests**: 0\n\
        - **Tests with Clear Winner**: 0\n- **Average Confidence**: 0.0%\n\n## Detailed Results\n\n"
    );
}

#[test]
fn report_counts_winners_only() {
    let mut results = Vec::new();
    for mbps in [[10.0, 30.0], [20.0, 10.0]] {
        let mut test = ABTest::new_at(two_variants(SuccessMetric::MaxThroughput, false), 0, 0);
        test.record_metrics(sample(mbps[0], 1.0, 0.0));
        test.tick(10 * MS);
        test.tick(20 * MS);
        test.record_metrics(sample(mbps[1], 1.0, 0.0));
        test.tick(30 * MS);
        results.push(test.result_at(0));
    }
    results.push(ABTest::new_at(two_variants(SuccessMetric::MaxThroughput, false), 0, 0).result_at(0));
    results[1].recommendation = String::new();
    let report = TestReport::new_at("Three", results, 0);
    assert_eq!((report.summary.total_tests, report.summary.tests_with_winner), (3, 2));
    assert_eq!(f(report.summary.avg_confidence), 1.0);
    assert_eq!(report.summary.recommendations.len(), 2);
    assert_eq!(report.summary.recommendations[1], "Insufficient data");
}

#[test]
fn json_by_extension() {
    assert!(is_json_path("report.json"));
    assert!(is_json_path(".json"));
    assert!(!is_json_path("json"));
    assert!(!is_json_path("report.md"));
    assert!(!is_json_path("report.JSON"));
}

#[test]
fn predefined_scenarios() {
    let s = standard_scenarios();
    let names: Vec<&str> = s.iter().map(|x| x.name.as_str()).collect();
    assert_eq!(
        names,
        vec![
            "single_link_saturation",
            "full_aggregation",
            "burst_handling",
            "latency_sensitive",
            "mixed_realistic",
            "upload_stress",
            "capacity_ramp"
        ]
    );
    let expected: Vec<f64> = s.iter().map(|x| f(x.expected_throughput_mbps())).collect();
    assert_eq!(expected, vec![220.0, 400.0, 275.0, 1.0, 150.0, 70.0, 255.0]);
    let sizes: Vec<usize> = s.iter().map(|x| x.avg_packet_size()).collect();
    assert_eq!(sizes, vec![1400, 1400, 1400, 64, 800, 1400, 1400]);
    assert_eq!(s[5].direction, Direction::Upload);
    assert_eq!(s[2].concurrent_flows, 2);
    assert_eq!(s[4].duration, 120_000 * MS);
}

#[test]
fn built_scenarios() {
    let s = ScenarioBuilder::new("mine")
        .description("words")
        .duration(5)
        .pattern(TrafficPattern::Realistic)
        .direction(Direction::Bidirectional)
        .concurrent_flows(9)
        .packet_sizes(PacketSizeDistribution::Uniform { min: 100, max: 301 })
        .build();
    assert_eq!((s.name.as_str(), s.description.as_str(), s.duration), ("mine", "words", 5));
    assert_eq!((s.direction, s.concurrent_flows, s.avg_packet_size()), (Direction::Bidirectional, 9, 200));
    let s = ScenarioBuilder::new("acks")
        .packet_sizes(PacketSizeDistribution::Bimodal { small: 64, large: 1400, small_ratio: b(0.25) })
        .build();
    assert_eq!(s.avg_packet_size(), 1066);
    assert_eq!(f(s.expected_throughput_mbps()), 100.0);
}

#[test]
fn times_are_read_from_the_clock() {
    let before = chrono::Utc::now().timestamp_nanos_opt().unwrap();
    let test = ABTest::new(two_variants(SuccessMetric::MaxThroughput, false), 0);
    let result = test.result();
    let (started, completed) = (result.started_at, result.completed_at);
    let report = TestReport::new("Clock", vec![result]);
    let after = chrono::Utc::now().timestamp_nanos_opt().unwrap();
    assert!(before <= started && started <= completed);
    assert!(completed <= report.generated_at && report.generated_at <= after);
    let mut suite = TestSuite::new();
    suite.add_test(two_variants(SuccessMetric::MaxThroughput, false));
    suite.start_at(5, 6);
    assert_eq!(suite.current_test_mut().unwrap().started_at, 6);
    assert!(!suite.tick_at(7, 8, 9));
    assert_eq!(on_record(Some(-1)), -1);
    assert_eq!(on_record(None), i64::MAX);
}

#[test]
fn dates_are_gregorian() {
    let second: i64 = 1_000_000_000;
    for (nanos, text) in [
        (0, "1970-01-01 00:00:00"),
        (951_782_400 * second, "2000-02-29 00:00:00"),
        (-2_203_891_200 * second, "1900-03-01 00:00:00"),
        (-2_203_891_200 * second - 1, "1900-02-28 23:59:59"),
        (i64::MIN, "1677-09-21 00:12:43"),
        (i64::MAX, "2262-04-11 23:47:16"),
    ] {
        let md = TestReport::new_at("Dates", vec![], nanos).to_markdown();
        assert!(md.contains(&format!("Generated: {} UTC\n", text)), "{}", md);
    }
}
