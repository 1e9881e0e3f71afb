use chainlightning::binary64::Binary64;
use chainlightning::config::{Config, ConfigError, ConfigManager, ParameterValue};

fn b(x: f64) -> Binary64 {
    Binary64 { bits: x.to_bits() }
}

fn f(x: Binary64) -> f64 {
    f64::from_bits(x.bits)
}

fn problem(r: Result<(), ConfigError>) -> String {
    match r {
        Ok(()) => String::new(),
        Err(e) => e.text(),
    }
}

#[test]
fn test_default_config_is_valid() {
    let config = Config::default();
    assert!(config.validate().is_ok());
}

#[test]
fn test_invalid_threshold() {
    let mut config = Config::default();
    config.flow_classifier.single_link_threshold = b(1.5);
    assert!(config.validate().is_err());
}

#[test]
fn test_parameter_get_set() {
    let mut config = Config::default();

    // Get
    let val = config.get_parameter("flow_classifier.single_link_threshold");
    assert!(matches!(val, Some(ParameterValue::Float(v)) if (f(v) - 0.66).abs() < 0.01));

    // Set
    config.set_parameter("flow_classifier.single_link_threshold", ParameterValue::Float(b(0.5))).unwrap();

    let val = config.get_parameter("flow_classifier.single_link_threshold");
    assert!(matches!(val, Some(ParameterValue::Float(v)) if (f(v) - 0.5).abs() < 0.01));
}

// ---------------------------------------------------------------------------

#[test]
fn defaults_are_the_documented_ones() {
    let c = Config::default();
    assert_eq!(f(c.flow_classifier.single_link_threshold), 0.66);
    assert_eq!(f(c.flow_classifier.multi_link_threshold), 0.90);
    assert_eq!(c.flow_classifier.monitor_duration_ms, 2000);
    assert_eq!((c.chunk_aggregator.min_chunk_size, c.chunk_aggregator.max_chunk_size), (1200, 1400));
    assert_eq!(f(c.chunk_aggregator.bdp_multiplier), 1.0);
    assert_eq!(c.link_scheduler.strategy, "tiered_fill");
    let ids: Vec<usize> = c.link_scheduler.link_tiers.iter().map(|t| t.link_id).collect();
    assert_eq!(ids, vec![2, 0, 4, 1, 3]);
    assert_eq!(c.link_scheduler.link_tiers[3].link_type, "starlink");
    assert_eq!(c.announcer.enabled, "auto");
    assert_eq!(c.receiver.reorder_timeout_ms, 25);
    assert_eq!(f(c.stats.ewma_alpha), 0.2);
    assert_eq!(c.testing.metrics_log_path, "./metrics.jsonl");
    assert_eq!(c.logging.log_file_path, "./chainlightning.log");
    assert_eq!(c.realtime.realtime_udp_ports.len(), 12);
    assert_eq!(c.realtime.realtime_tcp_ports, vec![22, 23]);
    assert_eq!(c.rate_control.loss_min_packets, 1000);
    assert_eq!(f(c.rate_control.congestion_threshold), 0.125);
}

#[test]
fn every_problem_is_named() {
    let mut c = Config::default();
    c.flow_classifier.single_link_threshold = b(0.0);
    assert_eq!(problem(c.validate()), "Validation error: single_link_threshold must be between 0 and 1");

    let mut c = Config::default();
    c.flow_classifier.multi_link_threshold = b(0.66);
    assert_eq!(
        problem(c.validate()),
        "Validation error: multi_link_threshold must be greater than single_link_threshold"
    );

    let mut c = Config::default();
    c.chunk_aggregator.min_chunk_size = 1401;
    assert_eq!(problem(c.validate()), "Validation error: min_chunk_size must be <= max_chunk_size");

    let mut c = Config::default();
    c.stats.ewma_alpha = b(1.0);
    assert_eq!(problem(c.validate()), "Validation error: ewma_alpha must be between 0 and 1");
}

#[test]
fn errors_in_words() {
    assert_eq!(ConfigError::IoError("gone".to_string()).text(), "IO error: gone");
    assert_eq!(ConfigError::ParseError("bad".to_string()).text(), "Parse error: bad");
}

#[test]
fn every_parameter_reads_back() {
    let values = [
        ("flow_classifier.single_link_threshold", ParameterValue::Float(b(0.4))),
        ("flow_classifier.multi_link_threshold", ParameterValue::Float(b(0.8))),
        ("flow_classifier.monitor_duration_ms", ParameterValue::Uint(7)),
        ("chunk_aggregator.min_chunk_size", ParameterValue::Usize(100)),
        ("chunk_aggregator.max_chunk_size", ParameterValue::Usize(9000)),
        ("chunk_aggregator.bdp_multiplier", ParameterValue::Float(b(2.5))),
        ("receiver.reorder_timeout_ms", ParameterValue::Uint(8)),
        ("link_scheduler.sync_interval_ms", ParameterValue::Uint(9)),
        ("announcer.enabled", ParameterValue::String("true".to_string())),
    ];
    let mut c = Config::default();
    for (path, value) in &values {
        c.set_parameter(path, value.clone()).unwrap();
        let read = c.get_parameter(path).unwrap();
        assert_eq!(format!("{:?}", read), format!("{:?}", value));
    }
    assert!(c.get_parameter("no.such.parameter").is_none());
    assert_eq!(
        problem(c.set_parameter("announcer.enabled", ParameterValue::Bool(true))),
        "Validation error: Unknown parameter or type mismatch: announcer.enabled"
    );
    assert!(c.set_parameter("no.such.parameter", ParameterValue::Uint(1)).is_err());
}

#[test]
fn an_invalid_value_stays_in_a_configuration_but_not_in_the_manager() {
    let mut c = Config::default();
    assert!(c.set_parameter("chunk_aggregator.min_chunk_size", ParameterValue::Usize(5000)).is_err());
    assert_eq!(c.chunk_aggregator.min_chunk_size, 5000);

    let mut m = ConfigManager::new();
    assert!(m.set_parameter("chunk_aggregator.min_chunk_size", ParameterValue::Usize(5000)).is_err());
    assert_eq!(m.get().chunk_aggregator.min_chunk_size, 1200);
    assert!(m.set_parameter("chunk_aggregator.min_chunk_size", ParameterValue::Usize(1300)).is_ok());
    assert_eq!(m.get().chunk_aggregator.min_chunk_size, 1300);
    assert!(m.update(c).is_err());
    assert_eq!(m.get().chunk_aggregator.min_chunk_size, 1300);
}

#[test]
fn a_manager_takes_only_valid_files() {
    let m = ConfigManager::from_loaded(Config::default(), "config.yaml").unwrap();
    assert_eq!(m.config_path, Some("config.yaml".to_string()));
    let mut c = Config::default();
    c.stats.ewma_alpha = b(-1.0);
    assert!(ConfigManager::from_loaded(c, "config.yaml").is_err());
}

#[test]
fn values_as_text() {
    let float = |x: f64| ParameterValue::Float(b(x)).text();
    assert_eq!(float(0.66), "Float(0.66)");
    assert_eq!(float(1.0), "Float(1.0)");
    assert_eq!(ParameterValue::Uint(100).text(), "Uint(100)");
    assert_eq!(ParameterValue::Usize(65536).text(), "Usize(65536)");
    assert_eq!(ParameterValue::Bool(false).text(), "Bool(false)");
    assert_eq!(ParameterValue::String("a\"b\n".to_string()).text(), "String(\"a\\\"b\\n\")");
}
