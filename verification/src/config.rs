//! Configuration.

use crate::binary64::{lemma_fraction_order, lemma_fractions_apart, lemma_whole_fraction, Binary64};
use crate::shortest::{float_text, push_float};
use crate::text::{copy_of, decimal, push_decimal, same};
use vstd::prelude::*;

verus! {

/// Main configuration structure.
/// All A/B testable parameters are here.
#[derive(Debug)]
pub struct Config {
    /// Flow classifier settings
    pub flow_classifier: FlowClassifierConfig,
    /// Chunk aggregator settings
    pub chunk_aggregator: ChunkAggregatorConfig,
    /// Link scheduler settings
    pub link_scheduler: LinkSchedulerConfig,
    /// Announcer settings
    pub announcer: AnnouncerConfig,
    /// Receiver settings
    pub receiver: ReceiverConfig,
    /// Stats collector settings
    pub stats: StatsConfig,
    /// Testing settings
    pub testing: TestingConfig,
    /// Logging settings (runtime toggleable)
    pub logging: LoggingConfig,
    /// Realtime traffic detection settings
    pub realtime: RealtimeConfig,
    /// Rate control settings (Glorytun/MUD-style)
    pub rate_control: RateControlConfig,
}

/// What a [`Config`] holds.
#[verifier::ext_equal]
pub struct ConfigView {
    pub flow_classifier: FlowClassifierConfig,
    pub chunk_aggregator: ChunkAggregatorConfig,
    pub link_scheduler: LinkSchedulerView,
    pub announcer: AnnouncerView,
    pub receiver: ReceiverConfig,
    pub stats: StatsConfig,
    pub testing: TestingView,
    pub logging: LoggingView,
    pub realtime: RealtimeView,
    pub rate_control: RateControlConfig,
}

impl View for Config {
    type V = ConfigView;

    open spec fn view(&self) -> ConfigView {
        ConfigView {
            flow_classifier: self.flow_classifier,
            chunk_aggregator: self.chunk_aggregator,
            link_scheduler: self.link_scheduler@,
            announcer: self.announcer@,
            receiver: self.receiver,
            stats: self.stats,
            testing: self.testing@,
            logging: self.logging@,
            realtime: self.realtime@,
            rate_control: self.rate_control,
        }
    }
}

impl Clone for Config {
    fn clone(&self) -> (r: Config)
        ensures
            r@ == self@,
    {
        Config {
            flow_classifier: self.flow_classifier,
            chunk_aggregator: self.chunk_aggregator,
            link_scheduler: self.link_scheduler.clone(),
            announcer: self.announcer.clone(),
            receiver: self.receiver,
            stats: self.stats,
            testing: self.testing.clone(),
            logging: self.logging.clone(),
            realtime: self.realtime.clone(),
            rate_control: self.rate_control,
        }
    }
}

/// Flow classifier settings.
#[derive(Debug, Clone, Copy)]
pub struct FlowClassifierConfig {
    /// Below this ratio of fastest link, use single-link (default: 0.66)
    pub single_link_threshold: Binary64,
    /// Above this ratio, use multi-link (default: 0.90)
    pub multi_link_threshold: Binary64,
    /// How long flow must sustain before switching to multi-link (ms)
    pub monitor_duration_ms: u64,
    /// Sliding window for bandwidth estimation (ms)
    pub flow_window_ms: u64,
    /// Flow expiry timeout (ms) - remove inactive flows
    pub flow_expiry_ms: u64,
    /// Packets/sec threshold for realtime cadence detection
    pub realtime_pps_threshold: u32,
    /// Sampling window for cadence detection (ms)
    pub realtime_window_ms: u64,
}

/// Chunk aggregator settings.
#[derive(Debug, Clone, Copy)]
pub struct ChunkAggregatorConfig {
    /// Minimum chunk size (bytes)
    pub min_chunk_size: usize,
    /// Maximum chunk size (bytes)
    pub max_chunk_size: usize,
    /// Multiplier on BDP calculation
    pub bdp_multiplier: Binary64,
    /// Maximum wait before sending partial chunk (ms)
    pub aggregation_timeout_ms: u64,
}

/// Link scheduler settings.
#[derive(Debug)]
pub struct LinkSchedulerConfig {
    /// Target arrival synchronization window (ms)
    pub sync_interval_ms: u64,
    /// Maximum delay for synchronization (ms)
    pub max_send_delay_ms: u64,
    /// Enable/disable arrival synchronization
    pub enable_sync: bool,
    /// Scheduling strategy of bulk transfers: "tiered_fill", "round_robin",
    /// "single_best", "weighted"
    pub strategy: String,
    /// Link tier configuration (priority order, capacities)
    pub link_tiers: Vec<LinkTierConfig>,
    /// Enable flow affinity (same flow stays on same link)
    pub flow_affinity: bool,
    /// Flow affinity timeout - reassign flow after this many seconds of inactivity
    pub flow_affinity_timeout_secs: u64,
}

/// Settings of a single link tier.
#[derive(Debug)]
pub struct LinkTierConfig {
    /// Link ID (0-4)
    pub link_id: usize,
    /// Priority (lower = higher priority, filled first)
    pub priority: usize,
    /// Capacity in bytes/sec (download direction)
    pub capacity_down_bps: u64,
    /// Capacity in bytes/sec (upload direction)
    pub capacity_up_bps: u64,
    /// Utilization threshold before overflow to next tier (0.0-1.0, e.g., 0.90)
    pub utilization_threshold: Binary64,
    /// Is this link eligible for realtime traffic?
    pub realtime_eligible: bool,
    /// Link type for reference: "adsl" or "starlink"
    pub link_type: String,
}

/// Announcer settings.
#[derive(Debug)]
pub struct AnnouncerConfig {
    /// Enable mode: "auto", "true", "false"
    pub enabled: String,
    /// How many chunks to announce ahead
    pub lookahead_count: usize,
    /// CPU timing safety margin (microseconds)
    pub safety_margin_us: u64,
}

/// Receiver settings.
#[derive(Debug, Clone, Copy)]
pub struct ReceiverConfig {
    /// Maximum wait for missing chunk (ms)
    pub reorder_timeout_ms: u64,
    /// Maximum buffered chunks per flow
    pub max_buffer_chunks: usize,
    /// Forward in-order chunks immediately
    pub immediate_forward: bool,
}

/// Stats collector settings.
#[derive(Debug, Clone, Copy)]
pub struct StatsConfig {
    /// EWMA smoothing factor (0.0 - 1.0)
    pub ewma_alpha: Binary64,
    /// RTT probe frequency (ms)
    pub probe_interval_ms: u64,
    /// Window for bandwidth calculation (ms)
    pub bandwidth_window_ms: u64,
}

/// Testing settings.
#[derive(Debug)]
pub struct TestingConfig {
    /// Enable A/B testing mode
    pub ab_testing_enabled: bool,
    /// Metrics collection interval (ms)
    pub metrics_interval_ms: u64,
    /// Log detailed metrics to file
    pub log_metrics: bool,
    /// Metrics log file path
    pub metrics_log_path: String,
}

/// Logging settings (runtime toggleable).
#[derive(Debug)]
pub struct LoggingConfig {
    /// Enable debug logging (runtime toggleable)
    pub debug_enabled: bool,
    /// Log scheduler decisions (which link selected, why)
    pub log_scheduler: bool,
    /// Log flow classification decisions
    pub log_flows: bool,
    /// Log chunk aggregation details
    pub log_chunks: bool,
    /// Log link statistics updates
    pub log_stats: bool,
    /// Log RTT measurements
    pub log_rtt: bool,
    /// Log file path (empty = stdout only)
    pub log_file_path: String,
    /// Log rotation size in MB (0 = no rotation)
    pub log_rotation_mb: u64,
}

/// Realtime traffic detection settings.
#[derive(Debug)]
pub struct RealtimeConfig {
    /// UDP ports considered realtime (VoIP, gaming)
    pub realtime_udp_ports: Vec<u16>,
    /// TCP ports considered realtime (SSH, etc.)
    pub realtime_tcp_ports: Vec<u16>,
    /// Maximum packet size for realtime classification (bytes)
    pub max_realtime_packet_size: usize,
    /// Force realtime traffic to ADSL-only links
    pub force_adsl_only: bool,
}

/// Throughput optimizer settings.
#[derive(Debug, Clone, Copy)]
pub struct OptimizerConfig {
    /// Master toggle
    pub enabled: bool,
    /// Length of a baseline or an experiment (seconds)
    pub measurement_window_secs: u64,
    /// Initial perturbation of a weight factor, as a fraction
    pub step_size: Binary64,
    /// Least improvement, as a fraction, that an experiment is accepted for
    pub min_improvement: Binary64,
    /// Greatest weight factor
    pub max_weight_factor: Binary64,
    /// Least weight factor
    pub min_weight_factor: Binary64,
    /// Pause between experiments (seconds)
    pub cooldown_secs: u64,
    /// Throughput samples kept
    pub history_window_size: usize,
    /// Throughput (bytes/sec) below which the optimizer is dormant
    pub min_active_throughput: u64,
    /// Growth of the step on success
    pub step_growth_factor: Binary64,
    /// Shrinkage of the step after a full cycle without improvement
    pub step_shrink_factor: Binary64,
    /// Least step
    pub min_step_size: Binary64,
    /// Greatest step
    pub max_step_size: Binary64,
}

/// Glorytun/MUD-style adaptive rate control configuration.
#[derive(Debug, Clone, Copy)]
pub struct RateControlConfig {
    /// Master toggle; when false, falls back to static weights
    pub enabled: bool,
    /// Probe send interval (ms): how often to send probe packets per link
    pub probe_interval_ms: u64,
    /// Minimum rate as fraction of configured max (prevents death spiral)
    pub min_rate_fraction: Binary64,
    /// Maximum rate change per cycle as fraction of current rate
    pub max_rate_change_fraction: Binary64,
    /// How much slower than we send the remote may receive, as a fraction,
    /// before congestion is declared
    pub congestion_threshold: Binary64,
    /// Rate reduction on congestion: new_rate = this * rx_rate
    pub congestion_reduction: Binary64,
    /// Growth factor when healthy: rate += rate * this
    pub growth_factor: Binary64,
    /// Minimum packets before loss calculation is valid
    pub loss_min_packets: u64,
    /// Loss threshold (0-255 scale) to enter LOSSY state
    pub loss_threshold: u8,
    /// Loss threshold (0-255 scale) to enter DOWN state
    pub loss_down_threshold: u8,
    /// No probe response timeout (ms) to enter DOWN state
    pub down_timeout_ms: u64,
    /// Number of successful probe responses to recover from DOWN to RUNNING
    pub probe_recovery_count: u32,
    /// RTT EWMA smoothing factor (7:1 ratio = 0.125)
    pub rtt_ewma_alpha: Binary64,
    /// RTT variance EWMA smoothing factor (3:1 ratio = 0.25)
    pub rtt_var_alpha: Binary64,
    /// Enable TAPA (Traffic-Aware Probe Attenuation), which adjusts probe
    /// trust based on traffic load
    pub tapa_enabled: bool,
    /// Traffic load below this fraction = probes fully trusted
    pub tapa_idle_threshold: Binary64,
    /// Traffic load above this fraction = probes minimally trusted
    pub tapa_heavy_threshold: Binary64,
    /// Minimum probe confidence floor (never fully ignore probes)
    pub tapa_min_confidence: Binary64,
    /// Loss threshold multiplier when probe confidence < 0.5
    pub tapa_loss_threshold_multiplier: u8,
    /// Enable accelerated loss decay when traffic subsides
    pub tapa_accelerated_recovery: bool,
    /// Accelerated decay fraction (applied when traffic drops)
    pub tapa_recovery_decay: Binary64,
    /// Enable cross-link correlation to suppress all-link phantom loss
    pub tapa_cross_link_check: bool,
}

impl RateControlConfig {
    /// The default settings.
    pub open spec fn standard() -> RateControlConfig {
        RateControlConfig {
            enabled: true,
            probe_interval_ms: 200,
            min_rate_fraction: Binary64::fraction(10, 100),
            max_rate_change_fraction: Binary64::fraction(10, 100),
            congestion_threshold: Binary64::fraction(125, 1000),
            congestion_reduction: Binary64::fraction(875, 1000),
            growth_factor: Binary64::fraction(10, 100),
            loss_min_packets: 1000,
            loss_threshold: 20,
            loss_down_threshold: 230,
            down_timeout_ms: 5000,
            probe_recovery_count: 3,
            rtt_ewma_alpha: Binary64::fraction(125, 1000),
            rtt_var_alpha: Binary64::fraction(25, 100),
            tapa_enabled: true,
            tapa_idle_threshold: Binary64::fraction(20, 100),
            tapa_heavy_threshold: Binary64::fraction(70, 100),
            tapa_min_confidence: Binary64::fraction(10, 100),
            tapa_loss_threshold_multiplier: 4,
            tapa_accelerated_recovery: true,
            tapa_recovery_decay: Binary64::fraction(75, 100),
            tapa_cross_link_check: true,
        }
    }
}

impl Default for RateControlConfig {
    fn default() -> (r: RateControlConfig)
        ensures
            r == RateControlConfig::standard(),
    {
        RateControlConfig {
            enabled: true,
            probe_interval_ms: 200,
            min_rate_fraction: Binary64::ratio(10, 100),
            max_rate_change_fraction: Binary64::ratio(10, 100),
            congestion_threshold: Binary64::ratio(125, 1000),
            congestion_reduction: Binary64::ratio(875, 1000),
            growth_factor: Binary64::ratio(10, 100),
            loss_min_packets: 1000,
            loss_threshold: 20,
            loss_down_threshold: 230,
            down_timeout_ms: 5000,
            probe_recovery_count: 3,
            rtt_ewma_alpha: Binary64::ratio(125, 1000),
            rtt_var_alpha: Binary64::ratio(25, 100),
            tapa_enabled: true,
            tapa_idle_threshold: Binary64::ratio(20, 100),
            tapa_heavy_threshold: Binary64::ratio(70, 100),
            tapa_min_confidence: Binary64::ratio(10, 100),
            tapa_loss_threshold_multiplier: 4,
            tapa_accelerated_recovery: true,
            tapa_recovery_decay: Binary64::ratio(75, 100),
            tapa_cross_link_check: true,
        }
    }
}

// ---------------------------------------------------------------------------
// Views and copies
// ---------------------------------------------------------------------------

/// What a [`LinkTierConfig`] holds.
#[verifier::ext_equal]
pub struct LinkTierView {
    pub link_id: usize,
    pub priority: usize,
    pub capacity_down_bps: u64,
    pub capacity_up_bps: u64,
    pub utilization_threshold: Binary64,
    pub realtime_eligible: bool,
    pub link_type: Seq<char>,
}

impl View for LinkTierConfig {
    type V = LinkTierView;

    open spec fn view(&self) -> LinkTierView {
        LinkTierView {
            link_id: self.link_id,
            priority: self.priority,
            capacity_down_bps: self.capacity_down_bps,
            capacity_up_bps: self.capacity_up_bps,
            utilization_threshold: self.utilization_threshold,
            realtime_eligible: self.realtime_eligible,
            link_type: self.link_type@,
        }
    }
}

impl Clone for LinkTierConfig {
    fn clone(&self) -> (r: LinkTierConfig)
        ensures
            r@ == self@,
    {
        LinkTierConfig {
            link_id: self.link_id,
            priority: self.priority,
            capacity_down_bps: self.capacity_down_bps,
            capacity_up_bps: self.capacity_up_bps,
            utilization_threshold: self.utilization_threshold,
            realtime_eligible: self.realtime_eligible,
            link_type: copy_of(&self.link_type),
        }
    }
}

/// What a [`LinkSchedulerConfig`] holds.
#[verifier::ext_equal]
pub struct LinkSchedulerView {
    pub sync_interval_ms: u64,
    pub max_send_delay_ms: u64,
    pub enable_sync: bool,
    pub strategy: Seq<char>,
    pub link_tiers: Seq<LinkTierView>,
    pub flow_affinity: bool,
    pub flow_affinity_timeout_secs: u64,
}

impl View for LinkSchedulerConfig {
    type V = LinkSchedulerView;

    open spec fn view(&self) -> LinkSchedulerView {
        LinkSchedulerView {
            sync_interval_ms: self.sync_interval_ms,
            max_send_delay_ms: self.max_send_delay_ms,
            enable_sync: self.enable_sync,
            strategy: self.strategy@,
            link_tiers: self.link_tiers@.map_values(|t: LinkTierConfig| t@),
            flow_affinity: self.flow_affinity,
            flow_affinity_timeout_secs: self.flow_affinity_timeout_secs,
        }
    }
}

impl Clone for LinkSchedulerConfig {
    fn clone(&self) -> (r: LinkSchedulerConfig)
        ensures
            r@ == self@,
    {
        LinkSchedulerConfig {
            sync_interval_ms: self.sync_interval_ms,
            max_send_delay_ms: self.max_send_delay_ms,
            enable_sync: self.enable_sync,
            strategy: copy_of(&self.strategy),
            link_tiers: copy_tiers(&self.link_tiers),
            flow_affinity: self.flow_affinity,
            flow_affinity_timeout_secs: self.flow_affinity_timeout_secs,
        }
    }
}

/// What a [`AnnouncerConfig`] holds.
#[verifier::ext_equal]
pub struct AnnouncerView {
    pub enabled: Seq<char>,
    pub lookahead_count: usize,
    pub safety_margin_us: u64,
}

impl View for AnnouncerConfig {
    type V = AnnouncerView;

    open spec fn view(&self) -> AnnouncerView {
        AnnouncerView {
            enabled: self.enabled@,
            lookahead_count: self.lookahead_count,
            safety_margin_us: self.safety_margin_us,
        }
    }
}

impl Clone for AnnouncerConfig {
    fn clone(&self) -> (r: AnnouncerConfig)
        ensures
            r@ == self@,
    {
        AnnouncerConfig {
            enabled: copy_of(&self.enabled),
            lookahead_count: self.lookahead_count,
            safety_margin_us: self.safety_margin_us,
        }
    }
}

/// What a [`TestingConfig`] holds.
#[verifier::ext_equal]
pub struct TestingView {
    pub ab_testing_enabled: bool,
    pub metrics_interval_ms: u64,
    pub log_metrics: bool,
    pub metrics_log_path: Seq<char>,
}

impl View for TestingConfig {
    type V = TestingView;

    open spec fn view(&self) -> TestingView {
        TestingView {
            ab_testing_enabled: self.ab_testing_enabled,
            metrics_interval_ms: self.metrics_interval_ms,
            log_metrics: self.log_metrics,
            metrics_log_path: self.metrics_log_path@,
        }
    }
}

impl Clone for TestingConfig {
    fn clone(&self) -> (r: TestingConfig)
        ensures
            r@ == self@,
    {
        TestingConfig {
            ab_testing_enabled: self.ab_testing_enabled,
            metrics_interval_ms: self.metrics_interval_ms,
            log_metrics: self.log_metrics,
            metrics_log_path: copy_of(&self.metrics_log_path),
        }
    }
}

/// What a [`LoggingConfig`] holds.
#[verifier::ext_equal]
pub struct LoggingView {
    pub debug_enabled: bool,
    pub log_scheduler: bool,
    pub log_flows: bool,
    pub log_chunks: bool,
    pub log_stats: bool,
    pub log_rtt: bool,
    pub log_file_path: Seq<char>,
    pub log_rotation_mb: u64,
}

impl View for LoggingConfig {
    type V = LoggingView;

    open spec fn view(&self) -> LoggingView {
        LoggingView {
            debug_enabled: self.debug_enabled,
            log_scheduler: self.log_scheduler,
            log_flows: self.log_flows,
            log_chunks: self.log_chunks,
            log_stats: self.log_stats,
            log_rtt: self.log_rtt,
            log_file_path: self.log_file_path@,
            log_rotation_mb: self.log_rotation_mb,
        }
    }
}

impl Clone for LoggingConfig {
    fn clone(&self) -> (r: LoggingConfig)
        ensures
            r@ == self@,
    {
        LoggingConfig {
            debug_enabled: self.debug_enabled,
            log_scheduler: self.log_scheduler,
            log_flows: self.log_flows,
            log_chunks: self.log_chunks,
            log_stats: self.log_stats,
            log_rtt: self.log_rtt,
            log_file_path: copy_of(&self.log_file_path),
            log_rotation_mb: self.log_rotation_mb,
        }
    }
}

/// What a [`RealtimeConfig`] holds.
#[verifier::ext_equal]
pub struct RealtimeView {
    pub realtime_udp_ports: Seq<u16>,
    pub realtime_tcp_ports: Seq<u16>,
    pub max_realtime_packet_size: usize,
    pub force_adsl_only: bool,
}

impl View for RealtimeConfig {
    type V = RealtimeView;

    open spec fn view(&self) -> RealtimeView {
        RealtimeView {
            realtime_udp_ports: self.realtime_udp_ports@,
            realtime_tcp_ports: self.realtime_tcp_ports@,
            max_realtime_packet_size: self.max_realtime_packet_size,
            force_adsl_only: self.force_adsl_only,
        }
    }
}

impl Clone for RealtimeConfig {
    fn clone(&self) -> (r: RealtimeConfig)
        ensures
            r@ == self@,
    {
        RealtimeConfig {
            realtime_udp_ports: copy_ports(&self.realtime_udp_ports),
            realtime_tcp_ports: copy_ports(&self.realtime_tcp_ports),
            max_realtime_packet_size: self.max_realtime_packet_size,
            force_adsl_only: self.force_adsl_only,
        }
    }
}

fn copy_ports(ports: &Vec<u16>) -> (r: Vec<u16>)
    ensures
        r@ == ports@,
{
    let mut r: Vec<u16> = Vec::new();
    let mut i: usize = 0;
    while i < ports.len()
        invariant
            i <= ports@.len(),
            r@ == ports@.take(i as int),
        decreases ports.len() - i,
    {
        r.push(ports[i]);
        i = i + 1;
        assert(r@ =~= ports@.take(i as int));
    }
    assert(r@ =~= ports@);
    r
}

fn copy_tiers(tiers: &Vec<LinkTierConfig>) -> (r: Vec<LinkTierConfig>)
    ensures
        r@.map_values(|t: LinkTierConfig| t@) == tiers@.map_values(|t: LinkTierConfig| t@),
{
    let mut r: Vec<LinkTierConfig> = Vec::new();
    let mut i: usize = 0;
    while i < tiers.len()
        invariant
            i <= tiers@.len(),
            r@.len() == i,
            forall|j: int| 0 <= j < i ==> (#[trigger] r@[j])@ == tiers@[j]@,
        decreases tiers.len() - i,
    {
        r.push(tiers[i].clone());
        i = i + 1;
    }
    assert(r@.map_values(|t: LinkTierConfig| t@) =~= tiers@.map_values(|t: LinkTierConfig| t@));
    r
}

// ---------------------------------------------------------------------------
// Defaults
// ---------------------------------------------------------------------------

impl LinkTierView {
    /// An ADSL tier: 62.5 Mbps down, 12.7 Mbps up, filled to 90% to avoid
    /// crosstalk, good for realtime traffic.
    pub open spec fn adsl(link_id: usize, priority: usize) -> LinkTierView {
        LinkTierView {
            link_id,
            priority,
            capacity_down_bps: 7_812_500,
            capacity_up_bps: 1_587_500,
            utilization_threshold: Binary64::fraction(90, 100),
            realtime_eligible: true,
            link_type: "adsl"@,
        }
    }

    /// A Starlink tier: 220 Mbps down, 20 Mbps up, filled to 95%; its latency
    /// is too high and variable for realtime traffic.
    pub open spec fn starlink(link_id: usize, priority: usize) -> LinkTierView {
        LinkTierView {
            link_id,
            priority,
            capacity_down_bps: 27_500_000,
            capacity_up_bps: 2_500_000,
            utilization_threshold: Binary64::fraction(95, 100),
            realtime_eligible: false,
            link_type: "starlink"@,
        }
    }
}

impl ConfigView {
    /// The default configuration.
    pub open spec fn standard() -> ConfigView {
        ConfigView {
            flow_classifier: FlowClassifierConfig {
                single_link_threshold: Binary64::fraction(66, 100),
                multi_link_threshold: Binary64::fraction(90, 100),
                monitor_duration_ms: 2000,
                flow_window_ms: 1000,
                flow_expiry_ms: 30000,
                realtime_pps_threshold: 10,
                realtime_window_ms: 1000,
            },
            chunk_aggregator: ChunkAggregatorConfig {
                min_chunk_size: 1200,
                max_chunk_size: 1400,
                bdp_multiplier: Binary64::of_nat(1),
                aggregation_timeout_ms: 5,
            },
            link_scheduler: LinkSchedulerView {
                sync_interval_ms: 50,
                max_send_delay_ms: 100,
                enable_sync: false,
                strategy: "tiered_fill"@,
                link_tiers: seq![
                    LinkTierView::adsl(2, 1),
                    LinkTierView::adsl(0, 2),
                    LinkTierView::adsl(4, 3),
                    LinkTierView::starlink(1, 4),
                    LinkTierView::starlink(3, 5),
                ],
                flow_affinity: true,
                flow_affinity_timeout_secs: 30,
            },
            announcer: AnnouncerView { enabled: "auto"@, lookahead_count: 10, safety_margin_us: 100 },
            receiver: ReceiverConfig { reorder_timeout_ms: 25, max_buffer_chunks: 10000, immediate_forward: true },
            stats: StatsConfig {
                ewma_alpha: Binary64::fraction(2, 10),
                probe_interval_ms: 1000,
                bandwidth_window_ms: 1000,
            },
            testing: TestingView {
                ab_testing_enabled: true,
                metrics_interval_ms: 1000,
                log_metrics: true,
                metrics_log_path: "./metrics.jsonl"@,
            },
            logging: LoggingView {
                debug_enabled: false,
                log_scheduler: false,
                log_flows: false,
                log_chunks: false,
                log_stats: true,
                log_rtt: false,
                log_file_path: "./chainlightning.log"@,
                log_rotation_mb: 100,
            },
            realtime: RealtimeView {
                realtime_udp_ports: seq![
                    5060u16,
                    5061,
                    3478,
                    3479,
                    16384,
                    16385,
                    16386,
                    16387,
                    27015,
                    27016,
                    27017,
                    27018,
                ],
                realtime_tcp_ports: seq![22u16, 23],
                max_realtime_packet_size: 600,
                force_adsl_only: true,
            },
            rate_control: RateControlConfig::standard(),
        }
    }
}

fn adsl_tier(link_id: usize, priority: usize) -> (r: LinkTierConfig)
    ensures
        r@ == LinkTierView::adsl(link_id, priority),
{
    LinkTierConfig {
        link_id,
        priority,
        capacity_down_bps: 7_812_500,
        capacity_up_bps: 1_587_500,
        utilization_threshold: Binary64::ratio(90, 100),
        realtime_eligible: true,
        link_type: copy_of("adsl"),
    }
}

fn starlink_tier(link_id: usize, priority: usize) -> (r: LinkTierConfig)
    ensures
        r@ == LinkTierView::starlink(link_id, priority),
{
    LinkTierConfig {
        link_id,
        priority,
        capacity_down_bps: 27_500_000,
        capacity_up_bps: 2_500_000,
        utilization_threshold: Binary64::ratio(95, 100),
        realtime_eligible: false,
        link_type: copy_of("starlink"),
    }
}

impl Default for Config {
    fn default() -> (r: Config)
        ensures
            r@ == ConfigView::standard(),
    {
        let r: Config = Config {
            flow_classifier: FlowClassifierConfig {
                single_link_threshold: Binary64::ratio(66, 100),
                multi_link_threshold: Binary64::ratio(90, 100),
                monitor_duration_ms: 2000,
                flow_window_ms: 1000,
                flow_expiry_ms: 30000,
                realtime_pps_threshold: 10,
                realtime_window_ms: 1000,
            },
            // One chunk is one UDP datagram: no IP fragmentation.
            chunk_aggregator: ChunkAggregatorConfig {
                min_chunk_size: 1200,
                max_chunk_size: 1400,
                bdp_multiplier: Binary64::from_u64(1),
                aggregation_timeout_ms: 5,
            },
            link_scheduler: LinkSchedulerConfig {
                sync_interval_ms: 50,
                max_send_delay_ms: 100,
                enable_sync: false,
                strategy: copy_of("tiered_fill"),
                link_tiers: vec![
                    adsl_tier(2, 1),
                    adsl_tier(0, 2),
                    adsl_tier(4, 3),
                    starlink_tier(1, 4),
                    starlink_tier(3, 5),
                ],
                flow_affinity: true,
                flow_affinity_timeout_secs: 30,
            },
            announcer: AnnouncerConfig { enabled: copy_of("auto"), lookahead_count: 10, safety_margin_us: 100 },
            // The timeout covers the one-way spread of the links and jitter.
            receiver: ReceiverConfig { reorder_timeout_ms: 25, max_buffer_chunks: 10000, immediate_forward: true },
            stats: StatsConfig {
                ewma_alpha: Binary64::ratio(2, 10),
                probe_interval_ms: 1000,
                bandwidth_window_ms: 1000,
            },
            testing: TestingConfig {
                ab_testing_enabled: true,
                metrics_interval_ms: 1000,
                log_metrics: true,
                metrics_log_path: copy_of("./metrics.jsonl"),
            },
            logging: LoggingConfig {
                debug_enabled: false,
                log_scheduler: false,
                log_flows: false,
                log_chunks: false,
                log_stats: true,
                log_rtt: false,
                log_file_path: copy_of("./chainlightning.log"),
                log_rotation_mb: 100,
            },
            // SIP, STUN/TURN, the start of the RTP range, Steam; SSH, Telnet.
            realtime: RealtimeConfig {
                realtime_udp_ports: vec![
                    5060,
                    5061,
                    3478,
                    3479,
                    16384,
                    16385,
                    16386,
                    16387,
                    27015,
                    27016,
                    27017,
                    27018,
                ],
                realtime_tcp_ports: vec![22, 23],
                max_realtime_packet_size: 600,
                force_adsl_only: true,
            },
            rate_control: RateControlConfig::default(),
        };
        assert(r@.link_scheduler.link_tiers =~= ConfigView::standard().link_scheduler.link_tiers);
        assert(r@.realtime.realtime_udp_ports =~= ConfigView::standard().realtime.realtime_udp_ports);
        assert(r@.realtime.realtime_tcp_ports =~= ConfigView::standard().realtime.realtime_tcp_ports);
        r
    }
}

// ---------------------------------------------------------------------------
// Errors and validation
// ---------------------------------------------------------------------------

/// Configuration errors.
#[derive(Debug)]
pub enum ConfigError {
    IoError(String),
    ParseError(String),
    ValidationError(String),
}

impl ConfigError {
    /// The error in words.
    pub open spec fn message(self) -> Seq<char> {
        match self {
            ConfigError::IoError(e) => "IO error: "@ + e@,
            ConfigError::ParseError(e) => "Parse error: "@ + e@,
            ConfigError::ValidationError(e) => "Validation error: "@ + e@,
        }
    }

    /// The error in words.
    pub fn text(&self) -> (r: String)
        ensures
            r@ == self.message(),
    {
        match self {
            ConfigError::IoError(e) => copy_of("IO error: ").concat(e.as_str()),
            ConfigError::ParseError(e) => copy_of("Parse error: ").concat(e.as_str()),
            ConfigError::ValidationError(e) => copy_of("Validation error: ").concat(e.as_str()),
        }
    }
}

/// Whether a value is strictly between zero and one; not-a-number passes.
pub open spec fn is_ratio(x: Binary64) -> bool {
    !x.at_most(Binary64::of_nat(0)) && !Binary64::of_nat(1).at_most(x)
}

fn within_zero_and_one(x: Binary64) -> (r: bool)
    ensures
        r == is_ratio(x),
{
    !x.le(Binary64::from_u64(0)) && !Binary64::from_u64(1).le(x)
}

impl ConfigView {
    /// What is wrong with a configuration, if anything is.
    pub open spec fn problem(self) -> Option<Seq<char>> {
        if !is_ratio(self.flow_classifier.single_link_threshold) {
            Some("single_link_threshold must be between 0 and 1"@)
        } else if self.flow_classifier.multi_link_threshold.at_most(self.flow_classifier.single_link_threshold) {
            Some("multi_link_threshold must be greater than single_link_threshold"@)
        } else if self.chunk_aggregator.min_chunk_size > self.chunk_aggregator.max_chunk_size {
            Some("min_chunk_size must be <= max_chunk_size"@)
        } else if !is_ratio(self.stats.ewma_alpha) {
            Some("ewma_alpha must be between 0 and 1"@)
        } else {
            None
        }
    }

    /// Whether nothing is wrong with a configuration.
    pub open spec fn valid(self) -> bool {
        self.problem() is None
    }
}

/// Whether a result is what a check of a configuration gives.
pub open spec fn reports(r: Result<(), ConfigError>, problem: Option<Seq<char>>) -> bool {
    match problem {
        None => r is Ok,
        Some(words) => r matches Err(ConfigError::ValidationError(e)) && e@ == words,
    }
}

fn invalid(words: &str) -> (r: Result<(), ConfigError>)
    ensures
        reports(r, Some(words@)),
{
    Err(ConfigError::ValidationError(copy_of(words)))
}

impl Config {
    /// Validate configuration values.
    pub fn validate(&self) -> (r: Result<(), ConfigError>)
        ensures
            reports(r, self@.problem()),
    {
        if !within_zero_and_one(self.flow_classifier.single_link_threshold) {
            return invalid("single_link_threshold must be between 0 and 1");
        }
        if self.flow_classifier.multi_link_threshold.le(self.flow_classifier.single_link_threshold) {
            return invalid("multi_link_threshold must be greater than single_link_threshold");
        }
        if self.chunk_aggregator.min_chunk_size > self.chunk_aggregator.max_chunk_size {
            return invalid("min_chunk_size must be <= max_chunk_size");
        }
        if !within_zero_and_one(self.stats.ewma_alpha) {
            return invalid("ewma_alpha must be between 0 and 1");
        }
        Ok(())
    }

    /// A configuration as it was loaded, if it is valid.
    pub fn checked(self) -> (r: Result<Config, ConfigError>)
        ensures
            r is Ok <==> self@.valid(),
            r matches Ok(c) ==> c@ == self@,
            r matches Err(e) ==> (e matches ConfigError::ValidationError(words) && Some(words@) == self@.problem()),
    {
        match self.validate() {
            Ok(()) => Ok(self),
            Err(e) => Err(e),
        }
    }
}

// ---------------------------------------------------------------------------
// Parameters
// ---------------------------------------------------------------------------

/// Parameter value types for A/B testing.
#[derive(Debug)]
pub enum ParameterValue {
    Float(Binary64),
    Uint(u64),
    Usize(usize),
    Bool(bool),
    String(String),
}

/// What a [`ParameterValue`] holds.
pub enum ParameterView {
    Float(Binary64),
    Uint(u64),
    Usize(usize),
    Bool(bool),
    Text(Seq<char>),
}

impl View for ParameterValue {
    type V = ParameterView;

    open spec fn view(&self) -> ParameterView {
        match *self {
            ParameterValue::Float(v) => ParameterView::Float(v),
            ParameterValue::Uint(v) => ParameterView::Uint(v),
            ParameterValue::Usize(v) => ParameterView::Usize(v),
            ParameterValue::Bool(v) => ParameterView::Bool(v),
            ParameterValue::String(v) => ParameterView::Text(v@),
        }
    }
}

impl Clone for ParameterValue {
    fn clone(&self) -> (r: ParameterValue)
        ensures
            r@ == self@,
    {
        match self {
            ParameterValue::Float(v) => ParameterValue::Float(*v),
            ParameterValue::Uint(v) => ParameterValue::Uint(*v),
            ParameterValue::Usize(v) => ParameterValue::Usize(*v),
            ParameterValue::Bool(v) => ParameterValue::Bool(*v),
            ParameterValue::String(v) => ParameterValue::String(copy_of(v)),
        }
    }
}

/// A text between quotes, with escapes: what `{:?}` gives for a string.
pub uninterp spec fn quoted(s: Seq<char>) -> Seq<char>;

/// `format!` of std with `{:?}` on a string.  The contract claims only that
/// the text depends on the string alone; which characters are escaped, and
/// how, is left unsaid.
#[verifier::external_body]
fn quote(s: &str) -> (r: String)
    ensures
        r@ == quoted(s@),
{
    format!("{:?}", s)
}

/// The name of a variant and what it holds.
pub fn tagged(tag: &str, held: &str) -> (r: String)
    ensures
        r@ == tag@ + "("@ + held@ + ")"@,
{
    copy_of(tag).concat("(").concat(held).concat(")")
}

impl ParameterView {
    /// The value as text: the name of its type, and what it holds.
    pub open spec fn text(self) -> Seq<char> {
        match self {
            ParameterView::Float(v) => "Float"@ + "("@ + float_text(v) + ")"@,
            ParameterView::Uint(v) => "Uint"@ + "("@ + decimal(v as nat) + ")"@,
            ParameterView::Usize(v) => "Usize"@ + "("@ + decimal(v as nat) + ")"@,
            ParameterView::Bool(v) => "Bool"@ + "("@ + (if v {
                "true"@
            } else {
                "false"@
            }) + ")"@,
            ParameterView::Text(v) => "String"@ + "("@ + quoted(v) + ")"@,
        }
    }
}

impl ParameterValue {
    /// The value as text: the name of its type, and what it holds.
    pub fn text(&self) -> (r: String)
        ensures
            r@ == self@.text(),
    {
        let mut held: String = String::new();
        match self {
            ParameterValue::Float(v) => {
                push_float(&mut held, *v);
                assert(held@ =~= float_text(*v));
                tagged("Float", held.as_str())
            },
            ParameterValue::Uint(v) => {
                push_decimal(&mut held, *v);
                assert(held@ =~= decimal(*v as nat));
                tagged("Uint", held.as_str())
            },
            ParameterValue::Usize(v) => {
                push_decimal(&mut held, *v as u64);
                assert(held@ =~= decimal(*v as nat));
                tagged("Usize", held.as_str())
            },
            ParameterValue::Bool(v) => {
                if *v {
                    tagged("Bool", "true")
                } else {
                    tagged("Bool", "false")
                }
            },
            ParameterValue::String(v) => tagged("String", quote(v.as_str()).as_str()),
        }
    }
}

/// The parameters that can be read and set by path.
#[derive(Debug, Clone, Copy, PartialEq, Eq, Structural)]
pub enum Parameter {
    SingleLinkThreshold,
    MultiLinkThreshold,
    MonitorDuration,
    MinChunkSize,
    MaxChunkSize,
    BdpMultiplier,
    ReorderTimeout,
    SyncInterval,
    AnnouncerEnabled,
}

impl Parameter {
    /// The parameter with a path.
    pub open spec fn named(path: Seq<char>) -> Option<Parameter> {
        if path == "flow_classifier.single_link_threshold"@ {
            Some(Parameter::SingleLinkThreshold)
        } else if path == "flow_classifier.multi_link_threshold"@ {
            Some(Parameter::MultiLinkThreshold)
        } else if path == "flow_classifier.monitor_duration_ms"@ {
            Some(Parameter::MonitorDuration)
        } else if path == "chunk_aggregator.min_chunk_size"@ {
            Some(Parameter::MinChunkSize)
        } else if path == "chunk_aggregator.max_chunk_size"@ {
            Some(Parameter::MaxChunkSize)
        } else if path == "chunk_aggregator.bdp_multiplier"@ {
            Some(Parameter::BdpMultiplier)
        } else if path == "receiver.reorder_timeout_ms"@ {
            Some(Parameter::ReorderTimeout)
        } else if path == "link_scheduler.sync_interval_ms"@ {
            Some(Parameter::SyncInterval)
        } else if path == "announcer.enabled"@ {
            Some(Parameter::AnnouncerEnabled)
        } else {
            None
        }
    }

    /// The parameter with a path.
    pub fn at(path: &str) -> (r: Option<Parameter>)
        ensures
            r == Parameter::named(path@),
    {
        if same(path, "flow_classifier.single_link_threshold") {
            Some(Parameter::SingleLinkThreshold)
        } else if same(path, "flow_classifier.multi_link_threshold") {
            Some(Parameter::MultiLinkThreshold)
        } else if same(path, "flow_classifier.monitor_duration_ms") {
            Some(Parameter::MonitorDuration)
        } else if same(path, "chunk_aggregator.min_chunk_size") {
            Some(Parameter::MinChunkSize)
        } else if same(path, "chunk_aggregator.max_chunk_size") {
            Some(Parameter::MaxChunkSize)
        } else if same(path, "chunk_aggregator.bdp_multiplier") {
            Some(Parameter::BdpMultiplier)
        } else if same(path, "receiver.reorder_timeout_ms") {
            Some(Parameter::ReorderTimeout)
        } else if same(path, "link_scheduler.sync_interval_ms") {
            Some(Parameter::SyncInterval)
        } else if same(path, "announcer.enabled") {
            Some(Parameter::AnnouncerEnabled)
        } else {
            None
        }
    }
}

impl ConfigView {
    /// The value of a parameter.
    pub open spec fn value(self, parameter: Parameter) -> ParameterView {
        match parameter {
            Parameter::SingleLinkThreshold => ParameterView::Float(self.flow_classifier.single_link_threshold),
            Parameter::MultiLinkThreshold => ParameterView::Float(self.flow_classifier.multi_link_threshold),
            Parameter::MonitorDuration => ParameterView::Uint(self.flow_classifier.monitor_duration_ms),
            Parameter::MinChunkSize => ParameterView::Usize(self.chunk_aggregator.min_chunk_size),
            Parameter::MaxChunkSize => ParameterView::Usize(self.chunk_aggregator.max_chunk_size),
            Parameter::BdpMultiplier => ParameterView::Float(self.chunk_aggregator.bdp_multiplier),
            Parameter::ReorderTimeout => ParameterView::Uint(self.receiver.reorder_timeout_ms),
            Parameter::SyncInterval => ParameterView::Uint(self.link_scheduler.sync_interval_ms),
            Parameter::AnnouncerEnabled => ParameterView::Text(self.announcer.enabled),
        }
    }

    /// The configuration with a parameter set; none if the value has another
    /// type.
    pub open spec fn with_value(self, parameter: Parameter, value: ParameterView) -> Option<ConfigView> {
        match (parameter, value) {
            (Parameter::SingleLinkThreshold, ParameterView::Float(v)) => Some(
                ConfigView { flow_classifier: FlowClassifierConfig { single_link_threshold: v, ..self.flow_classifier }, ..self },
            ),
            (Parameter::MultiLinkThreshold, ParameterView::Float(v)) => Some(
                ConfigView { flow_classifier: FlowClassifierConfig { multi_link_threshold: v, ..self.flow_classifier }, ..self },
            ),
            (Parameter::MonitorDuration, ParameterView::Uint(v)) => Some(
                ConfigView { flow_classifier: FlowClassifierConfig { monitor_duration_ms: v, ..self.flow_classifier }, ..self },
            ),
            (Parameter::MinChunkSize, ParameterView::Usize(v)) => Some(
                ConfigView { chunk_aggregator: ChunkAggregatorConfig { min_chunk_size: v, ..self.chunk_aggregator }, ..self },
            ),
            (Parameter::MaxChunkSize, ParameterView::Usize(v)) => Some(
                ConfigView { chunk_aggregator: ChunkAggregatorConfig { max_chunk_size: v, ..self.chunk_aggregator }, ..self },
            ),
            (Parameter::BdpMultiplier, ParameterView::Float(v)) => Some(
                ConfigView { chunk_aggregator: ChunkAggregatorConfig { bdp_multiplier: v, ..self.chunk_aggregator }, ..self },
            ),
            (Parameter::ReorderTimeout, ParameterView::Uint(v)) => Some(
                ConfigView { receiver: ReceiverConfig { reorder_timeout_ms: v, ..self.receiver }, ..self },
            ),
            (Parameter::SyncInterval, ParameterView::Uint(v)) => Some(
                ConfigView { link_scheduler: LinkSchedulerView { sync_interval_ms: v, ..self.link_scheduler }, ..self },
            ),
            (Parameter::AnnouncerEnabled, ParameterView::Text(v)) => Some(
                ConfigView { announcer: AnnouncerView { enabled: v, ..self.announcer }, ..self },
            ),
            _ => None,
        }
    }

    /// The value of the parameter with a path.
    pub open spec fn parameter(self, path: Seq<char>) -> Option<ParameterView> {
        match Parameter::named(path) {
            Some(parameter) => Some(self.value(parameter)),
            None => None,
        }
    }

    /// The configuration with the parameter of a path set; none if there is
    /// no such parameter or the value has another type.
    pub open spec fn with_parameter(self, path: Seq<char>, value: ParameterView) -> Option<ConfigView> {
        match Parameter::named(path) {
            Some(parameter) => self.with_value(parameter, value),
            None => None,
        }
    }
}

impl Config {
    /// Get a specific parameter by path (for A/B testing).
    pub fn get_parameter(&self, path: &str) -> (r: Option<ParameterValue>)
        ensures
            r is Some <==> self@.parameter(path@) is Some,
            r matches Some(v) ==> Some(v@) == self@.parameter(path@),
    {
        match Parameter::at(path) {
            Some(Parameter::SingleLinkThreshold) => Some(ParameterValue::Float(self.flow_classifier.single_link_threshold)),
            Some(Parameter::MultiLinkThreshold) => Some(ParameterValue::Float(self.flow_classifier.multi_link_threshold)),
            Some(Parameter::MonitorDuration) => Some(ParameterValue::Uint(self.flow_classifier.monitor_duration_ms)),
            Some(Parameter::MinChunkSize) => Some(ParameterValue::Usize(self.chunk_aggregator.min_chunk_size)),
            Some(Parameter::MaxChunkSize) => Some(ParameterValue::Usize(self.chunk_aggregator.max_chunk_size)),
            Some(Parameter::BdpMultiplier) => Some(ParameterValue::Float(self.chunk_aggregator.bdp_multiplier)),
            Some(Parameter::ReorderTimeout) => Some(ParameterValue::Uint(self.receiver.reorder_timeout_ms)),
            Some(Parameter::SyncInterval) => Some(ParameterValue::Uint(self.link_scheduler.sync_interval_ms)),
            Some(Parameter::AnnouncerEnabled) => Some(ParameterValue::String(copy_of(&self.announcer.enabled))),
            None => None,
        }
    }

    /// Set a specific parameter by path (for A/B testing).  The parameter is
    /// set before the configuration is validated: where the result is an
    /// error about the values, the parameter has been changed.
    pub fn set_parameter(&mut self, path: &str, value: ParameterValue) -> (r: Result<(), ConfigError>)
        ensures
            match old(self)@.with_parameter(path@, value@) {
                Some(changed) => final(self)@ == changed && reports(r, changed.problem()),
                None => final(self)@ == old(self)@ && reports(
                    r,
                    Some("Unknown parameter or type mismatch: "@ + path@),
                ),
            },
    {
        match (Parameter::at(path), value) {
            (Some(Parameter::SingleLinkThreshold), ParameterValue::Float(v)) => {
                self.flow_classifier.single_link_threshold = v;
            },
            (Some(Parameter::MultiLinkThreshold), ParameterValue::Float(v)) => {
                self.flow_classifier.multi_link_threshold = v;
            },
            (Some(Parameter::MonitorDuration), ParameterValue::Uint(v)) => {
                self.flow_classifier.monitor_duration_ms = v;
            },
            (Some(Parameter::MinChunkSize), ParameterValue::Usize(v)) => {
                self.chunk_aggregator.min_chunk_size = v;
            },
            (Some(Parameter::MaxChunkSize), ParameterValue::Usize(v)) => {
                self.chunk_aggregator.max_chunk_size = v;
            },
            (Some(Parameter::BdpMultiplier), ParameterValue::Float(v)) => {
                self.chunk_aggregator.bdp_multiplier = v;
            },
            (Some(Parameter::ReorderTimeout), ParameterValue::Uint(v)) => {
                self.receiver.reorder_timeout_ms = v;
            },
            (Some(Parameter::SyncInterval), ParameterValue::Uint(v)) => {
                self.link_scheduler.sync_interval_ms = v;
            },
            (Some(Parameter::AnnouncerEnabled), ParameterValue::String(v)) => {
                self.announcer.enabled = v;
            },
            _ => {
                return Err(
                    ConfigError::ValidationError(copy_of("Unknown parameter or type mismatch: ").concat(path)),
                );
            },
        }
        self.validate()
    }
}

// ---------------------------------------------------------------------------
// Manager
// ---------------------------------------------------------------------------

/// Configuration manager: the current configuration and where it came from.
#[derive(Debug)]
pub struct ConfigManager {
    pub config: Config,
    pub config_path: Option<String>,
}

impl ConfigManager {
    /// The current configuration is valid.
    pub open spec fn wf(self) -> bool {
        self.config@.valid()
    }

    /// Create new ConfigManager with default config.
    pub fn new() -> (r: ConfigManager)
        ensures
            r.wf(),
            r.config@ == ConfigView::standard(),
            r.config_path is None,
    {
        proof {
            law_default_config_is_valid();
        }
        ConfigManager { config: Config::default(), config_path: None }
    }

    /// Create ConfigManager from a configuration that was read from a file.
    pub fn from_loaded(config: Config, path: &str) -> (r: Result<ConfigManager, ConfigError>)
        ensures
            r is Ok <==> config@.valid(),
            r matches Ok(m) ==> (m.wf() && m.config@ == config@ && (m.config_path matches Some(p) && p@ == path@)),
            r matches Err(e) ==> (e matches ConfigError::ValidationError(words) && Some(words@)
                == config@.problem()),
    {
        match config.checked() {
            Ok(config) => Ok(ConfigManager { config, config_path: Some(copy_of(path)) }),
            Err(e) => Err(e),
        }
    }

    /// Get current configuration.
    pub fn get(&self) -> (r: Config)
        ensures
            r@ == self.config@,
    {
        self.config.clone()
    }

    /// Update configuration.  An invalid one is refused.
    pub fn update(&mut self, new_config: Config) -> (r: Result<(), ConfigError>)
        requires
            old(self).wf(),
        ensures
            final(self).wf(),
            final(self).config_path == old(self).config_path,
            reports(r, new_config@.problem()),
            final(self).config@ == if new_config@.valid() {
                new_config@
            } else {
                old(self).config@
            },
    {
        match new_config.validate() {
            Ok(()) => {
                self.config = new_config;
                Ok(())
            },
            Err(e) => Err(e),
        }
    }

    /// Update a single parameter (for A/B testing).  What is refused changes
    /// nothing.
    pub fn set_parameter(&mut self, path: &str, value: ParameterValue) -> (r: Result<(), ConfigError>)
        requires
            old(self).wf(),
        ensures
            final(self).wf(),
            final(self).config_path == old(self).config_path,
            match old(self).config@.with_parameter(path@, value@) {
                Some(changed) => reports(r, changed.problem()) && final(self).config@ == if changed.valid() {
                    changed
                } else {
                    old(self).config@
                },
                None => final(self).config@ == old(self).config@ && reports(
                    r,
                    Some("Unknown parameter or type mismatch: "@ + path@),
                ),
            },
    {
        let mut config: Config = self.get();
        match config.set_parameter(path, value) {
            Ok(()) => self.update(config),
            Err(e) => Err(e),
        }
    }
}

impl Default for ConfigManager {
    fn default() -> (r: ConfigManager)
        ensures
            r.wf(),
            r.config@ == ConfigView::standard(),
            r.config_path is None,
    {
        Self::new()
    }
}

// ---------------------------------------------------------------------------
// Laws
// ---------------------------------------------------------------------------

/// The default configuration is valid.
pub proof fn law_default_config_is_valid()
    ensures
        ConfigView::standard().valid(),
{
    reveal(Binary64::at_most);
    lemma_strict_fraction(66, 100);
    lemma_strict_fraction(2, 10);
    lemma_fractions_apart(66, 100, 90, 100);
}

proof fn lemma_strict_fraction(n: nat, d: nat)
    requires
        0 < n < d <= 100,
    ensures
        is_ratio(Binary64::fraction(n, d)),
{
    lemma_fractions_apart(0, 1, n, d);
    lemma_fractions_apart(n, d, 1, 1);
    lemma_whole_fraction(0);
    lemma_whole_fraction(1);
}

/// A parameter that was set reads back, and every other parameter is as it
/// was.
pub proof fn law_set_parameter_reads_back(
    config: ConfigView,
    path: Seq<char>,
    other: Seq<char>,
    value: ParameterView,
)
    requires
        config.with_parameter(path, value) is Some,
    ensures
        config.with_parameter(path, value)->0.parameter(path) == Some(value),
        Parameter::named(other) != Parameter::named(path) ==> config.with_parameter(path, value)->0.parameter(other)
            == config.parameter(other),
{
}

/// A configuration is valid exactly if its thresholds and its weight lie
/// strictly between zero and one, the second threshold above the first, and its
/// chunk sizes are in order.  (Decimals of up to three places.)
pub proof fn law_what_is_valid(c: ConfigView, single: (nat, nat), multi: (nat, nat), alpha: (nat, nat))
    requires
        c.flow_classifier.single_link_threshold == Binary64::fraction(single.0, single.1),
        c.flow_classifier.multi_link_threshold == Binary64::fraction(multi.0, multi.1),
        c.stats.ewma_alpha == Binary64::fraction(alpha.0, alpha.1),
        single.0 <= 1000 && 0 < single.1 <= 1000,
        multi.0 <= 1000 && 0 < multi.1 <= 1000,
        alpha.0 <= 1000 && 0 < alpha.1 <= 1000,
    ensures
        c.valid() <==> 0 < single.0 < single.1 && single.0 * multi.1 < multi.0 * single.1
            && c.chunk_aggregator.min_chunk_size <= c.chunk_aggregator.max_chunk_size && 0 < alpha.0 < alpha.1,
{
    lemma_ratio_in_numbers(single.0, single.1);
    lemma_ratio_in_numbers(alpha.0, alpha.1);
    if single.0 * multi.1 < multi.0 * single.1 {
        lemma_fractions_apart(single.0, single.1, multi.0, multi.1);
    } else {
        lemma_fraction_order(multi.0, multi.1, single.0, single.1);
    }
}

proof fn lemma_ratio_in_numbers(n: nat, d: nat)
    requires
        n <= 1000,
        0 < d <= 1000,
    ensures
        is_ratio(Binary64::fraction(n, d)) <==> 0 < n < d,
{
    lemma_whole_fraction(0);
    lemma_whole_fraction(1);
    if n == 0 {
        lemma_fraction_order(0, d, 0, 1);
    } else {
        lemma_fractions_apart(0, 1, n, d);
    }
    if n < d {
        lemma_fractions_apart(n, d, 1, 1);
    } else {
        lemma_fraction_order(1, 1, n, d);
    }
}

/// The first thing wrong is what is reported.
pub proof fn law_first_problem_is_reported(c: ConfigView)
    ensures
        ({
            let zero = Binary64::of_nat(0);
            let one = Binary64::of_nat(1);
            let single = c.flow_classifier.single_link_threshold;
            let out = single.at_most(zero) || one.at_most(single);
            let low = c.flow_classifier.multi_link_threshold.at_most(single);
            let crossed = c.chunk_aggregator.min_chunk_size > c.chunk_aggregator.max_chunk_size;
            &&& out ==> c.problem() == Some("single_link_threshold must be between 0 and 1"@)
            &&& !out && low ==> c.problem() == Some("multi_link_threshold must be greater than single_link_threshold"@)
            &&& !out && !low && crossed ==> c.problem() == Some("min_chunk_size must be <= max_chunk_size"@)
            &&& !out && !low && !crossed && !c.valid() ==> c.problem() == Some("ewma_alpha must be between 0 and 1"@)
        }),
{
}

/// Every parameter is found under its own path, and nothing under any other.
pub proof fn law_parameters_have_paths(c: ConfigView, path: Seq<char>)
    ensures
        path == "flow_classifier.single_link_threshold"@ ==> c.parameter(path) == Some(
            ParameterView::Float(c.flow_classifier.single_link_threshold),
        ),
        path == "flow_classifier.multi_link_threshold"@ ==> c.parameter(path) == Some(
            ParameterView::Float(c.flow_classifier.multi_link_threshold),
        ),
        path == "flow_classifier.monitor_duration_ms"@ ==> c.parameter(path) == Some(
            ParameterView::Uint(c.flow_classifier.monitor_duration_ms),
        ),
        path == "chunk_aggregator.min_chunk_size"@ ==> c.parameter(path) == Some(
            ParameterView::Usize(c.chunk_aggregator.min_chunk_size),
        ),
        path == "chunk_aggregator.max_chunk_size"@ ==> c.parameter(path) == Some(
            ParameterView::Usize(c.chunk_aggregator.max_chunk_size),
        ),
        path == "chunk_aggregator.bdp_multiplier"@ ==> c.parameter(path) == Some(
            ParameterView::Float(c.chunk_aggregator.bdp_multiplier),
        ),
        path == "receiver.reorder_timeout_ms"@ ==> c.parameter(path) == Some(
            ParameterView::Uint(c.receiver.reorder_timeout_ms),
        ),
        path == "link_scheduler.sync_interval_ms"@ ==> c.parameter(path) == Some(
            ParameterView::Uint(c.link_scheduler.sync_interval_ms),
        ),
        path == "announcer.enabled"@ ==> c.parameter(path) == Some(ParameterView::Text(c.announcer.enabled)),
        c.parameter(path) is Some ==> path == "flow_classifier.single_link_threshold"@ || path
            == "flow_classifier.multi_link_threshold"@ || path == "flow_classifier.monitor_duration_ms"@ || path
            == "chunk_aggregator.min_chunk_size"@ || path == "chunk_aggregator.max_chunk_size"@ || path
            == "chunk_aggregator.bdp_multiplier"@ || path == "receiver.reorder_timeout_ms"@ || path
            == "link_scheduler.sync_interval_ms"@ || path == "announcer.enabled"@,
{
    reveal_strlit("flow_classifier.single_link_threshold");
    reveal_strlit("flow_classifier.multi_link_threshold");
    reveal_strlit("flow_classifier.monitor_duration_ms");
    reveal_strlit("chunk_aggregator.min_chunk_size");
    reveal_strlit("chunk_aggregator.max_chunk_size");
    reveal_strlit("chunk_aggregator.bdp_multiplier");
    reveal_strlit("receiver.reorder_timeout_ms");
    reveal_strlit("link_scheduler.sync_interval_ms");
    reveal_strlit("announcer.enabled");
    assert("flow_classifier.single_link_threshold"@.len() == 37);
    assert("flow_classifier.multi_link_threshold"@.len() == 36);
    assert("flow_classifier.monitor_duration_ms"@.len() == 35);
    assert("chunk_aggregator.min_chunk_size"@.len() == 31);
    assert("chunk_aggregator.max_chunk_size"@.len() == 31);
    assert("chunk_aggregator.bdp_multiplier"@.len() == 31);
    assert("receiver.reorder_timeout_ms"@.len() == 27);
    assert("link_scheduler.sync_interval_ms"@.len() == 31);
    assert("announcer.enabled"@.len() == 17);
    assert("chunk_aggregator.min_chunk_size"@[18] == 'i');
    assert("chunk_aggregator.max_chunk_size"@[18] == 'a');
    assert("chunk_aggregator.bdp_multiplier"@[18] == 'd');
    assert("link_scheduler.sync_interval_ms"@[0] == 'l');
    assert("chunk_aggregator.min_chunk_size"@[0] == 'c');
    assert("chunk_aggregator.max_chunk_size"@[0] == 'c');
    assert("chunk_aggregator.bdp_multiplier"@[0] == 'c');
}

/// A value is taken exactly under a path whose parameter has its kind.
pub proof fn law_kinds_must_match(c: ConfigView, path: Seq<char>, value: ParameterView)
    ensures
        c.with_parameter(path, value) is Some <==> (c.parameter(path) matches Some(old_value) && (match value {
            ParameterView::Float(_) => old_value is Float,
            ParameterView::Uint(_) => old_value is Uint,
            ParameterView::Usize(_) => old_value is Usize,
            ParameterView::Bool(_) => old_value is Bool,
            ParameterView::Text(_) => old_value is Text,
        })),
{
}

/// What names no parameter is never touched: the settings without a path stay.
pub proof fn law_other_settings_stay(c: ConfigView, path: Seq<char>, value: ParameterView)
    requires
        c.with_parameter(path, value) is Some,
    ensures
        ({
            let after = c.with_parameter(path, value)->0;
            &&& after.testing == c.testing && after.logging == c.logging && after.realtime == c.realtime && after.stats
                == c.stats && after.rate_control == c.rate_control
            &&& after.flow_classifier.flow_window_ms == c.flow_classifier.flow_window_ms
            &&& after.link_scheduler.link_tiers == c.link_scheduler.link_tiers
            &&& after.link_scheduler.strategy == c.link_scheduler.strategy
        }),
{
}

} // verus!
