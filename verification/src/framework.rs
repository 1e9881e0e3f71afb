//! A/B testing framework.
//!
//! Runs controlled experiments to optimize parameters: a baseline phase, one
//! or two variants, cooldowns between them, and a winner by score.

use crate::accuracy::{
    lemma_at_most_mag, lemma_difference_order, lemma_negated, lemma_nonnegative_difference, lemma_over_self,
    lemma_plus_zero, lemma_same_fraction, lemma_sum_lies, lemma_times_one, lemma_times_zero, lemma_whole_difference,
    lemma_whole_product,
};
use crate::binary64::{
    lemma_fraction, lemma_fraction_order, lemma_of_nat, lemma_rounded_zero, lemma_whole_fraction, lemma_zero, Binary64,
};
use crate::clock::utc_now;
use crate::config::{ParameterValue, ParameterView};
use crate::measure::{
    law_mean_of_equals, law_mean_of_integers, law_peak_is_the_greatest, mean, mean_of, monus, peak, peak_of,
};
use crate::metrics::{Metrics, MetricsSummary, MetricsView};
use crate::order::{lemma_filter_start, lemma_filter_step};
use crate::share::total;
use crate::text::{copy_of, fixed_text, push_fixed};
use vstd::prelude::*;

verus! {

/// Test phase tracking.
#[derive(Debug, Clone, Copy, PartialEq, Eq, Structural)]
pub enum TestPhase {
    /// Baseline measurement with current config
    Baseline,
    /// Testing variant A
    VariantA,
    /// Testing variant B
    VariantB,
    /// Cooldown between tests
    Cooldown,
    /// Test complete
    Complete,
}

/// What metric defines success.
#[derive(Debug, Clone, Copy)]
pub enum SuccessMetric {
    /// Maximize throughput (bytes/sec)
    MaxThroughput,
    /// Minimize latency (p50)
    MinLatencyP50,
    /// Minimize latency (p99)
    MinLatencyP99,
    /// Minimize packet loss
    MinPacketLoss,
    /// Custom weighted score
    WeightedScore { throughput_weight: Binary64, latency_weight: Binary64, loss_weight: Binary64 },
}

/// Configuration for a single A/B test.
#[derive(Debug)]
pub struct TestConfig {
    /// Name of the test
    pub name: String,
    /// Parameter path being tested (e.g., "flow_classifier.single_link_threshold")
    pub parameter_path: String,
    /// Baseline value
    pub baseline_value: ParameterValue,
    /// Variant A value
    pub variant_a_value: ParameterValue,
    /// Variant B value (optional, for A/B/n tests)
    pub variant_b_value: Option<ParameterValue>,
    /// Duration for each test phase (nanoseconds)
    pub phase_duration: u64,
    /// Cooldown duration between phases (nanoseconds)
    pub cooldown_duration: u64,
    /// Minimum samples required for statistical significance
    pub min_samples: usize,
    /// Success metric (what we're optimizing for)
    pub success_metric: SuccessMetric,
}

/// What a [`TestConfig`] holds.
#[verifier::ext_equal]
pub struct TestConfigView {
    pub name: Seq<char>,
    pub parameter_path: Seq<char>,
    pub baseline_value: ParameterView,
    pub variant_a_value: ParameterView,
    pub variant_b_value: Option<ParameterView>,
    pub phase_duration: u64,
    pub cooldown_duration: u64,
    pub min_samples: usize,
    pub success_metric: SuccessMetric,
}

impl View for TestConfig {
    type V = TestConfigView;

    open spec fn view(&self) -> TestConfigView {
        TestConfigView {
            name: self.name@,
            parameter_path: self.parameter_path@,
            baseline_value: self.baseline_value@,
            variant_a_value: self.variant_a_value@,
            variant_b_value: match self.variant_b_value {
                Some(v) => Some(v@),
                None => None,
            },
            phase_duration: self.phase_duration,
            cooldown_duration: self.cooldown_duration,
            min_samples: self.min_samples,
            success_metric: self.success_metric,
        }
    }
}

impl Clone for TestConfig {
    fn clone(&self) -> (r: TestConfig)
        ensures
            r@ == self@,
    {
        TestConfig {
            name: copy_of(&self.name),
            parameter_path: copy_of(&self.parameter_path),
            baseline_value: self.baseline_value.clone(),
            variant_a_value: self.variant_a_value.clone(),
            variant_b_value: match &self.variant_b_value {
                Some(v) => Some(v.clone()),
                None => None,
            },
            phase_duration: self.phase_duration,
            cooldown_duration: self.cooldown_duration,
            min_samples: self.min_samples,
            success_metric: self.success_metric,
        }
    }
}

/// Result of a single test phase.
#[derive(Debug)]
pub struct PhaseResult {
    pub phase: TestPhase,
    pub parameter_value: ParameterValue,
    /// How long the phase took (nanoseconds)
    pub duration: u64,
    pub samples: usize,
    pub metrics_summary: MetricsSummary,
    pub score: Binary64,
}

/// What a [`PhaseResult`] holds.
pub struct PhaseResultView {
    pub phase: TestPhase,
    pub parameter_value: ParameterView,
    pub duration: u64,
    pub samples: usize,
    pub metrics_summary: MetricsSummary,
    pub score: Binary64,
}

impl View for PhaseResult {
    type V = PhaseResultView;

    open spec fn view(&self) -> PhaseResultView {
        PhaseResultView {
            phase: self.phase,
            parameter_value: self.parameter_value@,
            duration: self.duration,
            samples: self.samples,
            metrics_summary: self.metrics_summary,
            score: self.score,
        }
    }
}

/// Complete test result.
#[derive(Debug)]
pub struct TestResult {
    pub config: TestConfig,
    /// When the test started (nanoseconds since 1970-01-01 UTC)
    pub started_at: i64,
    /// When the test ended (nanoseconds since 1970-01-01 UTC)
    pub completed_at: i64,
    pub phases: Vec<PhaseResult>,
    pub winner: Option<String>,
    pub confidence: Binary64,
    pub recommendation: String,
}

/// What a [`TestResult`] holds.
#[verifier::ext_equal]
pub struct TestResultView {
    pub config: TestConfigView,
    pub started_at: i64,
    pub completed_at: i64,
    pub phases: Seq<PhaseResultView>,
    pub winner: Option<Seq<char>>,
    pub confidence: Binary64,
    pub recommendation: Seq<char>,
}

impl View for TestResult {
    type V = TestResultView;

    open spec fn view(&self) -> TestResultView {
        TestResultView {
            config: self.config@,
            started_at: self.started_at,
            completed_at: self.completed_at,
            phases: self.phases@.map_values(|p: PhaseResult| p@),
            winner: match self.winner {
                Some(w) => Some(w@),
                None => None,
            },
            confidence: self.confidence,
            recommendation: self.recommendation@,
        }
    }
}

// ---------------------------------------------------------------------------
// The winner
// ---------------------------------------------------------------------------

/// The bit pattern of minus infinity.
pub const MINUS_INFINITY_BITS: u64 = 0xfff0_0000_0000_0000;

/// The name of a phase.
pub open spec fn name_of(phase: TestPhase) -> Seq<char> {
    match phase {
        TestPhase::Baseline => "Baseline"@,
        TestPhase::VariantA => "Variant A"@,
        TestPhase::VariantB => "Variant B"@,
        _ => "Unknown"@,
    }
}

fn phase_name(phase: TestPhase) -> (r: &'static str)
    ensures
        r@ == name_of(phase),
{
    match phase {
        TestPhase::Baseline => "Baseline",
        TestPhase::VariantA => "Variant A",
        TestPhase::VariantB => "Variant B",
        _ => "Unknown",
    }
}

/// The first of the first `n` phases with the greatest score, cooldowns left
/// out; none where no score is above minus infinity.
pub open spec fn best(phases: Seq<PhaseResultView>, n: nat) -> Option<int>
    decreases n,
{
    if n == 0 {
        None
    } else {
        let before = best(phases, (n - 1) as nat);
        let p = phases[n - 1];
        let score = match before {
            Some(i) => phases[i].score,
            None => (Binary64 { bits: MINUS_INFINITY_BITS }),
        };
        if p.phase != TestPhase::Cooldown && score.less(p.score) {
            Some(n - 1)
        } else {
            before
        }
    }
}

/// The scores of the phases, cooldowns left out.
pub open spec fn scores(phases: Seq<PhaseResultView>) -> Seq<Binary64> {
    phases.filter(|p: PhaseResultView| p.phase != TestPhase::Cooldown).map_values(|p: PhaseResultView| p.score)
}

/// The standard deviation of values.
pub open spec fn deviation(values: Seq<Binary64>) -> Binary64 {
    mean(
        values.map_values(|x: Binary64| x.difference(mean(values)).product(x.difference(mean(values)))),
    ).root()
}

/// How far a score is from the mean, in standard deviations, one at most.
pub open spec fn confidence_of(score: Binary64, values: Seq<Binary64>) -> Binary64 {
    let spread = deviation(values);
    if Binary64::of_nat(0).less(spread) {
        score.difference(mean(values)).magnitude().quotient(spread).lesser(Binary64::of_nat(1))
    } else if mean(values).less(score) {
        Binary64::of_nat(1)
    } else {
        Binary64::of_nat(0)
    }
}

/// What a result recommends.
pub open spec fn advice(
    name: Seq<char>,
    score: Binary64,
    confidence: Binary64,
    path: Seq<char>,
    value: Seq<char>,
) -> Seq<char> {
    name + " wins with score "@ + fixed_text(score, 2) + " (confidence: "@ + fixed_text(
        confidence.product(Binary64::of_nat(100)),
        0,
    ) + "%). Set "@ + path + " = "@ + value
}

/// What a result recommends.
pub fn recommend(name: &str, score: Binary64, confidence: Binary64, path: &str, value: &str) -> (r: String)
    ensures
        r@ == advice(name@, score, confidence, path@, value@),
{
    let mut r: String = copy_of(name);
    r.append(" wins with score ");
    push_fixed(&mut r, score, 2);
    r.append(" (confidence: ");
    push_fixed(&mut r, confidence.times(Binary64::from_u64(100)), 0);
    r.append("%). Set ");
    r.append(path);
    r.append(" = ");
    r.append(value);
    r
}

fn deviation_of(values: &Vec<Binary64>) -> (r: Binary64)
    ensures
        r == deviation(values@),
{
    let middle: Binary64 = mean_of(values);
    let ghost square = |x: Binary64| x.difference(mean(values@)).product(x.difference(mean(values@)));
    let mut squares: Vec<Binary64> = Vec::new();
    let mut i: usize = 0;
    while i < values.len()
        invariant
            i <= values@.len(),
            middle == mean(values@),
            square == (|x: Binary64| x.difference(mean(values@)).product(x.difference(mean(values@)))),
            squares@ == values@.map_values(square).take(i as int),
        decreases values.len() - i,
    {
        let d: Binary64 = values[i].minus(middle);
        squares.push(d.times(d));
        i = i + 1;
        assert(squares@ =~= values@.map_values(square).take(i as int));
    }
    assert(squares@ =~= values@.map_values(square));
    mean_of(&squares).sqrt()
}

fn confidence_in(score: Binary64, values: &Vec<Binary64>) -> (r: Binary64)
    ensures
        r == confidence_of(score, values@),
{
    let middle: Binary64 = mean_of(values);
    let spread: Binary64 = deviation_of(values);
    if Binary64::from_u64(0).lt(spread) {
        score.minus(middle).abs().over(spread).min(Binary64::from_u64(1))
    } else if middle.lt(score) {
        Binary64::from_u64(1)
    } else {
        Binary64::from_u64(0)
    }
}

impl TestResultView {
    /// The result with its winner determined.
    pub open spec fn decided(self) -> TestResultView {
        if self.phases.len() < 2 {
            TestResultView {
                winner: None,
                confidence: Binary64::of_nat(0),
                recommendation: "Insufficient data"@,
                ..self
            }
        } else {
            match best(self.phases, self.phases.len()) {
                Some(i) => {
                    let p = self.phases[i];
                    let confidence = confidence_of(p.score, scores(self.phases));
                    TestResultView {
                        winner: Some(name_of(p.phase)),
                        confidence,
                        recommendation: advice(
                            name_of(p.phase),
                            p.score,
                            confidence,
                            self.config.parameter_path,
                            p.parameter_value.text(),
                        ),
                        ..self
                    }
                },
                None => self,
            }
        }
    }
}

impl TestResult {
    fn best_phase(&self) -> (r: Option<usize>)
        ensures
            match best(self@.phases, self@.phases.len()) {
                Some(i) => r == Some(i as usize) && 0 <= i < self.phases@.len(),
                None => r is None,
            },
    {
        let ghost phases = self@.phases;
        let mut found: Option<usize> = None;
        let mut best_score: Binary64 = Binary64 { bits: MINUS_INFINITY_BITS };
        let mut i: usize = 0;
        while i < self.phases.len()
            invariant
                i <= self.phases@.len(),
                phases == self@.phases,
                match best(phases, i as nat) {
                    Some(b) => found == Some(b as usize) && 0 <= b < i && best_score == phases[b].score,
                    None => found is None && best_score.bits == MINUS_INFINITY_BITS,
                },
            decreases self.phases.len() - i,
        {
            let p: &PhaseResult = &self.phases[i];
            assert(phases[i as int] == p@);
            if p.phase != TestPhase::Cooldown && best_score.lt(p.score) {
                best_score = p.score;
                found = Some(i);
            }
            i = i + 1;
        }
        found
    }

    fn scores(&self) -> (r: Vec<Binary64>)
        ensures
            r@ == scores(self@.phases),
    {
        let ghost phases = self@.phases;
        let ghost keep = |p: PhaseResultView| p.phase != TestPhase::Cooldown;
        let ghost score = |p: PhaseResultView| p.score;
        let mut r: Vec<Binary64> = Vec::new();
        let mut i: usize = 0;
        proof {
            lemma_filter_start(phases, keep);
            assert(r@ =~= phases.take(0).filter(keep).map_values(score));
        }
        while i < self.phases.len()
            invariant
                i <= self.phases@.len(),
                phases == self@.phases,
                keep == (|p: PhaseResultView| p.phase != TestPhase::Cooldown),
                score == (|p: PhaseResultView| p.score),
                r@ == phases.take(i as int).filter(keep).map_values(score),
            decreases self.phases.len() - i,
        {
            let ghost before = phases.take(i as int).filter(keep);
            proof {
                lemma_filter_step(phases, keep, i as int);
            }
            let p: &PhaseResult = &self.phases[i];
            assert(phases[i as int] == p@);
            if p.phase != TestPhase::Cooldown {
                r.push(p.score);
                assert(r@ =~= before.push(phases[i as int]).map_values(score));
            }
            i = i + 1;
        }
        proof {
            lemma_filter_start(phases, keep);
        }
        r
    }

    /// Determine the winning variant.
    pub fn determine_winner(&mut self)
        ensures
            final(self)@ == old(self)@.decided(),
    {
        if self.phases.len() < 2 {
            self.winner = None;
            self.confidence = Binary64::from_u64(0);
            self.recommendation = copy_of("Insufficient data");
            return;
        }
        match self.best_phase() {
            Some(i) => {
                let scores: Vec<Binary64> = self.scores();
                let p: &PhaseResult = &self.phases[i];
                assert(old(self)@.phases[i as int] == p@);
                let name: &'static str = phase_name(p.phase);
                let confidence: Binary64 = confidence_in(p.score, &scores);
                let value: String = p.parameter_value.text();
                let recommendation: String = recommend(
                    name,
                    p.score,
                    confidence,
                    &self.config.parameter_path,
                    value.as_str(),
                );
                self.confidence = confidence;
                self.winner = Some(copy_of(name));
                self.recommendation = recommendation;
            },
            None => {},
        }
    }
}

// ---------------------------------------------------------------------------
// Scores
// ---------------------------------------------------------------------------

/// The values above zero.
pub open spec fn positive(values: Seq<Binary64>) -> Seq<Binary64> {
    values.filter(|x: Binary64| Binary64::of_nat(0).less(x))
}

/// The mean of values, zero where there is none.
pub open spec fn mean_or_zero(values: Seq<Binary64>) -> Binary64 {
    if values.len() == 0 {
        Binary64::of_nat(0)
    } else {
        mean(values)
    }
}

/// The summary of the metrics of a phase: idle samples count for neither
/// throughput nor latency.
pub open spec fn summary(metrics: Seq<MetricsView>) -> MetricsSummary {
    if metrics.len() == 0 {
        MetricsSummary::empty()
    } else {
        let latencies = positive(metrics.map_values(|m: MetricsView| m.latency_avg_ms));
        let down = positive(metrics.map_values(|m: MetricsView| m.throughput_down_mbps));
        let up = positive(metrics.map_values(|m: MetricsView| m.throughput_up_mbps));
        MetricsSummary {
            sample_count: metrics.len() as usize,
            avg_throughput_down_mbps: mean_or_zero(down),
            avg_throughput_up_mbps: mean_or_zero(up),
            max_throughput_down_mbps: peak(down),
            max_throughput_up_mbps: peak(up),
            avg_latency_ms: mean_or_zero(latencies),
            max_latency_ms: peak(latencies),
            avg_loss_ratio: mean(metrics.map_values(|m: MetricsView| m.loss_ratio)),
            avg_reorder_ratio: mean(metrics.map_values(|m: MetricsView| m.reorder_ratio)),
            avg_cpu_percent: mean(metrics.map_values(|m: MetricsView| m.cpu_usage_percent)),
        }
    }
}

/// `scale / x` where `x` is above zero, zero elsewhere.
pub open spec fn inverse(scale: nat, x: Binary64) -> Binary64 {
    if Binary64::of_nat(0).less(x) {
        Binary64::of_nat(scale).quotient(x)
    } else {
        Binary64::of_nat(0)
    }
}

impl SuccessMetric {
    /// The score of a summary; more is better.
    pub open spec fn score(self, s: MetricsSummary) -> Binary64 {
        match self {
            SuccessMetric::MaxThroughput => s.avg_throughput_down_mbps,
            SuccessMetric::MinLatencyP50 => inverse(1000, s.avg_latency_ms),
            SuccessMetric::MinLatencyP99 => inverse(1000, s.max_latency_ms),
            SuccessMetric::MinPacketLoss => Binary64::of_nat(1).difference(s.avg_loss_ratio),
            SuccessMetric::WeightedScore { throughput_weight, latency_weight, loss_weight } => {
                s.avg_throughput_down_mbps.quotient(Binary64::of_nat(100)).product(throughput_weight).sum(
                    inverse(10, s.avg_latency_ms).product(latency_weight),
                ).sum(Binary64::of_nat(1).difference(s.avg_loss_ratio).product(loss_weight))
            },
        }
    }

    /// The score of a summary; more is better.
    pub fn score_of(self, s: &MetricsSummary) -> (r: Binary64)
        ensures
            r == self.score(*s),
    {
        match self {
            SuccessMetric::MaxThroughput => s.avg_throughput_down_mbps,
            SuccessMetric::MinLatencyP50 => inverse_of(1000, s.avg_latency_ms),
            SuccessMetric::MinLatencyP99 => inverse_of(1000, s.max_latency_ms),
            SuccessMetric::MinPacketLoss => Binary64::from_u64(1).minus(s.avg_loss_ratio),
            SuccessMetric::WeightedScore { throughput_weight, latency_weight, loss_weight } => {
                let throughput: Binary64 = s.avg_throughput_down_mbps.over(Binary64::from_u64(100));
                let latency: Binary64 = inverse_of(10, s.avg_latency_ms);
                let loss: Binary64 = Binary64::from_u64(1).minus(s.avg_loss_ratio);
                throughput.times(throughput_weight).plus(latency.times(latency_weight)).plus(loss.times(loss_weight))
            },
        }
    }
}

fn inverse_of(scale: u64, x: Binary64) -> (r: Binary64)
    ensures
        r == inverse(scale as nat, x),
{
    if Binary64::from_u64(0).lt(x) {
        Binary64::from_u64(scale).over(x)
    } else {
        Binary64::from_u64(0)
    }
}

fn positive_of(values: &Vec<Binary64>) -> (r: Vec<Binary64>)
    ensures
        r@ == positive(values@),
{
    let ghost keep = |x: Binary64| Binary64::of_nat(0).less(x);
    let mut r: Vec<Binary64> = Vec::new();
    let mut i: usize = 0;
    proof {
        lemma_filter_start(values@, keep);
    }
    while i < values.len()
        invariant
            i <= values@.len(),
            keep == (|x: Binary64| Binary64::of_nat(0).less(x)),
            r@ == values@.take(i as int).filter(keep),
        decreases values.len() - i,
    {
        proof {
            lemma_filter_step(values@, keep, i as int);
        }
        if Binary64::from_u64(0).lt(values[i]) {
            r.push(values[i]);
        }
        i = i + 1;
    }
    proof {
        lemma_filter_start(values@, keep);
    }
    r
}

fn mean_or_zero_of(values: &Vec<Binary64>) -> (r: Binary64)
    ensures
        r == mean_or_zero(values@),
{
    if values.len() == 0 {
        Binary64::from_u64(0)
    } else {
        mean_of(values)
    }
}

/// The summary of the metrics of a phase.
pub fn summarize_metrics(metrics: &Vec<Metrics>) -> (r: MetricsSummary)
    ensures
        r == summary(metrics@.map_values(|m: Metrics| m@)),
{
    let n: usize = metrics.len();
    if n == 0 {
        return MetricsSummary::default();
    }
    let ghost all = metrics@.map_values(|m: Metrics| m@);
    let mut latency: Vec<Binary64> = Vec::new();
    let mut down: Vec<Binary64> = Vec::new();
    let mut up: Vec<Binary64> = Vec::new();
    let mut loss: Vec<Binary64> = Vec::new();
    let mut reorder: Vec<Binary64> = Vec::new();
    let mut cpu: Vec<Binary64> = Vec::new();
    let mut i: usize = 0;
    while i < n
        invariant
            i <= n,
            n == metrics@.len(),
            all == metrics@.map_values(|m: Metrics| m@),
            latency@ == all.map_values(|m: MetricsView| m.latency_avg_ms).take(i as int),
            down@ == all.map_values(|m: MetricsView| m.throughput_down_mbps).take(i as int),
            up@ == all.map_values(|m: MetricsView| m.throughput_up_mbps).take(i as int),
            loss@ == all.map_values(|m: MetricsView| m.loss_ratio).take(i as int),
            reorder@ == all.map_values(|m: MetricsView| m.reorder_ratio).take(i as int),
            cpu@ == all.map_values(|m: MetricsView| m.cpu_usage_percent).take(i as int),
        decreases n - i,
    {
        let m: &Metrics = &metrics[i];
        assert(all[i as int] == m@);
        latency.push(m.latency_avg_ms);
        down.push(m.throughput_down_mbps);
        up.push(m.throughput_up_mbps);
        loss.push(m.loss_ratio);
        reorder.push(m.reorder_ratio);
        cpu.push(m.cpu_usage_percent);
        i = i + 1;
        assert(latency@ =~= all.map_values(|m: MetricsView| m.latency_avg_ms).take(i as int));
        assert(down@ =~= all.map_values(|m: MetricsView| m.throughput_down_mbps).take(i as int));
        assert(up@ =~= all.map_values(|m: MetricsView| m.throughput_up_mbps).take(i as int));
        assert(loss@ =~= all.map_values(|m: MetricsView| m.loss_ratio).take(i as int));
        assert(reorder@ =~= all.map_values(|m: MetricsView| m.reorder_ratio).take(i as int));
        assert(cpu@ =~= all.map_values(|m: MetricsView| m.cpu_usage_percent).take(i as int));
    }
    assert(latency@ =~= all.map_values(|m: MetricsView| m.latency_avg_ms));
    assert(down@ =~= all.map_values(|m: MetricsView| m.throughput_down_mbps));
    assert(up@ =~= all.map_values(|m: MetricsView| m.throughput_up_mbps));
    assert(loss@ =~= all.map_values(|m: MetricsView| m.loss_ratio));
    assert(reorder@ =~= all.map_values(|m: MetricsView| m.reorder_ratio));
    assert(cpu@ =~= all.map_values(|m: MetricsView| m.cpu_usage_percent));
    let latencies: Vec<Binary64> = positive_of(&latency);
    let downs: Vec<Binary64> = positive_of(&down);
    let ups: Vec<Binary64> = positive_of(&up);
    MetricsSummary {
        sample_count: n,
        avg_throughput_down_mbps: mean_or_zero_of(&downs),
        avg_throughput_up_mbps: mean_or_zero_of(&ups),
        max_throughput_down_mbps: peak_of(&downs),
        max_throughput_up_mbps: peak_of(&ups),
        avg_latency_ms: mean_or_zero_of(&latencies),
        max_latency_ms: peak_of(&latencies),
        avg_loss_ratio: mean_of(&loss),
        avg_reorder_ratio: mean_of(&reorder),
        avg_cpu_percent: mean_of(&cpu),
    }
}

// ---------------------------------------------------------------------------
// Running a test
// ---------------------------------------------------------------------------

/// A/B test runner.
#[derive(Debug)]
pub struct ABTest {
    pub config: TestConfig,
    pub current_phase: TestPhase,
    /// When the phase began (nanoseconds)
    pub phase_start: u64,
    pub phase_metrics: Vec<Metrics>,
    pub results: Vec<PhaseResult>,
    /// When the test began (nanoseconds since 1970-01-01 UTC)
    pub started_at: i64,
}

/// What an [`ABTest`] holds.
#[verifier::ext_equal]
pub struct ABTestView {
    pub config: TestConfigView,
    pub current_phase: TestPhase,
    pub phase_start: u64,
    pub phase_metrics: Seq<MetricsView>,
    pub results: Seq<PhaseResultView>,
    pub started_at: i64,
}

impl View for ABTest {
    type V = ABTestView;

    open spec fn view(&self) -> ABTestView {
        ABTestView {
            config: self.config@,
            current_phase: self.current_phase,
            phase_start: self.phase_start,
            phase_metrics: self.phase_metrics@.map_values(|m: Metrics| m@),
            results: self.results@.map_values(|p: PhaseResult| p@),
            started_at: self.started_at,
        }
    }
}

impl ABTestView {
    /// A test in its baseline phase.
    pub open spec fn fresh(config: TestConfigView, now_ns: u64, started_at: i64) -> ABTestView {
        ABTestView {
            config,
            current_phase: TestPhase::Baseline,
            phase_start: now_ns,
            phase_metrics: Seq::empty(),
            results: Seq::empty(),
            started_at,
        }
    }

    /// The parameter value of the current phase.
    pub open spec fn value(self) -> ParameterView {
        match self.current_phase {
            TestPhase::VariantA => self.config.variant_a_value,
            TestPhase::VariantB => match self.config.variant_b_value {
                Some(v) => v,
                None => self.config.baseline_value,
            },
            _ => self.config.baseline_value,
        }
    }

    /// Whether the current phase measures anything.
    pub open spec fn measures(self) -> bool {
        self.current_phase != TestPhase::Cooldown && self.current_phase != TestPhase::Complete
    }

    /// The test with one sample more; a phase that does not measure takes
    /// none.
    pub open spec fn recorded(self, m: MetricsView) -> ABTestView {
        if self.measures() {
            ABTestView { phase_metrics: self.phase_metrics.push(m), ..self }
        } else {
            self
        }
    }

    /// How long the phase has been running.
    pub open spec fn elapsed(self, now_ns: u64) -> u64 {
        monus(now_ns as nat, self.phase_start as nat) as u64
    }

    /// Whether the phase is over.
    pub open spec fn over(self, now_ns: u64) -> bool {
        self.elapsed(now_ns) >= if self.current_phase == TestPhase::Cooldown {
            self.config.cooldown_duration
        } else {
            self.config.phase_duration
        }
    }

    /// The result of the current phase.
    pub open spec fn phase_result(self, now_ns: u64) -> PhaseResultView {
        PhaseResultView {
            phase: self.current_phase,
            parameter_value: self.value(),
            duration: self.elapsed(now_ns),
            samples: self.phase_metrics.len() as usize,
            metrics_summary: summary(self.phase_metrics),
            score: self.config.success_metric.score(summary(self.phase_metrics)),
        }
    }

    /// The results once the current phase is over: a phase with samples adds
    /// one.
    pub open spec fn results_after(self, now_ns: u64) -> Seq<PhaseResultView> {
        if self.current_phase != TestPhase::Cooldown && self.phase_metrics.len() > 0 {
            self.results.push(self.phase_result(now_ns))
        } else {
            self.results
        }
    }

    /// The phase after the current one.
    pub open spec fn next_phase(self, results: nat) -> TestPhase {
        match self.current_phase {
            TestPhase::Baseline => TestPhase::Cooldown,
            TestPhase::VariantA => if self.config.variant_b_value is Some {
                TestPhase::Cooldown
            } else {
                TestPhase::Complete
            },
            TestPhase::Cooldown => if results == 1 {
                TestPhase::VariantA
            } else if results == 2 {
                TestPhase::VariantB
            } else {
                TestPhase::Complete
            },
            _ => TestPhase::Complete,
        }
    }

    /// The test in its next phase.
    pub open spec fn advanced(self, now_ns: u64) -> ABTestView {
        ABTestView {
            current_phase: self.next_phase(self.results_after(now_ns).len()),
            phase_start: now_ns,
            phase_metrics: Seq::empty(),
            results: self.results_after(now_ns),
            ..self
        }
    }

    /// The test at an instant.
    pub open spec fn ticked(self, now_ns: u64) -> ABTestView {
        if self.over(now_ns) {
            self.advanced(now_ns)
        } else {
            self
        }
    }

    /// The result of the test.
    pub open spec fn outcome(self, completed_at: i64) -> TestResultView {
        (TestResultView {
            config: self.config,
            started_at: self.started_at,
            completed_at,
            phases: self.results,
            winner: None,
            confidence: Binary64::of_nat(0),
            recommendation: Seq::empty(),
        }).decided()
    }
}

impl ABTest {
    /// Create a new A/B test.
    pub fn new(config: TestConfig, now_ns: u64) -> (r: ABTest)
        ensures
            r@ == ABTestView::fresh(config@, now_ns, r.started_at),
    {
        Self::new_at(config, now_ns, utc_now())
    }

    /// The A/B test that started at a given time.
    pub fn new_at(config: TestConfig, now_ns: u64, started_at: i64) -> (r: ABTest)
        ensures
            r@ == ABTestView::fresh(config@, now_ns, started_at),
    {
        let r: ABTest = ABTest {
            config,
            current_phase: TestPhase::Baseline,
            phase_start: now_ns,
            phase_metrics: Vec::new(),
            results: Vec::new(),
            started_at,
        };
        assert(r@ =~= ABTestView::fresh(config@, now_ns, started_at));
        r
    }

    /// Get current phase.
    pub fn phase(&self) -> (r: TestPhase)
        ensures
            r == self@.current_phase,
    {
        self.current_phase
    }

    /// Get the parameter value for current phase.
    pub fn current_parameter_value(&self) -> (r: ParameterValue)
        ensures
            r@ == self@.value(),
    {
        match self.current_phase {
            TestPhase::VariantA => self.config.variant_a_value.clone(),
            TestPhase::VariantB => match &self.config.variant_b_value {
                Some(v) => v.clone(),
                None => self.config.baseline_value.clone(),
            },
            _ => self.config.baseline_value.clone(),
        }
    }

    /// Record metrics sample.
    pub fn record_metrics(&mut self, metrics: Metrics)
        ensures
            final(self)@ == old(self)@.recorded(metrics@),
    {
        if self.current_phase != TestPhase::Cooldown && self.current_phase != TestPhase::Complete {
            self.phase_metrics.push(metrics);
        }
        assert(self@.phase_metrics =~= old(self)@.recorded(metrics@).phase_metrics);
    }

    /// Check if phase should advance, returns true if test is complete.
    pub fn tick(&mut self, now_ns: u64) -> (r: bool)
        ensures
            final(self)@ == old(self)@.ticked(now_ns),
            r == (final(self)@.current_phase == TestPhase::Complete),
    {
        let limit: u64 = if self.current_phase == TestPhase::Cooldown {
            self.config.cooldown_duration
        } else {
            self.config.phase_duration
        };
        if self.elapsed(now_ns) >= limit {
            self.advance_phase(now_ns);
        }
        self.current_phase == TestPhase::Complete
    }

    fn elapsed(&self, now_ns: u64) -> (r: u64)
        ensures
            r == self@.elapsed(now_ns),
    {
        if now_ns >= self.phase_start {
            now_ns - self.phase_start
        } else {
            0
        }
    }

    /// Advance to next phase.
    fn advance_phase(&mut self, now_ns: u64)
        ensures
            final(self)@ == old(self)@.advanced(now_ns),
    {
        if self.current_phase != TestPhase::Cooldown && self.phase_metrics.len() > 0 {
            let summary: MetricsSummary = summarize_metrics(&self.phase_metrics);
            let score: Binary64 = self.config.success_metric.score_of(&summary);
            let result: PhaseResult = PhaseResult {
                phase: self.current_phase,
                parameter_value: self.current_parameter_value(),
                duration: self.elapsed(now_ns),
                samples: self.phase_metrics.len(),
                metrics_summary: summary,
                score,
            };
            self.results.push(result);
        }
        assert(self@.results =~= old(self)@.results_after(now_ns));
        self.phase_metrics = Vec::new();
        self.phase_start = now_ns;
        self.current_phase = match self.current_phase {
            TestPhase::Baseline => TestPhase::Cooldown,
            TestPhase::VariantA => {
                if self.config.variant_b_value.is_some() {
                    TestPhase::Cooldown
                } else {
                    TestPhase::Complete
                }
            },
            TestPhase::Cooldown => {
                if self.results.len() == 1 {
                    TestPhase::VariantA
                } else if self.results.len() == 2 {
                    TestPhase::VariantB
                } else {
                    TestPhase::Complete
                }
            },
            _ => TestPhase::Complete,
        };
        assert(self@ =~= old(self)@.advanced(now_ns));
    }

    /// Get final test result.
    pub fn result(self) -> (r: TestResult)
        ensures
            r@ == self@.outcome(r.completed_at),
    {
        self.result_at(utc_now())
    }

    /// The final test result, completed at a given time.
    pub fn result_at(self, completed_at: i64) -> (r: TestResult)
        ensures
            r@ == self@.outcome(completed_at),
    {
        let mut result: TestResult = TestResult {
            config: self.config,
            started_at: self.started_at,
            completed_at,
            phases: self.results,
            winner: None,
            confidence: Binary64::from_u64(0),
            recommendation: String::new(),
        };
        assert(result@.recommendation =~= Seq::<char>::empty());
        result.determine_winner();
        result
    }
}

// ---------------------------------------------------------------------------
// Running tests
// ---------------------------------------------------------------------------

/// Test suite: runs multiple A/B tests, one after the other.
#[derive(Debug)]
pub struct TestSuite {
    pub tests: Vec<TestConfig>,
    pub results: Vec<TestResult>,
    pub current_test_idx: usize,
    pub current_test: Option<ABTest>,
}

/// What a [`TestSuite`] holds.
#[verifier::ext_equal]
pub struct TestSuiteView {
    pub tests: Seq<TestConfigView>,
    pub results: Seq<TestResultView>,
    pub current_test_idx: usize,
    pub current_test: Option<ABTestView>,
}

impl View for TestSuite {
    type V = TestSuiteView;

    open spec fn view(&self) -> TestSuiteView {
        TestSuiteView {
            tests: self.tests@.map_values(|t: TestConfig| t@),
            results: self.results@.map_values(|r: TestResult| r@),
            current_test_idx: self.current_test_idx,
            current_test: match self.current_test {
                Some(t) => Some(t@),
                None => None,
            },
        }
    }
}

impl TestSuiteView {
    /// A suite without tests.
    pub open spec fn empty() -> TestSuiteView {
        TestSuiteView { tests: Seq::empty(), results: Seq::empty(), current_test_idx: 0, current_test: None }
    }

    /// The suite with its first test running.
    pub open spec fn started(self, now_ns: u64, started_at: i64) -> TestSuiteView {
        if self.tests.len() > 0 {
            TestSuiteView { current_test: Some(ABTestView::fresh(self.tests[0], now_ns, started_at)), ..self }
        } else {
            self
        }
    }

    /// The suite with one sample more in the current test.
    pub open spec fn recorded(self, m: MetricsView) -> TestSuiteView {
        match self.current_test {
            Some(t) => TestSuiteView { current_test: Some(t.recorded(m)), ..self },
            None => self,
        }
    }

    /// The suite at an instant: a test that is complete makes room for the
    /// next one.
    pub open spec fn ticked(self, now_ns: u64, completed_at: i64, started_at: i64) -> TestSuiteView {
        match self.current_test {
            Some(test) => {
                let t = test.ticked(now_ns);
                if t.current_phase == TestPhase::Complete {
                    let next = self.current_test_idx + 1;
                    TestSuiteView {
                        tests: self.tests,
                        results: self.results.push(t.outcome(completed_at)),
                        current_test_idx: next as usize,
                        current_test: if next < self.tests.len() {
                            Some(ABTestView::fresh(self.tests[next], now_ns, started_at))
                        } else {
                            None
                        },
                    }
                } else {
                    TestSuiteView { current_test: Some(t), ..self }
                }
            },
            None => self,
        }
    }

    /// Whether all tests are complete.
    pub open spec fn done(self) -> bool {
        self.current_test_idx >= self.tests.len()
    }
}

impl TestSuite {
    /// A suite without tests.
    pub fn new() -> (r: TestSuite)
        ensures
            r@ == TestSuiteView::empty(),
    {
        let r: TestSuite = TestSuite {
            tests: Vec::new(),
            results: Vec::new(),
            current_test_idx: 0,
            current_test: None,
        };
        assert(r@ =~= TestSuiteView::empty());
        r
    }

    /// Add a test to the suite.
    pub fn add_test(&mut self, config: TestConfig)
        ensures
            final(self)@ == (TestSuiteView { tests: old(self)@.tests.push(config@), ..old(self)@ }),
    {
        self.tests.push(config);
        assert(self@.tests =~= old(self)@.tests.push(config@));
    }

    /// Start running tests.
    pub fn start(&mut self, now_ns: u64)
        ensures
            exists|started_at: i64| final(self)@ == #[trigger] old(self)@.started(now_ns, started_at),
    {
        self.start_at(now_ns, utc_now());
    }

    /// Start running tests at a given time.
    pub fn start_at(&mut self, now_ns: u64, started_at: i64)
        ensures
            final(self)@ == old(self)@.started(now_ns, started_at),
    {
        if self.tests.len() > 0 {
            self.current_test = Some(ABTest::new_at(self.tests[0].clone(), now_ns, started_at));
        }
    }

    /// Get current active test.
    pub fn current_test_mut(&mut self) -> (r: Option<&mut ABTest>)
        ensures
            final(self).tests == old(self).tests,
            final(self).results == old(self).results,
            final(self).current_test_idx == old(self).current_test_idx,
            match r {
                Some(t) => old(self).current_test == Some(*t) && final(self).current_test == Some(*final(t)),
                None => old(self).current_test is None && final(self).current_test is None,
            },
    {
        match &mut self.current_test {
            Some(t) => Some(t),
            None => None,
        }
    }

    /// Record metrics to current test.
    pub fn record_metrics(&mut self, metrics: Metrics)
        ensures
            final(self)@ == old(self)@.recorded(metrics@),
    {
        match &mut self.current_test {
            Some(test) => test.record_metrics(metrics),
            None => {},
        }
    }

    /// Tick and potentially advance tests, returns true when all tests
    /// complete.
    pub fn tick(&mut self, now_ns: u64) -> (r: bool)
        requires
            old(self).current_test_idx < usize::MAX,
        ensures
            exists|completed_at: i64, started_at: i64|
                final(self)@ == #[trigger] old(self)@.ticked(now_ns, completed_at, started_at),
            r == final(self)@.done(),
    {
        self.tick_at(now_ns, utc_now(), utc_now())
    }

    /// The tick with the times at which a test completes and the next one
    /// starts, should it come to that.
    pub fn tick_at(&mut self, now_ns: u64, completed_at: i64, started_at: i64) -> (r: bool)
        requires
            old(self).current_test_idx < usize::MAX,
        ensures
            final(self)@ == old(self)@.ticked(now_ns, completed_at, started_at),
            r == final(self)@.done(),
    {
        match self.current_test.take() {
            Some(mut test) => {
                if test.tick(now_ns) {
                    self.results.push(test.result_at(completed_at));
                    self.current_test_idx = self.current_test_idx + 1;
                    assert(self@.results =~= old(self)@.ticked(now_ns, completed_at, started_at).results);
                    if self.current_test_idx < self.tests.len() {
                        self.current_test = Some(
                            ABTest::new_at(self.tests[self.current_test_idx].clone(), now_ns, started_at),
                        );
                        return false;
                    }
                    return true;
                } else {
                    self.current_test = Some(test);
                }
            },
            None => {},
        }
        self.tests.len() == 0 || self.current_test_idx >= self.tests.len()
    }

    /// Get all results.
    pub fn results(&self) -> (r: &Vec<TestResult>)
        ensures
            *r == self.results,
    {
        &self.results
    }
}

impl Default for TestSuite {
    fn default() -> (r: TestSuite)
        ensures
            r@ == TestSuiteView::empty(),
    {
        Self::new()
    }
}

// ---------------------------------------------------------------------------
// Standard tests
// ---------------------------------------------------------------------------

impl TestConfigView {
    /// A test with two variants, phases of a minute, cooldowns of ten seconds
    /// and ten samples at least.
    pub open spec fn usual(
        name: Seq<char>,
        path: Seq<char>,
        baseline: ParameterView,
        a: ParameterView,
        b: ParameterView,
        metric: SuccessMetric,
    ) -> TestConfigView {
        TestConfigView {
            name,
            parameter_path: path,
            baseline_value: baseline,
            variant_a_value: a,
            variant_b_value: Some(b),
            phase_duration: 60_000_000_000,
            cooldown_duration: 10_000_000_000,
            min_samples: 10,
            success_metric: metric,
        }
    }
}

fn usual_test(
    name: &str,
    path: &str,
    baseline: ParameterValue,
    a: ParameterValue,
    b: ParameterValue,
    metric: SuccessMetric,
) -> (r: TestConfig)
    ensures
        r@ == TestConfigView::usual(name@, path@, baseline@, a@, b@, metric),
{
    TestConfig {
        name: copy_of(name),
        parameter_path: copy_of(path),
        baseline_value: baseline,
        variant_a_value: a,
        variant_b_value: Some(b),
        phase_duration: 60_000_000_000,
        cooldown_duration: 10_000_000_000,
        min_samples: 10,
        success_metric: metric,
    }
}

/// The common test configurations: single-link threshold, chunk size, BDP
/// multiplier and reorder timeout.
pub open spec fn standard_tests() -> Seq<TestConfigView> {
    seq![
        TestConfigView::usual(
            "Single-Link Threshold"@,
            "flow_classifier.single_link_threshold"@,
            ParameterView::Float(Binary64::fraction(66, 100)),
            ParameterView::Float(Binary64::fraction(50, 100)),
            ParameterView::Float(Binary64::fraction(75, 100)),
            SuccessMetric::MaxThroughput,
        ),
        TestConfigView::usual(
            "Chunk Size"@,
            "chunk_aggregator.min_chunk_size"@,
            ParameterView::Usize(65536),
            ParameterView::Usize(32768),
            ParameterView::Usize(131072),
            SuccessMetric::WeightedScore {
                throughput_weight: Binary64::fraction(6, 10),
                latency_weight: Binary64::fraction(3, 10),
                loss_weight: Binary64::fraction(1, 10),
            },
        ),
        TestConfigView::usual(
            "BDP Multiplier"@,
            "chunk_aggregator.bdp_multiplier"@,
            ParameterView::Float(Binary64::of_nat(1)),
            ParameterView::Float(Binary64::fraction(5, 10)),
            ParameterView::Float(Binary64::of_nat(2)),
            SuccessMetric::MaxThroughput,
        ),
        TestConfigView::usual(
            "Reorder Timeout"@,
            "receiver.reorder_timeout_ms"@,
            ParameterView::Uint(100),
            ParameterView::Uint(50),
            ParameterView::Uint(200),
            SuccessMetric::MinLatencyP50,
        ),
    ]
}

/// Create common test configurations.
pub fn create_standard_tests() -> (r: Vec<TestConfig>)
    ensures
        r@.map_values(|t: TestConfig| t@) == standard_tests(),
{
    let r: Vec<TestConfig> = vec![
        usual_test(
            "Single-Link Threshold",
            "flow_classifier.single_link_threshold",
            ParameterValue::Float(Binary64::ratio(66, 100)),
            ParameterValue::Float(Binary64::ratio(50, 100)),
            ParameterValue::Float(Binary64::ratio(75, 100)),
            SuccessMetric::MaxThroughput,
        ),
        usual_test(
            "Chunk Size",
            "chunk_aggregator.min_chunk_size",
            ParameterValue::Usize(65536),
            ParameterValue::Usize(32768),
            ParameterValue::Usize(131072),
            SuccessMetric::WeightedScore {
                throughput_weight: Binary64::ratio(6, 10),
                latency_weight: Binary64::ratio(3, 10),
                loss_weight: Binary64::ratio(1, 10),
            },
        ),
        usual_test(
            "BDP Multiplier",
            "chunk_aggregator.bdp_multiplier",
            ParameterValue::Float(Binary64::from_u64(1)),
            ParameterValue::Float(Binary64::ratio(5, 10)),
            ParameterValue::Float(Binary64::from_u64(2)),
            SuccessMetric::MaxThroughput,
        ),
        usual_test(
            "Reorder Timeout",
            "receiver.reorder_timeout_ms",
            ParameterValue::Uint(100),
            ParameterValue::Uint(50),
            ParameterValue::Uint(200),
            SuccessMetric::MinLatencyP50,
        ),
    ];
    assert(r@.map_values(|t: TestConfig| t@) =~= standard_tests());
    r
}

// ---------------------------------------------------------------------------
// Laws
// ---------------------------------------------------------------------------

/// The winner's score is not below that of any other phase; cooldowns never
/// win.
pub proof fn law_winner_has_the_best_score(phases: Seq<PhaseResultView>, n: nat, j: int)
    requires
        n <= phases.len(),
        0 <= j < n,
        phases[j].phase != TestPhase::Cooldown,
    ensures
        best(phases, n) matches Some(i) ==> (0 <= i < n && phases[i].phase != TestPhase::Cooldown
            && !phases[i].score.less(phases[j].score)),
        (best(phases, n) is None) ==> !(Binary64 { bits: MINUS_INFINITY_BITS }).less(phases[j].score),
    decreases n,
{
    reveal(Binary64::less);
    let m = (n - 1) as nat;
    lemma_best_is_listed(phases, m);
    if j < m {
        law_winner_has_the_best_score(phases, m, j);
    }
}

proof fn lemma_best_is_listed(phases: Seq<PhaseResultView>, n: nat)
    ensures
        best(phases, n) matches Some(i) ==> (0 <= i < n && phases[i].phase != TestPhase::Cooldown),
    decreases n,
{
    if n > 0 {
        lemma_best_is_listed(phases, (n - 1) as nat);
    }
}

/// With fewer than two phases there is no winner.
pub proof fn law_one_phase_has_no_winner(test: ABTestView, completed_at: i64)
    requires
        test.results.len() < 2,
    ensures
        test.outcome(completed_at).winner is None,
        test.outcome(completed_at).confidence == Binary64::of_nat(0),
        test.outcome(completed_at).recommendation == "Insufficient data"@,
{
}

/// Nothing is measured during a cooldown or after the end.
pub proof fn law_cooldown_measures_nothing(test: ABTestView, m: MetricsView)
    requires
        test.current_phase == TestPhase::Cooldown || test.current_phase == TestPhase::Complete,
    ensures
        test.recorded(m) == test,
{
}

/// A test that measures in each of its phases goes from the baseline through
/// a cooldown to variant A, and from there, if there is a variant B, through
/// a cooldown to variant B, and is then complete for good.
pub proof fn law_phases_follow_each_other(test: ABTestView, now_ns: u64)
    requires
        test.over(now_ns),
        test.measures() ==> test.phase_metrics.len() > 0,
        match test.current_phase {
            TestPhase::Baseline => test.results.len() == 0,
            TestPhase::VariantA => test.results.len() == 1,
            TestPhase::VariantB => test.results.len() == 2,
            TestPhase::Cooldown => test.results.len() == 1 || test.results.len() == 2,
            TestPhase::Complete => true,
        },
    ensures
        ({
            let next = test.ticked(now_ns);
            match test.current_phase {
                TestPhase::Baseline => next.current_phase == TestPhase::Cooldown && next.results.len() == 1,
                TestPhase::VariantA => next.results.len() == 2 && next.current_phase == if test.config.variant_b_value
                    is Some {
                    TestPhase::Cooldown
                } else {
                    TestPhase::Complete
                },
                TestPhase::VariantB => next.current_phase == TestPhase::Complete && next.results.len() == 3,
                TestPhase::Cooldown => next.current_phase == if test.results.len() == 1 {
                    TestPhase::VariantA
                } else {
                    TestPhase::VariantB
                },
                TestPhase::Complete => next.current_phase == TestPhase::Complete,
            }
        }),
{
}

/// Every phase result holds the value that the phase ran with, and a phase
/// that is over starts the next one without samples.
pub proof fn law_phase_result_has_its_value(test: ABTestView, now_ns: u64)
    requires
        test.over(now_ns),
        test.measures(),
        test.phase_metrics.len() > 0,
    ensures
        test.ticked(now_ns).results.last().phase == test.current_phase,
        test.ticked(now_ns).results.last().parameter_value == test.value(),
        test.ticked(now_ns).phase_metrics.len() == 0,
{
}

/// A confidence is at most one, whatever the scores are.
pub proof fn law_confidence_is_at_most_one(score: Binary64, values: Seq<Binary64>)
    ensures
        !Binary64::of_nat(1).less(confidence_of(score, values)),
{
    reveal(Binary64::less);
    crate::binary64::lemma_of_nat(0);
    crate::binary64::lemma_of_nat(1);
    crate::binary64::lemma_integer_order(0, 1);
    crate::binary64::lemma_units_order(Binary64::of_nat(0).mag(), Binary64::of_nat(1).mag());
}

/// A phase ends once its time has passed, the cooldown's own for a cooldown,
/// and not before.
pub proof fn law_phases_take_their_time(test: ABTestView, now_ns: u64)
    requires
        test.phase_start <= now_ns,
    ensures
        ({
            let passed = now_ns - test.phase_start;
            let after = test.ticked(now_ns);
            let whole = if test.current_phase is Cooldown {
                test.config.cooldown_duration
            } else {
                test.config.phase_duration
            };
            &&& passed < whole ==> after == test
            &&& passed >= whole ==> after.phase_start == now_ns && after.phase_metrics.len() == 0 && after.current_phase
                != TestPhase::Baseline && (after.current_phase == test.current_phase ==> test.current_phase is Complete)
            &&& passed >= whole && test.measures() && test.phase_metrics.len() > 0 ==> after.results.len()
                == test.results.len() + 1 && after.results.last().duration == passed && after.results.last().samples
                == test.phase_metrics.len() as usize && after.results.drop_last() == test.results
            &&& passed >= whole && (test.current_phase is Cooldown || test.phase_metrics.len() == 0) ==> after.results
                == test.results
        }),
{
    let after = test.ticked(now_ns);
    if test.measures() && test.phase_metrics.len() > 0 {
        assert(test.results.push(test.phase_result(now_ns)).drop_last() =~= test.results);
    }
}

/// Each phase runs with its own value; without a variant B its phase runs with
/// the baseline's.
pub proof fn law_phases_have_their_values(test: ABTestView)
    ensures
        test.current_phase is Baseline || test.current_phase is Cooldown || test.current_phase is Complete
            ==> test.value() == test.config.baseline_value,
        test.current_phase is VariantA ==> test.value() == test.config.variant_a_value,
        test.current_phase is VariantB && test.config.variant_b_value is Some ==> test.value()
            == test.config.variant_b_value->0,
        test.current_phase is VariantB && test.config.variant_b_value is None ==> test.value()
            == test.config.baseline_value,
{
}

/// A measuring phase keeps every sample, in order.
pub proof fn law_samples_are_kept(test: ABTestView, m: MetricsView)
    requires
        test.current_phase is Baseline || test.current_phase is VariantA || test.current_phase is VariantB,
    ensures
        test.recorded(m).phase_metrics == test.phase_metrics.push(m),
        test.recorded(m).current_phase == test.current_phase,
        test.recorded(m).results == test.results,
        test.recorded(m).phase_start == test.phase_start,
{
}

/// The phase named the winner is the one of the best score, the first of
/// several.
pub proof fn law_winner_is_named(test: ABTestView, completed_at: i64, i: int)
    requires
        test.results.len() >= 2,
        0 <= i < test.results.len(),
        !(test.results[i].phase is Cooldown),
        (Binary64 { bits: MINUS_INFINITY_BITS }).less(test.results[i].score),
        forall|j: int|
            0 <= j < test.results.len() && !((#[trigger] test.results[j]).phase is Cooldown) ==> !test.results[i].score.less(
                test.results[j].score,
            ) && !test.results[j].score.nan(),
        forall|j: int|
            0 <= j < i && !((#[trigger] test.results[j]).phase is Cooldown) ==> test.results[j].score.less(
                test.results[i].score,
            ),
    ensures
        ({
            let winner = test.outcome(completed_at).winner;
            &&& test.results[i].phase is Baseline ==> winner == Some("Baseline"@)
            &&& test.results[i].phase is VariantA ==> winner == Some("Variant A"@)
            &&& test.results[i].phase is VariantB ==> winner == Some("Variant B"@)
        }),
        test.outcome(completed_at).phases == test.results,
        test.outcome(completed_at).config == test.config,
        test.outcome(completed_at).started_at == test.started_at,
        test.outcome(completed_at).completed_at == completed_at,
{
    lemma_best_before(test.results, i as nat, i);
    lemma_best_after(test.results, test.results.len(), i);
}

proof fn lemma_best_before(phases: Seq<PhaseResultView>, n: nat, i: int)
    requires
        n <= i < phases.len(),
        forall|j: int|
            0 <= j < i && !((#[trigger] phases[j]).phase is Cooldown) ==> phases[j].score.less(phases[i].score),
    ensures
        best(phases, n) matches Some(j) ==> phases[j].score.less(phases[i].score),
    decreases n,
{
    if n > 0 {
        lemma_best_before(phases, (n - 1) as nat, i);
    }
}

proof fn lemma_best_after(phases: Seq<PhaseResultView>, n: nat, i: int)
    requires
        0 <= i < n <= phases.len(),
        !(phases[i].phase is Cooldown),
        (Binary64 { bits: MINUS_INFINITY_BITS }).less(phases[i].score),
        forall|j: int|
            0 <= j < phases.len() && !((#[trigger] phases[j]).phase is Cooldown) ==> !phases[i].score.less(
                phases[j].score,
            ),
        forall|j: int|
            0 <= j < i && !((#[trigger] phases[j]).phase is Cooldown) ==> phases[j].score.less(phases[i].score),
    ensures
        best(phases, n) == Some(i),
    decreases n,
{
    if n == i + 1 {
        lemma_best_before(phases, i as nat, i);
    } else {
        lemma_best_after(phases, (n - 1) as nat, i);
    }
}

/// By throughput the score is the download rate, by loss what is not lost; by
/// latency it is a thousand over it, so that less latency never scores less.
pub proof fn law_scores_by_metric(s: MetricsSummary, a: nat, b: nat)
    requires
        0 < a <= b < 0x20_0000_0000_0000,
    ensures
        SuccessMetric::MaxThroughput.score(s) == s.avg_throughput_down_mbps,
        SuccessMetric::MinPacketLoss.score(s) == Binary64::of_nat(1).difference(s.avg_loss_ratio),
        s.avg_latency_ms == Binary64::of_nat(a) ==> SuccessMetric::MinLatencyP50.score(s) == Binary64::fraction(1000, a),
        s.max_latency_ms == Binary64::of_nat(a) ==> SuccessMetric::MinLatencyP99.score(s) == Binary64::fraction(1000, a),
        s.avg_latency_ms == Binary64::of_nat(0) ==> SuccessMetric::MinLatencyP50.score(s) == Binary64::of_nat(0),
        s.max_latency_ms == Binary64::of_nat(0) ==> SuccessMetric::MinLatencyP99.score(s) == Binary64::of_nat(0),
        ({
            let quick = MetricsSummary { avg_latency_ms: Binary64::of_nat(a), max_latency_ms: Binary64::of_nat(a), ..s };
            let slow = MetricsSummary { avg_latency_ms: Binary64::of_nat(b), max_latency_ms: Binary64::of_nat(b), ..s };
            &&& SuccessMetric::MinLatencyP50.score(slow).at_most(SuccessMetric::MinLatencyP50.score(quick))
            &&& SuccessMetric::MinLatencyP99.score(slow).at_most(SuccessMetric::MinLatencyP99.score(quick))
        }),
{
    lemma_positive_integer(a);
    lemma_positive_integer(b);
    reveal(Binary64::less);
    lemma_fraction_order(1000, b, 1000, a);
}

proof fn lemma_positive_integer(a: nat)
    requires
        0 < a < 0x20_0000_0000_0000,
    ensures
        Binary64::of_nat(0).less(Binary64::of_nat(a)),
        Binary64::of_nat(a).finite(),
        !Binary64::of_nat(a).negative(),
        Binary64::of_nat(a).mag() > 0,
{
    lemma_of_nat(a);
    lemma_of_nat(0);
    lemma_zero();
    lemma_rounded_zero(1);
    reveal(Binary64::less);
    let c = vstd::arithmetic::power2::pow2(1074);
    vstd::arithmetic::power2::lemma_pow2_pos(1074);
    assert(a * c > 0) by (nonlinear_arith)
        requires
            a > 0,
            c > 0,
    ;
}

/// With all weight on one part, the weighted score is that part: throughput in
/// hundreds of Mbps, ten over the latency in milliseconds, or what is not lost.
/// Here the figures are integers and a ratio.
pub proof fn law_weighted_score_parts(s: MetricsSummary, down: nat, latency: nat)
    requires
        down < 0x10_0000_0000_0000,
        0 < latency < 0x20_0000_0000_0000,
        s.avg_throughput_down_mbps == Binary64::of_nat(down),
        s.avg_latency_ms == Binary64::of_nat(latency),
        s.avg_loss_ratio.finite(),
        !s.avg_loss_ratio.negative(),
        s.avg_loss_ratio.at_most(Binary64::of_nat(1)),
    ensures
        ({
            let zero = Binary64::of_nat(0);
            let one = Binary64::of_nat(1);
            &&& (SuccessMetric::WeightedScore { throughput_weight: one, latency_weight: zero, loss_weight: zero }).score(s)
                == Binary64::fraction(down, 100)
            &&& (SuccessMetric::WeightedScore { throughput_weight: zero, latency_weight: one, loss_weight: zero }).score(s)
                == Binary64::fraction(10, latency)
            &&& (SuccessMetric::WeightedScore { throughput_weight: zero, latency_weight: zero, loss_weight: one }).score(s)
                == one.difference(s.avg_loss_ratio)
            &&& (SuccessMetric::WeightedScore { throughput_weight: one, latency_weight: one, loss_weight: zero }).score(s)
                == Binary64::fraction(down, 100).sum(Binary64::fraction(10, latency))
        }),
{
    let zero = Binary64::of_nat(0);
    let one = Binary64::of_nat(1);
    let t = Binary64::fraction(down, 100);
    let l = Binary64::fraction(10, latency);
    let rest = one.difference(s.avg_loss_ratio);
    lemma_positive_integer(latency);
    lemma_fraction(down, 100);
    lemma_fraction(10, latency);
    lemma_of_nat(1);
    lemma_of_nat(0);
    lemma_zero();
    lemma_rounded_zero(1);
    lemma_nonnegative_difference(s.avg_loss_ratio, one);
    lemma_plus_zero(one);
    assert(zero.at_most(s.avg_loss_ratio)) by {
        reveal(Binary64::at_most);
    }
    lemma_difference_order(zero, s.avg_loss_ratio, one);
    lemma_at_most_mag(rest, one);
    lemma_times_one(t);
    lemma_times_one(l);
    lemma_times_one(rest);
    lemma_times_zero(t);
    lemma_times_zero(l);
    lemma_times_zero(rest);
    lemma_plus_zero(t);
    lemma_plus_zero(l);
    lemma_plus_zero(rest);
    lemma_plus_zero(zero);
    lemma_fraction_order(10, latency, 10, 1);
    lemma_whole_fraction(10);
    lemma_sum_of_two(t, l, down);
}

proof fn lemma_sum_of_two(t: Binary64, l: Binary64, down: nat)
    requires
        t == Binary64::fraction(down, 100),
        down < 0x10_0000_0000_0000,
        l.finite(),
        !l.negative(),
        l.at_most(Binary64::of_nat(10)),
    ensures
        t.sum(l).sum(Binary64::of_nat(0)) == t.sum(l),
{
    lemma_of_nat(down);
    lemma_of_nat(10);
    lemma_fraction_order(down, 100, down, 1);
    lemma_whole_fraction(down);
    lemma_fraction(down, 100);
    lemma_at_most_mag(t, Binary64::of_nat(down));
    lemma_at_most_mag(l, Binary64::of_nat(10));
    reveal(Binary64::at_most);
    let c = vstd::arithmetic::power2::pow2(1074);
    assert(0 * c == 0);
    lemma_sum_lies(t, l, 0, down, 0, 10, 1074);
    lemma_plus_zero(t.sum(l));
}

/// A sample without throughput counts for no throughput average, and one
/// without latency for no latency average; every sample counts for the rest.
pub proof fn law_idle_samples_do_not_count(metrics: Seq<MetricsView>, m: MetricsView)
    requires
        metrics.len() > 0,
        m.throughput_down_mbps == Binary64::of_nat(0),
        m.throughput_up_mbps == Binary64::of_nat(0),
        m.latency_avg_ms == Binary64::of_nat(0),
        metrics.len() < usize::MAX,
    ensures
        ({
            let a = summary(metrics);
            let b = summary(metrics.push(m));
            &&& b.avg_throughput_down_mbps == a.avg_throughput_down_mbps
            &&& b.avg_throughput_up_mbps == a.avg_throughput_up_mbps
            &&& b.avg_latency_ms == a.avg_latency_ms
            &&& b.max_throughput_down_mbps == a.max_throughput_down_mbps
            &&& b.max_throughput_up_mbps == a.max_throughput_up_mbps
            &&& b.max_latency_ms == a.max_latency_ms
            &&& b.sample_count == a.sample_count + 1
        }),
{
    let all = metrics.push(m);
    assert(!Binary64::of_nat(0).less(Binary64::of_nat(0))) by {
        reveal(Binary64::less);
    }
    let down = metrics.map_values(|m: MetricsView| m.throughput_down_mbps);
    let up = metrics.map_values(|m: MetricsView| m.throughput_up_mbps);
    let latencies = metrics.map_values(|m: MetricsView| m.latency_avg_ms);
    assert(all.map_values(|m: MetricsView| m.throughput_down_mbps) =~= down.push(Binary64::of_nat(0)));
    assert(all.map_values(|m: MetricsView| m.throughput_up_mbps) =~= up.push(Binary64::of_nat(0)));
    assert(all.map_values(|m: MetricsView| m.latency_avg_ms) =~= latencies.push(Binary64::of_nat(0)));
    lemma_zero_is_left_out(down);
    lemma_zero_is_left_out(up);
    lemma_zero_is_left_out(latencies);
}

proof fn lemma_zero_is_left_out(values: Seq<Binary64>)
    ensures
        positive(values.push(Binary64::of_nat(0))) == positive(values),
{
    reveal(Seq::filter);
    reveal(Binary64::less);
    assert(values.push(Binary64::of_nat(0)).drop_last() =~= values);
}

/// A phase's averages are those of its busy samples: here all samples are busy
/// and their figures integers.
pub proof fn law_busy_samples_are_averaged(metrics: Seq<MetricsView>, down: Seq<u64>, up: Seq<u64>, latency: Seq<u64>)
    requires
        0 < metrics.len() <= usize::MAX,
        metrics.len() < 0x20_0000_0000_0000,
        down.len() == metrics.len() && up.len() == metrics.len() && latency.len() == metrics.len(),
        total(down) < 0x20_0000_0000_0000 && total(up) < 0x20_0000_0000_0000 && total(latency) < 0x20_0000_0000_0000,
        forall|i: int|
            0 <= i < metrics.len() ==> 0 < down[i] < 0x20_0000_0000_0000 && 0 < up[i] < 0x20_0000_0000_0000 && 0
                < latency[i] < 0x20_0000_0000_0000 && (#[trigger] metrics[i]).throughput_down_mbps == Binary64::of_nat(
                down[i] as nat,
            ) && metrics[i].throughput_up_mbps == Binary64::of_nat(up[i] as nat) && metrics[i].latency_avg_ms
                == Binary64::of_nat(latency[i] as nat),
    ensures
        ({
            let s = summary(metrics);
            &&& s.avg_throughput_down_mbps == Binary64::fraction(total(down), metrics.len())
            &&& s.avg_throughput_up_mbps == Binary64::fraction(total(up), metrics.len())
            &&& s.avg_latency_ms == Binary64::fraction(total(latency), metrics.len())
            &&& forall|i: int| 0 <= i < metrics.len() ==> !s.max_latency_ms.less((#[trigger] metrics[i]).latency_avg_ms)
            &&& forall|i: int|
                0 <= i < metrics.len() ==> !s.max_throughput_down_mbps.less((#[trigger] metrics[i]).throughput_down_mbps)
        }),
{
    let a = metrics.map_values(|m: MetricsView| m.throughput_down_mbps);
    let b = metrics.map_values(|m: MetricsView| m.throughput_up_mbps);
    let c = metrics.map_values(|m: MetricsView| m.latency_avg_ms);
    assert forall|i: int| 0 <= i < a.len() implies Binary64::of_nat(0).less(#[trigger] a[i]) by {
        let m = metrics[i];
        lemma_positive_integer(down[i] as nat);
    }
    assert forall|i: int| 0 <= i < b.len() implies Binary64::of_nat(0).less(#[trigger] b[i]) by {
        let m = metrics[i];
        lemma_positive_integer(up[i] as nat);
    }
    assert forall|i: int| 0 <= i < c.len() implies Binary64::of_nat(0).less(#[trigger] c[i]) by {
        let m = metrics[i];
        lemma_positive_integer(latency[i] as nat);
    }
    lemma_all_positive(a);
    lemma_all_positive(b);
    lemma_all_positive(c);
    assert(a =~= down.map_values(|v: u64| Binary64::of_nat(v as nat)));
    assert(b =~= up.map_values(|v: u64| Binary64::of_nat(v as nat)));
    assert(c =~= latency.map_values(|v: u64| Binary64::of_nat(v as nat)));
    law_mean_of_integers(down);
    law_mean_of_integers(up);
    law_mean_of_integers(latency);
    assert forall|i: int| 0 <= i < metrics.len() implies !peak(c).less((#[trigger] metrics[i]).latency_avg_ms) by {
        law_peak_is_the_greatest(c, i);
    }
    assert forall|i: int| 0 <= i < metrics.len() implies !peak(a).less((#[trigger] metrics[i]).throughput_down_mbps) by {
        law_peak_is_the_greatest(a, i);
    }
}

proof fn lemma_all_positive(values: Seq<Binary64>)
    requires
        forall|i: int| 0 <= i < values.len() ==> Binary64::of_nat(0).less(#[trigger] values[i]),
    ensures
        positive(values) == values,
    decreases values.len(),
{
    reveal(Seq::filter);
    if values.len() > 0 {
        let shorter = values.drop_last();
        assert forall|i: int| 0 <= i < shorter.len() implies Binary64::of_nat(0).less(#[trigger] shorter[i]) by {
            assert(shorter[i] == values[i]);
        }
        lemma_all_positive(shorter);
        assert(values.last() == values[values.len() - 1]);
        assert(shorter.push(values.last()) =~= values);
    }
}

/// Between two scores, integers here and an even number apart, the better one
/// is certain; between equal ones there is no confidence.
pub proof fn law_confidence_between_two(m: nat, d: nat)
    requires
        d < 0x400_0000,
        d <= m,
        2 * m < 0x20_0000_0000_0000,
    ensures
        ({
            let high = Binary64::of_nat(m + d);
            let low = Binary64::of_nat((m - d) as nat);
            &&& d > 0 ==> confidence_of(high, seq![high, low]) == Binary64::of_nat(1) && confidence_of(
                high,
                seq![low, high],
            ) == Binary64::of_nat(1)
            &&& d == 0 ==> confidence_of(high, seq![high, low]) == Binary64::of_nat(0)
        }),
{
    let high = Binary64::of_nat(m + d);
    let low = Binary64::of_nat((m - d) as nat);
    lemma_deviation_of_two(m, d, high, low);
    lemma_deviation_of_two(m, d, low, high);
    let middle = Binary64::of_nat(m);
    let apart = Binary64::of_nat(d);
    lemma_of_nat(m);
    lemma_of_nat(d);
    lemma_of_nat(1);
    lemma_of_nat(0);
    lemma_whole_difference(m + d, m);
    reveal(Binary64::less);
    if d > 0 {
        lemma_positive_integer(d);
        lemma_over_self(apart);
        assert(apart.magnitude() == apart) by {
            crate::accuracy::lemma_with_sign(false, apart.mag());
        }
    }
}

proof fn lemma_deviation_of_two(m: nat, d: nat, a: Binary64, b: Binary64)
    requires
        d < 0x400_0000,
        d <= m,
        2 * m < 0x20_0000_0000_0000,
        (a == Binary64::of_nat(m + d) && b == Binary64::of_nat((m - d) as nat)) || (b == Binary64::of_nat(m + d) && a
            == Binary64::of_nat((m - d) as nat)),
    ensures
        mean(seq![a, b]) == Binary64::of_nat(m),
        deviation(seq![a, b]) == Binary64::of_nat(d),
{
    let values = seq![a, b];
    let middle = Binary64::of_nat(m);
    let (x, y): (u64, u64) = if a == Binary64::of_nat(m + d) && b == Binary64::of_nat((m - d) as nat) {
        ((m + d) as u64, (m - d) as u64)
    } else {
        ((m - d) as u64, (m + d) as u64)
    };
    let numbers = seq![x, y];
    reveal_with_fuel(total, 3);
    assert(numbers.drop_last().drop_last() =~= Seq::<u64>::empty());
    assert(total(numbers) == 2 * m);
    law_mean_of_integers(numbers);
    assert(numbers.map_values(|v: u64| Binary64::of_nat(v as nat)) =~= values);
    lemma_same_fraction(2 * m, 2, m, 1);
    lemma_whole_fraction(m);
    assert(d * d < 0x10_0000_0000_0000) by (nonlinear_arith)
        requires
            d < 0x400_0000,
    ;
    lemma_square_of_distance(m, d);
    let squares = values.map_values(|x: Binary64| x.difference(mean(values)).product(x.difference(mean(values))));
    assert(squares =~= seq![Binary64::of_nat(d * d), Binary64::of_nat(d * d)]);
    let s = (d * d) as u64;
    assert(squares =~= Seq::new(2, |i: int| Binary64::of_nat(s as nat)));
    law_mean_of_equals(s, 2);
    crate::root::law_root_of_a_square(d);
}

proof fn lemma_square_of_distance(m: nat, d: nat)
    requires
        d <= m,
        2 * m < 0x20_0000_0000_0000,
        d < 0x20_0000_0000_0000,
        d * d < 0x20_0000_0000_0000,
    ensures
        ({
            let up = Binary64::of_nat(m + d).difference(Binary64::of_nat(m));
            let down = Binary64::of_nat((m - d) as nat).difference(Binary64::of_nat(m));
            up.product(up) == Binary64::of_nat(d * d) && down.product(down) == Binary64::of_nat(d * d)
        }),
{
    lemma_whole_difference(m + d, m);
    lemma_whole_product(d, d);
    lemma_below_whole_difference((m - d) as nat, m);
    reveal(Binary64::product);
    lemma_of_nat(d);
    let down = Binary64::of_nat((m - d) as nat).difference(Binary64::of_nat(m));
    let up = Binary64::of_nat(d);
    assert(down.mag() == up.mag());
}

proof fn lemma_below_whole_difference(a: nat, b: nat)
    requires
        a <= b < 0x20_0000_0000_0000,
    ensures
        Binary64::of_nat(a).difference(Binary64::of_nat(b)).mag() == Binary64::of_nat((b - a) as nat).mag(),
{
    let c = vstd::arithmetic::power2::pow2(1074);
    lemma_of_nat(a);
    lemma_of_nat(b);
    lemma_of_nat((b - a) as nat);
    lemma_negated(Binary64::of_nat(b));
    reveal(Binary64::sum);
    assert(a * c - b * c == -((b - a) * c)) by (nonlinear_arith);
    vstd::arithmetic::power2::lemma_pow2_pos(1074);
    crate::binary64::lemma_rounded_monotone((b - a) as nat * c, 1, (b - a) as nat * c, 1);
    crate::accuracy::lemma_with_sign(true, crate::binary64::rounded((b - a) as nat * c, 1));
    crate::accuracy::lemma_with_sign(false, 0);
    if a == b {
        assert(0 * c == 0);
        lemma_rounded_zero(1);
    } else {
        assert((b - a) * c > 0) by (nonlinear_arith)
            requires
                b > a,
                c > 0,
        ;
    }
}

/// A suite whose test ends keeps its outcome and begins the next test, if
/// there is one; otherwise it stays with the test.
pub proof fn law_suite_goes_on(suite: TestSuiteView, now_ns: u64, completed_at: i64, started_at: i64)
    requires
        suite.current_test is Some,
        suite.current_test_idx < usize::MAX,
    ensures
        ({
            let test = suite.current_test->0.ticked(now_ns);
            let after = suite.ticked(now_ns, completed_at, started_at);
            let next = suite.current_test_idx + 1;
            &&& !(test.current_phase is Complete) ==> after.current_test == Some(test) && after.results == suite.results
                && after.current_test_idx == suite.current_test_idx
            &&& test.current_phase is Complete ==> after.current_test_idx == next && after.results.len()
                == suite.results.len() + 1 && after.results.last() == test.outcome(completed_at)
            &&& test.current_phase is Complete && next < suite.tests.len() ==> after.current_test is Some
                && after.current_test->0.config == suite.tests[next] && after.current_test->0.current_phase is Baseline
                && after.current_test->0.results.len() == 0 && after.current_test->0.phase_start == now_ns
                && after.current_test->0.started_at == started_at
            &&& test.current_phase is Complete && next >= suite.tests.len() ==> after.current_test is None
                && after.done()
            &&& after.tests == suite.tests
        }),
{
}

} // verus!
