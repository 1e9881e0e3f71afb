//! Throughput optimizer.
//!
//! Hill-climbing optimizer that perturbs per-link weight factors, measures
//! aggregate throughput, keeps improvements, and reverts regressions.
//!
//! Runs alongside the rate controller: that one handles per-link health, the
//! optimizer handles the distribution between links.

use crate::accuracy::{
    lemma_at_most_mag, lemma_difference_order, lemma_difference_sign, lemma_minus_self,
    lemma_nonnegative_difference, lemma_plus_zero, lemma_product_order, lemma_rest_is_close,
    lemma_sum_lies, lemma_sum_order, lemma_times_one, lemma_times_zero, lemma_whole_difference, lies,
};
use crate::binary64::{
    lemma_fraction, lemma_fraction_order, lemma_of_nat, lemma_rounded_zero, lemma_whole_fraction, lemma_zero, units,
    Binary64,
};
use crate::config::OptimizerConfig;
use crate::measure::{as_mbps, mbps, monus};
use crate::share::{checked_sum, sum, total};
use crate::text::{decimal, fixed_text, join, push_decimal, push_fixed, push_joined};
use std::collections::VecDeque;
use vstd::prelude::*;

verus! {

/// Optimizer state machine phases.
#[derive(Debug, Clone, Copy, PartialEq, Eq, Structural)]
pub enum OptimizerState {
    /// No significant traffic: optimizer is dormant
    Idle,
    /// Collecting baseline measurements before experimenting
    Baseline,
    /// Actively perturbing one link's weight factor
    Experimenting,
    /// Comparing experiment results against baseline
    Evaluating,
    /// Brief pause between experiments
    Cooldown,
}

impl OptimizerState {
    /// The state's name.
    pub open spec fn name(self) -> Seq<char> {
        match self {
            OptimizerState::Idle => "IDLE"@,
            OptimizerState::Baseline => "BASELINE"@,
            OptimizerState::Experimenting => "EXPERIMENT"@,
            OptimizerState::Evaluating => "EVALUATING"@,
            OptimizerState::Cooldown => "COOLDOWN"@,
        }
    }

    /// The state's name.
    pub fn label(&self) -> (r: &'static str)
        ensures
            r@ == self.name(),
    {
        match self {
            OptimizerState::Idle => "IDLE",
            OptimizerState::Baseline => "BASELINE",
            OptimizerState::Experimenting => "EXPERIMENT",
            OptimizerState::Evaluating => "EVALUATING",
            OptimizerState::Cooldown => "COOLDOWN",
        }
    }
}

/// A throughput sample recorded each tick.
#[derive(Debug, Clone, Copy)]
pub struct ThroughputSample {
    /// Aggregate throughput across all links (bytes/sec)
    pub throughput_bps: u64,
    /// Composite score: throughput * (1 - weighted_loss)
    pub score: Binary64,
    /// Instant of this sample (nanoseconds)
    pub timestamp: u64,
}

/// What perturbation is being tested.
#[derive(Debug, Clone, Copy)]
pub struct Experiment {
    /// Which link is being perturbed
    pub link_id: usize,
    /// Direction: true = increase, false = decrease
    pub increase: bool,
    /// The step magnitude applied
    pub step: Binary64,
    /// Original factor before perturbation (for revert)
    pub original_factor: Binary64,
}

/// Snapshot of current system state, provided each tick by the caller.
#[derive(Debug, Clone)]
pub struct OptimizerSnapshot {
    /// Per-link measured bandwidth in bytes/sec
    pub per_link_bandwidth_bps: Vec<u64>,
    /// Per-link loss ratio (0.0 - 1.0)
    pub per_link_loss_ratio: Vec<Binary64>,
    /// Per-link health status
    pub per_link_healthy: Vec<bool>,
    /// Number of active flows
    pub active_flow_count: usize,
}

/// The throughput optimizer.
#[derive(Debug)]
pub struct ThroughputOptimizer {
    pub config: OptimizerConfig,
    pub num_links: usize,
    /// Current weight factors per link, one by default
    pub weight_factors: Vec<Binary64>,
    /// Last-known-good factors
    pub best_known_factors: Vec<Binary64>,
    /// Sliding window of throughput samples
    pub history: VecDeque<ThroughputSample>,
    /// Current state machine phase
    pub state: OptimizerState,
    /// When the current phase started (nanoseconds)
    pub state_entered_at: u64,
    /// Ticks elapsed in current phase
    pub phase_ticks: u64,
    /// Active experiment (if any)
    pub current_experiment: Option<Experiment>,
    /// Adaptive step size
    pub current_step_size: Binary64,
    /// Round-robin index: which link to experiment on next
    pub next_link_index: usize,
    /// Whether an increase was tried on the current link
    pub tried_increase: bool,
    /// Count of consecutive full cycles with no improvement (triggers step
    /// shrink)
    pub no_improvement_streak: usize,
    /// Whether an experiment was accepted in the current cycle
    pub cycle_improved: bool,
    /// Baseline average score
    pub baseline_score: Binary64,
    /// Experiment average score
    pub experiment_score: Binary64,
    /// Sum of the scores of this phase
    pub phase_score_sum: Binary64,
    /// Number of the scores of this phase
    pub phase_score_count: u64,
    /// Best score ever seen
    pub best_score: Binary64,
    /// Total experiments run
    pub total_experiments: u64,
    /// Total accepted experiments
    pub total_accepts: u64,
}

// ---------------------------------------------------------------------------
// Model
// ---------------------------------------------------------------------------

/// What an [`OptimizerSnapshot`] holds.
pub struct SnapshotView {
    pub bandwidths: Seq<u64>,
    pub losses: Seq<Binary64>,
    pub healthy: Seq<bool>,
}

impl View for OptimizerSnapshot {
    type V = SnapshotView;

    open spec fn view(&self) -> SnapshotView {
        SnapshotView {
            bandwidths: self.per_link_bandwidth_bps@,
            losses: self.per_link_loss_ratio@,
            healthy: self.per_link_healthy@,
        }
    }
}

impl SnapshotView {
    /// A link's bandwidth, zero where none is given.
    pub open spec fn bandwidth(self, i: int) -> u64 {
        if i < self.bandwidths.len() {
            self.bandwidths[i]
        } else {
            0
        }
    }

    /// A link's loss, zero where none is given.
    pub open spec fn loss(self, i: int) -> Binary64 {
        if i < self.losses.len() {
            self.losses[i]
        } else {
            Binary64::of_nat(0)
        }
    }

    /// The losses of the first `n` links, each weighed by its link's share of
    /// the bandwidth, added up in order.
    pub open spec fn loss_sum(self, n: nat) -> Binary64
        decreases n,
    {
        if n == 0 {
            Binary64::of_nat(0)
        } else {
            let i = n - 1;
            let weight = Binary64::of_nat(self.bandwidth(i) as nat).quotient(
                Binary64::of_nat(total(self.bandwidths)),
            );
            self.loss_sum(i as nat).sum(self.loss(i).product(weight))
        }
    }

    /// Loss across all links, weighed by bandwidth, between zero and one.
    pub open spec fn weighted_loss(self, num_links: nat) -> Binary64 {
        if total(self.bandwidths) == 0 {
            Binary64::of_nat(0)
        } else {
            self.loss_sum(num_links).clamped(Binary64::of_nat(0), Binary64::of_nat(1))
        }
    }

    /// Throughput less what is lost.
    pub open spec fn score(self, num_links: nat) -> Binary64 {
        Binary64::of_nat(total(self.bandwidths)).product(
            Binary64::of_nat(1).difference(self.weighted_loss(num_links)),
        )
    }

    /// Whether a link can be experimented on.
    pub open spec fn usable(self, i: int) -> bool {
        (i < self.healthy.len() && self.healthy[i]) || self.bandwidth(i) > 0
    }

    /// The first usable link of `n`, going round from `start + offset` on.
    pub open spec fn seek(self, n: nat, start: nat, offset: nat) -> Option<usize>
        decreases n - offset,
    {
        if offset >= n {
            None
        } else {
            let i = (start + offset) % n;
            if self.usable(i as int) {
                Some(i as usize)
            } else {
                self.seek(n, start, offset + 1)
            }
        }
    }
}

/// What a [`ThroughputOptimizer`] holds.
#[verifier::ext_equal]
pub struct OptimizerView {
    pub config: OptimizerConfig,
    pub num_links: usize,
    pub factors: Seq<Binary64>,
    pub best_known: Seq<Binary64>,
    pub history: Seq<ThroughputSample>,
    pub state: OptimizerState,
    pub entered_at: u64,
    pub ticks: u64,
    pub experiment: Option<Experiment>,
    pub step: Binary64,
    pub next_link: usize,
    pub tried_increase: bool,
    pub streak: usize,
    pub cycle_improved: bool,
    pub baseline_score: Binary64,
    pub experiment_score: Binary64,
    pub score_sum: Binary64,
    pub score_count: u64,
    pub best_score: Binary64,
    pub experiments: u64,
    pub accepts: u64,
}

impl View for ThroughputOptimizer {
    type V = OptimizerView;

    open spec fn view(&self) -> OptimizerView {
        OptimizerView {
            config: self.config,
            num_links: self.num_links,
            factors: self.weight_factors@,
            best_known: self.best_known_factors@,
            history: self.history@,
            state: self.state,
            entered_at: self.state_entered_at,
            ticks: self.phase_ticks,
            experiment: self.current_experiment,
            step: self.current_step_size,
            next_link: self.next_link_index,
            tried_increase: self.tried_increase,
            streak: self.no_improvement_streak,
            cycle_improved: self.cycle_improved,
            baseline_score: self.baseline_score,
            experiment_score: self.experiment_score,
            score_sum: self.phase_score_sum,
            score_count: self.phase_score_count,
            best_score: self.best_score,
            experiments: self.total_experiments,
            accepts: self.total_accepts,
        }
    }
}

impl OptimizerView {
    pub open spec fn wf(self) -> bool {
        &&& self.factors.len() == self.num_links
        &&& self.next_link < self.num_links || self.next_link == 0
        &&& self.experiment matches Some(e) ==> e.link_id < self.num_links
    }

    /// An optimizer that has not ticked yet.
    pub open spec fn fresh(config: OptimizerConfig, num_links: usize, now_ns: u64) -> OptimizerView {
        OptimizerView {
            config,
            num_links,
            factors: Seq::new(num_links as nat, |i: int| Binary64::of_nat(1)),
            best_known: Seq::new(num_links as nat, |i: int| Binary64::of_nat(1)),
            history: Seq::empty(),
            state: OptimizerState::Idle,
            entered_at: now_ns,
            ticks: 0,
            experiment: None,
            step: config.step_size,
            next_link: 0,
            tried_increase: false,
            streak: 0,
            cycle_improved: false,
            baseline_score: Binary64::of_nat(0),
            experiment_score: Binary64::of_nat(0),
            score_sum: Binary64::of_nat(0),
            score_count: 0,
            best_score: Binary64::of_nat(0),
            experiments: 0,
            accepts: 0,
        }
    }

    /// A phase begins.
    pub open spec fn entered(self, state: OptimizerState, now_ns: u64) -> OptimizerView {
        OptimizerView {
            state,
            entered_at: now_ns,
            ticks: 0,
            score_sum: Binary64::of_nat(0),
            score_count: 0,
            ..self
        }
    }

    /// One score more in this phase.
    pub open spec fn scored(self, score: Binary64) -> OptimizerView {
        OptimizerView {
            score_sum: self.score_sum.sum(score),
            score_count: (self.score_count + 1) as u64,
            ..self
        }
    }

    /// A phase begins whose first score is known.
    pub open spec fn measuring(self, score: Binary64, now_ns: u64) -> OptimizerView {
        OptimizerView { score_sum: score, score_count: 1, ..self.entered(OptimizerState::Baseline, now_ns) }
    }

    /// Average score of this phase.
    pub open spec fn average(self) -> Binary64 {
        self.score_sum.quotient(Binary64::of_nat(self.score_count as nat))
    }

    /// Whether the measurement window is over.
    pub open spec fn measured(self) -> bool {
        self.ticks >= self.config.measurement_window_secs
    }

    /// A sample is recorded; the oldest ones go where there are too many.
    pub open spec fn sampled(self, sample: ThroughputSample) -> OptimizerView {
        let all = self.history.push(sample);
        OptimizerView {
            history: all.skip(monus(all.len(), self.config.history_window_size as nat) as int),
            best_score: if self.best_score.less(sample.score) {
                sample.score
            } else {
                self.best_score
            },
            ticks: (self.ticks + 1) as u64,
            ..self
        }
    }

    /// The active experiment, if any, is undone.
    pub open spec fn reverted(self) -> OptimizerView {
        match self.experiment {
            Some(e) => OptimizerView {
                factors: self.factors.update(e.link_id as int, e.original_factor),
                experiment: None,
                ..self
            },
            None => self,
        }
    }

    /// The next link's turn; after a full cycle without improvement the step
    /// shrinks.
    pub open spec fn advanced(self) -> OptimizerView {
        let next = if self.next_link + 1 < self.num_links {
            (self.next_link + 1) as usize
        } else {
            0
        };
        OptimizerView {
            tried_increase: false,
            next_link: next,
            streak: if next != 0 {
                self.streak
            } else if self.cycle_improved {
                0
            } else if self.streak < usize::MAX {
                (self.streak + 1) as usize
            } else {
                usize::MAX
            },
            cycle_improved: next != 0 && self.cycle_improved,
            step: if next == 0 && !self.cycle_improved {
                self.step.product(self.config.step_shrink_factor).greater(self.config.min_step_size)
            } else {
                self.step
            },
            ..self
        }
    }

    /// A factor perturbed by a step, within its bounds.
    pub open spec fn perturbed(self, factor: Binary64, increase: bool) -> Binary64 {
        let one = Binary64::of_nat(1);
        if increase {
            factor.product(one.sum(self.step)).lesser(self.config.max_weight_factor)
        } else {
            factor.product(one.difference(self.step)).greater(self.config.min_weight_factor)
        }
    }

    /// An experiment begins on the first usable link from the current one on,
    /// an increase first; without a usable link the baseline starts over.
    pub open spec fn started(self, snapshot: SnapshotView, now_ns: u64) -> OptimizerView {
        match snapshot.seek(self.num_links as nat, self.next_link as nat, 0) {
            None => self.entered(OptimizerState::Baseline, now_ns),
            Some(link_id) => {
                let original = self.factors[link_id as int];
                let increase = !self.tried_increase;
                OptimizerView {
                    next_link: link_id,
                    factors: self.factors.update(link_id as int, self.perturbed(original, increase)),
                    experiment: Some(
                        Experiment { link_id, increase, step: self.step, original_factor: original },
                    ),
                    experiments: (self.experiments + 1) as u64,
                    ..self
                }.entered(OptimizerState::Experimenting, now_ns)
            },
        }
    }

    /// How much better than the baseline the experiment did, as a fraction.
    pub open spec fn improvement(self) -> Binary64 {
        if Binary64::of_nat(0).less(self.baseline_score) {
            self.experiment_score.difference(self.baseline_score).quotient(self.baseline_score)
        } else {
            Binary64::of_nat(0)
        }
    }

    /// Whether the experiment is accepted.
    pub open spec fn improved(self) -> bool {
        self.config.min_improvement.at_most(self.improvement())
    }

    /// The active experiment ends: kept if it improved things, undone if not.
    pub open spec fn evaluated(self, now_ns: u64) -> OptimizerView {
        match self.experiment {
            None => self,
            Some(e) => if self.improved() {
                OptimizerView {
                    experiment: None,
                    best_known: self.factors,
                    accepts: (self.accepts + 1) as u64,
                    streak: 0,
                    cycle_improved: true,
                    step: self.step.product(self.config.step_growth_factor).lesser(self.config.max_step_size),
                    ..self
                }.advanced().entered(OptimizerState::Cooldown, now_ns)
            } else if e.increase {
                OptimizerView { tried_increase: true, ..self.reverted() }.entered(OptimizerState::Cooldown, now_ns)
            } else {
                self.reverted().advanced().entered(OptimizerState::Cooldown, now_ns)
            },
        }
    }

    /// The state machine on one tick with enough traffic.
    pub open spec fn stepped(self, snapshot: SnapshotView, score: Binary64, now_ns: u64) -> OptimizerView {
        let scored = self.scored(score);
        match self.state {
            OptimizerState::Idle => self.measuring(score, now_ns),
            OptimizerState::Baseline => if scored.measured() {
                OptimizerView { baseline_score: scored.average(), ..scored }.started(snapshot, now_ns)
            } else {
                scored
            },
            OptimizerState::Experimenting => if scored.measured() {
                OptimizerView { experiment_score: scored.average(), ..scored }.entered(
                    OptimizerState::Evaluating,
                    now_ns,
                ).evaluated(now_ns)
            } else {
                scored
            },
            OptimizerState::Evaluating => self.entered(OptimizerState::Cooldown, now_ns),
            OptimizerState::Cooldown => if self.ticks >= self.config.cooldown_secs {
                self.measuring(score, now_ns)
            } else {
                self
            },
        }
    }

    /// The sample of a tick.
    pub open spec fn sample(self, snapshot: SnapshotView, now_ns: u64) -> ThroughputSample {
        ThroughputSample {
            throughput_bps: total(snapshot.bandwidths) as u64,
            score: snapshot.score(self.num_links as nat),
            timestamp: now_ns,
        }
    }

    /// One tick.
    pub open spec fn ticked(self, snapshot: SnapshotView, now_ns: u64) -> OptimizerView {
        let sampled = self.sampled(self.sample(snapshot, now_ns));
        if !self.config.enabled {
            self
        } else if total(snapshot.bandwidths) >= self.config.min_active_throughput {
            sampled.stepped(snapshot, snapshot.score(self.num_links as nat), now_ns)
        } else if self.state is Idle {
            sampled
        } else {
            sampled.reverted().entered(OptimizerState::Idle, now_ns)
        }
    }

    /// Whether a tick ends the active experiment, whatever comes of it.
    pub open spec fn concludes(self, snapshot: SnapshotView) -> bool {
        &&& self.config.enabled
        &&& total(snapshot.bandwidths) >= self.config.min_active_throughput
        &&& self.state is Experimenting
        &&& self.experiment is Some
        &&& self.ticks + 1 >= self.config.measurement_window_secs
    }

    /// Whether a tick has weight factors to apply: it changed them, or it
    /// ended an experiment.
    pub open spec fn hands_out(self, snapshot: SnapshotView, now_ns: u64) -> bool {
        self.ticked(snapshot, now_ns).factors != self.factors || self.concludes(snapshot)
    }

    /// Whether a tick stays within the machine's integers.
    pub open spec fn accepts(self, snapshot: SnapshotView) -> bool {
        self.config.enabled ==> {
            &&& total(snapshot.bandwidths) <= u64::MAX
            &&& self.ticks < u64::MAX
            &&& self.score_count < u64::MAX
            &&& self.experiments < u64::MAX
            &&& self.accepts < u64::MAX
        }
    }
}

// ---------------------------------------------------------------------------
// Operations
// ---------------------------------------------------------------------------

fn copy_factors(factors: &Vec<Binary64>) -> (r: Vec<Binary64>)
    ensures
        r@ == factors@,
{
    let mut r: Vec<Binary64> = Vec::new();
    let mut i: usize = 0;
    while i < factors.len()
        invariant
            i <= factors@.len(),
            r@ == factors@.take(i as int),
        decreases factors.len() - i,
    {
        r.push(factors[i]);
        i = i + 1;
        assert(r@ =~= factors@.take(i as int));
    }
    assert(r@ =~= factors@);
    r
}

fn same_factors(a: &Vec<Binary64>, b: &Vec<Binary64>) -> (r: bool)
    ensures
        r == (a@ == b@),
{
    if a.len() != b.len() {
        return false;
    }
    let mut i: usize = 0;
    while i < a.len()
        invariant
            i <= a@.len(),
            a@.len() == b@.len(),
            forall|j: int| 0 <= j < i ==> a@[j] == b@[j],
        decreases a.len() - i,
    {
        if a[i] != b[i] {
            return false;
        }
        i = i + 1;
    }
    assert(a@ =~= b@);
    true
}

fn ones(n: usize) -> (r: Vec<Binary64>)
    ensures
        r@ == Seq::new(n as nat, |i: int| Binary64::of_nat(1)),
{
    let mut r: Vec<Binary64> = Vec::new();
    let mut i: usize = 0;
    while i < n
        invariant
            i <= n,
            r@ == Seq::new(i as nat, |i: int| Binary64::of_nat(1)),
        decreases n - i,
    {
        r.push(Binary64::from_u64(1));
        i = i + 1;
        assert(r@ =~= Seq::new(i as nat, |i: int| Binary64::of_nat(1)));
    }
    r
}

impl OptimizerSnapshot {
    fn bandwidth(&self, i: usize) -> (r: u64)
        ensures
            r == self@.bandwidth(i as int),
    {
        if i < self.per_link_bandwidth_bps.len() {
            self.per_link_bandwidth_bps[i]
        } else {
            0
        }
    }

    fn is_usable(&self, i: usize) -> (r: bool)
        ensures
            r == self@.usable(i as int),
    {
        (i < self.per_link_healthy.len() && self.per_link_healthy[i]) || self.bandwidth(i) > 0
    }

    /// The first usable link of `n`, going round from `start` on.
    fn find_usable(&self, n: usize, start: usize) -> (r: Option<usize>)
        requires
            start < n || start == 0,
        ensures
            r == self@.seek(n as nat, start as nat, 0),
            r is Some ==> r->0 < n,
    {
        let mut offset: usize = 0;
        while offset < n
            invariant
                offset <= n,
                start < n || start == 0,
                self@.seek(n as nat, start as nat, 0) == self@.seek(n as nat, start as nat, offset as nat),
            decreases n - offset,
        {
            let link_id: usize = if offset < n - start {
                start + offset
            } else {
                offset - (n - start)
            };
            assert(link_id == (start + offset) % n as int) by {
                if offset < n - start {
                    vstd::arithmetic::div_mod::lemma_small_mod((start + offset) as nat, n as nat);
                } else {
                    vstd::arithmetic::div_mod::lemma_small_mod((start + offset - n) as nat, n as nat);
                    vstd::arithmetic::div_mod::lemma_mod_add_multiples_vanish(start + offset - n, n as int);
                }
            }
            if self.is_usable(link_id) {
                return Some(link_id);
            }
            offset = offset + 1;
        }
        None
    }
}

impl ThroughputOptimizer {
    /// An optimizer that has not ticked yet.
    pub fn new(config: OptimizerConfig, num_links: usize, now_ns: u64) -> (r: ThroughputOptimizer)
        ensures
            r@ == OptimizerView::fresh(config, num_links, now_ns),
            r@.wf(),
    {
        let r: ThroughputOptimizer = ThroughputOptimizer {
            config,
            num_links,
            weight_factors: ones(num_links),
            best_known_factors: ones(num_links),
            history: VecDeque::new(),
            state: OptimizerState::Idle,
            state_entered_at: now_ns,
            phase_ticks: 0,
            current_experiment: None,
            current_step_size: config.step_size,
            next_link_index: 0,
            tried_increase: false,
            no_improvement_streak: 0,
            cycle_improved: false,
            baseline_score: Binary64::from_u64(0),
            experiment_score: Binary64::from_u64(0),
            phase_score_sum: Binary64::from_u64(0),
            phase_score_count: 0,
            best_score: Binary64::from_u64(0),
            total_experiments: 0,
            total_accepts: 0,
        };
        assert(r@ =~= OptimizerView::fresh(config, num_links, now_ns));
        r
    }

    /// Whether the optimizer is enabled.
    pub fn enabled(&self) -> (r: bool)
        ensures
            r == self@.config.enabled,
    {
        self.config.enabled
    }

    /// Current state.
    pub fn state(&self) -> (r: OptimizerState)
        ensures
            r == self@.state,
    {
        self.state
    }

    /// Current weight factors.
    pub fn weight_factors(&self) -> (r: &Vec<Binary64>)
        ensures
            r@ == self@.factors,
    {
        &self.weight_factors
    }

    /// Whether [`ThroughputOptimizer::tick`] can take the snapshot.
    pub fn can_tick(&self, snapshot: &OptimizerSnapshot) -> (r: bool)
        ensures
            r == self@.accepts(snapshot@),
    {
        !self.config.enabled || (checked_sum(&snapshot.per_link_bandwidth_bps).is_some() && self.phase_ticks < u64::MAX
            && self.phase_score_count < u64::MAX && self.total_experiments < u64::MAX && self.total_accepts
            < u64::MAX)
    }

    /// Main tick function, called every second.
    ///
    /// Returns the weight factors when they have changed or an experiment was
    /// evaluated, to be applied to the flow classifier, and nothing otherwise.
    pub fn tick(&mut self, snapshot: &OptimizerSnapshot, now_ns: u64) -> (r: Option<Vec<Binary64>>)
        requires
            old(self)@.wf(),
            old(self)@.accepts(snapshot@),
        ensures
            final(self)@.wf(),
            final(self)@ == old(self)@.ticked(snapshot@, now_ns),
            r is Some == old(self)@.hands_out(snapshot@, now_ns),
            r is Some ==> r->0@ == final(self)@.factors,
    {
        if !self.config.enabled {
            return None;
        }
        let before: Vec<Binary64> = copy_factors(&self.weight_factors);
        let throughput: u64 = sum(&snapshot.per_link_bandwidth_bps);
        let weighted_loss: Binary64 = self.compute_weighted_loss(snapshot);
        let score: Binary64 = Binary64::from_u64(throughput).times(Binary64::from_u64(1).minus(weighted_loss));
        self.record_sample(ThroughputSample { throughput_bps: throughput, score, timestamp: now_ns });
        let concludes: bool = throughput >= self.config.min_active_throughput && self.state
            == OptimizerState::Experimenting && self.current_experiment.is_some() && self.phase_ticks
            >= self.config.measurement_window_secs;
        if throughput < self.config.min_active_throughput {
            if self.state != OptimizerState::Idle {
                self.revert_experiment();
                self.enter_state(OptimizerState::Idle, now_ns);
            }
        } else {
            self.step(snapshot, score, now_ns);
        }
        if concludes || !same_factors(&before, &self.weight_factors) {
            Some(copy_factors(&self.weight_factors))
        } else {
            None
        }
    }

    fn record_sample(&mut self, sample: ThroughputSample)
        requires
            old(self).phase_ticks < u64::MAX,
        ensures
            final(self)@ == old(self)@.sampled(sample),
    {
        let ghost all = self.history@.push(sample);
        self.history.push_back(sample);
        assert(all.skip(0) =~= all);
        let ghost mut dropped: int = 0;
        while self.history.len() > self.config.history_window_size
            invariant
                0 <= dropped <= all.len(),
                self.history@ == all.skip(dropped),
                dropped == 0 || self.history@.len() >= self.config.history_window_size,
                self@ == (OptimizerView { history: self.history@, ..old(self)@ }),
            decreases self.history.len(),
        {
            self.history.pop_front();
            proof {
                assert(all.skip(dropped).subrange(1, all.skip(dropped).len() as int) =~= all.skip(dropped + 1));
                dropped = dropped + 1;
            }
        }
        if self.best_score.lt(sample.score) {
            self.best_score = sample.score;
        }
        self.phase_ticks = self.phase_ticks + 1;
        assert(dropped == monus(all.len(), self.config.history_window_size as nat));
        assert(self@ =~= old(self)@.sampled(sample));
    }

    fn step(&mut self, snapshot: &OptimizerSnapshot, score: Binary64, now_ns: u64)
        requires
            old(self)@.wf(),
            old(self).phase_score_count < u64::MAX,
            old(self).total_experiments < u64::MAX,
            old(self).total_accepts < u64::MAX,
        ensures
            final(self)@ == old(self)@.stepped(snapshot@, score, now_ns),
            final(self)@.wf(),
    {
        match self.state {
            OptimizerState::Idle => self.begin_baseline(score, now_ns),
            OptimizerState::Baseline => {
                self.phase_score_sum = self.phase_score_sum.plus(score);
                self.phase_score_count = self.phase_score_count + 1;
                if self.phase_ticks >= self.config.measurement_window_secs {
                    self.baseline_score = self.phase_score_sum.over(Binary64::from_u64(self.phase_score_count));
                    self.start_experiment(snapshot, now_ns);
                }
            },
            OptimizerState::Experimenting => {
                self.phase_score_sum = self.phase_score_sum.plus(score);
                self.phase_score_count = self.phase_score_count + 1;
                if self.phase_ticks >= self.config.measurement_window_secs {
                    self.experiment_score = self.phase_score_sum.over(Binary64::from_u64(self.phase_score_count));
                    self.enter_state(OptimizerState::Evaluating, now_ns);
                    self.evaluate_experiment(now_ns);
                }
            },
            OptimizerState::Evaluating => self.enter_state(OptimizerState::Cooldown, now_ns),
            OptimizerState::Cooldown => {
                if self.phase_ticks >= self.config.cooldown_secs {
                    self.begin_baseline(score, now_ns);
                }
            },
        }
    }

    fn begin_baseline(&mut self, score: Binary64, now_ns: u64)
        ensures
            final(self)@ == old(self)@.measuring(score, now_ns),
    {
        self.enter_state(OptimizerState::Baseline, now_ns);
        self.phase_score_sum = score;
        self.phase_score_count = 1;
    }

    /// Loss across links, weighted by their bandwidth contribution.
    pub fn compute_weighted_loss(&self, snapshot: &OptimizerSnapshot) -> (r: Binary64)
        requires
            total(snapshot@.bandwidths) <= u64::MAX,
        ensures
            r == snapshot@.weighted_loss(self@.num_links as nat),
    {
        let total_bw: u64 = sum(&snapshot.per_link_bandwidth_bps);
        if total_bw == 0 {
            return Binary64::from_u64(0);
        }
        let mut weighted_loss: Binary64 = Binary64::from_u64(0);
        let mut i: usize = 0;
        while i < self.num_links
            invariant
                i <= self.num_links,
                total_bw == total(snapshot@.bandwidths),
                weighted_loss == snapshot@.loss_sum(i as nat),
            decreases self.num_links - i,
        {
            let loss: Binary64 = if i < snapshot.per_link_loss_ratio.len() {
                snapshot.per_link_loss_ratio[i]
            } else {
                Binary64::from_u64(0)
            };
            let weight: Binary64 = Binary64::from_u64(snapshot.bandwidth(i)).over(Binary64::from_u64(total_bw));
            weighted_loss = weighted_loss.plus(loss.times(weight));
            i = i + 1;
        }
        proof {
            lemma_fraction_order(0, 1, 1, 1);
            lemma_whole_fraction(0);
            lemma_whole_fraction(1);
        }
        weighted_loss.clamp(Binary64::from_u64(0), Binary64::from_u64(1))
    }

    /// Starts a new experiment: perturb one link's weight factor.
    fn start_experiment(&mut self, snapshot: &OptimizerSnapshot, now_ns: u64)
        requires
            old(self)@.wf(),
            old(self).total_experiments < u64::MAX,
        ensures
            final(self)@ == old(self)@.started(snapshot@, now_ns),
            final(self)@.wf(),
    {
        let link_id: usize = match snapshot.find_usable(self.num_links, self.next_link_index) {
            Some(link_id) => link_id,
            None => {
                self.enter_state(OptimizerState::Baseline, now_ns);
                return;
            },
        };
        self.next_link_index = link_id;
        let increase: bool = !self.tried_increase;
        let step: Binary64 = self.current_step_size;
        let original_factor: Binary64 = self.weight_factors[link_id];
        let one: Binary64 = Binary64::from_u64(1);
        let new_factor: Binary64 = if increase {
            original_factor.times(one.plus(step)).min(self.config.max_weight_factor)
        } else {
            original_factor.times(one.minus(step)).max(self.config.min_weight_factor)
        };
        self.weight_factors.set(link_id, new_factor);
        self.current_experiment = Some(Experiment { link_id, increase, step, original_factor });
        self.total_experiments = self.total_experiments + 1;
        self.enter_state(OptimizerState::Experimenting, now_ns);
        assert(self@ =~= old(self)@.started(snapshot@, now_ns));
    }

    /// Evaluates the completed experiment against the baseline.
    fn evaluate_experiment(&mut self, now_ns: u64)
        requires
            old(self)@.wf(),
            old(self).total_accepts < u64::MAX,
        ensures
            final(self)@ == old(self)@.evaluated(now_ns),
            final(self)@.wf(),
    {
        let experiment: Experiment = match self.current_experiment {
            Some(e) => e,
            None => {
                return;
            },
        };
        let improvement: Binary64 = if Binary64::from_u64(0).lt(self.baseline_score) {
            self.experiment_score.minus(self.baseline_score).over(self.baseline_score)
        } else {
            Binary64::from_u64(0)
        };
        if self.config.min_improvement.le(improvement) {
            self.current_experiment = None;
            self.best_known_factors = copy_factors(&self.weight_factors);
            self.total_accepts = self.total_accepts + 1;
            self.no_improvement_streak = 0;
            self.cycle_improved = true;
            self.current_step_size = self.current_step_size.times(self.config.step_growth_factor).min(
                self.config.max_step_size,
            );
            self.advance_link();
        } else {
            self.revert_experiment();
            if experiment.increase {
                self.tried_increase = true;
            } else {
                self.advance_link();
            }
        }
        self.enter_state(OptimizerState::Cooldown, now_ns);
    }

    /// Advances to the next link in the round-robin.
    fn advance_link(&mut self)
        requires
            old(self).next_link_index < old(self).num_links,
        ensures
            final(self)@ == old(self)@.advanced(),
    {
        self.tried_increase = false;
        self.next_link_index = if self.next_link_index < self.num_links - 1 {
            self.next_link_index + 1
        } else {
            0
        };
        if self.next_link_index == 0 {
            if self.cycle_improved {
                self.no_improvement_streak = 0;
            } else {
                self.no_improvement_streak = self.no_improvement_streak.saturating_add(1);
                self.current_step_size = self.current_step_size.times(self.config.step_shrink_factor).max(
                    self.config.min_step_size,
                );
            }
            self.cycle_improved = false;
        }
    }

    /// Reverts any active experiment.
    fn revert_experiment(&mut self)
        requires
            old(self)@.wf(),
        ensures
            final(self)@ == old(self)@.reverted(),
            final(self)@.wf(),
    {
        if let Some(experiment) = self.current_experiment {
            self.weight_factors.set(experiment.link_id, experiment.original_factor);
            self.current_experiment = None;
        }
        assert(self@ =~= old(self)@.reverted());
    }

    /// Enters a new state.
    fn enter_state(&mut self, new_state: OptimizerState, now_ns: u64)
        ensures
            final(self)@ == old(self)@.entered(new_state, now_ns),
    {
        self.state = new_state;
        self.state_entered_at = now_ns;
        self.phase_ticks = 0;
        self.phase_score_sum = Binary64::from_u64(0);
        self.phase_score_count = 0;
    }
}

impl OptimizerView {
    /// A fraction in percent.
    pub open spec fn percent(x: Binary64) -> Binary64 {
        x.product(Binary64::of_nat(100))
    }

    /// The weight factor of a link in one word.
    pub open spec fn factor_text(self, i: int) -> Seq<char> {
        "L"@ + decimal(i as nat) + "="@ + fixed_text(self.factors[i], 2)
    }

    /// The active experiment, if any, in one word.
    pub open spec fn experiment_text(self) -> Seq<char> {
        match self.experiment {
            Some(e) => " exp=L"@ + decimal(e.link_id as nat) + (if e.increase {
                "+"@
            } else {
                "-"@
            }) + fixed_text(Self::percent(e.step), 0) + "%"@,
            None => Seq::empty(),
        }
    }

    /// State, weight factors, active experiment, step, accepted and all
    /// experiments, and the best score in Mbps.
    pub open spec fn summary_text(self) -> Seq<char> {
        "Optimizer["@ + self.state.name() + "]: ["@ + join(
            Seq::new(self.factors.len(), |i: int| self.factor_text(i)),
            " "@,
        ) + "]"@ + self.experiment_text() + " step="@ + fixed_text(Self::percent(self.step), 0) + "% exps="@ + decimal(
            self.accepts as nat,
        ) + "/"@ + decimal(self.experiments as nat) + " best="@ + fixed_text(mbps(self.best_score), 0)
    }
}

impl ThroughputOptimizer {
    fn factor_word(&self, i: usize) -> (r: String)
        requires
            i < self.weight_factors@.len(),
        ensures
            r@ == self@.factor_text(i as int),
    {
        let mut r: String = String::from_str("L");
        push_decimal(&mut r, i as u64);
        r.append("=");
        push_fixed(&mut r, self.weight_factors[i], 2);
        r
    }

    fn experiment_word(&self) -> (r: String)
        ensures
            r@ == self@.experiment_text(),
    {
        match self.current_experiment {
            Some(e) => {
                let mut r: String = String::from_str(" exp=L");
                push_decimal(&mut r, e.link_id as u64);
                r.append(
                    if e.increase {
                        "+"
                    } else {
                        "-"
                    },
                );
                push_fixed(&mut r, e.step.times(Binary64::from_u64(100)), 0);
                r.append("%");
                r
            },
            None => String::new(),
        }
    }

    /// Status summary for logging.
    pub fn status_summary(&self) -> (r: String)
        ensures
            r@ == self@.summary_text(),
    {
        let mut parts: Vec<String> = Vec::new();
        let ghost texts = Seq::new(self@.factors.len(), |i: int| self@.factor_text(i));
        let mut i: usize = 0;
        while i < self.weight_factors.len()
            invariant
                i <= self.weight_factors@.len(),
                texts == Seq::new(self@.factors.len(), |i: int| self@.factor_text(i)),
                parts@.len() == i,
                forall|j: int| 0 <= j < i ==> (#[trigger] parts@[j])@ == texts[j],
            decreases self.weight_factors.len() - i,
        {
            parts.push(self.factor_word(i));
            i = i + 1;
        }
        assert(parts@.map_values(|p: String| p@) =~= texts);
        let mut r: String = String::from_str("Optimizer[");
        r.append(self.state.label());
        r.append("]: [");
        push_joined(&mut r, &parts, " ");
        r.append("]");
        r.append(self.experiment_word().as_str());
        r.append(" step=");
        push_fixed(&mut r, self.current_step_size.times(Binary64::from_u64(100)), 0);
        r.append("% exps=");
        push_decimal(&mut r, self.total_accepts);
        r.append("/");
        push_decimal(&mut r, self.total_experiments);
        r.append(" best=");
        push_fixed(&mut r, as_mbps(self.best_score), 0);
        r
    }
}

// ---------------------------------------------------------------------------
// Laws
// ---------------------------------------------------------------------------

impl OptimizerView {
    /// Whether undoing the active experiment, if any, gives the last-known-good
    /// factors.
    pub open spec fn can_roll_back(self) -> bool {
        &&& self.reverted().factors == self.best_known
        &&& self.state is Experimenting <==> self.experiment is Some
    }
}

/// A new optimizer can roll back.
pub proof fn law_rollback_at_first(config: OptimizerConfig, num_links: usize, now_ns: u64)
    ensures
        OptimizerView::fresh(config, num_links, now_ns).wf(),
        OptimizerView::fresh(config, num_links, now_ns).can_roll_back(),
{
}

/// No tick ever loses the last-known-good factors: every change is an
/// experiment that can be undone, and only an accepted one moves them.
pub proof fn law_rollback_is_kept(s: OptimizerView, snapshot: SnapshotView, now_ns: u64)
    requires
        s.wf(),
        s.can_roll_back(),
    ensures
        s.ticked(snapshot, now_ns).can_roll_back(),
        s.ticked(snapshot, now_ns).best_known != s.best_known ==> s.state is Experimenting && s.ticked(
            snapshot,
            now_ns,
        ).accepts == (s.accepts + 1) as u64,
{
    let sampled = s.sampled(s.sample(snapshot, now_ns));
    assert(sampled.reverted().factors == s.reverted().factors);
    let score = snapshot.score(s.num_links as nat);
    if s.config.enabled && total(snapshot.bandwidths) >= s.config.min_active_throughput && s.state is Baseline {
        let scored = sampled.scored(score);
        if scored.measured() {
            let ready = OptimizerView { baseline_score: scored.average(), ..scored };
            law_revert_undoes_start(ready, snapshot, now_ns);
        }
    }
}

proof fn lemma_seek_in_range(snapshot: SnapshotView, n: nat, start: nat, offset: nat)
    requires
        n <= usize::MAX,
    ensures
        snapshot.seek(n, start, offset) matches Some(i) ==> i < n && snapshot.usable(i as int),
    decreases n - offset,
{
    if offset < n {
        vstd::arithmetic::div_mod::lemma_mod_bound((start + offset) as int, n as int);
        lemma_seek_in_range(snapshot, n, start, offset + 1);
    }
}

/// Undoing an experiment restores the factors as they were before it.
pub proof fn law_revert_undoes_start(s: OptimizerView, snapshot: SnapshotView, now_ns: u64)
    requires
        s.wf(),
        s.experiment is None,
    ensures
        s.started(snapshot, now_ns).reverted().factors == s.factors,
        s.started(snapshot, now_ns).best_known == s.best_known,
        s.started(snapshot, now_ns).state is Experimenting <==> s.started(snapshot, now_ns).experiment is Some,
{
    lemma_seek_in_range(snapshot, s.num_links as nat, s.next_link as nat, 0);
    if let Some(link_id) = snapshot.seek(s.num_links as nat, s.next_link as nat, 0) {
        let started = s.started(snapshot, now_ns);
        assert(started.reverted().factors =~= s.factors);
    }
}

/// An experiment changes the factor of one usable link and no other.
pub proof fn law_experiment_touches_one_link(s: OptimizerView, snapshot: SnapshotView, now_ns: u64, i: int)
    requires
        s.wf(),
        0 <= i < s.num_links,
    ensures
        s.started(snapshot, now_ns).factors.len() == s.factors.len(),
        s.started(snapshot, now_ns).factors[i] != s.factors[i] ==> (s.started(snapshot, now_ns).experiment matches Some(
            e,
        ) && e.link_id == i && snapshot.usable(i)),
{
    lemma_seek_in_range(snapshot, s.num_links as nat, s.next_link as nat, 0);
}

/// An experiment that does not improve enough leaves no trace in the factors.
pub proof fn law_regression_is_reverted(s: OptimizerView, now_ns: u64)
    requires
        s.experiment is Some,
        !s.improved(),
    ensures
        s.evaluated(now_ns).factors == s.reverted().factors,
        s.evaluated(now_ns).best_known == s.best_known,
        s.evaluated(now_ns).accepts == s.accepts,
        s.evaluated(now_ns).experiment is None,
{
}

/// An experiment that improves enough is kept as the new best.
pub proof fn law_improvement_is_kept(s: OptimizerView, now_ns: u64)
    requires
        s.experiment is Some,
        s.improved(),
    ensures
        s.evaluated(now_ns).factors == s.factors,
        s.evaluated(now_ns).best_known == s.factors,
        s.evaluated(now_ns).experiment is None,
{
}

/// The step shrinks at the end of a full cycle in which no experiment was
/// accepted, and then alone; an accepted experiment lets it grow, the last one
/// of a cycle too, and is remembered until the cycle ends.
pub proof fn law_step_shrinks_without_improvement(s: OptimizerView, now_ns: u64)
    requires
        s.wf(),
        s.experiment is Some,
        s.num_links > 0,
    ensures
        s.improved() ==> s.evaluated(now_ns).step == s.step.product(s.config.step_growth_factor).lesser(
            s.config.max_step_size,
        ),
        ({
            let ends = !s.experiment->0.increase && s.next_link == s.num_links - 1;
            !s.improved() ==> s.evaluated(now_ns).step == if ends && !s.cycle_improved {
                s.step.product(s.config.step_shrink_factor).greater(s.config.min_step_size)
            } else {
                s.step
            }
        }),
        (s.improved() || s.cycle_improved) && s.evaluated(now_ns).next_link != 0 ==> s.evaluated(
            now_ns,
        ).cycle_improved,
{
}

/// A perturbed factor never passes the bound in its direction.
pub proof fn law_factors_are_bounded(s: OptimizerView, factor: Binary64)
    requires
        !s.config.max_weight_factor.nan(),
        !s.config.min_weight_factor.nan(),
    ensures
        s.perturbed(factor, true).at_most(s.config.max_weight_factor),
        s.config.min_weight_factor.at_most(s.perturbed(factor, false)),
{
    reveal(Binary64::less);
    reveal(Binary64::at_most);
}

/// Without enough traffic the optimizer is dormant, and nothing is perturbed.
pub proof fn law_dormant_without_traffic(s: OptimizerView, snapshot: SnapshotView, now_ns: u64)
    requires
        s.config.enabled,
        s.can_roll_back(),
        total(snapshot.bandwidths) < s.config.min_active_throughput,
    ensures
        s.ticked(snapshot, now_ns).state is Idle,
        s.ticked(snapshot, now_ns).experiment is None,
        s.ticked(snapshot, now_ns).factors == s.best_known,
{
}

/// Whoever applies the factors handed out has the current ones at all times,
/// and is handed none while neither factors nor experiment change.
pub proof fn law_changes_are_handed_out(s: OptimizerView, snapshot: SnapshotView, now_ns: u64)
    requires
        s.wf(),
        s.accepts(snapshot),
    ensures
        !s.hands_out(snapshot, now_ns) ==> s.ticked(snapshot, now_ns).factors == s.factors,
        s.concludes(snapshot) ==> s.ticked(snapshot, now_ns).experiment is None,
        s.ticked(snapshot, now_ns).factors == s.factors && s.ticked(snapshot, now_ns).experiment == s.experiment
            ==> !s.hands_out(snapshot, now_ns),
{
}

/// A disabled optimizer does nothing.
pub proof fn law_disabled_does_nothing(s: OptimizerView, snapshot: SnapshotView, now_ns: u64)
    requires
        !s.config.enabled,
    ensures
        s.ticked(snapshot, now_ns) == s,
{
}

/// The history never outgrows its window.
pub proof fn law_history_is_bounded(s: OptimizerView, sample: ThroughputSample)
    ensures
        s.sampled(sample).history.len() <= s.config.history_window_size,
        s.config.history_window_size > 0 ==> s.sampled(sample).history.last() == sample,
{
}

/// Weighted loss lies between zero and one, if it is a number.
pub proof fn law_weighted_loss_is_a_ratio(snapshot: SnapshotView, num_links: nat)
    requires
        !snapshot.weighted_loss(num_links).nan(),
    ensures
        Binary64::of_nat(0).at_most(snapshot.weighted_loss(num_links)),
        snapshot.weighted_loss(num_links).at_most(Binary64::of_nat(1)),
{
    reveal(Binary64::less);
    reveal(Binary64::at_most);
    lemma_fraction_order(0, 1, 1, 1);
    lemma_whole_fraction(0);
    lemma_whole_fraction(1);
}

// ---------------------------------------------------------------------------
// What a snapshot scores
// ---------------------------------------------------------------------------

/// Whether every link's loss is a ratio.
pub open spec fn losses_are_ratios(snapshot: SnapshotView) -> bool {
    forall|i: int|
        0 <= i < snapshot.losses.len() ==> !(#[trigger] snapshot.losses[i]).negative() && snapshot.losses[i].at_most(
            Binary64::of_nat(1),
        )
}

proof fn lemma_part(shares: Seq<u64>, i: int)
    requires
        0 <= i < shares.len(),
    ensures
        shares[i] <= total(shares),
    decreases shares.len(),
{
    if i < shares.len() - 1 {
        lemma_part(shares.drop_last(), i);
    }
}

/// The part of one link in the weighted loss is a ratio.
proof fn lemma_one_loss(snapshot: SnapshotView, i: int)
    requires
        losses_are_ratios(snapshot),
        0 < total(snapshot.bandwidths) < 0x20_0000_0000_0000,
        i >= 0,
    ensures
        ({
            let w = Binary64::fraction(snapshot.bandwidth(i) as nat, total(snapshot.bandwidths));
            &&& lies(snapshot.loss(i).product(w), 0, 1, 1074)
            &&& w.finite() && !w.negative()
            &&& snapshot.loss(i).finite() && !snapshot.loss(i).negative()
        }),
{
    let all = total(snapshot.bandwidths);
    let b = snapshot.bandwidth(i) as nat;
    if i < snapshot.bandwidths.len() {
        lemma_part(snapshot.bandwidths, i);
    }
    let w = Binary64::fraction(b, all);
    let one = Binary64::of_nat(1);
    let l = snapshot.loss(i);
    lemma_fraction(b, all);
    lemma_of_nat(1);
    lemma_of_nat(0);
    lemma_whole_fraction(1);
    lemma_whole_fraction(0);
    lemma_fraction_order(b, all, 1, 1);
    lemma_fraction_order(0, 1, 1, 1);
    lemma_at_most_mag(l, one);
    lemma_product_order(l, one, w);
    lemma_times_one(w);
    reveal(Binary64::at_most);
    let x = l.product(w);
    assert(x.at_most(one));
    lemma_at_most_mag(x, one);
    assert(0 * vstd::arithmetic::power2::pow2(1074) == 0 && 1 * vstd::arithmetic::power2::pow2(1074)
        == vstd::arithmetic::power2::pow2(1074));
}

proof fn lemma_loss_sum(snapshot: SnapshotView, n: nat)
    requires
        losses_are_ratios(snapshot),
        0 < total(snapshot.bandwidths) < 0x20_0000_0000_0000,
        n < 0x20_0000_0000_0000,
    ensures
        lies(snapshot.loss_sum(n), 0, n, 1074),
    decreases n,
{
    if n == 0 {
        lemma_of_nat(0);
        lemma_zero();
        lemma_rounded_zero(1);
        assert(0 * vstd::arithmetic::power2::pow2(1074) == 0);
    } else {
        let i = (n - 1) as nat;
        lemma_loss_sum(snapshot, i);
        lemma_one_loss(snapshot, i as int);
        let w = Binary64::fraction(snapshot.bandwidth(i as int) as nat, total(snapshot.bandwidths));
        lemma_sum_lies(snapshot.loss_sum(i), snapshot.loss(i as int).product(w), 0, i, 0, 1, 1074);
    }
}

/// Weighted loss is a ratio where the links' losses are.
proof fn lemma_weighted_loss(snapshot: SnapshotView, num_links: nat)
    requires
        losses_are_ratios(snapshot),
        total(snapshot.bandwidths) < 0x20_0000_0000_0000,
        num_links < 0x20_0000_0000_0000,
    ensures
        snapshot.weighted_loss(num_links).finite(),
        !snapshot.weighted_loss(num_links).negative(),
        snapshot.weighted_loss(num_links).at_most(Binary64::of_nat(1)),
{
    lemma_of_nat(0);
    lemma_of_nat(1);
    lemma_zero();
    lemma_rounded_zero(1);
    lemma_whole_fraction(1);
    lemma_whole_fraction(0);
    lemma_fraction_order(0, 1, 1, 1);
    reveal(Binary64::less);
    reveal(Binary64::at_most);
    if total(snapshot.bandwidths) > 0 {
        lemma_loss_sum(snapshot, num_links);
    }
}

/// A snapshot without loss scores its throughput, one that loses everything
/// scores nothing, and one that loses a decimal share scores the rest of its
/// throughput, to one byte per second.
pub proof fn law_score_is_throughput_less_loss(snapshot: SnapshotView, num_links: nat, p: nat, q: nat)
    requires
        total(snapshot.bandwidths) < 0x100_0000_0000,
        0 < q <= 100,
        p <= q,
    ensures
        ({
            let throughput = total(snapshot.bandwidths);
            let loss = snapshot.weighted_loss(num_links);
            let score = snapshot.score(num_links);
            &&& loss == Binary64::of_nat(0) ==> score == Binary64::of_nat(throughput)
            &&& loss == Binary64::of_nat(1) ==> score == Binary64::of_nat(0)
            &&& loss == Binary64::fraction(p, q) ==> q * score.truncated() <= (q - p) * throughput <= q * (
            score.truncated() + 1)
        }),
{
    let throughput = total(snapshot.bandwidths);
    lemma_of_nat(throughput);
    lemma_of_nat(1);
    lemma_plus_zero(Binary64::of_nat(1));
    lemma_times_one(Binary64::of_nat(throughput));
    lemma_minus_self(Binary64::of_nat(1));
    lemma_times_zero(Binary64::of_nat(throughput));
    lemma_rest_is_close(throughput, p, q);
}

/// At equal throughput, more weighted loss never scores more; and where no
/// link loses less than before and the bandwidths are the same, neither does
/// the whole.
pub proof fn law_more_loss_scores_less(a: SnapshotView, b: SnapshotView, num_links: nat)
    requires
        losses_are_ratios(a),
        losses_are_ratios(b),
        total(a.bandwidths) == total(b.bandwidths) < 0x20_0000_0000_0000,
        num_links < 0x20_0000_0000_0000,
    ensures
        a.weighted_loss(num_links).at_most(b.weighted_loss(num_links)) ==> b.score(num_links).at_most(
            a.score(num_links),
        ),
        a.bandwidths == b.bandwidths && (forall|i: int|
            0 <= i < num_links ==> (#[trigger] a.loss(i)).at_most(b.loss(i))) ==> a.weighted_loss(num_links).at_most(
            b.weighted_loss(num_links),
        ),
{
    lemma_weighted_loss(a, num_links);
    lemma_weighted_loss(b, num_links);
    let one = Binary64::of_nat(1);
    let zero = Binary64::of_nat(0);
    lemma_of_nat(1);
    lemma_of_nat(0);
    let throughput = Binary64::of_nat(total(a.bandwidths));
    lemma_of_nat(total(a.bandwidths));
    let la = a.weighted_loss(num_links);
    let lb = b.weighted_loss(num_links);
    if la.at_most(lb) {
        lemma_difference_order(la, lb, one);
        lemma_nonnegative_difference(la, one);
        lemma_nonnegative_difference(lb, one);
        lemma_zero();
        lemma_rounded_zero(1);
        lemma_plus_zero(one);
        assert(zero.at_most(la)) by {
            reveal(Binary64::at_most);
        }
        lemma_difference_order(zero, la, one);
        lemma_at_most_mag(one.difference(la), one);
        lemma_at_most_mag(one.difference(lb), one.difference(la));
        lemma_product_order(one.difference(lb), one.difference(la), throughput);
    }
    if a.bandwidths == b.bandwidths && (forall|i: int|
        0 <= i < num_links ==> (#[trigger] a.loss(i)).at_most(b.loss(i))) {
        reveal(Binary64::less);
        reveal(Binary64::at_most);
        lemma_whole_fraction(1);
        lemma_whole_fraction(0);
        lemma_fraction_order(0, 1, 1, 1);
        if total(a.bandwidths) > 0 {
            lemma_loss_sum(a, num_links);
            lemma_loss_sum(b, num_links);
            lemma_loss_sums(a, b, num_links);
        }
    }
}

proof fn lemma_loss_sums(a: SnapshotView, b: SnapshotView, n: nat)
    requires
        losses_are_ratios(a),
        losses_are_ratios(b),
        a.bandwidths == b.bandwidths,
        0 < total(a.bandwidths) < 0x20_0000_0000_0000,
        n < 0x20_0000_0000_0000,
        forall|i: int| 0 <= i < n ==> (#[trigger] a.loss(i)).at_most(b.loss(i)),
    ensures
        a.loss_sum(n).at_most(b.loss_sum(n)),
    decreases n,
{
    if n == 0 {
        lemma_of_nat(0);
        reveal(Binary64::at_most);
    } else {
        let i = (n - 1) as nat;
        lemma_loss_sums(a, b, i);
        lemma_loss_sum(a, i);
        lemma_loss_sum(b, i);
        lemma_one_loss(a, i as int);
        lemma_one_loss(b, i as int);
        let w = Binary64::fraction(a.bandwidth(i as int) as nat, total(a.bandwidths));
        let x = a.loss(i as int).product(w);
        let y = b.loss(i as int).product(w);
        lemma_product_order(a.loss(i as int), b.loss(i as int), w);
        lemma_sum_order(a.loss_sum(i), b.loss_sum(i), x);
        lemma_sum_order(x, y, b.loss_sum(i));
        lemma_loss_sum(a, n);
        lemma_loss_sum(b, n);
        assert(a.loss_sum(n).at_most(b.loss_sum(n))) by {
            reveal(Binary64::at_most);
        }
    }
}

/// A link's loss counts by its link's share of the bandwidth, and the losses of
/// two links add up; links without loss count for nothing.
pub proof fn law_loss_counts_by_bandwidth(snapshot: SnapshotView, num_links: nat, i: int, j: int)
    requires
        losses_are_ratios(snapshot),
        0 < total(snapshot.bandwidths) < 0x20_0000_0000_0000,
        0 <= i < j < num_links < 0x20_0000_0000_0000,
        forall|k: int| 0 <= k < num_links && k != i && k != j ==> (#[trigger] snapshot.loss(k)) == Binary64::of_nat(0),
    ensures
        ({
            let all = total(snapshot.bandwidths);
            let first = snapshot.loss(i).product(Binary64::fraction(snapshot.bandwidth(i) as nat, all));
            let second = snapshot.loss(j).product(Binary64::fraction(snapshot.bandwidth(j) as nat, all));
            let loss = snapshot.weighted_loss(num_links);
            &&& loss == first.sum(second) || (loss == Binary64::of_nat(1) && Binary64::of_nat(1).less(first.sum(second)))
            &&& snapshot.loss(j) == Binary64::of_nat(0) ==> loss == first
            &&& snapshot.loss(i) == Binary64::of_nat(0) ==> loss == second
            &&& snapshot.loss(i) == Binary64::of_nat(1) && snapshot.loss(j) == Binary64::of_nat(0) ==> loss
                == Binary64::fraction(snapshot.bandwidth(i) as nat, all)
        }),
{
    let all = total(snapshot.bandwidths);
    let zero = Binary64::of_nat(0);
    let one = Binary64::of_nat(1);
    let wi = Binary64::fraction(snapshot.bandwidth(i) as nat, all);
    let wj = Binary64::fraction(snapshot.bandwidth(j) as nat, all);
    let first = snapshot.loss(i).product(wi);
    let second = snapshot.loss(j).product(wj);
    lemma_of_nat(0);
    lemma_of_nat(1);
    lemma_zero();
    lemma_rounded_zero(1);
    lemma_one_loss(snapshot, i);
    lemma_one_loss(snapshot, j);
    lemma_lossless(snapshot, 0, i as nat);
    lemma_plus_zero(first);
    lemma_plus_zero(second);
    lemma_loss_sum(snapshot, (i + 1) as nat);
    assert(snapshot.loss_sum((i + 1) as nat) == first);
    lemma_lossless(snapshot, (i + 1) as nat, j as nat);
    assert(snapshot.loss_sum((j + 1) as nat) == first.sum(second));
    lemma_lossless(snapshot, (j + 1) as nat, num_links);
    lemma_loss_sum(snapshot, num_links);
    lemma_times_zero(wi);
    lemma_times_zero(wj);
    lemma_times_one(wi);
    reveal(Binary64::less);
    reveal(Binary64::at_most);
    let x = snapshot.loss_sum(num_links);
    if snapshot.loss(j) == zero || snapshot.loss(i) == zero {
        assert(lies(x, 0, 1, 1074));
        assert(!one.less(x)) by {
            assert(1 * vstd::arithmetic::power2::pow2(1074) == vstd::arithmetic::power2::pow2(1074));
        }
    }
}

proof fn lemma_lossless(snapshot: SnapshotView, m: nat, n: nat)
    requires
        losses_are_ratios(snapshot),
        0 < total(snapshot.bandwidths) < 0x20_0000_0000_0000,
        m <= n < 0x20_0000_0000_0000,
        forall|k: int| m <= k < n ==> (#[trigger] snapshot.loss(k)) == Binary64::of_nat(0),
    ensures
        snapshot.loss_sum(n) == snapshot.loss_sum(m),
    decreases n - m,
{
    if m < n {
        let i = (n - 1) as nat;
        lemma_lossless(snapshot, m, i);
        lemma_one_loss(snapshot, i as int);
        let w = Binary64::fraction(snapshot.bandwidth(i as int) as nat, total(snapshot.bandwidths));
        lemma_times_zero(w);
        lemma_loss_sum(snapshot, i);
        lemma_plus_zero(snapshot.loss_sum(i));
        assert(snapshot.loss(i as int) == Binary64::of_nat(0));
    }
}

// ---------------------------------------------------------------------------
// What a tick does
// ---------------------------------------------------------------------------

/// A tick with traffic that ends an experiment undoes it, and accepts nothing,
/// where the average score since the experiment began is no better than the
/// baseline's.
pub proof fn law_worse_score_is_undone(s: OptimizerView, snapshot: SnapshotView, now_ns: u64)
    requires
        s.concludes(snapshot),
        s.score_count < u64::MAX,
        s.ticks < u64::MAX,
        Binary64::of_nat(0).less(s.config.min_improvement),
        ({
            let average = s.score_sum.sum(snapshot.score(s.num_links as nat)).quotient(
                Binary64::of_nat((s.score_count + 1) as nat),
            );
            average.finite() && s.baseline_score.finite() && average.at_most(s.baseline_score)
        }),
    ensures
        ({
            let after = s.ticked(snapshot, now_ns);
            let e = s.experiment->0;
            &&& after.factors == s.factors.update(e.link_id as int, e.original_factor)
            &&& after.best_known == s.best_known
            &&& after.accepts == s.accepts
            &&& after.experiment is None
            &&& after.state is Cooldown
        }),
{
    let average = s.score_sum.sum(snapshot.score(s.num_links as nat)).quotient(
        Binary64::of_nat((s.score_count + 1) as nat),
    );
    let base = s.baseline_score;
    reveal(Binary64::less);
    reveal(Binary64::at_most);
    lemma_of_nat(0);
    lemma_zero();
    lemma_rounded_zero(1);
    if Binary64::of_nat(0).less(base) {
        let d = average.difference(base);
        lemma_difference_sign(average, base);
        reveal(Binary64::quotient);
        assert(d.negative() || d.mag() == 0) by {
            if !d.negative() && d.mag() > 0 {
                crate::binary64::lemma_units_increase(0, d.mag());
            }
        }
        lemma_worse_quotient(d, base);
    }
}

/// Dividing what is not positive by what is gives nothing positive.
proof fn lemma_worse_quotient(d: Binary64, base: Binary64)
    requires
        !d.nan(),
        d.negative() || d.mag() == 0,
        base.finite(),
        !base.negative(),
        base.mag() > 0,
    ensures
        d.quotient(base).nan() || d.quotient(base).signed_units() <= 0,
{
    reveal(Binary64::quotient);
    lemma_rounded_zero(1);
    crate::binary64::lemma_units_increase(0, base.mag());
    let c = vstd::arithmetic::power2::pow2(1074);
    let r = crate::binary64::rounded(units(d.mag()) * c, units(base.mag()));
    crate::binary64::lemma_rounded_monotone(units(d.mag()) * c, units(base.mag()), units(d.mag()) * c, units(base.mag()));
    crate::accuracy::lemma_with_sign(true, r);
    crate::accuracy::lemma_with_sign(true, crate::binary64::INF_MAG as nat);
    if d.mag() == 0 {
        assert(0 * c == 0);
        lemma_rounded_zero(units(base.mag()));
        crate::accuracy::lemma_with_sign(false, 0);
        crate::accuracy::lemma_with_sign(true, 0);
    }
}

/// A tick with traffic that ends an experiment keeps it exactly if the average
/// score, here in whole bytes per second, exceeds the baseline's by the
/// configured fraction of it.
pub proof fn law_better_score_is_kept(s: OptimizerView, snapshot: SnapshotView, now_ns: u64, base: nat, average: nat)
    requires
        s.concludes(snapshot),
        s.score_count < u64::MAX,
        s.ticks < u64::MAX,
        s.accepts < u64::MAX,
        0 < base <= average < 0x20_0000_0000_0000,
        s.baseline_score == Binary64::of_nat(base),
        s.score_sum.sum(snapshot.score(s.num_links as nat)).quotient(Binary64::of_nat((s.score_count + 1) as nat))
            == Binary64::of_nat(average),
    ensures
        ({
            let after = s.ticked(snapshot, now_ns);
            let e = s.experiment->0;
            let enough = s.config.min_improvement.at_most(Binary64::fraction((average - base) as nat, base));
            &&& enough ==> after.factors == s.factors && after.best_known == s.factors && after.accepts == s.accepts + 1
            &&& !enough ==> after.factors == s.factors.update(e.link_id as int, e.original_factor) && after.best_known
                == s.best_known && after.accepts == s.accepts
        }),
{
    lemma_of_nat(base);
    lemma_of_nat(average);
    lemma_of_nat(0);
    lemma_zero();
    lemma_rounded_zero(1);
    lemma_whole_difference(average, base);
    reveal(Binary64::less);
    let c = vstd::arithmetic::power2::pow2(1074);
    vstd::arithmetic::power2::lemma_pow2_pos(1074);
    assert(base * c > 0) by (nonlinear_arith)
        requires
            base > 0,
            c > 0,
    ;
}

/// While the measurement lasts, a tick with traffic adds its score; the tick
/// that ends the baseline takes the average as the baseline.
pub proof fn law_baseline_is_the_average(s: OptimizerView, snapshot: SnapshotView, now_ns: u64)
    requires
        s.config.enabled,
        total(snapshot.bandwidths) >= s.config.min_active_throughput,
        s.state is Baseline,
        s.ticks < u64::MAX,
        s.score_count < u64::MAX,
    ensures
        ({
            let after = s.ticked(snapshot, now_ns);
            let sum = s.score_sum.sum(snapshot.score(s.num_links as nat));
            let count = (s.score_count + 1) as nat;
            &&& s.ticks + 1 < s.config.measurement_window_secs ==> after.state is Baseline && after.score_sum == sum
                && after.score_count == count && after.ticks == s.ticks + 1 && after.factors == s.factors
                && after.baseline_score == s.baseline_score
            &&& s.ticks + 1 >= s.config.measurement_window_secs ==> after.baseline_score == sum.quotient(
                Binary64::of_nat(count),
            ) && after.ticks == 0 && after.score_count == 0
        }),
{
}

/// While an experiment lasts, a tick with traffic adds its score and leaves the
/// factors alone.
pub proof fn law_experiment_takes_its_time(s: OptimizerView, snapshot: SnapshotView, now_ns: u64)
    requires
        s.config.enabled,
        total(snapshot.bandwidths) >= s.config.min_active_throughput,
        s.state is Experimenting,
        s.ticks + 1 < s.config.measurement_window_secs,
        s.score_count < u64::MAX,
    ensures
        ({
            let after = s.ticked(snapshot, now_ns);
            &&& after.state is Experimenting
            &&& after.factors == s.factors
            &&& after.experiment == s.experiment
            &&& after.score_sum == s.score_sum.sum(snapshot.score(s.num_links as nat))
            &&& after.score_count == s.score_count + 1
            &&& after.ticks == s.ticks + 1
            &&& after.baseline_score == s.baseline_score
        }),
{
}

/// The first tick with traffic, and the tick that ends a cooldown, begin a
/// baseline with their own score; until then a cooldown only counts ticks.
pub proof fn law_baseline_begins(s: OptimizerView, snapshot: SnapshotView, now_ns: u64)
    requires
        s.config.enabled,
        total(snapshot.bandwidths) >= s.config.min_active_throughput,
        s.state is Idle || s.state is Cooldown,
        s.ticks < u64::MAX,
    ensures
        ({
            let after = s.ticked(snapshot, now_ns);
            let begins = s.state is Idle || s.ticks + 1 >= s.config.cooldown_secs;
            &&& begins ==> after.state is Baseline && after.score_sum == snapshot.score(s.num_links as nat)
                && after.score_count == 1 && after.ticks == 0 && after.entered_at == now_ns
            &&& !begins ==> after.state is Cooldown && after.ticks == s.ticks + 1 && after.score_count == s.score_count
            &&& after.factors == s.factors && after.experiment == s.experiment && after.next_link == s.next_link
        }),
{
}

/// An experiment takes the first link from the current one on, going round,
/// that is healthy or carries traffic: one `skipped` links on, none of which
/// is.
pub proof fn law_first_usable_link_is_taken(s: OptimizerView, snapshot: SnapshotView, now_ns: u64, skipped: nat)
    requires
        s.wf(),
        skipped < s.num_links,
        forall|k: nat| k < skipped ==> !(#[trigger] usable_at(s, snapshot, k)),
        usable_at(s, snapshot, skipped),
    ensures
        s.started(snapshot, now_ns).state is Experimenting,
        s.started(snapshot, now_ns).experiment is Some,
        s.started(snapshot, now_ns).experiment->0.link_id == (s.next_link + skipped) % (s.num_links as int),
        s.started(snapshot, now_ns).experiment->0.increase == !s.tried_increase,
        s.started(snapshot, now_ns).next_link == (s.next_link + skipped) % (s.num_links as int),
{
    lemma_seek(s, snapshot, 0, skipped);
}

/// Without a usable link the baseline starts over.
pub proof fn law_no_usable_link(s: OptimizerView, snapshot: SnapshotView, now_ns: u64)
    requires
        s.wf(),
        forall|k: nat| k < s.num_links ==> !(#[trigger] usable_at(s, snapshot, k)),
    ensures
        s.started(snapshot, now_ns).state is Baseline,
        s.started(snapshot, now_ns).factors == s.factors,
        s.started(snapshot, now_ns).experiment == s.experiment,
{
    lemma_seek_none(s, snapshot, 0);
}

/// Whether the link `k` places from the current one on is healthy or carries
/// traffic.
pub open spec fn usable_at(s: OptimizerView, snapshot: SnapshotView, k: nat) -> bool {
    let i = (s.next_link + k) % (s.num_links as int);
    (i < snapshot.healthy.len() && snapshot.healthy[i]) || (i < snapshot.bandwidths.len() && snapshot.bandwidths[i] > 0)
}

proof fn lemma_seek(s: OptimizerView, snapshot: SnapshotView, from: nat, skipped: nat)
    requires
        from <= skipped < s.num_links,
        forall|k: nat| k < skipped ==> !(#[trigger] usable_at(s, snapshot, k)),
        usable_at(s, snapshot, skipped),
    ensures
        snapshot.seek(s.num_links as nat, s.next_link as nat, from) == Some(
            ((s.next_link + skipped) % (s.num_links as int)) as usize,
        ),
    decreases skipped - from,
{
    vstd::arithmetic::div_mod::lemma_mod_bound((s.next_link + from) as int, s.num_links as int);
    if from < skipped {
        assert(!usable_at(s, snapshot, from));
        lemma_seek(s, snapshot, from + 1, skipped);
    }
}

proof fn lemma_seek_none(s: OptimizerView, snapshot: SnapshotView, from: nat)
    requires
        forall|k: nat| k < s.num_links ==> !(#[trigger] usable_at(s, snapshot, k)),
    ensures
        snapshot.seek(s.num_links as nat, s.next_link as nat, from) is None,
    decreases s.num_links - from,
{
    if from < s.num_links {
        vstd::arithmetic::div_mod::lemma_mod_bound((s.next_link + from) as int, s.num_links as int);
        assert(!usable_at(s, snapshot, from));
        lemma_seek_none(s, snapshot, from + 1);
    }
}

/// A factor of one moves by the step, up or down, as far as its bound; a
/// greater factor never ends up smaller than a smaller one, and no factor within
/// its bounds moves the wrong way.
pub proof fn law_factors_move_by_the_step(s: OptimizerView, a: Binary64, b: Binary64)
    requires
        a.finite() && b.finite() && s.step.finite() && s.config.max_weight_factor.finite()
            && s.config.min_weight_factor.finite(),
        !a.negative() && !b.negative() && !s.step.negative() && !s.config.max_weight_factor.negative()
            && !s.config.min_weight_factor.negative(),
        s.step.at_most(Binary64::of_nat(1)),
        a.at_most(b),
    ensures
        s.perturbed(Binary64::of_nat(1), true) == Binary64::of_nat(1).sum(s.step).lesser(s.config.max_weight_factor),
        s.perturbed(Binary64::of_nat(1), false) == Binary64::of_nat(1).difference(s.step).greater(
            s.config.min_weight_factor,
        ),
        s.perturbed(a, true).at_most(s.perturbed(b, true)),
        s.perturbed(a, false).at_most(s.perturbed(b, false)),
        a.at_most(s.config.max_weight_factor) ==> a.at_most(s.perturbed(a, true)),
        s.config.min_weight_factor.at_most(a) ==> s.perturbed(a, false).at_most(a),
{
    let one = Binary64::of_nat(1);
    let zero = Binary64::of_nat(0);
    lemma_of_nat(1);
    lemma_of_nat(0);
    lemma_zero();
    lemma_rounded_zero(1);
    let up = one.sum(s.step);
    let down = one.difference(s.step);
    lemma_nonnegative_difference(s.step, one);
    lemma_plus_zero(one);
    lemma_times_one(a);
    lemma_times_one(b);
    reveal(Binary64::less);
    reveal(Binary64::at_most);
    lemma_difference_order(zero, s.step, one);
    lemma_sum_order(zero, s.step, one);
    lemma_at_most_mag(down, one);
    lemma_lies_one(s.step);
    lemma_lies_one(one);
    lemma_sum_lies(one, s.step, 0, 1, 0, 1, 1074);
    lemma_times_one(up);
    lemma_times_one(down);
    lemma_product_order(a, b, up);
    lemma_product_order(a, b, down);
    lemma_product_order(one, up, a);
    lemma_product_order(down, one, a);
}

proof fn lemma_lies_one(x: Binary64)
    requires
        x.finite(),
        !x.negative(),
        x.at_most(Binary64::of_nat(1)),
    ensures
        lies(x, 0, 1, 1074),
{
    lemma_of_nat(1);
    lemma_at_most_mag(x, Binary64::of_nat(1));
    reveal(Binary64::at_most);
    let c = vstd::arithmetic::power2::pow2(1074);
    assert(0 * c == 0 && 1 * c == c);
}

/// After a failed increase the same link's decrease comes next; after anything
/// else it is the next link's turn, an increase first.
pub proof fn law_next_turn(s: OptimizerView, now_ns: u64)
    requires
        s.wf(),
        s.experiment is Some,
        s.num_links > 0,
    ensures
        ({
            let after = s.evaluated(now_ns);
            let again = !s.improved() && s.experiment->0.increase;
            &&& again ==> after.next_link == s.next_link && after.tried_increase
            &&& !again ==> after.next_link == (s.next_link + 1) % (s.num_links as int) && !after.tried_increase
            &&& after.state is Cooldown && after.ticks == 0 && after.entered_at == now_ns
        }),
{
    if s.next_link + 1 < s.num_links {
        vstd::arithmetic::div_mod::lemma_small_mod((s.next_link + 1) as nat, s.num_links as nat);
    } else {
        vstd::arithmetic::div_mod::lemma_mod_self_0(s.num_links as int);
    }
}

/// The samples kept are the latest, in order, as many as the window holds; the
/// best score is the greatest seen.
pub proof fn law_latest_samples_are_kept(s: OptimizerView, sample: ThroughputSample, k: int)
    ensures
        ({
            let after = s.sampled(sample);
            let window = s.config.history_window_size as nat;
            &&& after.history.len() == if s.history.len() + 1 <= window {
                s.history.len() + 1
            } else {
                window
            }
            &&& 0 < k < after.history.len() ==> after.history[after.history.len() - 1 - k]
                == s.history[s.history.len() - k]
            &&& window > 0 ==> after.history.last() == sample
            &&& after.ticks == (s.ticks + 1) as u64
            &&& !after.best_score.less(sample.score) && !after.best_score.less(s.best_score)
            &&& after.best_score == sample.score || after.best_score == s.best_score
        }),
{
    reveal(Binary64::less);
}

/// An experiment notes what it changes: the link's factor before, the step, and
/// that it is one more; the factor then is the perturbed one.
pub proof fn law_experiment_is_noted(s: OptimizerView, snapshot: SnapshotView, now_ns: u64)
    requires
        s.wf(),
        s.started(snapshot, now_ns).state is Experimenting,
        s.experiments < u64::MAX,
    ensures
        ({
            let after = s.started(snapshot, now_ns);
            let e = after.experiment->0;
            &&& after.experiment is Some
            &&& e.original_factor == s.factors[e.link_id as int]
            &&& e.step == s.step
            &&& after.factors[e.link_id as int] == s.perturbed(e.original_factor, e.increase)
            &&& after.experiments == s.experiments + 1
            &&& after.ticks == 0 && after.score_count == 0 && after.entered_at == now_ns
            &&& after.score_sum == Binary64::of_nat(0)
            &&& after.accepts == s.accepts && after.best_known == s.best_known
        }),
{
    lemma_seek_in_range(snapshot, s.num_links as nat, s.next_link as nat, 0);
}

/// Cycles without improvement are counted until one brings some: a cycle ends
/// with the last link's turn.
pub proof fn law_idle_cycles_are_counted(s: OptimizerView, now_ns: u64)
    requires
        s.wf(),
        s.experiment is Some,
        s.num_links > 0,
        s.streak < usize::MAX,
    ensures
        ({
            let after = s.evaluated(now_ns);
            let ends = s.next_link + 1 == s.num_links && (s.improved() || !s.experiment->0.increase);
            &&& s.improved() ==> after.streak == 0
            &&& !s.improved() && ends && !s.cycle_improved ==> after.streak == s.streak + 1
            &&& !s.improved() && ends && s.cycle_improved ==> after.streak == 0
            &&& !s.improved() && !ends ==> after.streak == s.streak
            &&& ends ==> !after.cycle_improved
        }),
{
}

/// At equal throughput more weighted loss scores less, wherever the difference
/// comes to two bytes per second.  (Losses of up to two decimal places.)
pub proof fn law_more_loss_scores_strictly_less(a: SnapshotView, b: SnapshotView, num_links: nat, p: nat, r: nat, q: nat)
    requires
        total(a.bandwidths) == total(b.bandwidths) < 0x100_0000_0000,
        0 < q <= 100,
        p < r <= q,
        a.weighted_loss(num_links) == Binary64::fraction(p, q),
        b.weighted_loss(num_links) == Binary64::fraction(r, q),
        (r - p) * total(a.bandwidths) >= 2 * q,
    ensures
        b.score(num_links).less(a.score(num_links)),
        b.score(num_links).truncated() < a.score(num_links).truncated(),
{
    let throughput = total(a.bandwidths);
    law_score_is_throughput_less_loss(a, num_links, p, q);
    law_score_is_throughput_less_loss(b, num_links, r, q);
    let x = a.score(num_links);
    let y = b.score(num_links);
    let s = x.truncated();
    let t = y.truncated();
    assert(t < s) by (nonlinear_arith)
        requires
            q * t <= (q - r) * throughput,
            (q - p) * throughput <= q * (s + 1),
            (r - p) * throughput >= 2 * q,
            q > 0,
    {
        assert((q - p) * throughput == (q - r) * throughput + (r - p) * throughput);
        assert(q * t + 2 * q <= q * (s + 1));
        assert(q * (t + 2) <= q * (s + 1));
    }
    lemma_rest_score(throughput, p, q);
    lemma_rest_score(throughput, r, q);
    if !y.less(x) {
        assert(x.at_most(y)) by {
            reveal(Binary64::less);
            reveal(Binary64::at_most);
        }
        crate::accuracy::lemma_truncation_order(x, y);
    }
}

proof fn lemma_rest_score(throughput: nat, p: nat, q: nat)
    requires
        throughput < 0x100_0000_0000,
        0 < q <= 100,
        p <= q,
    ensures
        !Binary64::of_nat(throughput).product(Binary64::of_nat(1).difference(Binary64::fraction(p, q))).nan(),
{
    let one = Binary64::of_nat(1);
    let zero = Binary64::of_nat(0);
    let loss = Binary64::fraction(p, q);
    let t = Binary64::of_nat(throughput);
    lemma_of_nat(throughput);
    lemma_of_nat(1);
    lemma_of_nat(0);
    lemma_zero();
    lemma_rounded_zero(1);
    lemma_fraction(p, q);
    lemma_fraction_order(p, q, 1, 1);
    lemma_whole_fraction(1);
    lemma_nonnegative_difference(loss, one);
    lemma_plus_zero(one);
    assert(zero.at_most(loss)) by {
        reveal(Binary64::at_most);
    }
    lemma_difference_order(zero, loss, one);
    lemma_at_most_mag(one.difference(loss), one);
    lemma_product_order(one.difference(loss), one, t);
    reveal(Binary64::at_most);
}

/// A tick is accepted unless a count is about to overflow.
pub proof fn law_ordinary_tick_is_accepted(s: OptimizerView, snapshot: SnapshotView)
    requires
        total(snapshot.bandwidths) <= u64::MAX,
        s.ticks < u64::MAX && s.score_count < u64::MAX && s.experiments < u64::MAX && s.accepts < u64::MAX,
    ensures
        s.accepts(snapshot),
{
}

} // verus!
