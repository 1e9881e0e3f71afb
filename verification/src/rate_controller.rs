//! Glorytun/MUD-style adaptive rate controller with TAPA.
//!
//! Timing-based congestion detection and loss tracking with exponential
//! decay.  The key comparison is how fast we *send* against how fast the
//! remote *receives*.
//!
//! TAPA (Traffic-Aware Probe Attenuation) scales the trust in probes by the
//! traffic load.  Under heavy load probe measurements become unreliable; the
//! controller then falls back to asking whether data flows at all.
//!
//! Loss is tracked per direction, each from its own pair of counters.
//!
//! Times are arguments: `now` is the wall clock in microseconds (it travels in
//! probes), instants are nanoseconds of a monotonic clock.

use crate::accuracy::{
    lemma_at_most_mag, lemma_difference_order, lemma_difference_sign, lemma_dividend_order,
    lemma_dyadic_part, lemma_half_truncates, lemma_mean_is_close, lemma_nonnegative_difference,
    lemma_over_self, lemma_part_is_close, lemma_plus_zero, lemma_positive_difference,
    lemma_product_order, lemma_same_fraction, lemma_times_one, lemma_truncation_order,
};
use crate::binary64::{
    lemma_fraction, lemma_fraction_order, lemma_fractions_apart, lemma_of_nat, lemma_tenth_of_integer,
    lemma_whole_fraction, units, Binary64,
};
use crate::config::RateControlConfig;
use crate::measure::{as_mbps, as_millis, blend, blended, larger, mbps, millis, monus, scale, scaled};
use crate::protocol::{now_micros, PathState, ProbePacket};
use crate::share::total;
use crate::text::{decimal, fixed_text, join, push_decimal, push_fixed, push_joined};
use vstd::prelude::*;

verus! {

/// The least rate floor and the least rate step: 100 Kbps in bytes/sec.
pub const MIN_RATE_STEP: u64 = 12_500;

/// Per-link rate state.
#[derive(Debug, Clone, Copy)]
pub struct RateState {
    /// Link index
    pub link_id: usize,
    /// Current allowed rate (bytes/sec), the output
    pub tx_rate: u64,
    /// Configured ceiling (bytes/sec)
    pub tx_max_rate: u64,
    /// Floor: min_rate_fraction * tx_max_rate, never zero
    pub tx_min_rate: u64,
    /// Effective loss ratio (0-255), the worse direction
    pub loss: u8,
    /// Loss in our-to-remote direction (0-255)
    pub send_loss: u8,
    /// Loss in remote-to-our direction (0-255)
    pub recv_loss: u8,
    /// Sending direction: what we sent
    pub send_tx_acc: u64,
    /// Sending direction: what the remote received from us
    pub send_rx_acc: u64,
    /// Receiving direction: what the remote sent to us
    pub recv_tx_acc: u64,
    /// Receiving direction: what we received
    pub recv_rx_acc: u64,
    /// Smoothed RTT (microseconds)
    pub srtt_us: u64,
    /// RTT variance (microseconds)
    pub rtt_var_us: u64,
    /// Current path state
    pub state: PathState,
    /// Bytes sent, never reset
    pub total_tx_bytes: u64,
    /// Packets sent, never reset
    pub total_tx_packets: u64,
    /// Bytes received, never reset
    pub total_rx_bytes: u64,
    /// Packets received, never reset
    pub total_rx_packets: u64,
    /// Bytes sent up to the last probe built
    pub last_probe_tx_bytes: u64,
    /// Packets sent up to the last probe built
    pub last_probe_tx_packets: u64,
    /// Bytes received up to the last probe built
    pub last_probe_rx_bytes: u64,
    /// Packets received up to the last probe built
    pub last_probe_rx_packets: u64,
    /// Packets sent up to the last loss calculation
    pub last_loss_tx_packets: u64,
    /// Packets received up to the last loss calculation
    pub last_loss_rx_packets: u64,
    /// Probe sequence counter
    pub probe_seq: u32,
    /// Last timestamp received from the remote (echoed back for RTT)
    pub last_remote_timestamp_us: u64,
    /// When the probe whose timestamp we echo came in
    pub last_remote_recv_us: u64,
    /// Timestamp of last sent probe
    pub last_probe_sent_us: u64,
    /// Instant of last received probe (nanoseconds)
    pub last_probe_recv: u64,
    /// Timestamp of the last probe processed
    pub last_process_probe_us: u64,
    /// Recovery probe counter
    pub recovery_count: u32,
    /// Current probe confidence (0.0 = unreliable, 1.0 = fully trusted)
    pub probe_confidence: Binary64,
    /// Previous cycle's probe confidence
    pub prev_probe_confidence: Binary64,
    /// Probe confidence when the link entered the Down state
    pub entered_down_confidence: Binary64,
}

// ---------------------------------------------------------------------------
// Model
// ---------------------------------------------------------------------------

/// Bytes per second of `bytes` in `interval_us` microseconds.
pub open spec fn per_second(bytes: nat, interval_us: nat) -> nat {
    if interval_us == 0 {
        0
    } else {
        bytes * 1_000_000 / interval_us
    }
}

/// Loss on the 0-255 scale when `rx` of `tx` packets arrived.
pub open spec fn loss_of(tx: u64, rx: u64) -> u8 {
    if tx > rx {
        ((tx - rx) * 255 / tx as int) as u8
    } else {
        0
    }
}

/// One step of the 15/16 exponential decay.
pub open spec fn decayed(acc: u64) -> u64 {
    (acc - acc / 16) as u64
}

impl RateState {
    /// Snapshots never run ahead of the counters they are taken of.
    pub open spec fn wf(self) -> bool {
        &&& self.last_probe_tx_bytes <= self.total_tx_bytes
        &&& self.last_probe_tx_packets <= self.total_tx_packets
        &&& self.last_probe_rx_bytes <= self.total_rx_bytes
        &&& self.last_probe_rx_packets <= self.total_rx_packets
        &&& self.last_loss_tx_packets <= self.total_tx_packets
        &&& self.last_loss_rx_packets <= self.total_rx_packets
    }

    /// A link that nothing was sent or received on.
    pub open spec fn fresh(link_id: usize, max_rate: u64, min_rate_fraction: Binary64, now_ns: u64) -> RateState {
        RateState {
            link_id,
            tx_rate: max_rate,
            tx_max_rate: max_rate,
            tx_min_rate: larger(scaled(max_rate as nat, min_rate_fraction) as nat, MIN_RATE_STEP as nat) as u64,
            loss: 0,
            send_loss: 0,
            recv_loss: 0,
            send_tx_acc: 0,
            send_rx_acc: 0,
            recv_tx_acc: 0,
            recv_rx_acc: 0,
            srtt_us: 0,
            rtt_var_us: 0,
            state: PathState::Running,
            total_tx_bytes: 0,
            total_tx_packets: 0,
            total_rx_bytes: 0,
            total_rx_packets: 0,
            last_probe_tx_bytes: 0,
            last_probe_tx_packets: 0,
            last_probe_rx_bytes: 0,
            last_probe_rx_packets: 0,
            last_loss_tx_packets: 0,
            last_loss_rx_packets: 0,
            probe_seq: 0,
            last_remote_timestamp_us: 0,
            last_remote_recv_us: 0,
            last_probe_sent_us: 0,
            last_probe_recv: now_ns,
            last_process_probe_us: 0,
            recovery_count: 0,
            probe_confidence: Binary64::of_nat(1),
            prev_probe_confidence: Binary64::of_nat(1),
            entered_down_confidence: Binary64::of_nat(1),
        }
    }

    /// Bytes sent since the last probe built.
    pub open spec fn tx_bytes_since_probe(self) -> nat {
        (self.total_tx_bytes - self.last_probe_tx_bytes) as nat
    }

    /// Bytes received since the last probe built.
    pub open spec fn rx_bytes_since_probe(self) -> nat {
        (self.total_rx_bytes - self.last_probe_rx_bytes) as nat
    }

    /// Packets sent since the last loss calculation.
    pub open spec fn tx_packets_since_loss(self) -> nat {
        (self.total_tx_packets - self.last_loss_tx_packets) as nat
    }

    /// Packets received since the last loss calculation.
    pub open spec fn rx_packets_since_loss(self) -> nat {
        (self.total_rx_packets - self.last_loss_rx_packets) as nat
    }

    /// Scheduling weight: the rate in units of 1 Mbps, at least one, of a link
    /// in service; zero of one that is not.
    pub open spec fn weight_of(self) -> u32 {
        match self.state {
            PathState::Down => 0,
            PathState::Probing => 0,
            _ => (larger((self.tx_rate / 125_000) as nat, 1) % 0x1_0000_0000) as u32,
        }
    }

    /// The busier direction's rate since the last probe as a fraction of the
    /// configured ceiling.
    pub open spec fn load(self, interval_us: nat) -> Binary64 {
        if interval_us == 0 || self.tx_max_rate == 0 {
            Binary64::of_nat(0)
        } else {
            Binary64::of_nat(
                per_second(larger(self.tx_bytes_since_probe(), self.rx_bytes_since_probe()), interval_us),
            ).quotient(Binary64::of_nat(self.tx_max_rate as nat))
        }
    }

    /// The probe built at time `now`.
    pub open spec fn probe_at(self, now: u64) -> ProbePacket {
        ProbePacket {
            link_id: (self.link_id % 256) as u8,
            seq: if self.probe_seq == u32::MAX {
                0
            } else {
                (self.probe_seq + 1) as u32
            },
            timestamp_us: now,
            echo_timestamp_us: self.last_remote_timestamp_us,
            tx_bytes: self.tx_bytes_since_probe() as u64,
            tx_packets: ((self.total_tx_packets - self.last_probe_tx_packets) % 0x1_0000_0000) as u32,
            rx_bytes: self.rx_bytes_since_probe() as u64,
            rx_packets: ((self.total_rx_packets - self.last_probe_rx_packets) % 0x1_0000_0000) as u32,
            loss_ratio: self.loss,
            path_state: self.state,
        }
    }

    /// The link once the probe at time `now` is built.
    pub open spec fn probed_at(self, now: u64) -> RateState {
        RateState {
            probe_seq: self.probe_at(now).seq,
            last_probe_sent_us: now,
            last_probe_tx_bytes: self.total_tx_bytes,
            last_probe_tx_packets: self.total_tx_packets,
            last_probe_rx_bytes: self.total_rx_bytes,
            last_probe_rx_packets: self.total_rx_packets,
            ..self
        }
    }

    /// Trust in a probe, by the traffic load: one up to the idle threshold,
    /// the minimum from the heavy threshold on, linear in between.
    pub open spec fn confidence(self, config: RateControlConfig) -> Binary64 {
        let one = Binary64::of_nat(1);
        let load = self.load((config.probe_interval_ms * 1000) as nat);
        if !config.tapa_enabled || load.at_most(config.tapa_idle_threshold) {
            one
        } else if config.tapa_heavy_threshold.at_most(load) {
            config.tapa_min_confidence
        } else {
            let t = load.difference(config.tapa_idle_threshold).quotient(
                config.tapa_heavy_threshold.difference(config.tapa_idle_threshold),
            );
            one.difference(t.product(one.difference(config.tapa_min_confidence)))
        }
    }

    /// Whether probes are trusted enough to judge congestion by.
    pub open spec fn trusts(config: RateControlConfig, confidence: Binary64) -> bool {
        Binary64::fraction(5, 10).less(confidence) || !config.tapa_enabled
    }

    // --- processing a probe, stage by stage ---

    /// A probe came in: remember when, and what to echo.
    pub open spec fn heard(self, timestamp_us: u64, now: u64, recv_at: u64, confidence: Binary64) -> RateState {
        RateState {
            last_probe_recv: recv_at,
            last_remote_timestamp_us: timestamp_us,
            last_remote_recv_us: now,
            prev_probe_confidence: self.probe_confidence,
            probe_confidence: confidence,
            ..self
        }
    }

    /// Round-trip time: since the timestamp that came back was sent, without
    /// the time the remote held it.
    pub open spec fn timed(self, config: RateControlConfig, echo_us: u64, held_us: u64, now: u64) -> RateState {
        if echo_us > 0 && now > echo_us {
            let rtt = monus((now - echo_us) as nat, held_us as nat) as u64;
            if self.srtt_us == 0 {
                RateState { srtt_us: rtt, rtt_var_us: rtt / 2, ..self }
            } else {
                let srtt = blended(config.rtt_ewma_alpha, rtt, self.srtt_us);
                let off = (if rtt > srtt {
                    rtt - srtt
                } else {
                    srtt - rtt
                }) as u64;
                RateState {
                    srtt_us: srtt,
                    rtt_var_us: blended(config.rtt_var_alpha, off, self.rtt_var_us),
                    ..self
                }
            }
        } else {
            self
        }
    }

    /// The current rate grown by `growth`.
    pub open spec fn grown(self, growth: u64) -> u64 {
        if self.tx_rate + growth > u64::MAX {
            u64::MAX
        } else {
            (self.tx_rate + growth) as u64
        }
    }

    /// Our sending rate and the remote's receiving rate, in bytes/sec.
    pub open spec fn rates(self, config: RateControlConfig, remote_rx_bytes: u64) -> (nat, nat) {
        let interval = (config.probe_interval_ms * 1000) as nat;
        (per_second(self.tx_bytes_since_probe(), interval), per_second(remote_rx_bytes as nat, interval))
    }

    /// Whether the remote receives slower than we send by more than the
    /// threshold.
    pub open spec fn congested(self, config: RateControlConfig, remote_rx_bytes: u64) -> bool {
        let (ours, remote) = self.rates(config, remote_rx_bytes);
        &&& ours > 0
        &&& remote > 0
        &&& remote + scaled(ours, config.congestion_threshold) < ours
    }

    /// The rate that a probe calls for; `None` to hold the current one.
    pub open spec fn called_for(
        self,
        config: RateControlConfig,
        remote_rx_bytes: u64,
        confidence: Binary64,
    ) -> Option<u64> {
        if Self::trusts(config, confidence) {
            if self.congested(config, remote_rx_bytes) {
                let remote = self.rates(config, remote_rx_bytes).1;
                Some(scaled(remote, config.congestion_reduction))
            } else {
                Some(self.grown(scaled(self.tx_rate as nat, config.growth_factor)))
            }
        } else if self.tx_packets_since_loss() > 0 || self.rx_packets_since_loss() > 0 {
            let growth = Binary64::of_nat(self.tx_rate as nat).product(config.growth_factor).product(
                Binary64::fraction(5, 10),
            ).truncated() as u64;
            Some(self.grown(growth))
        } else {
            None
        }
    }

    /// The greatest change of the rate in one cycle.
    pub open spec fn step(self, config: RateControlConfig) -> nat {
        larger(scaled(self.tx_rate as nat, config.max_rate_change_fraction) as nat, MIN_RATE_STEP as nat)
    }

    /// The rate moved towards `desired` by at most one step, within floor and
    /// ceiling.
    pub open spec fn moved_towards(self, config: RateControlConfig, desired: u64) -> u64 {
        let step = self.step(config);
        let moved = if desired > self.tx_rate + step {
            self.tx_rate + step
        } else if desired + step < self.tx_rate {
            self.tx_rate - step
        } else {
            desired as int
        };
        if moved < self.tx_min_rate {
            self.tx_min_rate
        } else if moved > self.tx_max_rate {
            self.tx_max_rate
        } else {
            moved as u64
        }
    }

    /// Congestion control.
    pub open spec fn paced(self, config: RateControlConfig, remote_rx_bytes: u64, confidence: Binary64) -> RateState {
        match self.called_for(config, remote_rx_bytes, confidence) {
            Some(desired) => RateState { tx_rate: self.moved_towards(config, desired), ..self },
            None => self,
        }
    }

    /// Time since the last probe processed; zero before the first.
    pub open spec fn since_last_probe(self, now: u64) -> nat {
        if self.last_process_probe_us > 0 {
            monus(now as nat, self.last_process_probe_us as nat)
        } else {
            0
        }
    }

    /// What one probe adds to the four accumulators: sent and arrived there,
    /// sent there and arrived.  The remote's counts cover its probe interval,
    /// ours the time since the last probe, so the remote's are scaled to ours;
    /// all are attenuated by `gate`.
    pub open spec fn counts(self, config: RateControlConfig, probe: ProbePacket, now: u64, gate: Binary64) -> (
        nat,
        nat,
        nat,
        nat,
    ) {
        let ours = self.since_last_probe(now);
        let remote = (config.probe_interval_ms * 1000) as nat;
        if ours > 10_000 && remote > 0 {
            let scale = Binary64::of_nat(ours).quotient(Binary64::of_nat(remote)).clamped(
                Binary64::fraction(2, 10),
                Binary64::of_nat(5),
            );
            (
                scaled(self.tx_packets_since_loss(), gate) as nat,
                scaled(scaled(probe.rx_packets as nat, scale) as nat, gate) as nat,
                scaled(scaled(probe.tx_packets as nat, scale) as nat, gate) as nat,
                scaled(self.rx_packets_since_loss(), gate) as nat,
            )
        } else {
            (0, 0, 0, 0)
        }
    }

    /// Directional packet accounting.
    pub open spec fn counted(self, config: RateControlConfig, probe: ProbePacket, now: u64, gate: Binary64) -> RateState {
        let (sent, arrived_there, sent_there, arrived) = self.counts(config, probe, now, gate);
        RateState {
            send_tx_acc: (self.send_tx_acc + sent) as u64,
            send_rx_acc: (self.send_rx_acc + arrived_there) as u64,
            recv_tx_acc: (self.recv_tx_acc + sent_there) as u64,
            recv_rx_acc: (self.recv_rx_acc + arrived) as u64,
            last_loss_tx_packets: self.total_tx_packets,
            last_loss_rx_packets: self.total_rx_packets,
            last_process_probe_us: now,
            ..self
        }
    }

    /// Loss per direction, once enough packets were counted; the counts decay
    /// as they are used.
    pub open spec fn judged(self, config: RateControlConfig) -> RateState {
        let sending = self.send_tx_acc > config.loss_min_packets;
        let receiving = self.recv_tx_acc > config.loss_min_packets;
        let send_loss = if sending {
            loss_of(self.send_tx_acc, self.send_rx_acc)
        } else {
            self.send_loss
        };
        let recv_loss = if receiving {
            loss_of(self.recv_tx_acc, self.recv_rx_acc)
        } else {
            self.recv_loss
        };
        RateState {
            send_loss,
            recv_loss,
            loss: if send_loss >= recv_loss {
                send_loss
            } else {
                recv_loss
            },
            send_tx_acc: if sending {
                decayed(self.send_tx_acc)
            } else {
                self.send_tx_acc
            },
            send_rx_acc: if sending {
                decayed(self.send_rx_acc)
            } else {
                self.send_rx_acc
            },
            recv_tx_acc: if receiving {
                decayed(self.recv_tx_acc)
            } else {
                self.recv_tx_acc
            },
            recv_rx_acc: if receiving {
                decayed(self.recv_rx_acc)
            } else {
                self.recv_rx_acc
            },
            ..self
        }
    }

    /// Extra decay when traffic went from heavy to light.
    pub open spec fn relieved(self, config: RateControlConfig) -> RateState {
        if config.tapa_enabled && config.tapa_accelerated_recovery && self.prev_probe_confidence.less(
            Binary64::fraction(3, 10),
        ) && Binary64::fraction(7, 10).less(self.probe_confidence) {
            let decay = config.tapa_recovery_decay;
            RateState {
                send_tx_acc: scaled(self.send_tx_acc as nat, decay),
                send_rx_acc: scaled(self.send_rx_acc as nat, decay),
                recv_tx_acc: scaled(self.recv_tx_acc as nat, decay),
                recv_rx_acc: scaled(self.recv_rx_acc as nat, decay),
                ..self
            }
        } else {
            self
        }
    }

    /// The loss thresholds for Lossy and Down; higher while probes are little
    /// trusted.
    pub open spec fn thresholds(config: RateControlConfig, confidence: Binary64) -> (u8, u8) {
        if config.tapa_enabled && confidence.less(Binary64::fraction(5, 10)) {
            let raised = config.loss_threshold * config.tapa_loss_threshold_multiplier;
            (
                if raised > 200 {
                    200
                } else {
                    raised as u8
                },
                (config.loss_down_threshold + (255 - config.loss_down_threshold) / 2) as u8,
            )
        } else {
            (config.loss_threshold, config.loss_down_threshold)
        }
    }

    /// Taken out of service.
    pub open spec fn downed(self, confidence: Binary64) -> RateState {
        RateState { state: PathState::Down, recovery_count: 0, entered_down_confidence: confidence, ..self }
    }

    /// The link at an instant: taken down once no probe came in for longer
    /// than the timeout.
    pub open spec fn timed_out(self, config: RateControlConfig, now_ns: u64) -> RateState {
        if self.state !is Down && now_ns - self.last_probe_recv > config.down_timeout_ms * 1_000_000 {
            self.downed(self.probe_confidence)
        } else {
            self
        }
    }

    /// Whether the link went down under so much traffic that the loss was
    /// likely a phantom.
    pub open spec fn phantom_down(self) -> bool {
        self.entered_down_confidence.less(Binary64::fraction(3, 10))
    }

    /// The state machine.
    pub open spec fn transitioned(self, config: RateControlConfig, confidence: Binary64, suppress: bool) -> RateState {
        let (lossy, down) = Self::thresholds(config, confidence);
        match self.state {
            PathState::Running => if suppress {
                self
            } else if self.loss > down {
                self.downed(confidence)
            } else if self.loss > lossy {
                RateState { state: PathState::Lossy, ..self }
            } else {
                self
            },
            PathState::Lossy => if !suppress && self.loss > down {
                self.downed(confidence)
            } else if self.loss <= (if suppress {
                config.loss_threshold
            } else {
                lossy
            }) {
                RateState { state: PathState::Running, ..self }
            } else {
                self
            },
            PathState::Down => if self.phantom_down() && config.tapa_enabled {
                RateState {
                    state: PathState::Probing,
                    recovery_count: monus(config.probe_recovery_count as nat, 1) as u32,
                    tx_rate: self.tx_max_rate / 2,
                    send_tx_acc: self.send_tx_acc / 2,
                    send_rx_acc: self.send_rx_acc / 2,
                    recv_tx_acc: self.recv_tx_acc / 2,
                    recv_rx_acc: self.recv_rx_acc / 2,
                    ..self
                }
            } else {
                RateState { state: PathState::Probing, recovery_count: 1, tx_rate: self.tx_min_rate, ..self }
            },
            PathState::Probing => {
                let count = (self.recovery_count + 1) as u32;
                if count >= config.probe_recovery_count {
                    RateState {
                        state: PathState::Running,
                        recovery_count: count,
                        tx_rate: if Binary64::fraction(3, 10).at_most(self.entered_down_confidence) {
                            self.tx_min_rate
                        } else {
                            self.tx_rate
                        },
                        ..self
                    }
                } else {
                    RateState { recovery_count: count, ..self }
                }
            },
        }
    }

    /// The link up to, and with, congestion control.
    pub open spec fn after_pacing(
        self,
        config: RateControlConfig,
        probe: ProbePacket,
        held_us: u64,
        now: u64,
        recv_at: u64,
    ) -> RateState {
        let confidence = self.confidence(config);
        self.heard(probe.timestamp_us, now, recv_at, confidence).timed(
            config,
            probe.echo_timestamp_us,
            held_us,
            now,
        ).paced(config, probe.rx_bytes, confidence)
    }

    /// How much of the counts to believe.
    pub open spec fn gate(self, config: RateControlConfig) -> Binary64 {
        if config.tapa_enabled {
            self.confidence(config)
        } else {
            Binary64::of_nat(1)
        }
    }

    /// The link once a probe is processed.
    pub open spec fn processed(
        self,
        config: RateControlConfig,
        probe: ProbePacket,
        held_us: u64,
        now: u64,
        recv_at: u64,
        suppress: bool,
    ) -> RateState {
        self.after_pacing(config, probe, held_us, now, recv_at).counted(config, probe, now, self.gate(config)).judged(
            config,
        ).relieved(config).transitioned(config, self.confidence(config), suppress)
    }

    // --- machine limits ---

    /// Whether the traffic load fits the machine.
    pub open spec fn load_fits(self, config: RateControlConfig) -> bool {
        &&& config.probe_interval_ms * 1000 <= u64::MAX
        &&& config.tapa_enabled && config.probe_interval_ms > 0 && self.tx_max_rate > 0 ==> larger(
            self.tx_bytes_since_probe(),
            self.rx_bytes_since_probe(),
        ) * 1_000_000 <= u64::MAX
    }

    /// Whether congestion control fits the machine.
    pub open spec fn pacing_fits(self, config: RateControlConfig, remote_rx_bytes: u64, confidence: Binary64) -> bool {
        let (ours, remote) = self.rates(config, remote_rx_bytes);
        &&& Self::trusts(config, confidence) && config.probe_interval_ms > 0 ==> {
            &&& self.tx_bytes_since_probe() * 1_000_000 <= u64::MAX
            &&& remote_rx_bytes * 1_000_000 <= u64::MAX
            &&& ours > 0 && remote > 0 ==> remote + scaled(ours, config.congestion_threshold) <= u64::MAX
        }
        &&& self.called_for(config, remote_rx_bytes, confidence) is Some ==> self.tx_min_rate <= self.tx_max_rate
    }

    /// Whether the packet accounts fit the machine.
    pub open spec fn counts_fit(self, config: RateControlConfig, probe: ProbePacket, now: u64, gate: Binary64) -> bool {
        let (sent, arrived_there, sent_there, arrived) = self.counts(config, probe, now, gate);
        &&& self.send_tx_acc + sent <= u64::MAX
        &&& self.send_rx_acc + arrived_there <= u64::MAX
        &&& self.recv_tx_acc + sent_there <= u64::MAX
        &&& self.recv_rx_acc + arrived <= u64::MAX
    }

    /// Whether the loss calculation fits the machine.
    pub open spec fn loss_fits(self, config: RateControlConfig) -> bool {
        &&& self.send_tx_acc > config.loss_min_packets && self.send_tx_acc > self.send_rx_acc ==> (self.send_tx_acc
            - self.send_rx_acc) * 255 <= u64::MAX
        &&& self.recv_tx_acc > config.loss_min_packets && self.recv_tx_acc > self.recv_rx_acc ==> (self.recv_tx_acc
            - self.recv_rx_acc) * 255 <= u64::MAX
    }

    /// Whether processing the probe stays within the machine's integers.
    pub open spec fn accepts(
        self,
        config: RateControlConfig,
        probe: ProbePacket,
        held_us: u64,
        now: u64,
        recv_at: u64,
    ) -> bool {
        let confidence = self.confidence(config);
        let timed = self.heard(probe.timestamp_us, now, recv_at, confidence).timed(
            config,
            probe.echo_timestamp_us,
            held_us,
            now,
        );
        let paced = timed.paced(config, probe.rx_bytes, confidence);
        &&& self.load_fits(config)
        &&& timed.pacing_fits(config, probe.rx_bytes, confidence)
        &&& paced.counts_fit(config, probe, now, self.gate(config))
        &&& paced.counted(config, probe, now, self.gate(config)).loss_fits(config)
        &&& self.state is Probing ==> self.recovery_count < u32::MAX
    }
}

// ---------------------------------------------------------------------------
// One link
// ---------------------------------------------------------------------------

/// Bytes per second of `bytes` in `interval_us` microseconds.
fn rate_per_second(bytes: u64, interval_us: u64) -> (r: u64)
    requires
        interval_us > 0 ==> bytes * 1_000_000 <= u64::MAX,
    ensures
        r == per_second(bytes as nat, interval_us as nat),
{
    if interval_us == 0 {
        0
    } else {
        bytes * 1_000_000 / interval_us
    }
}

impl RateState {
    /// A link with the given ceiling, nothing sent or received yet.
    pub fn new(link_id: usize, max_rate: u64, min_rate_fraction: Binary64, now_ns: u64) -> (r: RateState)
        ensures
            r == Self::fresh(link_id, max_rate, min_rate_fraction, now_ns),
            r.wf(),
    {
        let fraction: u64 = scale(max_rate, min_rate_fraction);
        let min_rate: u64 = if fraction >= MIN_RATE_STEP {
            fraction
        } else {
            MIN_RATE_STEP
        };
        RateState {
            link_id,
            tx_rate: max_rate,
            tx_max_rate: max_rate,
            tx_min_rate: min_rate,
            loss: 0,
            send_loss: 0,
            recv_loss: 0,
            send_tx_acc: 0,
            send_rx_acc: 0,
            recv_tx_acc: 0,
            recv_rx_acc: 0,
            srtt_us: 0,
            rtt_var_us: 0,
            state: PathState::Running,
            total_tx_bytes: 0,
            total_tx_packets: 0,
            total_rx_bytes: 0,
            total_rx_packets: 0,
            last_probe_tx_bytes: 0,
            last_probe_tx_packets: 0,
            last_probe_rx_bytes: 0,
            last_probe_rx_packets: 0,
            last_loss_tx_packets: 0,
            last_loss_rx_packets: 0,
            probe_seq: 0,
            last_remote_timestamp_us: 0,
            last_remote_recv_us: 0,
            last_probe_sent_us: 0,
            last_probe_recv: now_ns,
            last_process_probe_us: 0,
            recovery_count: 0,
            probe_confidence: Binary64::from_u64(1),
            prev_probe_confidence: Binary64::from_u64(1),
            entered_down_confidence: Binary64::from_u64(1),
        }
    }

    /// Weight from current rate and state.
    pub fn weight(&self) -> (r: u32)
        ensures
            r == self.weight_of(),
    {
        match self.state {
            PathState::Down => 0,
            PathState::Probing => 0,
            _ => {
                let rate: u64 = self.tx_rate / 125_000;
                let rate: u64 = if rate >= 1 {
                    rate
                } else {
                    1
                };
                (rate % 0x1_0000_0000) as u32
            },
        }
    }

    /// Builds the outgoing probe packet from the counters since the last one.
    pub fn build_probe(&mut self, now: u64) -> (r: ProbePacket)
        requires
            old(self).wf(),
        ensures
            r == old(self).probe_at(now),
            *final(self) == old(self).probed_at(now),
            final(self).wf(),
    {
        self.probe_seq = self.probe_seq.wrapping_add(1);
        self.last_probe_sent_us = now;
        let tx_bytes: u64 = self.total_tx_bytes - self.last_probe_tx_bytes;
        let tx_packets: u64 = self.total_tx_packets - self.last_probe_tx_packets;
        let rx_bytes: u64 = self.total_rx_bytes - self.last_probe_rx_bytes;
        let rx_packets: u64 = self.total_rx_packets - self.last_probe_rx_packets;
        self.last_probe_tx_bytes = self.total_tx_bytes;
        self.last_probe_tx_packets = self.total_tx_packets;
        self.last_probe_rx_bytes = self.total_rx_bytes;
        self.last_probe_rx_packets = self.total_rx_packets;
        ProbePacket {
            link_id: (self.link_id % 256) as u8,
            seq: self.probe_seq,
            timestamp_us: now,
            echo_timestamp_us: self.last_remote_timestamp_us,
            tx_bytes,
            tx_packets: (tx_packets % 0x1_0000_0000) as u32,
            rx_bytes,
            rx_packets: (rx_packets % 0x1_0000_0000) as u32,
            loss_ratio: self.loss,
            path_state: self.state,
        }
    }

    /// How long the timestamp that the next probe echoes has been held: time
    /// for the remote to leave out of its round-trip measurement.
    pub fn echo_delay_us(&self, now: u64) -> (r: u64)
        ensures
            r == if self.last_remote_recv_us > 0 {
                monus(now as nat, self.last_remote_recv_us as nat)
            } else {
                0
            },
    {
        if self.last_remote_recv_us > 0 {
            now.saturating_sub(self.last_remote_recv_us)
        } else {
            0
        }
    }

    /// Traffic load as fraction of capacity.
    pub fn traffic_load(&self, probe_interval_us: u64) -> (r: Binary64)
        requires
            self.wf(),
            probe_interval_us > 0 && self.tx_max_rate > 0 ==> larger(
                self.tx_bytes_since_probe(),
                self.rx_bytes_since_probe(),
            ) * 1_000_000 <= u64::MAX,
        ensures
            r == self.load(probe_interval_us as nat),
    {
        if probe_interval_us == 0 || self.tx_max_rate == 0 {
            return Binary64::from_u64(0);
        }
        let tx_delta: u64 = self.total_tx_bytes - self.last_probe_tx_bytes;
        let rx_delta: u64 = self.total_rx_bytes - self.last_probe_rx_bytes;
        let max_delta: u64 = if tx_delta >= rx_delta {
            tx_delta
        } else {
            rx_delta
        };
        let rate: u64 = rate_per_second(max_delta, probe_interval_us);
        Binary64::from_u64(rate).over(Binary64::from_u64(self.tx_max_rate))
    }

    /// Short name of the state.
    pub open spec fn label(self) -> Seq<char> {
        match self.state {
            PathState::Running => "RUN"@,
            PathState::Lossy => "LOSSY"@,
            PathState::Down => "DOWN"@,
            PathState::Probing => "PROBE"@,
        }
    }

    /// Loss on the 0-255 scale in percent.
    pub open spec fn percent(loss: u8) -> Binary64 {
        Binary64::of_nat(loss as nat).product(Binary64::of_nat(100)).quotient(Binary64::of_nat(255))
    }

    /// The link in one word: rate and ceiling in Mbps, RTT in whole ms, loss per
    /// direction in percent, probe confidence, state and weight.
    pub open spec fn status_text(self) -> Seq<char> {
        "L"@ + decimal(self.link_id as nat) + "["@ + fixed_text(mbps(Binary64::of_nat(self.tx_rate as nat)), 0) + "/"@
            + fixed_text(mbps(Binary64::of_nat(self.tx_max_rate as nat)), 0) + "Mbps|"@ + fixed_text(
            millis(self.srtt_us as nat),
            0,
        ) + "ms|SL"@ + fixed_text(Self::percent(self.send_loss), 1) + "%|RL"@ + fixed_text(
            Self::percent(self.recv_loss),
            1,
        ) + "%|c"@ + fixed_text(self.probe_confidence, 2) + "|"@ + self.label() + "|w:"@ + decimal(
            self.weight_of() as nat,
        ) + "]"@
    }

    fn loss_percent(loss: u8) -> (r: Binary64)
        ensures
            r == Self::percent(loss),
    {
        Binary64::from_u64(loss as u64).times(Binary64::from_u64(100)).over(Binary64::from_u64(255))
    }

    fn status(&self) -> (r: String)
        ensures
            r@ == self.status_text(),
    {
        let mut r: String = String::from_str("L");
        push_decimal(&mut r, self.link_id as u64);
        r.append("[");
        push_fixed(&mut r, as_mbps(Binary64::from_u64(self.tx_rate)), 0);
        r.append("/");
        push_fixed(&mut r, as_mbps(Binary64::from_u64(self.tx_max_rate)), 0);
        r.append("Mbps|");
        push_fixed(&mut r, as_millis(self.srtt_us), 0);
        r.append("ms|SL");
        push_fixed(&mut r, Self::loss_percent(self.send_loss), 1);
        r.append("%|RL");
        push_fixed(&mut r, Self::loss_percent(self.recv_loss), 1);
        r.append("%|c");
        push_fixed(&mut r, self.probe_confidence, 2);
        r.append("|");
        r.append(self.status_label());
        r.append("|w:");
        push_decimal(&mut r, self.weight() as u64);
        r.append("]");
        r
    }

    /// Short name of the state.
    pub fn status_label(&self) -> (r: &'static str)
        ensures
            r@ == self.label(),
    {
        match self.state {
            PathState::Running => "RUN",
            PathState::Lossy => "LOSSY",
            PathState::Down => "DOWN",
            PathState::Probing => "PROBE",
        }
    }

    /// Probe confidence based on traffic load.
    fn probe_trust(&self, config: &RateControlConfig) -> (r: Binary64)
        requires
            self.wf(),
            self.load_fits(*config),
        ensures
            r == self.confidence(*config),
    {
        let one: Binary64 = Binary64::from_u64(1);
        if !config.tapa_enabled {
            return one;
        }
        let load: Binary64 = self.traffic_load(config.probe_interval_ms * 1000);
        let idle: Binary64 = config.tapa_idle_threshold;
        let heavy: Binary64 = config.tapa_heavy_threshold;
        let min_conf: Binary64 = config.tapa_min_confidence;
        if load.le(idle) {
            one
        } else if heavy.le(load) {
            min_conf
        } else {
            let range: Binary64 = heavy.minus(idle);
            let t: Binary64 = load.minus(idle).over(range);
            one.minus(t.times(one.minus(min_conf)))
        }
    }

    fn hear(&mut self, timestamp_us: u64, now: u64, recv_at: u64, confidence: Binary64)
        ensures
            *final(self) == old(self).heard(timestamp_us, now, recv_at, confidence),
    {
        self.last_probe_recv = recv_at;
        self.last_remote_timestamp_us = timestamp_us;
        self.last_remote_recv_us = now;
        self.prev_probe_confidence = self.probe_confidence;
        self.probe_confidence = confidence;
    }

    fn measure_rtt(&mut self, config: &RateControlConfig, echo_us: u64, held_us: u64, now: u64)
        ensures
            *final(self) == old(self).timed(*config, echo_us, held_us, now),
    {
        if echo_us > 0 && now > echo_us {
            let rtt: u64 = (now - echo_us).saturating_sub(held_us);
            if self.srtt_us == 0 {
                self.srtt_us = rtt;
                self.rtt_var_us = rtt / 2;
            } else {
                self.srtt_us = blend(config.rtt_ewma_alpha, rtt, self.srtt_us);
                let off: u64 = if rtt > self.srtt_us {
                    rtt - self.srtt_us
                } else {
                    self.srtt_us - rtt
                };
                self.rtt_var_us = blend(config.rtt_var_alpha, off, self.rtt_var_us);
            }
        }
    }

    fn trusted(config: &RateControlConfig, confidence: Binary64) -> (r: bool)
        ensures
            r == Self::trusts(*config, confidence),
    {
        Binary64::ratio(5, 10).lt(confidence) || !config.tapa_enabled
    }

    /// The rate that a probe calls for.
    fn desired_rate(&self, config: &RateControlConfig, remote_rx_bytes: u64, confidence: Binary64) -> (r: Option<u64>)
        requires
            self.wf(),
            config.probe_interval_ms * 1000 <= u64::MAX,
            self.pacing_fits(*config, remote_rx_bytes, confidence),
        ensures
            r == self.called_for(*config, remote_rx_bytes, confidence),
    {
        if Self::trusted(config, confidence) {
            let interval: u64 = config.probe_interval_ms * 1000;
            let tx_delta: u64 = self.total_tx_bytes - self.last_probe_tx_bytes;
            let our_rate: u64 = rate_per_second(tx_delta, interval);
            let remote_rate: u64 = rate_per_second(remote_rx_bytes, interval);
            if our_rate > 0 && remote_rate > 0 {
                let threshold: u64 = scale(our_rate, config.congestion_threshold);
                if remote_rate + threshold < our_rate {
                    return Some(scale(remote_rate, config.congestion_reduction));
                }
            }
            let growth: u64 = scale(self.tx_rate, config.growth_factor);
            Some(self.tx_rate.saturating_add(growth))
        } else {
            let our_tx_delta: u64 = self.total_tx_packets - self.last_loss_tx_packets;
            let our_rx_delta: u64 = self.total_rx_packets - self.last_loss_rx_packets;
            if our_tx_delta > 0 || our_rx_delta > 0 {
                let growth: u64 = Binary64::from_u64(self.tx_rate).times(config.growth_factor).times(
                    Binary64::ratio(5, 10),
                ).to_u64();
                Some(self.tx_rate.saturating_add(growth))
            } else {
                None
            }
        }
    }

    /// Moves the rate towards `desired`, with safeguards.
    pub fn apply_rate_change(&mut self, desired: u64, config: &RateControlConfig)
        requires
            old(self).tx_min_rate <= old(self).tx_max_rate,
        ensures
            *final(self) == (RateState { tx_rate: old(self).moved_towards(*config, desired), ..*old(self) }),
    {
        let current: u64 = self.tx_rate;
        let fraction: u64 = scale(current, config.max_rate_change_fraction);
        let max_change: u64 = if fraction >= MIN_RATE_STEP {
            fraction
        } else {
            MIN_RATE_STEP
        };
        let new_rate: u64 = if desired > current {
            if desired - current <= max_change {
                desired
            } else {
                current + max_change
            }
        } else {
            if current - desired <= max_change {
                desired
            } else {
                current - max_change
            }
        };
        self.tx_rate = if new_rate < self.tx_min_rate {
            self.tx_min_rate
        } else if new_rate > self.tx_max_rate {
            self.tx_max_rate
        } else {
            new_rate
        };
    }

    fn pace(&mut self, config: &RateControlConfig, remote_rx_bytes: u64, confidence: Binary64)
        requires
            old(self).wf(),
            config.probe_interval_ms * 1000 <= u64::MAX,
            old(self).pacing_fits(*config, remote_rx_bytes, confidence),
        ensures
            *final(self) == old(self).paced(*config, remote_rx_bytes, confidence),
    {
        if let Some(desired) = self.desired_rate(config, remote_rx_bytes, confidence) {
            self.apply_rate_change(desired, config);
        }
    }

    /// What one probe adds to the accumulators.
    fn new_counts(&self, config: &RateControlConfig, probe: &ProbePacket, now: u64, gate: Binary64) -> (r: (
        u64,
        u64,
        u64,
        u64,
    ))
        requires
            self.wf(),
            config.probe_interval_ms * 1000 <= u64::MAX,
        ensures
            (r.0 as nat, r.1 as nat, r.2 as nat, r.3 as nat) == self.counts(*config, *probe, now, gate),
    {
        let our_tx_delta: u64 = self.total_tx_packets - self.last_loss_tx_packets;
        let our_rx_delta: u64 = self.total_rx_packets - self.last_loss_rx_packets;
        let our_interval: u64 = if self.last_process_probe_us > 0 {
            now.saturating_sub(self.last_process_probe_us)
        } else {
            0
        };
        let remote_interval: u64 = config.probe_interval_ms * 1000;
        if our_interval > 10_000 && remote_interval > 0 {
            let low: Binary64 = Binary64::ratio(2, 10);
            let high: Binary64 = Binary64::from_u64(5);
            proof {
                lemma_scale_range();
            }
            let factor: Binary64 = Binary64::from_u64(our_interval).over(Binary64::from_u64(remote_interval)).clamp(
                low,
                high,
            );
            let scaled_remote_rx: u64 = scale(probe.rx_packets as u64, factor);
            let scaled_remote_tx: u64 = scale(probe.tx_packets as u64, factor);
            (
                scale(our_tx_delta, gate),
                scale(scaled_remote_rx, gate),
                scale(scaled_remote_tx, gate),
                scale(our_rx_delta, gate),
            )
        } else {
            (0, 0, 0, 0)
        }
    }

    fn count(&mut self, config: &RateControlConfig, probe: &ProbePacket, now: u64, gate: Binary64)
        requires
            old(self).wf(),
            config.probe_interval_ms * 1000 <= u64::MAX,
            old(self).counts_fit(*config, *probe, now, gate),
        ensures
            *final(self) == old(self).counted(*config, *probe, now, gate),
    {
        let (sent, arrived_there, sent_there, arrived): (u64, u64, u64, u64) = self.new_counts(
            config,
            probe,
            now,
            gate,
        );
        self.send_tx_acc = self.send_tx_acc + sent;
        self.send_rx_acc = self.send_rx_acc + arrived_there;
        self.recv_tx_acc = self.recv_tx_acc + sent_there;
        self.recv_rx_acc = self.recv_rx_acc + arrived;
        self.last_loss_tx_packets = self.total_tx_packets;
        self.last_loss_rx_packets = self.total_rx_packets;
        self.last_process_probe_us = now;
    }

    fn judge(&mut self, config: &RateControlConfig)
        requires
            old(self).loss_fits(*config),
        ensures
            *final(self) == old(self).judged(*config),
    {
        if self.send_tx_acc > config.loss_min_packets {
            self.send_loss = lost(self.send_tx_acc, self.send_rx_acc);
            self.send_tx_acc = self.send_tx_acc - self.send_tx_acc / 16;
            self.send_rx_acc = self.send_rx_acc - self.send_rx_acc / 16;
        }
        if self.recv_tx_acc > config.loss_min_packets {
            self.recv_loss = lost(self.recv_tx_acc, self.recv_rx_acc);
            self.recv_tx_acc = self.recv_tx_acc - self.recv_tx_acc / 16;
            self.recv_rx_acc = self.recv_rx_acc - self.recv_rx_acc / 16;
        }
        self.loss = if self.send_loss >= self.recv_loss {
            self.send_loss
        } else {
            self.recv_loss
        };
    }

    fn relieve(&mut self, config: &RateControlConfig)
        ensures
            *final(self) == old(self).relieved(*config),
    {
        if config.tapa_enabled && config.tapa_accelerated_recovery {
            if self.prev_probe_confidence.lt(Binary64::ratio(3, 10)) && Binary64::ratio(7, 10).lt(
                self.probe_confidence,
            ) {
                let decay: Binary64 = config.tapa_recovery_decay;
                self.send_tx_acc = scale(self.send_tx_acc, decay);
                self.send_rx_acc = scale(self.send_rx_acc, decay);
                self.recv_tx_acc = scale(self.recv_tx_acc, decay);
                self.recv_rx_acc = scale(self.recv_rx_acc, decay);
            }
        }
    }

    /// The loss thresholds for Lossy and Down.
    fn loss_thresholds(config: &RateControlConfig, confidence: Binary64) -> (r: (u8, u8))
        ensures
            r == Self::thresholds(*config, confidence),
    {
        if config.tapa_enabled && confidence.lt(Binary64::ratio(5, 10)) {
            assert(config.loss_threshold * config.tapa_loss_threshold_multiplier <= 255 * 255) by (nonlinear_arith)
                requires
                    config.loss_threshold <= 255,
                    config.tapa_loss_threshold_multiplier <= 255,
            ;
            let raised: u32 = config.loss_threshold as u32 * config.tapa_loss_threshold_multiplier as u32;
            let lossy: u8 = if raised > 200 {
                200
            } else {
                raised as u8
            };
            (lossy, config.loss_down_threshold + (255 - config.loss_down_threshold) / 2)
        } else {
            (config.loss_threshold, config.loss_down_threshold)
        }
    }

    fn take_down(&mut self, confidence: Binary64)
        ensures
            *final(self) == old(self).downed(confidence),
    {
        self.state = PathState::Down;
        self.recovery_count = 0;
        self.entered_down_confidence = confidence;
    }

    /// Takes the link down if no probe came in for too long.
    pub fn time_out(&mut self, config: &RateControlConfig, now_ns: u64)
        ensures
            *final(self) == old(self).timed_out(*config, now_ns),
    {
        let silent: u64 = now_ns.saturating_sub(self.last_probe_recv);
        if self.state != PathState::Down && silent as u128 > config.down_timeout_ms as u128 * 1_000_000 {
            let confidence: Binary64 = self.probe_confidence;
            self.take_down(confidence);
        }
    }

    fn transition(&mut self, config: &RateControlConfig, confidence: Binary64, suppress: bool)
        requires
            old(self).state is Probing ==> old(self).recovery_count < u32::MAX,
        ensures
            *final(self) == old(self).transitioned(*config, confidence, suppress),
    {
        let (lossy, down): (u8, u8) = Self::loss_thresholds(config, confidence);
        match self.state {
            PathState::Running => {
                if !suppress {
                    if self.loss > down {
                        self.take_down(confidence);
                    } else if self.loss > lossy {
                        self.state = PathState::Lossy;
                    }
                }
            },
            PathState::Lossy => {
                if !suppress {
                    if self.loss > down {
                        self.take_down(confidence);
                    } else if self.loss <= lossy {
                        self.state = PathState::Running;
                    }
                } else if self.loss <= config.loss_threshold {
                    self.state = PathState::Running;
                }
            },
            PathState::Down => {
                self.state = PathState::Probing;
                if self.entered_down_confidence.lt(Binary64::ratio(3, 10)) && config.tapa_enabled {
                    // Likely a phantom: recover fast, from half the ceiling.
                    self.recovery_count = config.probe_recovery_count.saturating_sub(1);
                    self.tx_rate = self.tx_max_rate / 2;
                    self.send_tx_acc = self.send_tx_acc / 2;
                    self.send_rx_acc = self.send_rx_acc / 2;
                    self.recv_tx_acc = self.recv_tx_acc / 2;
                    self.recv_rx_acc = self.recv_rx_acc / 2;
                } else {
                    self.recovery_count = 1;
                    self.tx_rate = self.tx_min_rate;
                }
            },
            PathState::Probing => {
                self.recovery_count = self.recovery_count + 1;
                if self.recovery_count >= config.probe_recovery_count {
                    self.state = PathState::Running;
                    if Binary64::ratio(3, 10).le(self.entered_down_confidence) {
                        self.tx_rate = self.tx_min_rate;
                    }
                }
            },
        }
    }
}

/// Loss on the 0-255 scale when `rx` of `tx` packets arrived.
fn lost(tx: u64, rx: u64) -> (r: u8)
    requires
        tx > rx ==> (tx - rx) * 255 <= u64::MAX,
    ensures
        r == loss_of(tx, rx),
{
    if tx > rx {
        let ratio: u64 = (tx - rx) * 255 / tx;
        proof {
            assert((tx - rx) * 255 / tx as int <= 255) by (nonlinear_arith)
                requires
                    tx > rx,
                    rx >= 0,
            ;
        }
        ratio as u8
    } else {
        0
    }
}

impl RateState {
    fn load_in_range(&self, config: &RateControlConfig) -> (r: bool)
        requires
            self.wf(),
        ensures
            r == self.load_fits(*config),
    {
        let tx_delta: u64 = self.total_tx_bytes - self.last_probe_tx_bytes;
        let rx_delta: u64 = self.total_rx_bytes - self.last_probe_rx_bytes;
        config.probe_interval_ms <= u64::MAX / 1000 && (!config.tapa_enabled || config.probe_interval_ms == 0
            || self.tx_max_rate == 0 || (tx_delta <= u64::MAX / 1_000_000 && rx_delta <= u64::MAX / 1_000_000))
    }

    fn pacing_in_range(&self, config: &RateControlConfig, remote_rx_bytes: u64, confidence: Binary64) -> (r: bool)
        requires
            self.wf(),
            config.probe_interval_ms * 1000 <= u64::MAX,
        ensures
            r == self.pacing_fits(*config, remote_rx_bytes, confidence),
    {
        let interval: u64 = config.probe_interval_ms * 1000;
        if Self::trusted(config, confidence) {
            if interval > 0 {
                let tx_delta: u64 = self.total_tx_bytes - self.last_probe_tx_bytes;
                if tx_delta > u64::MAX / 1_000_000 || remote_rx_bytes > u64::MAX / 1_000_000 {
                    return false;
                }
                let ours: u64 = rate_per_second(tx_delta, interval);
                let remote: u64 = rate_per_second(remote_rx_bytes, interval);
                if ours > 0 && remote > 0 {
                    let threshold: u64 = scale(ours, config.congestion_threshold);
                    if threshold > u64::MAX - remote {
                        return false;
                    }
                }
            }
            self.tx_min_rate <= self.tx_max_rate
        } else {
            let tx_delta: u64 = self.total_tx_packets - self.last_loss_tx_packets;
            let rx_delta: u64 = self.total_rx_packets - self.last_loss_rx_packets;
            (tx_delta == 0 && rx_delta == 0) || self.tx_min_rate <= self.tx_max_rate
        }
    }

    fn counts_in_range(&self, config: &RateControlConfig, probe: &ProbePacket, now: u64, gate: Binary64) -> (r: bool)
        requires
            self.wf(),
            config.probe_interval_ms * 1000 <= u64::MAX,
        ensures
            r == self.counts_fit(*config, *probe, now, gate),
    {
        let (sent, arrived_there, sent_there, arrived): (u64, u64, u64, u64) = self.new_counts(
            config,
            probe,
            now,
            gate,
        );
        self.send_tx_acc <= u64::MAX - sent && self.send_rx_acc <= u64::MAX - arrived_there && self.recv_tx_acc
            <= u64::MAX - sent_there && self.recv_rx_acc <= u64::MAX - arrived
    }

    fn loss_in_range(&self, config: &RateControlConfig) -> (r: bool)
        ensures
            r == self.loss_fits(*config),
    {
        let limit: u64 = u64::MAX / 255;
        let send: bool = !(self.send_tx_acc > config.loss_min_packets && self.send_tx_acc > self.send_rx_acc)
            || self.send_tx_acc - self.send_rx_acc <= limit;
        let recv: bool = !(self.recv_tx_acc > config.loss_min_packets && self.recv_tx_acc > self.recv_rx_acc)
            || self.recv_tx_acc - self.recv_rx_acc <= limit;
        send && recv
    }

    /// Whether processing the probe stays within the machine's integers.
    pub fn can_process(
        &self,
        config: &RateControlConfig,
        probe: &ProbePacket,
        held_us: u64,
        now: u64,
        recv_at: u64,
    ) -> (r: bool)
        requires
            self.wf(),
        ensures
            r == self.accepts(*config, *probe, held_us, now, recv_at),
    {
        if !self.load_in_range(config) {
            return false;
        }
        let confidence: Binary64 = self.probe_trust(config);
        let gate: Binary64 = if config.tapa_enabled {
            confidence
        } else {
            Binary64::from_u64(1)
        };
        let mut link: RateState = *self;
        link.hear(probe.timestamp_us, now, recv_at, confidence);
        link.measure_rtt(config, probe.echo_timestamp_us, held_us, now);
        if !link.pacing_in_range(config, probe.rx_bytes, confidence) {
            return false;
        }
        link.pace(config, probe.rx_bytes, confidence);
        if !link.counts_in_range(config, probe, now, gate) {
            return false;
        }
        link.count(config, probe, now, gate);
        if !link.loss_in_range(config) {
            return false;
        }
        match self.state {
            PathState::Probing => self.recovery_count < u32::MAX,
            _ => true,
        }
    }

    /// Processes a probe from the remote.
    pub fn process(
        &mut self,
        config: &RateControlConfig,
        probe: &ProbePacket,
        held_us: u64,
        now: u64,
        recv_at: u64,
        suppress: bool,
    )
        requires
            old(self).wf(),
            old(self).accepts(*config, *probe, held_us, now, recv_at),
        ensures
            *final(self) == old(self).processed(*config, *probe, held_us, now, recv_at, suppress),
            final(self).wf(),
    {
        let confidence: Binary64 = self.probe_trust(config);
        let gate: Binary64 = if config.tapa_enabled {
            confidence
        } else {
            Binary64::from_u64(1)
        };
        self.hear(probe.timestamp_us, now, recv_at, confidence);
        self.measure_rtt(config, probe.echo_timestamp_us, held_us, now);
        self.pace(config, probe.rx_bytes, confidence);
        self.count(config, probe, now, gate);
        self.judge(config);
        self.relieve(config);
        self.transition(config, confidence, suppress);
    }
}

// ---------------------------------------------------------------------------
// All links
// ---------------------------------------------------------------------------

/// Rate controller managing all links.
#[derive(Debug)]
pub struct RateController {
    pub states: Vec<RateState>,
    pub config: RateControlConfig,
}

/// Whether most links, more than four in five, satisfy `flags`.
pub open spec fn most(flags: Seq<bool>) -> bool {
    flags.filter(|flag: bool| flag).len() * 5 > flags.len() * 4
}

impl RateController {
    pub open spec fn wf(self) -> bool {
        forall|i: int| 0 <= i < self.states@.len() ==> (#[trigger] self.states@[i]).wf()
    }

    /// Whether most links show loss while most links carry heavy traffic: the
    /// loss is then likely a phantom.
    pub open spec fn phantom_loss(self) -> bool {
        &&& self.config.tapa_enabled
        &&& self.config.tapa_cross_link_check
        &&& self.states@.len() >= 2
        &&& most(self.states@.map_values(|s: RateState| s.loss > self.config.loss_threshold))
        &&& most(self.states@.map_values(|s: RateState| s.probe_confidence.less(Binary64::fraction(3, 10))))
    }

    /// Whether a packet more sent on a link can be counted.
    pub open spec fn has_room_for_tx(self, link_id: usize, bytes: usize) -> bool {
        link_id < self.states@.len() ==> self.states@[link_id as int].total_tx_bytes + bytes <= u64::MAX
            && self.states@[link_id as int].total_tx_packets < u64::MAX
    }

    /// Whether a packet more received on a link can be counted.
    pub open spec fn has_room_for_rx(self, link_id: usize, bytes: usize) -> bool {
        link_id < self.states@.len() ==> self.states@[link_id as int].total_rx_bytes + bytes <= u64::MAX
            && self.states@[link_id as int].total_rx_packets < u64::MAX
    }

    /// All links once a packet was sent on one; a link that does not exist
    /// changes nothing.
    pub open spec fn after_tx(self, link_id: usize, bytes: usize) -> Seq<RateState> {
        if link_id < self.states@.len() {
            let s = self.states@[link_id as int];
            self.states@.update(
                link_id as int,
                RateState {
                    total_tx_bytes: (s.total_tx_bytes + bytes) as u64,
                    total_tx_packets: (s.total_tx_packets + 1) as u64,
                    ..s
                },
            )
        } else {
            self.states@
        }
    }

    /// All links once a packet was received on one; a link that does not exist
    /// changes nothing.
    pub open spec fn after_rx(self, link_id: usize, bytes: usize) -> Seq<RateState> {
        if link_id < self.states@.len() {
            let s = self.states@[link_id as int];
            self.states@.update(
                link_id as int,
                RateState {
                    total_rx_bytes: (s.total_rx_bytes + bytes) as u64,
                    total_rx_packets: (s.total_rx_packets + 1) as u64,
                    ..s
                },
            )
        } else {
            self.states@
        }
    }

    /// The probes built at time `now`, one for every link whatever its state.
    pub open spec fn probes_at(self, now: u64) -> Seq<ProbePacket> {
        self.states@.map_values(|s: RateState| s.probe_at(now))
    }

    /// All links once the probes at time `now` are built.
    pub open spec fn after_probes(self, now: u64) -> Seq<RateState> {
        self.states@.map_values(|s: RateState| s.probed_at(now))
    }

    /// All links once a probe is processed.  A probe for a link that does not
    /// exist changes nothing.
    pub open spec fn after_probe(self, probe: ProbePacket, held_us: u64, now: u64, recv_at: u64) -> Seq<RateState> {
        let i = probe.link_id as int;
        if i < self.states@.len() {
            self.states@.update(
                i,
                self.states@[i].processed(self.config, probe, held_us, now, recv_at, self.phantom_loss()),
            )
        } else {
            self.states@
        }
    }

    /// Whether processing the probe stays within the machine's integers.
    pub open spec fn accepts(self, probe: ProbePacket, held_us: u64, now: u64, recv_at: u64) -> bool {
        probe.link_id < self.states@.len() ==> self.states@[probe.link_id as int].accepts(
            self.config,
            probe,
            held_us,
            now,
            recv_at,
        )
    }

    /// Rate controller with configured max rates (bytes/sec) per link.
    pub fn new(config: RateControlConfig, max_rates: &[u64], now_ns: u64) -> (r: RateController)
        ensures
            r.wf(),
            r.config == config,
            r.states@ == Seq::new(
                max_rates@.len(),
                |i: int| RateState::fresh(i as usize, max_rates@[i], config.min_rate_fraction, now_ns),
            ),
    {
        let mut states: Vec<RateState> = Vec::new();
        let mut id: usize = 0;
        while id < max_rates.len()
            invariant
                id <= max_rates@.len(),
                states@.len() == id,
                forall|i: int|
                    0 <= i < id ==> states@[i] == RateState::fresh(
                        i as usize,
                        max_rates@[i],
                        config.min_rate_fraction,
                        now_ns,
                    ),
            decreases max_rates.len() - id,
        {
            states.push(RateState::new(id, max_rates[id], config.min_rate_fraction, now_ns));
            id = id + 1;
        }
        assert(states@ =~= Seq::new(
            max_rates@.len(),
            |i: int| RateState::fresh(i as usize, max_rates@[i], config.min_rate_fraction, now_ns),
        ));
        RateController { states, config }
    }

    /// Is rate control enabled?
    pub fn enabled(&self) -> (r: bool)
        ensures
            r == self.config.enabled,
    {
        self.config.enabled
    }

    /// Current weights for all links.
    pub fn weights(&self) -> (r: Vec<u32>)
        ensures
            r@ == self.states@.map_values(|s: RateState| s.weight_of()),
    {
        let mut r: Vec<u32> = Vec::new();
        let mut i: usize = 0;
        while i < self.states.len()
            invariant
                i <= self.states@.len(),
                r@.len() == i,
                forall|j: int| 0 <= j < i ==> r@[j] == self.states@[j].weight_of(),
            decreases self.states.len() - i,
        {
            r.push(self.states[i].weight());
            i = i + 1;
        }
        assert(r@ =~= self.states@.map_values(|s: RateState| s.weight_of()));
        r
    }

    /// Records a packet transmitted on a link.
    pub fn record_tx(&mut self, link_id: usize, bytes: usize)
        requires
            old(self).wf(),
            old(self).has_room_for_tx(link_id, bytes),
        ensures
            final(self).wf(),
            final(self).config == old(self).config,
            final(self).states@ == old(self).after_tx(link_id, bytes),
    {
        if link_id < self.states.len() {
            let mut link: RateState = self.states[link_id];
            link.total_tx_bytes = link.total_tx_bytes + bytes as u64;
            link.total_tx_packets = link.total_tx_packets + 1;
            self.states.set(link_id, link);
        }
    }

    /// Records a packet received on a link.
    pub fn record_rx(&mut self, link_id: usize, bytes: usize)
        requires
            old(self).wf(),
            old(self).has_room_for_rx(link_id, bytes),
        ensures
            final(self).wf(),
            final(self).config == old(self).config,
            final(self).states@ == old(self).after_rx(link_id, bytes),
    {
        if link_id < self.states.len() {
            let mut link: RateState = self.states[link_id];
            link.total_rx_bytes = link.total_rx_bytes + bytes as u64;
            link.total_rx_packets = link.total_rx_packets + 1;
            self.states.set(link_id, link);
        }
    }

    /// Builds probe packets for all links at time `now`.
    pub fn build_probes_at(&mut self, now: u64) -> (r: Vec<ProbePacket>)
        requires
            old(self).wf(),
        ensures
            final(self).wf(),
            final(self).config == old(self).config,
            r@ == old(self).probes_at(now),
            final(self).states@ == old(self).after_probes(now),
    {
        let mut r: Vec<ProbePacket> = Vec::new();
        let mut i: usize = 0;
        let ghost before = self.states@;
        while i < self.states.len()
            invariant
                i <= self.states@.len(),
                self.states@.len() == before.len(),
                self.wf(),
                self.config == old(self).config,
                r@.len() == i,
                forall|j: int| 0 <= j < i ==> r@[j] == before[j].probe_at(now),
                forall|j: int| 0 <= j < i ==> self.states@[j] == before[j].probed_at(now),
                forall|j: int| i <= j < before.len() ==> self.states@[j] == before[j],
            decreases before.len() - i,
        {
            let mut link: RateState = self.states[i];
            r.push(link.build_probe(now));
            self.states.set(i, link);
            i = i + 1;
        }
        assert(r@ =~= old(self).probes_at(now));
        assert(self.states@ =~= old(self).after_probes(now));
        r
    }

    /// Builds probe packets for all links, by the wall clock.
    pub fn build_probes(&mut self) -> (r: Vec<ProbePacket>)
        requires
            old(self).wf(),
        ensures
            final(self).wf(),
            final(self).config == old(self).config,
            exists|now: u64|
                r@ == #[trigger] old(self).probes_at(now) && final(self).states@ == old(self).after_probes(now),
    {
        let now: u64 = now_micros();
        self.build_probes_at(now)
    }

    /// Probe confidence for a link based on traffic load; one for a link that
    /// does not exist.
    pub fn calculate_probe_confidence(&self, link_id: usize) -> (r: Binary64)
        requires
            self.wf(),
            link_id < self.states@.len() ==> self.states@[link_id as int].load_fits(self.config),
        ensures
            r == if link_id < self.states@.len() {
                self.states@[link_id as int].confidence(self.config)
            } else {
                Binary64::of_nat(1)
            },
    {
        if link_id < self.states.len() {
            self.states[link_id].probe_trust(&self.config)
        } else {
            Binary64::from_u64(1)
        }
    }

    /// Whether all links have phantom loss (cross-link correlation).
    pub fn all_links_phantom_loss(&self) -> (r: bool)
        ensures
            r == self.phantom_loss(),
    {
        if !self.config.tapa_enabled || !self.config.tapa_cross_link_check {
            return false;
        }
        let link_count: usize = self.states.len();
        if link_count < 2 {
            return false;
        }
        let ghost lossy = self.states@.map_values(|s: RateState| s.loss > self.config.loss_threshold);
        let ghost heavy = self.states@.map_values(
            |s: RateState| s.probe_confidence.less(Binary64::fraction(3, 10)),
        );
        let limit: Binary64 = Binary64::ratio(3, 10);
        let mut high_loss: usize = 0;
        let mut heavy_traffic: usize = 0;
        let mut i: usize = 0;
        proof {
            reveal(Seq::filter);
            assert(lossy.take(0) =~= Seq::<bool>::empty());
            assert(heavy.take(0) =~= Seq::<bool>::empty());
        }
        while i < self.states.len()
            invariant
                i <= self.states@.len(),
                high_loss <= i,
                heavy_traffic <= i,
                limit == Binary64::fraction(3, 10),
                lossy == self.states@.map_values(|s: RateState| s.loss > self.config.loss_threshold),
                heavy == self.states@.map_values(
                    |s: RateState| s.probe_confidence.less(Binary64::fraction(3, 10)),
                ),
                high_loss == lossy.take(i as int).filter(|flag: bool| flag).len(),
                heavy_traffic == heavy.take(i as int).filter(|flag: bool| flag).len(),
            decreases self.states.len() - i,
        {
            proof {
                reveal(Seq::filter);
                assert(lossy.take(i + 1).drop_last() =~= lossy.take(i as int));
                assert(heavy.take(i + 1).drop_last() =~= heavy.take(i as int));
            }
            if self.states[i].loss > self.config.loss_threshold {
                high_loss = high_loss + 1;
            }
            if self.states[i].probe_confidence.lt(limit) {
                heavy_traffic = heavy_traffic + 1;
            }
            i = i + 1;
        }
        proof {
            assert(lossy.take(i as int) =~= lossy);
            assert(heavy.take(i as int) =~= heavy);
        }
        high_loss as u128 * 5 > link_count as u128 * 4 && heavy_traffic as u128 * 5 > link_count as u128 * 4
    }

    /// Whether [`RateController::process_probe_at`] can process the probe.
    pub fn can_process_probe(&self, probe: &ProbePacket, held_us: u64, now: u64, recv_at: u64) -> (r: bool)
        requires
            self.wf(),
        ensures
            r == self.accepts(*probe, held_us, now, recv_at),
    {
        let link_id: usize = probe.link_id as usize;
        if link_id < self.states.len() {
            self.states[link_id].can_process(&self.config, probe, held_us, now, recv_at)
        } else {
            true
        }
    }

    /// Processes a probe that came in at `now`: the core algorithm.  `held_us`
    /// is how long the remote held the timestamp that it echoes.
    pub fn process_probe_at(&mut self, probe: &ProbePacket, held_us: u64, now: u64, recv_at: u64)
        requires
            old(self).wf(),
            old(self).accepts(*probe, held_us, now, recv_at),
        ensures
            final(self).wf(),
            final(self).config == old(self).config,
            final(self).states@ == old(self).after_probe(*probe, held_us, now, recv_at),
    {
        let link_id: usize = probe.link_id as usize;
        let suppress: bool = self.all_links_phantom_loss();
        if link_id < self.states.len() {
            let mut link: RateState = self.states[link_id];
            link.process(&self.config, probe, held_us, now, recv_at, suppress);
            self.states.set(link_id, link);
        }
    }

    /// Processes a probe that comes in now, by the wall clock.  Tells whether
    /// it could; a probe that exceeds the machine's integers is left alone.
    pub fn process_probe(&mut self, probe: &ProbePacket, held_us: u64, recv_at: u64) -> (r: bool)
        requires
            old(self).wf(),
        ensures
            final(self).wf(),
            final(self).config == old(self).config,
            exists|now: u64|
                #![trigger old(self).accepts(*probe, held_us, now, recv_at)]
                r == old(self).accepts(*probe, held_us, now, recv_at) && final(self).states@ == if r {
                    old(self).after_probe(*probe, held_us, now, recv_at)
                } else {
                    old(self).states@
                },
            probe.link_id >= old(self).states@.len() ==> r,
    {
        let now: u64 = now_micros();
        if self.can_process_probe(probe, held_us, now, recv_at) {
            self.process_probe_at(probe, held_us, now, recv_at);
            true
        } else {
            false
        }
    }

    /// Takes links down that no probe came in on for too long.
    pub fn check_timeouts(&mut self, now_ns: u64)
        requires
            old(self).wf(),
        ensures
            final(self).wf(),
            final(self).config == old(self).config,
            final(self).states@ == old(self).states@.map_values(
                |s: RateState| s.timed_out(old(self).config, now_ns),
            ),
    {
        let mut i: usize = 0;
        let ghost before = self.states@;
        while i < self.states.len()
            invariant
                i <= self.states@.len(),
                self.states@.len() == before.len(),
                self.wf(),
                self.config == old(self).config,
                forall|j: int| 0 <= j < i ==> self.states@[j] == before[j].timed_out(old(self).config, now_ns),
                forall|j: int| i <= j < before.len() ==> self.states@[j] == before[j],
            decreases before.len() - i,
        {
            let mut link: RateState = self.states[i];
            link.time_out(&self.config, now_ns);
            self.states.set(i, link);
            i = i + 1;
        }
        assert(self.states@ =~= before.map_values(|s: RateState| s.timed_out(old(self).config, now_ns)));
    }

    /// Human-readable status summary.
    pub fn status_summary(&self) -> (r: String)
        ensures
            r@ == "RateCtrl: "@ + join(self.states@.map_values(|s: RateState| s.status_text()), " "@),
    {
        let mut parts: Vec<String> = Vec::new();
        let ghost texts = self.states@.map_values(|s: RateState| s.status_text());
        let mut i: usize = 0;
        while i < self.states.len()
            invariant
                i <= self.states@.len(),
                texts == self.states@.map_values(|s: RateState| s.status_text()),
                parts@.len() == i,
                forall|j: int| 0 <= j < i ==> (#[trigger] parts@[j])@ == texts[j],
            decreases self.states.len() - i,
        {
            parts.push(self.states[i].status());
            i = i + 1;
        }
        assert(parts@.map_values(|p: String| p@) =~= texts);
        let mut r: String = String::from_str("RateCtrl: ");
        push_joined(&mut r, &parts, " ");
        r
    }

    /// Number of links.
    pub fn num_links(&self) -> (r: usize)
        ensures
            r == self.states@.len(),
    {
        self.states.len()
    }

    /// Current rate for a link (bytes/sec); zero for one that does not exist.
    pub fn rate(&self, link_id: usize) -> (r: u64)
        ensures
            r == if link_id < self.states@.len() {
                self.states@[link_id as int].tx_rate
            } else {
                0
            },
    {
        if link_id < self.states.len() {
            self.states[link_id].tx_rate
        } else {
            0
        }
    }

    /// State of a link; Down for one that does not exist.
    pub fn link_state(&self, link_id: usize) -> (r: PathState)
        ensures
            r == if link_id < self.states@.len() {
                self.states@[link_id as int].state
            } else {
                PathState::Down
            },
    {
        if link_id < self.states.len() {
            self.states[link_id].state
        } else {
            PathState::Down
        }
    }

    /// RTT of a link (microseconds); zero for one that does not exist.
    pub fn rtt_us(&self, link_id: usize) -> (r: u64)
        ensures
            r == if link_id < self.states@.len() {
                self.states@[link_id as int].srtt_us
            } else {
                0
            },
    {
        if link_id < self.states.len() {
            self.states[link_id].srtt_us
        } else {
            0
        }
    }

    /// Loss of a link (0-255); 255 for one that does not exist.
    pub fn loss(&self, link_id: usize) -> (r: u8)
        ensures
            r == if link_id < self.states@.len() {
                self.states@[link_id as int].loss
            } else {
                255
            },
    {
        if link_id < self.states.len() {
            self.states[link_id].loss
        } else {
            255
        }
    }
}

/// The scale's bounds are in order.
proof fn lemma_scale_range()
    ensures
        Binary64::fraction(2, 10).at_most(Binary64::of_nat(5)),
{
    lemma_fraction_order(2, 10, 5, 1);
    lemma_whole_fraction(5);
}

// ---------------------------------------------------------------------------
// Laws
// ---------------------------------------------------------------------------

/// A probe that arrives: the packet, how long the remote held the timestamp
/// it echoes, the wall clock, the instant, and whether loss is taken for a
/// phantom.
pub struct Arrival {
    pub probe: ProbePacket,
    pub held_us: u64,
    pub now: u64,
    pub recv_at: u64,
    pub suppress: bool,
}

impl RateState {
    /// The link once an arrival is processed.
    pub open spec fn after(self, config: RateControlConfig, a: Arrival) -> RateState {
        self.processed(config, a.probe, a.held_us, a.now, a.recv_at, a.suppress)
    }

    /// The link once all arrivals are processed, one after another.
    pub open spec fn after_all(self, config: RateControlConfig, arrivals: Seq<Arrival>) -> RateState
        decreases arrivals.len(),
    {
        if arrivals.len() == 0 {
            self
        } else {
            self.after_all(config, arrivals.drop_last()).after(config, arrivals.last())
        }
    }

    /// Whether the rate lies between floor and ceiling.
    pub open spec fn rate_in_range(self) -> bool {
        self.tx_min_rate <= self.tx_rate <= self.tx_max_rate
    }
}

/// No probe moves the rate out of its range, and the range itself never
/// changes: the floor holds whatever the loss (no death spiral).
pub proof fn law_rate_stays_in_range(s: RateState, config: RateControlConfig, a: Arrival)
    requires
        s.rate_in_range(),
        s.tx_min_rate <= s.tx_max_rate / 2,
    ensures
        s.after(config, a).rate_in_range(),
        s.after(config, a).tx_min_rate == s.tx_min_rate,
        s.after(config, a).tx_max_rate == s.tx_max_rate,
{
}

/// The same over any number of probes.
pub proof fn law_rate_stays_in_range_for_ever(s: RateState, config: RateControlConfig, arrivals: Seq<Arrival>)
    requires
        s.rate_in_range(),
        s.tx_min_rate <= s.tx_max_rate / 2,
    ensures
        s.after_all(config, arrivals).rate_in_range(),
        s.after_all(config, arrivals).tx_min_rate == s.tx_min_rate,
        s.after_all(config, arrivals).tx_max_rate == s.tx_max_rate,
    decreases arrivals.len(),
{
    if arrivals.len() > 0 {
        law_rate_stays_in_range_for_ever(s, config, arrivals.drop_last());
        law_rate_stays_in_range(s.after_all(config, arrivals.drop_last()), config, arrivals.last());
    }
}

/// A call on a rate controller.
pub enum ControllerCall {
    RecordTx { link_id: usize, bytes: usize },
    RecordRx { link_id: usize, bytes: usize },
    BuildProbes { now: u64 },
    ProcessProbe { probe: ProbePacket, held_us: u64, now: u64, recv_at: u64 },
    CheckTimeouts { now_ns: u64 },
}

impl RateController {
    /// Whether the controller is new, with the given ceilings.
    pub open spec fn is_new(self, rates: Seq<u64>, now_ns: u64) -> bool {
        self.states@ == Seq::new(
            rates.len(),
            |i: int| RateState::fresh(i as usize, rates[i], self.config.min_rate_fraction, now_ns),
        )
    }

    /// Whether a call leads from this controller to another one.
    pub open spec fn steps_to(self, call: ControllerCall, after: RateController) -> bool {
        &&& after.config == self.config
        &&& match call {
            ControllerCall::RecordTx { link_id, bytes } => {
                &&& self.has_room_for_tx(link_id, bytes)
                &&& after.states@ == self.after_tx(link_id, bytes)
            },
            ControllerCall::RecordRx { link_id, bytes } => {
                &&& self.has_room_for_rx(link_id, bytes)
                &&& after.states@ == self.after_rx(link_id, bytes)
            },
            ControllerCall::BuildProbes { now } => after.states@ == self.after_probes(now),
            ControllerCall::ProcessProbe { probe, held_us, now, recv_at } => after.states@ == if self.accepts(
                probe,
                held_us,
                now,
                recv_at,
            ) {
                self.after_probe(probe, held_us, now, recv_at)
            } else {
                self.states@
            },
            ControllerCall::CheckTimeouts { now_ns } => after.states@ == self.states@.map_values(
                |s: RateState| s.timed_out(self.config, now_ns),
            ),
        }
    }
}

/// Whether the calls lead from each controller to the next.
pub open spec fn controller_run(states: Seq<RateController>, calls: Seq<ControllerCall>) -> bool {
    &&& states.len() == calls.len() + 1
    &&& forall|k: int| #![trigger calls[k]] 0 <= k < calls.len() ==> states[k].steps_to(calls[k], states[k + 1])
}

proof fn lemma_range_kept(before: RateController, call: ControllerCall, after: RateController, i: int)
    requires
        before.steps_to(call, after),
        0 <= i < before.states@.len(),
        before.states@[i].rate_in_range(),
        before.states@[i].tx_min_rate <= before.states@[i].tx_max_rate / 2,
    ensures
        after.states@.len() == before.states@.len(),
        after.states@[i].rate_in_range(),
        after.states@[i].tx_min_rate == before.states@[i].tx_min_rate,
        after.states@[i].tx_max_rate == before.states@[i].tx_max_rate,
{
    if let ControllerCall::ProcessProbe { probe, held_us, now, recv_at } = call {
        law_rate_stays_in_range(
            before.states@[i],
            before.config,
            Arrival { probe, held_us, now, recv_at, suppress: before.phantom_loss() },
        );
    }
}

/// Over any run of calls every link keeps its rate between its floor and its
/// ceiling, provided that the floor is at most half the ceiling: records,
/// probes built and processed, and timeouts may come in any order.
pub proof fn law_rate_stays_in_range_over_runs(
    states: Seq<RateController>,
    calls: Seq<ControllerCall>,
    rates: Seq<u64>,
    start_ns: u64,
    k: nat,
    i: int,
)
    requires
        states.len() > 0,
        states[0].is_new(rates, start_ns),
        controller_run(states, calls),
        k <= calls.len(),
        0 <= i < rates.len(),
        states[0].states@[i].tx_min_rate <= rates[i] / 2,
    ensures
        states[k as int].states@.len() == rates.len(),
        states[k as int].states@[i].rate_in_range(),
        states[k as int].states@[i].tx_min_rate == states[0].states@[i].tx_min_rate,
        states[k as int].states@[i].tx_max_rate == rates[i],
    decreases k,
{
    if k > 0 {
        let p = (k - 1) as nat;
        law_rate_stays_in_range_over_runs(states, calls, rates, start_ns, p, i);
        assert(states[p as int].steps_to(calls[p as int], states[k as int]));
        lemma_range_kept(states[p as int], calls[p as int], states[k as int], i);
    }
}

/// With the floor at one tenth, as configured by default, no run of calls lets
/// a rate sink below a tenth of the ceiling or 100 Kbps, or rise above the
/// ceiling; a link weighs nothing if and only if it is down or probing, and
/// its rate in Mbps, at least one, otherwise.
pub proof fn law_no_death_spiral(
    states: Seq<RateController>,
    calls: Seq<ControllerCall>,
    rates: Seq<u64>,
    start_ns: u64,
    k: nat,
    i: int,
)
    requires
        states.len() > 0,
        states[0].config.min_rate_fraction == Binary64::fraction(10, 100),
        states[0].is_new(rates, start_ns),
        controller_run(states, calls),
        k <= calls.len(),
        0 <= i < rates.len(),
        2 * MIN_RATE_STEP <= rates[i] < 0x1_0000_0000 * 125_000,
    ensures
        ({
            let s = states[k as int].states@[i];
            &&& larger((rates[i] / 10) as nat, MIN_RATE_STEP as nat) <= s.tx_rate <= rates[i]
            &&& s.weight_of() == 0 <==> s.state is Down || s.state is Probing
            &&& s.weight_of() > 0 ==> s.weight_of() == larger((s.tx_rate / 125_000) as nat, 1)
        }),
{
    lemma_tenth_of_integer(rates[i] as nat);
    law_rate_stays_in_range_over_runs(states, calls, rates, start_ns, k, i);
}

/// The sizes sent on a link since the last probe, after a call.
pub open spec fn sent_with(sent: Seq<u64>, call: ControllerCall, i: int) -> Seq<u64> {
    match call {
        ControllerCall::RecordTx { link_id, bytes } if link_id == i => sent.push(bytes as u64),
        ControllerCall::BuildProbes { .. } => Seq::empty(),
        _ => sent,
    }
}

/// The sizes received on a link since the last probe, after a call.
pub open spec fn received_with(received: Seq<u64>, call: ControllerCall, i: int) -> Seq<u64> {
    match call {
        ControllerCall::RecordRx { link_id, bytes } if link_id == i => received.push(bytes as u64),
        ControllerCall::BuildProbes { .. } => Seq::empty(),
        _ => received,
    }
}

/// The sizes recorded as sent on a link by the first `k` calls, since the last
/// of them that built probes.
pub open spec fn sent_since_probe(calls: Seq<ControllerCall>, k: nat, i: int) -> Seq<u64>
    decreases k,
{
    if k == 0 {
        Seq::empty()
    } else {
        sent_with(sent_since_probe(calls, (k - 1) as nat, i), calls[k - 1], i)
    }
}

/// The sizes recorded as received on a link by the first `k` calls, since the
/// last of them that built probes.
pub open spec fn received_since_probe(calls: Seq<ControllerCall>, k: nat, i: int) -> Seq<u64>
    decreases k,
{
    if k == 0 {
        Seq::empty()
    } else {
        received_with(received_since_probe(calls, (k - 1) as nat, i), calls[k - 1], i)
    }
}

/// How many of the first `k` calls built probes.
pub open spec fn builds(calls: Seq<ControllerCall>, k: nat) -> nat
    decreases k,
{
    if k == 0 {
        0
    } else {
        builds(calls, (k - 1) as nat) + if calls[k - 1] is BuildProbes {
            1nat
        } else {
            0
        }
    }
}

impl RateState {
    /// Whether the link counts the given sizes as sent and received since the
    /// last probe, after a number of probes.
    pub open spec fn counts_since_probe(self, i: int, sent: Seq<u64>, received: Seq<u64>, probes: nat) -> bool {
        &&& self.link_id == i
        &&& self.total_tx_bytes == self.last_probe_tx_bytes + total(sent)
        &&& self.total_tx_packets == self.last_probe_tx_packets + sent.len()
        &&& self.total_rx_bytes == self.last_probe_rx_bytes + total(received)
        &&& self.total_rx_packets == self.last_probe_rx_packets + received.len()
        &&& self.probe_seq == probes % 0x1_0000_0000
    }

    /// Whether the counters that probes are built from are the same.
    pub open spec fn same_counters(self, other: RateState) -> bool {
        &&& self.link_id == other.link_id
        &&& self.total_tx_bytes == other.total_tx_bytes
        &&& self.total_tx_packets == other.total_tx_packets
        &&& self.total_rx_bytes == other.total_rx_bytes
        &&& self.total_rx_packets == other.total_rx_packets
        &&& self.last_probe_tx_bytes == other.last_probe_tx_bytes
        &&& self.last_probe_tx_packets == other.last_probe_tx_packets
        &&& self.last_probe_rx_bytes == other.last_probe_rx_bytes
        &&& self.last_probe_rx_packets == other.last_probe_rx_packets
        &&& self.probe_seq == other.probe_seq
    }
}

proof fn lemma_processing_keeps_counters(s: RateState, config: RateControlConfig, a: Arrival)
    ensures
        s.after(config, a).same_counters(s),
{
}

proof fn lemma_probe_keeps_counters(
    before: RateController,
    after: RateController,
    a: Arrival,
    i: int,
)
    requires
        a.suppress == before.phantom_loss(),
        after.states@ == before.states@ || after.states@ == before.after_probe(a.probe, a.held_us, a.now, a.recv_at),
        0 <= i < before.states@.len(),
    ensures
        after.states@.len() == before.states@.len(),
        after.states@[i].same_counters(before.states@[i]),
{
    lemma_processing_keeps_counters(before.states@[i], before.config, a);
    assert(after.states@[i] == before.states@[i] || after.states@[i] == before.states@[i].after(before.config, a));
}

proof fn lemma_step_counts(
    before: RateController,
    call: ControllerCall,
    after: RateController,
    i: int,
    sent: Seq<u64>,
    received: Seq<u64>,
    probes: nat,
)
    requires
        before.steps_to(call, after),
        0 <= i < before.states@.len(),
        before.states@[i].counts_since_probe(i, sent, received, probes),
    ensures
        after.states@.len() == before.states@.len(),
        after.states@[i].counts_since_probe(
            i,
            sent_with(sent, call, i),
            received_with(received, call, i),
            probes + if call is BuildProbes {
                1nat
            } else {
                0
            },
        ),
{
    let s = before.states@[i];
    match call {
        ControllerCall::RecordTx { link_id, bytes } => {
            assert(sent.push(bytes as u64).drop_last() =~= sent);
        },
        ControllerCall::RecordRx { link_id, bytes } => {
            assert(received.push(bytes as u64).drop_last() =~= received);
        },
        ControllerCall::BuildProbes { now } => {
            assert(after.states@[i] == s.probed_at(now));
        },
        ControllerCall::ProcessProbe { probe, held_us, now, recv_at } => {
            let a = Arrival { probe, held_us, now, recv_at, suppress: before.phantom_loss() };
            lemma_probe_keeps_counters(before, after, a, i);
        },
        ControllerCall::CheckTimeouts { now_ns } => {
            assert(after.states@[i] == s.timed_out(before.config, now_ns));
        },
    }
}

proof fn lemma_run_counts(
    states: Seq<RateController>,
    calls: Seq<ControllerCall>,
    rates: Seq<u64>,
    start_ns: u64,
    k: nat,
    i: int,
)
    requires
        states.len() > 0,
        states[0].is_new(rates, start_ns),
        controller_run(states, calls),
        k <= calls.len(),
        0 <= i < rates.len() <= usize::MAX,
    ensures
        states[k as int].states@.len() == rates.len(),
        states[k as int].states@[i].counts_since_probe(
            i,
            sent_since_probe(calls, k, i),
            received_since_probe(calls, k, i),
            builds(calls, k),
        ),
    decreases k,
{
    if k > 0 {
        let p = (k - 1) as nat;
        lemma_run_counts(states, calls, rates, start_ns, p, i);
        assert(states[p as int].steps_to(calls[p as int], states[k as int]));
        lemma_step_counts(
            states[p as int],
            calls[p as int],
            states[k as int],
            i,
            sent_since_probe(calls, p, i),
            received_since_probe(calls, p, i),
            builds(calls, p),
        );
    }
}

proof fn lemma_probe_of_counts(s: RateState, i: int, sent: Seq<u64>, received: Seq<u64>, probes: nat, now: u64)
    requires
        s.counts_since_probe(i, sent, received, probes),
        0 <= i < 256,
        sent.len() < 0x1_0000_0000,
        received.len() < 0x1_0000_0000,
    ensures
        s.probe_at(now).link_id == i,
        s.probe_at(now).seq == (probes + 1) % 0x1_0000_0000,
        s.probe_at(now).tx_bytes == total(sent),
        s.probe_at(now).tx_packets == sent.len(),
        s.probe_at(now).rx_bytes == total(received),
        s.probe_at(now).rx_packets == received.len(),
{
}

/// Whatever was called before, building probes gives one for every link in its
/// place, down or not: numbered on from the link's last probe, and reporting
/// exactly what was recorded on the link since then, its loss and its state.
pub proof fn law_probes_report_what_was_recorded(
    states: Seq<RateController>,
    calls: Seq<ControllerCall>,
    rates: Seq<u64>,
    start_ns: u64,
    k: nat,
    now: u64,
    i: int,
)
    requires
        states.len() > 0,
        states[0].is_new(rates, start_ns),
        controller_run(states, calls),
        k <= calls.len(),
        0 <= i < rates.len() <= 256,
        sent_since_probe(calls, k, i).len() < 0x1_0000_0000,
        received_since_probe(calls, k, i).len() < 0x1_0000_0000,
    ensures
        states[k as int].probes_at(now).len() == rates.len(),
        ({
            let p = states[k as int].probes_at(now)[i];
            &&& p.link_id == i
            &&& p.seq == (builds(calls, k) + 1) % 0x1_0000_0000
            &&& p.timestamp_us == now
            &&& p.tx_bytes == total(sent_since_probe(calls, k, i))
            &&& p.tx_packets == sent_since_probe(calls, k, i).len()
            &&& p.rx_bytes == total(received_since_probe(calls, k, i))
            &&& p.rx_packets == received_since_probe(calls, k, i).len()
            &&& p.loss_ratio == states[k as int].states@[i].loss
            &&& p.path_state == states[k as int].states@[i].state
        }),
{
    lemma_run_counts(states, calls, rates, start_ns, k, i);
    let s = states[k as int].states@[i];
    lemma_probe_of_counts(
        s,
        i,
        sent_since_probe(calls, k, i),
        received_since_probe(calls, k, i),
        builds(calls, k),
        now,
    );
    assert(states[k as int].probes_at(now)[i] == s.probe_at(now));
}

/// The floor of a new link is never zero.
pub proof fn law_floor_is_positive(link_id: usize, max_rate: u64, fraction: Binary64, now_ns: u64)
    ensures
        RateState::fresh(link_id, max_rate, fraction, now_ns).tx_min_rate >= MIN_RATE_STEP,
{
}

/// In service, one probe changes the rate by at most one step: the configured
/// fraction of the rate, or 100 Kbps where that is more.
pub proof fn law_rate_change_is_capped(s: RateState, config: RateControlConfig, a: Arrival)
    requires
        s.rate_in_range(),
        s.state is Running || s.state is Lossy,
    ensures
        s.after(config, a).tx_rate <= s.tx_rate + s.step(config),
        s.tx_rate <= s.after(config, a).tx_rate + s.step(config),
{
}

/// While probes are trusted and the remote keeps up, the rate does not sink.
pub proof fn law_healthy_link_does_not_slow(s: RateState, config: RateControlConfig, a: Arrival)
    requires
        s.rate_in_range(),
        s.state is Running || s.state is Lossy,
        RateState::trusts(config, s.confidence(config)),
        !s.congested(config, a.probe.rx_bytes),
    ensures
        s.after(config, a).tx_rate >= s.tx_rate,
{
}

/// A link that is down or probing gets no traffic; one in service always gets
/// some.
pub proof fn law_weight_follows_state(s: RateState)
    requires
        s.tx_rate < 0x1_0000_0000 * 125_000,
    ensures
        s.weight_of() == 0 <==> s.state is Down || s.state is Probing,
{
}

/// Links that are down are probed like any other.
pub proof fn law_every_link_is_probed(c: RateController, now: u64, i: int)
    requires
        0 <= i < c.states@.len(),
    ensures
        c.probes_at(now).len() == c.states@.len(),
        c.probes_at(now)[i] == c.states@[i].probe_at(now),
        c.probes_at(now)[i].path_state == c.states@[i].state,
{
}

/// What a probe reports is what happened since the last one: building a
/// second probe at once reports nothing.
pub proof fn law_probe_reports_once(s: RateState, now: u64, later: u64)
    requires
        s.wf(),
    ensures
        s.probed_at(now).probe_at(later).tx_bytes == 0,
        s.probed_at(now).probe_at(later).tx_packets == 0,
        s.probed_at(now).probe_at(later).rx_bytes == 0,
        s.probed_at(now).probe_at(later).rx_packets == 0,
{
}

/// Any probe that arrives on a link that is down starts its recovery.
pub proof fn law_probe_starts_recovery(s: RateState, config: RateControlConfig, a: Arrival)
    requires
        s.state is Down,
    ensures
        s.after(config, a).state is Probing,
        !(s.phantom_down() && config.tapa_enabled) ==> s.after(config, a).recovery_count == 1 && s.after(
            config,
            a,
        ).tx_rate == s.tx_min_rate,
        s.phantom_down() && config.tapa_enabled ==> s.after(config, a).recovery_count == monus(
            config.probe_recovery_count as nat,
            1,
        ) && s.after(config, a).tx_rate == s.tx_max_rate / 2,
{
}

/// A link that is down recovers when the configured number of probes, and at
/// least two, has arrived, and not before.
pub proof fn law_recovery_takes_its_probes(s: RateState, config: RateControlConfig, arrivals: Seq<Arrival>)
    requires
        s.state is Down,
        !(s.phantom_down() && config.tapa_enabled),
        0 < arrivals.len() <= larger(config.probe_recovery_count as nat, 2),
    ensures
        arrivals.len() < larger(config.probe_recovery_count as nat, 2) ==> s.after_all(config, arrivals).state
            is Probing,
        arrivals.len() == larger(config.probe_recovery_count as nat, 2) ==> s.after_all(config, arrivals).state
            is Running,
        s.after_all(config, arrivals).recovery_count == arrivals.len(),
    decreases arrivals.len(),
{
    let before = arrivals.drop_last();
    if before.len() == 0 {
        assert(s.after_all(config, before) == s);
        law_probe_starts_recovery(s, config, arrivals.last());
    } else {
        law_recovery_takes_its_probes(s, config, before);
    }
}

/// A phantom failure is overcome by two probes.
pub proof fn law_phantom_recovers_in_two(s: RateState, config: RateControlConfig, first: Arrival, second: Arrival)
    requires
        s.state is Down,
        s.phantom_down(),
        config.tapa_enabled,
    ensures
        s.after(config, first).state is Probing,
        s.after(config, first).after(config, second).state is Running,
{
}

/// Loss is judged per direction: what is counted of one direction says
/// nothing about the other, and nothing is judged before enough packets were
/// counted.
pub proof fn law_loss_is_directional(s: RateState, t: RateState, config: RateControlConfig)
    ensures
        s.send_tx_acc == t.send_tx_acc && s.send_rx_acc == t.send_rx_acc && s.send_loss == t.send_loss ==> s.judged(
            config,
        ).send_loss == t.judged(config).send_loss,
        s.recv_tx_acc == t.recv_tx_acc && s.recv_rx_acc == t.recv_rx_acc && s.recv_loss == t.recv_loss ==> s.judged(
            config,
        ).recv_loss == t.judged(config).recv_loss,
        s.send_tx_acc <= config.loss_min_packets ==> s.judged(config).send_loss == s.send_loss,
        s.recv_tx_acc <= config.loss_min_packets ==> s.judged(config).recv_loss == s.recv_loss,
{
}

/// Where everything counted as sent arrived, no loss is judged, however
/// uneven the traffic of the two directions is.
pub proof fn law_asymmetric_traffic_is_no_loss(s: RateState, config: RateControlConfig)
    requires
        s.send_loss == 0,
        s.recv_loss == 0,
        s.send_tx_acc <= s.send_rx_acc,
        s.recv_tx_acc <= s.recv_rx_acc,
    ensures
        s.judged(config).loss == 0,
{
}

/// Old problems fade: once loss is judged, a sixteenth of what was counted is
/// forgotten, so the counts shrink unless new packets come in.
pub proof fn law_counts_fade(s: RateState, config: RateControlConfig)
    ensures
        s.judged(config).send_tx_acc <= s.send_tx_acc,
        s.judged(config).recv_tx_acc <= s.recv_tx_acc,
        s.send_tx_acc > config.loss_min_packets ==> s.judged(config).send_tx_acc == s.send_tx_acc - s.send_tx_acc / 16
            && s.judged(config).send_rx_acc == s.send_rx_acc - s.send_rx_acc / 16,
        s.recv_tx_acc > config.loss_min_packets ==> s.judged(config).recv_tx_acc == s.recv_tx_acc - s.recv_tx_acc / 16
            && s.judged(config).recv_rx_acc == s.recv_rx_acc - s.recv_rx_acc / 16,
        s.send_tx_acc > config.loss_min_packets && s.send_tx_acc >= 16 ==> s.judged(config).send_tx_acc
            < s.send_tx_acc,
        s.recv_tx_acc > config.loss_min_packets && s.recv_tx_acc >= 16 ==> s.judged(config).recv_tx_acc
            < s.recv_tx_acc,
{
}

/// A trusted probe that tells of congestion slows a link above its floor that
/// sends faster than what the probe calls for.
pub proof fn law_congestion_slows(s: RateState, config: RateControlConfig, remote_rx_bytes: u64, confidence: Binary64)
    requires
        RateState::trusts(config, confidence),
        s.congested(config, remote_rx_bytes),
        s.tx_min_rate < s.tx_rate <= s.tx_max_rate,
        scaled(s.rates(config, remote_rx_bytes).1, config.congestion_reduction) < s.tx_rate,
    ensures
        s.paced(config, remote_rx_bytes, confidence).tx_rate < s.tx_rate,
        s.paced(config, remote_rx_bytes, confidence).tx_rate >= s.tx_min_rate,
{
}

/// While loss is taken for a phantom, no link leaves service.
pub proof fn law_phantom_loss_takes_nothing_down(s: RateState, config: RateControlConfig, a: Arrival)
    requires
        a.suppress,
        s.state is Running || s.state is Lossy,
    ensures
        s.after(config, a).state is Running || s.after(config, a).state is Lossy,
        s.state is Running ==> s.after(config, a).state is Running,
{
}

/// Probes of an idle link are fully trusted, those of a heavily loaded one as
/// little as configured; with TAPA off all are.
pub proof fn law_confidence_follows_load(s: RateState, config: RateControlConfig)
    ensures
        !config.tapa_enabled ==> s.confidence(config) == Binary64::of_nat(1),
        s.load((config.probe_interval_ms * 1000) as nat).at_most(config.tapa_idle_threshold) ==> s.confidence(config)
            == Binary64::of_nat(1),
        ({
            &&& config.tapa_enabled
            &&& config.tapa_heavy_threshold.at_most(s.load((config.probe_interval_ms * 1000) as nat))
            &&& !s.load((config.probe_interval_ms * 1000) as nat).at_most(config.tapa_idle_threshold)
        }) ==> s.confidence(config) == config.tapa_min_confidence,
{
}

/// A probe on one link leaves all others as they were.
pub proof fn law_links_are_independent(
    c: RateController,
    probe: ProbePacket,
    held_us: u64,
    now: u64,
    recv_at: u64,
    i: int,
)
    requires
        0 <= i < c.states@.len(),
        i != probe.link_id,
    ensures
        c.after_probe(probe, held_us, now, recv_at)[i] == c.states@[i],
        c.after_probe(probe, held_us, now, recv_at).len() == c.states@.len(),
{
}

/// Once a link was silent for longer than the timeout it is down, at that and
/// every later instant.
pub proof fn law_silent_link_is_down(s: RateState, config: RateControlConfig, now_ns: u64)
    requires
        now_ns - s.last_probe_recv > config.down_timeout_ms * 1_000_000,
    ensures
        s.timed_out(config, now_ns).state is Down,
        s.timed_out(config, now_ns).weight_of() == 0,
{
}

// ---------------------------------------------------------------------------
// What a probe does, in numbers
// ---------------------------------------------------------------------------

/// The loss judged from a probe decides the state of a link in service: above
/// the threshold for Down it is taken down, above that for Lossy alone it is
/// lossy, and otherwise it runs.  While probes are trusted less than half, the
/// threshold for Down moves half way up to total loss, and that for Lossy is
/// multiplied, up to 200.
pub proof fn law_loss_decides_the_state(c: RateController, probe: ProbePacket, held_us: u64, now: u64, recv_at: u64)
    requires
        probe.link_id < c.states@.len(),
        c.states@[probe.link_id as int].state is Running || c.states@[probe.link_id as int].state is Lossy,
        !c.phantom_loss(),
    ensures
        ({
            let config = c.config;
            let before = c.states@[probe.link_id as int];
            let after = c.after_probe(probe, held_us, now, recv_at)[probe.link_id as int];
            let wary = config.tapa_enabled && after.probe_confidence.less(Binary64::fraction(5, 10));
            let lossy = if wary {
                if config.loss_threshold * config.tapa_loss_threshold_multiplier < 200 {
                    config.loss_threshold * config.tapa_loss_threshold_multiplier
                } else {
                    200
                }
            } else {
                config.loss_threshold as int
            };
            let down = if wary {
                config.loss_down_threshold + (255 - config.loss_down_threshold) / 2
            } else {
                config.loss_down_threshold as int
            };
            &&& after.state is Down <==> after.loss > down
            &&& after.loss <= down ==> (after.state is Lossy <==> after.loss > lossy)
            &&& after.loss <= down ==> (after.state is Running <==> after.loss <= lossy)
            &&& after.state is Down ==> after.recovery_count == 0 && after.entered_down_confidence
                == after.probe_confidence && after.weight_of() == 0
            &&& after.state !is Down ==> after.recovery_count == before.recovery_count
        }),
{
}

/// While loss is taken for a phantom a running link runs on, whatever its
/// loss, and a lossy one runs again once its loss is back at the plain
/// threshold.
pub proof fn law_phantom_loss_is_overlooked(c: RateController, probe: ProbePacket, held_us: u64, now: u64, recv_at: u64)
    requires
        probe.link_id < c.states@.len(),
        c.phantom_loss(),
    ensures
        ({
            let before = c.states@[probe.link_id as int];
            let after = c.after_probe(probe, held_us, now, recv_at)[probe.link_id as int];
            &&& before.state is Running ==> after.state is Running
            &&& before.state is Lossy ==> after.state == if after.loss <= c.config.loss_threshold {
                PathState::Running
            } else {
                PathState::Lossy
            }
        }),
{
}

/// Loss is taken for a phantom if and only if more than four links in five
/// show loss while more than four in five carry so much traffic that probes
/// are trusted less than three tenths; TAPA and its cross-link check must be
/// on, and there must be two links at least.
pub proof fn law_phantom_takes_four_in_five(c: RateController)
    ensures
        ({
            let n = c.states@.len();
            let lossy = c.states@.filter(|s: RateState| s.loss > c.config.loss_threshold).len();
            let heavy = c.states@.filter(|s: RateState| s.probe_confidence.less(Binary64::fraction(3, 10))).len();
            c.phantom_loss() <==> c.config.tapa_enabled && c.config.tapa_cross_link_check && n >= 2 && 5 * lossy > 4 * n
                && 5 * heavy > 4 * n
        }),
{
    lemma_flags(c.states@, |s: RateState| s.loss > c.config.loss_threshold);
    lemma_flags(c.states@, |s: RateState| s.probe_confidence.less(Binary64::fraction(3, 10)));
    assert(c.states@.map_values(|s: RateState| s.loss > c.config.loss_threshold) =~= c.states@.map_values(
        |s: RateState| (|s: RateState| s.loss > c.config.loss_threshold)(s),
    ));
    assert(c.states@.map_values(|s: RateState| s.probe_confidence.less(Binary64::fraction(3, 10)))
        =~= c.states@.map_values(
        |s: RateState| (|s: RateState| s.probe_confidence.less(Binary64::fraction(3, 10)))(s),
    ));
}

proof fn lemma_flags(states: Seq<RateState>, flag: spec_fn(RateState) -> bool)
    ensures
        states.map_values(|s: RateState| flag(s)).filter(|f: bool| f).len() == states.filter(flag).len(),
    decreases states.len(),
{
    reveal(Seq::filter);
    if states.len() > 0 {
        lemma_flags(states.drop_last(), flag);
        assert(states.map_values(|s: RateState| flag(s)).drop_last() =~= states.drop_last().map_values(
            |s: RateState| flag(s),
        ));
    }
}

/// The first echo gives the round-trip time, without the time that the remote
/// held it, and half of it as variance; a probe that echoes nothing, or
/// something from the future, changes neither.
pub proof fn law_first_echo_gives_the_rtt(s: RateState, config: RateControlConfig, a: Arrival)
    ensures
        ({
            let after = s.after(config, a);
            let echo = a.probe.echo_timestamp_us;
            let rtt = if a.now - echo >= a.held_us {
                a.now - echo - a.held_us
            } else {
                0
            };
            &&& echo == 0 || a.now <= echo ==> after.srtt_us == s.srtt_us && after.rtt_var_us == s.rtt_var_us
            &&& 0 < echo < a.now && s.srtt_us == 0 ==> after.srtt_us == rtt && after.rtt_var_us == rtt / 2
        }),
{
}

/// Later echoes move the round-trip time: it is the mean of the old one and
/// the new one with the configured weight on the new one, and the variance is
/// such a mean of the old one and the distance from the mean.
pub proof fn law_later_echoes_are_averaged(
    s: RateState,
    config: RateControlConfig,
    a: Arrival,
    p: nat,
    q: nat,
    vp: nat,
    vq: nat,
)
    requires
        config.rtt_ewma_alpha == Binary64::fraction(p, q),
        config.rtt_var_alpha == Binary64::fraction(vp, vq),
        p <= q,
        0 < q <= 100,
        vp <= vq,
        0 < vq <= 100,
        0 < a.probe.echo_timestamp_us,
        a.probe.echo_timestamp_us + a.held_us <= a.now,
        a.probe.echo_timestamp_us < a.now,
        0 < s.srtt_us < 0x100_0000_0000,
        s.rtt_var_us < 0x100_0000_0000,
        a.now - a.probe.echo_timestamp_us - a.held_us < 0x80_0000_0000,
    ensures
        ({
            let after = s.after(config, a);
            let rtt = a.now - a.probe.echo_timestamp_us - a.held_us;
            let off = if rtt > after.srtt_us {
                rtt - after.srtt_us
            } else {
                after.srtt_us - rtt
            };
            &&& q * after.srtt_us <= p * rtt + (q - p) * s.srtt_us <= q * (after.srtt_us + 1)
            &&& vq * after.rtt_var_us <= vp * off + (vq - vp) * s.rtt_var_us <= vq * (after.rtt_var_us + 1)
        }),
{
    let rtt = (a.now - a.probe.echo_timestamp_us - a.held_us) as nat;
    lemma_mean_is_close(p, q, rtt, s.srtt_us as nat);
    let after = s.after(config, a);
    let srtt = blended(config.rtt_ewma_alpha, rtt as u64, s.srtt_us);
    assert(after.srtt_us == srtt);
    assert(srtt < 0x100_0000_0000) by (nonlinear_arith)
        requires
            q * srtt <= p * rtt + (q - p) * s.srtt_us,
            rtt < 0x100_0000_0000,
            s.srtt_us < 0x100_0000_0000,
            p <= q,
            0 < q,
    {
        assert(p * rtt <= p * (0x100_0000_0000 - 1));
        assert((q - p) * s.srtt_us <= (q - p) * (0x100_0000_0000 - 1));
        assert(p * (0x100_0000_0000 - 1) + (q - p) * (0x100_0000_0000 - 1) == q * (0x100_0000_0000 - 1));
    }
    let off = (if rtt > srtt {
        rtt - srtt
    } else {
        srtt - rtt
    }) as nat;
    lemma_mean_is_close(vp, vq, off, s.rtt_var_us as nat);
}

/// A probe is remembered: the timeout starts anew, and the next probe built
/// echoes its timestamp and tells the loss and the state that came of it.
pub proof fn law_next_probe_answers(s: RateState, config: RateControlConfig, a: Arrival, later: u64)
    ensures
        s.after(config, a).last_probe_recv == a.recv_at,
        s.after(config, a).probe_at(later).echo_timestamp_us == a.probe.timestamp_us,
        s.after(config, a).probe_at(later).timestamp_us == later,
        s.after(config, a).probe_at(later).loss_ratio == s.after(config, a).loss,
        s.after(config, a).probe_at(later).path_state == s.after(config, a).state,
        s.after(config, a).prev_probe_confidence == s.probe_confidence,
        s.after(config, a).total_tx_packets == s.total_tx_packets,
        s.after(config, a).total_rx_packets == s.total_rx_packets,
        s.after(config, a).total_tx_bytes == s.total_tx_bytes,
        s.after(config, a).total_rx_bytes == s.total_rx_bytes,
{
}

/// A link that was silent no longer than the timeout stays as it is.
pub proof fn law_heard_link_stays(s: RateState, config: RateControlConfig, now_ns: u64)
    requires
        now_ns - s.last_probe_recv <= config.down_timeout_ms * 1_000_000,
    ensures
        s.timed_out(config, now_ns) == s,
{
}

/// Recovery from a failure under little traffic starts at the floor and keeps
/// to it; one from a failure under heavy traffic starts at half the ceiling,
/// one probe short of done, and keeps its rate.
pub proof fn law_recovery_rate(s: RateState, config: RateControlConfig, a: Arrival)
    requires
        !s.entered_down_confidence.nan(),
    ensures
        ({
            let after = s.after(config, a);
            let heavy = s.entered_down_confidence.less(Binary64::fraction(3, 10));
            &&& s.state is Down && !(heavy && config.tapa_enabled) ==> after.state is Probing && after.recovery_count == 1
                && after.tx_rate == s.tx_min_rate
            &&& s.state is Down && heavy && config.tapa_enabled ==> after.state is Probing && after.tx_rate
                == s.tx_max_rate / 2 && after.recovery_count == if config.probe_recovery_count > 0 {
                config.probe_recovery_count - 1
            } else {
                0
            }
            &&& s.state is Probing && s.recovery_count < u32::MAX ==> {
                &&& after.recovery_count == s.recovery_count + 1
                &&& after.state is Running <==> s.recovery_count + 1 >= config.probe_recovery_count
                &&& after.state is Probing <==> s.recovery_count + 1 < config.probe_recovery_count
                &&& after.state is Running && !heavy ==> after.tx_rate == s.tx_min_rate
            }
        }),
{
    reveal(Binary64::less);
    reveal(Binary64::at_most);
    crate::binary64::lemma_fraction(3, 10);
}

// --- trust ---

/// The busier direction's bytes per second since the last probe built.
pub open spec fn busier(s: RateState, interval_ms: nat) -> nat {
    let bytes = if s.tx_bytes_since_probe() >= s.rx_bytes_since_probe() {
        s.tx_bytes_since_probe()
    } else {
        s.rx_bytes_since_probe()
    };
    bytes * 1_000_000 / (interval_ms * 1000)
}

proof fn lemma_load(s: RateState, interval_ms: nat)
    requires
        interval_ms > 0,
        0 < s.tx_max_rate < 0x20_0000_0000_0000,
        busier(s, interval_ms) < 0x20_0000_0000_0000,
    ensures
        s.load(interval_ms * 1000) == Binary64::fraction(busier(s, interval_ms), s.tx_max_rate as nat),
{
}

/// With TAPA on, probes are fully trusted while the busier direction carries
/// at most the idle share of the ceiling, and least from the heavy share on.
pub proof fn law_trust_by_share(s: RateState, config: RateControlConfig, a: Arrival, p: nat, q: nat, hp: nat, hq: nat)
    requires
        s.wf(),
        config.tapa_enabled,
        config.probe_interval_ms > 0,
        0 < s.tx_max_rate < 0x20_0000_0000_0000,
        config.tapa_idle_threshold == Binary64::fraction(p, q),
        config.tapa_heavy_threshold == Binary64::fraction(hp, hq),
        p <= 1000,
        0 < q <= 1000,
        hp <= 1000,
        0 < hq <= 1000,
        p * hq < hp * q,
        s.total_tx_bytes - s.last_probe_tx_bytes < 0x8_0000_0000,
        s.total_rx_bytes - s.last_probe_rx_bytes < 0x8_0000_0000,
    ensures
        ({
            let tx = s.total_tx_bytes - s.last_probe_tx_bytes;
            let rx = s.total_rx_bytes - s.last_probe_rx_bytes;
            let busy = (if tx >= rx {
                tx
            } else {
                rx
            }) * 1_000_000 / (config.probe_interval_ms * 1000);
            let trust = s.after(config, a).probe_confidence;
            &&& busy * q <= p * s.tx_max_rate ==> trust == Binary64::of_nat(1)
            &&& busy * hq >= hp * s.tx_max_rate ==> trust == config.tapa_min_confidence
        }),
{
    let busy = busier(s, config.probe_interval_ms as nat);
    let m = s.tx_max_rate as nat;
    let interval = (config.probe_interval_ms * 1000) as nat;
    let bytes = if s.tx_bytes_since_probe() >= s.rx_bytes_since_probe() {
        s.tx_bytes_since_probe()
    } else {
        s.rx_bytes_since_probe()
    };
    assert(busy <= bytes * 1000) by (nonlinear_arith)
        requires
            busy == bytes * 1_000_000 / interval,
            interval >= 1000,
            bytes >= 0,
    {
        assert(interval * busy <= bytes * 1_000_000);
        assert(1000 * busy <= interval * busy);
    }
    lemma_load(s, config.probe_interval_ms as nat);
    if busy * q <= p * m {
        lemma_fraction_order(busy, m, p, q);
    }
    if busy * hq >= hp * m {
        lemma_fraction_order(hp, hq, busy, m);
        lemma_fractions_apart(p, q, hp, hq);
        reveal(Binary64::at_most);
    }
}

/// Between idle and heavy, more traffic never means more trust.
pub proof fn law_trust_falls_with_load(s: RateState, t: RateState, config: RateControlConfig)
    requires
        config.tapa_enabled,
        config.probe_interval_ms > 0,
        s.tx_max_rate == t.tx_max_rate,
        0 < s.tx_max_rate < 0x20_0000_0000_0000,
        busier(s, config.probe_interval_ms as nat) <= busier(t, config.probe_interval_ms as nat),
        busier(t, config.probe_interval_ms as nat) < 0x20_0000_0000_0000,
        config.tapa_idle_threshold.finite(),
        config.tapa_heavy_threshold.finite(),
        config.tapa_min_confidence.finite(),
        !config.tapa_idle_threshold.negative(),
        config.tapa_min_confidence.at_most(Binary64::of_nat(1)),
        config.tapa_idle_threshold.less(config.tapa_heavy_threshold),
        config.tapa_heavy_threshold.difference(config.tapa_idle_threshold).finite(),
        Binary64::of_nat(1).difference(config.tapa_min_confidence).finite(),
        !config.tapa_heavy_threshold.at_most(t.load((config.probe_interval_ms * 1000) as nat)),
    ensures
        t.confidence(config).at_most(s.confidence(config)),
        t.confidence(config).at_most(Binary64::of_nat(1)),
{
    let i = config.probe_interval_ms as nat;
    let one = Binary64::of_nat(1);
    let (idle, heavy, least) = (config.tapa_idle_threshold, config.tapa_heavy_threshold, config.tapa_min_confidence);
    lemma_load(s, i);
    lemma_load(t, i);
    assert((config.probe_interval_ms * 1000) as nat == i * 1000);
    let (x, y) = (s.load(i * 1000), t.load(i * 1000));
    let m = s.tx_max_rate as nat;
    assert(busier(s, i) * m <= busier(t, i) * m) by (nonlinear_arith)
        requires
            busier(s, i) <= busier(t, i),
    ;
    lemma_fraction_order(busier(s, i), m, busier(t, i), m);
    crate::binary64::lemma_fraction(busier(s, i), m);
    crate::binary64::lemma_fraction(busier(t, i), m);
    crate::binary64::lemma_of_nat(1);
    assert(x.at_most(y));
    reveal(Binary64::at_most);
    reveal(Binary64::less);
    let range = heavy.difference(idle);
    let scale = one.difference(least);
    lemma_difference_sign(idle, heavy);
    lemma_difference_sign(heavy, idle);
    lemma_difference_sign(least, one);
    lemma_difference_sign(one, least);
    crate::binary64::lemma_rounded_zero(1);
    if !y.at_most(idle) {
        lemma_trust_below_one(y, idle, heavy, least);
        if !x.at_most(idle) {
            lemma_trust_order(x, y, idle, heavy, least);
        }
    }
}

/// Trust in probes at a load between idle and heavy.
spec fn trust_at(x: Binary64, idle: Binary64, heavy: Binary64, least: Binary64) -> Binary64 {
    let one = Binary64::of_nat(1);
    one.difference(x.difference(idle).quotient(heavy.difference(idle)).product(one.difference(least)))
}

spec fn between(x: Binary64, idle: Binary64, heavy: Binary64, least: Binary64) -> bool {
    let one = Binary64::of_nat(1);
    &&& x.finite() && idle.finite() && heavy.finite() && least.finite()
    &&& idle.less(x)
    &&& x.less(heavy)
    &&& least.at_most(one)
    &&& heavy.difference(idle).finite()
    &&& one.difference(least).finite()
}

proof fn lemma_share(x: Binary64, idle: Binary64, heavy: Binary64, least: Binary64) -> (r: Binary64)
    requires
        between(x, idle, heavy, least),
    ensures
        r == x.difference(idle).quotient(heavy.difference(idle)).product(Binary64::of_nat(1).difference(least)),
        r.finite(),
        !r.negative(),
        x.difference(idle).quotient(heavy.difference(idle)).finite(),
        !x.difference(idle).quotient(heavy.difference(idle)).negative(),
        x.difference(idle).finite(),
        !x.difference(idle).negative(),
        !heavy.difference(idle).negative(),
        heavy.difference(idle).mag() > 0,
        !Binary64::of_nat(1).difference(least).negative(),
{
    let one = Binary64::of_nat(1);
    crate::binary64::lemma_of_nat(1);
    crate::binary64::lemma_rounded_zero(1);
    let range = heavy.difference(idle);
    let scale = one.difference(least);
    let over = x.difference(idle);
    assert(idle.at_most(x) && x.at_most(heavy) && idle.less(heavy)) by {
        reveal(Binary64::at_most);
        reveal(Binary64::less);
    }
    lemma_positive_difference(idle, heavy);
    lemma_positive_difference(idle, x);
    lemma_difference_order(x, heavy, idle);
    lemma_at_most_mag(over, range);
    lemma_nonnegative_difference(least, one);
    // The share is at most one, and one times the scale is the scale.
    lemma_dividend_order(over, range, range);
    lemma_over_self(range);
    let share = over.quotient(range);
    lemma_at_most_mag(share, one);
    lemma_product_order(share, one, scale);
    lemma_times_one(scale);
    lemma_at_most_mag(share.product(scale), scale);
    share.product(scale)
}

proof fn lemma_trust_below_one(x: Binary64, idle: Binary64, heavy: Binary64, least: Binary64)
    requires
        between(x, idle, heavy, least),
    ensures
        trust_at(x, idle, heavy, least).at_most(Binary64::of_nat(1)),
{
    let r = lemma_share(x, idle, heavy, least);
    let one = Binary64::of_nat(1);
    let zero = Binary64::of_nat(0);
    crate::binary64::lemma_of_nat(1);
    crate::binary64::lemma_of_nat(0);
    crate::binary64::lemma_zero();
    crate::binary64::lemma_rounded_zero(1);
    assert(zero.at_most(r)) by {
        reveal(Binary64::at_most);
    }
    lemma_difference_order(zero, r, one);
    lemma_plus_zero(one);
}

proof fn lemma_trust_order(x: Binary64, y: Binary64, idle: Binary64, heavy: Binary64, least: Binary64)
    requires
        between(x, idle, heavy, least),
        between(y, idle, heavy, least),
        x.at_most(y),
    ensures
        trust_at(y, idle, heavy, least).at_most(trust_at(x, idle, heavy, least)),
{
    let a = lemma_share(x, idle, heavy, least);
    let b = lemma_share(y, idle, heavy, least);
    let one = Binary64::of_nat(1);
    crate::binary64::lemma_of_nat(1);
    let range = heavy.difference(idle);
    let scale = one.difference(least);
    lemma_difference_order(x, y, idle);
    lemma_dividend_order(x.difference(idle), y.difference(idle), range);
    lemma_product_order(x.difference(idle).quotient(range), y.difference(idle).quotient(range), scale);
    lemma_difference_order(a, b, one);
}

// --- loss ---

/// The packets of the two directions known after a probe, by the plain counts:
/// sent, arrived there, sent there, arrived.  The remote counts per probe
/// interval; `times` such intervals have passed.
pub open spec fn known(s: RateState, probe: ProbePacket, times: nat) -> (nat, nat, nat, nat) {
    (
        (s.send_tx_acc + s.total_tx_packets - s.last_loss_tx_packets) as nat,
        (s.send_rx_acc + times * probe.rx_packets) as nat,
        (s.recv_tx_acc + times * probe.tx_packets) as nat,
        (s.recv_rx_acc + s.total_rx_packets - s.last_loss_rx_packets) as nat,
    )
}

/// What `share` of 255 went missing when `arrived` of `sent` packets arrived.
pub open spec fn missing(sent: nat, arrived: nat) -> int {
    if sent > arrived {
        (sent - arrived) * 255 / sent as int
    } else {
        0
    }
}

proof fn lemma_whole_scale(times: nat, interval: nat)
    requires
        times > 0,
        interval > 0,
        times * interval < 0x20_0000_0000_0000,
    ensures
        Binary64::of_nat(times * interval).quotient(Binary64::of_nat(interval)).clamped(
            Binary64::fraction(2, 10),
            Binary64::of_nat(5),
        ) == Binary64::of_nat(if times <= 5 {
            times
        } else {
            5
        }),
{
    assert(times <= times * interval && interval <= times * interval) by (nonlinear_arith)
        requires
            times >= 1,
            interval >= 1,
    ;
    assert((times * interval) * 1 == times * interval) by (nonlinear_arith);
    lemma_same_fraction(times * interval, interval, times, 1);
    lemma_whole_fraction(times);
    let x = Binary64::of_nat(times);
    crate::binary64::lemma_of_nat(times);
    crate::binary64::lemma_of_nat(5);
    lemma_fraction_order(2, 10, times, 1);
    let c = vstd::arithmetic::power2::pow2(1074);
    vstd::arithmetic::power2::lemma_pow2_pos(1074);
    assert(times > 5 ==> 5 * c < times * c) by (nonlinear_arith)
        requires
            c > 0,
    ;
    assert(times <= 5 ==> times * c <= 5 * c) by (nonlinear_arith)
        requires
            c > 0,
    ;
    reveal(Binary64::less);
    reveal(Binary64::at_most);
}

proof fn lemma_whole_times(n: nat, m: nat)
    requires
        n < 0x20_0000_0000_0000,
        m < 0x20_0000_0000_0000,
        n * m < 0x20_0000_0000_0000,
    ensures
        scaled(n, Binary64::of_nat(m)) == n * m,
{
    vstd::arithmetic::power2::lemma2_to64();
    lemma_dyadic_part(n, m, 0);
    lemma_whole_fraction(m);
    assert((n * m) / 1 == n * m);
}

proof fn lemma_full_counts(s: RateState, config: RateControlConfig, probe: ProbePacket, now: u64, times: nat)
    requires
        s.wf(),
        times > 0,
        config.probe_interval_ms > 0,
        s.last_process_probe_us > 0,
        now - s.last_process_probe_us == times * (config.probe_interval_ms * 1000),
        10_000 < now - s.last_process_probe_us < 0x20_0000_0000_0000,
        s.tx_packets_since_loss() < 0x20_0000_0000_0000,
        s.rx_packets_since_loss() < 0x20_0000_0000_0000,
    ensures
        ({
            let n: nat = if times <= 5 {
                times
            } else {
                5
            };
            s.counts(config, probe, now, Binary64::of_nat(1)) == (
                s.tx_packets_since_loss(),
                n * (probe.rx_packets as nat),
                n * (probe.tx_packets as nat),
                s.rx_packets_since_loss(),
            )
        }),
{
    let n: nat = if times <= 5 {
        times
    } else {
        5
    };
    let interval = (config.probe_interval_ms * 1000) as nat;
    lemma_whole_scale(times, interval);
    lemma_whole_times(s.tx_packets_since_loss(), 1);
    lemma_whole_times(s.rx_packets_since_loss(), 1);
    assert(probe.rx_packets as nat * n == n * probe.rx_packets as nat) by (nonlinear_arith);
    assert(probe.tx_packets as nat * n == n * probe.tx_packets as nat) by (nonlinear_arith);
    assert(n * probe.rx_packets as nat <= 5 * 0x1_0000_0000 && n * probe.tx_packets as nat <= 5 * 0x1_0000_0000)
        by (nonlinear_arith)
        requires
            n <= 5,
            probe.rx_packets < 0x1_0000_0000,
            probe.tx_packets < 0x1_0000_0000,
    ;
    lemma_whole_times(probe.rx_packets as nat, n);
    lemma_whole_times(probe.tx_packets as nat, n);
    lemma_whole_times(n * probe.rx_packets as nat, 1);
    lemma_whole_times(n * probe.tx_packets as nat, 1);
}

/// Loss is what went missing: of the packets known to have been sent in a
/// direction, the share of 255 that is not known to have arrived, rounded
/// down, once more than the least number of them is known; before, the last
/// judgement stands.  The link's loss is that of the worse direction.  Known
/// are the packets since the last probe and, of those before, fifteen
/// sixteenths each time loss was judged.  (Probes fully trusted, and a whole
/// number of probe intervals since the last one.)
pub proof fn law_loss_is_what_went_missing(s: RateState, config: RateControlConfig, a: Arrival, times: nat)
    requires
        s.wf(),
        s.state is Running || s.state is Lossy,
        s.after(config, a).probe_confidence == Binary64::of_nat(1),
        !s.probe_confidence.less(Binary64::fraction(3, 10)),
        times > 0,
        config.probe_interval_ms > 0,
        s.last_process_probe_us > 0,
        a.now - s.last_process_probe_us == times * (config.probe_interval_ms * 1000),
        10_000 < a.now - s.last_process_probe_us < 0x20_0000_0000_0000,
        s.send_tx_acc < 0x10_0000_0000_0000,
        s.send_rx_acc < 0x10_0000_0000_0000,
        s.recv_tx_acc < 0x10_0000_0000_0000,
        s.recv_rx_acc < 0x10_0000_0000_0000,
        s.total_tx_packets - s.last_loss_tx_packets < 0x10_0000_0000_0000,
        s.total_rx_packets - s.last_loss_rx_packets < 0x10_0000_0000_0000,
    ensures
        ({
            let after = s.after(config, a);
            let (sent, arrived_there, sent_there, arrived) = known(
                s,
                a.probe,
                if times <= 5 {
                    times
                } else {
                    5
                },
            );
            let least = config.loss_min_packets;
            &&& after.send_loss == if sent > least {
                missing(sent, arrived_there)
            } else {
                s.send_loss as int
            }
            &&& after.recv_loss == if sent_there > least {
                missing(sent_there, arrived)
            } else {
                s.recv_loss as int
            }
            &&& after.loss >= after.send_loss && after.loss >= after.recv_loss
            &&& after.loss == after.send_loss || after.loss == after.recv_loss
            &&& sent > least ==> after.send_tx_acc == sent - sent / 16 && after.send_rx_acc == arrived_there
                - arrived_there / 16
            &&& sent <= least ==> after.send_tx_acc == sent && after.send_rx_acc == arrived_there
            &&& sent_there > least ==> after.recv_tx_acc == sent_there - sent_there / 16 && after.recv_rx_acc == arrived
                - arrived / 16
            &&& sent_there <= least ==> after.recv_tx_acc == sent_there && after.recv_rx_acc == arrived
            &&& after.last_loss_tx_packets == s.total_tx_packets
            &&& after.last_loss_rx_packets == s.total_rx_packets
            &&& after.last_process_probe_us == a.now
        }),
{
    let n: nat = if times <= 5 {
        times
    } else {
        5
    };
    let paced = s.after_pacing(config, a.probe, a.held_us, a.now, a.recv_at);
    assert(paced.probe_confidence == s.confidence(config));
    assert(s.gate(config) == Binary64::of_nat(1));
    lemma_full_counts(paced, config, a.probe, a.now, times);
    let (sent, arrived_there, sent_there, arrived) = known(s, a.probe, n);
    lemma_missing_range(sent, arrived_there);
    lemma_missing_range(sent_there, arrived);
    let counted = paced.counted(config, a.probe, a.now, s.gate(config));
    assert(n * a.probe.rx_packets <= 5 * 0x1_0000_0000 && n * a.probe.tx_packets <= 5 * 0x1_0000_0000)
        by (nonlinear_arith)
        requires
            n <= 5,
            a.probe.rx_packets < 0x1_0000_0000,
            a.probe.tx_packets < 0x1_0000_0000,
    ;
    assert(counted.send_tx_acc == sent && counted.send_rx_acc == arrived_there);
    assert(counted.recv_tx_acc == sent_there && counted.recv_rx_acc == arrived);
    assert(counted.prev_probe_confidence == s.probe_confidence);
}

proof fn lemma_missing_range(sent: nat, arrived: nat)
    ensures
        0 <= missing(sent, arrived) <= 255,
{
    if sent > arrived {
        assert(0 <= (sent - arrived) * 255 / sent as int <= 255) by (nonlinear_arith)
            requires
                0 <= arrived < sent,
        ;
    }
}

/// Nothing is counted on the first probe, nor on one that follows the last
/// within ten milliseconds.
pub proof fn law_short_intervals_do_not_count(s: RateState, config: RateControlConfig, a: Arrival)
    requires
        s.state is Running || s.state is Lossy,
        !s.probe_confidence.less(Binary64::fraction(3, 10)),
        s.last_process_probe_us == 0 || a.now - s.last_process_probe_us <= 10_000,
        s.send_tx_acc <= config.loss_min_packets,
        s.recv_tx_acc <= config.loss_min_packets,
    ensures
        s.after(config, a).send_tx_acc == s.send_tx_acc,
        s.after(config, a).send_rx_acc == s.send_rx_acc,
        s.after(config, a).recv_tx_acc == s.recv_tx_acc,
        s.after(config, a).recv_rx_acc == s.recv_rx_acc,
        s.after(config, a).send_loss == s.send_loss,
        s.after(config, a).recv_loss == s.recv_loss,
        s.after(config, a).last_process_probe_us == a.now,
{
}

/// When traffic goes from heavy to light, the configured share of the counts
/// is kept and the rest forgotten.
pub proof fn law_relief_forgets(s: RateState, config: RateControlConfig, p: nat, q: nat)
    requires
        config.tapa_enabled,
        config.tapa_accelerated_recovery,
        config.tapa_recovery_decay == Binary64::fraction(p, q),
        p <= q,
        0 < q <= 1000,
        s.prev_probe_confidence.less(Binary64::fraction(3, 10)),
        Binary64::fraction(7, 10).less(s.probe_confidence),
        s.send_tx_acc < 0x100_0000_0000,
        s.send_rx_acc < 0x100_0000_0000,
        s.recv_tx_acc < 0x100_0000_0000,
        s.recv_rx_acc < 0x100_0000_0000,
    ensures
        q * s.relieved(config).send_tx_acc <= p * s.send_tx_acc <= q * (s.relieved(config).send_tx_acc + 1),
        q * s.relieved(config).send_rx_acc <= p * s.send_rx_acc <= q * (s.relieved(config).send_rx_acc + 1),
        q * s.relieved(config).recv_tx_acc <= p * s.recv_tx_acc <= q * (s.relieved(config).recv_tx_acc + 1),
        q * s.relieved(config).recv_rx_acc <= p * s.recv_rx_acc <= q * (s.relieved(config).recv_rx_acc + 1),
{
    lemma_part_is_close(s.send_tx_acc as nat, p, q);
    lemma_part_is_close(s.send_rx_acc as nat, p, q);
    lemma_part_is_close(s.recv_tx_acc as nat, p, q);
    lemma_part_is_close(s.recv_rx_acc as nat, p, q);
    assert(s.send_tx_acc * p == p * s.send_tx_acc) by (nonlinear_arith);
    assert(s.send_rx_acc * p == p * s.send_rx_acc) by (nonlinear_arith);
    assert(s.recv_tx_acc * p == p * s.recv_tx_acc) by (nonlinear_arith);
    assert(s.recv_rx_acc * p == p * s.recv_rx_acc) by (nonlinear_arith);
}

/// The relief shows in what a probe leaves: no more is known of a direction
/// than the share kept of all that was known.
pub proof fn law_relief_is_applied(s: RateState, config: RateControlConfig, a: Arrival, p: nat, q: nat)
    requires
        s.state is Running || s.state is Lossy,
        config.tapa_enabled,
        config.tapa_accelerated_recovery,
        config.tapa_recovery_decay == Binary64::fraction(p, q),
        p <= q,
        0 < q <= 1000,
        s.probe_confidence.less(Binary64::fraction(3, 10)),
        Binary64::fraction(7, 10).less(s.after(config, a).probe_confidence),
        s.last_process_probe_us == 0,
        s.send_tx_acc < 0x100_0000_0000,
        s.send_rx_acc < 0x100_0000_0000,
        s.recv_tx_acc < 0x100_0000_0000,
        s.recv_rx_acc < 0x100_0000_0000,
    ensures
        q * s.after(config, a).send_tx_acc <= p * s.send_tx_acc,
        q * s.after(config, a).recv_tx_acc <= p * s.recv_tx_acc,
{
    let judged = s.after_pacing(config, a.probe, a.held_us, a.now, a.recv_at).counted(
        config,
        a.probe,
        a.now,
        s.gate(config),
    ).judged(config);
    law_relief_forgets(judged, config, p, q);
    assert(p * judged.send_tx_acc <= p * s.send_tx_acc) by (nonlinear_arith)
        requires
            judged.send_tx_acc <= s.send_tx_acc,
    ;
    assert(p * judged.recv_tx_acc <= p * s.recv_tx_acc) by (nonlinear_arith)
        requires
            judged.recv_tx_acc <= s.recv_tx_acc,
    ;
}

// --- rate ---

/// The bytes per second of `bytes` in one probe interval.
pub open spec fn per_interval(bytes: nat, interval_ms: nat) -> nat {
    bytes * 1_000_000 / (interval_ms * 1000)
}

/// Congestion: a remote that receives slower than we send, by more than the
/// threshold, slows a link above its floor that sends at least as fast as the
/// remote receives.  (Probes trusted; thresholds given as decimals.)
pub proof fn law_slow_remote_slows_the_link(
    s: RateState,
    config: RateControlConfig,
    a: Arrival,
    p: nat,
    q: nat,
    rp: nat,
    rq: nat,
)
    requires
        s.wf(),
        s.state is Running || s.state is Lossy,
        s.rate_in_range(),
        s.tx_min_rate < s.tx_rate,
        !config.tapa_enabled || Binary64::fraction(5, 10).less(s.after(config, a).probe_confidence),
        config.probe_interval_ms > 0,
        config.congestion_threshold == Binary64::fraction(p, q),
        p <= q,
        0 < q <= 1000,
        config.congestion_reduction == Binary64::fraction(rp, rq),
        rp < rq,
        0 < rq <= 1000,
        ({
            let ours = per_interval(
                (s.total_tx_bytes - s.last_probe_tx_bytes) as nat,
                config.probe_interval_ms as nat,
            );
            let remote = per_interval(a.probe.rx_bytes as nat, config.probe_interval_ms as nat);
            &&& 0 < remote <= s.tx_rate
            &&& ours < 0x100_0000_0000
            &&& q * remote + p * ours < q * ours
        }),
    ensures
        s.after(config, a).tx_rate < s.tx_rate,
        ({
            let remote = per_interval(a.probe.rx_bytes as nat, config.probe_interval_ms as nat);
            rq * s.after(config, a).tx_rate >= rp * remote - rq || s.after(config, a).tx_rate == s.tx_max_rate
        }),
{
    let i = config.probe_interval_ms as nat;
    let ours = per_interval((s.total_tx_bytes - s.last_probe_tx_bytes) as nat, i);
    let remote = per_interval(a.probe.rx_bytes as nat, i);
    lemma_part_is_close(ours, p, q);
    assert(remote < ours) by (nonlinear_arith)
        requires
            q * remote + p * ours < q * ours,
            q > 0,
            p >= 0,
            ours >= 0,
    ;
    lemma_part_is_close(remote, rp, rq);
    let allowance = scaled(ours, config.congestion_threshold) as nat;
    assert(remote + allowance < ours) by (nonlinear_arith)
        requires
            q * allowance <= ours * p,
            q * remote + p * ours < q * ours,
            q > 0,
    {
        assert(q * (remote + allowance) < q * ours);
    }
    let desired = scaled(remote, config.congestion_reduction) as nat;
    assert(desired < remote) by (nonlinear_arith)
        requires
            rq * desired <= remote * rp,
            rp < rq,
            remote > 0,
    {
        assert(remote * rp < remote * rq);
    }
    let timed = s.heard(a.probe.timestamp_us, a.now, a.recv_at, s.confidence(config)).timed(
        config,
        a.probe.echo_timestamp_us,
        a.held_us,
        a.now,
    );
    assert((config.probe_interval_ms * 1000) as nat == i * 1000);
    assert(timed.rates(config, a.probe.rx_bytes) == (ours, remote));
    assert(timed.congested(config, a.probe.rx_bytes));
    assert(timed.called_for(config, a.probe.rx_bytes, s.confidence(config)) == Some(desired as u64));
    let after = s.after(config, a);
    assert(after.tx_rate == timed.moved_towards(config, desired as u64));
    assert(after.tx_rate >= desired || after.tx_rate == s.tx_max_rate);
    if after.tx_rate >= desired {
        assert(rq * after.tx_rate >= rp * remote - rq) by (nonlinear_arith)
            requires
                after.tx_rate >= desired,
                remote * rp <= rq * (desired + 1),
                rq > 0,
        {
            assert(rq * after.tx_rate >= rq * desired);
        }
    }
}

/// A remote that keeps up, or that reports nothing received while nothing was
/// sent, lets the rate grow: by the growth factor, but by no more than the
/// step, up to the ceiling.  (Probes trusted; factors given as decimals.)
pub proof fn law_remote_that_keeps_up_lets_grow(
    s: RateState,
    config: RateControlConfig,
    a: Arrival,
    p: nat,
    q: nat,
    gp: nat,
    gq: nat,
    mp: nat,
    mq: nat,
)
    requires
        s.wf(),
        s.state is Running || s.state is Lossy,
        s.rate_in_range(),
        s.tx_rate < 0x100_0000_0000,
        !config.tapa_enabled || Binary64::fraction(5, 10).less(s.after(config, a).probe_confidence),
        config.probe_interval_ms > 0,
        config.congestion_threshold == Binary64::fraction(p, q),
        p <= q,
        0 < q <= 1000,
        config.growth_factor == Binary64::fraction(gp, gq),
        gp <= gq,
        0 < gq <= 1000,
        config.max_rate_change_fraction == Binary64::fraction(mp, mq),
        mp <= mq,
        0 < mq <= 1000,
        ({
            let ours = per_interval(
                (s.total_tx_bytes - s.last_probe_tx_bytes) as nat,
                config.probe_interval_ms as nat,
            );
            let remote = per_interval(a.probe.rx_bytes as nat, config.probe_interval_ms as nat);
            &&& ours < 0x100_0000_0000
            &&& ours == 0 || remote == 0 || q * remote + p * ours >= q * ours + q
        }),
    ensures
        ({
            let after = s.after(config, a);
            let grown = after.tx_rate - s.tx_rate;
            &&& grown >= 0
            &&& gq * grown <= gp * s.tx_rate
            &&& mq * grown <= mp * s.tx_rate || grown <= 12_500
            &&& after.tx_rate < s.tx_max_rate ==> gq * (grown + 1) >= gp * s.tx_rate || (mq * (grown + 1) >= mp * s.tx_rate
                && grown >= 12_500)
        }),
{
    let i = config.probe_interval_ms as nat;
    let ours = per_interval((s.total_tx_bytes - s.last_probe_tx_bytes) as nat, i);
    let remote = per_interval(a.probe.rx_bytes as nat, i);
    let rate = s.tx_rate as nat;
    lemma_part_is_close(ours, p, q);
    lemma_part_is_close(rate, gp, gq);
    lemma_part_is_close(rate, mp, mq);
    let allowance = scaled(ours, config.congestion_threshold) as nat;
    if q * remote + p * ours >= q * ours + q {
        assert(remote + allowance >= ours) by (nonlinear_arith)
            requires
                ours * p <= q * (allowance + 1),
                q * remote + p * ours >= q * ours + q,
                q > 0,
        {
            assert(q * (remote + allowance) >= q * ours);
        }
    }
    let timed = s.heard(a.probe.timestamp_us, a.now, a.recv_at, s.confidence(config)).timed(
        config,
        a.probe.echo_timestamp_us,
        a.held_us,
        a.now,
    );
    assert((config.probe_interval_ms * 1000) as nat == i * 1000);
    assert(timed.rates(config, a.probe.rx_bytes) == (ours, remote));
    assert(!timed.congested(config, a.probe.rx_bytes));
    let growth = scaled(rate, config.growth_factor);
    let step = scaled(rate, config.max_rate_change_fraction);
    assert(timed.called_for(config, a.probe.rx_bytes, s.confidence(config)) == Some((rate + growth) as u64));
    let after = s.after(config, a);
    assert(after.tx_rate == timed.moved_towards(config, (rate + growth) as u64));
    let grown = after.tx_rate - s.tx_rate;
    let cap = if step >= 12_500 {
        step as int
    } else {
        12_500
    };
    assert(0 <= grown <= growth && grown <= cap);
    assert(after.tx_rate < s.tx_max_rate ==> grown == growth || grown == cap);
    assert(gq * grown <= gp * rate) by (nonlinear_arith)
        requires
            grown <= growth,
            gq * growth <= rate * gp,
            gq > 0,
    ;
    if step >= 12_500 {
        assert(mq * grown <= mp * rate) by (nonlinear_arith)
            requires
                grown <= step,
                mq * step <= rate * mp,
                mq > 0,
        ;
    }
    assert(gq * (growth + 1) >= gp * rate) by (nonlinear_arith)
        requires
            rate * gp <= gq * (growth + 1),
    ;
    assert(cap >= step ==> mq * (cap + 1) >= mp * rate) by (nonlinear_arith)
        requires
            rate * mp <= mq * (step + 1),
            mq > 0,
    ;
}

/// In service no probe changes the rate by more than the configured part of
/// it, or 100 Kbps where that is more, and none moves it out of its range.
pub proof fn law_rate_moves_in_steps(s: RateState, config: RateControlConfig, a: Arrival, mp: nat, mq: nat)
    requires
        s.state is Running || s.state is Lossy,
        s.rate_in_range(),
        s.tx_rate < 0x100_0000_0000,
        config.max_rate_change_fraction == Binary64::fraction(mp, mq),
        mp <= mq,
        0 < mq <= 1000,
    ensures
        ({
            let rate = s.after(config, a).tx_rate;
            let change = if rate >= s.tx_rate {
                rate - s.tx_rate
            } else {
                s.tx_rate - rate
            };
            &&& s.tx_min_rate <= rate <= s.tx_max_rate
            &&& mq * change <= mp * s.tx_rate || change <= 12_500
        }),
{
    let rate = s.tx_rate as nat;
    lemma_part_is_close(rate, mp, mq);
    let step = scaled(rate, config.max_rate_change_fraction);
    let after = s.after(config, a).tx_rate;
    let change = if after >= s.tx_rate {
        after - s.tx_rate
    } else {
        s.tx_rate - after
    };
    law_rate_change_is_capped(s, config, a);
    assert(s.step(config) == larger(step as nat, MIN_RATE_STEP as nat));
    if change > 12_500 {
        assert(mq * change <= mp * rate) by (nonlinear_arith)
            requires
                change <= step,
                mq * step <= rate * mp,
                mq > 0,
        ;
    }
}

/// While probes are trusted no more than half, congestion is not judged: the
/// rate never sinks, and it holds where no packet flowed since the last probe.
pub proof fn law_mistrusted_probe_does_not_slow(s: RateState, config: RateControlConfig, a: Arrival)
    requires
        s.wf(),
        s.state is Running || s.state is Lossy,
        s.rate_in_range(),
        config.tapa_enabled,
        !Binary64::fraction(5, 10).less(s.after(config, a).probe_confidence),
    ensures
        s.after(config, a).tx_rate >= s.tx_rate,
        s.total_tx_packets == s.last_loss_tx_packets && s.total_rx_packets == s.last_loss_rx_packets ==> s.after(
            config,
            a,
        ).tx_rate == s.tx_rate,
{
}

/// Packets count for as much as the probe is trusted.
pub proof fn law_trust_attenuates_counts(s: RateState, config: RateControlConfig, a: Arrival, p: nat, q: nat)
    requires
        s.wf(),
        s.state is Running || s.state is Lossy,
        config.tapa_enabled,
        s.after(config, a).probe_confidence == Binary64::fraction(p, q),
        !s.probe_confidence.less(Binary64::fraction(3, 10)),
        p <= q,
        0 < q <= 1000,
        config.probe_interval_ms > 0,
        s.last_process_probe_us > 0,
        a.now - s.last_process_probe_us > 10_000,
        s.total_tx_packets - s.last_loss_tx_packets < 0x100_0000_0000,
        s.total_rx_packets - s.last_loss_rx_packets < 0x100_0000_0000,
        s.send_tx_acc + s.total_tx_packets - s.last_loss_tx_packets <= config.loss_min_packets,
        s.recv_rx_acc < 0x100_0000_0000,
    ensures
        ({
            let after = s.after(config, a);
            let sent = s.total_tx_packets - s.last_loss_tx_packets;
            let counted = after.send_tx_acc - s.send_tx_acc;
            q * counted <= p * sent <= q * (counted + 1)
        }),
{
    let paced = s.after_pacing(config, a.probe, a.held_us, a.now, a.recv_at);
    let sent = (s.total_tx_packets - s.last_loss_tx_packets) as nat;
    let gate = Binary64::fraction(p, q);
    lemma_part_is_close(sent, p, q);
    assert(paced.tx_packets_since_loss() == sent);
    let part = scaled(sent, gate) as nat;
    assert(part <= sent) by (nonlinear_arith)
        requires
            q * part <= sent * p,
            p <= q,
            q > 0,
    {
        assert(sent * p <= sent * q);
    }
    assert(sent * p == p * sent) by (nonlinear_arith);
    assert(paced.counted(config, a.probe, a.now, gate).send_tx_acc == s.send_tx_acc + part);
}

/// The floor of a new link is a decimal share of its greatest rate, to one byte
/// per second, but a step at least; it starts at its greatest rate, running.
pub proof fn law_floor_is_a_share(link_id: usize, max_rate: u64, fraction: Binary64, now_ns: u64, p: nat, q: nat)
    requires
        fraction == Binary64::fraction(p, q),
        0 < q <= 1000,
        p <= 2 * q,
        max_rate < 0x100_0000_0000,
    ensures
        ({
            let s = RateState::fresh(link_id, max_rate, fraction, now_ns);
            &&& s.tx_min_rate >= 12_500
            &&& s.tx_min_rate > 12_500 ==> q * s.tx_min_rate <= p * max_rate <= q * (s.tx_min_rate + 1)
            &&& s.tx_min_rate == 12_500 ==> p * max_rate <= q * 12_501
            &&& s.tx_rate == max_rate && s.tx_max_rate == max_rate && s.state is Running && s.loss == 0
        }),
{
    lemma_part_is_close(max_rate as nat, p, q);
    let t = scaled(max_rate as nat, fraction) as nat;
    let s = RateState::fresh(link_id, max_rate, fraction, now_ns);
    assert(max_rate as nat * p == p * max_rate) by (nonlinear_arith);
    if s.tx_min_rate == 12_500 {
        assert(q * (t + 1) <= q * 12_501) by (nonlinear_arith)
            requires
                t <= 12_500,
        ;
    }
}

/// A link in service weighs its rate in Mbps, at least one.
pub proof fn law_weight_is_the_rate(s: RateState)
    requires
        s.tx_rate < 0x1_0000_0000 * 125_000,
        s.state is Running || s.state is Lossy,
    ensures
        s.tx_rate >= 125_000 ==> s.weight_of() * 125_000 <= s.tx_rate < (s.weight_of() + 1) * 125_000,
        s.tx_rate < 125_000 ==> s.weight_of() == 1,
{
}

/// While probes are trusted no more than half and packets flow, the rate grows
/// by half of the configured growth, as far as its bound and its step let it.
pub proof fn law_mistrusted_probe_grows_by_half(
    s: RateState,
    config: RateControlConfig,
    a: Arrival,
    p: nat,
    q: nat,
)
    requires
        s.wf(),
        s.state is Running || s.state is Lossy,
        s.rate_in_range(),
        s.tx_rate < 0x100_0000_0000,
        config.tapa_enabled,
        !Binary64::fraction(5, 10).less(s.after(config, a).probe_confidence),
        s.total_tx_packets > s.last_loss_tx_packets || s.total_rx_packets > s.last_loss_rx_packets,
        config.growth_factor == Binary64::fraction(p, q),
        0 < q <= 1000,
        p <= q,
    ensures
        ({
            let rate = s.after(config, a).tx_rate;
            let growth = rate - s.tx_rate;
            &&& 2 * q * growth <= p * s.tx_rate
            &&& p * s.tx_rate <= 2 * q * (growth + 1) || rate == s.tx_max_rate || growth >= 12_500
        }),
{
    let n = s.tx_rate as nat;
    lemma_part_is_close(n, p, q);
    let x = Binary64::of_nat(n).product(config.growth_factor);
    let t = x.truncated();
    lemma_growth_finite(n, p, q);
    lemma_half_truncates(x);
    let rate = s.after(config, a).tx_rate;
    let growth = rate - s.tx_rate;
    assert(n * p == p * s.tx_rate) by (nonlinear_arith)
        requires
            n == s.tx_rate,
    ;
    assert(growth <= t / 2);
    assert(2 * q * growth <= p * s.tx_rate) by (nonlinear_arith)
        requires
            2 * growth <= t,
            q * t <= p * s.tx_rate,
            q > 0,
    ;
    if growth == t / 2 {
        assert(p * s.tx_rate <= 2 * q * (growth + 1)) by (nonlinear_arith)
            requires
                t + 1 <= 2 * growth + 2,
                p * s.tx_rate <= q * (t + 1),
                q > 0,
        ;
    }
}

proof fn lemma_growth_finite(n: nat, p: nat, q: nat)
    requires
        n < 0x100_0000_0000,
        0 < q <= 1000,
        p <= q,
    ensures
        Binary64::of_nat(n).product(Binary64::fraction(p, q)).finite(),
        !Binary64::of_nat(n).product(Binary64::fraction(p, q)).negative(),
{
    let x = Binary64::of_nat(n);
    let g = Binary64::fraction(p, q);
    let one = Binary64::of_nat(1);
    lemma_of_nat(n);
    lemma_of_nat(1);
    lemma_fraction(p, q);
    lemma_fraction_order(p, q, 1, 1);
    lemma_whole_fraction(1);
    lemma_product_order(g, one, x);
    lemma_times_one(x);
    lemma_at_most_mag(x.product(g), x);
}

/// A probe of ordinary size is taken: bytes of an interval below a gigabyte,
/// intervals of a millisecond at least, and counts far from overflow.
pub proof fn law_ordinary_probe_is_taken(
    s: RateState,
    config: RateControlConfig,
    a: Arrival,
    p: nat,
    q: nat,
)
    requires
        s.wf(),
        s.rate_in_range(),
        s.recovery_count < u32::MAX,
        0 < config.probe_interval_ms < 0x1_0000_0000,
        s.tx_bytes_since_probe() < 0x4000_0000,
        s.rx_bytes_since_probe() < 0x4000_0000,
        a.probe.rx_bytes < 0x4000_0000,
        config.congestion_threshold == Binary64::fraction(p, q),
        0 < q <= 1000,
        p <= q,
        s.confidence(config).finite() && !s.confidence(config).negative() && s.confidence(config).at_most(
            Binary64::of_nat(1),
        ),
        s.tx_packets_since_loss() < 0x1_0000_0000,
        s.rx_packets_since_loss() < 0x1_0000_0000,
        s.send_tx_acc < 0x1_0000_0000_0000 && s.send_rx_acc < 0x1_0000_0000_0000 && s.recv_tx_acc < 0x1_0000_0000_0000
            && s.recv_rx_acc < 0x1_0000_0000_0000,
        a.now - s.last_process_probe_us < 0x20_0000_0000_0000,
    ensures
        s.accepts(config, a.probe, a.held_us, a.now, a.recv_at),
{
    let confidence = s.confidence(config);
    let timed = s.heard(a.probe.timestamp_us, a.now, a.recv_at, confidence).timed(
        config,
        a.probe.echo_timestamp_us,
        a.held_us,
        a.now,
    );
    let paced = timed.paced(config, a.probe.rx_bytes, confidence);
    let interval = (config.probe_interval_ms * 1000) as nat;
    lemma_rate_bound(s.tx_bytes_since_probe(), interval);
    lemma_rate_bound(a.probe.rx_bytes as nat, interval);
    assert(timed.tx_bytes_since_probe() == s.tx_bytes_since_probe());
    let (ours, remote) = timed.rates(config, a.probe.rx_bytes);
    lemma_part_is_close(ours, p, q);
    assert(scaled(ours, config.congestion_threshold) <= 2 * ours);
    let gate = s.gate(config);
    let one = Binary64::of_nat(1);
    lemma_of_nat(1);
    lemma_at_most_mag(confidence, one);
    reveal(Binary64::at_most);
    assert(gate.finite() && !gate.negative() && gate.at_most(one));
    lemma_gated(paced.tx_packets_since_loss(), gate);
    lemma_gated(paced.rx_packets_since_loss(), gate);
    let since = paced.since_last_probe(a.now);
    if since > 10_000 {
        lemma_scaled_counts(a.probe.rx_packets as nat, since, interval, gate);
        lemma_scaled_counts(a.probe.tx_packets as nat, since, interval, gate);
    }
    let (sent, arrived_there, sent_there, arrived) = paced.counts(config, a.probe, a.now, gate);
    assert(sent <= 0x1_0000_0000 && arrived <= 0x1_0000_0000);
    assert(arrived_there <= 0x6_0000_0000 && sent_there <= 0x6_0000_0000);
}

proof fn lemma_rate_bound(bytes: nat, interval: nat)
    requires
        bytes < 0x4000_0000,
        interval >= 1000,
    ensures
        per_second(bytes, interval) < 0x100_0000_0000,
        bytes * 1_000_000 <= u64::MAX,
{
    assert((bytes * 1_000_000) / interval <= (bytes * 1_000_000) / 1000) by {
        vstd::arithmetic::div_mod::lemma_div_is_ordered_by_denominator((bytes * 1_000_000) as int, 1000, interval as int);
    }
    assert((bytes * 1_000_000) / 1000 == bytes * 1000);
}

/// A part of a number is no more than the number.
proof fn lemma_gated(n: nat, gate: Binary64)
    requires
        n < 0x20_0000_0000_0000,
        gate.finite(),
        !gate.negative(),
        gate.at_most(Binary64::of_nat(1)),
    ensures
        scaled(n, gate) <= n,
{
    let x = Binary64::of_nat(n);
    let one = Binary64::of_nat(1);
    lemma_of_nat(n);
    lemma_of_nat(1);
    lemma_product_order(gate, one, x);
    lemma_times_one(x);
    lemma_truncation_order(x.product(gate), x);
    lemma_whole_truncation(n);
}

proof fn lemma_whole_truncation(n: nat)
    requires
        n < 0x20_0000_0000_0000,
    ensures
        Binary64::of_nat(n).truncated() == n,
{
    vstd::arithmetic::power2::lemma2_to64();
    lemma_dyadic_part(n, 1, 0);
    lemma_whole_fraction(1);
    lemma_of_nat(n);
    lemma_times_one(Binary64::of_nat(n));
    assert((n * 1) / 1 == n);
}

proof fn lemma_scaled_counts(n: nat, since: nat, interval: nat, gate: Binary64)
    requires
        n < 0x1_0000_0000,
        0 < since < 0x20_0000_0000_0000,
        0 < interval < 0x20_0000_0000_0000,
        gate.finite(),
        !gate.negative(),
        gate.at_most(Binary64::of_nat(1)),
    ensures
        ({
            let scale = Binary64::of_nat(since).quotient(Binary64::of_nat(interval)).clamped(
                Binary64::fraction(2, 10),
                Binary64::of_nat(5),
            );
            scaled(scaled(n, scale) as nat, gate) <= 5 * n
        }),
{
    let raw = Binary64::fraction(since, interval);
    let low = Binary64::fraction(2, 10);
    let five = Binary64::of_nat(5);
    let scale = raw.clamped(low, five);
    lemma_fraction(since, interval);
    lemma_fraction(2, 10);
    lemma_of_nat(5);
    lemma_of_nat(n);
    lemma_whole_fraction(5);
    lemma_fraction_order(2, 10, 5, 1);
    assert(scale.finite() && !scale.negative() && scale.at_most(five)) by {
        reveal(Binary64::less);
        reveal(Binary64::at_most);
    }
    let x = Binary64::of_nat(n);
    lemma_product_order(scale, five, x);
    lemma_truncation_order(x.product(scale), x.product(five));
    vstd::arithmetic::power2::lemma2_to64();
    lemma_dyadic_part(n, 5, 0);
    assert((n * 5) / 1 == 5 * n);
    lemma_gated(scaled(n, scale) as nat, gate);
}

} // verus!
