//! Test scenarios for different traffic patterns.
//!
//! Defines various load patterns and traffic types for testing.

use crate::binary64::Binary64;
use crate::text::copy_of;
use vstd::prelude::*;

verus! {

/// Traffic pattern types.
#[derive(Debug, Clone, Copy)]
pub enum TrafficPattern {
    /// Constant bitrate
    ConstantBitrate { bitrate_mbps: Binary64 },
    /// Burst traffic (high then low)
    Burst { peak_mbps: Binary64, base_mbps: Binary64, burst_duration_ms: u64 },
    /// Ramp up over time
    Ramp { start_mbps: Binary64, end_mbps: Binary64, duration_secs: u64 },
    /// Real-world simulation (mix of patterns)
    Realistic,
}

/// Traffic direction.
#[derive(Debug, Clone, Copy, PartialEq, Eq, Structural)]
pub enum Direction {
    Download,
    Upload,
    Bidirectional,
}

/// Packet size distribution.
#[derive(Debug, Clone, Copy)]
pub enum PacketSizeDistribution {
    /// Fixed size
    Fixed(usize),
    /// Uniform distribution
    Uniform { min: usize, max: usize },
    /// Bimodal (small ACKs + large data)
    Bimodal { small: usize, large: usize, small_ratio: Binary64 },
    /// Real-world distribution
    Realistic,
}

/// Test scenario definition.
#[derive(Debug)]
pub struct TestScenario {
    pub name: String,
    pub description: String,
    /// Length of the scenario (nanoseconds)
    pub duration: u64,
    pub pattern: TrafficPattern,
    pub direction: Direction,
    pub concurrent_flows: usize,
    pub packet_sizes: PacketSizeDistribution,
}

/// What a [`TestScenario`] holds.
#[verifier::ext_equal]
pub struct TestScenarioView {
    pub name: Seq<char>,
    pub description: Seq<char>,
    pub duration: u64,
    pub pattern: TrafficPattern,
    pub direction: Direction,
    pub concurrent_flows: usize,
    pub packet_sizes: PacketSizeDistribution,
}

impl View for TestScenario {
    type V = TestScenarioView;

    open spec fn view(&self) -> TestScenarioView {
        TestScenarioView {
            name: self.name@,
            description: self.description@,
            duration: self.duration,
            pattern: self.pattern,
            direction: self.direction,
            concurrent_flows: self.concurrent_flows,
            packet_sizes: self.packet_sizes,
        }
    }
}

/// Builder for test scenarios.
#[derive(Debug)]
pub struct ScenarioBuilder {
    pub name: String,
    pub description: String,
    /// Length of the scenario (nanoseconds)
    pub duration: u64,
    pub pattern: TrafficPattern,
    pub direction: Direction,
    pub concurrent_flows: usize,
    pub packet_sizes: PacketSizeDistribution,
}

impl View for ScenarioBuilder {
    type V = TestScenarioView;

    open spec fn view(&self) -> TestScenarioView {
        TestScenarioView {
            name: self.name@,
            description: self.description@,
            duration: self.duration,
            pattern: self.pattern,
            direction: self.direction,
            concurrent_flows: self.concurrent_flows,
            packet_sizes: self.packet_sizes,
        }
    }
}

impl TestScenarioView {
    /// What a builder starts with: a minute of 100 Mbps down in one flow of
    /// full packets.
    pub open spec fn plain(name: Seq<char>) -> TestScenarioView {
        TestScenarioView {
            name,
            description: Seq::empty(),
            duration: 60_000_000_000,
            pattern: TrafficPattern::ConstantBitrate { bitrate_mbps: Binary64::of_nat(100) },
            direction: Direction::Download,
            concurrent_flows: 1,
            packet_sizes: PacketSizeDistribution::Fixed(1400),
        }
    }

    /// The throughput to expect (Mbps).
    pub open spec fn expected_mbps(self) -> Binary64 {
        match self.pattern {
            TrafficPattern::ConstantBitrate { bitrate_mbps } => bitrate_mbps,
            TrafficPattern::Burst { peak_mbps, base_mbps, .. } => peak_mbps.sum(base_mbps).quotient(
                Binary64::of_nat(2),
            ),
            TrafficPattern::Ramp { start_mbps, end_mbps, .. } => start_mbps.sum(end_mbps).quotient(
                Binary64::of_nat(2),
            ),
            TrafficPattern::Realistic => Binary64::of_nat(150),
        }
    }

    /// The mean packet size (bytes).
    pub open spec fn mean_size(self) -> nat {
        match self.packet_sizes {
            PacketSizeDistribution::Fixed(size) => size as nat,
            PacketSizeDistribution::Uniform { min, max } => ((min + max) / 2) as nat,
            PacketSizeDistribution::Bimodal { small, large, small_ratio } => Binary64::of_nat(small as nat).product(
                small_ratio,
            ).sum(
                Binary64::of_nat(large as nat).product(Binary64::of_nat(1).difference(small_ratio)),
            ).truncated(),
            PacketSizeDistribution::Realistic => 800,
        }
    }
}

impl ScenarioBuilder {
    /// A scenario with a name and the usual settings.
    pub fn new(name: &str) -> (r: ScenarioBuilder)
        ensures
            r@ == TestScenarioView::plain(name@),
    {
        let r: ScenarioBuilder = ScenarioBuilder {
            name: copy_of(name),
            description: String::new(),
            duration: 60_000_000_000,
            pattern: TrafficPattern::ConstantBitrate { bitrate_mbps: Binary64::from_u64(100) },
            direction: Direction::Download,
            concurrent_flows: 1,
            packet_sizes: PacketSizeDistribution::Fixed(1400),
        };
        assert(r@.description =~= Seq::<char>::empty());
        r
    }

    /// Set the description.
    pub fn description(self, desc: &str) -> (r: ScenarioBuilder)
        ensures
            r@ == (TestScenarioView { description: desc@, ..self@ }),
    {
        ScenarioBuilder { description: copy_of(desc), ..self }
    }

    /// Set the length (nanoseconds).
    pub fn duration(self, duration: u64) -> (r: ScenarioBuilder)
        ensures
            r@ == (TestScenarioView { duration: duration, ..self@ }),
    {
        ScenarioBuilder { duration, ..self }
    }

    /// Set the traffic pattern.
    pub fn pattern(self, pattern: TrafficPattern) -> (r: ScenarioBuilder)
        ensures
            r@ == (TestScenarioView { pattern: pattern, ..self@ }),
    {
        ScenarioBuilder { pattern, ..self }
    }

    /// Set the direction.
    pub fn direction(self, direction: Direction) -> (r: ScenarioBuilder)
        ensures
            r@ == (TestScenarioView { direction: direction, ..self@ }),
    {
        ScenarioBuilder { direction, ..self }
    }

    /// Set the number of flows.
    pub fn concurrent_flows(self, flows: usize) -> (r: ScenarioBuilder)
        ensures
            r@ == (TestScenarioView { concurrent_flows: flows, ..self@ }),
    {
        ScenarioBuilder { concurrent_flows: flows, ..self }
    }

    /// Set the packet sizes.
    pub fn packet_sizes(self, sizes: PacketSizeDistribution) -> (r: ScenarioBuilder)
        ensures
            r@ == (TestScenarioView { packet_sizes: sizes, ..self@ }),
    {
        ScenarioBuilder { packet_sizes: sizes, ..self }
    }

    /// The scenario.
    pub fn build(self) -> (r: TestScenario)
        ensures
            r@ == self@,
    {
        TestScenario {
            name: self.name,
            description: self.description,
            duration: self.duration,
            pattern: self.pattern,
            direction: self.direction,
            concurrent_flows: self.concurrent_flows,
            packet_sizes: self.packet_sizes,
        }
    }
}

impl TestScenario {
    /// Calculate expected throughput for scenario (Mbps).
    pub fn expected_throughput_mbps(&self) -> (r: Binary64)
        ensures
            r == self@.expected_mbps(),
    {
        match self.pattern {
            TrafficPattern::ConstantBitrate { bitrate_mbps } => bitrate_mbps,
            TrafficPattern::Burst { peak_mbps, base_mbps, .. } => peak_mbps.plus(base_mbps).over(
                Binary64::from_u64(2),
            ),
            TrafficPattern::Ramp { start_mbps, end_mbps, .. } => start_mbps.plus(end_mbps).over(
                Binary64::from_u64(2),
            ),
            TrafficPattern::Realistic => Binary64::from_u64(150),
        }
    }

    /// Get average packet size for scenario.
    pub fn avg_packet_size(&self) -> (r: usize)
        requires
            self.packet_sizes matches PacketSizeDistribution::Uniform { min, max } ==> min + max <= usize::MAX,
        ensures
            r == if self@.mean_size() <= usize::MAX {
                self@.mean_size()
            } else {
                usize::MAX as nat
            },
    {
        match self.packet_sizes {
            PacketSizeDistribution::Fixed(size) => size,
            PacketSizeDistribution::Uniform { min, max } => (min + max) / 2,
            PacketSizeDistribution::Bimodal { small, large, small_ratio } => {
                let rest: Binary64 = Binary64::from_u64(1).minus(small_ratio);
                let size: u64 = Binary64::from_u64(small as u64).times(small_ratio).plus(
                    Binary64::from_u64(large as u64).times(rest),
                ).to_u64();
                if size <= usize::MAX as u64 {
                    size as usize
                } else {
                    usize::MAX
                }
            },
            PacketSizeDistribution::Realistic => 800,
        }
    }
}

/// The predefined test scenarios.
pub open spec fn predefined() -> Seq<TestScenarioView> {
    seq![
        TestScenarioView {
            name: "single_link_saturation"@,
            description: "Saturate fastest single link (Starlink ~220 Mbps)"@,
            duration: 30_000_000_000,
            pattern: TrafficPattern::ConstantBitrate { bitrate_mbps: Binary64::of_nat(220) },
            direction: Direction::Download,
            concurrent_flows: 1,
            packet_sizes: PacketSizeDistribution::Fixed(1400),
        },
        TestScenarioView {
            name: "full_aggregation"@,
            description: "Test full link aggregation at max capacity"@,
            duration: 60_000_000_000,
            pattern: TrafficPattern::ConstantBitrate { bitrate_mbps: Binary64::of_nat(400) },
            direction: Direction::Download,
            concurrent_flows: 4,
            packet_sizes: PacketSizeDistribution::Fixed(1400),
        },
        TestScenarioView {
            name: "burst_handling"@,
            description: "Test burst traffic handling"@,
            duration: 60_000_000_000,
            pattern: TrafficPattern::Burst {
                peak_mbps: Binary64::of_nat(500),
                base_mbps: Binary64::of_nat(50),
                burst_duration_ms: 1000,
            },
            direction: Direction::Bidirectional,
            concurrent_flows: 2,
            packet_sizes: PacketSizeDistribution::Fixed(1400),
        },
        TestScenarioView {
            name: "latency_sensitive"@,
            description: "Low bandwidth latency-sensitive traffic (gaming/VoIP)"@,
            duration: 30_000_000_000,
            pattern: TrafficPattern::ConstantBitrate { bitrate_mbps: Binary64::of_nat(1) },
            direction: Direction::Bidirectional,
            concurrent_flows: 1,
            packet_sizes: PacketSizeDistribution::Fixed(64),
        },
        TestScenarioView {
            name: "mixed_realistic"@,
            description: "Real-world mixed traffic pattern"@,
            duration: 120_000_000_000,
            pattern: TrafficPattern::Realistic,
            direction: Direction::Bidirectional,
            concurrent_flows: 10,
            packet_sizes: PacketSizeDistribution::Realistic,
        },
        TestScenarioView {
            name: "upload_stress"@,
            description: "Saturate upload bandwidth (max ~62 Mbps combined)"@,
            duration: 60_000_000_000,
            pattern: TrafficPattern::ConstantBitrate { bitrate_mbps: Binary64::of_nat(70) },
            direction: Direction::Upload,
            concurrent_flows: 3,
            packet_sizes: PacketSizeDistribution::Fixed(1400),
        },
        TestScenarioView {
            name: "capacity_ramp"@,
            description: "Gradually increase load to find saturation point"@,
            duration: 120_000_000_000,
            pattern: TrafficPattern::Ramp {
                start_mbps: Binary64::of_nat(10),
                end_mbps: Binary64::of_nat(500),
                duration_secs: 120,
            },
            direction: Direction::Download,
            concurrent_flows: 4,
            packet_sizes: PacketSizeDistribution::Fixed(1400),
        },
    ]
}

/// Predefined test scenarios.
pub fn standard_scenarios() -> (r: Vec<TestScenario>)
    ensures
        r@.map_values(|s: TestScenario| s@) == predefined(),
{
    let r: Vec<TestScenario> = vec![
        ScenarioBuilder::new("single_link_saturation").description("Saturate fastest single link (Starlink ~220 Mbps)").duration(30_000_000_000).pattern(
            TrafficPattern::ConstantBitrate { bitrate_mbps: Binary64::from_u64(220) },
        ).direction(Direction::Download).concurrent_flows(1).build(),
        ScenarioBuilder::new("full_aggregation").description("Test full link aggregation at max capacity").duration(60_000_000_000).pattern(
            TrafficPattern::ConstantBitrate { bitrate_mbps: Binary64::from_u64(400) },
        ).direction(Direction::Download).concurrent_flows(4).build(),
        ScenarioBuilder::new("burst_handling").description("Test burst traffic handling").duration(60_000_000_000).pattern(
            TrafficPattern::Burst {
                peak_mbps: Binary64::from_u64(500),
                base_mbps: Binary64::from_u64(50),
                burst_duration_ms: 1000,
            },
        ).direction(Direction::Bidirectional).concurrent_flows(2).build(),
        ScenarioBuilder::new("latency_sensitive").description("Low bandwidth latency-sensitive traffic (gaming/VoIP)").duration(30_000_000_000).pattern(
            TrafficPattern::ConstantBitrate { bitrate_mbps: Binary64::from_u64(1) },
        ).direction(Direction::Bidirectional).concurrent_flows(1).packet_sizes(PacketSizeDistribution::Fixed(64)).build(),
        ScenarioBuilder::new("mixed_realistic").description("Real-world mixed traffic pattern").duration(120_000_000_000).pattern(
            TrafficPattern::Realistic,
        ).direction(Direction::Bidirectional).concurrent_flows(10).packet_sizes(PacketSizeDistribution::Realistic).build(),
        ScenarioBuilder::new("upload_stress").description("Saturate upload bandwidth (max ~62 Mbps combined)").duration(60_000_000_000).pattern(
            TrafficPattern::ConstantBitrate { bitrate_mbps: Binary64::from_u64(70) },
        ).direction(Direction::Upload).concurrent_flows(3).build(),
        ScenarioBuilder::new("capacity_ramp").description("Gradually increase load to find saturation point").duration(120_000_000_000).pattern(
            TrafficPattern::Ramp {
                start_mbps: Binary64::from_u64(10),
                end_mbps: Binary64::from_u64(500),
                duration_secs: 120,
            },
        ).direction(Direction::Download).concurrent_flows(4).build(),
    ];
    assert(r@.map_values(|s: TestScenario| s@) =~= predefined());
    r
}

/// A burst and a ramp are expected half way between their rates, a constant
/// rate as it is.  (Integers.)
pub proof fn law_expected_rate(s: TestScenarioView, a: nat, b: nat)
    requires
        a + b < 0x20_0000_0000_0000,
    ensures
        (s.pattern matches TrafficPattern::ConstantBitrate { bitrate_mbps } ==> s.expected_mbps() == bitrate_mbps),
        (s.pattern matches TrafficPattern::Burst { peak_mbps, base_mbps, .. } ==> peak_mbps == Binary64::of_nat(a)
            && base_mbps == Binary64::of_nat(b) ==> s.expected_mbps() == Binary64::fraction(a + b, 2)),
        (s.pattern matches TrafficPattern::Ramp { start_mbps, end_mbps, .. } ==> start_mbps == Binary64::of_nat(a)
            && end_mbps == Binary64::of_nat(b) ==> s.expected_mbps() == Binary64::fraction(a + b, 2)),
{
    crate::accuracy::lemma_whole_sum(a, b);
}

/// The mean size of packets of two sizes lies between them by their shares, to
/// one byte; of packets of any size between two bounds half way between.
pub proof fn law_mean_size(s: TestScenarioView, p: nat, q: nat)
    requires
        0 < q <= 100,
        p <= q,
    ensures
        (s.packet_sizes matches PacketSizeDistribution::Fixed(size) ==> s.mean_size() == size),
        (s.packet_sizes matches PacketSizeDistribution::Uniform { min, max } ==> 2 * s.mean_size() <= min + max < 2
            * s.mean_size() + 2),
        (s.packet_sizes matches PacketSizeDistribution::Bimodal { small, large, small_ratio } ==> small_ratio
            == Binary64::fraction(p, q) && small < 0x100_0000_0000 && large < 0x100_0000_0000 ==> q * s.mean_size() <= p
            * small + (q - p) * large <= q * (s.mean_size() + 1)),
{
    if let PacketSizeDistribution::Bimodal { small, large, small_ratio } = s.packet_sizes {
        if small_ratio == Binary64::fraction(p, q) && small < 0x100_0000_0000 && large < 0x100_0000_0000 {
            crate::accuracy::lemma_mean_is_close(p, q, small as nat, large as nat);
            crate::accuracy::lemma_product_commutes(Binary64::of_nat(small as nat), small_ratio);
            crate::accuracy::lemma_product_commutes(
                Binary64::of_nat(large as nat),
                Binary64::of_nat(1).difference(small_ratio),
            );
        }
    }
}

} // verus!
