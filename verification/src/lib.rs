//! Multi-WAN UDP bonding.
//!
//! The logic of a tunnel that bonds several WAN links: the wire protocol,
//! rate control, link scheduling, flow classification, chunk aggregation and
//! reordering, throughput optimisation, statistics, configuration, and a
//! framework for comparing configurations.  But for readings of the wall clock
//! everything here is a function of its arguments: sockets, threads and files
//! belong to the programs around it, and so does the monotonic clock, whose
//! instants come in as nanoseconds.

use vstd::prelude::*;

pub mod accuracy;
pub mod binary64;
pub mod calendar;
pub mod chunk_aggregator;
pub mod client;
pub mod clock;
pub mod config;
pub mod flow_classifier;
pub mod framework;
pub mod link_scheduler;
pub mod measure;
pub mod metrics;
pub mod optimizer;
pub mod order;
pub mod protocol;
pub mod rate_controller;
pub mod receiver;
pub mod report;
pub mod root;
pub mod scenarios;
pub mod share;
pub mod shortest;
pub mod stats;
pub mod text;
pub mod usage;
pub mod wire;

pub use chunk_aggregator::{Chunk, ChunkAggregator};
pub use config::{Config, ConfigManager, RateControlConfig};
pub use flow_classifier::{FlowClassifier, FlowClassifierStats, FlowMode, FlowState};
pub use framework::{create_standard_tests, ABTest, TestConfig, TestPhase, TestResult, TestSuite};
pub use link_scheduler::{LinkHealth, LinkScheduler, ScheduleDecision};
pub use metrics::{LinkMetrics, Metrics, MetricsCollector};
pub use protocol::{
    AckPacket, AnnouncePacket, ChunkId, ChunkPacket, FlowId, KeepalivePacket, Packet, PathState, ProbePacket,
    StatsPacket, MSG_ACK, MSG_ANNOUNCE, MSG_DATA, MSG_KEEPALIVE, MSG_PROBE, MSG_STATS,
};
pub use rate_controller::RateController;
pub use receiver::{ChunkReceiver, ReassemblyBuffer};
pub use report::TestReport;
pub use scenarios::{ScenarioBuilder, TestScenario};
pub use stats::{LinkStats, StatsCollector};

verus! {

/// Number of WAN links.
pub const NUM_LINKS: usize = 5;

/// Server (VPS) public IP; change this to your server's public IP address.
pub const SERVER_PUBLIC_IP: &'static str = "YOUR_SERVER_IP";

/// Name of the TUN device.
pub const TUN_NAME: &'static str = "tun-bond";

/// The server's address in the tunnel.
pub const TUN_SERVER_IP: &'static str = "10.99.0.1";

/// The client's address in the tunnel.
pub const TUN_CLIENT_IP: &'static str = "10.99.0.2";

/// MTU of the TUN device.
pub const TUN_MTU: u32 = 1400;

/// Kinds of WAN links.
#[derive(Debug, Clone, Copy, PartialEq, Eq, Structural)]
pub enum LinkType {
    Adsl,
    Starlink,
}

/// A WAN link.
#[derive(Debug, Clone, Copy)]
pub struct LinkInfo {
    pub id: usize,
    pub link_type: LinkType,
    /// Client's network interface name
    pub interface: &'static str,
    /// Client's local IP on this interface
    pub client_bind_ip: &'static str,
    /// Server port for this link
    pub port: u16,
    /// Expected download bandwidth (bytes/sec)
    pub expected_bandwidth_down: u64,
    /// Expected upload bandwidth (bytes/sec)
    pub expected_bandwidth_up: u64,
    /// Expected round-trip time (ms)
    pub expected_rtt_ms: u32,
}

impl LinkInfo {
    /// An ADSL link: 60 Mbps down, 11 Mbps up, 20 ms.
    pub open spec fn adsl(id: usize, interface: &'static str, client_bind_ip: &'static str) -> LinkInfo {
        LinkInfo {
            id,
            link_type: LinkType::Adsl,
            interface,
            client_bind_ip,
            port: (50001 + id) as u16,
            expected_bandwidth_down: 7_500_000,
            expected_bandwidth_up: 1_375_000,
            expected_rtt_ms: 20,
        }
    }

    /// A Starlink link: 220 Mbps down, 20 Mbps up, 40 ms.
    pub open spec fn starlink(id: usize, interface: &'static str, client_bind_ip: &'static str) -> LinkInfo {
        LinkInfo {
            id,
            link_type: LinkType::Starlink,
            interface,
            client_bind_ip,
            port: (50001 + id) as u16,
            expected_bandwidth_down: 27_500_000,
            expected_bandwidth_up: 2_500_000,
            expected_rtt_ms: 40,
        }
    }
}

/// The example links.  A client binds to its local IP and sends to the
/// server's port of the link; the server learns the client's address from
/// incoming packets.  Change interfaces and addresses for your network.
pub fn links() -> (r: [LinkInfo; NUM_LINKS])
    ensures
        r@ == seq![
            LinkInfo::adsl(0, "eth0", "10.0.0.1"),
            LinkInfo::starlink(1, "eth1", "10.0.1.1"),
            LinkInfo::adsl(2, "eth2", "10.0.2.1"),
            LinkInfo::starlink(3, "eth3", "10.0.3.1"),
            LinkInfo::adsl(4, "eth4", "10.0.4.1"),
        ],
{
    let r: [LinkInfo; NUM_LINKS] = [
        adsl_link(0, "eth0", "10.0.0.1"),
        starlink_link(1, "eth1", "10.0.1.1"),
        adsl_link(2, "eth2", "10.0.2.1"),
        starlink_link(3, "eth3", "10.0.3.1"),
        adsl_link(4, "eth4", "10.0.4.1"),
    ];
    assert(r@ =~= seq![
        LinkInfo::adsl(0, "eth0", "10.0.0.1"),
        LinkInfo::starlink(1, "eth1", "10.0.1.1"),
        LinkInfo::adsl(2, "eth2", "10.0.2.1"),
        LinkInfo::starlink(3, "eth3", "10.0.3.1"),
        LinkInfo::adsl(4, "eth4", "10.0.4.1"),
    ]);
    r
}

fn adsl_link(id: usize, interface: &'static str, client_bind_ip: &'static str) -> (r: LinkInfo)
    requires
        id < NUM_LINKS,
    ensures
        r == LinkInfo::adsl(id, interface, client_bind_ip),
{
    LinkInfo {
        id,
        link_type: LinkType::Adsl,
        interface,
        client_bind_ip,
        port: 50001 + id as u16,
        expected_bandwidth_down: 7_500_000,
        expected_bandwidth_up: 1_375_000,
        expected_rtt_ms: 20,
    }
}

fn starlink_link(id: usize, interface: &'static str, client_bind_ip: &'static str) -> (r: LinkInfo)
    requires
        id < NUM_LINKS,
    ensures
        r == LinkInfo::starlink(id, interface, client_bind_ip),
{
    LinkInfo {
        id,
        link_type: LinkType::Starlink,
        interface,
        client_bind_ip,
        port: 50001 + id as u16,
        expected_bandwidth_down: 27_500_000,
        expected_bandwidth_up: 2_500_000,
        expected_rtt_ms: 40,
    }
}

/// Every link has the server's port of its number, and the rates and time of
/// its kind: 60 and 11 Mbps and 20 ms by ADSL, 220 and 20 Mbps and 40 ms by
/// Starlink.
pub proof fn law_links_by_kind(id: usize, interface: &'static str, client_bind_ip: &'static str)
    requires
        id < NUM_LINKS,
    ensures
        ({
            let a = LinkInfo::adsl(id, interface, client_bind_ip);
            let s = LinkInfo::starlink(id, interface, client_bind_ip);
            &&& a.link_type is Adsl && s.link_type is Starlink
            &&& a.id == id && s.id == id
            &&& a.port == 50001 + id && s.port == 50001 + id
            &&& a.expected_bandwidth_down == 60 * 125_000 && a.expected_bandwidth_up == 11 * 125_000
            &&& s.expected_bandwidth_down == 220 * 125_000 && s.expected_bandwidth_up == 20 * 125_000
            &&& a.expected_rtt_ms == 20 && s.expected_rtt_ms == 40
            &&& a.interface == interface && s.interface == interface
            &&& a.client_bind_ip == client_bind_ip && s.client_bind_ip == client_bind_ip
        }),
{
}

} // verus!
