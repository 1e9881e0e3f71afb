//! Wire protocol.
//!
//! Data travels in chunks, announced ahead of time for coordinated delivery
//! over several links.  Every packet starts with a byte that tells its type;
//! integers are big-endian; bytes behind a packet's own are ignored.

use crate::wire::{be, be_bytes, byte_range, copy_range, get_be, lemma_be_bytes_len, lemma_be_round_trip,
    lemma_byte_ranges, put_be, put_bytes};
use vstd::prelude::*;

verus! {

/// Packet type of [`ChunkPacket`].
pub const MSG_DATA: u8 = 0x01;

/// Packet type of [`AnnouncePacket`].
pub const MSG_ANNOUNCE: u8 = 0x02;

/// Packet type of [`AckPacket`].
pub const MSG_ACK: u8 = 0x03;

/// Packet type of [`StatsPacket`].
pub const MSG_STATS: u8 = 0x04;

/// Packet type of [`KeepalivePacket`].
pub const MSG_KEEPALIVE: u8 = 0x05;

/// Packet type of [`ProbePacket`].
pub const MSG_PROBE: u8 = 0x06;

/// Maximum chunk payload size (1 MB).
pub const MAX_CHUNK_PAYLOAD: usize = 1_048_576;

/// Chunk header size: type(1) + chunk_id(8) + link_id(1) + total_size(4) +
/// offset(4) + payload_len(2).
pub const CHUNK_HEADER_SIZE: usize = 20;

/// Announcement size: type(1) + chunk_id(8) + link_id(1) + expected_size(4) +
/// timestamp(8).
pub const ANNOUNCE_HEADER_SIZE: usize = 22;

// ---------------------------------------------------------------------------
// Flows
// ---------------------------------------------------------------------------

/// Flow identifier (5-tuple hash).
#[derive(Debug, Clone, Copy, PartialEq, Eq, Hash, Structural)]
pub struct FlowId(pub u64);

/// Whether `packet` starts with an IPv4 version nibble.
pub open spec fn is_ipv4(packet: Seq<u8>) -> bool {
    packet[0] / 16 == 4
}

/// Length of the IPv4 header that `packet` starts with.
pub open spec fn header_len(packet: Seq<u8>) -> int {
    (packet[0] % 16) * 4
}

/// The transport ports of an IPv4 packet; zeros where it has none.
pub open spec fn ports(packet: Seq<u8>) -> (nat, nat) {
    let ihl = header_len(packet);
    if packet.len() >= ihl + 4 && (packet[9] == 6 || packet[9] == 17) {
        (be(packet.subrange(ihl, ihl + 2)), be(packet.subrange(ihl + 2, ihl + 4)))
    } else {
        (0, 0)
    }
}

/// The identifier field of an ICMP packet; zero where it is cut off.
pub open spec fn echo_identifier(packet: Seq<u8>) -> nat {
    let ihl = header_len(packet);
    if packet.len() >= ihl + 6 {
        be(packet.subrange(ihl + 4, ihl + 6))
    } else {
        0
    }
}

/// Appends a digit in base 31.
fn mix(hash: u64, digit: u64) -> (r: u64)
    requires
        hash * 31 + digit <= u64::MAX,
    ensures
        r == hash * 31 + digit,
{
    hash.wrapping_mul(31).wrapping_add(digit)
}

impl FlowId {
    /// The flow of an IPv4 packet: addresses, ports and protocol as the digits
    /// of a number in base 31.
    pub open spec fn of_packet(packet: Seq<u8>) -> Option<FlowId> {
        if packet.len() < 20 || !is_ipv4(packet) {
            None
        } else {
            let src = be(packet.subrange(12, 16));
            let dst = be(packet.subrange(16, 20));
            let (sport, dport) = ports(packet);
            Some(FlowId((src * 923521 + dst * 29791 + sport * 961 + dport * 31 + packet[9] as nat) as u64))
        }
    }

    /// The flow of an ICMP packet: addresses, identifier and protocol.
    pub open spec fn of_echo(packet: Seq<u8>) -> Option<FlowId> {
        if packet.len() < 28 || !is_ipv4(packet) || packet[9] != 1 {
            None
        } else {
            let src = be(packet.subrange(12, 16));
            let dst = be(packet.subrange(16, 20));
            Some(FlowId((src * 29791 + dst * 961 + echo_identifier(packet) * 31 + 1) as u64))
        }
    }

    /// Flow ID of an IP packet, or `None` if it is no IPv4 packet.
    pub fn from_packet(packet: &[u8]) -> (r: Option<FlowId>)
        ensures
            r == Self::of_packet(packet@),
    {
        if packet.len() < 20 {
            return None;
        }
        let first: u8 = packet[0];
        if first / 16 != 4 {
            return None;
        }
        let ihl: usize = (first % 16) as usize * 4;
        let protocol: u8 = packet[9];
        let src_ip: u64 = get_be(packet, 12, 4);
        let dst_ip: u64 = get_be(packet, 16, 4);
        let (src_port, dst_port): (u64, u64) = if packet.len() >= ihl + 4 && (protocol == 6 || protocol == 17) {
            (get_be(packet, ihl, 2), get_be(packet, ihl + 2, 2))
        } else {
            (0, 0)
        };
        proof {
            lemma_byte_ranges();
        }
        let hash: u64 = mix(mix(mix(mix(src_ip, dst_ip), src_port), dst_port), protocol as u64);
        Some(FlowId(hash))
    }

    /// Flow ID of an ICMP packet, or `None` if it is none.
    pub fn from_icmp(packet: &[u8]) -> (r: Option<FlowId>)
        ensures
            r == Self::of_echo(packet@),
    {
        Self::from_echo(packet)
    }

    fn from_echo(packet: &[u8]) -> (r: Option<FlowId>)
        ensures
            r == Self::of_echo(packet@),
    {
        if packet.len() < 28 {
            return None;
        }
        let first: u8 = packet[0];
        if first / 16 != 4 {
            return None;
        }
        let ihl: usize = (first % 16) as usize * 4;
        let protocol: u8 = packet[9];
        if protocol != 1 {
            return None;
        }
        let src_ip: u64 = get_be(packet, 12, 4);
        let dst_ip: u64 = get_be(packet, 16, 4);
        let identifier: u64 = if packet.len() >= ihl + 6 {
            get_be(packet, ihl + 4, 2)
        } else {
            0
        };
        proof {
            lemma_byte_ranges();
        }
        let hash: u64 = mix(mix(mix(src_ip, dst_ip), identifier), protocol as u64);
        Some(FlowId(hash))
    }
}

// ---------------------------------------------------------------------------
// Data chunks
// ---------------------------------------------------------------------------

/// Chunk identifier.
#[derive(Debug, Clone, Copy, PartialEq, Eq, Hash, Structural)]
pub struct ChunkId(pub u64);

impl ChunkId {
    /// The identifier after this one; the greatest is followed by zero.
    pub fn next(&self) -> (r: ChunkId)
        ensures
            r.0 == if self.0 == u64::MAX {
                0
            } else {
                self.0 + 1
            },
    {
        ChunkId(self.0.wrapping_add(1))
    }
}

/// Data chunk packet.
#[derive(Debug, Clone)]
pub struct ChunkPacket {
    /// Unique chunk identifier
    pub chunk_id: ChunkId,
    /// Link this chunk is being sent on
    pub link_id: u8,
    /// Total size of the chunk (for multi-fragment chunks)
    pub total_size: u32,
    /// Offset within the chunk (for fragmentation)
    pub offset: u32,
    /// Payload data
    pub payload: Vec<u8>,
}

/// What a [`ChunkPacket`] holds.
pub struct ChunkView {
    pub chunk_id: ChunkId,
    pub link_id: u8,
    pub total_size: u32,
    pub offset: u32,
    pub payload: Seq<u8>,
}

impl View for ChunkPacket {
    type V = ChunkView;

    open spec fn view(&self) -> ChunkView {
        ChunkView {
            chunk_id: self.chunk_id,
            link_id: self.link_id,
            total_size: self.total_size,
            offset: self.offset,
            payload: self.payload@,
        }
    }
}

impl ChunkView {
    /// The packet on the wire.  The length field holds the payload's length
    /// modulo 65536.
    pub open spec fn wire(self) -> Seq<u8> {
        seq![MSG_DATA] + be_bytes(self.chunk_id.0 as nat, 8) + seq![self.link_id] + be_bytes(
            self.total_size as nat,
            4,
        ) + be_bytes(self.offset as nat, 4) + be_bytes(self.payload.len() % 65536, 2) + self.payload
    }

    /// The packet that `buf` starts with.
    pub open spec fn parse(buf: Seq<u8>) -> Option<ChunkView> {
        if buf.len() < CHUNK_HEADER_SIZE || buf[0] != MSG_DATA {
            None
        } else {
            let len = be(buf.subrange(18, 20)) as int;
            if buf.len() < CHUNK_HEADER_SIZE + len {
                None
            } else {
                Some(
                    ChunkView {
                        chunk_id: ChunkId(be(buf.subrange(1, 9)) as u64),
                        link_id: buf[9],
                        total_size: be(buf.subrange(10, 14)) as u32,
                        offset: be(buf.subrange(14, 18)) as u32,
                        payload: buf.subrange(20, 20 + len),
                    },
                )
            }
        }
    }
}

impl ChunkPacket {
    /// Encode chunk packet to bytes.
    pub fn encode(&self) -> (buf: Vec<u8>)
        ensures
            buf@ == self@.wire(),
    {
        let payload_len: u64 = (self.payload.len() % 65536) as u64;
        let mut buf: Vec<u8> = Vec::new();
        buf.push(MSG_DATA);
        assert(buf@ =~= seq![MSG_DATA]);
        put_be(&mut buf, self.chunk_id.0, 8);
        let ghost before = buf@;
        buf.push(self.link_id);
        assert(buf@ =~= before + seq![self.link_id]);
        put_be(&mut buf, self.total_size as u64, 4);
        put_be(&mut buf, self.offset as u64, 4);
        put_be(&mut buf, payload_len, 2);
        put_bytes(&mut buf, &self.payload);
        buf
    }

    /// Decode chunk packet from bytes.
    pub fn decode(buf: &[u8]) -> (r: Option<ChunkPacket>)
        ensures
            r is Some == ChunkView::parse(buf@) is Some,
            r is Some ==> ChunkView::parse(buf@) == Some(r->0@),
    {
        if buf.len() < CHUNK_HEADER_SIZE {
            return None;
        }
        if buf[0] != MSG_DATA {
            return None;
        }
        proof {
            lemma_byte_ranges();
        }
        let chunk_id: ChunkId = ChunkId(get_be(buf, 1, 8));
        let link_id: u8 = buf[9];
        let total_size: u32 = get_be(buf, 10, 4) as u32;
        let offset: u32 = get_be(buf, 14, 4) as u32;
        let payload_len: usize = get_be(buf, 18, 2) as usize;
        if buf.len() < CHUNK_HEADER_SIZE + payload_len {
            return None;
        }
        let payload: Vec<u8> = copy_range(buf, CHUNK_HEADER_SIZE, CHUNK_HEADER_SIZE + payload_len);
        Some(ChunkPacket { chunk_id, link_id, total_size, offset, payload })
    }
}

// ---------------------------------------------------------------------------
// Announcements
// ---------------------------------------------------------------------------

/// Announcement packet, sent ahead of data to pre-allocate buffer space.
#[derive(Debug, Clone, Copy, PartialEq, Eq, Structural)]
pub struct AnnouncePacket {
    /// Chunk being announced
    pub chunk_id: ChunkId,
    /// Link the chunk will arrive on
    pub link_id: u8,
    /// Expected total size
    pub expected_size: u32,
    /// Send timestamp (microseconds since epoch)
    pub timestamp_us: u64,
}

impl AnnouncePacket {
    /// The packet on the wire.
    pub open spec fn wire(self) -> Seq<u8> {
        seq![MSG_ANNOUNCE] + be_bytes(self.chunk_id.0 as nat, 8) + seq![self.link_id] + be_bytes(
            self.expected_size as nat,
            4,
        ) + be_bytes(self.timestamp_us as nat, 8)
    }

    /// The packet that `buf` starts with.
    pub open spec fn parse(buf: Seq<u8>) -> Option<AnnouncePacket> {
        if buf.len() < ANNOUNCE_HEADER_SIZE || buf[0] != MSG_ANNOUNCE {
            None
        } else {
            Some(
                AnnouncePacket {
                    chunk_id: ChunkId(be(buf.subrange(1, 9)) as u64),
                    link_id: buf[9],
                    expected_size: be(buf.subrange(10, 14)) as u32,
                    timestamp_us: be(buf.subrange(14, 22)) as u64,
                },
            )
        }
    }

    /// Encode announcement to bytes.
    pub fn encode(&self) -> (buf: Vec<u8>)
        ensures
            buf@ == self.wire(),
    {
        let mut buf: Vec<u8> = Vec::new();
        buf.push(MSG_ANNOUNCE);
        assert(buf@ =~= seq![MSG_ANNOUNCE]);
        put_be(&mut buf, self.chunk_id.0, 8);
        let ghost before = buf@;
        buf.push(self.link_id);
        assert(buf@ =~= before + seq![self.link_id]);
        put_be(&mut buf, self.expected_size as u64, 4);
        put_be(&mut buf, self.timestamp_us, 8);
        buf
    }

    /// Decode announcement from bytes.
    pub fn decode(buf: &[u8]) -> (r: Option<AnnouncePacket>)
        ensures
            r == Self::parse(buf@),
    {
        if buf.len() < ANNOUNCE_HEADER_SIZE {
            return None;
        }
        if buf[0] != MSG_ANNOUNCE {
            return None;
        }
        proof {
            lemma_byte_ranges();
        }
        Some(
            AnnouncePacket {
                chunk_id: ChunkId(get_be(buf, 1, 8)),
                link_id: buf[9],
                expected_size: get_be(buf, 10, 4) as u32,
                timestamp_us: get_be(buf, 14, 8),
            },
        )
    }
}

// ---------------------------------------------------------------------------
// Acknowledgements
// ---------------------------------------------------------------------------

/// ACK packet: acknowledges chunk receipt for RTT measurement.
#[derive(Debug, Clone, Copy, PartialEq, Eq, Structural)]
pub struct AckPacket {
    /// Chunk being acknowledged
    pub chunk_id: ChunkId,
    /// Link it was received on
    pub link_id: u8,
    /// Original send timestamp (echoed back)
    pub echo_timestamp_us: u64,
    /// Receive timestamp
    pub recv_timestamp_us: u64,
}

impl AckPacket {
    pub const SIZE: usize = 26;

    /// The packet on the wire.
    pub open spec fn wire(self) -> Seq<u8> {
        seq![MSG_ACK] + be_bytes(self.chunk_id.0 as nat, 8) + seq![self.link_id] + be_bytes(
            self.echo_timestamp_us as nat,
            8,
        ) + be_bytes(self.recv_timestamp_us as nat, 8)
    }

    /// The packet that `buf` starts with.
    pub open spec fn parse(buf: Seq<u8>) -> Option<AckPacket> {
        if buf.len() < Self::SIZE || buf[0] != MSG_ACK {
            None
        } else {
            Some(
                AckPacket {
                    chunk_id: ChunkId(be(buf.subrange(1, 9)) as u64),
                    link_id: buf[9],
                    echo_timestamp_us: be(buf.subrange(10, 18)) as u64,
                    recv_timestamp_us: be(buf.subrange(18, 26)) as u64,
                },
            )
        }
    }

    /// Encode ACK to bytes.
    pub fn encode(&self) -> (buf: Vec<u8>)
        ensures
            buf@ == self.wire(),
    {
        let mut buf: Vec<u8> = Vec::new();
        buf.push(MSG_ACK);
        assert(buf@ =~= seq![MSG_ACK]);
        put_be(&mut buf, self.chunk_id.0, 8);
        let ghost before = buf@;
        buf.push(self.link_id);
        assert(buf@ =~= before + seq![self.link_id]);
        put_be(&mut buf, self.echo_timestamp_us, 8);
        put_be(&mut buf, self.recv_timestamp_us, 8);
        buf
    }

    /// Decode ACK from bytes.
    pub fn decode(buf: &[u8]) -> (r: Option<AckPacket>)
        ensures
            r == Self::parse(buf@),
    {
        if buf.len() < Self::SIZE {
            return None;
        }
        if buf[0] != MSG_ACK {
            return None;
        }
        proof {
            lemma_byte_ranges();
        }
        Some(
            AckPacket {
                chunk_id: ChunkId(get_be(buf, 1, 8)),
                link_id: buf[9],
                echo_timestamp_us: get_be(buf, 10, 8),
                recv_timestamp_us: get_be(buf, 18, 8),
            },
        )
    }
}

// ---------------------------------------------------------------------------
// Statistics
// ---------------------------------------------------------------------------

/// Statistics packet - bandwidth and latency of a link.  On the wire it is a
/// frame round a JSON object with these fields; what turns a packet into JSON
/// text and back is handed in by the caller.
#[derive(Debug, Clone, Copy, PartialEq, Eq, Structural)]
pub struct StatsPacket {
    /// Link ID
    pub link_id: u8,
    /// Measured bandwidth (bytes/sec)
    pub bandwidth_bps: u64,
    /// Measured RTT (microseconds)
    pub rtt_us: u64,
    /// Packet loss ratio (0.0 - 1.0), as the bits of a binary32 value
    pub loss_ratio: u32,
    /// Timestamp
    pub timestamp_us: u64,
}

impl StatsPacket {
    /// The frame round `body` on the wire.  The length field holds the body's
    /// length modulo 65536.
    pub open spec fn wire(body: Seq<u8>) -> Seq<u8> {
        seq![MSG_STATS] + be_bytes(body.len() % 65536, 2) + body
    }

    /// The body of the frame that `buf` starts with.
    pub open spec fn body(buf: Seq<u8>) -> Option<Seq<u8>> {
        if buf.len() < 4 || buf[0] != MSG_STATS {
            None
        } else {
            let len = be(buf.subrange(1, 3)) as int;
            if buf.len() < 3 + len {
                None
            } else {
                Some(buf.subrange(3, 3 + len))
            }
        }
    }

    /// Whether `r` is the packet that `buf` starts with: what `read` makes of
    /// the frame's body, and nothing without a whole frame.
    pub open spec fn decoded<R: Fn(Vec<u8>) -> Option<StatsPacket>>(
        read: R,
        buf: Seq<u8>,
        r: Option<StatsPacket>,
    ) -> bool {
        match Self::body(buf) {
            Some(body) => exists|b: Vec<u8>| b@ == body && #[trigger] read.ensures((b,), r),
            None => r is None,
        }
    }

    /// Encode stats to bytes.  `write` gives the packet as JSON text, empty
    /// where it has none.
    pub fn encode<W: Fn(StatsPacket) -> Vec<u8>>(&self, write: W) -> (buf: Vec<u8>)
        requires
            write.requires((*self,)),
        ensures
            exists|body: Vec<u8>| #[trigger] write.ensures((*self,), body) && buf@ == Self::wire(body@),
    {
        let body: Vec<u8> = write(*self);
        let mut buf: Vec<u8> = Vec::new();
        buf.push(MSG_STATS);
        assert(buf@ =~= seq![MSG_STATS]);
        put_be(&mut buf, (body.len() % 65536) as u64, 2);
        put_bytes(&mut buf, &body);
        buf
    }

    /// Decode stats from bytes.  `read` gives the packet that a JSON text
    /// stands for, if any.
    pub fn decode<R: Fn(Vec<u8>) -> Option<StatsPacket>>(buf: &[u8], read: R) -> (r: Option<StatsPacket>)
        requires
            forall|b: Vec<u8>| #[trigger] read.requires((b,)),
        ensures
            Self::decoded(read, buf@, r),
    {
        if buf.len() < 4 || buf[0] != MSG_STATS {
            return None;
        }
        proof {
            lemma_byte_ranges();
        }
        let len: usize = get_be(buf, 1, 2) as usize;
        if buf.len() < 3 + len {
            return None;
        }
        read(copy_range(buf, 3, 3 + len))
    }
}

// ---------------------------------------------------------------------------
// Keepalives
// ---------------------------------------------------------------------------

/// Keepalive packet, for link health monitoring.
#[derive(Debug, Clone, Copy, PartialEq, Eq, Structural)]
pub struct KeepalivePacket {
    /// Link ID
    pub link_id: u8,
    /// Timestamp
    pub timestamp_us: u64,
}

impl KeepalivePacket {
    pub const SIZE: usize = 10;

    /// The packet on the wire.
    pub open spec fn wire(self) -> Seq<u8> {
        seq![MSG_KEEPALIVE, self.link_id] + be_bytes(self.timestamp_us as nat, 8)
    }

    /// The packet that `buf` starts with.
    pub open spec fn parse(buf: Seq<u8>) -> Option<KeepalivePacket> {
        if buf.len() < Self::SIZE || buf[0] != MSG_KEEPALIVE {
            None
        } else {
            Some(KeepalivePacket { link_id: buf[1], timestamp_us: be(buf.subrange(2, 10)) as u64 })
        }
    }

    /// Encode keepalive to bytes.
    pub fn encode(&self) -> (buf: Vec<u8>)
        ensures
            buf@ == self.wire(),
    {
        let mut buf: Vec<u8> = Vec::new();
        buf.push(MSG_KEEPALIVE);
        buf.push(self.link_id);
        assert(buf@ =~= seq![MSG_KEEPALIVE, self.link_id]);
        put_be(&mut buf, self.timestamp_us, 8);
        buf
    }

    /// Decode keepalive from bytes.
    pub fn decode(buf: &[u8]) -> (r: Option<KeepalivePacket>)
        ensures
            r == Self::parse(buf@),
    {
        if buf.len() < Self::SIZE || buf[0] != MSG_KEEPALIVE {
            return None;
        }
        proof {
            lemma_byte_ranges();
        }
        Some(KeepalivePacket { link_id: buf[1], timestamp_us: get_be(buf, 2, 8) })
    }
}

// ---------------------------------------------------------------------------
// Probes
// ---------------------------------------------------------------------------

/// Path state for rate control probes.
#[derive(Debug, Clone, Copy, PartialEq, Eq, Structural)]
pub enum PathState {
    Running,
    Lossy,
    Down,
    Probing,
}

impl PathState {
    /// The state's number on the wire.
    pub open spec fn code(self) -> u8 {
        match self {
            PathState::Running => 0,
            PathState::Lossy => 1,
            PathState::Down => 2,
            PathState::Probing => 3,
        }
    }

    /// The state with number `v`; unknown numbers count as running.
    pub open spec fn of_code(v: u8) -> PathState {
        if v == 1 {
            PathState::Lossy
        } else if v == 2 {
            PathState::Down
        } else if v == 3 {
            PathState::Probing
        } else {
            PathState::Running
        }
    }

    /// The state with number `v`.
    pub fn from_u8(v: u8) -> (r: PathState)
        ensures
            r == Self::of_code(v),
    {
        match v {
            0 => PathState::Running,
            1 => PathState::Lossy,
            2 => PathState::Down,
            3 => PathState::Probing,
            _ => PathState::Running,
        }
    }

    /// The state's number.
    pub fn to_u8(self) -> (r: u8)
        ensures
            r == self.code(),
    {
        match self {
            PathState::Running => 0,
            PathState::Lossy => 1,
            PathState::Down => 2,
            PathState::Probing => 3,
        }
    }
}

/// Probe packet for Glorytun/MUD-style rate control.
/// Sent every 200ms per link by both sides. 51 bytes on wire.
#[derive(Debug, Clone, Copy, PartialEq, Eq, Structural)]
pub struct ProbePacket {
    /// Link this probe is for
    pub link_id: u8,
    /// Sequence number
    pub seq: u32,
    /// Sender's timestamp (microseconds), echoed back for RTT
    pub timestamp_us: u64,
    /// Echoed timestamp from last received probe
    pub echo_timestamp_us: u64,
    /// Bytes sent since last probe
    pub tx_bytes: u64,
    /// Packets sent since last probe
    pub tx_packets: u32,
    /// Bytes received since last probe (tells remote what we got)
    pub rx_bytes: u64,
    /// Packets received since last probe
    pub rx_packets: u32,
    /// Loss ratio 0-255
    pub loss_ratio: u8,
    /// Path state
    pub path_state: PathState,
}

impl ProbePacket {
    pub const SIZE: usize = 51;

    /// The packet on the wire; its last three bytes are reserved.
    pub open spec fn wire(self) -> Seq<u8> {
        seq![MSG_PROBE, self.link_id] + be_bytes(self.seq as nat, 4) + be_bytes(self.timestamp_us as nat, 8)
            + be_bytes(self.echo_timestamp_us as nat, 8) + be_bytes(self.tx_bytes as nat, 8) + be_bytes(
            self.tx_packets as nat,
            4,
        ) + be_bytes(self.rx_bytes as nat, 8) + be_bytes(self.rx_packets as nat, 4) + seq![
            self.loss_ratio,
            self.path_state.code(),
            0u8,
            0u8,
            0u8,
        ]
    }

    /// The packet that `buf` starts with.
    pub open spec fn parse(buf: Seq<u8>) -> Option<ProbePacket> {
        if buf.len() < Self::SIZE || buf[0] != MSG_PROBE {
            None
        } else {
            Some(
                ProbePacket {
                    link_id: buf[1],
                    seq: be(buf.subrange(2, 6)) as u32,
                    timestamp_us: be(buf.subrange(6, 14)) as u64,
                    echo_timestamp_us: be(buf.subrange(14, 22)) as u64,
                    tx_bytes: be(buf.subrange(22, 30)) as u64,
                    tx_packets: be(buf.subrange(30, 34)) as u32,
                    rx_bytes: be(buf.subrange(34, 42)) as u64,
                    rx_packets: be(buf.subrange(42, 46)) as u32,
                    loss_ratio: buf[46],
                    path_state: PathState::of_code(buf[47]),
                },
            )
        }
    }

    /// Encode probe to bytes.
    pub fn encode(&self) -> (buf: Vec<u8>)
        ensures
            buf@ == self.wire(),
    {
        let mut buf: Vec<u8> = Vec::new();
        buf.push(MSG_PROBE);
        buf.push(self.link_id);
        assert(buf@ =~= seq![MSG_PROBE, self.link_id]);
        put_be(&mut buf, self.seq as u64, 4);
        put_be(&mut buf, self.timestamp_us, 8);
        put_be(&mut buf, self.echo_timestamp_us, 8);
        put_be(&mut buf, self.tx_bytes, 8);
        put_be(&mut buf, self.tx_packets as u64, 4);
        put_be(&mut buf, self.rx_bytes, 8);
        put_be(&mut buf, self.rx_packets as u64, 4);
        let ghost before = buf@;
        buf.push(self.loss_ratio);
        buf.push(self.path_state.to_u8());
        buf.push(0);
        buf.push(0);
        buf.push(0);
        assert(buf@ =~= before + seq![self.loss_ratio, self.path_state.code(), 0u8, 0u8, 0u8]);
        buf
    }

    /// Decode probe from bytes.
    pub fn decode(buf: &[u8]) -> (r: Option<ProbePacket>)
        ensures
            r == Self::parse(buf@),
    {
        if buf.len() < Self::SIZE || buf[0] != MSG_PROBE {
            return None;
        }
        proof {
            lemma_byte_ranges();
        }
        Some(
            ProbePacket {
                link_id: buf[1],
                seq: get_be(buf, 2, 4) as u32,
                timestamp_us: get_be(buf, 6, 8),
                echo_timestamp_us: get_be(buf, 14, 8),
                tx_bytes: get_be(buf, 22, 8),
                tx_packets: get_be(buf, 30, 4) as u32,
                rx_bytes: get_be(buf, 34, 8),
                rx_packets: get_be(buf, 42, 4) as u32,
                loss_ratio: buf[46],
                path_state: PathState::from_u8(buf[47]),
            },
        )
    }
}

// ---------------------------------------------------------------------------
// Any packet
// ---------------------------------------------------------------------------

/// Packet type enum for decoding.
#[derive(Debug)]
pub enum Packet {
    Data(ChunkPacket),
    Announce(AnnouncePacket),
    Ack(AckPacket),
    Stats(StatsPacket),
    Keepalive(KeepalivePacket),
    Probe(ProbePacket),
}

/// What a [`Packet`] holds.
pub enum PacketView {
    Data(ChunkView),
    Announce(AnnouncePacket),
    Ack(AckPacket),
    Stats(StatsPacket),
    Keepalive(KeepalivePacket),
    Probe(ProbePacket),
}

/// What a packet is on the wire: a statistics packet is its JSON text there.
pub enum FrameView {
    Data(ChunkView),
    Announce(AnnouncePacket),
    Ack(AckPacket),
    Stats(Seq<u8>),
    Keepalive(KeepalivePacket),
    Probe(ProbePacket),
}

impl View for Packet {
    type V = PacketView;

    open spec fn view(&self) -> PacketView {
        match self {
            Packet::Data(p) => PacketView::Data(p@),
            Packet::Announce(p) => PacketView::Announce(*p),
            Packet::Ack(p) => PacketView::Ack(*p),
            Packet::Stats(p) => PacketView::Stats(*p),
            Packet::Keepalive(p) => PacketView::Keepalive(*p),
            Packet::Probe(p) => PacketView::Probe(*p),
        }
    }
}

impl FrameView {
    /// The packet on the wire.
    pub open spec fn wire(self) -> Seq<u8> {
        match self {
            FrameView::Data(p) => p.wire(),
            FrameView::Announce(p) => p.wire(),
            FrameView::Ack(p) => p.wire(),
            FrameView::Stats(body) => StatsPacket::wire(body),
            FrameView::Keepalive(p) => p.wire(),
            FrameView::Probe(p) => p.wire(),
        }
    }

    /// The packet that `buf` starts with, by its type byte.
    pub open spec fn parse(buf: Seq<u8>) -> Option<FrameView> {
        if let Some(p) = ChunkView::parse(buf) {
            Some(FrameView::Data(p))
        } else if let Some(p) = AnnouncePacket::parse(buf) {
            Some(FrameView::Announce(p))
        } else if let Some(p) = AckPacket::parse(buf) {
            Some(FrameView::Ack(p))
        } else if let Some(body) = StatsPacket::body(buf) {
            Some(FrameView::Stats(body))
        } else if let Some(p) = KeepalivePacket::parse(buf) {
            Some(FrameView::Keepalive(p))
        } else if let Some(p) = ProbePacket::parse(buf) {
            Some(FrameView::Probe(p))
        } else {
            None
        }
    }

    /// The packet of a frame; that of a statistics frame lies with the reader
    /// of its text.
    pub open spec fn packet(self) -> Option<PacketView> {
        match self {
            FrameView::Data(p) => Some(PacketView::Data(p)),
            FrameView::Announce(p) => Some(PacketView::Announce(p)),
            FrameView::Ack(p) => Some(PacketView::Ack(p)),
            FrameView::Stats(_) => None,
            FrameView::Keepalive(p) => Some(PacketView::Keepalive(p)),
            FrameView::Probe(p) => Some(PacketView::Probe(p)),
        }
    }

    /// Whether the packet survives the wire: a length field of two bytes
    /// bounds payloads and bodies, and a body must not be empty.
    pub open spec fn fits(self) -> bool {
        match self {
            FrameView::Data(p) => p.payload.len() < 65536,
            FrameView::Stats(body) => 0 < body.len() < 65536,
            _ => true,
        }
    }
}

impl Packet {
    /// Whether `r` is the packet that `buf` starts with; `read` gives the
    /// packet that the JSON text of a statistics frame stands for, if any.
    pub open spec fn decoded<R: Fn(Vec<u8>) -> Option<StatsPacket>>(
        read: R,
        buf: Seq<u8>,
        r: Option<Packet>,
    ) -> bool {
        match FrameView::parse(buf) {
            None => r is None,
            Some(FrameView::Stats(_)) => match r {
                Some(Packet::Stats(p)) => StatsPacket::decoded(read, buf, Some(p)),
                Some(_) => false,
                None => StatsPacket::decoded(read, buf, None),
            },
            Some(frame) => r is Some && frame.packet() == Some(r->0@),
        }
    }

    /// Decode any packet type from bytes.  `read` gives the packet that the
    /// JSON text of a statistics frame stands for, if any.
    pub fn decode<R: Fn(Vec<u8>) -> Option<StatsPacket>>(buf: &[u8], read: R) -> (r: Option<Packet>)
        requires
            forall|b: Vec<u8>| #[trigger] read.requires((b,)),
        ensures
            Self::decoded(read, buf@, r),
    {
        if buf.len() == 0 {
            return None;
        }
        match buf[0] {
            MSG_DATA => match ChunkPacket::decode(buf) {
                Some(p) => Some(Packet::Data(p)),
                None => None,
            },
            MSG_ANNOUNCE => match AnnouncePacket::decode(buf) {
                Some(p) => Some(Packet::Announce(p)),
                None => None,
            },
            MSG_ACK => match AckPacket::decode(buf) {
                Some(p) => Some(Packet::Ack(p)),
                None => None,
            },
            MSG_STATS => match StatsPacket::decode(buf, read) {
                Some(p) => Some(Packet::Stats(p)),
                None => None,
            },
            MSG_KEEPALIVE => match KeepalivePacket::decode(buf) {
                Some(p) => Some(Packet::Keepalive(p)),
                None => None,
            },
            MSG_PROBE => match ProbePacket::decode(buf) {
                Some(p) => Some(Packet::Probe(p)),
                None => None,
            },
            _ => None,
        }
    }
}

// ---------------------------------------------------------------------------
// Laws
// ---------------------------------------------------------------------------

proof fn lemma_field(buf: Seq<u8>, at: int, n: nat, len: nat)
    requires
        0 <= at,
        at + len <= buf.len(),
        buf.subrange(at, at + len) == be_bytes(n, len),
        n < byte_range(len),
    ensures
        be(buf.subrange(at, at + len)) == n,
{
    lemma_be_round_trip(n, len);
}

proof fn lemma_chunk_round_trip(p: ChunkView, tail: Seq<u8>)
    requires
        p.payload.len() < 65536,
    ensures
        ChunkView::parse(p.wire() + tail) == Some(p),
        p.wire().len() == CHUNK_HEADER_SIZE + p.payload.len(),
{
    let id = be_bytes(p.chunk_id.0 as nat, 8);
    let total = be_bytes(p.total_size as nat, 4);
    let offset = be_bytes(p.offset as nat, 4);
    let len = be_bytes(p.payload.len(), 2);
    lemma_be_bytes_len(p.chunk_id.0 as nat, 8);
    lemma_be_bytes_len(p.total_size as nat, 4);
    lemma_be_bytes_len(p.offset as nat, 4);
    lemma_be_bytes_len(p.payload.len(), 2);
    lemma_byte_ranges();
    let buf = p.wire() + tail;
    assert(buf.subrange(1, 9) =~= id);
    lemma_field(buf, 1, p.chunk_id.0 as nat, 8);
    assert(buf.subrange(10, 14) =~= total);
    lemma_field(buf, 10, p.total_size as nat, 4);
    assert(buf.subrange(14, 18) =~= offset);
    lemma_field(buf, 14, p.offset as nat, 4);
    assert(buf.subrange(18, 20) =~= len);
    lemma_field(buf, 18, p.payload.len(), 2);
    assert(buf.subrange(20, 20 + p.payload.len() as int) =~= p.payload);
}

proof fn lemma_announce_round_trip(p: AnnouncePacket, tail: Seq<u8>)
    ensures
        AnnouncePacket::parse(p.wire() + tail) == Some(p),
        p.wire().len() == ANNOUNCE_HEADER_SIZE,
{
    lemma_be_bytes_len(p.chunk_id.0 as nat, 8);
    lemma_be_bytes_len(p.expected_size as nat, 4);
    lemma_be_bytes_len(p.timestamp_us as nat, 8);
    lemma_byte_ranges();
    let buf = p.wire() + tail;
    assert(buf.subrange(1, 9) =~= be_bytes(p.chunk_id.0 as nat, 8));
    lemma_field(buf, 1, p.chunk_id.0 as nat, 8);
    assert(buf.subrange(10, 14) =~= be_bytes(p.expected_size as nat, 4));
    lemma_field(buf, 10, p.expected_size as nat, 4);
    assert(buf.subrange(14, 22) =~= be_bytes(p.timestamp_us as nat, 8));
    lemma_field(buf, 14, p.timestamp_us as nat, 8);
}

proof fn lemma_ack_round_trip(p: AckPacket, tail: Seq<u8>)
    ensures
        AckPacket::parse(p.wire() + tail) == Some(p),
        p.wire().len() == AckPacket::SIZE,
{
    lemma_be_bytes_len(p.chunk_id.0 as nat, 8);
    lemma_be_bytes_len(p.echo_timestamp_us as nat, 8);
    lemma_be_bytes_len(p.recv_timestamp_us as nat, 8);
    lemma_byte_ranges();
    let buf = p.wire() + tail;
    assert(buf.subrange(1, 9) =~= be_bytes(p.chunk_id.0 as nat, 8));
    lemma_field(buf, 1, p.chunk_id.0 as nat, 8);
    assert(buf.subrange(10, 18) =~= be_bytes(p.echo_timestamp_us as nat, 8));
    lemma_field(buf, 10, p.echo_timestamp_us as nat, 8);
    assert(buf.subrange(18, 26) =~= be_bytes(p.recv_timestamp_us as nat, 8));
    lemma_field(buf, 18, p.recv_timestamp_us as nat, 8);
}

proof fn lemma_stats_round_trip(body: Seq<u8>, tail: Seq<u8>)
    requires
        0 < body.len() < 65536,
    ensures
        StatsPacket::body(StatsPacket::wire(body) + tail) == Some(body),
        StatsPacket::wire(body).len() == 3 + body.len(),
{
    lemma_be_bytes_len(body.len(), 2);
    lemma_byte_ranges();
    let buf = StatsPacket::wire(body) + tail;
    assert(buf.subrange(1, 3) =~= be_bytes(body.len(), 2));
    lemma_field(buf, 1, body.len(), 2);
    assert(buf.subrange(3, 3 + body.len() as int) =~= body);
}

proof fn lemma_keepalive_round_trip(p: KeepalivePacket, tail: Seq<u8>)
    ensures
        KeepalivePacket::parse(p.wire() + tail) == Some(p),
        p.wire().len() == KeepalivePacket::SIZE,
{
    lemma_be_bytes_len(p.timestamp_us as nat, 8);
    lemma_byte_ranges();
    let buf = p.wire() + tail;
    assert(buf.subrange(2, 10) =~= be_bytes(p.timestamp_us as nat, 8));
    lemma_field(buf, 2, p.timestamp_us as nat, 8);
}

proof fn lemma_probe_round_trip(p: ProbePacket, tail: Seq<u8>)
    ensures
        ProbePacket::parse(p.wire() + tail) == Some(p),
        p.wire().len() == ProbePacket::SIZE,
{
    lemma_be_bytes_len(p.seq as nat, 4);
    lemma_be_bytes_len(p.timestamp_us as nat, 8);
    lemma_be_bytes_len(p.echo_timestamp_us as nat, 8);
    lemma_be_bytes_len(p.tx_bytes as nat, 8);
    lemma_be_bytes_len(p.tx_packets as nat, 4);
    lemma_be_bytes_len(p.rx_bytes as nat, 8);
    lemma_be_bytes_len(p.rx_packets as nat, 4);
    lemma_byte_ranges();
    let buf = p.wire() + tail;
    assert(buf.subrange(2, 6) =~= be_bytes(p.seq as nat, 4));
    lemma_field(buf, 2, p.seq as nat, 4);
    assert(buf.subrange(6, 14) =~= be_bytes(p.timestamp_us as nat, 8));
    lemma_field(buf, 6, p.timestamp_us as nat, 8);
    assert(buf.subrange(14, 22) =~= be_bytes(p.echo_timestamp_us as nat, 8));
    lemma_field(buf, 14, p.echo_timestamp_us as nat, 8);
    assert(buf.subrange(22, 30) =~= be_bytes(p.tx_bytes as nat, 8));
    lemma_field(buf, 22, p.tx_bytes as nat, 8);
    assert(buf.subrange(30, 34) =~= be_bytes(p.tx_packets as nat, 4));
    lemma_field(buf, 30, p.tx_packets as nat, 4);
    assert(buf.subrange(34, 42) =~= be_bytes(p.rx_bytes as nat, 8));
    lemma_field(buf, 34, p.rx_bytes as nat, 8);
    assert(buf.subrange(42, 46) =~= be_bytes(p.rx_packets as nat, 4));
    lemma_field(buf, 42, p.rx_packets as nat, 4);
}

/// Decoding gives back what was encoded, whatever follows it in the buffer.
pub proof fn law_decode_undoes_encode(p: FrameView, tail: Seq<u8>)
    requires
        p.fits(),
    ensures
        FrameView::parse(p.wire() + tail) == Some(p),
{
    match p {
        FrameView::Data(d) => lemma_chunk_round_trip(d, tail),
        FrameView::Announce(a) => lemma_announce_round_trip(a, tail),
        FrameView::Ack(a) => lemma_ack_round_trip(a, tail),
        FrameView::Stats(body) => lemma_stats_round_trip(body, tail),
        FrameView::Keepalive(k) => lemma_keepalive_round_trip(k, tail),
        FrameView::Probe(q) => lemma_probe_round_trip(q, tail),
    }
}

/// A packet cut short is refused: no strict prefix of an encoding decodes.
pub proof fn law_truncated_packet_is_refused(p: FrameView, len: int)
    requires
        p.fits(),
        0 <= len < p.wire().len(),
    ensures
        FrameView::parse(p.wire().subrange(0, len)) is None,
{
    let none = Seq::<u8>::empty();
    assert(p.wire() + none =~= p.wire());
    let cut = p.wire().subrange(0, len);
    match p {
        FrameView::Data(d) => {
            lemma_chunk_round_trip(d, none);
            if len >= 20 {
                assert(cut.subrange(18, 20) =~= p.wire().subrange(18, 20));
            }
        },
        FrameView::Announce(a) => lemma_announce_round_trip(a, none),
        FrameView::Ack(a) => lemma_ack_round_trip(a, none),
        FrameView::Stats(body) => {
            lemma_stats_round_trip(body, none);
            if len >= 3 {
                assert(cut.subrange(1, 3) =~= p.wire().subrange(1, 3));
            }
        },
        FrameView::Keepalive(k) => lemma_keepalive_round_trip(k, none),
        FrameView::Probe(q) => lemma_probe_round_trip(q, none),
    }
}

/// Statistics come back from the wire, whatever follows them in the buffer,
/// if reading their text gives back what was written.
pub proof fn law_stats_come_back<R: Fn(Vec<u8>) -> Option<StatsPacket>>(
    read: R,
    p: StatsPacket,
    body: Seq<u8>,
    tail: Seq<u8>,
    r: Option<Packet>,
)
    requires
        0 < body.len() < 65536,
        forall|b: Vec<u8>, out: Option<StatsPacket>| b@ == body && #[trigger] read.ensures((b,), out) ==> out == Some(p),
        Packet::decoded(read, StatsPacket::wire(body) + tail, r),
    ensures
        r == Some(Packet::Stats(p)),
{
    lemma_stats_round_trip(body, tail);
    law_decode_undoes_encode(FrameView::Stats(body), tail);
}

/// A statistics frame whose text stands for nothing is refused.
pub proof fn law_unreadable_stats_are_refused<R: Fn(Vec<u8>) -> Option<StatsPacket>>(
    read: R,
    buf: Seq<u8>,
    body: Seq<u8>,
    r: Option<Packet>,
)
    requires
        FrameView::parse(buf) == Some(FrameView::Stats(body)),
        forall|b: Vec<u8>, out: Option<StatsPacket>| b@ == body && #[trigger] read.ensures((b,), out) ==> out is None,
        Packet::decoded(read, buf, r),
    ensures
        r is None,
{
}

/// A probe takes 51 bytes, whatever it reports.
pub proof fn law_probe_size(p: ProbePacket)
    ensures
        p.wire().len() == ProbePacket::SIZE,
{
    lemma_probe_round_trip(p, Seq::empty());
}

/// Every state survives its number.
pub proof fn law_path_state_code(state: PathState)
    ensures
        PathState::of_code(state.code()) == state,
{
}

/// The flow of a packet depends on nothing but its addresses, ports and
/// protocol: packets that agree there belong to one flow.
pub proof fn law_flow_is_the_five_tuple(a: Seq<u8>, b: Seq<u8>)
    requires
        a.len() >= 20,
        b.len() >= 20,
        is_ipv4(a),
        is_ipv4(b),
        a.subrange(12, 20) == b.subrange(12, 20),
        a[9] == b[9],
        ports(a) == ports(b),
    ensures
        FlowId::of_packet(a) == FlowId::of_packet(b),
{
    assert(a.subrange(12, 16) =~= a.subrange(12, 20).subrange(0, 4));
    assert(b.subrange(12, 16) =~= b.subrange(12, 20).subrange(0, 4));
    assert(a.subrange(16, 20) =~= a.subrange(12, 20).subrange(4, 8));
    assert(b.subrange(16, 20) =~= b.subrange(12, 20).subrange(4, 8));
}

// ---------------------------------------------------------------------------
// The wall clock
// ---------------------------------------------------------------------------

/// `std::time::SystemTime::elapsed` of the Unix epoch: the time since then in
/// whole seconds and the nanoseconds of the second that has begun, or `None`
/// where the clock stands before it.  The contract claims that a second is
/// never full of nanoseconds; which time it is depends on the machine, so
/// nothing else is claimed.
#[verifier::external_body]
fn since_epoch() -> (r: Option<(u64, u32)>)
    ensures
        r matches Some(d) ==> d.1 < 1_000_000_000,
{
    std::time::UNIX_EPOCH.elapsed().ok().map(|d| (d.as_secs(), d.subsec_nanos()))
}

/// The whole microseconds of a time since the Unix epoch, in seconds and
/// nanoseconds, as far as they fit; zero where the clock stands before it.
pub open spec fn whole_micros_of(since: Option<(u64, u32)>) -> u64 {
    match since {
        Some(d) => ((d.0 * 1_000_000 + d.1 as int / 1000) % 0x1_0000_0000_0000_0000) as u64,
        None => 0,
    }
}

/// The whole microseconds of a time since the Unix epoch.
pub fn whole_micros(since: Option<(u64, u32)>) -> (r: u64)
    ensures
        r == whole_micros_of(since),
{
    match since {
        Some(d) => {
            let micros: u128 = d.0 as u128 * 1_000_000 + (d.1 / 1000) as u128;
            (micros % 0x1_0000_0000_0000_0000) as u64
        },
        None => 0,
    }
}

/// Current time in microseconds since the Unix epoch; zero where the clock
/// stands before it.
pub fn now_micros() -> (r: u64)
    ensures
        exists|since: Option<(u64, u32)>|
            (since matches Some(d) ==> d.1 < 1_000_000_000) && r == #[trigger] whole_micros_of(since),
{
    whole_micros(since_epoch())
}

// ---------------------------------------------------------------------------
// What stands where
// ---------------------------------------------------------------------------

/// The number in the `n` bytes from `at` on, the first counting most.
pub open spec fn number_at(bytes: Seq<u8>, at: int, n: nat) -> nat
    decreases n,
{
    if n == 0 {
        0
    } else {
        number_at(bytes, at, (n - 1) as nat) * 256 + bytes[at + n - 1] as nat
    }
}

proof fn lemma_number_at(bytes: Seq<u8>, at: int, n: nat)
    requires
        0 <= at,
        at + n <= bytes.len(),
    ensures
        number_at(bytes, at, n) == be(bytes.subrange(at, at + n)),
    decreases n,
{
    if n > 0 {
        let m = (n - 1) as nat;
        lemma_number_at(bytes, at, m);
        assert(bytes.subrange(at, at + n).drop_last() =~= bytes.subrange(at, at + m));
    }
}

proof fn lemma_number_written(bytes: Seq<u8>, at: int, n: nat, v: nat)
    requires
        0 <= at,
        at + n <= bytes.len(),
        bytes.subrange(at, at + n) == be_bytes(v, n),
        v < byte_range(n),
    ensures
        number_at(bytes, at, n) == v,
{
    lemma_number_at(bytes, at, n);
    lemma_be_round_trip(v, n);
}

/// A chunk is its type 1, the chunk's number in eight bytes, the link in one,
/// total size and offset in four each, the payload's length in two, and the
/// payload.
pub proof fn law_chunk_layout(p: ChunkView)
    requires
        p.payload.len() < 65536,
    ensures
        ({
            let w = p.wire();
            &&& w.len() == 20 + p.payload.len()
            &&& w[0] == 1
            &&& number_at(w, 1, 8) == p.chunk_id.0
            &&& w[9] == p.link_id
            &&& number_at(w, 10, 4) == p.total_size
            &&& number_at(w, 14, 4) == p.offset
            &&& number_at(w, 18, 2) == p.payload.len()
            &&& w.subrange(20, w.len() as int) == p.payload
        }),
{
    let w = p.wire();
    lemma_byte_ranges();
    lemma_be_bytes_len(p.chunk_id.0 as nat, 8);
    lemma_be_bytes_len(p.total_size as nat, 4);
    lemma_be_bytes_len(p.offset as nat, 4);
    lemma_be_bytes_len(p.payload.len(), 2);
    assert(w.subrange(1, 9) =~= be_bytes(p.chunk_id.0 as nat, 8));
    assert(w.subrange(10, 14) =~= be_bytes(p.total_size as nat, 4));
    assert(w.subrange(14, 18) =~= be_bytes(p.offset as nat, 4));
    assert(w.subrange(18, 20) =~= be_bytes(p.payload.len(), 2));
    assert(w.subrange(20, w.len() as int) =~= p.payload);
    lemma_number_written(w, 1, 8, p.chunk_id.0 as nat);
    lemma_number_written(w, 10, 4, p.total_size as nat);
    lemma_number_written(w, 14, 4, p.offset as nat);
    lemma_number_written(w, 18, 2, p.payload.len());
}

/// An announcement is its type 2, the chunk's number in eight bytes, the link
/// in one, the expected size in four and the time in eight.
pub proof fn law_announcement_layout(p: AnnouncePacket)
    ensures
        ({
            let w = p.wire();
            &&& w.len() == 22
            &&& w[0] == 2
            &&& number_at(w, 1, 8) == p.chunk_id.0
            &&& w[9] == p.link_id
            &&& number_at(w, 10, 4) == p.expected_size
            &&& number_at(w, 14, 8) == p.timestamp_us
        }),
{
    let w = p.wire();
    lemma_byte_ranges();
    lemma_be_bytes_len(p.chunk_id.0 as nat, 8);
    lemma_be_bytes_len(p.expected_size as nat, 4);
    lemma_be_bytes_len(p.timestamp_us as nat, 8);
    assert(w.subrange(1, 9) =~= be_bytes(p.chunk_id.0 as nat, 8));
    assert(w.subrange(10, 14) =~= be_bytes(p.expected_size as nat, 4));
    assert(w.subrange(14, 22) =~= be_bytes(p.timestamp_us as nat, 8));
    lemma_number_written(w, 1, 8, p.chunk_id.0 as nat);
    lemma_number_written(w, 10, 4, p.expected_size as nat);
    lemma_number_written(w, 14, 8, p.timestamp_us as nat);
}

/// An acknowledgement is its type 3, the chunk's number in eight bytes, the
/// link in one, and the two times in eight each.
pub proof fn law_acknowledgement_layout(p: AckPacket)
    ensures
        ({
            let w = p.wire();
            &&& w.len() == 26
            &&& w[0] == 3
            &&& number_at(w, 1, 8) == p.chunk_id.0
            &&& w[9] == p.link_id
            &&& number_at(w, 10, 8) == p.echo_timestamp_us
            &&& number_at(w, 18, 8) == p.recv_timestamp_us
        }),
{
    let w = p.wire();
    lemma_byte_ranges();
    lemma_be_bytes_len(p.chunk_id.0 as nat, 8);
    lemma_be_bytes_len(p.echo_timestamp_us as nat, 8);
    lemma_be_bytes_len(p.recv_timestamp_us as nat, 8);
    assert(w.subrange(1, 9) =~= be_bytes(p.chunk_id.0 as nat, 8));
    assert(w.subrange(10, 18) =~= be_bytes(p.echo_timestamp_us as nat, 8));
    assert(w.subrange(18, 26) =~= be_bytes(p.recv_timestamp_us as nat, 8));
    lemma_number_written(w, 1, 8, p.chunk_id.0 as nat);
    lemma_number_written(w, 10, 8, p.echo_timestamp_us as nat);
    lemma_number_written(w, 18, 8, p.recv_timestamp_us as nat);
}

/// Statistics are their type 4, their length in two bytes, and themselves; a
/// keepalive is its type 5, the link, and the time in eight bytes.
pub proof fn law_small_layouts(body: Seq<u8>, p: KeepalivePacket)
    requires
        body.len() < 65536,
    ensures
        ({
            let w = StatsPacket::wire(body);
            &&& w.len() == 3 + body.len()
            &&& w[0] == 4
            &&& number_at(w, 1, 2) == body.len()
            &&& w.subrange(3, w.len() as int) == body
        }),
        ({
            let w = p.wire();
            &&& w.len() == 10
            &&& w[0] == 5
            &&& w[1] == p.link_id
            &&& number_at(w, 2, 8) == p.timestamp_us
        }),
{
    lemma_byte_ranges();
    lemma_be_bytes_len(body.len(), 2);
    lemma_be_bytes_len(p.timestamp_us as nat, 8);
    let s = StatsPacket::wire(body);
    assert(s.subrange(1, 3) =~= be_bytes(body.len(), 2));
    assert(s.subrange(3, s.len() as int) =~= body);
    lemma_number_written(s, 1, 2, body.len());
    let w = p.wire();
    assert(w.subrange(2, 10) =~= be_bytes(p.timestamp_us as nat, 8));
    lemma_number_written(w, 2, 8, p.timestamp_us as nat);
}

/// A probe is its type 6, the link, its number in four bytes, the two times in
/// eight each, bytes and packets sent in eight and four, those received
/// likewise, the loss, the state's number, and three zeros.
pub proof fn law_probe_layout(p: ProbePacket)
    ensures
        ({
            let w = p.wire();
            &&& w.len() == 51
            &&& w[0] == 6
            &&& w[1] == p.link_id
            &&& number_at(w, 2, 4) == p.seq
            &&& number_at(w, 6, 8) == p.timestamp_us
            &&& number_at(w, 14, 8) == p.echo_timestamp_us
            &&& number_at(w, 22, 8) == p.tx_bytes
            &&& number_at(w, 30, 4) == p.tx_packets
            &&& number_at(w, 34, 8) == p.rx_bytes
            &&& number_at(w, 42, 4) == p.rx_packets
            &&& w[46] == p.loss_ratio
            &&& w[47] == match p.path_state {
                PathState::Running => 0u8,
                PathState::Lossy => 1u8,
                PathState::Down => 2u8,
                PathState::Probing => 3u8,
            }
            &&& w[48] == 0 && w[49] == 0 && w[50] == 0
        }),
{
    let w = p.wire();
    lemma_byte_ranges();
    lemma_be_bytes_len(p.seq as nat, 4);
    lemma_be_bytes_len(p.timestamp_us as nat, 8);
    lemma_be_bytes_len(p.echo_timestamp_us as nat, 8);
    lemma_be_bytes_len(p.tx_bytes as nat, 8);
    lemma_be_bytes_len(p.tx_packets as nat, 4);
    lemma_be_bytes_len(p.rx_bytes as nat, 8);
    lemma_be_bytes_len(p.rx_packets as nat, 4);
    assert(w.subrange(2, 6) =~= be_bytes(p.seq as nat, 4));
    assert(w.subrange(6, 14) =~= be_bytes(p.timestamp_us as nat, 8));
    assert(w.subrange(14, 22) =~= be_bytes(p.echo_timestamp_us as nat, 8));
    assert(w.subrange(22, 30) =~= be_bytes(p.tx_bytes as nat, 8));
    assert(w.subrange(30, 34) =~= be_bytes(p.tx_packets as nat, 4));
    assert(w.subrange(34, 42) =~= be_bytes(p.rx_bytes as nat, 8));
    assert(w.subrange(42, 46) =~= be_bytes(p.rx_packets as nat, 4));
    lemma_number_written(w, 2, 4, p.seq as nat);
    lemma_number_written(w, 6, 8, p.timestamp_us as nat);
    lemma_number_written(w, 14, 8, p.echo_timestamp_us as nat);
    lemma_number_written(w, 22, 8, p.tx_bytes as nat);
    lemma_number_written(w, 30, 4, p.tx_packets as nat);
    lemma_number_written(w, 34, 8, p.rx_bytes as nat);
    lemma_number_written(w, 42, 4, p.rx_packets as nat);
}

/// A packet's flow is the number whose digits to base 31 are its addresses,
/// ports and protocol; only IPv4 packets have one.
pub proof fn law_flow_in_digits(packet: Seq<u8>)
    ensures
        packet.len() < 20 || packet[0] / 16 != 4 <==> FlowId::of_packet(packet) is None,
        packet.len() >= 20 && packet[0] / 16 == 4 ==> {
            let ihl = (packet[0] % 16) * 4;
            let ported = packet.len() >= ihl + 4 && (packet[9] == 6 || packet[9] == 17);
            let src = number_at(packet, 12, 4);
            let dst = number_at(packet, 16, 4);
            let sport = if ported {
                number_at(packet, ihl, 2)
            } else {
                0
            };
            let dport = if ported {
                number_at(packet, ihl + 2, 2)
            } else {
                0
            };
            (FlowId::of_packet(packet)->0).0 == (((src * 31 + dst) * 31 + sport) * 31 + dport) * 31 + packet[9]
        },
{
    if packet.len() >= 20 && packet[0] / 16 == 4 {
        let ihl = (packet[0] % 16) * 4;
        lemma_number_at(packet, 12, 4);
        lemma_number_at(packet, 16, 4);
        crate::wire::lemma_be_inverse(packet.subrange(12, 16));
        crate::wire::lemma_be_inverse(packet.subrange(16, 20));
        lemma_byte_ranges();
        if packet.len() >= ihl + 4 {
            lemma_number_at(packet, ihl, 2);
            lemma_number_at(packet, ihl + 2, 2);
            crate::wire::lemma_be_inverse(packet.subrange(ihl, ihl + 2));
            crate::wire::lemma_be_inverse(packet.subrange(ihl + 2, ihl + 4));
        }
    }
}

/// The flow of an echo request is the number whose digits to base 31 are its
/// addresses, its identifier and one; only ICMP packets have it.
pub proof fn law_echo_flow_in_digits(packet: Seq<u8>)
    ensures
        FlowId::of_echo(packet) is Some <==> packet.len() >= 28 && packet[0] / 16 == 4 && packet[9] == 1,
        packet.len() >= 28 && packet[0] / 16 == 4 && packet[9] == 1 ==> {
            let ihl = (packet[0] % 16) * 4;
            let identifier = if packet.len() >= ihl + 6 {
                number_at(packet, ihl + 4, 2)
            } else {
                0
            };
            (FlowId::of_echo(packet)->0).0 == ((number_at(packet, 12, 4) * 31 + number_at(packet, 16, 4)) * 31 + identifier)
                * 31 + 1
        },
{
    if packet.len() >= 28 && packet[0] / 16 == 4 {
        let ihl = (packet[0] % 16) * 4;
        lemma_number_at(packet, 12, 4);
        lemma_number_at(packet, 16, 4);
        crate::wire::lemma_be_inverse(packet.subrange(12, 16));
        crate::wire::lemma_be_inverse(packet.subrange(16, 20));
        lemma_byte_ranges();
        if packet.len() >= ihl + 6 {
            lemma_number_at(packet, ihl + 4, 2);
            crate::wire::lemma_be_inverse(packet.subrange(ihl + 4, ihl + 6));
        }
    }
}

/// Microseconds are a million to the second and one to a thousand nanoseconds.
pub proof fn law_whole_micros(secs: u64, nanos: u32)
    requires
        secs < 0x1000_0000_0000,
        nanos < 1_000_000_000,
    ensures
        ({
            let us = whole_micros_of(Some((secs, nanos)));
            us * 1000 <= secs * 1_000_000_000 + nanos < (us + 1) * 1000
        }),
        whole_micros_of(None) == 0,
{
}

/// On the wire a running path is 0, a lossy one 1, one that is down 2 and one
/// being probed 3; any other number counts as running.
pub proof fn law_path_state_numbers(v: u8)
    ensures
        PathState::of_code(v) is Lossy <==> v == 1,
        PathState::of_code(v) is Down <==> v == 2,
        PathState::of_code(v) is Probing <==> v == 3,
        PathState::of_code(v) is Running <==> v == 0 || v > 3,
{
}

} // verus!
