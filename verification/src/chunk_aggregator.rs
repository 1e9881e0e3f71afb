//! Chunk aggregator.
//!
//! Aggregates IP packets into chunks for efficient multi-link transmission.
//! The chunk size follows the bandwidth-delay product (BDP) of the links.

use crate::accuracy::{lemma_part_is_close, lemma_whole_product, lemma_whole_quotient};
use crate::binary64::Binary64;
use crate::config::ChunkAggregatorConfig;
use crate::measure::{larger, monus, smaller};
use crate::protocol::{ChunkId, FlowId};
use crate::wire::{be, be_bytes, copy_range, get_be, lemma_be_bytes_len, lemma_be_round_trip, lemma_byte_ranges, put_be,
    put_bytes};
use vstd::prelude::*;

verus! {

/// A chunk of aggregated packets.
#[derive(Debug, Clone)]
pub struct Chunk {
    /// Unique chunk identifier
    pub id: ChunkId,
    /// Flow of the first packet that named one
    pub flow_id: Option<FlowId>,
    /// Aggregated packets, each behind its length in two bytes
    pub data: Vec<u8>,
    /// Where each packet begins in the data
    pub packet_offsets: Vec<usize>,
    /// Creation instant (nanoseconds)
    pub created_at: u64,
    /// Target link (None = distribute across all)
    pub target_link: Option<usize>,
}

/// What a [`Chunk`] holds.
#[verifier::ext_equal]
pub struct ChunkContents {
    pub id: ChunkId,
    pub flow_id: Option<FlowId>,
    pub data: Seq<u8>,
    pub packet_offsets: Seq<usize>,
    pub created_at: u64,
    pub target_link: Option<usize>,
}

impl View for Chunk {
    type V = ChunkContents;

    open spec fn view(&self) -> ChunkContents {
        ChunkContents {
            id: self.id,
            flow_id: self.flow_id,
            data: self.data@,
            packet_offsets: self.packet_offsets@,
            created_at: self.created_at,
            target_link: self.target_link,
        }
    }
}

/// A packet behind its length, modulo 65536, in two bytes.
pub open spec fn framed(packet: Seq<u8>) -> Seq<u8> {
    be_bytes(packet.len() % 65536, 2) + packet
}

/// Packets one behind another, each behind its length.
pub open spec fn joined(packets: Seq<Seq<u8>>) -> Seq<u8>
    decreases packets.len(),
{
    if packets.len() == 0 {
        Seq::empty()
    } else {
        joined(packets.drop_last()) + framed(packets.last())
    }
}

/// The packets that chunk data holds, up to the first one cut short.
pub open spec fn split(data: Seq<u8>) -> Seq<Seq<u8>>
    decreases data.len(),
{
    if data.len() < 2 {
        Seq::empty()
    } else {
        let len = be(data.subrange(0, 2)) as int;
        if 2 + len > data.len() {
            Seq::empty()
        } else {
            seq![data.subrange(2, 2 + len)] + split(data.subrange(2 + len, data.len() as int))
        }
    }
}

impl ChunkContents {
    /// An empty chunk.
    pub open spec fn fresh(id: ChunkId, now_ns: u64) -> ChunkContents {
        ChunkContents {
            id,
            flow_id: None,
            data: Seq::empty(),
            packet_offsets: Seq::empty(),
            created_at: now_ns,
            target_link: None,
        }
    }

    /// The chunk with one packet more.
    pub open spec fn with_packet(self, packet: Seq<u8>) -> ChunkContents {
        ChunkContents {
            data: self.data + framed(packet),
            packet_offsets: self.packet_offsets.push(self.data.len() as usize),
            ..self
        }
    }

    /// The chunk with a flow, if it has none yet.
    pub open spec fn with_flow(self, flow_id: Option<FlowId>) -> ChunkContents {
        if self.flow_id is None {
            ChunkContents { flow_id, ..self }
        } else {
            self
        }
    }
}

impl Chunk {
    /// Create a new empty chunk.
    pub fn new(id: ChunkId, now_ns: u64) -> (r: Chunk)
        ensures
            r@ == ChunkContents::fresh(id, now_ns),
    {
        let r: Chunk = Chunk {
            id,
            flow_id: None,
            data: Vec::new(),
            packet_offsets: Vec::new(),
            created_at: now_ns,
            target_link: None,
        };
        assert(r@ =~= ChunkContents::fresh(id, now_ns));
        r
    }

    /// Add a packet to the chunk.
    pub fn add_packet(&mut self, packet: &[u8])
        ensures
            final(self)@ == old(self)@.with_packet(packet@),
    {
        self.packet_offsets.push(self.data.len());
        put_be(&mut self.data, (packet.len() % 65536) as u64, 2);
        put_bytes(&mut self.data, packet);
        assert(self.data@ =~= old(self).data@ + framed(packet@));
        assert(self@ =~= old(self)@.with_packet(packet@));
    }

    /// Number of packets in chunk.
    pub fn packet_count(&self) -> (r: usize)
        ensures
            r == self@.packet_offsets.len(),
    {
        self.packet_offsets.len()
    }

    /// Total chunk size.
    pub fn size(&self) -> (r: usize)
        ensures
            r == self@.data.len(),
    {
        self.data.len()
    }

    /// Whether the chunk is empty.
    pub fn is_empty(&self) -> (r: bool)
        ensures
            r == (self@.data.len() == 0),
    {
        self.data.len() == 0
    }

    /// Extract individual packets from chunk data.
    pub fn extract_packets(&self) -> (r: Vec<Vec<u8>>)
        ensures
            r@.map_values(|p: Vec<u8>| p@) == split(self@.data),
    {
        let mut packets: Vec<Vec<u8>> = Vec::new();
        let mut offset: usize = 0;
        let n: usize = self.data.len();
        assert(self.data@.subrange(0, n as int) =~= self.data@);
        assert(packets@.map_values(|p: Vec<u8>| p@) + split(self.data@) =~= split(self.data@));
        while offset <= n && n - offset >= 2
            invariant
                n == self.data@.len(),
                offset <= n,
                split(self.data@) == packets@.map_values(|p: Vec<u8>| p@) + split(
                    self.data@.subrange(offset as int, n as int),
                ),
            ensures
                split(self.data@) == packets@.map_values(|p: Vec<u8>| p@),
            decreases n - offset,
        {
            let ghost rest = self.data@.subrange(offset as int, n as int);
            let ghost before = packets@.map_values(|p: Vec<u8>| p@);
            proof {
                lemma_byte_ranges();
                assert(rest.subrange(0, 2) =~= self.data@.subrange(offset as int, offset + 2));
            }
            let len: usize = get_be(&self.data, offset, 2) as usize;
            if len > n - offset - 2 {
                assert(before + split(rest) =~= before);
                break ;
            }
            let packet: Vec<u8> = copy_range(&self.data, offset + 2, offset + 2 + len);
            packets.push(packet);
            proof {
                let next = rest.subrange(2 + len as int, rest.len() as int);
                assert(rest.subrange(2, 2 + len as int) =~= packet@);
                assert(next =~= self.data@.subrange(offset + 2 + len, n as int));
                assert(packets@.map_values(|p: Vec<u8>| p@) =~= before.push(packet@));
                assert(before + (seq![packet@] + split(next)) =~= before.push(packet@) + split(next));
            }
            offset = offset + 2 + len;
            proof {
                let last = self.data@.subrange(offset as int, n as int);
                if n - offset < 2 {
                    assert(split(last) =~= Seq::<Seq<u8>>::empty());
                    assert(packets@.map_values(|p: Vec<u8>| p@) + split(last) =~= packets@.map_values(
                        |p: Vec<u8>| p@,
                    ));
                }
            }
        }
        packets
    }
}

/// Chunk aggregator.
#[derive(Debug, Clone)]
pub struct ChunkAggregator {
    pub config: ChunkAggregatorConfig,
    /// Current chunk being built
    pub current_chunk: Chunk,
    /// Next chunk ID
    pub next_chunk_id: ChunkId,
    /// Bandwidth (bytes/sec) and RTT (ms) per link
    pub link_stats: Vec<(u64, u32)>,
    /// Computed optimal chunk size
    pub optimal_chunk_size: usize,
}

/// The integer part, moved into the range of `usize`.
pub open spec fn whole_size(x: Binary64) -> usize {
    smaller(x.truncated(), usize::MAX as nat) as usize
}

/// Bandwidth-delay product of a link: bytes/sec times milliseconds, in bytes;
/// zero where either is unknown.
pub open spec fn bdp(stat: (u64, u32)) -> usize {
    if stat.0 > 0 && stat.1 > 0 {
        whole_size(
            Binary64::of_nat(stat.0 as nat).product(Binary64::of_nat(stat.1 as nat)).quotient(Binary64::of_nat(1000)),
        )
    } else {
        0
    }
}

/// The greatest bandwidth-delay product of the links.
pub open spec fn max_bdp(stats: Seq<(u64, u32)>) -> usize
    decreases stats.len(),
{
    if stats.len() == 0 {
        0
    } else {
        larger(max_bdp(stats.drop_last()) as nat, bdp(stats.last()) as nat) as usize
    }
}

/// The identifier before one.
pub open spec fn id_before(id: ChunkId) -> ChunkId {
    ChunkId(
        if id.0 == 0 {
            u64::MAX
        } else {
            (id.0 - 1) as u64
        },
    )
}

/// The identifier after one.
pub open spec fn id_after(id: ChunkId) -> ChunkId {
    ChunkId(
        if id.0 == u64::MAX {
            0
        } else {
            (id.0 + 1) as u64
        },
    )
}

fn to_size(x: Binary64) -> (r: usize)
    ensures
        r == whole_size(x),
{
    let whole: u64 = x.to_u64();
    if whole <= usize::MAX as u64 {
        whole as usize
    } else {
        usize::MAX
    }
}

/// The optimal size for given link statistics: the greatest BDP times the
/// multiplier, raised to the minimum, then lowered to the maximum; as it was
/// while no BDP is known.
pub open spec fn size_with(config: ChunkAggregatorConfig, before: usize, stats: Seq<(u64, u32)>) -> usize {
    let greatest = max_bdp(stats);
    if greatest > 0 {
        let target = whole_size(Binary64::of_nat(greatest as nat).product(config.bdp_multiplier));
        smaller(larger(target as nat, config.min_chunk_size as nat), config.max_chunk_size as nat) as usize
    } else {
        before
    }
}

impl ChunkAggregator {
    /// The current chunk always carries the identifier before the next.
    pub open spec fn wf(self) -> bool {
        self.current_chunk.id == id_before(self.next_chunk_id)
    }

    /// The optimal size for given link statistics.
    pub open spec fn size_for(self, stats: Seq<(u64, u32)>) -> usize {
        size_with(self.config, self.optimal_chunk_size, stats)
    }

    /// Whether a packet does not fit into the chunk being built.
    pub open spec fn is_full_for(self, packet: Seq<u8>) -> bool {
        &&& self.current_chunk@.data.len() + 2 + packet.len() > self.optimal_chunk_size
        &&& self.current_chunk@.data.len() > 0
    }

    /// The chunk that adding a packet completes, and the one then being
    /// built.
    pub open spec fn added(self, packet: Seq<u8>, flow_id: Option<FlowId>, now_ns: u64) -> (
        Option<ChunkContents>,
        ChunkContents,
    ) {
        let next = ChunkContents::fresh(self.next_chunk_id, now_ns);
        let grown = self.current_chunk@.with_packet(packet).with_flow(flow_id);
        if self.is_full_for(packet) {
            (Some(self.current_chunk@), next.with_packet(packet).with_flow(flow_id))
        } else if grown.data.len() >= self.optimal_chunk_size {
            (Some(grown), next)
        } else {
            (None, grown)
        }
    }

    /// The identifier that follows, where a chunk was completed.
    pub open spec fn id_once(self, completed: bool) -> ChunkId {
        if completed {
            id_after(self.next_chunk_id)
        } else {
            self.next_chunk_id
        }
    }

    /// An aggregator with nothing pending.
    pub fn new(config: ChunkAggregatorConfig, num_links: usize, now_ns: u64) -> (r: ChunkAggregator)
        ensures
            r.wf(),
            r.config == config,
            r.current_chunk@ == ChunkContents::fresh(ChunkId(0), now_ns),
            r.next_chunk_id == ChunkId(1),
            r.link_stats@ == Seq::new(num_links as nat, |i: int| (0u64, 0u32)),
            r.optimal_chunk_size == config.min_chunk_size,
    {
        let mut link_stats: Vec<(u64, u32)> = Vec::new();
        let mut i: usize = 0;
        while i < num_links
            invariant
                i <= num_links,
                link_stats@ == Seq::new(i as nat, |i: int| (0u64, 0u32)),
            decreases num_links - i,
        {
            link_stats.push((0, 0));
            i = i + 1;
            assert(link_stats@ =~= Seq::new(i as nat, |i: int| (0u64, 0u32)));
        }
        ChunkAggregator {
            config,
            current_chunk: Chunk::new(ChunkId(0), now_ns),
            next_chunk_id: ChunkId(1),
            link_stats,
            optimal_chunk_size: config.min_chunk_size,
        }
    }

    /// Update link statistics for BDP calculation.
    pub fn update_link_stats(&mut self, link_id: usize, bandwidth_bps: u64, rtt_ms: u32)
        requires
            old(self).wf(),
        ensures
            final(self).wf(),
            final(self).config == old(self).config,
            final(self).current_chunk == old(self).current_chunk,
            final(self).next_chunk_id == old(self).next_chunk_id,
            link_id >= old(self).link_stats@.len() ==> *final(self) == *old(self),
            link_id < old(self).link_stats@.len() ==> final(self).link_stats@ == old(self).link_stats@.update(
                link_id as int,
                (bandwidth_bps, rtt_ms),
            ) && final(self).optimal_chunk_size == old(self).size_for(final(self).link_stats@),
    {
        if link_id < self.link_stats.len() {
            self.link_stats.set(link_id, (bandwidth_bps, rtt_ms));
            self.recalculate_chunk_size();
        }
    }

    /// Recalculate optimal chunk size based on BDP.
    fn recalculate_chunk_size(&mut self)
        ensures
            *final(self) == (ChunkAggregator {
                optimal_chunk_size: old(self).size_for(old(self).link_stats@),
                ..*old(self)
            }),
    {
        let mut greatest: usize = 0;
        let mut i: usize = 0;
        assert(self.link_stats@.take(0) =~= Seq::<(u64, u32)>::empty());
        while i < self.link_stats.len()
            invariant
                i <= self.link_stats@.len(),
                greatest == max_bdp(self.link_stats@.take(i as int)),
                *self == *old(self),
            decreases self.link_stats.len() - i,
        {
            assert(self.link_stats@.take(i + 1).drop_last() =~= self.link_stats@.take(i as int));
            let (bandwidth_bps, rtt_ms): (u64, u32) = self.link_stats[i];
            if bandwidth_bps > 0 && rtt_ms > 0 {
                let product: usize = to_size(
                    Binary64::from_u64(bandwidth_bps).times(Binary64::from_u64(rtt_ms as u64)).over(
                        Binary64::from_u64(1000),
                    ),
                );
                if product > greatest {
                    greatest = product;
                }
            }
            i = i + 1;
        }
        assert(self.link_stats@.take(i as int) =~= self.link_stats@);
        if greatest > 0 {
            let target: usize = to_size(Binary64::from_u64(greatest as u64).times(self.config.bdp_multiplier));
            let raised: usize = if target >= self.config.min_chunk_size {
                target
            } else {
                self.config.min_chunk_size
            };
            self.optimal_chunk_size = if raised <= self.config.max_chunk_size {
                raised
            } else {
                self.config.max_chunk_size
            };
        }
    }

    /// Add a packet to be aggregated.  Returns a chunk if one is ready to
    /// send: the one before, if the packet no longer fits into it, or the one
    /// that the packet fills.
    pub fn add_packet(&mut self, packet: &[u8], flow_id: Option<FlowId>, now_ns: u64) -> (r: Option<Chunk>)
        requires
            old(self).wf(),
            old(self).current_chunk@.data.len() + 2 + packet@.len() <= usize::MAX,
        ensures
            final(self).wf(),
            final(self).config == old(self).config,
            final(self).link_stats == old(self).link_stats,
            final(self).optimal_chunk_size == old(self).optimal_chunk_size,
            final(self).next_chunk_id == old(self).id_once(r is Some),
            r is Some == old(self).added(packet@, flow_id, now_ns).0 is Some,
            r is Some ==> r->0@ == old(self).added(packet@, flow_id, now_ns).0->0,
            final(self).current_chunk@ == old(self).added(packet@, flow_id, now_ns).1,
    {
        proof {
            lemma_be_bytes_len(packet@.len() % 65536, 2);
        }
        let new_size: usize = self.current_chunk.size() + 2 + packet.len();
        if new_size > self.optimal_chunk_size && !self.current_chunk.is_empty() {
            let ready: Chunk = self.finalize_current_chunk(now_ns);
            self.current_chunk.add_packet(packet);
            if flow_id.is_some() {
                self.current_chunk.flow_id = flow_id;
            }
            return Some(ready);
        }
        self.current_chunk.add_packet(packet);
        if flow_id.is_some() && self.current_chunk.flow_id.is_none() {
            self.current_chunk.flow_id = flow_id;
        }
        if self.current_chunk.size() >= self.optimal_chunk_size {
            return Some(self.finalize_current_chunk(now_ns));
        }
        None
    }

    /// Force flush current chunk (due to timeout or explicit request).
    pub fn flush(&mut self, now_ns: u64) -> (r: Option<Chunk>)
        requires
            old(self).wf(),
        ensures
            final(self).wf(),
            final(self).config == old(self).config,
            final(self).link_stats == old(self).link_stats,
            final(self).optimal_chunk_size == old(self).optimal_chunk_size,
            final(self).next_chunk_id == old(self).id_once(r is Some),
            r is Some == (old(self).current_chunk@.data.len() > 0),
            r is Some ==> r->0@ == old(self).current_chunk@ && final(self).current_chunk@ == ChunkContents::fresh(
                old(self).next_chunk_id,
                now_ns,
            ),
            r is None ==> *final(self) == *old(self),
    {
        if self.current_chunk.is_empty() {
            return None;
        }
        Some(self.finalize_current_chunk(now_ns))
    }

    /// Flush if the timeout has elapsed since the chunk was begun.
    pub fn check_timeout(&mut self, now_ns: u64) -> (r: Option<Chunk>)
        requires
            old(self).wf(),
        ensures
            final(self).wf(),
            final(self).config == old(self).config,
            final(self).link_stats == old(self).link_stats,
            final(self).optimal_chunk_size == old(self).optimal_chunk_size,
            final(self).next_chunk_id == old(self).id_once(r is Some),
            r is Some == (old(self).current_chunk@.data.len() > 0 && monus(
                now_ns as nat,
                old(self).current_chunk.created_at as nat,
            ) >= old(self).config.aggregation_timeout_ms * 1_000_000),
            r is Some ==> r->0@ == old(self).current_chunk@ && final(self).current_chunk@ == ChunkContents::fresh(
                old(self).next_chunk_id,
                now_ns,
            ),
            r is None ==> *final(self) == *old(self),
    {
        if self.current_chunk.is_empty() {
            return None;
        }
        let elapsed: u64 = now_ns.saturating_sub(self.current_chunk.created_at);
        if elapsed as u128 >= self.config.aggregation_timeout_ms as u128 * 1_000_000 {
            return self.flush(now_ns);
        }
        None
    }

    /// Finalize current chunk and prepare new one.
    fn finalize_current_chunk(&mut self, now_ns: u64) -> (r: Chunk)
        requires
            old(self).wf(),
        ensures
            final(self).wf(),
            r@ == old(self).current_chunk@,
            final(self).config == old(self).config,
            final(self).link_stats == old(self).link_stats,
            final(self).optimal_chunk_size == old(self).optimal_chunk_size,
            final(self).next_chunk_id == id_after(old(self).next_chunk_id),
            final(self).current_chunk@ == ChunkContents::fresh(old(self).next_chunk_id, now_ns),
    {
        let mut ready: Chunk = Chunk::new(self.next_chunk_id, now_ns);
        std::mem::swap(&mut ready, &mut self.current_chunk);
        ready.id = ChunkId(self.next_chunk_id.0.wrapping_sub(1));
        self.next_chunk_id = self.next_chunk_id.next();
        assert(ready@ =~= old(self).current_chunk@);
        ready
    }

    /// Current optimal chunk size.
    pub fn optimal_chunk_size(&self) -> (r: usize)
        ensures
            r == self.optimal_chunk_size,
    {
        self.optimal_chunk_size
    }

    /// Pending data size.
    pub fn pending_size(&self) -> (r: usize)
        ensures
            r == self.current_chunk@.data.len(),
    {
        self.current_chunk.size()
    }

    /// Identifier of the chunk being built (for announcements).
    pub fn next_id(&self) -> (r: ChunkId)
        ensures
            r == self.current_chunk.id,
    {
        self.current_chunk.id
    }
}

// ---------------------------------------------------------------------------
// Laws
// ---------------------------------------------------------------------------

/// Extracting undoes adding: packets come out as they went in, in order, as
/// long as each length fits its two bytes.
pub proof fn law_extract_undoes_add(packets: Seq<Seq<u8>>)
    requires
        forall|i: int| 0 <= i < packets.len() ==> (#[trigger] packets[i]).len() < 65536,
    ensures
        split(joined(packets)) == packets,
    decreases packets.len(),
{
    if packets.len() > 0 {
        let before = packets.drop_last();
        law_extract_undoes_add(before);
        lemma_split_append(before, packets.last());
        assert(before.push(packets.last()) =~= packets);
    }
}

proof fn lemma_split_framed(packet: Seq<u8>, rest: Seq<u8>)
    requires
        packet.len() < 65536,
    ensures
        split(framed(packet) + rest) == seq![packet] + split(rest),
{
    lemma_be_bytes_len(packet.len(), 2);
    lemma_byte_ranges();
    lemma_be_round_trip(packet.len(), 2);
    let data = framed(packet) + rest;
    assert(data.subrange(0, 2) =~= be_bytes(packet.len(), 2));
    let len = packet.len() as int;
    assert(data.subrange(2, 2 + len) =~= packet);
    assert(data.subrange(2 + len, data.len() as int) =~= rest);
}

proof fn lemma_joined_front(packets: Seq<Seq<u8>>)
    requires
        packets.len() > 0,
    ensures
        joined(packets) == framed(packets[0]) + joined(packets.drop_first()),
    decreases packets.len(),
{
    if packets.len() == 1 {
        assert(packets.drop_last() =~= Seq::<Seq<u8>>::empty());
        assert(packets.drop_first() =~= Seq::<Seq<u8>>::empty());
        assert(joined(packets.drop_last()) =~= Seq::<u8>::empty());
        assert(joined(packets.drop_first()) =~= Seq::<u8>::empty());
        assert(joined(packets) =~= framed(packets[0]) + joined(packets.drop_first()));
    } else {
        let before = packets.drop_last();
        lemma_joined_front(before);
        assert(before.drop_first() =~= packets.drop_first().drop_last());
        assert(joined(packets) =~= framed(packets[0]) + (joined(before.drop_first()) + framed(packets.last())));
    }
}

proof fn lemma_split_append(packets: Seq<Seq<u8>>, packet: Seq<u8>)
    requires
        forall|i: int| 0 <= i < packets.len() ==> (#[trigger] packets[i]).len() < 65536,
        packet.len() < 65536,
        split(joined(packets)) == packets,
    ensures
        split(joined(packets) + framed(packet)) == packets.push(packet),
    decreases packets.len(),
{
    if packets.len() == 0 {
        lemma_split_framed(packet, Seq::empty());
        assert(framed(packet) + Seq::<u8>::empty() =~= joined(packets) + framed(packet));
        assert(split(Seq::<u8>::empty()) =~= Seq::<Seq<u8>>::empty());
        assert(seq![packet] + Seq::<Seq<u8>>::empty() =~= packets.push(packet));
    } else {
        let rest = packets.drop_first();
        lemma_joined_front(packets);
        lemma_split_framed(packets[0], joined(rest));
        assert(rest =~= (seq![packets[0]] + split(joined(rest))).drop_first());
        assert(split(joined(rest)) =~= rest);
        lemma_split_append(rest, packet);
        lemma_split_framed(packets[0], joined(rest) + framed(packet));
        assert(joined(packets) + framed(packet) =~= framed(packets[0]) + (joined(rest) + framed(packet)));
        assert(seq![packets[0]] + rest.push(packet) =~= packets.push(packet));
    }
}

/// No byte is lost, doubled or reordered: what is completed and what is
/// pending afterwards is what was pending before and the packet.
pub proof fn law_nothing_is_lost(a: ChunkAggregator, packet: Seq<u8>, flow_id: Option<FlowId>, now_ns: u64)
    ensures
        ({
            let (done, pending) = a.added(packet, flow_id, now_ns);
            let completed = match done {
                Some(chunk) => chunk.data,
                None => Seq::empty(),
            };
            completed + pending.data == a.current_chunk@.data + framed(packet)
        }),
{
    let (done, pending) = a.added(packet, flow_id, now_ns);
    let all = a.current_chunk@.data + framed(packet);
    if a.is_full_for(packet) {
        assert(a.current_chunk@.data + (Seq::<u8>::empty() + framed(packet)) =~= all);
    } else if done is Some {
        assert(all + Seq::<u8>::empty() =~= all);
    } else {
        assert(Seq::<u8>::empty() + all =~= all);
    }
}

/// A completed chunk is no larger than the optimal size, unless it was before
/// or one packet alone is.
pub proof fn law_chunks_keep_their_size(a: ChunkAggregator, packet: Seq<u8>, flow_id: Option<FlowId>, now_ns: u64)
    ensures
        a.added(packet, flow_id, now_ns).0 matches Some(chunk) ==> {
            ||| chunk.data.len() <= a.optimal_chunk_size
            ||| chunk.data.len() == a.current_chunk@.data.len()
            ||| chunk.data.len() == 2 + packet.len()
        },
{
    lemma_be_bytes_len(packet.len() % 65536, 2);
}

/// A call on an aggregator.
pub enum AggregatorCall {
    AddPacket { packet: Seq<u8>, flow_id: Option<FlowId>, now_ns: u64 },
    Flush { now_ns: u64 },
    CheckTimeout { now_ns: u64 },
    UpdateLinkStats { link_id: usize, bandwidth_bps: u64, rtt_ms: u32 },
}

impl ChunkAggregator {
    /// Whether the chunk being built has waited for the timeout.
    pub open spec fn timed_out(self, now_ns: u64) -> bool {
        monus(now_ns as nat, self.current_chunk.created_at as nat) >= self.config.aggregation_timeout_ms * 1_000_000
    }

    /// The chunk that a call returns.
    pub open spec fn gives(self, call: AggregatorCall) -> Option<ChunkContents> {
        let pending = if self.current_chunk@.data.len() > 0 {
            Some(self.current_chunk@)
        } else {
            None
        };
        match call {
            AggregatorCall::AddPacket { packet, flow_id, now_ns } => self.added(packet, flow_id, now_ns).0,
            AggregatorCall::Flush { now_ns } => pending,
            AggregatorCall::CheckTimeout { now_ns } => if self.timed_out(now_ns) {
                pending
            } else {
                None
            },
            AggregatorCall::UpdateLinkStats { .. } => None,
        }
    }

    /// Whether a call leads from this aggregator to another one.
    pub open spec fn steps_to(self, call: AggregatorCall, after: ChunkAggregator) -> bool {
        &&& after.config == self.config
        &&& after.next_chunk_id == self.id_once(self.gives(call) is Some)
        &&& match call {
            AggregatorCall::AddPacket { packet, flow_id, now_ns } => {
                &&& after.optimal_chunk_size == self.optimal_chunk_size
                &&& after.current_chunk@ == self.added(packet, flow_id, now_ns).1
            },
            AggregatorCall::Flush { now_ns } | AggregatorCall::CheckTimeout { now_ns } => {
                &&& after.optimal_chunk_size == self.optimal_chunk_size
                &&& after.current_chunk@ == if self.gives(call) is Some {
                    ChunkContents::fresh(self.next_chunk_id, now_ns)
                } else {
                    self.current_chunk@
                }
            },
            AggregatorCall::UpdateLinkStats { .. } => after.current_chunk@ == self.current_chunk@,
        }
    }
}

/// Whether the calls lead from each aggregator to the next.
pub open spec fn aggregator_run(states: Seq<ChunkAggregator>, calls: Seq<AggregatorCall>) -> bool {
    &&& states.len() == calls.len() + 1
    &&& forall|k: int| #![trigger calls[k]] 0 <= k < calls.len() ==> states[k].steps_to(calls[k], states[k + 1])
}

/// The packets that the first `k` calls added.
pub open spec fn packets_added(calls: Seq<AggregatorCall>, k: nat) -> Seq<Seq<u8>>
    decreases k,
{
    if k == 0 {
        Seq::empty()
    } else {
        match calls[k - 1] {
            AggregatorCall::AddPacket { packet, .. } => packets_added(calls, (k - 1) as nat).push(packet),
            _ => packets_added(calls, (k - 1) as nat),
        }
    }
}

/// The chunks that the first `k` calls returned.
pub open spec fn chunks_given(states: Seq<ChunkAggregator>, calls: Seq<AggregatorCall>, k: nat) -> Seq<ChunkContents>
    decreases k,
{
    if k == 0 {
        Seq::empty()
    } else {
        let before = chunks_given(states, calls, (k - 1) as nat);
        match states[k - 1].gives(calls[k - 1]) {
            Some(chunk) => before.push(chunk),
            None => before,
        }
    }
}

/// The packets that chunks hold, one chunk behind another.
pub open spec fn extracted(chunks: Seq<ChunkContents>) -> Seq<Seq<u8>>
    decreases chunks.len(),
{
    if chunks.len() == 0 {
        Seq::empty()
    } else {
        extracted(chunks.drop_last()) + split(chunks.last().data)
    }
}

/// Whether chunk data is made of whole packets whose lengths fit two bytes.
pub open spec fn whole(data: Seq<u8>) -> bool {
    &&& joined(split(data)) == data
    &&& forall|i: int| 0 <= i < split(data).len() ==> (#[trigger] split(data)[i]).len() < 65536
}

proof fn lemma_whole_empty()
    ensures
        whole(Seq::empty()),
        split(Seq::empty()) == Seq::<Seq<u8>>::empty(),
{
    assert(split(Seq::<u8>::empty()) =~= Seq::<Seq<u8>>::empty());
    assert(joined(Seq::<Seq<u8>>::empty()) =~= Seq::<u8>::empty());
}

proof fn lemma_whole_append(data: Seq<u8>, packet: Seq<u8>)
    requires
        whole(data),
        packet.len() < 65536,
    ensures
        whole(data + framed(packet)),
        split(data + framed(packet)) == split(data).push(packet),
{
    let packets = split(data);
    lemma_split_append(packets, packet);
    assert(packets.push(packet).drop_last() =~= packets);
    assert forall|i: int| 0 <= i < packets.push(packet).len() implies (#[trigger] packets.push(packet)[i]).len()
        < 65536 by {
        if i < packets.len() {
            assert(packets.push(packet)[i] == packets[i]);
        }
    }
}

proof fn lemma_extracted_push(chunks: Seq<ChunkContents>, chunk: ChunkContents)
    ensures
        extracted(chunks.push(chunk)) == extracted(chunks) + split(chunk.data),
{
    assert(chunks.push(chunk).drop_last() =~= chunks);
}

/// Over any run of calls no packet is lost, doubled or reordered: those that
/// the returned chunks hold, and then those of the chunk being built, are the
/// ones that were added; once all is flushed the returned chunks hold them all.
pub proof fn law_run_loses_nothing(
    states: Seq<ChunkAggregator>,
    calls: Seq<AggregatorCall>,
    start_ns: u64,
    k: nat,
)
    requires
        states.len() > 0,
        states[0].current_chunk@ == ChunkContents::fresh(ChunkId(0), start_ns),
        aggregator_run(states, calls),
        k <= calls.len(),
        forall|j: int|
            0 <= j < calls.len() ==> ((#[trigger] calls[j]) matches AggregatorCall::AddPacket { packet, .. }
                ==> packet.len() <= 65535),
    ensures
        whole(states[k as int].current_chunk@.data),
        extracted(chunks_given(states, calls, k)) + split(states[k as int].current_chunk@.data) == packets_added(
            calls,
            k,
        ),
        k > 0 && calls[k - 1] is Flush ==> extracted(chunks_given(states, calls, k)) == packets_added(calls, k),
    decreases k,
{
    lemma_whole_empty();
    let given = chunks_given(states, calls, k);
    let now = states[k as int].current_chunk@.data;
    if k == 0 {
        assert(extracted(given) + split(now) =~= packets_added(calls, k));
    } else {
        let p = (k - 1) as nat;
        law_run_loses_nothing(states, calls, start_ns, p);
        let before = states[p as int];
        let call = calls[p as int];
        assert(before.steps_to(call, states[k as int]));
        let out = chunks_given(states, calls, p);
        let held = before.current_chunk@.data;
        match call {
            AggregatorCall::AddPacket { packet, flow_id, now_ns } => {
                lemma_whole_append(held, packet);
                lemma_whole_append(Seq::empty(), packet);
                let all = held + framed(packet);
                if before.is_full_for(packet) {
                    lemma_extracted_push(out, before.current_chunk@);
                    assert(now == Seq::<u8>::empty() + framed(packet));
                    assert(split(now) == Seq::<Seq<u8>>::empty().push(packet));
                } else if before.added(packet, flow_id, now_ns).0 is Some {
                    lemma_extracted_push(out, before.current_chunk@.with_packet(packet).with_flow(flow_id));
                    assert(now == Seq::<u8>::empty());
                } else {
                    assert(now == all);
                }
                assert(extracted(given) + split(now) =~= packets_added(calls, p).push(packet));
            },
            _ => {
                if before.gives(call) is Some {
                    lemma_extracted_push(out, before.current_chunk@);
                    assert(now == Seq::<u8>::empty());
                }
                assert(extracted(given) + split(now) =~= packets_added(calls, p));
                if call is Flush {
                    assert(now =~= Seq::<u8>::empty());
                    assert(extracted(given) + split(now) =~= extracted(given));
                }
            },
        }
    }
}

/// Returned chunks are never empty, and are numbered from zero on; the number
/// is modulo 2^64.
pub proof fn law_chunks_are_numbered(
    states: Seq<ChunkAggregator>,
    calls: Seq<AggregatorCall>,
    start_ns: u64,
    k: nat,
    i: int,
)
    requires
        states.len() > 0,
        states[0].current_chunk@ == ChunkContents::fresh(ChunkId(0), start_ns),
        states[0].next_chunk_id == ChunkId(1),
        aggregator_run(states, calls),
        k <= calls.len(),
    ensures
        states[k as int].current_chunk@.id.0 == chunks_given(states, calls, k).len() % 0x1_0000_0000_0000_0000,
        states[k as int].next_chunk_id.0 == (chunks_given(states, calls, k).len() + 1) % 0x1_0000_0000_0000_0000,
        0 <= i < chunks_given(states, calls, k).len() ==> chunks_given(states, calls, k)[i].id.0 == i
            % 0x1_0000_0000_0000_0000 && chunks_given(states, calls, k)[i].data.len() > 0,
    decreases k,
{
    if k > 0 {
        let p = (k - 1) as nat;
        law_chunks_are_numbered(states, calls, start_ns, p, i);
        let before = states[p as int];
        let call = calls[p as int];
        assert(before.steps_to(call, states[k as int]));
        if let AggregatorCall::AddPacket { packet, .. } = call {
            lemma_be_bytes_len(packet.len() % 65536, 2);
        }
        let out = chunks_given(states, calls, p);
        if before.gives(call) is Some {
            assert(chunks_given(states, calls, k) == out.push(before.gives(call)->0));
        }
    }
}

/// While the optimal size stays the same, a returned chunk exceeds it only if
/// it holds a single packet.
pub proof fn law_run_keeps_chunks_small(
    states: Seq<ChunkAggregator>,
    calls: Seq<AggregatorCall>,
    start_ns: u64,
    k: nat,
    i: int,
)
    requires
        states.len() > 0,
        states[0].current_chunk@ == ChunkContents::fresh(ChunkId(0), start_ns),
        aggregator_run(states, calls),
        k <= calls.len(),
        forall|j: int| 0 <= j < states.len() ==> (#[trigger] states[j]).optimal_chunk_size
            == states[0].optimal_chunk_size,
        forall|j: int|
            0 <= j < calls.len() ==> ((#[trigger] calls[j]) matches AggregatorCall::AddPacket { packet, .. }
                ==> packet.len() <= 65535),
    ensures
        states[k as int].current_chunk@.data.len() > states[0].optimal_chunk_size ==> split(
            states[k as int].current_chunk@.data,
        ).len() == 1,
        0 <= i < chunks_given(states, calls, k).len() && chunks_given(states, calls, k)[i].data.len()
            > states[0].optimal_chunk_size ==> split(chunks_given(states, calls, k)[i].data).len() == 1,
    decreases k,
{
    if k > 0 {
        let p = (k - 1) as nat;
        law_run_keeps_chunks_small(states, calls, start_ns, p, i);
        law_run_loses_nothing(states, calls, start_ns, p);
        lemma_whole_empty();
        let before = states[p as int];
        let call = calls[p as int];
        let held = before.current_chunk@.data;
        assert(before.steps_to(call, states[k as int]));
        if let AggregatorCall::AddPacket { packet, .. } = call {
            lemma_be_bytes_len(packet.len() % 65536, 2);
            lemma_whole_append(held, packet);
            lemma_whole_append(Seq::empty(), packet);
            assert(held.len() == 0 ==> held =~= Seq::<u8>::empty());
        }
        let out = chunks_given(states, calls, p);
        if before.gives(call) is Some {
            assert(chunks_given(states, calls, k) == out.push(before.gives(call)->0));
        }
    }
}

/// The optimal size stays within the configured bounds once a BDP is known.
pub proof fn law_optimal_size_is_bounded(a: ChunkAggregator, stats: Seq<(u64, u32)>)
    requires
        max_bdp(stats) > 0,
        a.config.min_chunk_size <= a.config.max_chunk_size,
    ensures
        a.config.min_chunk_size <= a.size_for(stats) <= a.config.max_chunk_size,
{
}

/// A packet stands in a chunk behind its length, the high byte first.
pub proof fn law_packets_are_framed(packet: Seq<u8>)
    requires
        packet.len() < 65536,
    ensures
        framed(packet).len() == 2 + packet.len(),
        framed(packet)[0] * 256 + framed(packet)[1] == packet.len(),
        framed(packet).subrange(2, framed(packet).len() as int) == packet,
{
    lemma_be_bytes_len(packet.len(), 2);
    reveal_with_fuel(be_bytes, 3);
    assert(be_bytes(packet.len() / 256 / 256, 0) =~= Seq::<u8>::empty());
    assert(framed(packet).subrange(2, framed(packet).len() as int) =~= packet);
}

/// A packet that does not fit completes the chunk without it and begins the
/// next; one that fills it completes it; any other waits in it.
pub proof fn law_when_a_chunk_is_complete(a: ChunkAggregator, packet: Seq<u8>, flow_id: Option<FlowId>, now_ns: u64)
    ensures
        ({
            let (done, pending) = a.added(packet, flow_id, now_ns);
            let held = a.current_chunk@.data.len();
            let grown = held + 2 + packet.len();
            &&& held > 0 && grown > a.optimal_chunk_size ==> done == Some(a.current_chunk@) && pending.data.len() == 2
                + packet.len() && pending.id == a.next_chunk_id && pending.created_at == now_ns
            &&& grown == a.optimal_chunk_size || (held == 0 && grown > a.optimal_chunk_size) ==> done is Some
                && done->0.data.len() == grown && done->0.id == a.current_chunk@.id && pending.data.len() == 0
                && pending.id == a.next_chunk_id && pending.created_at == now_ns
            &&& grown < a.optimal_chunk_size ==> done is None && pending.data.len() == grown && pending.id
                == a.current_chunk@.id && pending.created_at == a.current_chunk@.created_at
        }),
{
    lemma_be_bytes_len(packet.len() % 65536, 2);
}

/// A chunk's flow is that of the first packet in it that names one.
pub proof fn law_chunk_flow_is_the_first(a: ChunkAggregator, packet: Seq<u8>, flow_id: Option<FlowId>, now_ns: u64)
    ensures
        ({
            let (done, pending) = a.added(packet, flow_id, now_ns);
            let old_flow = a.current_chunk@.flow_id;
            let mixed = if old_flow is Some {
                old_flow
            } else {
                flow_id
            };
            &&& done is None ==> pending.flow_id == mixed
            &&& done is Some && pending.data.len() == 0 ==> done->0.flow_id == mixed && pending.flow_id is None
            &&& done is Some && pending.data.len() > 0 ==> done->0.flow_id == old_flow && pending.flow_id == flow_id
        }),
{
    lemma_be_bytes_len(packet.len() % 65536, 2);
}

/// A chunk with anything in it is given once it has waited for the timeout.
pub proof fn law_waiting_chunks_are_given(a: ChunkAggregator, now_ns: u64)
    requires
        a.config.aggregation_timeout_ms > 0,
    ensures
        a.gives(AggregatorCall::CheckTimeout { now_ns }) is Some <==> a.current_chunk@.data.len() > 0 && now_ns
            - a.current_chunk@.created_at >= a.config.aggregation_timeout_ms * 1_000_000,
        a.gives(AggregatorCall::Flush { now_ns }) is Some <==> a.current_chunk@.data.len() > 0,
        a.gives(AggregatorCall::CheckTimeout { now_ns }) is Some ==> a.gives(AggregatorCall::CheckTimeout { now_ns })->0
            == a.current_chunk@,
        a.gives(AggregatorCall::Flush { now_ns }) is Some ==> a.gives(AggregatorCall::Flush { now_ns })->0
            == a.current_chunk@,
{
}

/// The size follows the greatest product of bandwidth and delay, here that of
/// link `k`: a decimal multiple of it, in bytes, within the configured bounds.
/// Without such a product the size stays.
pub proof fn law_size_follows_the_greatest_product(
    a: ChunkAggregator,
    stats: Seq<(u64, u32)>,
    k: int,
    p: nat,
    q: nat,
)
    requires
        0 <= k < stats.len(),
        forall|i: int| 0 <= i < stats.len() ==> (#[trigger] stats[i]).0 * stats[i].1 <= stats[k].0 * stats[k].1,
        stats[k].0 * stats[k].1 < 0x100_0000_0000,
        forall|i: int| 0 <= i < stats.len() ==> (#[trigger] stats[i]).0 < 0x100_0000_0000,
        a.config.bdp_multiplier == Binary64::fraction(p, q),
        0 < q <= 1000,
        p <= 2 * q,
    ensures
        ({
            let product = (stats[k].0 * stats[k].1) as nat / 1000;
            let size = a.size_for(stats) as nat;
            let min = a.config.min_chunk_size as nat;
            let max = a.config.max_chunk_size as nat;
            &&& product == 0 ==> size == a.optimal_chunk_size
            &&& product > 0 && min <= max && min < size < max ==> q * size <= product * p <= q * (size + 1)
            &&& product > 0 && min <= max && q * (max + 1) < product * p ==> size == max
            &&& product > 0 && min <= max && product * p < q * min ==> size == min
            &&& product > 0 && min <= max ==> min <= size <= max
        }),
{
    lemma_max_bdp(stats, k);
    let product = (stats[k].0 * stats[k].1) as nat / 1000;
    lemma_part_is_close(product, p, q);
    let t = Binary64::of_nat(product).product(a.config.bdp_multiplier).truncated();
    let size = a.size_for(stats) as nat;
    let min = a.config.min_chunk_size as nat;
    let max = a.config.max_chunk_size as nat;
    if product > 0 && min <= max {
        if q * (max + 1) < product * p {
            assert(max < t) by (nonlinear_arith)
                requires
                    q * (max + 1) < product * p,
                    product * p <= q * (t + 1),
                    q > 0,
            ;
        }
        if product * p < q * min {
            assert(t < min) by (nonlinear_arith)
                requires
                    product * p < q * min,
                    q * t <= product * p,
                    q > 0,
            ;
        }
    }
}

proof fn lemma_bdp(stat: (u64, u32))
    requires
        stat.0 * stat.1 < 0x100_0000_0000,
        stat.0 < 0x100_0000_0000,
    ensures
        bdp(stat) == (stat.0 * stat.1) as nat / 1000,
{
    let n = (stat.0 * stat.1) as nat;
    if stat.0 > 0 && stat.1 > 0 {
        lemma_whole_product(stat.0 as nat, stat.1 as nat);
        lemma_whole_quotient(n, 1000);
    } else {
        assert(n == 0) by (nonlinear_arith)
            requires
                n == stat.0 * stat.1,
                stat.0 == 0 || stat.1 == 0,
        ;
    }
}

proof fn lemma_max_bdp(stats: Seq<(u64, u32)>, k: int)
    requires
        0 <= k < stats.len(),
        forall|i: int| 0 <= i < stats.len() ==> (#[trigger] stats[i]).0 * stats[i].1 <= stats[k].0 * stats[k].1,
        stats[k].0 * stats[k].1 < 0x100_0000_0000,
        forall|i: int| 0 <= i < stats.len() ==> (#[trigger] stats[i]).0 < 0x100_0000_0000,
    ensures
        max_bdp(stats) == (stats[k].0 * stats[k].1) as nat / 1000,
{
    let top = (stats[k].0 * stats[k].1) as nat / 1000;
    assert forall|i: int| 0 <= i < stats.len() implies bdp(#[trigger] stats[i]) <= top by {
        lemma_bdp(stats[i]);
        assert(stats[i].0 * stats[i].1 <= stats[k].0 * stats[k].1);
    }
    lemma_bdp(stats[k]);
    lemma_max_of_bdps(stats, k, top);
}

proof fn lemma_max_of_bdps(stats: Seq<(u64, u32)>, k: int, top: nat)
    requires
        forall|i: int| 0 <= i < stats.len() ==> bdp(#[trigger] stats[i]) <= top,
    ensures
        max_bdp(stats) <= top,
        0 <= k < stats.len() ==> max_bdp(stats) >= bdp(stats[k]),
    decreases stats.len(),
{
    if stats.len() > 0 {
        let shorter = stats.drop_last();
        assert forall|i: int| 0 <= i < shorter.len() implies bdp(#[trigger] shorter[i]) <= top by {
            assert(shorter[i] == stats[i]);
        }
        lemma_max_of_bdps(shorter, k, top);
        assert(stats.last() == stats[stats.len() - 1]);
    }
}

} // verus!
