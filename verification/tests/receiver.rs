use chainlightning::chunk_aggregator::Chunk;
use chainlightning::config::ReceiverConfig;
use chainlightning::protocol::{AnnouncePacket, ChunkId};
use chainlightning::receiver::{ChunkReceiver, ReassemblyBuffer};

fn chunk(id: u64, byte: u8) -> Chunk {
    let mut c = Chunk::new(ChunkId(id), 0);
    c.add_packet(&[byte, byte, byte]);
    c
}

fn config(timeout_ms: u64, immediate: bool) -> ReceiverConfig {
    ReceiverConfig { reorder_timeout_ms: timeout_ms, max_buffer_chunks: 1000, immediate_forward: immediate }
}

#[test]
fn test_immediate_forward() {
    let mut buffer = ReassemblyBuffer::new(config(100, true));

    // Store chunks out of order
    buffer.store_chunk(chunk(3, 3), 0);
    buffer.store_chunk(chunk(1, 1), 0);

    // Should drain both immediately (out of order)
    let ready = buffer.drain_ready(0);
    assert_eq!(ready.len(), 2);
}

#[test]
fn test_ordered_with_timeout() {
    let mut buffer = ReassemblyBuffer::new(config(10, false));

    // Store chunk 1 (skipping 0)
    buffer.store_chunk(chunk(1, 1), 0);

    // Should not drain (waiting for 0)
    let ready = buffer.drain_ready(0);
    assert_eq!(ready.len(), 0);

    // Now should drain (chunk 0 timed out)
    let ready = buffer.drain_ready(15_000_000);
    assert_eq!(ready.len(), 1);
}

// ---------------------------------------------------------------------------

#[test]
fn a_run_goes_out_in_order() {
    let mut buffer = ReassemblyBuffer::new(config(1000, false));
    for id in [2, 0, 1, 4] {
        buffer.store_chunk(chunk(id, id as u8), 0);
    }
    let ids: Vec<u64> = buffer.drain_ready(1).iter().map(|c| c.id.0).collect();
    assert_eq!(ids, vec![0, 1, 2]);
    let stats = buffer.stats();
    assert_eq!((stats.next_expected, stats.highest_seen, stats.buffered, stats.ready), (3, 4, 1, 1));
    assert_eq!((stats.chunks_received, stats.chunks_forwarded), (4, 3));
    // The gap closes, and the rest follows.
    buffer.store_chunk(chunk(3, 3), 2);
    let ids: Vec<u64> = buffer.drain_ready(3).iter().map(|c| c.id.0).collect();
    assert_eq!(ids, vec![3, 4]);
}

#[test]
fn receiver_announces_and_drains() {
    let mut receiver = ChunkReceiver::new(config(1000, false));
    receiver.handle_announcement(
        AnnouncePacket { chunk_id: ChunkId(0), link_id: 3, expected_size: 10, timestamp_us: 5 },
        0,
    );
    assert_eq!(receiver.stats().buffered, 1);
    assert_eq!(receiver.stats().ready, 0);
    receiver.handle_chunk(chunk(0, 9), 1);
    assert_eq!(receiver.stats().ready, 1);
    assert!(receiver.buffer.can_drain(2));
    let out = receiver.drain(2);
    assert_eq!(out.len(), 1);
    assert_eq!(out[0].extract_packets(), vec![vec![9u8; 3]]);
    assert_eq!(receiver.stats().buffered, 0);
}

#[test]
fn timeout_can_be_changed() {
    let mut receiver = ChunkReceiver::new(config(1000, false));
    receiver.handle_chunk(chunk(5, 5), 0);
    assert_eq!(receiver.drain(20_000_000).len(), 0);
    receiver.set_reorder_timeout_ms(10);
    assert_eq!(receiver.drain(20_000_001).len(), 1);
}

#[test]
fn immediate_drains_give_what_was_stored_since() {
    let mut buffer = ReassemblyBuffer::new(config(100, true));
    buffer.record_announcement(
        AnnouncePacket { chunk_id: ChunkId(9), link_id: 0, expected_size: 10, timestamp_us: 5 },
        0,
    );
    for (id, byte) in [(3, 3), (1, 1), (3, 7)] {
        buffer.store_chunk(chunk(id, byte), 0);
    }
    let out = buffer.drain_ready(1);
    let ids: Vec<u64> = out.iter().map(|c| c.id.0).collect();
    assert_eq!(ids, vec![1, 3]);
    assert_eq!(out[1].extract_packets(), vec![vec![7u8; 3]]);
    let stats = buffer.stats();
    assert_eq!((stats.ready, stats.buffered, stats.chunks_forwarded), (0, 1, 2));
    assert!(buffer.drain_ready(2).is_empty());
    buffer.store_chunk(chunk(9, 9), 3);
    buffer.store_chunk(chunk(1, 2), 3);
    let ids: Vec<u64> = buffer.drain_ready(4).iter().map(|c| c.id.0).collect();
    assert_eq!(ids, vec![1, 9]);
}
