use chainlightning::binary64::Binary64;
use chainlightning::chunk_aggregator::{Chunk, ChunkAggregator};
use chainlightning::config::ChunkAggregatorConfig;
use chainlightning::protocol::{ChunkId, FlowId};

fn config(min: usize, max: usize) -> ChunkAggregatorConfig {
    ChunkAggregatorConfig {
        min_chunk_size: min,
        max_chunk_size: max,
        bdp_multiplier: Binary64 { bits: (1.0f64).to_bits() },
        aggregation_timeout_ms: 50,
    }
}

#[test]
fn test_chunk_packet_roundtrip() {
    let mut chunk = Chunk::new(ChunkId(1), 0);

    let packets = vec![vec![1, 2, 3, 4, 5], vec![10, 20, 30], vec![100; 100]];

    for p in &packets {
        chunk.add_packet(p);
    }

    let extracted = chunk.extract_packets();
    assert_eq!(extracted.len(), packets.len());
    for (orig, ext) in packets.iter().zip(extracted.iter()) {
        assert_eq!(orig, ext);
    }
}

#[test]
fn test_aggregator_flush_on_size() {
    let mut agg = ChunkAggregator::new(config(100, 1000), 5, 0);

    // Add small packets - should accumulate
    for _ in 0..5 {
        let result = agg.add_packet(&[0u8; 10], None, 0);
        assert!(result.is_none());
    }

    // Add large packet to trigger flush
    let result = agg.add_packet(&[0u8; 80], None, 0);
    assert!(result.is_some());

    let chunk = result.unwrap();
    assert_eq!(chunk.packet_count(), 5);
}

// ---------------------------------------------------------------------------

#[test]
fn timeout_sends_what_is_there() {
    let mut agg = ChunkAggregator::new(config(100, 1000), 5, 0);
    assert!(agg.check_timeout(1_000_000_000).is_none());
    assert!(agg.add_packet(&[7; 10], Some(FlowId(9)), 1_000_000).is_none());
    assert_eq!(agg.pending_size(), 12);
    assert!(agg.check_timeout(49_000_000).is_none());
    let chunk = agg.check_timeout(50_000_000).expect("timed out");
    assert_eq!(chunk.extract_packets(), vec![vec![7u8; 10]]);
    assert_eq!(chunk.flow_id, Some(FlowId(9)));
    assert_eq!(chunk.id, ChunkId(0));
    assert_eq!(agg.next_id(), ChunkId(1));
    assert_eq!(agg.pending_size(), 0);
}

#[test]
fn size_follows_the_bandwidth_delay_product() {
    let mut agg = ChunkAggregator::new(config(1200, 1_000_000), 2, 0);
    assert_eq!(agg.optimal_chunk_size(), 1200);
    // 1 MB/s for 20 ms
    agg.update_link_stats(0, 1_000_000, 20);
    assert_eq!(agg.optimal_chunk_size(), 20_000);
    agg.update_link_stats(1, 27_500_000, 100);
    assert_eq!(agg.optimal_chunk_size(), 1_000_000);
    agg.update_link_stats(7, 1, 1);
    assert_eq!(agg.optimal_chunk_size(), 1_000_000);
}

#[test]
fn flush_of_nothing_is_nothing() {
    let mut agg = ChunkAggregator::new(config(100, 1000), 1, 0);
    assert!(agg.flush(0).is_none());
    agg.add_packet(&[1, 2], None, 0);
    let chunk = agg.flush(0).unwrap();
    assert_eq!(chunk.size(), 4);
    assert!(!chunk.is_empty());
    assert!(agg.flush(0).is_none());
}

#[test]
fn a_run_loses_nothing() {
    let mut agg = ChunkAggregator::new(config(100, 1000), 5, 0);
    let mut added: Vec<Vec<u8>> = Vec::new();
    let mut chunks: Vec<Chunk> = Vec::new();
    for k in 0..200u64 {
        let packet = vec![k as u8; (k * 37 % 160) as usize];
        chunks.extend(agg.add_packet(&packet, None, k * 1_000_000));
        added.push(packet);
        if k % 11 == 0 {
            chunks.extend(agg.flush(k * 1_000_000));
        }
        if k % 5 == 0 {
            chunks.extend(agg.check_timeout(k * 1_000_000 + 60_000_000));
        }
    }
    chunks.extend(agg.flush(1_000_000_000));
    let extracted: Vec<Vec<u8>> = chunks.iter().flat_map(|c| c.extract_packets()).collect();
    assert_eq!(extracted, added);
    for (k, chunk) in chunks.iter().enumerate() {
        assert_eq!(chunk.id, ChunkId(k as u64));
        assert!(!chunk.is_empty());
        assert!(chunk.size() <= 100 || chunk.packet_count() == 1);
    }
}
