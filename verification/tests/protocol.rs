use chainlightning::protocol::{
    now_micros, whole_micros, AckPacket, AnnouncePacket, ChunkId, ChunkPacket, FlowId, KeepalivePacket, Packet,
    PathState, ProbePacket, StatsPacket,
};

#[test]
fn test_chunk_roundtrip() {
    let chunk = ChunkPacket {
        chunk_id: ChunkId(12345),
        link_id: 2,
        total_size: 65536,
        offset: 0,
        payload: vec![1, 2, 3, 4, 5],
    };

    let encoded = chunk.encode();
    let decoded = ChunkPacket::decode(&encoded).unwrap();

    assert_eq!(chunk.chunk_id, decoded.chunk_id);
    assert_eq!(chunk.link_id, decoded.link_id);
    assert_eq!(chunk.total_size, decoded.total_size);
    assert_eq!(chunk.offset, decoded.offset);
    assert_eq!(chunk.payload, decoded.payload);
}

#[test]
fn test_announce_roundtrip() {
    let announce = AnnouncePacket {
        chunk_id: ChunkId(99999),
        link_id: 4,
        expected_size: 1048576,
        timestamp_us: 1234567890,
    };

    let encoded = announce.encode();
    let decoded = AnnouncePacket::decode(&encoded).unwrap();

    assert_eq!(announce.chunk_id, decoded.chunk_id);
    assert_eq!(announce.link_id, decoded.link_id);
    assert_eq!(announce.expected_size, decoded.expected_size);
    assert_eq!(announce.timestamp_us, decoded.timestamp_us);
}

#[test]
fn test_ack_roundtrip() {
    let ack = AckPacket {
        chunk_id: ChunkId(555),
        link_id: 1,
        echo_timestamp_us: 1000000,
        recv_timestamp_us: 1000500,
    };

    let encoded = ack.encode();
    let decoded = AckPacket::decode(&encoded).unwrap();

    assert_eq!(ack.chunk_id, decoded.chunk_id);
    assert_eq!(ack.link_id, decoded.link_id);
    assert_eq!(ack.echo_timestamp_us, decoded.echo_timestamp_us);
    assert_eq!(ack.recv_timestamp_us, decoded.recv_timestamp_us);
}

#[test]
fn test_flow_id_tcp() {
    // Minimal valid IPv4 TCP packet header
    let mut packet = vec![0u8; 40];
    packet[0] = 0x45; // IPv4, IHL=5
    packet[9] = 6; // TCP
    packet[12..16].copy_from_slice(&[192, 168, 1, 1]); // src IP
    packet[16..20].copy_from_slice(&[10, 0, 0, 1]); // dst IP
    packet[20..22].copy_from_slice(&[0x1F, 0x90]); // src port 8080
    packet[22..24].copy_from_slice(&[0x00, 0x50]); // dst port 80

    let flow_id = FlowId::from_packet(&packet);
    assert!(flow_id.is_some());

    // Same packet should produce same flow ID
    let flow_id2 = FlowId::from_packet(&packet);
    assert_eq!(flow_id, flow_id2);
}

// ---------------------------------------------------------------------------

fn probe() -> ProbePacket {
    ProbePacket {
        link_id: 3,
        seq: 0x01020304,
        timestamp_us: 5,
        echo_timestamp_us: u64::MAX,
        tx_bytes: 6,
        tx_packets: 7,
        rx_bytes: 8,
        rx_packets: 9,
        loss_ratio: 10,
        path_state: PathState::Probing,
    }
}

fn stats() -> StatsPacket {
    StatsPacket {
        link_id: 2,
        bandwidth_bps: 7_812_500,
        rtt_us: 35_000,
        loss_ratio: 0.25f32.to_bits(),
        timestamp_us: 77,
    }
}

fn write(p: StatsPacket) -> Vec<u8> {
    let mut fields = serde_json::Map::new();
    fields.insert("link_id".to_string(), serde_json::Value::from(p.link_id));
    fields.insert("bandwidth_bps".to_string(), serde_json::Value::from(p.bandwidth_bps));
    fields.insert("rtt_us".to_string(), serde_json::Value::from(p.rtt_us));
    fields.insert("loss_ratio".to_string(), serde_json::Value::from(f32::from_bits(p.loss_ratio)));
    fields.insert("timestamp_us".to_string(), serde_json::Value::from(p.timestamp_us));
    serde_json::to_vec(&fields).unwrap()
}

fn read(text: Vec<u8>) -> Option<StatsPacket> {
    let fields: serde_json::Value = serde_json::from_slice(&text).ok()?;
    Some(StatsPacket {
        link_id: u8::try_from(fields.get("link_id")?.as_u64()?).ok()?,
        bandwidth_bps: fields.get("bandwidth_bps")?.as_u64()?,
        rtt_us: fields.get("rtt_us")?.as_u64()?,
        loss_ratio: (fields.get("loss_ratio")?.as_f64()? as f32).to_bits(),
        timestamp_us: fields.get("timestamp_us")?.as_u64()?,
    })
}

#[test]
fn truncated_packets_are_refused() {
    let chunk = ChunkPacket { chunk_id: ChunkId(1), link_id: 0, total_size: 3, offset: 0, payload: vec![1, 2, 3] };
    let announce = AnnouncePacket { chunk_id: ChunkId(1), link_id: 0, expected_size: 3, timestamp_us: 4 };
    let ack = AckPacket { chunk_id: ChunkId(1), link_id: 0, echo_timestamp_us: 2, recv_timestamp_us: 3 };
    let keepalive = KeepalivePacket { link_id: 0, timestamp_us: 9 };
    let all = [
        chunk.encode(),
        announce.encode(),
        ack.encode(),
        keepalive.encode(),
        stats().encode(write),
        probe().encode(),
    ];
    for wire in all.iter() {
        assert!(Packet::decode(wire, read).is_some());
        for n in 0..wire.len() {
            assert!(Packet::decode(&wire[..n], read).is_none());
        }
    }
    assert!(Packet::decode(&[0xee; 64], read).is_none());
}

#[test]
fn probes_are_big_endian() {
    let wire = probe().encode();
    assert_eq!(wire.len(), ProbePacket::SIZE);
    assert_eq!(wire[1..6], [3, 1, 2, 3, 4]);
    assert_eq!(wire[46..], [10, 3, 0, 0, 0]);
    assert_eq!(ProbePacket::decode(&wire), Some(probe()));
}

#[test]
fn statistics_are_framed() {
    let wire = stats().encode(|_| vec![b'x'; 300]);
    assert_eq!(wire[1..3], [1, 44]);
    assert_eq!(wire[3..], [b'x'; 300]);
    // The reader sees the body, the whole body and nothing but the body
    let seen = |text: Vec<u8>| if text == vec![b'x'; 300] { Some(stats()) } else { None };
    assert_eq!(StatsPacket::decode(&wire, seen), Some(stats()));
    let mut longer = wire.clone();
    longer.push(b'y');
    assert_eq!(StatsPacket::decode(&longer, seen), Some(stats()));
    assert_eq!(StatsPacket::decode(&wire[..302], seen), None);
}

#[test]
fn statistics_come_back_from_json() {
    let wire = stats().encode(write);
    match Packet::decode(&wire, read) {
        Some(Packet::Stats(p)) => assert_eq!(p, stats()),
        other => panic!("{:?}", other),
    }
}

#[test]
fn statistics_that_are_no_json_are_refused() {
    for text in ["not json", "", "{}", "{\"link_id\":300}"] {
        let wire = stats().encode(|_| text.as_bytes().to_vec());
        assert!(StatsPacket::decode(&wire, read).is_none());
        assert!(Packet::decode(&wire, read).is_none());
    }
}

#[test]
fn states_have_numbers() {
    for state in [PathState::Running, PathState::Lossy, PathState::Down, PathState::Probing] {
        assert_eq!(PathState::from_u8(state.to_u8()), state);
    }
    assert_eq!(PathState::from_u8(200), PathState::Running);
}

#[test]
fn flows_of_icmp_go_by_the_identifier() {
    let mut packet = vec![0u8; 28];
    packet[0] = 0x45;
    packet[9] = 1;
    packet[15] = 2;
    packet[19] = 3;
    packet[25] = 4;
    assert_eq!(FlowId::from_icmp(&packet), Some(FlowId(2 * 29791 + 3 * 961 + 4 * 31 + 1)));
    packet[9] = 17;
    assert_eq!(FlowId::from_icmp(&packet), None);
    assert_eq!(FlowId::from_icmp(&packet[..27]), None);
}

#[test]
fn flows_are_five_tuples() {
    let mut packet = vec![0u8; 24];
    packet[0] = 0x45;
    packet[9] = 17;
    packet[15] = 1;
    packet[19] = 2;
    packet[21] = 3;
    packet[23] = 4;
    let flow = FlowId::from_packet(&packet);
    assert_eq!(flow, Some(FlowId(923521 + 2 * 29791 + 3 * 961 + 4 * 31 + 17)));
    packet[8] = 64;
    packet.push(99);
    assert_eq!(FlowId::from_packet(&packet), flow);
    packet[0] = 0x65;
    assert_eq!(FlowId::from_packet(&packet), None);
}

#[test]
fn the_clock_counts_microseconds() {
    assert_eq!(whole_micros(Some((2, 3_999))), 2_000_003);
    assert_eq!(whole_micros(None), 0);
    assert_eq!(whole_micros(Some((18_446_744_073_709, 551_616_000))), 0);
    let before = std::time::UNIX_EPOCH.elapsed().unwrap().as_micros() as u64;
    let now = now_micros();
    let after = std::time::UNIX_EPOCH.elapsed().unwrap().as_micros() as u64;
    assert!(before <= now && now <= after);
}
