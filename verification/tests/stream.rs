//! The coded data plane: commands, streams and the misbehaving network.

use velyx::dht::{ContentKey, NodeId};
use velyx::stream::{
    ChaosConfig, ChaosScope, DirtyNetwork, StreamCommand, StreamControlEvent, StreamReceiver,
    StreamSender, CMD_DHT_NODES_FOUND, CMD_DHT_STORE_PROVIDER, CMD_DHT_VALUE_FOUND,
};
use velyx::{ControlChunk, VwpFrameType, VWP_STREAM_ID_LEN};


#[test]
fn chaos_monkey_50_percent_loss_still_recovers() {
    let mut stream_id = [0u8; VWP_STREAM_ID_LEN];
    stream_id[0] = 9;
    let data = b"velyx-chaos-monkey-raptorq".repeat(1024);

    let mut sender = StreamSender::new(stream_id, &data, 1300, 0, 32).expect("sender");
    let mut receiver = StreamReceiver::default();
    let mut chaos = DirtyNetwork::new(
        ChaosConfig {
            drop_data_pct: 50,
            drop_control_pct: 0,
            drop_ack_pct: 0,
            duplicate_pct: 0,
            reorder_pct: 0,
            jitter_ms: 0,
            scope: ChaosScope::DataOnly,
        },
        42,
    )
    .expect("chaos");

    let start_payload = sender
        .stream_start()
        .encode();
    receiver
        .on_control_payload(&start_payload)
        .expect("stream start");

    let mut decoded = None;
    for _ in 0..10000 {
        let frame = sender.next_data_frame();
        if chaos.should_drop(frame.frame_type) {
            continue;
        }
        decoded = receiver
            .ingest_data_packet(&frame.payload)
            .expect("ingest data");
        if decoded.is_some() {
            break;
        }
    }

    let recovered = decoded.expect("recovered payload under packet loss");
    assert_eq!(recovered, data);
    assert!(receiver.is_done());
}

#[test]
fn stream_start_frames_are_control_frames() {
    let stream_id = [1u8; VWP_STREAM_ID_LEN];
    let sender = StreamSender::new(stream_id, b"abc", 1300, 0, 2).expect("sender");
    let frames = sender.stream_start_frames(1, 0).expect("frames");
    assert!(!frames.is_empty());
    assert!(frames.iter().all(|f| f.frame_type == VwpFrameType::Control));
    let chunk = ControlChunk::decode(&frames[0].payload).expect("chunk");
    assert_eq!(chunk.message_id, 1);
}

#[test]
fn ping_pong_roundtrip() {
    let sender = NodeId::from_bytes([0x11; 32]);

    let ping = StreamCommand::Ping { sender_id: sender };
    let ping_raw = ping.encode();
    match StreamCommand::decode(&ping_raw).expect("decode ping") {
        StreamCommand::Ping { sender_id } => assert_eq!(sender_id, sender),
        other => panic!("unexpected decoded command: {other:?}"),
    }

    let pong = StreamCommand::Pong { sender_id: sender };
    let pong_raw = pong.encode();
    match StreamCommand::decode(&pong_raw).expect("decode pong") {
        StreamCommand::Pong { sender_id } => assert_eq!(sender_id, sender),
        other => panic!("unexpected decoded command: {other:?}"),
    }
}

#[test]
fn stream_receiver_ignores_dht_commands() {
    let mut receiver = StreamReceiver::default();
    let sender = NodeId::from_bytes([0x22; 32]);

    let ping = StreamCommand::Ping { sender_id: sender }.encode();
    let event = receiver
        .on_control_payload(&ping)
        .expect("ping should decode");
    assert_eq!(event, StreamControlEvent::Ignored);

    let pong = StreamCommand::Pong { sender_id: sender }.encode();
    let event = receiver
        .on_control_payload(&pong)
        .expect("pong should decode");
    assert_eq!(event, StreamControlEvent::Ignored);

    let find = StreamCommand::FindNode { target_id: sender }.encode();
    let event = receiver
        .on_control_payload(&find)
        .expect("find should decode");
    assert_eq!(event, StreamControlEvent::Ignored);

    let nodes = StreamCommand::NodesFound {
        nodes: vec![sender],
    }
    .encode();
    let event = receiver
        .on_control_payload(&nodes)
        .expect("nodes_found should decode");
    assert_eq!(event, StreamControlEvent::Ignored);

    let key = ContentKey::from_bytes([0x33; 32]);
    let store = StreamCommand::StoreProvider {
        key,
        provider_id: sender,
    }
    .encode();
    let event = receiver
        .on_control_payload(&store)
        .expect("store_provider should decode");
    assert_eq!(event, StreamControlEvent::Ignored);

    let find_value = StreamCommand::FindValue { key }.encode();
    let event = receiver
        .on_control_payload(&find_value)
        .expect("find_value should decode");
    assert_eq!(event, StreamControlEvent::Ignored);

    let value_found = StreamCommand::ValueFound {
        key,
        providers: vec![sender],
    }
    .encode();
    let event = receiver
        .on_control_payload(&value_found)
        .expect("value_found should decode");
    assert_eq!(event, StreamControlEvent::Ignored);
}

#[test]
fn find_node_and_nodes_found_roundtrip() {
    let mut target = [0u8; 32];
    target[0] = 0xAB;
    let target = NodeId::from_bytes(target);

    let find = StreamCommand::FindNode { target_id: target };
    let find_raw = find.encode();
    match StreamCommand::decode(&find_raw).expect("decode find") {
        StreamCommand::FindNode { target_id } => assert_eq!(target_id, target),
        other => panic!("unexpected decoded command: {other:?}"),
    }

    let n1 = NodeId::from_bytes([0x11; 32]);
    let n2 = NodeId::from_bytes([0x22; 32]);
    let found = StreamCommand::NodesFound {
        nodes: vec![n1, n2],
    };
    let found_raw = found.encode();
    match StreamCommand::decode(&found_raw).expect("decode nodes_found") {
        StreamCommand::NodesFound { nodes } => assert_eq!(nodes, vec![n1, n2]),
        other => panic!("unexpected decoded command: {other:?}"),
    }
}

#[test]
fn store_provider_and_find_value_roundtrip() {
    let key = ContentKey::from_bytes([0xAB; 32]);
    let provider = NodeId::from_bytes([0x42; 32]);

    let store = StreamCommand::StoreProvider {
        key,
        provider_id: provider,
    };
    let store_raw = store.encode();
    match StreamCommand::decode(&store_raw).expect("decode store_provider") {
        StreamCommand::StoreProvider {
            key: decoded_key,
            provider_id,
        } => {
            assert_eq!(decoded_key, key);
            assert_eq!(provider_id, provider);
        }
        other => panic!("unexpected decoded command: {other:?}"),
    }

    let find = StreamCommand::FindValue { key };
    let find_raw = find.encode();
    match StreamCommand::decode(&find_raw).expect("decode find_value") {
        StreamCommand::FindValue { key: decoded_key } => assert_eq!(decoded_key, key),
        other => panic!("unexpected decoded command: {other:?}"),
    }
}

#[test]
fn value_found_roundtrip() {
    let key = ContentKey::from_bytes([0x11; 32]);
    let p1 = NodeId::from_bytes([0xA1; 32]);
    let p2 = NodeId::from_bytes([0xB2; 32]);

    let value = StreamCommand::ValueFound {
        key,
        providers: vec![p1, p2],
    };
    let raw = value.encode();
    match StreamCommand::decode(&raw).expect("decode value_found") {
        StreamCommand::ValueFound {
            key: decoded_key,
            providers,
        } => {
            assert_eq!(decoded_key, key);
            assert_eq!(providers, vec![p1, p2]);
        }
        other => panic!("unexpected decoded command: {other:?}"),
    }
}

#[test]
fn nodes_found_rejects_invalid_length() {
    let malformed = vec![CMD_DHT_NODES_FOUND, 2, 0xAA];
    assert!(StreamCommand::decode(&malformed).is_err());
}

#[test]
fn store_provider_rejects_invalid_length() {
    let malformed = vec![CMD_DHT_STORE_PROVIDER, 1, 2, 3];
    assert!(StreamCommand::decode(&malformed).is_err());
}

#[test]
fn value_found_rejects_invalid_length() {
    let malformed = vec![CMD_DHT_VALUE_FOUND, 0xAA];
    assert!(StreamCommand::decode(&malformed).is_err());
}
