//! Commands, streams and transfers at their limits.

use velyx::dht::{ContentKey, NodeId};
use velyx::error::Percentage;
use velyx::stream::{
    can_encode, ChaosConfig, ChaosScope, DirtyNetwork, ObjectTransmissionInformation,
    StreamCommand, StreamControlEvent, StreamReceiver, StreamSender, StreamTelemetry,
};
use velyx::time::{Clock, Duration, Instant};
use velyx::{Error, VwpFrameType};

fn chaos(scope: ChaosScope) -> ChaosConfig {
    ChaosConfig {
        drop_data_pct: 50,
        drop_control_pct: 100,
        drop_ack_pct: 0,
        duplicate_pct: 50,
        reorder_pct: 50,
        jitter_ms: 250,
        scope,
    }
}

fn info() -> ObjectTransmissionInformation {
    ObjectTransmissionInformation {
        transfer_length: 0x01_0203_0405,
        symbol_size: 0x0607,
        source_blocks: 8,
        sub_blocks: 0x090A,
        symbol_alignment: 11,
    }
}

fn refusal<T>(r: Result<T, Error>) -> Error {
    match r {
        Ok(_) => panic!("accepted"),
        Err(e) => e,
    }
}

#[test]
fn stream_start_has_its_exact_bytes() {
    let raw = StreamCommand::StreamStart(info()).encode();
    assert_eq!(raw, vec![1, 1, 2, 3, 4, 5, 0, 6, 7, 8, 9, 10, 11]);
    match StreamCommand::decode(&raw).expect("decode") {
        StreamCommand::StreamStart(config) => assert_eq!(config, info()),
        other => panic!("unexpected command: {other:?}"),
    }
    let raptor = raptorq::ObjectTransmissionInformation::deserialize(&[
        1, 2, 3, 4, 5, 0, 6, 7, 8, 9, 10, 11,
    ]);
    assert_eq!(raptor.transfer_length(), info().transfer_length());
    assert_eq!(raptor.symbol_size(), info().symbol_size());
    assert_eq!(raptor.serialize().to_vec(), raw[1..].to_vec());
}

#[test]
fn command_refusals() {
    let with = |code: u8, len: usize| {
        let mut raw = vec![0u8; len];
        raw[0] = code;
        refusal(StreamCommand::decode(&raw))
    };
    assert_eq!(refusal(StreamCommand::decode(&[])), Error::EmptyCommand);
    assert_eq!(with(0, 1), Error::UnknownCommand { value: 0 });
    assert_eq!(with(10, 1), Error::UnknownCommand { value: 10 });
    assert_eq!(with(1, 12), Error::InvalidStreamStartLength { len: 12 });
    assert_eq!(with(2, 2), Error::InvalidStopStreamLength { len: 2 });
    assert_eq!(with(3, 32), Error::InvalidPingLength { len: 32 });
    assert_eq!(with(4, 34), Error::InvalidPongLength { len: 34 });
    assert_eq!(with(5, 1), Error::InvalidFindNodeLength { len: 1 });
    assert_eq!(with(6, 1), Error::MissingNodeCount);
    assert_eq!(with(6, 3), Error::InvalidNodesLength { len: 2, expected: 1 });
    assert_eq!(with(7, 64), Error::InvalidStoreProviderLength { len: 64 });
    assert_eq!(with(8, 32), Error::InvalidFindValueLength { len: 32 });
    assert_eq!(with(9, 33), Error::InvalidValueFoundLength { len: 33 });
    assert_eq!(with(9, 35), Error::InvalidNodesLength { len: 2, expected: 1 });
}

#[test]
fn lists_are_cut_at_255_nodes() {
    let nodes: Vec<NodeId> = (0..300u32)
        .map(|i| {
            let mut id = [0u8; 32];
            id[..4].copy_from_slice(&i.to_be_bytes());
            NodeId::from_bytes(id)
        })
        .collect();
    let raw = StreamCommand::NodesFound { nodes: nodes.clone() }.encode();
    assert_eq!(raw.len(), 2 + 255 * 32);
    assert_eq!(raw[1], 255);
    match StreamCommand::decode(&raw).expect("decode") {
        StreamCommand::NodesFound { nodes: listed } => assert_eq!(listed, nodes[..255].to_vec()),
        other => panic!("unexpected command: {other:?}"),
    }
}

#[test]
fn accepted_commands_encode_to_the_same_bytes() {
    let key = ContentKey::from_bytes([3; 32]);
    let node = NodeId::from_bytes([4; 32]);
    let commands = vec![
        StreamCommand::StopStream,
        StreamCommand::StoreProvider { key, provider_id: node },
        StreamCommand::ValueFound { key, providers: vec![node, node] },
        StreamCommand::ValueFound { key, providers: vec![] },
    ];
    for command in commands {
        let raw = command.encode();
        assert_eq!(StreamCommand::decode(&raw).expect("decode").encode(), raw);
    }
}

#[test]
fn objects_that_can_be_coded() {
    assert!(!can_encode(0, 1300, 0));
    assert!(!can_encode(10, 0, 0));
    assert!(can_encode(1, 1, 0));
    assert!(can_encode(255 * 56403, 1, 0));
    assert!(!can_encode(255 * 56403 + 1, 1, 0));
    assert!(can_encode(100, 1, 16777216 - 100));
    assert!(!can_encode(100, 1, 16777216 - 99));
}

#[test]
fn sender_has_the_parameters_of_its_object() {
    let data = vec![5u8; 26_624];
    let sender = StreamSender::new([1; 32], &data, 1300, 0, 2).expect("sender");
    match sender.stream_start() {
        StreamCommand::StreamStart(config) => {
            assert_eq!(config.transfer_length, 26_624);
            assert_eq!(config.symbol_size, 1296);
            assert_eq!(config.source_blocks, 1);
            assert_eq!(config.symbol_alignment, 8);
            assert!(config.sub_blocks >= 1);
        }
        other => panic!("unexpected command: {other:?}"),
    }
    let small = StreamSender::new([1; 32], &data, 63, 0, 0).expect("sender");
    match small.stream_start() {
        StreamCommand::StreamStart(config) => {
            assert_eq!((config.symbol_size, config.symbol_alignment), (63, 1));
        }
        other => panic!("unexpected command: {other:?}"),
    }
}

#[test]
fn sender_goes_round_its_packets() {
    let data: Vec<u8> = (0..3000u32).map(|i| (i % 256) as u8).collect();
    // Three symbols and two more.
    let mut sender = StreamSender::new([1; 32], &data, 1000, u32::MAX, 2).expect("sender");
    let first: Vec<_> = (0..5).map(|_| sender.next_data_frame()).collect();
    let second: Vec<_> = (0..5).map(|_| sender.next_data_frame()).collect();
    for i in 0..5 {
        assert_eq!(first[i].payload, second[i].payload);
        assert_eq!(first[i].payload.len(), 4 + 1000);
        assert_eq!(first[i].frame_type, VwpFrameType::Data);
        assert_eq!(first[i].stream_id, [1; 32]);
    }
    assert_eq!(first[0].seq, u32::MAX);
    assert_eq!(first[1].seq, 0);
    assert_eq!(second[0].seq, 4);
    assert_eq!(&first[1].payload[4..], &data[1000..2000]);
    assert_ne!(first[3].payload, first[4].payload);
}

#[test]
fn one_lap_without_loss_recovers_the_object() {
    for (len, mtu, repair) in [(1usize, 64u16, 0u32), (5000, 100, 3), (100_000, 1300, 1)] {
        let data: Vec<u8> = (0..len).map(|i| (i * 7 % 256) as u8).collect();
        assert!(can_encode(len, mtu, repair));
        let mut sender = StreamSender::new([2; 32], &data, mtu, 0, repair).expect("sender");
        let mut receiver = StreamReceiver::new();
        let start = sender.stream_start().encode();
        assert!(StreamReceiver::accepts_control(&start));
        assert_eq!(
            receiver.on_control_payload(&start),
            Ok(StreamControlEvent::Started)
        );
        let mut recovered = None;
        let symbols = len.div_ceil((mtu - mtu % if mtu >= 64 { 8 } else { 1 }) as usize);
        for _ in 0..symbols + repair as usize {
            let frame = sender.next_data_frame();
            assert!(receiver.accepts_data(&frame.payload));
            if let Some(object) = receiver.ingest_data_packet(&frame.payload).expect("ingest") {
                recovered = Some(object);
            }
        }
        assert_eq!(recovered, Some(data));
        assert!(receiver.is_done());
    }
}

#[test]
fn packets_in_reverse_with_repetitions_recover_the_object() {
    let data: Vec<u8> = (0..20_000u32).map(|i| (i % 253) as u8).collect();
    let mut sender = StreamSender::new([2; 32], &data, 512, 0, 4).expect("sender");
    let mut receiver = StreamReceiver::default();
    receiver
        .on_control_payload(&sender.stream_start().encode())
        .expect("start");
    let mut frames: Vec<_> = (0..44).map(|_| sender.next_data_frame()).collect();
    frames.reverse();
    let mut recovered = None;
    for frame in frames {
        for _ in 0..2 {
            if let Some(object) = receiver.ingest_data_packet(&frame.payload).expect("ingest") {
                assert_eq!(recovered, None);
                recovered = Some(object);
            }
        }
    }
    assert_eq!(recovered, Some(data));
}

#[test]
fn receiver_passes_packets_over_when_idle() {
    let data = vec![1u8; 100];
    let mut sender = StreamSender::new([2; 32], &data, 64, 0, 0).expect("sender");
    let frame = sender.next_data_frame();
    let mut receiver = StreamReceiver::new();
    assert_eq!(receiver.ingest_data_packet(&frame.payload), Ok(None));
    assert_eq!(receiver.ingest_data_packet(&[1]), Ok(None));
    receiver
        .on_control_payload(&sender.stream_start().encode())
        .expect("start");
    assert_eq!(receiver.ingest_data_packet(&[1, 2, 3]), Err(Error::DataPacketTooShort));
    assert_eq!(
        receiver.on_control_payload(&StreamCommand::StopStream.encode()),
        Ok(StreamControlEvent::Stopped)
    );
    assert!(receiver.is_done());
    assert_eq!(receiver.ingest_data_packet(&frame.payload), Ok(None));
    assert_eq!(
        receiver.on_control_payload(&sender.stream_start().encode()),
        Ok(StreamControlEvent::Started)
    );
    assert!(!receiver.is_done());
    assert_eq!(receiver.on_control_payload(&[]), Err(Error::EmptyCommand));
    assert!(!receiver.is_done());
}

#[test]
fn receiver_tells_what_it_can_take() {
    let data = vec![1u8; 1000];
    let mut sender = StreamSender::new([2; 32], &data, 64, 0, 0).expect("sender");
    let mut receiver = StreamReceiver::new();
    receiver
        .on_control_payload(&sender.stream_start().encode())
        .expect("start");
    let good = sender.next_data_frame().payload;
    assert!(receiver.accepts_data(&good));
    let mut long = good.clone();
    long.push(0);
    assert!(!receiver.accepts_data(&long));
    let mut other_block = good.clone();
    other_block[0] = 1;
    assert!(!receiver.accepts_data(&other_block));
    assert!(receiver.accepts_data(&[0, 0]));

    let start = |config: ObjectTransmissionInformation| StreamCommand::StreamStart(config).encode();
    assert!(StreamReceiver::accepts_control(&start(info())));
    assert!(!StreamReceiver::accepts_control(&start(ObjectTransmissionInformation {
        symbol_size: 0,
        ..info()
    })));
    assert!(!StreamReceiver::accepts_control(&start(ObjectTransmissionInformation {
        source_blocks: 0,
        ..info()
    })));
    assert!(StreamReceiver::accepts_control(&[99]));
}

#[test]
fn chaos_percentages_are_checked_in_order() {
    let base = chaos(ChaosScope::AllFrames);
    let cases = [
        (ChaosConfig { drop_data_pct: 101, reorder_pct: 200, ..base }, Percentage::DropData, 101),
        (ChaosConfig { drop_control_pct: 102, ..base }, Percentage::DropControl, 102),
        (ChaosConfig { drop_ack_pct: 103, ..base }, Percentage::DropAck, 103),
        (ChaosConfig { duplicate_pct: 104, ..base }, Percentage::Duplicate, 104),
        (ChaosConfig { reorder_pct: 255, ..base }, Percentage::Reorder, 255),
    ];
    for (config, which, value) in cases {
        let expected = Error::PercentageTooLarge { which, value };
        assert_eq!(refusal(config.validate()), expected);
        assert_eq!(refusal(DirtyNetwork::new(config, 1)), expected);
    }
    assert!(base.validate().is_ok());
}

#[test]
fn chaos_draws_exact_numbers() {
    // The draws of a hundred from seed 42 are 54, 37, 95, 48, 19, 27.
    let mut network = DirtyNetwork::new(chaos(ChaosScope::AllFrames), 42).expect("network");
    let drops: Vec<bool> = (0..6).map(|_| network.should_drop(VwpFrameType::Data)).collect();
    assert_eq!(drops, vec![false, true, false, true, true, true]);
    // From seed zero: 84, 32, 49, 61, 94, 99.
    let mut network = DirtyNetwork::new(chaos(ChaosScope::AllFrames), 0).expect("network");
    assert!(!network.should_duplicate(VwpFrameType::Control));
    assert!(network.should_reorder(VwpFrameType::Ack));
    assert!(network.should_duplicate(VwpFrameType::Data));
    assert!(!network.should_reorder(VwpFrameType::Data));
    let mut network = DirtyNetwork::new(chaos(ChaosScope::DataOnly), 42).expect("network");
    assert_eq!(
        network.jitter_delay(VwpFrameType::Data),
        Some(Duration::from_millis(86))
    );
}

#[test]
fn chaos_leaves_other_frames_alone() {
    let mut network = DirtyNetwork::new(chaos(ChaosScope::DataOnly), 42).expect("network");
    for _ in 0..10 {
        assert!(!network.should_drop(VwpFrameType::Control));
        assert!(!network.should_duplicate(VwpFrameType::Ack));
        assert!(!network.should_reorder(VwpFrameType::Control));
        assert_eq!(network.jitter_delay(VwpFrameType::Ack), None);
    }
    // Nothing was drawn meanwhile.
    assert!(!network.should_drop(VwpFrameType::Data));
    assert!(network.should_drop(VwpFrameType::Data));
    let mut all = DirtyNetwork::new(chaos(ChaosScope::AllFrames), 5).expect("network");
    for _ in 0..100 {
        assert!(all.should_drop(VwpFrameType::Control));
        assert!(!all.should_drop(VwpFrameType::Ack));
    }
}

#[test]
fn telemetry_counts_a_transfer() {
    let mut telemetry = StreamTelemetry::default();
    assert!(telemetry.finalize("peer".to_string(), 1, 2).is_none());
    let config = ObjectTransmissionInformation {
        transfer_length: 1001,
        symbol_size: 100,
        source_blocks: 1,
        sub_blocks: 1,
        symbol_alignment: 1,
    };
    let start = Instant { nanos: 5_000_000_000 };
    telemetry.on_stream_start_at(config, start);
    for _ in 0..13 {
        telemetry.on_data_ingested();
    }
    telemetry.on_data_drop();
    telemetry.on_data_duplicated(7);
    telemetry.on_data_reordered();
    telemetry.on_data_reordered();
    telemetry.on_control_ack_sent();
    let end = start + Duration::from_millis(1234);
    let metrics = telemetry
        .finalize_at("peer".to_string(), 8, 1001, end, 99)
        .expect("metrics");
    assert_eq!(metrics.finished_at_unix_ms, 99);
    assert_eq!(metrics.peer, "peer");
    assert_eq!(metrics.session_id, 8);
    assert_eq!((metrics.transfer_length, metrics.symbol_size), (1001, 100));
    assert_eq!(metrics.min_symbols_required, 11);
    assert_eq!(metrics.data_frames_ingested, 13);
    assert_eq!(metrics.data_frames_dropped, 1);
    assert_eq!(metrics.data_frames_duplicated, 7);
    assert_eq!(metrics.data_frames_reordered, 2);
    assert_eq!(metrics.control_acks_sent, 1);
    assert_eq!(metrics.recovery_time_ms, 1234);
    assert_eq!(metrics.decoded_bytes, 1001);

    telemetry.on_stream_start(ObjectTransmissionInformation { transfer_length: 1000, ..config });
    let again = telemetry.finalize("other".to_string(), 9, 0).expect("metrics");
    assert_eq!(again.min_symbols_required, 10);
    assert_eq!(again.data_frames_ingested, 0);
    assert!(again.recovery_time_ms < 10_000);
    assert!(again.finished_at_unix_ms > 1_600_000_000_000);
}

#[test]
fn packets_without_repair_recover_the_object() {
    let data: Vec<u8> = (0..5000u32).map(|i| (i * 11 % 251) as u8).collect();
    let symbols = 5000usize.div_ceil(96);
    let mut plain = StreamSender::new([2; 32], &data, 100, 0, 0).expect("sender");
    let mut sender = StreamSender::new([2; 32], &data, 100, 0, 6).expect("sender");
    let own: Vec<_> = (0..symbols).map(|_| plain.next_data_frame().payload).collect();
    let all: Vec<_> = (0..symbols + 6).map(|_| sender.next_data_frame().payload).collect();
    assert_eq!(all.len(), all.iter().collect::<std::collections::HashSet<_>>().len());
    for packet in &own {
        assert!(all.contains(packet));
    }
    let repair: Vec<_> = all.iter().filter(|p| !own.contains(p)).cloned().collect();
    assert_eq!(repair.len(), 6);

    let mut receiver = StreamReceiver::new();
    receiver
        .on_control_payload(&sender.stream_start().encode())
        .expect("start");
    let mut recovered = None;
    for (i, packet) in own.iter().rev().enumerate() {
        assert_eq!(recovered, None);
        if let Some(object) = receiver.ingest_data_packet(packet).expect("ingest") {
            assert_eq!(i, symbols - 1);
            recovered = Some(object);
        }
    }
    assert_eq!(recovered, Some(data.clone()));
    assert!(receiver.is_done());

    let mut receiver = StreamReceiver::new();
    receiver
        .on_control_payload(&plain.stream_start().encode())
        .expect("start");
    let mut recovered = None;
    for packet in repair[..3].iter().chain(own.iter()) {
        if let Some(object) = receiver.ingest_data_packet(packet).expect("ingest") {
            recovered = Some(object);
        }
    }
    assert_eq!(recovered, Some(data));
    assert!(receiver.is_done());
}

#[test]
fn telemetry_counts_since_the_last_start() {
    let clock = Clock::start();
    let mut telemetry = StreamTelemetry::with_clock(clock);
    telemetry.on_data_ingested();
    telemetry.on_data_drop();
    assert!(telemetry.finalize("peer".to_string(), 1, 2).is_none());
    telemetry.on_stream_start(info());
    telemetry.on_data_duplicated(9);
    telemetry.on_control_ack_sent();
    let config = ObjectTransmissionInformation {
        transfer_length: 640,
        symbol_size: 64,
        ..info()
    };
    let start = clock.now();
    telemetry.on_stream_start_at(config, start);
    telemetry.on_data_duplicated(2);
    telemetry.on_data_ingested();
    telemetry.on_data_reordered();
    telemetry.on_data_duplicated(3);
    telemetry.on_data_ingested();
    let end = telemetry.clock().now() + Duration::from_millis(40);
    let told = telemetry
        .finalize_at("peer".to_string(), 1, 640, end, 7)
        .expect("metrics");
    assert_eq!((told.transfer_length, told.symbol_size), (640, 64));
    assert_eq!(told.min_symbols_required, 10);
    assert_eq!(told.data_frames_ingested, 2);
    assert_eq!(told.data_frames_dropped, 0);
    assert_eq!(told.data_frames_duplicated, 5);
    assert_eq!(told.data_frames_reordered, 1);
    assert_eq!(told.control_acks_sent, 0);
    assert_eq!(told.recovery_time_ms, end.saturating_duration_since(start).as_millis());
    assert!(told.recovery_time_ms >= 40 && told.recovery_time_ms < 10_000);
}
