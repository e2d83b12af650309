//! From the routing table's actions to sealed packets.

use snow::{Builder, TransportState};
use velyx::dht::{ContentKey, NodeId, RoutingAction, RoutingTable};
use velyx::dht_bridge::{execute_dht_action, refresh_bucket_lookup_action, ControlSend};
use velyx::noise::NOISE_PATTERN;
use velyx::stream::StreamCommand;
use velyx::{ControlAssembler, ControlChunk, Error, PacketType, VwpFrame, VwpFrameType, WirePacket};

fn channel() -> (TransportState, TransportState) {
    let key_a = Builder::new(NOISE_PATTERN.parse().expect("pattern"))
        .generate_keypair()
        .expect("key")
        .private;
    let key_b = Builder::new(NOISE_PATTERN.parse().expect("pattern"))
        .generate_keypair()
        .expect("key")
        .private;
    let mut a = Builder::new(NOISE_PATTERN.parse().expect("pattern"))
        .local_private_key(&key_a)
        .build_initiator()
        .expect("initiator");
    let mut b = Builder::new(NOISE_PATTERN.parse().expect("pattern"))
        .local_private_key(&key_b)
        .build_responder()
        .expect("responder");
    let mut message = vec![0u8; 1024];
    let mut payload = vec![0u8; 1024];
    let n = a.write_message(&[], &mut message).expect("message 1");
    b.read_message(&message[..n], &mut payload).expect("read 1");
    let n = b.write_message(&[], &mut message).expect("message 2");
    a.read_message(&message[..n], &mut payload).expect("read 2");
    let n = a.write_message(&[], &mut message).expect("message 3");
    b.read_message(&message[..n], &mut payload).expect("read 3");
    (
        a.into_transport_mode().expect("channel"),
        b.into_transport_mode().expect("channel"),
    )
}

#[test]
fn actions_become_commands() {
    let local = NodeId::from_bytes([1; 32]);
    let other = NodeId::from_bytes([2; 32]);
    let ping = execute_dht_action(RoutingAction::Ping(other), local).expect("ping");
    assert_eq!(ping.route_to, Some(other));
    assert!(matches!(ping.command, StreamCommand::Ping { sender_id } if sender_id == local));
    let lookup = execute_dht_action(RoutingAction::Lookup(other), local).expect("lookup");
    assert_eq!(lookup.route_to, None);
    assert!(matches!(lookup.command, StreamCommand::FindNode { target_id } if target_id == other));
}

#[test]
fn refresh_lookup_lands_in_its_bucket() {
    let local = NodeId::from_bytes([0x5A; 32]);
    let table = RoutingTable::new(local, 20);
    for bucket in 0..=255u8 {
        for entropy in [0u64, 1, 0xDEAD_BEEF, u64::MAX] {
            match refresh_bucket_lookup_action(&table, bucket, entropy) {
                RoutingAction::Lookup(target) => {
                    assert_eq!(table.bucket_index_for(&target), Some(bucket));
                }
                other => panic!("unexpected action: {other:?}"),
            }
        }
    }
}

#[test]
fn refresh_lookup_has_its_exact_target() {
    let local = NodeId::from_bytes([0; 32]);
    let table = RoutingTable::new(local, 20);
    let mut expected = [0u8; 32];
    expected[30] = 0b0000_0010;
    expected[31] = 0b1111_1001;
    expected[30] |= 1;
    assert_eq!(
        refresh_bucket_lookup_action(&table, 9, 0x1234),
        RoutingAction::Lookup(NodeId::from_bytes(expected))
    );
}

#[test]
fn command_travels_sealed_in_numbered_packets() {
    let (mut a, mut b) = channel();
    let providers: Vec<NodeId> = (0..100u8).map(|i| NodeId::from_bytes([i; 32])).collect();
    let key = ContentKey::from_bytes([9; 32]);
    let command = StreamCommand::ValueFound { key, providers: providers.clone() };
    let mut tx_seq = u64::MAX - 1;
    let vwp_tx_seq = u32::MAX;
    let mut out = vec![0u8; 4096];
    let mut sending = ControlSend::new(&command, [3; 32], 7, vwp_tx_seq, 11).expect("frames");
    let mut assembler = ControlAssembler::default();
    let mut whole = None;
    let mut numbers = Vec::new();
    while !sending.is_sent() {
        let raw = sending.seal_next(&mut a, &mut out, tx_seq).expect("seal");
        sending.mark_sent(&mut tx_seq);
        let packet = WirePacket::decode(&raw).expect("packet");
        assert_eq!((packet.packet_type, packet.session_id), (PacketType::Data, 11));
        numbers.push(packet.seq);
        let mut plain = vec![0u8; 4096];
        let n = b.read_message(&packet.payload, &mut plain).expect("open");
        let frame = VwpFrame::decode(&plain[..n]).expect("frame");
        assert_eq!(frame.frame_type, VwpFrameType::Control);
        assert_eq!(frame.stream_id, [3; 32]);
        let chunk = ControlChunk::decode(&frame.payload).expect("chunk");
        whole = assembler.push_chunk(chunk).expect("push").or(whole);
    }
    assert_eq!(numbers, vec![u64::MAX - 1, u64::MAX, 0]);
    assert_eq!(tx_seq, 1);
    assert_eq!(sending.next_vwp_seq(vwp_tx_seq), 2);
    match StreamCommand::decode(&whole.expect("whole message")).expect("command") {
        StreamCommand::ValueFound { key: got, providers: listed } => {
            assert_eq!(got, key);
            assert_eq!(listed, providers);
        }
        other => panic!("unexpected command: {other:?}"),
    }
}

#[test]
fn frame_that_does_not_fit_the_buffer_is_not_sealed() {
    let (mut a, _b) = channel();
    let sending = ControlSend::new(&StreamCommand::StopStream, [3; 32], 7, 0, 11).expect("frames");
    let mut out = vec![0u8; 37 + 8 + 1 + 15];
    assert_eq!(sending.seal_next(&mut a, &mut out, 0), Err(Error::SealFailed));
    let mut out = vec![0u8; 37 + 8 + 1 + 16];
    assert!(sending.seal_next(&mut a, &mut out, 0).is_ok());
}

#[test]
fn one_way_channel_does_not_send_back() {
    let pattern = "Noise_N_25519_ChaChaPoly_BLAKE2s";
    let keys = Builder::new(pattern.parse().expect("pattern"))
        .generate_keypair()
        .expect("keys");
    let mut a = Builder::new(pattern.parse().expect("pattern"))
        .remote_public_key(&keys.public)
        .build_initiator()
        .expect("initiator");
    let mut b = Builder::new(pattern.parse().expect("pattern"))
        .local_private_key(&keys.private)
        .build_responder()
        .expect("responder");
    let mut message = vec![0u8; 1024];
    let mut payload = vec![0u8; 1024];
    let n = a.write_message(&[], &mut message).expect("message");
    b.read_message(&message[..n], &mut payload).expect("read");
    let mut back = b.into_transport_mode().expect("channel");
    let mut out = vec![0u8; 4096];
    let sending = ControlSend::new(&StreamCommand::StopStream, [3; 32], 7, 0, 11).expect("frames");
    assert_eq!(sending.seal_next(&mut back, &mut out, 0), Err(Error::SealFailed));
    let mut there = a.into_transport_mode().expect("channel");
    assert!(sending.seal_next(&mut there, &mut out, 0).is_ok());
}
