//! Both sides of a session, in one process.

use velyx::session::{
    accept_client_finish, accept_client_hello, accept_server_hello, decode_and_validate,
    local_caps, noise_private_key, validate_finish, Initiator, Responder, Session, BUFFER_LEN,
};
use velyx::{
    CapabilitySet, ClientFinish, ClientHello, Error, Negotiated, PacketType, ReplayWindow,
    ServerHello, WirePacket, HEADER_LEN, PROTOCOL_VERSION,
};

fn connect(client: CapabilitySet, server: CapabilitySet, session_id: u64) -> (Session, Session) {
    let (initiator, raw1) = Initiator::start(client, session_id).expect("start");
    let responder = Responder::start(server).expect("responder");
    let (answered, raw2) = responder.answer(&raw1).expect("answer");
    let (client_session, raw3) = initiator.finish(&raw2).expect("finish");
    let server_session = answered.finish(&raw3).expect("server finish");
    (client_session, server_session)
}

fn refusal<T>(r: Result<T, Error>) -> Error {
    match r {
        Ok(_) => panic!("accepted"),
        Err(e) => e,
    }
}

#[test]
fn local_node_offers_everything() {
    let caps = local_caps();
    assert_eq!((caps.min_version, caps.max_version, caps.mask), (1, 1, 0xF));
}

#[test]
fn private_keys_are_long_and_differ() {
    let a = noise_private_key().expect("key");
    let b = noise_private_key().expect("key");
    assert_eq!(a.len(), 32);
    assert_ne!(a, b);
}

#[test]
fn handshake_completes_and_both_sides_agree() {
    let client = CapabilitySet { min_version: 1, max_version: 3, mask: 0b0111 };
    let server = CapabilitySet { min_version: 1, max_version: 2, mask: 0b1101 };
    let (a, b) = connect(client, server, 77);
    assert_eq!(a.selected(), Negotiated { version: 2, caps: 0b0101 });
    assert_eq!(a.selected(), b.selected());
    assert_eq!(a.session_id(), 77);
    assert_eq!(b.session_id(), 77);
}

#[test]
fn handshake_packets_have_their_lengths_and_types() {
    let (initiator, raw1) = Initiator::start(local_caps(), 5).expect("start");
    let p1 = WirePacket::decode(&raw1).expect("packet 1");
    assert_eq!(p1.packet_type, PacketType::Handshake1);
    assert_eq!((p1.version, p1.flags, p1.session_id, p1.seq), (1, 0, 5, 0));
    assert_eq!(p1.payload.len(), 32 + 10);
    let (answered, raw2) = Responder::start(local_caps()).expect("r").answer(&raw1).expect("a");
    assert_eq!(answered.selected(), Negotiated { version: 1, caps: 0xF });
    let p2 = WirePacket::decode(&raw2).expect("packet 2");
    assert_eq!(p2.packet_type, PacketType::Handshake2);
    assert_eq!((p2.session_id, p2.seq), (5, 0));
    assert_eq!(p2.payload.len(), 80 + 19 + 16);
    let (_session, raw3) = initiator.finish(&raw2).expect("finish");
    let p3 = WirePacket::decode(&raw3).expect("packet 3");
    assert_eq!(p3.packet_type, PacketType::Handshake3);
    assert_eq!((p3.session_id, p3.seq), (5, 1));
    assert_eq!(p3.payload.len(), 48 + 9 + 16);
}

#[test]
fn sealed_payloads_travel_both_ways() {
    let (mut a, mut b) = connect(local_caps(), local_caps(), 9);
    let ping = a.seal(b"velyx-ping").expect("seal");
    assert_eq!(ping.len(), HEADER_LEN + 10 + 16);
    assert!(!ping.windows(10).any(|w| w == b"velyx-ping"));
    assert_eq!(b.open(&ping).expect("open"), b"velyx-ping".to_vec());
    let pong = b.seal(b"velyx-pong").expect("seal");
    assert_eq!(a.open(&pong).expect("open"), b"velyx-pong".to_vec());
    for i in 0..5u8 {
        let raw = a.seal(&[i]).expect("seal");
        assert_eq!(b.open(&raw).expect("open"), vec![i]);
    }
    let p = WirePacket::decode(&a.seal(b"x").expect("seal")).expect("packet");
    assert_eq!(p.packet_type, PacketType::Data);
    assert_eq!(p.seq, 2 + 6);
}

#[test]
fn replayed_packet_is_refused() {
    let (mut a, mut b) = connect(local_caps(), local_caps(), 9);
    let raw = a.seal(b"once").expect("seal");
    assert_eq!(b.open(&raw).expect("open"), b"once".to_vec());
    assert_eq!(refusal(b.open(&raw)), Error::DuplicateSequence { seq: 2 });
    let next = a.seal(b"twice").expect("seal");
    assert_eq!(b.open(&next).expect("open"), b"twice".to_vec());
    let reply = b.seal(b"seen").expect("seal");
    assert_eq!(a.open(&reply).expect("open"), b"seen".to_vec());
    assert_eq!(refusal(b.open(&raw)), Error::DuplicateSequence { seq: 2 });
    assert_eq!(refusal(b.open(&next)), Error::DuplicateSequence { seq: 3 });
}

#[test]
fn tampered_packet_is_refused_and_leaves_the_channel_usable() {
    let (mut a, mut b) = connect(local_caps(), local_caps(), 9);
    let good = WirePacket::decode(&a.seal(b"secret").expect("seal")).expect("packet");
    let mut forged = good.clone();
    forged.payload[0] ^= 1;
    forged.seq = 50;
    assert_eq!(refusal(b.open(&forged.encode().expect("encode"))), Error::OpenFailed);
    assert_eq!(
        b.open(&good.encode().expect("encode")).expect("open"),
        b"secret".to_vec()
    );
}

#[test]
fn payload_beyond_the_buffer_is_not_sealed() {
    let (mut a, mut b) = connect(local_caps(), local_caps(), 9);
    assert_eq!(refusal(a.seal(&vec![0u8; BUFFER_LEN - 15])), Error::SealFailed);
    let raw = a.seal(&vec![7u8; BUFFER_LEN - 16]).expect("seal");
    assert_eq!(b.open(&raw).expect("open"), vec![7u8; BUFFER_LEN - 16]);
}

#[test]
fn responder_refuses_an_offer_without_a_shared_version() {
    let client = CapabilitySet { min_version: 2, max_version: 3, mask: 1 };
    let (_initiator, raw1) = Initiator::start(client, 1).expect("start");
    let responder = Responder::start(local_caps()).expect("responder");
    assert_eq!(
        refusal(responder.answer(&raw1)),
        Error::NoSharedVersion { local_min: 1, local_max: 1, remote_min: 2, remote_max: 3 }
    );
}

#[test]
fn handshake_messages_that_are_not_authentic_are_refused() {
    let (initiator, raw1) = Initiator::start(local_caps(), 1).expect("start");
    let mut short = WirePacket::decode(&raw1).expect("packet");
    short.payload.truncate(31);
    let responder = Responder::start(local_caps()).expect("responder");
    assert_eq!(
        refusal(responder.answer(&short.encode().expect("encode"))),
        Error::HandshakeRead { message: 1 }
    );

    let responder = Responder::start(local_caps()).expect("responder");
    let (answered, raw2) = responder.answer(&raw1).expect("answer");
    let mut forged = WirePacket::decode(&raw2).expect("packet");
    let last = forged.payload.len() - 1;
    forged.payload[last] ^= 1;
    assert_eq!(
        refusal(initiator.finish(&forged.encode().expect("encode"))),
        Error::HandshakeRead { message: 2 }
    );
    let garbage = WirePacket {
        version: 1,
        packet_type: PacketType::Handshake3,
        flags: 0,
        session_id: 1,
        seq: 1,
        payload: vec![0u8; 73],
    };
    assert_eq!(
        refusal(answered.finish(&garbage.encode().expect("encode"))),
        Error::HandshakeRead { message: 3 }
    );
}

#[test]
fn first_message_carries_the_hello() {
    let (_initiator, raw1) = Initiator::start(local_caps(), 1).expect("start");
    let mut bad = WirePacket::decode(&raw1).expect("packet");
    bad.payload.push(0);
    let responder = Responder::start(local_caps()).expect("responder");
    assert_eq!(
        refusal(responder.answer(&bad.encode().expect("encode"))),
        Error::InvalidClientHelloLength { len: 11 }
    );
}

#[test]
fn packet_checks_come_in_order() {
    let good = WirePacket {
        version: PROTOCOL_VERSION,
        packet_type: PacketType::Data,
        flags: 0,
        session_id: 10,
        seq: 3,
        payload: vec![1],
    };
    let raw = good.encode().expect("encode");
    let mut replay = ReplayWindow::default();
    let check = |raw: &[u8], packet_type, version, session, replay: &mut ReplayWindow| {
        decode_and_validate(raw, packet_type, version, session, replay)
    };
    assert_eq!(
        check(&raw[..5], PacketType::Data, 1, None, &mut replay),
        Err(Error::PacketShorterThanHeader)
    );
    let mut bad = raw.clone();
    bad[0] ^= 1;
    assert_eq!(check(&bad, PacketType::Data, 1, None, &mut replay), Err(Error::InvalidMagic));
    assert_eq!(
        check(&raw, PacketType::Ack, 2, Some(11), &mut replay),
        Err(Error::UnsupportedVersion { got: 1, expected: 2 })
    );
    assert_eq!(
        check(&raw, PacketType::Ack, 1, Some(11), &mut replay),
        Err(Error::UnexpectedPacketType { got: PacketType::Data, expected: PacketType::Ack })
    );
    assert_eq!(
        check(&raw, PacketType::Data, 1, Some(11), &mut replay),
        Err(Error::SessionMismatch { got: 10, expected: 11 })
    );
    assert_eq!(check(&raw, PacketType::Data, 1, Some(10), &mut replay), Ok(good.clone()));
    assert_eq!(
        check(&raw, PacketType::Data, 1, None, &mut replay),
        Err(Error::DuplicateSequence { seq: 3 })
    );
}

#[test]
fn finish_has_to_echo_the_selection() {
    let selected = Negotiated { version: 2, caps: 5 };
    let good = ClientFinish { selected_version: 2, selected_caps: 5 };
    assert_eq!(validate_finish(good, selected), Ok(()));
    assert_eq!(
        validate_finish(ClientFinish { selected_version: 1, ..good }, selected),
        Err(Error::FinishVersionMismatch { got: 1, expected: 2 })
    );
    assert_eq!(
        validate_finish(ClientFinish { selected_caps: 4, ..good }, selected),
        Err(Error::FinishCapabilitiesMismatch { got: 4, expected: 5 })
    );
    assert_eq!(accept_client_finish(selected, &good.encode()), Ok(()));
    assert_eq!(
        accept_client_finish(selected, &[0; 3]),
        Err(Error::InvalidClientFinishLength { len: 3 })
    );
}

#[test]
fn hellos_are_answered_with_the_selection() {
    let local = CapabilitySet { min_version: 1, max_version: 4, mask: 0b110 };
    let offer = ClientHello { min_version: 2, max_version: 3, caps: 0b011 };
    let (selected, reply) = accept_client_hello(local, &offer.encode()).expect("hello");
    assert_eq!(selected, Negotiated { version: 3, caps: 0b010 });
    assert_eq!(
        reply,
        ServerHello {
            min_version: 1,
            max_version: 4,
            caps: 0b110,
            selected_version: 3,
            selected_caps: 0b010,
        }
    );
    let remote = CapabilitySet { min_version: 2, max_version: 3, mask: 0b011 };
    let (agreed, finish) = accept_server_hello(remote, &reply.encode()).expect("reply");
    assert_eq!(agreed, selected);
    assert_eq!(finish, ClientFinish { selected_version: 3, selected_caps: 0b010 });
    let lie = ServerHello { selected_version: 2, ..reply };
    assert_eq!(
        accept_server_hello(remote, &lie.encode()),
        Err(Error::ServerVersionMismatch { got: 2, expected: 3 })
    );
}
