//! Packets, frames and chunks at their limits, and every way in which they are refused.

use velyx::control::MAX_CHUNK_PAYLOAD;
use velyx::{
    chunk_control_message, AckFrame, ControlAck, ControlAssembler, ControlChunk, Error, ErrorFrame,
    PacketType, ReplayWindow, VwpFrame, VwpFrameType, WirePacket, ERR_INTERNAL, HEADER_LEN,
    PROTOCOL_MAGIC, REPLAY_WINDOW_SIZE, VWP_HEADER_LEN, VWP_MAX_PAYLOAD, VWP_STREAM_ID_LEN,
};

fn packet() -> WirePacket {
    WirePacket {
        version: 1,
        packet_type: PacketType::Handshake2,
        flags: 0x0102,
        session_id: 3,
        seq: 4,
        payload: vec![0xAA, 0xBB],
    }
}

#[test]
fn packet_has_its_exact_bytes() {
    let raw = packet().encode().expect("encode");
    let mut expected = PROTOCOL_MAGIC.to_vec();
    expected.extend_from_slice(&[1, 2, 1, 2]);
    expected.extend_from_slice(&[0, 0, 0, 0, 0, 0, 0, 3]);
    expected.extend_from_slice(&[0, 0, 0, 0, 0, 0, 0, 4]);
    expected.extend_from_slice(&[0, 0, 0, 2, 0xAA, 0xBB]);
    assert_eq!(raw, expected);
    assert_eq!(raw.len(), HEADER_LEN + 2);
}

#[test]
fn accepted_packet_encodes_to_the_same_bytes() {
    let raw = packet().encode().expect("encode");
    let again = WirePacket::decode(&raw).expect("decode").encode().expect("encode again");
    assert_eq!(raw, again);
}

#[test]
fn packet_refusals() {
    let raw = packet().encode().expect("encode");
    assert_eq!(
        WirePacket::decode(&raw[..HEADER_LEN - 1]),
        Err(Error::PacketTooShort { len: HEADER_LEN - 1 })
    );
    let mut bad = raw.clone();
    bad[3] ^= 1;
    assert_eq!(WirePacket::decode(&bad), Err(Error::InvalidMagic));
    let mut bad = raw.clone();
    bad[5] = 4;
    assert_eq!(WirePacket::decode(&bad), Err(Error::UnknownPacketType { value: 4 }));
    let mut bad = raw.clone();
    bad.push(0);
    assert_eq!(
        WirePacket::decode(&bad),
        Err(Error::InvalidPacketLength { declared: 2, actual: 3 })
    );
}

#[test]
fn every_packet_type_has_its_code() {
    let codes = [
        (PacketType::Handshake1, 1u8),
        (PacketType::Handshake2, 2),
        (PacketType::Handshake3, 3),
        (PacketType::Data, 16),
        (PacketType::Ack, 17),
        (PacketType::Control, 18),
        (PacketType::Keepalive, 19),
        (PacketType::ErrorPacket, 255),
    ];
    for (packet_type, code) in codes {
        assert_eq!(packet_type.code(), code);
        assert_eq!(PacketType::try_from(code), Ok(packet_type));
    }
}

#[test]
fn frame_refusals() {
    let frame = VwpFrame {
        frame_type: VwpFrameType::Ack,
        seq: 9,
        stream_id: [5; VWP_STREAM_ID_LEN],
        payload: vec![1; VWP_MAX_PAYLOAD],
    };
    let raw = frame.encode().expect("a full frame");
    assert_eq!(raw.len(), VWP_HEADER_LEN + VWP_MAX_PAYLOAD);
    assert_eq!(VwpFrame::decode(&raw), Ok(frame.clone()));

    let mut long = frame.clone();
    long.payload.push(1);
    assert_eq!(
        long.encode(),
        Err(Error::FramePayloadTooLarge { len: VWP_MAX_PAYLOAD + 1 })
    );
    let mut long_raw = raw.clone();
    long_raw.push(1);
    assert_eq!(
        VwpFrame::decode(&long_raw),
        Err(Error::DecodedFramePayloadTooLarge { len: VWP_MAX_PAYLOAD + 1 })
    );
    assert_eq!(
        VwpFrame::decode(&raw[..VWP_HEADER_LEN - 1]),
        Err(Error::FrameTooShort { len: VWP_HEADER_LEN - 1 })
    );
    let mut bad = raw.clone();
    bad[0] = 0;
    assert_eq!(VwpFrame::decode(&bad), Err(Error::UnknownFrameType { value: 0 }));
}

#[test]
fn chunk_refusals() {
    let chunk = ControlChunk { message_id: 7, chunk_index: 2, total_chunks: 3, payload: vec![9] };
    let raw = chunk.encode().expect("encode");
    assert_eq!(raw, vec![0, 0, 0, 7, 0, 2, 0, 3, 9]);
    assert_eq!(ControlChunk::decode(&raw), Ok(chunk.clone()));

    let bad = ControlChunk { chunk_index: 3, ..chunk };
    assert_eq!(bad.encode(), Err(Error::InvalidChunkIndex { index: 3, total: 3 }));
    assert_eq!(ControlChunk::decode(&raw[..7]), Err(Error::ChunkTooShort { len: 7 }));
    assert_eq!(
        ControlChunk::decode(&[0, 0, 0, 7, 0, 0, 0, 0]),
        Err(Error::ZeroTotalChunks)
    );
    assert_eq!(
        ControlChunk::decode(&[0, 0, 0, 7, 0, 3, 0, 3]),
        Err(Error::DecodedChunkIndexOutOfRange { index: 3, total: 3 })
    );
}

#[test]
fn control_ack_roundtrip_and_refusal() {
    let ack = ControlAck { message_id: 0x01020304, chunk_index: 0x0506 };
    let raw = ack.encode();
    assert_eq!(raw.to_vec(), vec![1, 2, 3, 4, 5, 6]);
    assert_eq!(ControlAck::decode(&raw), Ok(ack));
    assert_eq!(
        ControlAck::decode(&raw[..5]),
        Err(Error::InvalidControlAckLength { len: 5 })
    );
}

#[test]
fn message_is_cut_into_numbered_frames() {
    let message: Vec<u8> = (0..2 * MAX_CHUNK_PAYLOAD + 1).map(|i| i as u8).collect();
    let frames = chunk_control_message([1; 32], 5, u32::MAX, &message).expect("chunks");
    assert_eq!(frames.len(), 3);
    assert_eq!(frames[0].seq, u32::MAX);
    assert_eq!(frames[1].seq, 0);
    assert_eq!(frames[2].seq, 1);
    let last = ControlChunk::decode(&frames[2].payload).expect("last chunk");
    assert_eq!(last.chunk_index, 2);
    assert_eq!(last.total_chunks, 3);
    assert_eq!(last.payload, vec![message[2 * MAX_CHUNK_PAYLOAD]]);
}

#[test]
fn empty_message_has_one_chunk() {
    let frames = chunk_control_message([1; 32], 5, 0, &[]).expect("chunks");
    assert_eq!(frames.len(), 1);
    let chunk = ControlChunk::decode(&frames[0].payload).expect("chunk");
    assert_eq!(chunk.total_chunks, 1);
    assert!(chunk.payload.is_empty());
}

#[test]
fn message_of_too_many_chunks_is_refused() {
    let message = vec![0u8; 65535 * MAX_CHUNK_PAYLOAD + 1];
    assert_eq!(
        chunk_control_message([1; 32], 5, 0, &message),
        Err(Error::TooManyChunks { chunks: 65536 })
    );
}

#[test]
fn chunks_are_put_together_in_any_order() {
    let message: Vec<u8> = (0..4000u32).map(|i| (i % 251) as u8).collect();
    let frames = chunk_control_message([1; 32], 8, 0, &message).expect("chunks");
    assert_eq!(frames.len(), 3);
    let mut assembler = ControlAssembler::default();
    for (i, at) in [2usize, 0, 0, 1].iter().enumerate() {
        let chunk = ControlChunk::decode(&frames[*at].payload).expect("chunk");
        let whole = assembler.push_chunk(chunk).expect("push");
        if i < 3 {
            assert_eq!(whole, None);
        } else {
            assert_eq!(whole, Some(message.clone()));
        }
    }
}

#[test]
fn chunk_with_another_total_is_refused() {
    let mut assembler = ControlAssembler::default();
    let first = ControlChunk { message_id: 1, chunk_index: 0, total_chunks: 3, payload: vec![1] };
    assert_eq!(assembler.push_chunk(first), Ok(None));
    let other = ControlChunk { message_id: 1, chunk_index: 0, total_chunks: 2, payload: vec![1] };
    assert_eq!(
        assembler.push_chunk(other),
        Err(Error::ChunkTotalMismatch { message_id: 1, existing: 3, got: 2 })
    );
}

#[test]
fn ack_frame_reaches_back_sixty_four() {
    let ack = AckFrame { acked_seq: 100, ack_bits: 1 << 63 };
    assert!(ack.acknowledges(100));
    assert!(ack.acknowledges(36));
    assert!(!ack.acknowledges(35));
    assert!(!ack.acknowledges(37));
    assert!(!ack.acknowledges(101));
    assert_eq!(
        AckFrame::decode(&[0; 15]),
        Err(Error::InvalidAckLength { len: 15 })
    );
}

#[test]
fn error_frame_has_its_exact_bytes() {
    let frame = ErrorFrame { code: ERR_INTERNAL, detail: "h\u{e9}".to_string() };
    let raw = frame.encode().expect("encode");
    let code = ERR_INTERNAL.to_be_bytes();
    assert_eq!(raw, vec![code[0], code[1], 0, 3, b'h', 0xC3, 0xA9]);
    assert_eq!(ErrorFrame::decode(&raw), Ok(frame));
}

#[test]
fn error_frame_refusals() {
    let long = ErrorFrame { code: 1, detail: "x".repeat(65536) };
    assert_eq!(long.encode(), Err(Error::ErrorDetailTooLong { len: 65536 }));
    assert_eq!(
        ErrorFrame::decode(&[0, 1, 0]),
        Err(Error::InvalidErrorFrameLength { len: 3 })
    );
    assert_eq!(
        ErrorFrame::decode(&[0, 1, 0, 2, b'x']),
        Err(Error::InvalidErrorDetailLength { declared: 2, actual: 1 })
    );
    assert_eq!(
        ErrorFrame::decode(&[0, 1, 0, 1, 0xFF]),
        Err(Error::ErrorDetailNotUtf8)
    );
}

#[test]
fn replay_window_verdicts() {
    let mut window = ReplayWindow::default();
    assert_eq!(window.check_and_record(500), Ok(()));
    assert_eq!(window.check_and_record(500), Err(Error::DuplicateSequence { seq: 500 }));
    let oldest = 500 - (REPLAY_WINDOW_SIZE - 1);
    assert_eq!(window.check_and_record(oldest), Ok(()));
    assert_eq!(
        window.check_and_record(oldest - 1),
        Err(Error::OutOfWindow { seq: oldest - 1, highest: 500 })
    );
    assert_eq!(window.check_and_record(10_000), Ok(()));
    assert_eq!(
        window.check_and_record(500),
        Err(Error::OutOfWindow { seq: 500, highest: 10_000 })
    );
    assert_eq!(window.check_and_record(9_999), Ok(()));
    assert_eq!(window.check_and_record(9_999), Err(Error::DuplicateSequence { seq: 9_999 }));
}
