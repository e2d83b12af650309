//! The protocol's packets, frames, chunks and its replay window.

use velyx::{
    chunk_control_message, AckFrame, ControlAssembler, ControlChunk, ErrorFrame, PacketType,
    ReplayWindow, VwpFrame, VwpFrameType, WirePacket, ERR_REPLAY_DETECTED, PROTOCOL_VERSION,
    VWP_STREAM_ID_LEN,
};


#[test]
fn replay_window_rejects_duplicate_and_old() {
    let mut rw = ReplayWindow::default();
    rw.check_and_record(10).expect("first seq accepted");
    rw.check_and_record(11).expect("next seq accepted");
    rw.check_and_record(200).expect("forward jump accepted");
    assert!(rw.check_and_record(11).is_err());
    assert!(rw.check_and_record(0).is_err());
}

#[test]
fn wire_packet_roundtrip() {
    let p = WirePacket {
        version: PROTOCOL_VERSION,
        packet_type: PacketType::Data,
        flags: 0,
        session_id: 0x1122334455667788,
        seq: 42,
        payload: b"abc".to_vec(),
    };

    let encoded = p.encode().expect("encode packet");
    let decoded = WirePacket::decode(&encoded).expect("decode packet");
    assert_eq!(p, decoded);
}

#[test]
fn ack_frame_roundtrip_and_lookup() {
    let ack = AckFrame {
        acked_seq: 100,
        ack_bits: 0b1001,
    };

    let encoded = ack.encode();
    let decoded = AckFrame::decode(&encoded).expect("decode ack frame");
    assert_eq!(decoded, ack);
    assert!(decoded.acknowledges(100));
    assert!(decoded.acknowledges(99));
    assert!(decoded.acknowledges(96));
    assert!(!decoded.acknowledges(98));
}

#[test]
fn error_frame_roundtrip() {
    let err = ErrorFrame {
        code: ERR_REPLAY_DETECTED,
        detail: "replay".to_string(),
    };

    let encoded = err.encode().expect("encode error frame");
    let decoded = ErrorFrame::decode(&encoded).expect("decode error frame");
    assert_eq!(decoded, err);
}

#[test]
fn vwp_frame_roundtrip() {
    let mut stream_id = [0u8; VWP_STREAM_ID_LEN];
    stream_id[0] = 1;
    let frame = VwpFrame {
        frame_type: VwpFrameType::Data,
        seq: 77,
        stream_id,
        payload: b"hello-vwp".to_vec(),
    };

    let encoded = frame.encode().expect("encode vwp frame");
    let decoded = VwpFrame::decode(&encoded).expect("decode vwp frame");
    assert_eq!(decoded, frame);
}

#[test]
fn control_chunk_and_assembly_roundtrip() {
    let mut stream_id = [0u8; VWP_STREAM_ID_LEN];
    stream_id[1] = 2;
    let payload = vec![42u8; 5000];
    let frames = chunk_control_message(stream_id, 99, 0, &payload).expect("chunk message");
    assert!(frames.len() > 1);

    let mut assembler = ControlAssembler::default();
    let mut assembled = None;
    for frame in frames {
        let chunk = ControlChunk::decode(&frame.payload).expect("decode chunk");
        assembled = assembler.push_chunk(chunk).expect("push chunk").or(assembled);
    }

    assert_eq!(assembled.expect("assembled payload"), payload);
}
