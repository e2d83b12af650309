//! Negotiation and packets, from one side to the other.

use velyx::{
    negotiate, parse_server_and_validate, CapabilitySet, ClientHello, PacketType, ServerHello,
    WirePacket, CAP_DHT_V1, CAP_FEC_V1, CAP_OBFS_V1,
};

#[test]
fn negotiation_interop_path() {
    let initiator = CapabilitySet {
        min_version: 1,
        max_version: 2,
        mask: CAP_FEC_V1 | CAP_DHT_V1 | CAP_OBFS_V1,
    };

    let responder_hello = ClientHello {
        min_version: 1,
        max_version: 1,
        caps: CAP_FEC_V1 | CAP_OBFS_V1,
    };

    let negotiated = negotiate(initiator, responder_hello).expect("negotiate");
    assert_eq!(negotiated.version, 1);
    assert_eq!(negotiated.caps, CAP_FEC_V1 | CAP_OBFS_V1);

    let server = ServerHello {
        min_version: 1,
        max_version: 1,
        caps: CAP_FEC_V1 | CAP_OBFS_V1,
        selected_version: negotiated.version,
        selected_caps: negotiated.caps,
    };

    let validated = parse_server_and_validate(initiator, server).expect("validate server hello");
    assert_eq!(validated.version, 1);
    assert_eq!(validated.caps, CAP_FEC_V1 | CAP_OBFS_V1);

    let packet = WirePacket {
        version: 1,
        packet_type: PacketType::Data,
        flags: 0,
        session_id: 42,
        seq: 7,
        payload: b"interop".to_vec(),
    };

    let decoded = WirePacket::decode(&packet.encode().expect("encode")).expect("decode");
    assert_eq!(decoded.payload, b"interop");
}
