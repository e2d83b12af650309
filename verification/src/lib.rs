//! Velyx: protocol primitives for an open peer-to-peer protocol.
//!
//! The crate holds the wire format, the control plane, the replay window, capability
//! negotiation, the session handshake, the distributed hash table and the coded data
//! plane. What its functions return and change is stated in contracts, which are proved here, but
//! for those of the functions that call into an outside crate or the standard library on behalf of
//! the others: their contracts are trusted, and each says what it claims of the outside code.
//! Nothing is promised of what a clock reads or a random number is; the functions that take such a
//! value as an argument are exact for each value of it.

pub mod assembler;
pub mod codec;
pub mod control;
pub mod dht;
pub mod dht_bridge;
pub mod error;
pub mod frames;
pub mod identity;
pub mod layout;
pub mod negotiation;
pub mod noise;
pub mod replay;
pub mod session;
pub mod session_laws;
pub mod stream;
pub mod time;
pub mod vwp;
pub mod wire;

pub use assembler::ControlAssembler;
pub use control::{chunk_control_message, ControlAck, ControlChunk};
pub use error::Error;
pub use frames::{
    AckFrame, ErrorFrame, ERR_BUSY_RETRY, ERR_CAPABILITY_MISMATCH, ERR_HANDSHAKE_FAILED,
    ERR_INTERNAL, ERR_INVALID_SESSION, ERR_MALFORMED_PACKET, ERR_NEGOTIATION_ECHO_MISMATCH,
    ERR_NO_SHARED_VERSION, ERR_RATE_LIMITED, ERR_REPLAY_DETECTED, ERR_UNEXPECTED_PACKET_TYPE,
    ERR_UNSUPPORTED_VERSION,
};
pub use negotiation::{
    negotiate, parse_server_and_validate, CapabilityMask, CapabilitySet, ClientFinish, ClientHello,
    Negotiated, ServerHello, CAP_DHT_V1, CAP_FEC_V1, CAP_OBFS_V1, CAP_RELAY_V1,
};
pub use replay::{ReplayWindow, REPLAY_WINDOW_SIZE};
pub use vwp::{VwpFrame, VwpFrameType, VWP_HEADER_LEN, VWP_MAX_PAYLOAD, VWP_STREAM_ID_LEN};
pub use wire::{PacketType, WirePacket, HEADER_LEN, PROTOCOL_MAGIC, PROTOCOL_VERSION};
