//! The reasons for which an operation of the protocol is refused.

use crate::wire::PacketType;
use vstd::prelude::*;

verus! {

/// One of the percentages of a chaos configuration.
#[derive(Debug, Clone, Copy, PartialEq, Eq, Structural)]
pub enum Percentage {
    DropData,
    DropControl,
    DropAck,
    Duplicate,
    Reorder,
}

/// Why an operation was refused. Each variant carries the numbers that a report needs.
#[derive(Debug, Clone, Copy, PartialEq, Eq, Structural)]
pub enum Error {
    /// A packet's type byte names no packet type.
    UnknownPacketType { value: u8 },
    /// A payload does not fit the 32-bit length field of a packet.
    PayloadTooLarge { len: usize },
    /// A packet is shorter than its header.
    PacketTooShort { len: usize },
    /// A packet does not start with the protocol's magic bytes.
    InvalidMagic,
    /// A packet's length field disagrees with the bytes that follow the header.
    InvalidPacketLength { declared: usize, actual: usize },
    /// A frame's type byte names no frame type.
    UnknownFrameType { value: u8 },
    /// A payload is longer than a frame may carry.
    FramePayloadTooLarge { len: usize },
    /// A frame is shorter than its header.
    FrameTooShort { len: usize },
    /// A received frame carries more than a frame may carry.
    DecodedFramePayloadTooLarge { len: usize },
    /// A chunk's index is not below its total, when the chunk is written.
    InvalidChunkIndex { index: u16, total: u16 },
    /// A chunk is shorter than its header.
    ChunkTooShort { len: usize },
    /// A received chunk claims to be part of a message of no chunks.
    ZeroTotalChunks,
    /// A received chunk's index is not below its total.
    DecodedChunkIndexOutOfRange { index: u16, total: u16 },
    /// A control acknowledgement does not have its fixed length.
    InvalidControlAckLength { len: usize },
    /// A message needs more chunks than a chunk header can count.
    TooManyChunks { chunks: usize },
    /// Two chunks of one message disagree on the number of its chunks.
    ChunkTotalMismatch { message_id: u32, existing: usize, got: u16 },
    /// An acknowledgement frame does not have its fixed length.
    InvalidAckLength { len: usize },
    /// The text of an error frame does not fit its 16-bit length field.
    ErrorDetailTooLong { len: usize },
    /// An error frame is shorter than its header.
    InvalidErrorFrameLength { len: usize },
    /// An error frame's length field disagrees with the bytes that follow it.
    InvalidErrorDetailLength { declared: usize, actual: usize },
    /// The text of an error frame is not UTF-8.
    ErrorDetailNotUtf8,
    /// A sequence number lies behind the replay window.
    OutOfWindow { seq: u64, highest: u64 },
    /// A sequence number was seen before.
    DuplicateSequence { seq: u64 },
    /// A client hello does not have its fixed length.
    InvalidClientHelloLength { len: usize },
    /// A server hello does not have its fixed length.
    InvalidServerHelloLength { len: usize },
    /// A client finish does not have its fixed length.
    InvalidClientFinishLength { len: usize },
    /// The local version range is empty.
    LocalVersionBounds,
    /// The remote version range is empty.
    RemoteVersionBounds,
    /// The two version ranges do not meet.
    NoSharedVersion { local_min: u8, local_max: u8, remote_min: u8, remote_max: u8 },
    /// The server selected another version than the negotiation gives.
    ServerVersionMismatch { got: u8, expected: u8 },
    /// The server selected other capabilities than the negotiation gives.
    ServerCapabilitiesMismatch { got: u64, expected: u64 },
    /// A stream command has no bytes at all.
    EmptyCommand,
    /// A stream command's first byte names no command.
    UnknownCommand { value: u8 },
    /// A command that starts a stream does not have its fixed length.
    InvalidStreamStartLength { len: usize },
    /// A command that stops a stream does not have its fixed length.
    InvalidStopStreamLength { len: usize },
    /// A ping does not have its fixed length.
    InvalidPingLength { len: usize },
    /// A pong does not have its fixed length.
    InvalidPongLength { len: usize },
    /// A command that looks for a node does not have its fixed length.
    InvalidFindNodeLength { len: usize },
    /// A command that stores a provider does not have its fixed length.
    InvalidStoreProviderLength { len: usize },
    /// A command that looks for a value does not have its fixed length.
    InvalidFindValueLength { len: usize },
    /// A command that tells of a value is shorter than a key and a count.
    InvalidValueFoundLength { len: usize },
    /// A list of nodes lacks the byte that counts them.
    MissingNodeCount,
    /// A list of nodes does not have the length that its count asks for.
    InvalidNodesLength { len: usize, expected: usize },
    /// The coder made no packets of an object.
    NoPackets,
    /// A data packet is shorter than the identifier that it starts with.
    DataPacketTooShort,
    /// A percentage of a chaos configuration is above one hundred.
    PercentageTooLarge { which: Percentage, value: u8 },
    /// A received packet is shorter than a packet header.
    PacketShorterThanHeader,
    /// A received packet speaks another version.
    UnsupportedVersion { got: u8, expected: u8 },
    /// A received packet is of another type.
    UnexpectedPacketType { got: PacketType, expected: PacketType },
    /// A received packet belongs to another session.
    SessionMismatch { got: u64, expected: u64 },
    /// The initiator echoed another version than was selected.
    FinishVersionMismatch { got: u8, expected: u8 },
    /// The initiator echoed other capabilities than were selected.
    FinishCapabilitiesMismatch { got: u64, expected: u64 },
    /// No private key could be made for the handshake.
    NoiseKeypair,
    /// The handshake could not be set up.
    NoiseSetup,
    /// A message of the handshake could not be written.
    HandshakeWrite { message: u8 },
    /// A message of the handshake could not be read.
    HandshakeRead { message: u8 },
    /// The handshake did not lead to a channel.
    NoChannel,
    /// A payload could not be sealed.
    SealFailed,
    /// A sealed message could not be opened.
    OpenFailed,
}

/// A result with its value replaced by the value's view.
pub open spec fn viewed<T: View>(r: Result<T, Error>) -> Result<T::V, Error> {
    match r {
        Ok(value) => Ok(value@),
        Err(e) => Err(e),
    }
}

} // verus!
