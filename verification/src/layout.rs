//! Where everything stands on the wire, byte by byte, and what is refused.

use crate::codec;
use crate::control::{ControlAck, ControlChunkView};
use crate::error::Error;
use crate::frames::{AckFrame, ErrorFrameView};
use crate::negotiation::{ClientFinish, ClientHello, ServerHello};
use crate::stream::command;
use crate::stream::command::StreamCommandView;
use crate::stream::info;
use crate::stream::info::ObjectTransmissionInformation;
use crate::vwp::{VwpFrameType, VwpFrameView};
use crate::wire::{PacketType, WirePacketView};
use vstd::prelude::*;

verus! {

/// The number in two bytes, the upper one first.
pub open spec fn u16_at(wire: Seq<u8>, at: int) -> int {
    wire[at] * 256 + wire[at + 1]
}

/// The number in four bytes, the upper ones first.
pub open spec fn u32_at(wire: Seq<u8>, at: int) -> int {
    u16_at(wire, at) * 0x1_0000 + u16_at(wire, at + 2)
}

/// The number in eight bytes, the upper ones first.
pub open spec fn u64_at(wire: Seq<u8>, at: int) -> int {
    u32_at(wire, at) * 0x1_0000_0000 + u32_at(wire, at + 4)
}

/// One byte more spells a number 256 times as large, and the byte.
proof fn lemma_next_byte(wire: Seq<u8>, at: int, n: int)
    requires
        0 <= at,
        0 <= n,
        at + n + 1 <= wire.len(),
    ensures
        codec::be_field(wire, at, n + 1) == codec::be_field(wire, at, n) * 256 + wire[at + n],
{
    assert(wire.subrange(at, at + n + 1).drop_last() =~= wire.subrange(at, at + n));
}

/// No byte spells zero.
proof fn lemma_no_byte(wire: Seq<u8>, at: int)
    requires
        0 <= at <= wire.len(),
    ensures
        codec::be_field(wire, at, 0) == 0,
{
    assert(wire.subrange(at, at) =~= Seq::<u8>::empty());
}

/// A field of two bytes.
proof fn lemma_u16_at(wire: Seq<u8>, at: int)
    requires
        0 <= at,
        at + 2 <= wire.len(),
    ensures
        codec::be_field(wire, at, 2) == u16_at(wire, at),
{
    lemma_no_byte(wire, at);
    lemma_next_byte(wire, at, 0);
    lemma_next_byte(wire, at, 1);
}

/// A field of four bytes.
proof fn lemma_u32_at(wire: Seq<u8>, at: int)
    requires
        0 <= at,
        at + 4 <= wire.len(),
    ensures
        codec::be_field(wire, at, 4) == u32_at(wire, at),
{
    lemma_u16_at(wire, at);
    lemma_next_byte(wire, at, 2);
    lemma_next_byte(wire, at, 3);
}

/// A field of five bytes.
proof fn lemma_u40_at(wire: Seq<u8>, at: int)
    requires
        0 <= at,
        at + 5 <= wire.len(),
    ensures
        codec::be_field(wire, at, 5) == u32_at(wire, at) * 256 + wire[at + 4],
{
    lemma_u32_at(wire, at);
    lemma_next_byte(wire, at, 4);
}

/// A field of eight bytes.
proof fn lemma_u64_at(wire: Seq<u8>, at: int)
    requires
        0 <= at,
        at + 8 <= wire.len(),
    ensures
        codec::be_field(wire, at, 8) == u64_at(wire, at),
{
    lemma_u32_at(wire, at);
    lemma_next_byte(wire, at, 4);
    lemma_next_byte(wire, at, 5);
    lemma_next_byte(wire, at, 6);
    lemma_next_byte(wire, at, 7);
}

/// The byte that stands for a type of packet.
pub open spec fn is_packet_code(packet_type: PacketType, code: u8) -> bool {
    match packet_type {
        PacketType::Handshake1 => code == 1,
        PacketType::Handshake2 => code == 2,
        PacketType::Handshake3 => code == 3,
        PacketType::Data => code == 16,
        PacketType::Ack => code == 17,
        PacketType::Control => code == 18,
        PacketType::Keepalive => code == 19,
        PacketType::ErrorPacket => code == 255,
    }
}

/// A packet is its magic, version, type, flags, session, sequence number and the length of its
/// payload, each at its place, and then the payload.
pub proof fn law_packet_layout(packet: WirePacketView)
    requires
        packet.payload.len() <= u32::MAX,
    ensures
        ({
            let wire = packet.encoded();
            &&& wire.len() == 28 + packet.payload.len()
            &&& wire[0] == 0x56 && wire[1] == 0x4c && wire[2] == 0x59 && wire[3] == 0x58
            &&& wire[4] == packet.version
            &&& is_packet_code(packet.packet_type, wire[5])
            &&& u16_at(wire, 6) == packet.flags
            &&& u64_at(wire, 8) == packet.session_id
            &&& u64_at(wire, 16) == packet.seq
            &&& u32_at(wire, 24) == packet.payload.len()
            &&& wire.subrange(28, wire.len() as int) == packet.payload
        }),
{
    let wire = packet.encoded();
    codec::lemma_be_u16(packet.flags);
    codec::lemma_be_u64(packet.session_id);
    codec::lemma_be_u64(packet.seq);
    codec::lemma_be_u32(packet.payload.len() as u32);
    assert(wire.subrange(6, 8) =~= codec::be_bytes(packet.flags as nat, 2));
    assert(wire.subrange(8, 16) =~= codec::be_bytes(packet.session_id as nat, 8));
    assert(wire.subrange(16, 24) =~= codec::be_bytes(packet.seq as nat, 8));
    assert(wire.subrange(24, 28) =~= codec::be_bytes(packet.payload.len(), 4));
    assert(wire.subrange(28, wire.len() as int) =~= packet.payload);
    lemma_u16_at(wire, 6);
    lemma_u64_at(wire, 8);
    lemma_u64_at(wire, 16);
    lemma_u32_at(wire, 24);
}

/// A datagram is refused where it is shorter than a header, does not start with the magic, names no
/// type, or is not as long as it says; the first of these is the reason. Else it is accepted.
pub proof fn law_packet_refusals(input: Seq<u8>)
    ensures
        ({
            let r = WirePacketView::decoded(input);
            let magic = input[0] == 0x56 && input[1] == 0x4c && input[2] == 0x59 && input[3] == 0x58;
            let known = exists|t: PacketType| #[trigger] is_packet_code(t, input[5]);
            let declared = u32_at(input, 24);
            if input.len() < 28 {
                r == Err::<WirePacketView, Error>(Error::PacketTooShort { len: input.len() as usize })
            } else if !magic {
                r == Err::<WirePacketView, Error>(Error::InvalidMagic)
            } else if !known {
                r == Err::<WirePacketView, Error>(Error::UnknownPacketType { value: input[5] })
            } else if input.len() - 28 != declared {
                r == Err::<WirePacketView, Error>(
                    Error::InvalidPacketLength {
                        declared: declared as usize,
                        actual: (input.len() - 28) as usize,
                    },
                )
            } else {
                r is Ok
            }
        }),
{
    if input.len() >= 28 {
        lemma_u32_at(input, 24);
        let magic = input.subrange(0, 4);
        if input[0] == 0x56 && input[1] == 0x4c && input[2] == 0x59 && input[3] == 0x58 {
            assert(magic =~= crate::wire::PROTOCOL_MAGIC@);
        } else {
            assert(magic[0] == input[0] && magic[1] == input[1] && magic[2] == input[2] && magic[3]
                == input[3]);
        }
        if let Ok(t) = PacketType::of_code(input[5]) {
            assert(is_packet_code(t, input[5]));
        }
    }
}

/// The byte that stands for a type of frame.
pub open spec fn is_frame_code(frame_type: VwpFrameType, code: u8) -> bool {
    match frame_type {
        VwpFrameType::Control => code == 1,
        VwpFrameType::Data => code == 2,
        VwpFrameType::Ack => code == 3,
    }
}

/// A frame is its type, sequence number and stream, each at its place, and then the payload.
pub proof fn law_frame_layout(frame: VwpFrameView)
    requires
        frame.stream_id.len() == 32,
    ensures
        ({
            let wire = frame.encoded();
            &&& wire.len() == 37 + frame.payload.len()
            &&& is_frame_code(frame.frame_type, wire[0])
            &&& u32_at(wire, 1) == frame.seq
            &&& wire.subrange(5, 37) == frame.stream_id
            &&& wire.subrange(37, wire.len() as int) == frame.payload
        }),
{
    let wire = frame.encoded();
    codec::lemma_be_u32(frame.seq);
    assert(wire.subrange(1, 5) =~= codec::be_bytes(frame.seq as nat, 4));
    assert(wire.subrange(5, 37) =~= frame.stream_id);
    assert(wire.subrange(37, wire.len() as int) =~= frame.payload);
    lemma_u32_at(wire, 1);
}

/// Bytes are refused as a frame where they are shorter than a header, name no type, or carry more
/// than a frame may; the first of these is the reason. Else they are accepted.
pub proof fn law_frame_refusals(input: Seq<u8>)
    ensures
        ({
            let r = VwpFrameView::decoded(input);
            if input.len() < 37 {
                r == Err::<VwpFrameView, Error>(Error::FrameTooShort { len: input.len() as usize })
            } else if input[0] == 0 || input[0] > 3 {
                r == Err::<VwpFrameView, Error>(Error::UnknownFrameType { value: input[0] })
            } else if input.len() > 37 + 1400 {
                r == Err::<VwpFrameView, Error>(
                    Error::DecodedFramePayloadTooLarge { len: (input.len() - 37) as usize },
                )
            } else {
                r is Ok
            }
        }),
{
}

/// A chunk is its message, its index and how many chunks there are, each at its place, and then the
/// part of the message.
pub proof fn law_chunk_layout(chunk: ControlChunkView)
    ensures
        ({
            let wire = chunk.encoded();
            &&& wire.len() == 8 + chunk.payload.len()
            &&& u32_at(wire, 0) == chunk.message_id
            &&& u16_at(wire, 4) == chunk.chunk_index
            &&& u16_at(wire, 6) == chunk.total_chunks
            &&& wire.subrange(8, wire.len() as int) == chunk.payload
        }),
{
    let wire = chunk.encoded();
    codec::lemma_be_u32(chunk.message_id);
    codec::lemma_be_u16(chunk.chunk_index);
    codec::lemma_be_u16(chunk.total_chunks);
    assert(wire.subrange(0, 4) =~= codec::be_bytes(chunk.message_id as nat, 4));
    assert(wire.subrange(4, 6) =~= codec::be_bytes(chunk.chunk_index as nat, 2));
    assert(wire.subrange(6, 8) =~= codec::be_bytes(chunk.total_chunks as nat, 2));
    assert(wire.subrange(8, wire.len() as int) =~= chunk.payload);
    lemma_u32_at(wire, 0);
    lemma_u16_at(wire, 4);
    lemma_u16_at(wire, 6);
}

/// Bytes are refused as a chunk where they are shorter than a header, tell of no chunks, or have an
/// index that is not below their number; the first of these is the reason. Else they are accepted.
pub proof fn law_chunk_refusals(input: Seq<u8>)
    ensures
        ({
            let r = ControlChunkView::decoded(input);
            let index = u16_at(input, 4);
            let total = u16_at(input, 6);
            if input.len() < 8 {
                r == Err::<ControlChunkView, Error>(
                    Error::ChunkTooShort { len: input.len() as usize },
                )
            } else if total == 0 {
                r == Err::<ControlChunkView, Error>(Error::ZeroTotalChunks)
            } else if index >= total {
                r == Err::<ControlChunkView, Error>(
                    Error::DecodedChunkIndexOutOfRange { index: index as u16, total: total as u16 },
                )
            } else {
                r is Ok
            }
        }),
{
    if input.len() >= 8 {
        lemma_u16_at(input, 4);
        lemma_u16_at(input, 6);
    }
}

/// The acknowledgement of a chunk is its message and its index, and nothing else is one.
pub proof fn law_control_ack_layout(ack: ControlAck, input: Seq<u8>)
    ensures
        ack.encoded().len() == 6,
        u32_at(ack.encoded(), 0) == ack.message_id,
        u16_at(ack.encoded(), 4) == ack.chunk_index,
        input.len() == 6 ==> ControlAck::decoded(input) is Ok,
        input.len() != 6 ==> ControlAck::decoded(input) == Err::<ControlAck, Error>(
            Error::InvalidControlAckLength { len: input.len() as usize },
        ),
{
    let wire = ack.encoded();
    codec::lemma_be_u32(ack.message_id);
    codec::lemma_be_u16(ack.chunk_index);
    assert(wire.subrange(0, 4) =~= codec::be_bytes(ack.message_id as nat, 4));
    assert(wire.subrange(4, 6) =~= codec::be_bytes(ack.chunk_index as nat, 2));
    lemma_u32_at(wire, 0);
    lemma_u16_at(wire, 4);
}

/// An acknowledgement of packets is a number and 64 bits, and nothing else is one.
pub proof fn law_ack_layout(ack: AckFrame, input: Seq<u8>)
    ensures
        ack.encoded().len() == 16,
        u64_at(ack.encoded(), 0) == ack.acked_seq,
        u64_at(ack.encoded(), 8) == ack.ack_bits,
        input.len() == 16 ==> AckFrame::decoded(input) is Ok,
        input.len() != 16 ==> AckFrame::decoded(input) == Err::<AckFrame, Error>(
            Error::InvalidAckLength { len: input.len() as usize },
        ),
{
    let wire = ack.encoded();
    codec::lemma_be_u64(ack.acked_seq);
    codec::lemma_be_u64(ack.ack_bits);
    assert(wire.subrange(0, 8) =~= codec::be_bytes(ack.acked_seq as nat, 8));
    assert(wire.subrange(8, 16) =~= codec::be_bytes(ack.ack_bits as nat, 8));
    lemma_u64_at(wire, 0);
    lemma_u64_at(wire, 8);
}

/// An acknowledgement covers its own number and, for each of its bits that is set, the number that
/// lies so far below it, counted from one for the lowest bit; and no other.
pub proof fn law_ack_covers_its_bits(ack: AckFrame, seq: u64)
    ensures
        ack.covers(seq) <==> seq == ack.acked_seq || exists|i: u64|
            i < 64 && seq == ack.acked_seq - 1 - i && #[trigger] (ack.ack_bits >> i) & 1 == 1,
{
    if 1 <= ack.acked_seq - seq <= 64 {
        let i = (ack.acked_seq - seq - 1) as u64;
        assert(seq == ack.acked_seq - 1 - i);
        assert(crate::frames::bit_of(ack.ack_bits, i) == ((ack.ack_bits >> i) & 1 == 1));
    }
}

/// An error frame is its code and the length of its text, each at its place, and then the text in
/// UTF-8.
pub proof fn law_error_frame_layout(frame: ErrorFrameView)
    requires
        vstd::utf8::encode_utf8(frame.detail).len() <= u16::MAX,
    ensures
        ({
            let wire = frame.encoded();
            let text = vstd::utf8::encode_utf8(frame.detail);
            &&& wire.len() == 4 + text.len()
            &&& u16_at(wire, 0) == frame.code
            &&& u16_at(wire, 2) == text.len()
            &&& wire.subrange(4, wire.len() as int) == text
        }),
{
    let wire = frame.encoded();
    let text = vstd::utf8::encode_utf8(frame.detail);
    codec::lemma_be_u16(frame.code);
    codec::lemma_be_u16(text.len() as u16);
    assert(wire.subrange(0, 2) =~= codec::be_bytes(frame.code as nat, 2));
    assert(wire.subrange(2, 4) =~= codec::be_bytes(text.len(), 2));
    assert(wire.subrange(4, wire.len() as int) =~= text);
    lemma_u16_at(wire, 0);
    lemma_u16_at(wire, 2);
}

/// Bytes are refused as an error frame where they are shorter than a header, are not as long as they
/// say, or carry a text that is not UTF-8; the first of these is the reason. Else they are accepted.
pub proof fn law_error_frame_refusals(input: Seq<u8>)
    ensures
        ({
            let r = ErrorFrameView::decoded(input);
            let declared = u16_at(input, 2);
            if input.len() < 4 {
                r == Err::<ErrorFrameView, Error>(
                    Error::InvalidErrorFrameLength { len: input.len() as usize },
                )
            } else if input.len() - 4 != declared {
                r == Err::<ErrorFrameView, Error>(
                    Error::InvalidErrorDetailLength {
                        declared: declared as usize,
                        actual: (input.len() - 4) as usize,
                    },
                )
            } else if !vstd::utf8::valid_utf8(input.subrange(4, input.len() as int)) {
                r == Err::<ErrorFrameView, Error>(Error::ErrorDetailNotUtf8)
            } else {
                r is Ok
            }
        }),
{
    if input.len() >= 4 {
        lemma_u16_at(input, 2);
    }
}

/// The hellos of both sides and the echo: versions and features at their places.
pub proof fn law_hello_layout(client: ClientHello, server: ServerHello, finish: ClientFinish)
    ensures
        client.encoded().len() == 10,
        client.encoded()[0] == client.min_version,
        client.encoded()[1] == client.max_version,
        u64_at(client.encoded(), 2) == client.caps,
        server.encoded().len() == 19,
        server.encoded()[0] == server.min_version,
        server.encoded()[1] == server.max_version,
        u64_at(server.encoded(), 2) == server.caps,
        server.encoded()[10] == server.selected_version,
        u64_at(server.encoded(), 11) == server.selected_caps,
        finish.encoded().len() == 9,
        finish.encoded()[0] == finish.selected_version,
        u64_at(finish.encoded(), 1) == finish.selected_caps,
{
    codec::lemma_be_u64(client.caps);
    assert(client.encoded().subrange(2, 10) =~= codec::be_bytes(client.caps as nat, 8));
    lemma_u64_at(client.encoded(), 2);
    codec::lemma_be_u64(server.caps);
    codec::lemma_be_u64(server.selected_caps);
    assert(server.encoded().subrange(2, 10) =~= codec::be_bytes(server.caps as nat, 8));
    assert(server.encoded().subrange(11, 19) =~= codec::be_bytes(server.selected_caps as nat, 8));
    lemma_u64_at(server.encoded(), 2);
    lemma_u64_at(server.encoded(), 11);
    codec::lemma_be_u64(finish.selected_caps);
    assert(finish.encoded().subrange(1, 9) =~= codec::be_bytes(finish.selected_caps as nat, 8));
    lemma_u64_at(finish.encoded(), 1);
}

/// Bytes are a hello or an echo just where they are as long as one.
pub proof fn law_hello_refusals(input: Seq<u8>)
    ensures
        input.len() == 10 ==> ClientHello::decoded(input) is Ok,
        input.len() != 10 ==> ClientHello::decoded(input) == Err::<ClientHello, Error>(
            Error::InvalidClientHelloLength { len: input.len() as usize },
        ),
        input.len() == 19 ==> ServerHello::decoded(input) is Ok,
        input.len() != 19 ==> ServerHello::decoded(input) == Err::<ServerHello, Error>(
            Error::InvalidServerHelloLength { len: input.len() as usize },
        ),
        input.len() == 9 ==> ClientFinish::decoded(input) is Ok,
        input.len() != 9 ==> ClientFinish::decoded(input) == Err::<ClientFinish, Error>(
            Error::InvalidClientFinishLength { len: input.len() as usize },
        ),
{
}

/// The parameters of an object: its length in five bytes, a byte that is zero, and the rest at their
/// places.
pub proof fn law_info_layout(config: ObjectTransmissionInformation)
    requires
        config.transfer_length < 0x100_0000_0000,
    ensures
        ({
            let wire = config.encoded();
            &&& wire.len() == 12
            &&& u32_at(wire, 0) * 256 + wire[4] == config.transfer_length
            &&& wire[5] == 0
            &&& u16_at(wire, 6) == config.symbol_size
            &&& wire[8] == config.source_blocks
            &&& u16_at(wire, 9) == config.sub_blocks
            &&& wire[11] == config.symbol_alignment
        }),
{
    let wire = config.encoded();
    info::lemma_info_len(config);
    info::law_info_roundtrip(config);
    codec::lemma_be_bytes_len(config.transfer_length as nat, 5);
    codec::lemma_be_u16(config.symbol_size);
    codec::lemma_be_u16(config.sub_blocks);
    codec::lemma_be_field(wire, 0, 5);
    assert(vstd::arithmetic::power2::pow2(40) == 0x100_0000_0000) by {
        vstd::arithmetic::power2::lemma2_to64();
        vstd::arithmetic::power2::lemma2_to64_rest();
    }
    assert(wire.subrange(6, 8) =~= codec::be_bytes(config.symbol_size as nat, 2));
    assert(wire.subrange(9, 11) =~= codec::be_bytes(config.sub_blocks as nat, 2));
    lemma_u40_at(wire, 0);
    lemma_u16_at(wire, 6);
    lemma_u16_at(wire, 9);
}

/// A list of nodes stands at a place: how many there are, in one byte, and then each of them.
pub open spec fn nodes_at(wire: Seq<u8>, at: int, nodes: Seq<Seq<u8>>) -> bool {
    &&& wire.len() == at + 1 + 32 * nodes.len()
    &&& wire[at] == nodes.len()
    &&& forall|i: int|
        0 <= i < nodes.len() ==> wire.subrange(at + 1 + 32 * i, at + 33 + 32 * i)
            == #[trigger] nodes[i]
}

/// The first 255 of some nodes, or all where there are no more.
pub open spec fn first_nodes(nodes: Seq<Seq<u8>>) -> Seq<Seq<u8>> {
    nodes.subrange(
        0,
        if nodes.len() < 255 {
            nodes.len() as int
        } else {
            255
        },
    )
}

/// A command is the byte that names it and then what it carries: identifiers and keys as they are,
/// and of a list of nodes the first 255.
pub proof fn law_command_layout(command: StreamCommandView)
    requires
        command.wf(),
    ensures
        ({
            let wire = command.encoded();
            let len = wire.len() as int;
            match command {
                StreamCommandView::StreamStart(config) => len == 13 && wire[0] == 1
                    && wire.subrange(1, 13) == config.encoded(),
                StreamCommandView::StopStream => len == 1 && wire[0] == 2,
                StreamCommandView::Ping { sender_id } => len == 33 && wire[0] == 3
                    && wire.subrange(1, 33) == sender_id,
                StreamCommandView::Pong { sender_id } => len == 33 && wire[0] == 4
                    && wire.subrange(1, 33) == sender_id,
                StreamCommandView::FindNode { target_id } => len == 33 && wire[0] == 5
                    && wire.subrange(1, 33) == target_id,
                StreamCommandView::NodesFound { nodes } => wire[0] == 6 && nodes_at(
                    wire,
                    1,
                    first_nodes(nodes),
                ),
                StreamCommandView::StoreProvider { key, provider_id } => len == 65 && wire[0] == 7
                    && wire.subrange(1, 33) == key && wire.subrange(33, 65) == provider_id,
                StreamCommandView::FindValue { key } => len == 33 && wire[0] == 8 && wire.subrange(
                    1,
                    33,
                ) == key,
                StreamCommandView::ValueFound { key, providers } => wire[0] == 9 && wire.subrange(
                    1,
                    33,
                ) == key && nodes_at(wire, 33, first_nodes(providers)),
            }
        }),
{
    let wire = command.encoded();
    match command {
        StreamCommandView::StreamStart(config) => {
            info::lemma_info_len(config);
            assert(wire.subrange(1, 13) =~= config.encoded());
        },
        StreamCommandView::StopStream => {},
        StreamCommandView::Ping { sender_id } => {
            assert(wire.subrange(1, 33) =~= sender_id);
        },
        StreamCommandView::Pong { sender_id } => {
            assert(wire.subrange(1, 33) =~= sender_id);
        },
        StreamCommandView::FindNode { target_id } => {
            assert(wire.subrange(1, 33) =~= target_id);
        },
        StreamCommandView::NodesFound { nodes } => {
            lemma_nodes_at(wire, 1, nodes);
        },
        StreamCommandView::StoreProvider { key, provider_id } => {
            assert(wire.subrange(1, 33) =~= key);
            assert(wire.subrange(33, 65) =~= provider_id);
        },
        StreamCommandView::FindValue { key } => {
            assert(wire.subrange(1, 33) =~= key);
        },
        StreamCommandView::ValueFound { key, providers } => {
            assert(wire.subrange(1, 33) =~= key);
            lemma_nodes_at(wire, 33, providers);
        },
    }
}

/// A list of nodes on the wire has the first 255 nodes.
proof fn lemma_nodes_at(wire: Seq<u8>, at: int, nodes: Seq<Seq<u8>>)
    requires
        command::all_ids(nodes),
        0 <= at <= wire.len(),
        wire.subrange(at, wire.len() as int) =~= command::encoded_nodes(nodes),
    ensures
        nodes_at(wire, at, first_nodes(nodes)),
{
    let first = first_nodes(nodes);
    let list = wire.subrange(at, wire.len() as int);
    assert(command::listed(nodes) =~= first);
    command::lemma_nodes_roundtrip(nodes);
    let read = command::decoded_nodes(list)->Ok_0;
    assert(read == first);
    assert(list[0] == wire[at]);
    assert forall|i: int| 0 <= i < first.len() implies wire.subrange(
        at + 1 + 32 * i,
        at + 33 + 32 * i,
    ) == #[trigger] first[i] by {
        assert(read[i] == list.subrange(1 + 32 * i, 33 + 32 * i));
        assert(wire.subrange(at + 1 + 32 * i, at + 33 + 32 * i) =~= list.subrange(
            1 + 32 * i,
            33 + 32 * i,
        ));
    }
}

/// A command is read back as itself, but that of a list of nodes only the first 255 arrive.
pub proof fn law_commands_arrive(command: StreamCommandView)
    requires
        command.wf(),
    ensures
        StreamCommandView::decoded(command.encoded()) == Ok::<StreamCommandView, Error>(
            match command {
                StreamCommandView::NodesFound { nodes } => StreamCommandView::NodesFound {
                    nodes: first_nodes(nodes),
                },
                StreamCommandView::ValueFound { key, providers } => StreamCommandView::ValueFound {
                    key,
                    providers: first_nodes(providers),
                },
                _ => command,
            },
        ),
{
    command::law_command_roundtrip(command);
    match command {
        StreamCommandView::NodesFound { nodes } => {
            assert(command::listed(nodes) =~= first_nodes(nodes));
        },
        StreamCommandView::ValueFound { key, providers } => {
            assert(command::listed(providers) =~= first_nodes(providers));
        },
        _ => {},
    }
}

/// Bytes are refused as a command where there are none, where the first of them names no command,
/// or where they are not as long as that command is; the first of these is the reason. Else they
/// are accepted.
pub proof fn law_command_refusals(input: Seq<u8>)
    ensures
        ({
            let r = StreamCommandView::decoded(input);
            let len = input.len() as usize;
            if input.len() == 0 {
                r == Err::<StreamCommandView, Error>(Error::EmptyCommand)
            } else if input[0] == 0 || input[0] > 9 {
                r == Err::<StreamCommandView, Error>(Error::UnknownCommand { value: input[0] })
            } else if input[0] == 1 && input.len() != 13 {
                r == Err::<StreamCommandView, Error>(Error::InvalidStreamStartLength { len })
            } else if input[0] == 2 && input.len() != 1 {
                r == Err::<StreamCommandView, Error>(Error::InvalidStopStreamLength { len })
            } else if input[0] == 3 && input.len() != 33 {
                r == Err::<StreamCommandView, Error>(Error::InvalidPingLength { len })
            } else if input[0] == 4 && input.len() != 33 {
                r == Err::<StreamCommandView, Error>(Error::InvalidPongLength { len })
            } else if input[0] == 5 && input.len() != 33 {
                r == Err::<StreamCommandView, Error>(Error::InvalidFindNodeLength { len })
            } else if input[0] == 6 && input.len() == 1 {
                r == Err::<StreamCommandView, Error>(Error::MissingNodeCount)
            } else if input[0] == 6 && input.len() != 2 + 32 * input[1] {
                r == Err::<StreamCommandView, Error>(
                    Error::InvalidNodesLength {
                        len: (input.len() - 1) as usize,
                        expected: (1 + 32 * input[1]) as usize,
                    },
                )
            } else if input[0] == 7 && input.len() != 65 {
                r == Err::<StreamCommandView, Error>(Error::InvalidStoreProviderLength { len })
            } else if input[0] == 8 && input.len() != 33 {
                r == Err::<StreamCommandView, Error>(Error::InvalidFindValueLength { len })
            } else if input[0] == 9 && input.len() < 34 {
                r == Err::<StreamCommandView, Error>(Error::InvalidValueFoundLength { len })
            } else if input[0] == 9 && input.len() != 34 + 32 * input[33] {
                r == Err::<StreamCommandView, Error>(
                    Error::InvalidNodesLength {
                        len: (input.len() - 33) as usize,
                        expected: (1 + 32 * input[33]) as usize,
                    },
                )
            } else {
                r is Ok
            }
        }),
{
}

} // verus!
