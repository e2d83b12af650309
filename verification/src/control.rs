//! The control plane: messages cut into chunks, acknowledged, and put together again.

use crate::codec;
use crate::error;
use crate::error::Error;
use crate::vwp::{VwpFrame, VwpFrameType, VwpFrameView, VWP_MAX_PAYLOAD, VWP_STREAM_ID_LEN};
use vstd::prelude::*;

verus! {

/// The most that one chunk carries: a frame's payload less the chunk header.
pub const MAX_CHUNK_PAYLOAD: usize = 1392;

/// One piece of a control message.
#[derive(Debug, Clone, PartialEq, Eq)]
pub struct ControlChunk {
    pub message_id: u32,
    pub chunk_index: u16,
    pub total_chunks: u16,
    pub payload: Vec<u8>,
}

/// A chunk as a mathematical value.
pub struct ControlChunkView {
    pub message_id: u32,
    pub chunk_index: u16,
    pub total_chunks: u16,
    pub payload: Seq<u8>,
}

impl View for ControlChunk {
    type V = ControlChunkView;

    open spec fn view(&self) -> ControlChunkView {
        ControlChunkView {
            message_id: self.message_id,
            chunk_index: self.chunk_index,
            total_chunks: self.total_chunks,
            payload: self.payload@,
        }
    }
}

impl ControlChunkView {
    /// The chunk on the wire: its header, then its payload.
    pub open spec fn encoded(self) -> Seq<u8> {
        codec::be_bytes(self.message_id as nat, 4) + codec::be_bytes(self.chunk_index as nat, 2)
            + codec::be_bytes(self.total_chunks as nat, 2) + self.payload
    }

    /// What some bytes mean as a chunk, or the first thing wrong with them.
    pub open spec fn decoded(input: Seq<u8>) -> Result<ControlChunkView, Error> {
        let index = codec::be_field(input, 4, 2) as u16;
        let total = codec::be_field(input, 6, 2) as u16;
        if input.len() < ControlChunk::HEADER_LEN {
            Err(Error::ChunkTooShort { len: input.len() as usize })
        } else if total == 0 {
            Err(Error::ZeroTotalChunks)
        } else if index >= total {
            Err(Error::DecodedChunkIndexOutOfRange { index, total })
        } else {
            Ok(
                ControlChunkView {
                    message_id: codec::be_field(input, 0, 4) as u32,
                    chunk_index: index,
                    total_chunks: total,
                    payload: input.subrange(ControlChunk::HEADER_LEN as int, input.len() as int),
                },
            )
        }
    }
}

impl ControlChunk {
    /// The length of a chunk's header: message, index, total.
    pub const HEADER_LEN: usize = 8;

    /// The bytes of the chunk. Refused when the index is not below the total.
    pub fn encode(&self) -> (r: Result<Vec<u8>, Error>)
        ensures
            error::viewed(r) == (if self.chunk_index < self.total_chunks {
                Ok(self@.encoded())
            } else {
                Err(Error::InvalidChunkIndex { index: self.chunk_index, total: self.total_chunks })
            }),
    {
        if self.chunk_index >= self.total_chunks {
            return Err(
                Error::InvalidChunkIndex { index: self.chunk_index, total: self.total_chunks },
            );
        }
        let mut out: Vec<u8> = Vec::new();
        codec::push_be(&mut out, self.message_id as u64, 4);
        codec::push_be(&mut out, self.chunk_index as u64, 2);
        codec::push_be(&mut out, self.total_chunks as u64, 2);
        codec::push_bytes(&mut out, self.payload.as_slice());
        assert(out@ =~= self@.encoded());
        Ok(out)
    }

    /// The chunk that `input` holds: everything behind the header is its payload.
    pub fn decode(input: &[u8]) -> (r: Result<Self, Error>)
        ensures
            error::viewed(r) == ControlChunkView::decoded(input@),
    {
        let len: usize = input.len();
        if len < Self::HEADER_LEN {
            return Err(Error::ChunkTooShort { len });
        }
        let message_id = codec::read_u32(input, 0);
        let chunk_index = codec::read_u16(input, 4);
        let total_chunks = codec::read_u16(input, 6);
        if total_chunks == 0 {
            return Err(Error::ZeroTotalChunks);
        }
        if chunk_index >= total_chunks {
            return Err(
                Error::DecodedChunkIndexOutOfRange { index: chunk_index, total: total_chunks },
            );
        }
        let payload = codec::copy_range(input, Self::HEADER_LEN, len);
        Ok(ControlChunk { message_id, chunk_index, total_chunks, payload })
    }
}

/// Every chunk that can be encoded is read back as itself.
pub proof fn law_chunk_roundtrip(chunk: ControlChunkView)
    requires
        chunk.chunk_index < chunk.total_chunks,
    ensures
        ControlChunkView::decoded(chunk.encoded()) == Ok::<ControlChunkView, Error>(chunk),
{
    let wire = chunk.encoded();
    codec::lemma_be_u32(chunk.message_id);
    codec::lemma_be_u16(chunk.chunk_index);
    codec::lemma_be_u16(chunk.total_chunks);
    assert(wire.subrange(0, 4) =~= codec::be_bytes(chunk.message_id as nat, 4));
    assert(wire.subrange(4, 6) =~= codec::be_bytes(chunk.chunk_index as nat, 2));
    assert(wire.subrange(6, 8) =~= codec::be_bytes(chunk.total_chunks as nat, 2));
    assert(wire.subrange(8, wire.len() as int) =~= chunk.payload);
}

/// Bytes that are accepted as a chunk are the encoding of the chunk they are read as.
pub proof fn law_chunk_canonical(input: Seq<u8>)
    ensures
        ControlChunkView::decoded(input) matches Ok(chunk) ==> chunk.encoded() == input
            && chunk.chunk_index < chunk.total_chunks,
{
    if let Ok(chunk) = ControlChunkView::decoded(input) {
        codec::lemma_be_field(input, 0, 4);
        codec::lemma_be_field(input, 4, 2);
        codec::lemma_be_field(input, 6, 2);
        codec::lemma_width_bounds();
        assert(chunk.encoded() =~= input.subrange(0, 4) + input.subrange(4, 6) + input.subrange(
            6,
            8,
        ) + input.subrange(8, input.len() as int));
        assert(chunk.encoded() =~= input);
    }
}

/// Says that one chunk of a control message has arrived.
#[derive(Debug, Clone, Copy, PartialEq, Eq, Structural)]
pub struct ControlAck {
    pub message_id: u32,
    pub chunk_index: u16,
}

impl ControlAck {
    /// The length of an acknowledgement.
    pub const LEN: usize = 6;

    /// The acknowledgement on the wire.
    pub open spec fn encoded(self) -> Seq<u8> {
        codec::be_bytes(self.message_id as nat, 4) + codec::be_bytes(self.chunk_index as nat, 2)
    }

    /// What some bytes mean as an acknowledgement.
    pub open spec fn decoded(input: Seq<u8>) -> Result<ControlAck, Error> {
        if input.len() != Self::LEN {
            Err(Error::InvalidControlAckLength { len: input.len() as usize })
        } else {
            Ok(
                ControlAck {
                    message_id: codec::be_field(input, 0, 4) as u32,
                    chunk_index: codec::be_field(input, 4, 2) as u16,
                },
            )
        }
    }

    /// The bytes of the acknowledgement.
    pub fn encode(&self) -> (out: [u8; 6])
        ensures
            out@ == self.encoded(),
    {
        let mut out: [u8; 6] = [0u8; 6];
        codec::put_be(&mut out, 0, self.message_id as u64, 4);
        codec::put_be(&mut out, 4, self.chunk_index as u64, 2);
        proof {
            codec::lemma_be_u32(self.message_id);
            codec::lemma_be_u16(self.chunk_index);
        }
        assert(out@ =~= self.encoded());
        out
    }

    /// The acknowledgement that `input` holds.
    pub fn decode(input: &[u8]) -> (r: Result<Self, Error>)
        ensures
            r == Self::decoded(input@),
    {
        if input.len() != Self::LEN {
            return Err(Error::InvalidControlAckLength { len: input.len() });
        }
        Ok(
            ControlAck {
                message_id: codec::read_u32(input, 0),
                chunk_index: codec::read_u16(input, 4),
            },
        )
    }
}

/// Every acknowledgement is read back as itself, and accepted bytes are its encoding.
pub proof fn law_control_ack_roundtrip(ack: ControlAck, input: Seq<u8>)
    ensures
        ControlAck::decoded(ack.encoded()) == Ok::<ControlAck, Error>(ack),
        ControlAck::decoded(input) matches Ok(read) ==> read.encoded() == input,
{
    let wire = ack.encoded();
    codec::lemma_be_u32(ack.message_id);
    codec::lemma_be_u16(ack.chunk_index);
    assert(wire.subrange(0, 4) =~= codec::be_bytes(ack.message_id as nat, 4));
    assert(wire.subrange(4, 6) =~= codec::be_bytes(ack.chunk_index as nat, 2));
    if let Ok(read) = ControlAck::decoded(input) {
        codec::lemma_be_field(input, 0, 4);
        codec::lemma_be_field(input, 4, 2);
        codec::lemma_width_bounds();
        assert(read.encoded() =~= input);
    }
}

/// The number of chunks of a message of `len` bytes: as few as hold it, and at least one.
pub open spec fn chunk_count(len: nat) -> nat {
    if len == 0 {
        1
    } else {
        (len + MAX_CHUNK_PAYLOAD - 1) as nat / MAX_CHUNK_PAYLOAD as nat
    }
}

/// The part of `message` that its chunk number `i` carries.
pub open spec fn chunk_part(message: Seq<u8>, i: int) -> Seq<u8> {
    let start = i * MAX_CHUNK_PAYLOAD;
    let end = (i + 1) * MAX_CHUNK_PAYLOAD;
    message.subrange(
        start,
        if end < message.len() {
            end
        } else {
            message.len() as int
        },
    )
}

/// Chunk number `i` of `message`.
pub open spec fn chunk_of(message_id: u32, message: Seq<u8>, i: int) -> ControlChunkView {
    ControlChunkView {
        message_id,
        chunk_index: i as u16,
        total_chunks: chunk_count(message.len()) as u16,
        payload: chunk_part(message, i),
    }
}

/// The frame that carries chunk number `i` of `message`.
pub open spec fn chunk_frame(
    stream_id: Seq<u8>,
    message_id: u32,
    start_seq: u32,
    message: Seq<u8>,
    i: int,
) -> VwpFrameView {
    VwpFrameView {
        frame_type: VwpFrameType::Control,
        seq: ((start_seq + i) % 0x1_0000_0000) as u32,
        stream_id,
        payload: chunk_of(message_id, message, i).encoded(),
    }
}

/// Where the parts of a message lie.
pub proof fn lemma_chunk_bounds(len: nat, i: int)
    requires
        0 <= i < chunk_count(len),
    ensures
        i * MAX_CHUNK_PAYLOAD <= len,
        i + 1 < chunk_count(len) ==> (i + 1) * MAX_CHUNK_PAYLOAD < len,
        i + 1 == chunk_count(len) ==> (i + 1) * MAX_CHUNK_PAYLOAD >= len,
{
}

/// Cuts `message` into the chunks of control message `message_id` and wraps each in a
/// frame, with sequence numbers that count up from `start_seq` and wrap. Refused when the
/// chunks are more than a chunk header can count.
pub fn chunk_control_message(
    stream_id: [u8; VWP_STREAM_ID_LEN],
    message_id: u32,
    start_seq: u32,
    message: &[u8],
) -> (r: Result<Vec<VwpFrame>, Error>)
    ensures
        match r {
            Ok(frames) => {
                &&& chunk_count(message@.len()) <= u16::MAX
                &&& frames@.len() == chunk_count(message@.len())
                &&& forall|i: int|
                    0 <= i < frames@.len() ==> (#[trigger] frames@[i])@ == chunk_frame(
                        stream_id@,
                        message_id,
                        start_seq,
                        message@,
                        i,
                    )
            },
            Err(e) => {
                &&& chunk_count(message@.len()) > u16::MAX
                &&& e == (Error::TooManyChunks { chunks: chunk_count(message@.len()) as usize })
            },
        },
{
    let len: usize = message.len();
    let count: usize = if len == 0 {
        1
    } else {
        (len - 1) / MAX_CHUNK_PAYLOAD + 1
    };
    assert(count == chunk_count(message@.len()));
    if count > u16::MAX as usize {
        return Err(Error::TooManyChunks { chunks: count });
    }
    let total_chunks: u16 = count as u16;
    let mut frames: Vec<VwpFrame> = Vec::new();
    let mut i: usize = 0;
    while i < count
        invariant
            i <= count <= u16::MAX,
            count == chunk_count(message@.len()),
            total_chunks == count,
            len == message@.len(),
            frames@.len() == i,
            forall|j: int|
                0 <= j < i ==> (#[trigger] frames@[j])@ == chunk_frame(
                    stream_id@,
                    message_id,
                    start_seq,
                    message@,
                    j,
                ),
        decreases count - i,
    {
        proof {
            lemma_chunk_bounds(message@.len(), i as int);
        }
        let start: usize = i * MAX_CHUNK_PAYLOAD;
        let end: usize = if len - start > MAX_CHUNK_PAYLOAD {
            start + MAX_CHUNK_PAYLOAD
        } else {
            len
        };
        let chunk = ControlChunk {
            message_id,
            chunk_index: i as u16,
            total_chunks,
            payload: codec::copy_range(message, start, end),
        };
        assert(chunk@ == chunk_of(message_id, message@, i as int));
        let payload = match chunk.encode() {
            Ok(payload) => payload,
            Err(e) => return Err(e),
        };
        let frame = VwpFrame {
            frame_type: VwpFrameType::Control,
            seq: start_seq.wrapping_add(i as u32),
            stream_id,
            payload,
        };
        assert(frame@ == chunk_frame(stream_id@, message_id, start_seq, message@, i as int));
        frames.push(frame);
        i = i + 1;
    }
    Ok(frames)
}

/// Every frame of a chunked message can be sent, and carries the chunk it should.
pub proof fn law_chunk_frames_carry_chunks(
    stream_id: Seq<u8>,
    message_id: u32,
    start_seq: u32,
    message: Seq<u8>,
    i: int,
)
    requires
        0 <= i < chunk_count(message.len()) <= u16::MAX,
    ensures
        ({
            let frame = chunk_frame(stream_id, message_id, start_seq, message, i);
            &&& frame.payload.len() <= VWP_MAX_PAYLOAD
            &&& ControlChunkView::decoded(frame.payload) == Ok::<ControlChunkView, Error>(
                chunk_of(message_id, message, i),
            )
        }),
{
    let chunk = chunk_of(message_id, message, i);
    lemma_chunk_bounds(message.len(), i);
    law_chunk_roundtrip(chunk);
    codec::lemma_be_u32(chunk.message_id);
    codec::lemma_be_u16(chunk.chunk_index);
    codec::lemma_be_u16(chunk.total_chunks);
}

/// A message is cut into as few chunks as hold it, 1392 bytes each but for the last, and an empty one
/// into one; more chunks than 65535 are too many. Each travels in a control frame of the stream,
/// with the number that follows that of the chunk before; it names the message, its own place and
/// how many there are; and it carries the bytes of the message from its place on.
pub proof fn law_message_is_cut_in_order(
    stream_id: Seq<u8>,
    message_id: u32,
    start_seq: u32,
    message: Seq<u8>,
    i: int,
)
    requires
        0 <= i < chunk_count(message.len()),
    ensures
        ({
            let count = chunk_count(message.len());
            let frame = chunk_frame(stream_id, message_id, start_seq, message, i);
            &&& count >= 1
            &&& count * 1392 >= message.len()
            &&& count > 1 ==> (count - 1) * 1392 < message.len()
            &&& count > 65535 <==> message.len() > 65535 * 1392
            &&& frame.frame_type == VwpFrameType::Control
            &&& frame.stream_id == stream_id
            &&& frame.seq == (start_seq + i) % 0x1_0000_0000
            &&& frame.payload.len() == 8 + if i + 1 < count {
                1392
            } else {
                message.len() - 1392 * (count - 1)
            }
            &&& forall|j: int|
                0 <= j < frame.payload.len() - 8 ==> #[trigger] frame.payload[8 + j]
                    == message[1392 * i + j]
            &&& count <= 65535 ==> (ControlChunkView::decoded(frame.payload) matches Ok(chunk)
                && chunk.message_id == message_id && chunk.chunk_index == i && chunk.total_chunks
                == count)
        }),
{
    let chunk = chunk_of(message_id, message, i);
    lemma_chunk_bounds(message.len(), i);
    codec::lemma_be_u32(chunk.message_id);
    codec::lemma_be_u16(chunk.chunk_index);
    codec::lemma_be_u16(chunk.total_chunks);
    if chunk_count(message.len()) <= 65535 {
        law_chunk_roundtrip(chunk);
    }
}

} // verus!
