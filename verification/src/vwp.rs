//! VWP frames: what travels, encrypted, inside a session.

use crate::codec;
use crate::error;
use crate::error::Error;
use vstd::prelude::*;

verus! {

/// The length of a stream identifier.
pub const VWP_STREAM_ID_LEN: usize = 32;

/// The most that one frame carries.
pub const VWP_MAX_PAYLOAD: usize = 1400;

/// The length of a frame's header: type, sequence number, stream identifier.
pub const VWP_HEADER_LEN: usize = 37;

/// What a frame carries.
#[derive(Debug, Clone, Copy, PartialEq, Eq, Structural)]
pub enum VwpFrameType {
    Control,
    Data,
    Ack,
}

impl VwpFrameType {
    /// The byte that stands for the type on the wire.
    pub open spec fn spec_code(self) -> u8 {
        match self {
            VwpFrameType::Control => 1,
            VwpFrameType::Data => 2,
            VwpFrameType::Ack => 3,
        }
    }

    /// The byte that stands for the type on the wire.
    pub fn code(self) -> (code: u8)
        ensures
            code == self.spec_code(),
    {
        match self {
            VwpFrameType::Control => 1,
            VwpFrameType::Data => 2,
            VwpFrameType::Ack => 3,
        }
    }

    /// The frame type that a byte stands for, if it stands for one.
    pub open spec fn of_code(value: u8) -> Result<VwpFrameType, Error> {
        if value == 1 {
            Ok(VwpFrameType::Control)
        } else if value == 2 {
            Ok(VwpFrameType::Data)
        } else if value == 3 {
            Ok(VwpFrameType::Ack)
        } else {
            Err(Error::UnknownFrameType { value })
        }
    }
}

impl TryFrom<u8> for VwpFrameType {
    type Error = Error;

    fn try_from(value: u8) -> (r: Result<Self, Error>) {
        match value {
            1 => Ok(VwpFrameType::Control),
            2 => Ok(VwpFrameType::Data),
            3 => Ok(VwpFrameType::Ack),
            _ => Err(Error::UnknownFrameType { value }),
        }
    }
}

impl vstd::std_specs::convert::TryFromSpecImpl<u8> for VwpFrameType {
    open spec fn obeys_try_from_spec() -> bool {
        true
    }

    open spec fn try_from_spec(value: u8) -> Result<Self, Error> {
        VwpFrameType::of_code(value)
    }
}

/// One frame of a stream.
#[derive(Debug, Clone, PartialEq, Eq)]
pub struct VwpFrame {
    pub frame_type: VwpFrameType,
    pub seq: u32,
    pub stream_id: [u8; VWP_STREAM_ID_LEN],
    pub payload: Vec<u8>,
}

/// A frame as a mathematical value.
pub struct VwpFrameView {
    pub frame_type: VwpFrameType,
    pub seq: u32,
    pub stream_id: Seq<u8>,
    pub payload: Seq<u8>,
}

impl View for VwpFrame {
    type V = VwpFrameView;

    open spec fn view(&self) -> VwpFrameView {
        VwpFrameView {
            frame_type: self.frame_type,
            seq: self.seq,
            stream_id: self.stream_id@,
            payload: self.payload@,
        }
    }
}

impl VwpFrameView {
    /// The frame on the wire: its header, then its payload.
    pub open spec fn encoded(self) -> Seq<u8> {
        seq![self.frame_type.spec_code()] + codec::be_bytes(self.seq as nat, 4) + self.stream_id
            + self.payload
    }

    /// What some bytes mean as a frame, or the first thing wrong with them.
    pub open spec fn decoded(input: Seq<u8>) -> Result<VwpFrameView, Error> {
        if input.len() < VWP_HEADER_LEN {
            Err(Error::FrameTooShort { len: input.len() as usize })
        } else {
            match VwpFrameType::of_code(input[0]) {
                Err(e) => Err(e),
                Ok(frame_type) => if input.len() - VWP_HEADER_LEN > VWP_MAX_PAYLOAD {
                    Err(
                        Error::DecodedFramePayloadTooLarge {
                            len: (input.len() - VWP_HEADER_LEN) as usize,
                        },
                    )
                } else {
                    Ok(
                        VwpFrameView {
                            frame_type,
                            seq: codec::be_field(input, 1, 4) as u32,
                            stream_id: input.subrange(5, VWP_HEADER_LEN as int),
                            payload: input.subrange(VWP_HEADER_LEN as int, input.len() as int),
                        },
                    )
                },
            }
        }
    }
}

impl VwpFrame {
    /// The bytes of the frame. Refused when the payload is longer than a frame may carry.
    pub fn encode(&self) -> (r: Result<Vec<u8>, Error>)
        ensures
            error::viewed(r) == (if self.payload@.len() <= VWP_MAX_PAYLOAD {
                Ok(self@.encoded())
            } else {
                Err(Error::FramePayloadTooLarge { len: self.payload@.len() as usize })
            }),
    {
        if self.payload.len() > VWP_MAX_PAYLOAD {
            return Err(Error::FramePayloadTooLarge { len: self.payload.len() });
        }
        let mut out: Vec<u8> = Vec::new();
        out.push(self.frame_type.code());
        codec::push_be(&mut out, self.seq as u64, 4);
        codec::push_bytes(&mut out, &self.stream_id);
        codec::push_bytes(&mut out, self.payload.as_slice());
        assert(out@ =~= self@.encoded());
        Ok(out)
    }

    /// The frame that `input` holds: everything behind the header is its payload.
    pub fn decode(input: &[u8]) -> (r: Result<Self, Error>)
        ensures
            error::viewed(r) == VwpFrameView::decoded(input@),
    {
        let len: usize = input.len();
        if len < VWP_HEADER_LEN {
            return Err(Error::FrameTooShort { len });
        }
        let frame_type = match VwpFrameType::try_from(input[0]) {
            Ok(frame_type) => frame_type,
            Err(e) => return Err(e),
        };
        let seq = codec::read_u32(input, 1);
        let stream_id = codec::copy_32(input, 5);
        let payload = codec::copy_range(input, VWP_HEADER_LEN, len);
        if payload.len() > VWP_MAX_PAYLOAD {
            return Err(Error::DecodedFramePayloadTooLarge { len: payload.len() });
        }
        Ok(VwpFrame { frame_type, seq, stream_id, payload })
    }
}

/// Every frame that can be encoded is read back as itself.
pub proof fn law_frame_roundtrip(frame: VwpFrameView)
    requires
        frame.stream_id.len() == VWP_STREAM_ID_LEN,
        frame.payload.len() <= VWP_MAX_PAYLOAD,
    ensures
        VwpFrameView::decoded(frame.encoded()) == Ok::<VwpFrameView, Error>(frame),
{
    let wire = frame.encoded();
    codec::lemma_be_u32(frame.seq);
    assert(wire[0] == frame.frame_type.spec_code());
    assert(wire.subrange(1, 5) =~= codec::be_bytes(frame.seq as nat, 4));
    assert(wire.subrange(5, VWP_HEADER_LEN as int) =~= frame.stream_id);
    assert(wire.subrange(VWP_HEADER_LEN as int, wire.len() as int) =~= frame.payload);
}

/// Bytes that are accepted as a frame are the encoding of the frame they are read as.
pub proof fn law_frame_canonical(input: Seq<u8>)
    ensures
        VwpFrameView::decoded(input) matches Ok(frame) ==> frame.encoded() == input
            && frame.stream_id.len() == VWP_STREAM_ID_LEN && frame.payload.len() <= VWP_MAX_PAYLOAD,
{
    if let Ok(frame) = VwpFrameView::decoded(input) {
        codec::lemma_be_field(input, 1, 4);
        codec::lemma_width_bounds();
        assert(frame.encoded() =~= seq![input[0]] + input.subrange(1, 5) + input.subrange(5, 37)
            + input.subrange(37, input.len() as int));
        assert(frame.encoded() =~= input);
    }
}

} // verus!
