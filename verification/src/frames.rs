//! The payloads of acknowledgement and error packets.

use crate::codec;
use crate::error;
use crate::error::Error;
use vstd::prelude::*;
use vstd::utf8::*;

verus! {

pub const ERR_UNSUPPORTED_VERSION: u16 = 0x0001;

pub const ERR_MALFORMED_PACKET: u16 = 0x0002;

pub const ERR_UNEXPECTED_PACKET_TYPE: u16 = 0x0003;

pub const ERR_INVALID_SESSION: u16 = 0x0004;

pub const ERR_REPLAY_DETECTED: u16 = 0x0005;

pub const ERR_CAPABILITY_MISMATCH: u16 = 0x0006;

pub const ERR_HANDSHAKE_FAILED: u16 = 0x0101;

pub const ERR_NO_SHARED_VERSION: u16 = 0x0102;

pub const ERR_NEGOTIATION_ECHO_MISMATCH: u16 = 0x0103;

pub const ERR_RATE_LIMITED: u16 = 0x0201;

pub const ERR_INTERNAL: u16 = 0x0202;

pub const ERR_BUSY_RETRY: u16 = 0x0203;

/// Acknowledges one sequence number, and by its bits some of the 64 before it.
#[derive(Debug, Clone, Copy, PartialEq, Eq, Structural)]
pub struct AckFrame {
    pub acked_seq: u64,
    pub ack_bits: u64,
}

/// Whether bit `i` of `word` is set; bit 0 is the least significant.
pub open spec fn bit_of(word: u64, i: u64) -> bool {
    (word >> i) & 1 == 1
}

impl AckFrame {
    /// The length of an acknowledgement.
    pub const LEN: usize = 16;

    /// The acknowledgement on the wire.
    pub open spec fn encoded(self) -> Seq<u8> {
        codec::be_bytes(self.acked_seq as nat, 8) + codec::be_bytes(self.ack_bits as nat, 8)
    }

    /// What some bytes mean as an acknowledgement.
    pub open spec fn decoded(input: Seq<u8>) -> Result<AckFrame, Error> {
        if input.len() != Self::LEN {
            Err(Error::InvalidAckLength { len: input.len() as usize })
        } else {
            Ok(
                AckFrame {
                    acked_seq: codec::be_field(input, 0, 8) as u64,
                    ack_bits: codec::be_field(input, 8, 8) as u64,
                },
            )
        }
    }

    /// The acknowledged numbers: `acked_seq` itself, and `acked_seq - 1 - i` for each bit
    /// `i` that is set.
    pub open spec fn covers(self, seq: u64) -> bool {
        ||| seq == self.acked_seq
        ||| 1 <= self.acked_seq - seq <= 64 && bit_of(
            self.ack_bits,
            (self.acked_seq - seq - 1) as u64,
        )
    }

    /// The bytes of the acknowledgement.
    pub fn encode(&self) -> (out: [u8; 16])
        ensures
            out@ == self.encoded(),
    {
        let mut out: [u8; 16] = [0u8; 16];
        codec::put_be(&mut out, 0, self.acked_seq, 8);
        codec::put_be(&mut out, 8, self.ack_bits, 8);
        proof {
            codec::lemma_be_u64(self.acked_seq);
            codec::lemma_be_u64(self.ack_bits);
        }
        assert(out@ =~= self.encoded());
        out
    }

    /// The acknowledgement that `input` holds.
    pub fn decode(input: &[u8]) -> (r: Result<Self, Error>)
        ensures
            r == Self::decoded(input@),
    {
        if input.len() != Self::LEN {
            return Err(Error::InvalidAckLength { len: input.len() });
        }
        Ok(AckFrame { acked_seq: codec::read_u64(input, 0), ack_bits: codec::read_u64(input, 8) })
    }

    /// Whether the frame acknowledges `seq`.
    pub fn acknowledges(&self, seq: u64) -> (acknowledged: bool)
        ensures
            acknowledged == self.covers(seq),
    {
        if seq == self.acked_seq {
            return true;
        }
        if seq > self.acked_seq {
            return false;
        }
        let delta: u64 = self.acked_seq - seq;
        if delta > 64 {
            return false;
        }
        let bit_index: u64 = delta - 1;
        let bits: u64 = self.ack_bits;
        assert((bits & (1u64 << bit_index) != 0) == ((bits >> bit_index) & 1 == 1)) by (bit_vector)
            requires
                bit_index < 64,
        ;
        bits & (1u64 << bit_index) != 0
    }
}

/// Every acknowledgement is read back as itself, and accepted bytes are its encoding.
pub proof fn law_ack_roundtrip(ack: AckFrame, input: Seq<u8>)
    ensures
        AckFrame::decoded(ack.encoded()) == Ok::<AckFrame, Error>(ack),
        AckFrame::decoded(input) matches Ok(read) ==> read.encoded() == input,
{
    let wire = ack.encoded();
    codec::lemma_be_u64(ack.acked_seq);
    codec::lemma_be_u64(ack.ack_bits);
    assert(wire.subrange(0, 8) =~= codec::be_bytes(ack.acked_seq as nat, 8));
    assert(wire.subrange(8, 16) =~= codec::be_bytes(ack.ack_bits as nat, 8));
    if let Ok(read) = AckFrame::decoded(input) {
        codec::lemma_be_field(input, 0, 8);
        codec::lemma_be_field(input, 8, 8);
        codec::lemma_width_bounds();
        assert(read.encoded() =~= input);
    }
}

/// Tells the peer what went wrong.
#[derive(Debug, Clone, PartialEq, Eq)]
pub struct ErrorFrame {
    pub code: u16,
    pub detail: String,
}

/// An error frame as a mathematical value.
pub struct ErrorFrameView {
    pub code: u16,
    pub detail: Seq<char>,
}

impl View for ErrorFrame {
    type V = ErrorFrameView;

    open spec fn view(&self) -> ErrorFrameView {
        ErrorFrameView { code: self.code, detail: self.detail@ }
    }
}

impl ErrorFrameView {
    /// The frame on the wire: the code, the length of the text, the text in UTF-8.
    pub open spec fn encoded(self) -> Seq<u8> {
        codec::be_bytes(self.code as nat, 2) + codec::be_bytes(encode_utf8(self.detail).len(), 2)
            + encode_utf8(self.detail)
    }

    /// What some bytes mean as an error frame, or the first thing wrong with them.
    pub open spec fn decoded(input: Seq<u8>) -> Result<ErrorFrameView, Error> {
        if input.len() < 4 {
            Err(Error::InvalidErrorFrameLength { len: input.len() as usize })
        } else {
            let declared = codec::be_field(input, 2, 2);
            let text = input.subrange(4, input.len() as int);
            if text.len() != declared {
                Err(
                    Error::InvalidErrorDetailLength {
                        declared: declared as usize,
                        actual: text.len() as usize,
                    },
                )
            } else if !valid_utf8(text) {
                Err(Error::ErrorDetailNotUtf8)
            } else {
                Ok(
                    ErrorFrameView {
                        code: codec::be_field(input, 0, 2) as u16,
                        detail: decode_utf8(text),
                    },
                )
            }
        }
    }
}

/// `std::str::from_utf8`, into an owned string: bytes that are valid UTF-8 give the text
/// that they encode, and other bytes give nothing.
#[verifier::external_body]
fn text_of_utf8(bytes: &[u8]) -> (text: Option<String>)
    ensures
        text is Some <==> valid_utf8(bytes@),
        text matches Some(s) ==> s@ == decode_utf8(bytes@),
{
    std::str::from_utf8(bytes).ok().map(String::from)
}

impl ErrorFrame {
    /// The bytes of the frame. Refused when the text is longer than its length field can say.
    pub fn encode(&self) -> (r: Result<Vec<u8>, Error>)
        ensures
            error::viewed(r) == (if encode_utf8(self.detail@).len() <= u16::MAX {
                Ok(self@.encoded())
            } else {
                Err(Error::ErrorDetailTooLong { len: encode_utf8(self.detail@).len() as usize })
            }),
    {
        let detail = self.detail.as_str().as_bytes();
        if detail.len() > u16::MAX as usize {
            return Err(Error::ErrorDetailTooLong { len: detail.len() });
        }
        let mut out: Vec<u8> = Vec::new();
        codec::push_be(&mut out, self.code as u64, 2);
        codec::push_be(&mut out, detail.len() as u64, 2);
        codec::push_bytes(&mut out, detail);
        assert(out@ =~= self@.encoded());
        Ok(out)
    }

    /// The error frame that `input` holds, whole and with nothing left over.
    pub fn decode(input: &[u8]) -> (r: Result<Self, Error>)
        ensures
            error::viewed(r) == ErrorFrameView::decoded(input@),
    {
        let len: usize = input.len();
        if len < 4 {
            return Err(Error::InvalidErrorFrameLength { len });
        }
        let code = codec::read_u16(input, 0);
        let declared: usize = codec::read_u16(input, 2) as usize;
        if len - 4 != declared {
            return Err(Error::InvalidErrorDetailLength { declared, actual: len - 4 });
        }
        match text_of_utf8(vstd::slice::slice_subrange(input, 4, len)) {
            Some(detail) => Ok(ErrorFrame { code, detail }),
            None => Err(Error::ErrorDetailNotUtf8),
        }
    }
}

/// Every error frame that can be encoded is read back as itself.
pub proof fn law_error_frame_roundtrip(frame: ErrorFrameView)
    requires
        encode_utf8(frame.detail).len() <= u16::MAX,
    ensures
        ErrorFrameView::decoded(frame.encoded()) == Ok::<ErrorFrameView, Error>(frame),
{
    let wire = frame.encoded();
    let text = encode_utf8(frame.detail);
    codec::lemma_be_u16(frame.code);
    codec::lemma_be_u16(text.len() as u16);
    encode_utf8_valid_utf8(frame.detail);
    encode_utf8_decode_utf8(frame.detail);
    assert(wire.subrange(0, 2) =~= codec::be_bytes(frame.code as nat, 2));
    assert(wire.subrange(2, 4) =~= codec::be_bytes(text.len(), 2));
    assert(wire.subrange(4, wire.len() as int) =~= text);
}

/// Bytes that are accepted as an error frame are the encoding of the frame they are read as.
pub proof fn law_error_frame_canonical(input: Seq<u8>)
    ensures
        ErrorFrameView::decoded(input) matches Ok(frame) ==> frame.encoded() == input,
{
    if let Ok(frame) = ErrorFrameView::decoded(input) {
        let text = input.subrange(4, input.len() as int);
        codec::lemma_be_field(input, 0, 2);
        codec::lemma_be_field(input, 2, 2);
        codec::lemma_width_bounds();
        decode_utf8_encode_utf8(text);
        assert(frame.encoded() =~= input.subrange(0, 2) + input.subrange(2, 4) + text);
        assert(frame.encoded() =~= input);
    }
}

} // verus!
