//! How an object was cut up for coding: what a receiver has to know before the first packet.

use crate::codec;
use vstd::arithmetic::power2::*;
use vstd::prelude::*;

verus! {

/// The length of the transmission information on the wire.
pub const OTI_LEN: usize = 12;

/// The parameters of a coded object.
#[derive(Debug, Clone, Copy, PartialEq, Eq, Structural)]
pub struct ObjectTransmissionInformation {
    /// The length of the object. Only 40 bits of it travel.
    pub transfer_length: u64,
    pub symbol_size: u16,
    pub source_blocks: u8,
    pub sub_blocks: u16,
    pub symbol_alignment: u8,
}

impl ObjectTransmissionInformation {
    /// The information on the wire. The sixth byte is reserved and zero.
    pub open spec fn encoded(self) -> Seq<u8> {
        codec::be_bytes(self.transfer_length as nat, 5) + seq![0u8] + codec::be_bytes(
            self.symbol_size as nat,
            2,
        ) + seq![self.source_blocks] + codec::be_bytes(self.sub_blocks as nat, 2)
            + seq![self.symbol_alignment]
    }

    /// What twelve bytes mean as transmission information. The sixth is not looked at.
    pub open spec fn decoded(input: Seq<u8>) -> ObjectTransmissionInformation {
        ObjectTransmissionInformation {
            transfer_length: codec::be_field(input, 0, 5) as u64,
            symbol_size: codec::be_field(input, 6, 2) as u16,
            source_blocks: input[8],
            sub_blocks: codec::be_field(input, 9, 2) as u16,
            symbol_alignment: input[11],
        }
    }

    /// The length of the object.
    pub fn transfer_length(&self) -> (len: u64)
        ensures
            len == self.transfer_length,
    {
        self.transfer_length
    }

    /// The length of a symbol.
    pub fn symbol_size(&self) -> (len: u16)
        ensures
            len == self.symbol_size,
    {
        self.symbol_size
    }

    /// Appends the information in its wire form.
    pub fn push_to(&self, out: &mut Vec<u8>)
        ensures
            final(out)@ == old(out)@ + self.encoded(),
    {
        codec::push_be(out, self.transfer_length, 5);
        out.push(0);
        codec::push_be(out, self.symbol_size as u64, 2);
        out.push(self.source_blocks);
        codec::push_be(out, self.sub_blocks as u64, 2);
        out.push(self.symbol_alignment);
        assert(out@ =~= old(out)@ + self.encoded());
    }

    /// Reads the information that starts at `start`.
    pub fn read_at(input: &[u8], start: usize) -> (info: Self)
        requires
            start + OTI_LEN <= input@.len(),
        ensures
            info == Self::decoded(input@.subrange(start as int, start + OTI_LEN)),
    {
        let ghost bytes = input@.subrange(start as int, start + OTI_LEN);
        proof {
            assert(input@.subrange(start as int, start + 5) =~= bytes.subrange(0, 5));
            assert(input@.subrange(start + 6, start + 8) =~= bytes.subrange(6, 8));
            assert(input@.subrange(start + 9, start + 11) =~= bytes.subrange(9, 11));
        }
        let len: usize = input.len();
        assert(start + OTI_LEN <= len);
        ObjectTransmissionInformation {
            transfer_length: codec::read_be(input, start, 5),
            symbol_size: codec::read_u16(input, start + 6),
            source_blocks: input[start + 8],
            sub_blocks: codec::read_u16(input, start + 9),
            symbol_alignment: input[start + 11],
        }
    }
}

/// Transmission information always takes twelve bytes.
pub proof fn lemma_info_len(info: ObjectTransmissionInformation)
    ensures
        info.encoded().len() == OTI_LEN,
{
    codec::lemma_be_bytes_len(info.transfer_length as nat, 5);
    codec::lemma_be_u16(info.symbol_size);
    codec::lemma_be_u16(info.sub_blocks);
}

/// Transmission information of an object whose length fits 40 bits is read back as itself.
pub proof fn law_info_roundtrip(info: ObjectTransmissionInformation)
    requires
        info.transfer_length < 0x100_0000_0000,
    ensures
        ObjectTransmissionInformation::decoded(info.encoded()) == info,
{
    let wire = info.encoded();
    lemma_info_len(info);
    codec::lemma_be_bytes_len(info.transfer_length as nat, 5);
    assert(pow2(40) == 0x100_0000_0000) by {
        lemma2_to64();
        lemma2_to64_rest();
    }
    codec::lemma_be_value_of_bytes(info.transfer_length as nat, 5);
    codec::lemma_be_u16(info.symbol_size);
    codec::lemma_be_u16(info.sub_blocks);
    assert(wire.subrange(0, 5) =~= codec::be_bytes(info.transfer_length as nat, 5));
    assert(wire.subrange(6, 8) =~= codec::be_bytes(info.symbol_size as nat, 2));
    assert(wire.subrange(9, 11) =~= codec::be_bytes(info.sub_blocks as nat, 2));
}

/// Twelve bytes whose reserved byte is zero are the wire form of what they mean.
pub proof fn law_info_canonical(input: Seq<u8>)
    requires
        input.len() == OTI_LEN,
        input[5] == 0,
    ensures
        ObjectTransmissionInformation::decoded(input).encoded() == input,
{
    codec::lemma_be_field(input, 0, 5);
    codec::lemma_be_field(input, 6, 2);
    codec::lemma_be_field(input, 9, 2);
    codec::lemma_width_bounds();
    assert(pow2(40) == 0x100_0000_0000) by {
        lemma2_to64();
        lemma2_to64_rest();
    }
    let info = ObjectTransmissionInformation::decoded(input);
    assert(info.encoded() =~= input.subrange(0, 5) + seq![0u8] + input.subrange(6, 8)
        + seq![input[8]] + input.subrange(9, 11) + seq![input[11]]);
    assert(info.encoded() =~= input);
}

} // verus!
