//! The fountain code, from the `raptorq` crate: which objects it takes, what it makes of them,
//! and what it gives back.

use crate::stream::info::ObjectTransmissionInformation;
use raptorq::{Decoder, Encoder, EncodingPacket};
use vstd::prelude::*;

verus! {

/// The most source symbols that a block may have.
pub const MAX_BLOCK_SYMBOLS: u32 = 56403;

/// The number of symbol identifiers in a block.
pub const MAX_SYMBOL_IDS: u32 = 16777216;

/// The length of the identifier that a packet starts with.
pub const PACKET_ID_LEN: usize = 4;

/// Quotient, rounded up.
pub open spec fn div_ceil(a: nat, b: nat) -> nat {
    (if a % b == 0 {
        a / b
    } else {
        a / b + 1
    }) as nat
}

/// A quotient, rounded up, is no more than what was divided.
pub(crate) proof fn lemma_div_ceil_bound(a: nat, b: nat)
    requires
        b > 0,
    ensures
        div_ceil(a, b) <= a,
{
    assert(a / b <= a && (a % b != 0 ==> a / b < a)) by (nonlinear_arith)
        requires
            b > 0,
    {
        if b == 1 {
            assert(a % 1 == 0);
        }
        assert(a / b <= a);
        assert(b >= 2 ==> a / b <= a / 2);
    }
}

/// Quotient, rounded up.
pub fn ceil_div(a: u64, b: u64) -> (q: u64)
    requires
        b > 0,
    ensures
        q == div_ceil(a as nat, b as nat),
        q <= a,
{
    proof {
        lemma_div_ceil_bound(a as nat, b as nat);
    }
    if a % b == 0 {
        a / b
    } else {
        a / b + 1
    }
}

/// The length of a symbol when a packet may carry `mtu` bytes: a multiple of eight, unless that
/// is few.
pub open spec fn symbol_size(mtu: u16) -> nat {
    (if mtu >= 64 {
        mtu - mtu % 8
    } else {
        mtu as int
    }) as nat
}

/// How many symbols an object of `len` bytes takes.
pub open spec fn object_symbols(len: nat, mtu: u16) -> nat {
    div_ceil(len, symbol_size(mtu))
}

/// Into how many blocks an object of `len` bytes is cut.
pub open spec fn object_blocks(len: nat, mtu: u16) -> nat {
    div_ceil(object_symbols(len, mtu), MAX_BLOCK_SYMBOLS as nat)
}

/// Whether an object of `len` bytes can be cut up: it is not empty, and its blocks can be counted
/// by a byte.
pub open spec fn divisible(len: nat, mtu: u16) -> bool {
    &&& len > 0
    &&& mtu > 0
    &&& object_blocks(len, mtu) <= 255
}

/// Whether an object of `len` bytes can be coded: it can be cut up, and the symbols of a block and
/// its repair symbols have identifiers.
pub open spec fn encodable(len: nat, mtu: u16, repair: u32) -> bool {
    &&& divisible(len, mtu)
    &&& div_ceil(object_symbols(len, mtu), object_blocks(len, mtu)) + repair <= MAX_SYMBOL_IDS
}

/// The number of sub-blocks that `raptorq::Encoder::with_defaults` chooses for an object.
pub uninterp spec fn sub_block_count(len: nat, mtu: u16) -> u16;

/// The packets that `raptorq::Encoder::get_encoded_packets` makes of an object, in wire form.
pub uninterp spec fn encoded_packets(data: Seq<u8>, mtu: u16, repair: u32) -> Seq<Seq<u8>>;

/// The parameters of an object.
pub open spec fn object_info(len: nat, mtu: u16) -> ObjectTransmissionInformation {
    ObjectTransmissionInformation {
        transfer_length: len as u64,
        symbol_size: symbol_size(mtu) as u16,
        source_blocks: object_blocks(len, mtu) as u8,
        sub_blocks: sub_block_count(len, mtu),
        symbol_alignment: if mtu >= 64 {
            8
        } else {
            1
        },
    }
}

/// The bytes of each packet.
pub open spec fn packet_views(packets: Seq<Vec<u8>>) -> Seq<Seq<u8>> {
    packets.map_values(|p: Vec<u8>| p@)
}

/// Every packet is one of these.
pub open spec fn all_among(packets: Seq<Seq<u8>>, these: Seq<Seq<u8>>) -> bool {
    forall|i: int| 0 <= i < packets.len() ==> these.contains(#[trigger] packets[i])
}

/// `raptorq::Encoder`: an object, cut up for coding.
#[verifier::external_type_specification]
#[verifier::external_body]
pub struct ExEncoder(Encoder);

/// The object that an encoder was made for.
pub uninterp spec fn encoder_object(encoder: Encoder) -> Seq<u8>;

/// The packet size that an encoder was made for.
pub uninterp spec fn encoder_mtu(encoder: Encoder) -> u16;

/// `raptorq::Encoder::with_defaults`: an encoder for an object and a packet size. It panics where
/// the object cannot be cut up.
#[verifier::external_body]
fn new_encoder(data: &[u8], mtu: u16) -> (encoder: Encoder)
    requires
        divisible(data@.len(), mtu),
    ensures
        encoder_object(encoder) == data@,
        encoder_mtu(encoder) == mtu,
{
    Encoder::with_defaults(data, mtu)
}

/// `raptorq::Encoder::get_config`, in the wire form of
/// `raptorq::ObjectTransmissionInformation::serialize`. The parameters follow from the length of
/// the object and the packet size; how many sub-blocks there are, at least one, is only named.
#[verifier::external_body]
fn encoder_info(encoder: &Encoder) -> (info: [u8; 12])
    requires
        divisible(encoder_object(*encoder).len(), encoder_mtu(*encoder)),
    ensures
        info@ == object_info(encoder_object(*encoder).len(), encoder_mtu(*encoder)).encoded(),
        ObjectTransmissionInformation::decoded(info@).sub_blocks == sub_block_count(
            encoder_object(*encoder).len(),
            encoder_mtu(*encoder),
        ),
        ObjectTransmissionInformation::decoded(info@).sub_blocks >= 1,
{
    encoder.get_config().serialize()
}

/// `raptorq::Encoder::get_encoded_packets`, each in the wire form of
/// `raptorq::EncodingPacket::serialize`. What the packets hold is only named. There is a packet for
/// each symbol of the object and `repair` more for each block; each is an identifier, the first
/// byte of which is the number of its block, and a symbol. The packets of the object's own symbols,
/// which are all that there are without repair, are among them however many repair packets there
/// are. The outside function panics where the symbols of a block are more than its identifiers.
#[verifier::external_body]
fn encoder_packets(encoder: &Encoder, repair: u32) -> (packets: Vec<Vec<u8>>)
    requires
        encodable(encoder_object(*encoder).len(), encoder_mtu(*encoder), repair),
    ensures
        packet_views(packets@) == encoded_packets(
            encoder_object(*encoder),
            encoder_mtu(*encoder),
            repair,
        ),
        packets@.len() == object_symbols(encoder_object(*encoder).len(), encoder_mtu(*encoder))
            + object_blocks(encoder_object(*encoder).len(), encoder_mtu(*encoder)) * repair,
        forall|i: int|
            0 <= i < packets@.len() ==> (#[trigger] packets@[i])@.len() == PACKET_ID_LEN
                + symbol_size(encoder_mtu(*encoder)) && packets@[i]@[0] < object_blocks(
                encoder_object(*encoder).len(),
                encoder_mtu(*encoder),
            ),
        all_among(
            encoded_packets(encoder_object(*encoder), encoder_mtu(*encoder), 0),
            packet_views(packets@),
        ),
{
    encoder.get_encoded_packets(repair).iter().map(|p| p.serialize()).collect()
}

/// Codes an object: its parameters in wire form, and its packets. There is a packet for each
/// symbol of the object and `repair` more for each block. The packets that there are without repair
/// are among them.
pub(crate) fn encode_object(data: &[u8], mtu: u16, repair: u32) -> (coded: (
    [u8; 12],
    Vec<Vec<u8>>,
))
    requires
        encodable(data@.len(), mtu, repair),
    ensures
        coded.0@ == object_info(data@.len(), mtu).encoded(),
        ObjectTransmissionInformation::decoded(coded.0@).sub_blocks >= 1,
        packet_views(coded.1@) == encoded_packets(data@, mtu, repair),
        coded.1@.len() == object_symbols(data@.len(), mtu) + object_blocks(data@.len(), mtu)
            * repair,
        forall|i: int|
            0 <= i < coded.1@.len() ==> (#[trigger] coded.1@[i])@.len() == PACKET_ID_LEN
                + symbol_size(mtu) && coded.1@[i]@[0] < object_blocks(data@.len(), mtu),
        all_among(encoded_packets(data@, mtu, 0), packet_views(coded.1@)),
{
    let encoder = new_encoder(data, mtu);
    let info = encoder_info(&encoder);
    let packets = encoder_packets(&encoder, repair);
    (info, packets)
}

/// `raptorq::Decoder`: it gathers the packets of one object.
#[verifier::external_type_specification]
#[verifier::external_body]
pub struct ExDecoder(Decoder);

/// The parameters that a decoder was made with, in wire form.
pub uninterp spec fn decoder_info(decoder: Decoder) -> Seq<u8>;

/// The packets that a decoder was given, in order.
pub uninterp spec fn decoder_packets(decoder: Decoder) -> Seq<Seq<u8>>;

/// What `raptorq::Decoder::decode` returns with the last of these packets, when it was made with
/// these parameters and given these packets in this order.
pub uninterp spec fn decoded_object(info: Seq<u8>, packets: Seq<Seq<u8>>) -> Option<Seq<u8>>;

/// Whether a decoder can be made with these parameters: symbols and blocks there are.
pub open spec fn can_start(info: ObjectTransmissionInformation) -> bool {
    info.symbol_size != 0 && info.source_blocks != 0
}

/// The most symbols that a block of an object with these parameters has. A decoder counts the
/// symbols of an object in 32 bits.
pub open spec fn block_symbols(info: ObjectTransmissionInformation) -> nat {
    div_ceil(
        div_ceil(info.transfer_length as nat, info.symbol_size as nat) % 0x1_0000_0000,
        info.source_blocks as nat,
    )
}

/// Whether a decoder with these parameters can take a packet: the blocks are not too large,
/// there are sub-blocks, symbols are aligned, and the packet is a symbol of a block that there is.
pub open spec fn can_take(info: ObjectTransmissionInformation, packet: Seq<u8>) -> bool {
    &&& can_start(info)
    &&& block_symbols(info) <= MAX_BLOCK_SYMBOLS
    &&& info.sub_blocks != 0
    &&& info.symbol_alignment != 0
    &&& packet.len() == PACKET_ID_LEN + info.symbol_size
    &&& packet[0] < info.source_blocks
}

/// `raptorq::Decoder::new`, of parameters in wire form, which
/// `raptorq::ObjectTransmissionInformation::deserialize` reads. It panics where there are no
/// symbols or no blocks.
#[verifier::external_body]
pub(crate) fn new_decoder(info: &[u8; 12]) -> (decoder: Decoder)
    requires
        can_start(ObjectTransmissionInformation::decoded(info@)),
    ensures
        decoder_info(decoder) == info@,
        decoder_packets(decoder) == Seq::<Seq<u8>>::empty(),
{
    Decoder::new(raptorq::ObjectTransmissionInformation::deserialize(info))
}

/// `raptorq::Decoder::decode`, of a packet that `raptorq::EncodingPacket::deserialize` reads. What
/// comes back depends on the parameters and the packets given so far. Where all of these are
/// packets of one object, nothing else than that object comes back, and it does come back once
/// the packets of all its own symbols were given, those that there are without repair. Which repair
/// packets make up for which of these depends on the code, and is left open. The outside function
/// panics on a packet that it cannot take.
#[verifier::external_body]
pub(crate) fn decode_packet(decoder: &mut Decoder, packet: &[u8]) -> (object: Option<Vec<u8>>)
    requires
        can_take(ObjectTransmissionInformation::decoded(decoder_info(*old(decoder))), packet@),
    ensures
        decoder_info(*final(decoder)) == decoder_info(*old(decoder)),
        decoder_packets(*final(decoder)) == decoder_packets(*old(decoder)).push(packet@),
        object is Some <==> decoded_object(
            decoder_info(*final(decoder)),
            decoder_packets(*final(decoder)),
        ) is Some,
        object matches Some(bytes) ==> decoded_object(
            decoder_info(*final(decoder)),
            decoder_packets(*final(decoder)),
        ) == Some(bytes@),
        forall|data: Seq<u8>, mtu: u16, repair: u32|
            encodable(data.len(), mtu, repair) && decoder_info(*final(decoder)) == object_info(
                data.len(),
                mtu,
            ).encoded() && all_among(
                decoder_packets(*final(decoder)),
                #[trigger] encoded_packets(data, mtu, repair),
            ) ==> {
                &&& object matches Some(bytes) ==> bytes@ == data
                &&& all_among(
                    encoded_packets(data, mtu, 0),
                    decoder_packets(*final(decoder)),
                ) ==> object is Some
            },
{
    decoder.decode(EncodingPacket::deserialize(packet))
}

/// A quotient that is rounded up is the least number that gives back at least what was divided.
pub proof fn law_div_ceil_is_least(a: nat, b: nat)
    requires
        b > 0,
    ensures
        div_ceil(a, b) * b >= a,
        a > 0 ==> (div_ceil(a, b) - 1) * b < a,
        a == 0 ==> div_ceil(a, b) == 0,
{
    vstd::arithmetic::div_mod::lemma_fundamental_div_mod(a as int, b as int);
    let q = a / b;
    let r = a % b;
    assert(b * q == q * b) by (nonlinear_arith);
    assert((q + 1) * b == q * b + b) by (nonlinear_arith);
    assert((q - 1) * b == q * b - b) by (nonlinear_arith);
}

/// A symbol is as long as a packet may be, but that from 64 bytes on it is rounded down to a multiple
/// of eight.
pub proof fn law_symbol_size_is_aligned(mtu: u16)
    ensures
        mtu < 64 ==> symbol_size(mtu) == mtu,
        mtu >= 64 ==> symbol_size(mtu) % 8 == 0 && symbol_size(mtu) <= mtu < symbol_size(mtu) + 8,
{
}

} // verus!
