//! The wire envelope: every datagram of the protocol is one `WirePacket`.

use crate::codec;
use crate::error;
use crate::error::Error;
use vstd::prelude::*;

verus! {

/// The four bytes every packet starts with: `VLYX`.
pub const PROTOCOL_MAGIC: [u8; 4] = [0x56, 0x4c, 0x59, 0x58];

/// The version of the wire format.
pub const PROTOCOL_VERSION: u8 = 1;

/// The length of a packet's header: magic, version, type, flags, session, sequence, length.
pub const HEADER_LEN: usize = 28;

/// What a packet carries.
#[derive(Debug, Clone, Copy, PartialEq, Eq, Structural)]
pub enum PacketType {
    Handshake1,
    Handshake2,
    Handshake3,
    Data,
    Ack,
    Control,
    Keepalive,
    ErrorPacket,
}

impl PacketType {
    /// The byte that stands for the type on the wire.
    pub open spec fn spec_code(self) -> u8 {
        match self {
            PacketType::Handshake1 => 1,
            PacketType::Handshake2 => 2,
            PacketType::Handshake3 => 3,
            PacketType::Data => 16,
            PacketType::Ack => 17,
            PacketType::Control => 18,
            PacketType::Keepalive => 19,
            PacketType::ErrorPacket => 255,
        }
    }

    /// The byte that stands for the type on the wire.
    pub fn code(self) -> (code: u8)
        ensures
            code == self.spec_code(),
    {
        match self {
            PacketType::Handshake1 => 1,
            PacketType::Handshake2 => 2,
            PacketType::Handshake3 => 3,
            PacketType::Data => 16,
            PacketType::Ack => 17,
            PacketType::Control => 18,
            PacketType::Keepalive => 19,
            PacketType::ErrorPacket => 255,
        }
    }

    /// The packet type that a byte stands for, if it stands for one.
    pub open spec fn of_code(value: u8) -> Result<PacketType, Error> {
        if value == 1 {
            Ok(PacketType::Handshake1)
        } else if value == 2 {
            Ok(PacketType::Handshake2)
        } else if value == 3 {
            Ok(PacketType::Handshake3)
        } else if value == 16 {
            Ok(PacketType::Data)
        } else if value == 17 {
            Ok(PacketType::Ack)
        } else if value == 18 {
            Ok(PacketType::Control)
        } else if value == 19 {
            Ok(PacketType::Keepalive)
        } else if value == 255 {
            Ok(PacketType::ErrorPacket)
        } else {
            Err(Error::UnknownPacketType { value })
        }
    }
}

impl TryFrom<u8> for PacketType {
    type Error = Error;

    fn try_from(value: u8) -> (r: Result<Self, Error>) {
        match value {
            1 => Ok(PacketType::Handshake1),
            2 => Ok(PacketType::Handshake2),
            3 => Ok(PacketType::Handshake3),
            16 => Ok(PacketType::Data),
            17 => Ok(PacketType::Ack),
            18 => Ok(PacketType::Control),
            19 => Ok(PacketType::Keepalive),
            255 => Ok(PacketType::ErrorPacket),
            _ => Err(Error::UnknownPacketType { value }),
        }
    }
}

impl vstd::std_specs::convert::TryFromSpecImpl<u8> for PacketType {
    open spec fn obeys_try_from_spec() -> bool {
        true
    }

    open spec fn try_from_spec(value: u8) -> Result<Self, Error> {
        PacketType::of_code(value)
    }
}

/// One datagram: a fixed header and an opaque payload.
#[derive(Debug, Clone, PartialEq, Eq)]
pub struct WirePacket {
    pub version: u8,
    pub packet_type: PacketType,
    pub flags: u16,
    pub session_id: u64,
    pub seq: u64,
    pub payload: Vec<u8>,
}

/// A packet as a mathematical value.
pub struct WirePacketView {
    pub version: u8,
    pub packet_type: PacketType,
    pub flags: u16,
    pub session_id: u64,
    pub seq: u64,
    pub payload: Seq<u8>,
}

impl View for WirePacket {
    type V = WirePacketView;

    open spec fn view(&self) -> WirePacketView {
        WirePacketView {
            version: self.version,
            packet_type: self.packet_type,
            flags: self.flags,
            session_id: self.session_id,
            seq: self.seq,
            payload: self.payload@,
        }
    }
}

impl WirePacketView {
    /// The header of the packet.
    pub open spec fn header(self) -> Seq<u8> {
        PROTOCOL_MAGIC@ + seq![self.version, self.packet_type.spec_code()] + codec::be_bytes(
            self.flags as nat,
            2,
        ) + codec::be_bytes(self.session_id as nat, 8) + codec::be_bytes(self.seq as nat, 8)
            + codec::be_bytes(self.payload.len(), 4)
    }

    /// The packet on the wire: its header, then its payload.
    pub open spec fn encoded(self) -> Seq<u8> {
        self.header() + self.payload
    }

    /// What a datagram means: the packet it holds, or the first thing wrong with it.
    pub open spec fn decoded(input: Seq<u8>) -> Result<WirePacketView, Error> {
        if input.len() < HEADER_LEN {
            Err(Error::PacketTooShort { len: input.len() as usize })
        } else if input.subrange(0, 4) != PROTOCOL_MAGIC@ {
            Err(Error::InvalidMagic)
        } else {
            match PacketType::of_code(input[5]) {
                Err(e) => Err(e),
                Ok(packet_type) => {
                    let declared = codec::be_field(input, 24, 4);
                    if input.len() - HEADER_LEN != declared {
                        Err(
                            Error::InvalidPacketLength {
                                declared: declared as usize,
                                actual: (input.len() - HEADER_LEN) as usize,
                            },
                        )
                    } else {
                        Ok(
                            WirePacketView {
                                version: input[4],
                                packet_type,
                                flags: codec::be_field(input, 6, 2) as u16,
                                session_id: codec::be_field(input, 8, 8) as u64,
                                seq: codec::be_field(input, 16, 8) as u64,
                                payload: input.subrange(HEADER_LEN as int, input.len() as int),
                            },
                        )
                    }
                },
            }
        }
    }
}

impl WirePacket {
    /// The bytes of the packet. Refused when the payload is longer than its length field
    /// can say.
    pub fn encode(&self) -> (r: Result<Vec<u8>, Error>)
        ensures
            error::viewed(r) == (if self.payload@.len() <= u32::MAX {
                Ok(self@.encoded())
            } else {
                Err(Error::PayloadTooLarge { len: self.payload@.len() as usize })
            }),
    {
        if self.payload.len() as u64 > u32::MAX as u64 {
            return Err(Error::PayloadTooLarge { len: self.payload.len() });
        }
        let mut out: Vec<u8> = Vec::new();
        codec::push_bytes(&mut out, &PROTOCOL_MAGIC);
        out.push(self.version);
        out.push(self.packet_type.code());
        codec::push_be(&mut out, self.flags as u64, 2);
        codec::push_be(&mut out, self.session_id, 8);
        codec::push_be(&mut out, self.seq, 8);
        codec::push_be(&mut out, self.payload.len() as u64, 4);
        assert(out@ =~= self@.header());
        codec::push_bytes(&mut out, self.payload.as_slice());
        Ok(out)
    }

    /// The packet that `buf` holds, whole and with nothing left over.
    pub fn decode(buf: &[u8]) -> (r: Result<Self, Error>)
        ensures
            error::viewed(r) == WirePacketView::decoded(buf@),
    {
        let len: usize = buf.len();
        if len < HEADER_LEN {
            return Err(Error::PacketTooShort { len });
        }
        let ghost magic = buf@.subrange(0, 4);
        if buf[0] != PROTOCOL_MAGIC[0] || buf[1] != PROTOCOL_MAGIC[1] || buf[2] != PROTOCOL_MAGIC[2]
            || buf[3] != PROTOCOL_MAGIC[3] {
            assert(magic[0] == buf@[0] && magic[1] == buf@[1] && magic[2] == buf@[2] && magic[3]
                == buf@[3]);
            return Err(Error::InvalidMagic);
        }
        assert(magic =~= PROTOCOL_MAGIC@);
        let version = buf[4];
        let packet_type = match PacketType::try_from(buf[5]) {
            Ok(packet_type) => packet_type,
            Err(e) => return Err(e),
        };
        let flags = codec::read_u16(buf, 6);
        let session_id = codec::read_u64(buf, 8);
        let seq = codec::read_u64(buf, 16);
        let declared: usize = codec::read_u32(buf, 24) as usize;
        if len - HEADER_LEN != declared {
            return Err(Error::InvalidPacketLength { declared, actual: len - HEADER_LEN });
        }
        let payload = codec::copy_range(buf, HEADER_LEN, len);
        Ok(WirePacket { version, packet_type, flags, session_id, seq, payload })
    }
}

/// Every packet that can be encoded is read back as itself.
pub proof fn law_packet_roundtrip(packet: WirePacketView)
    requires
        packet.payload.len() <= u32::MAX,
    ensures
        WirePacketView::decoded(packet.encoded()) == Ok::<WirePacketView, Error>(packet),
{
    let wire = packet.encoded();
    codec::lemma_be_u16(packet.flags);
    codec::lemma_be_u64(packet.session_id);
    codec::lemma_be_u64(packet.seq);
    codec::lemma_be_u32(packet.payload.len() as u32);
    assert(wire.subrange(0, 4) =~= PROTOCOL_MAGIC@);
    assert(wire[4] == packet.version);
    assert(wire[5] == packet.packet_type.spec_code());
    assert(wire.subrange(6, 8) =~= codec::be_bytes(packet.flags as nat, 2));
    assert(wire.subrange(8, 16) =~= codec::be_bytes(packet.session_id as nat, 8));
    assert(wire.subrange(16, 24) =~= codec::be_bytes(packet.seq as nat, 8));
    assert(wire.subrange(24, 28) =~= codec::be_bytes(packet.payload.len(), 4));
    assert(wire.subrange(HEADER_LEN as int, wire.len() as int) =~= packet.payload);
}

/// The wire format is canonical: a datagram that is accepted is the encoding of the packet
/// it is read as, so no two datagrams mean the same packet.
pub proof fn law_packet_canonical(input: Seq<u8>)
    ensures
        WirePacketView::decoded(input) matches Ok(packet) ==> packet.encoded() == input
            && packet.payload.len() <= u32::MAX,
{
    if let Ok(packet) = WirePacketView::decoded(input) {
        codec::lemma_be_field(input, 6, 2);
        codec::lemma_be_field(input, 8, 8);
        codec::lemma_be_field(input, 16, 8);
        codec::lemma_be_field(input, 24, 4);
        codec::lemma_width_bounds();
        assert(packet.encoded() =~= input.subrange(0, 4) + seq![input[4], input[5]]
            + input.subrange(6, 8) + input.subrange(8, 16) + input.subrange(16, 24)
            + input.subrange(24, 28) + input.subrange(28, input.len() as int));
        assert(packet.encoded() =~= input);
    }
}

} // verus!
