//! The sender of a coded object.

use crate::codec;
use crate::control;
use crate::control::chunk_control_message;
use crate::error::Error;
use crate::stream::command::{StreamCommand, StreamCommandView};
use crate::stream::info;
use crate::stream::info::ObjectTransmissionInformation;
use crate::stream::raptor;
use crate::stream::raptor::{ceil_div, encode_object};
use crate::vwp::{VwpFrame, VwpFrameType, VwpFrameView, VWP_STREAM_ID_LEN};
use vstd::prelude::*;

verus! {

/// Hands out the packets of a coded object, one frame at a time, over and over.
pub struct StreamSender {
    packets: Vec<Vec<u8>>,
    next_packet: usize,
    next_seq: u32,
    stream_start: StreamCommand,
    stream_id: [u8; VWP_STREAM_ID_LEN],
}

/// A sender as the contracts see it.
#[verifier::ext_equal]
pub struct SenderView {
    pub packets: Seq<Seq<u8>>,
    pub next_packet: int,
    pub next_seq: u32,
    pub stream_start: StreamCommandView,
    pub stream_id: Seq<u8>,
}

impl View for StreamSender {
    type V = SenderView;

    closed spec fn view(&self) -> SenderView {
        SenderView {
            packets: raptor::packet_views(self.packets@),
            next_packet: self.next_packet as int,
            next_seq: self.next_seq,
            stream_start: self.stream_start@,
            stream_id: self.stream_id@,
        }
    }
}

impl SenderView {
    /// There is a next packet, and the command that tells a receiver to start is one that does.
    pub open spec fn wf(self) -> bool {
        &&& 0 <= self.next_packet < self.packets.len() <= usize::MAX
        &&& self.stream_start is StreamStart
    }

    /// The next data frame.
    pub open spec fn frame(self) -> VwpFrameView {
        VwpFrameView {
            frame_type: VwpFrameType::Data,
            seq: self.next_seq,
            stream_id: self.stream_id,
            payload: self.packets[self.next_packet],
        }
    }

    /// The sender once it handed out a frame: the packets go round, and the sequence numbers
    /// count up and wrap.
    pub open spec fn after_frame(self) -> SenderView {
        SenderView {
            next_packet: (self.next_packet + 1) % (self.packets.len() as int),
            next_seq: ((self.next_seq + 1) % 0x1_0000_0000) as u32,
            ..self
        }
    }

    /// The sender once it handed out `n` frames.
    pub open spec fn after_frames(self, n: nat) -> SenderView
        decreases n,
    {
        if n == 0 {
            self
        } else {
            self.after_frames((n - 1) as nat).after_frame()
        }
    }
}

/// Whether an object of `len` bytes can be coded for packets of `mtu` bytes with `repair` more
/// packets for each block.
pub fn can_encode(len: usize, mtu: u16, repair: u32) -> (can: bool)
    ensures
        can == raptor::encodable(len as nat, mtu, repair),
{
    if len == 0 || mtu == 0 {
        return false;
    }
    let size: u64 = if mtu >= 64 {
        (mtu - mtu % 8) as u64
    } else {
        mtu as u64
    };
    let symbols: u64 = ceil_div(len as u64, size);
    let blocks: u64 = ceil_div(symbols, raptor::MAX_BLOCK_SYMBOLS as u64);
    if blocks > 255 {
        return false;
    }
    assert(symbols > 0) by {
        vstd::arithmetic::div_mod::lemma_fundamental_div_mod(len as int, size as int);
        assert(size * (len as int / size as int) > 0 ==> len as int / size as int > 0)
            by (nonlinear_arith)
            requires
                len as int / size as int >= 0,
        ;
    }
    let largest: u64 = ceil_div(symbols, blocks);
    largest + repair as u64 <= raptor::MAX_SYMBOL_IDS as u64
}

/// The blocks of an object that can be coded are not too large, and its length fits 40 bits.
pub(crate) proof fn lemma_object_bounds(len: nat, mtu: u16, repair: u32)
    requires
        raptor::encodable(len, mtu, repair),
    ensures
        0 < raptor::object_symbols(len, mtu) <= 255 * 56403,
        raptor::object_blocks(len, mtu) > 0,
        raptor::div_ceil(raptor::object_symbols(len, mtu), raptor::object_blocks(len, mtu))
            <= 56403,
        len < 0x100_0000_0000,
        0 < raptor::symbol_size(mtu) <= 65535,
{
    let t = raptor::symbol_size(mtu);
    let k = raptor::object_symbols(len, mtu);
    let z = raptor::object_blocks(len, mtu);
    vstd::arithmetic::div_mod::lemma_fundamental_div_mod(len as int, t as int);
    vstd::arithmetic::div_mod::lemma_fundamental_div_mod(k as int, 56403);
    assert(len <= t * k) by (nonlinear_arith)
        requires
            t > 0,
            len == t * (len / t) + len % t,
            len % t < t,
            k == (if len % t == 0 {
                len / t
            } else {
                (len / t + 1) as nat
            }),
    ;
    assert(k > 0) by (nonlinear_arith)
        requires
            len > 0,
            len <= t * k,
    ;
    assert(k <= 56403 * z);
    assert(t * k <= 65535 * (255 * 56403)) by (nonlinear_arith)
        requires
            t <= 65535,
            k <= 255 * 56403,
    ;
    vstd::arithmetic::div_mod::lemma_fundamental_div_mod(k as int, z as int);
    assert(raptor::div_ceil(k, z) <= 56403) by (nonlinear_arith)
        requires
            z > 0,
            k <= 56403 * z,
            k == z * (k / z) + k % z,
            k % z < z,
            raptor::div_ceil(k, z) == (if k % z == 0 {
                k / z
            } else {
                (k / z + 1) as nat
            }),
    ;
}

impl StreamSender {
    /// Codes an object for packets of `mtu` bytes, with `repair_packets_per_block` more packets
    /// for each block than are needed without loss. The object comes apart into the packets of
    /// the fountain code, and a receiver that is told to start can take each of them. The packets
    /// that there are without repair are among them.
    pub fn new(
        stream_id: [u8; VWP_STREAM_ID_LEN],
        data: &[u8],
        mtu: u16,
        initial_data_seq: u32,
        repair_packets_per_block: u32,
    ) -> (r: Result<Self, Error>)
        requires
            raptor::encodable(data@.len(), mtu, repair_packets_per_block),
        ensures
            r matches Ok(sender) && sender@ == (SenderView {
                packets: raptor::encoded_packets(data@, mtu, repair_packets_per_block),
                next_packet: 0,
                next_seq: initial_data_seq,
                stream_start: StreamCommandView::StreamStart(
                    raptor::object_info(data@.len(), mtu),
                ),
                stream_id: stream_id@,
            }) && sender@.wf() && forall|i: int|
                0 <= i < sender@.packets.len() ==> raptor::can_take(
                    raptor::object_info(data@.len(), mtu),
                    #[trigger] sender@.packets[i],
                ),
            raptor::all_among(
                raptor::encoded_packets(data@, mtu, 0),
                raptor::encoded_packets(data@, mtu, repair_packets_per_block),
            ),
    {
        let (start, packets) = encode_object(data, mtu, repair_packets_per_block);
        let ghost config = raptor::object_info(data@.len(), mtu);
        proof {
            lemma_object_bounds(data@.len(), mtu, repair_packets_per_block);
            info::law_info_roundtrip(config);
            assert(start@.subrange(0, 12) =~= start@);
            assert(raptor::packet_views(packets@).len() == packets@.len());
            assert(raptor::object_blocks(data@.len(), mtu) * repair_packets_per_block >= 0)
                by (nonlinear_arith);
            assert(raptor::can_start(config));
            assert(raptor::block_symbols(config) <= 56403);
        }
        if packets.len() == 0 {
            return Err(Error::NoPackets);
        }
        let config = ObjectTransmissionInformation::read_at(&start, 0);
        let sender = StreamSender {
            packets,
            next_packet: 0,
            next_seq: initial_data_seq,
            stream_start: StreamCommand::StreamStart(config),
            stream_id,
        };
        assert forall|i: int| 0 <= i < sender@.packets.len() implies raptor::can_take(
            config,
            #[trigger] sender@.packets[i],
        ) by {
            assert(packets@[i]@ == sender@.packets[i]);
        }
        Ok(sender)
    }

    /// The command that tells a receiver to start.
    pub fn stream_start(&self) -> (command: &StreamCommand)
        ensures
            command@ == self@.stream_start,
    {
        &self.stream_start
    }

    /// The frames of the control message that tells a receiver to start: there is just one.
    pub fn stream_start_frames(&self, message_id: u32, start_seq: u32) -> (r: Result<
        Vec<VwpFrame>,
        Error,
    >)
        requires
            self@.wf(),
        ensures
            r matches Ok(frames) && frames@.len() == 1 && frames@[0]@ == control::chunk_frame(
                self@.stream_id,
                message_id,
                start_seq,
                self@.stream_start.encoded(),
                0,
            ),
    {
        let payload = self.stream_start.encode();
        proof {
            if let StreamCommandView::StreamStart(config) = self@.stream_start {
                info::lemma_info_len(config);
            }
            assert(payload@.len() == 13);
        }
        chunk_control_message(self.stream_id, message_id, start_seq, payload.as_slice())
    }

    /// The next data frame. After the last packet the first one comes again.
    pub fn next_data_frame(&mut self) -> (frame: VwpFrame)
        requires
            old(self)@.wf(),
        ensures
            final(self)@.wf(),
            final(self)@ == old(self)@.after_frame(),
            frame@ == old(self)@.frame(),
    {
        let packet = &self.packets[self.next_packet];
        assert(packet@ == self@.packets[self@.next_packet]);
        let payload = codec::copy_range(packet.as_slice(), 0, packet.len());
        assert(payload@ =~= packet@);
        let seq = self.next_seq;
        self.next_packet = (self.next_packet + 1) % self.packets.len();
        self.next_seq = self.next_seq.wrapping_add(1);
        VwpFrame { frame_type: VwpFrameType::Data, seq, stream_id: self.stream_id, payload }
    }
}

/// After some frames a sender stands at the packet that many places further on, round and round,
/// with the same packets.
pub proof fn lemma_after_frames(sender: SenderView, n: nat)
    requires
        sender.wf(),
    ensures
        sender.after_frames(n).wf(),
        sender.after_frames(n).packets == sender.packets,
        sender.after_frames(n).next_packet == (sender.next_packet + n) % (
        sender.packets.len() as int),
    decreases n,
{
    let len = sender.packets.len() as int;
    if n == 0 {
        vstd::arithmetic::div_mod::lemma_small_mod(sender.next_packet as nat, len as nat);
    } else {
        let m = (n - 1) as nat;
        lemma_after_frames(sender, m);
        vstd::arithmetic::div_mod::lemma_add_mod_noop(sender.next_packet + m, 1, len);
        vstd::arithmetic::div_mod::lemma_add_mod_noop(
            (sender.next_packet + m) % len,
            1,
            len,
        );
        vstd::arithmetic::div_mod::lemma_mod_twice(sender.next_packet + m, len);
    }
}

/// In as many frames as there are packets a sender hands out every packet, wherever it stands.
pub proof fn law_a_lap_hands_out_every_packet(sender: SenderView, packet: int) -> (n: nat)
    requires
        sender.wf(),
        0 <= packet < sender.packets.len(),
    ensures
        n < sender.packets.len(),
        sender.after_frames(n).frame().payload == sender.packets[packet],
{
    let len = sender.packets.len() as int;
    let n = if packet >= sender.next_packet {
        (packet - sender.next_packet) as nat
    } else {
        (packet + len - sender.next_packet) as nat
    };
    lemma_after_frames(sender, n);
    if packet >= sender.next_packet {
        vstd::arithmetic::div_mod::lemma_small_mod(packet as nat, len as nat);
    } else {
        vstd::arithmetic::div_mod::lemma_mod_add_multiples_vanish(packet, len);
        vstd::arithmetic::div_mod::lemma_small_mod(packet as nat, len as nat);
    }
    n
}

/// Frame after frame a sender hands out its packets in their order, over and over, each in a data
/// frame of its stream; the sequence numbers count up by one and start again at zero after the
/// last; and neither its packets nor its start command change.
pub proof fn law_frames_go_round(sender: SenderView, n: nat)
    requires
        sender.wf(),
    ensures
        ({
            let later = sender.after_frames(n);
            let frame = later.frame();
            &&& frame.frame_type == VwpFrameType::Data
            &&& frame.stream_id == sender.stream_id
            &&& frame.seq == (sender.next_seq + n) % 0x1_0000_0000
            &&& frame.payload == sender.packets[(sender.next_packet + n)
                % sender.packets.len() as int]
            &&& later.packets == sender.packets
            &&& later.stream_start == sender.stream_start
            &&& later.stream_id == sender.stream_id
        }),
    decreases n,
{
    lemma_after_frames(sender, n);
    if n > 0 {
        let m = (n - 1) as nat;
        law_frames_go_round(sender, m);
        vstd::arithmetic::div_mod::lemma_add_mod_noop(sender.next_seq + m, 1, 0x1_0000_0000);
    }
}

} // verus!
