//! From what a routing table asks for to what travels: commands, lookups that refresh a bucket,
//! and sealed control messages.

use crate::assembler;
use crate::assembler::Slots;
use crate::control;
use crate::control::{chunk_control_message, ControlChunkView};
use crate::dht::id;
use crate::dht::{NodeId, RoutingAction, RoutingTable};
use crate::error;
use crate::error::Error;
use crate::noise;
use crate::session;
use crate::session::seal_packet;
use crate::stream::command;
use crate::stream::command::{StreamCommand, StreamCommandView};
use crate::vwp::{VwpFrame, VwpFrameView, VWP_MAX_PAYLOAD, VWP_STREAM_ID_LEN};
use crate::wire::PacketType;
use snow::TransportState;
use vstd::prelude::*;

verus! {

/// A command to be sent on behalf of a routing table, and the node to send it to, if it is for
/// one node.
#[derive(Debug, Clone)]
pub struct ExecutedDhtAction {
    pub route_to: Option<NodeId>,
    pub command: StreamCommand,
}

/// The command for an action of the routing table: a ping goes to its node, a lookup to whoever
/// is asked.
pub fn execute_dht_action(action: RoutingAction, local_id: NodeId) -> (executed: Option<
    ExecutedDhtAction,
>)
    ensures
        executed == Some(
            match action {
                RoutingAction::Ping(target_id) => ExecutedDhtAction {
                    route_to: Some(target_id),
                    command: StreamCommand::Ping { sender_id: local_id },
                },
                RoutingAction::Lookup(target_id) => ExecutedDhtAction {
                    route_to: None,
                    command: StreamCommand::FindNode { target_id },
                },
            },
        ),
{
    match action {
        RoutingAction::Ping(target_id) => Some(
            ExecutedDhtAction {
                route_to: Some(target_id),
                command: StreamCommand::Ping { sender_id: local_id },
            },
        ),
        RoutingAction::Lookup(target_id) => Some(
            ExecutedDhtAction { route_to: None, command: StreamCommand::FindNode { target_id } },
        ),
    }
}

/// Bit `i` of 32 bytes, counted from the least significant.
pub open spec fn bit_lsb(bytes: Seq<u8>, i: int) -> bool {
    bytes[31 - i / 8] & (1u8 << ((i % 8) as u8)) != 0
}

/// The state of the generator after `state`.
pub open spec fn scrambled(state: u64) -> u64 {
    let a = state ^ (state << 13);
    let b = a ^ (a >> 7);
    b ^ (b << 17)
}

/// The state of the generator after `n` steps from some entropy.
pub open spec fn probe_state(entropy: u64, n: nat) -> u64
    decreases n,
{
    if n == 0 {
        entropy ^ 0x9E37_79B9_7F4A_7C15u64
    } else {
        scrambled(probe_state(entropy, (n - 1) as nat))
    }
}

/// `target` is the identifier that probes a bucket of the node `local`: as `local` above the
/// bucket's bit, different at that bit, and below it as the entropy has it.
pub open spec fn is_probe(target: Seq<u8>, local: Seq<u8>, bucket: u8, entropy: u64) -> bool {
    forall|i: int|
        0 <= i < 256 ==> (#[trigger] bit_lsb(target, i) == if i > bucket {
            bit_lsb(local, i)
        } else if i == bucket {
            !bit_lsb(local, i)
        } else {
            probe_state(entropy, (i + 1) as nat) & 1 != 0
        })
}

/// A lookup that refreshes a bucket: of an identifier that belongs to it, chosen by `entropy`.
pub fn refresh_bucket_lookup_action(table: &RoutingTable, bucket_index: u8, entropy: u64) -> (action:
    RoutingAction)
    ensures
        action matches RoutingAction::Lookup(target) && is_probe(
            target@,
            table@.local_id@,
            bucket_index,
            entropy,
        ),
{
    let local = table.local_id();
    let mut target: [u8; 32] = *local.as_bytes();
    let ghost start = target@;
    let flip: usize = bucket_index as usize;
    let current = get_bit_lsb(&target, flip);
    set_bit_lsb(&mut target, flip, !current);
    let mut state: u64 = entropy ^ 0x9E37_79B9_7F4A_7C15u64;
    let mut bit: usize = 0;
    while bit < flip
        invariant
            bit <= flip,
            flip == bucket_index,
            start == table@.local_id@,
            state == probe_state(entropy, bit as nat),
            forall|i: int|
                0 <= i < 256 ==> (#[trigger] bit_lsb(target@, i) == if i >= bucket_index || i
                    >= bit {
                    if i == bucket_index {
                        !bit_lsb(start, i)
                    } else {
                        bit_lsb(start, i)
                    }
                } else {
                    probe_state(entropy, (i + 1) as nat) & 1 != 0
                }),
        decreases flip - bit,
    {
        state = state ^ (state << 13);
        state = state ^ (state >> 7);
        state = state ^ (state << 17);
        set_bit_lsb(&mut target, bit, (state & 1) != 0);
        bit = bit + 1;
    }
    RoutingAction::Lookup(NodeId::from_bytes(target))
}

/// Bit `bit_index` of 32 bytes, counted from the least significant.
fn get_bit_lsb(bytes: &[u8; 32], bit_index: usize) -> (value: bool)
    requires
        bit_index < 256,
    ensures
        value == bit_lsb(bytes@, bit_index as int),
{
    let byte_index: usize = 31 - bit_index / 8;
    let shift: u8 = (bit_index % 8) as u8;
    (bytes[byte_index] & (1u8 << shift)) != 0
}

/// Sets bit `bit_index` of 32 bytes, counted from the least significant. The others stay.
fn set_bit_lsb(bytes: &mut [u8; 32], bit_index: usize, value: bool)
    requires
        bit_index < 256,
    ensures
        forall|i: int|
            0 <= i < 256 ==> (#[trigger] bit_lsb(final(bytes)@, i) == if i == bit_index {
                value
            } else {
                bit_lsb(old(bytes)@, i)
            }),
{
    let byte_index: usize = 31 - bit_index / 8;
    let shift: u8 = (bit_index % 8) as u8;
    let mask: u8 = 1u8 << shift;
    let before: u8 = bytes[byte_index];
    let after: u8 = if value {
        before | mask
    } else {
        before & !mask
    };
    bytes[byte_index] = after;
    assert forall|i: int| 0 <= i < 256 implies (#[trigger] bit_lsb(bytes@, i) == if i == bit_index {
        value
    } else {
        bit_lsb(old(bytes)@, i)
    }) by {
        let other = (i % 8) as u8;
        if 31 - i / 8 == byte_index {
            assert((i == bit_index) == (other == shift));
            assert((after & (1u8 << other) != 0) == if other == shift {
                value
            } else {
                before & (1u8 << other) != 0
            }) by (bit_vector)
                requires
                    shift < 8,
                    other < 8,
                    mask == 1u8 << shift,
                    after == if value {
                        before | mask
                    } else {
                        before & !mask
                    },
            ;
        }
    }
}

/// Two bytes with the same bits are the same.
proof fn lemma_same_bits(x: u8, y: u8)
    requires
        forall|t: u8| t < 8 ==> (#[trigger] (x & (1u8 << t)) != 0) == (y & (1u8 << t) != 0),
    ensures
        x == y,
{
    lemma_bit_of(x, y, 0);
    lemma_bit_of(x, y, 1);
    lemma_bit_of(x, y, 2);
    lemma_bit_of(x, y, 3);
    lemma_bit_of(x, y, 4);
    lemma_bit_of(x, y, 5);
    lemma_bit_of(x, y, 6);
    lemma_bit_of(x, y, 7);
    assert(x == y) by (bit_vector)
        requires
            (x & (1u8 << 0u8) != 0) == (y & (1u8 << 0u8) != 0),
            (x & (1u8 << 1u8) != 0) == (y & (1u8 << 1u8) != 0),
            (x & (1u8 << 2u8) != 0) == (y & (1u8 << 2u8) != 0),
            (x & (1u8 << 3u8) != 0) == (y & (1u8 << 3u8) != 0),
            (x & (1u8 << 4u8) != 0) == (y & (1u8 << 4u8) != 0),
            (x & (1u8 << 5u8) != 0) == (y & (1u8 << 5u8) != 0),
            (x & (1u8 << 6u8) != 0) == (y & (1u8 << 6u8) != 0),
            (x & (1u8 << 7u8) != 0) == (y & (1u8 << 7u8) != 0),
    ;
}

/// One bit of two bytes whose bits are the same.
proof fn lemma_bit_of(x: u8, y: u8, t: u8)
    requires
        t < 8,
        forall|t: u8| t < 8 ==> (#[trigger] (x & (1u8 << t)) != 0) == (y & (1u8 << t) != 0),
    ensures
        (x & (1u8 << t) != 0) == (y & (1u8 << t) != 0),
{
}

/// Where two bytes first differ, from the top, is the highest bit of what lies between them.
proof fn lemma_first_difference(x: u8, y: u8, s: u8)
    requires
        s < 8,
        forall|t: u8|
            s < t < 8 ==> (#[trigger] (x & (1u8 << t)) != 0) == (y & (1u8 << t) != 0),
        (x & (1u8 << s) != 0) != (y & (1u8 << s) != 0),
    ensures
        (x ^ y) >> s == 1,
{
    assert((x ^ y) >> s == 1) by (bit_vector)
        requires
            s < 8,
            s < 1 ==> ((x & (1u8 << 1u8)) != 0) == (y & (1u8 << 1u8) != 0),
            s < 2 ==> ((x & (1u8 << 2u8)) != 0) == (y & (1u8 << 2u8) != 0),
            s < 3 ==> ((x & (1u8 << 3u8)) != 0) == (y & (1u8 << 3u8) != 0),
            s < 4 ==> ((x & (1u8 << 4u8)) != 0) == (y & (1u8 << 4u8) != 0),
            s < 5 ==> ((x & (1u8 << 5u8)) != 0) == (y & (1u8 << 5u8) != 0),
            s < 6 ==> ((x & (1u8 << 6u8)) != 0) == (y & (1u8 << 6u8) != 0),
            s < 7 ==> ((x & (1u8 << 7u8)) != 0) == (y & (1u8 << 7u8) != 0),
            (x & (1u8 << s) != 0) != (y & (1u8 << s) != 0),
    ;
}

/// The identifier that probes a bucket belongs to that bucket, whatever the entropy.
pub proof fn law_probe_belongs_to_the_bucket(target: NodeId, local: NodeId, bucket: u8, entropy: u64)
    requires
        is_probe(target@, local@, bucket, entropy),
    ensures
        id::bucket_of(id::xor_bytes(local@, target@)) == Some(bucket),
{
    let j = 31 - bucket as int / 8;
    let s = (bucket % 8) as u8;
    let distance = id::xor_bytes(local@, target@);
    assert forall|i: int| 0 <= i < j implies distance[i] == 0 by {
        let x = local@[i];
        let y = target@[i];
        assert forall|t: u8| t < 8 implies (#[trigger] (x & (1u8 << t)) != 0) == (y & (1u8 << t)
            != 0) by {
            let bit = 8 * (31 - i) + t;
            assert(bit > bucket);
            assert(bit / 8 == 31 - i && bit % 8 == t);
            assert(bit_lsb(target@, bit) == bit_lsb(local@, bit));
        }
        lemma_same_bits(x, y);
        assert(x ^ x == 0) by (bit_vector);
    }
    let x = local@[j];
    let y = target@[j];
    assert forall|t: u8| s < t < 8 implies (#[trigger] (x & (1u8 << t)) != 0) == (y & (1u8 << t)
        != 0) by {
        let bit = 8 * (31 - j) + t;
        assert(bit > bucket);
        assert(bit / 8 == 31 - j && bit % 8 == t);
        assert(bit_lsb(target@, bit) == bit_lsb(local@, bit));
    }
    assert(bit_lsb(target@, bucket as int) == !bit_lsb(local@, bucket as int));
    lemma_first_difference(x, y, s);
    id::lemma_top_bit(x ^ y, s);
    id::lemma_bucket_of_first_byte(distance, j, s as nat);
}

/// A control command on its way: its frames, and how many of them were sent.
pub struct ControlSend {
    frames: Vec<VwpFrame>,
    sent: usize,
    session_id: u64,
}

/// A control command on its way, as the contracts see it.
#[verifier::ext_equal]
pub struct ControlSendView {
    pub frames: Seq<VwpFrameView>,
    pub sent: int,
    pub session_id: u64,
}

impl View for ControlSend {
    type V = ControlSendView;

    closed spec fn view(&self) -> ControlSendView {
        ControlSendView {
            frames: self.frames@.map_values(|f: VwpFrame| f@),
            sent: self.sent as int,
            session_id: self.session_id,
        }
    }
}

impl ControlSendView {
    /// No more frames were sent than there are, and each fits a packet.
    pub open spec fn wf(self) -> bool {
        &&& 0 <= self.sent <= self.frames.len() <= u16::MAX
        &&& forall|i: int|
            0 <= i < self.frames.len() ==> (#[trigger] self.frames[i]).payload.len()
                <= VWP_MAX_PAYLOAD && self.frames[i].stream_id.len() == VWP_STREAM_ID_LEN
    }

    /// The number of the first frame of the next command, when this one started at `first`.
    pub open spec fn next_frame_number(self, first: u32) -> u32 {
        ((first + self.frames.len()) % 0x1_0000_0000) as u32
    }
}

/// The number of a packet that comes `n` packets after one with the number `first`.
pub open spec fn number_after(first: u64, n: nat) -> u64
    decreases n,
{
    if n == 0 {
        first
    } else {
        ((number_after(first, (n - 1) as nat) + 1) % 0x1_0000_0000_0000_0000) as u64
    }
}

/// Packet numbers count up by one, and start again at zero only after the last: two packets have the
/// same number only where as many packets lie between them as there are numbers.
pub proof fn law_packet_numbers_count_up(first: u64, m: nat, n: nat)
    ensures
        number_after(first, n) == (first + n) % 0x1_0000_0000_0000_0000,
        m < n < m + 0x1_0000_0000_0000_0000 ==> number_after(first, m) != number_after(first, n),
        first + n <= u64::MAX ==> number_after(first, n) == first + n,
{
    lemma_number_after(first, m);
    lemma_number_after(first, n);
}

/// The number that is reached after `n` packets.
proof fn lemma_number_after(first: u64, n: nat)
    ensures
        number_after(first, n) == (first + n) % 0x1_0000_0000_0000_0000,
    decreases n,
{
    if n > 0 {
        lemma_number_after(first, (n - 1) as nat);
        vstd::arithmetic::div_mod::lemma_add_mod_noop(
            first + n - 1,
            1,
            0x1_0000_0000_0000_0000,
        );
    }
}

/// The frames of the next command are numbered on from those of this one: the first of them follows
/// the last of these, whatever the commands and their messages are.
pub proof fn law_next_command_follows(
    send: ControlSendView,
    stream_id: Seq<u8>,
    message_id: u32,
    first: u32,
    message: Seq<u8>,
    next_message_id: u32,
    next_message: Seq<u8>,
)
    requires
        0 < control::chunk_count(message.len()) <= u16::MAX,
        send.frames == Seq::new(
            control::chunk_count(message.len()),
            |i: int| control::chunk_frame(stream_id, message_id, first, message, i),
        ),
    ensures
        control::chunk_frame(
            stream_id,
            next_message_id,
            send.next_frame_number(first),
            next_message,
            0,
        ).seq == (send.frames.last().seq + 1) % 0x1_0000_0000,
{
    let n = control::chunk_count(message.len()) as int;
    vstd::arithmetic::div_mod::lemma_add_mod_noop(first + n - 1, 1, 0x1_0000_0000);
}

impl ControlSend {
    /// Cuts a command into the frames of a control message. The frames are numbered from
    /// `vwp_tx_seq` on. Refused when they are too many.
    pub fn new(
        command: &StreamCommand,
        stream_id: [u8; VWP_STREAM_ID_LEN],
        message_id: u32,
        vwp_tx_seq: u32,
        session_id: u64,
    ) -> (r: Result<ControlSend, Error>)
        ensures
            ({
                let count = control::chunk_count(command@.encoded().len());
                match r {
                    Ok(send) => {
                        &&& count <= u16::MAX
                        &&& send@.wf()
                        &&& send@ == (ControlSendView {
                            frames: Seq::new(
                                count,
                                |i: int|
                                    control::chunk_frame(
                                        stream_id@,
                                        message_id,
                                        vwp_tx_seq,
                                        command@.encoded(),
                                        i,
                                    ),
                            ),
                            sent: 0,
                            session_id,
                        })
                    },
                    Err(e) => {
                        &&& count > u16::MAX
                        &&& e == (Error::TooManyChunks { chunks: count as usize })
                    },
                }
            }),
    {
        let payload = command.encode();
        match chunk_control_message(stream_id, message_id, vwp_tx_seq, payload.as_slice()) {
            Ok(frames) => {
                let send = ControlSend { frames, sent: 0, session_id };
                proof {
                    assert(send@.frames =~= Seq::new(
                        control::chunk_count(command@.encoded().len()),
                        |i: int|
                            control::chunk_frame(
                                stream_id@,
                                message_id,
                                vwp_tx_seq,
                                command@.encoded(),
                                i,
                            ),
                    ));
                    assert forall|i: int| 0 <= i < send@.frames.len() implies (
                    #[trigger] send@.frames[i]).payload.len() <= VWP_MAX_PAYLOAD
                        && send@.frames[i].stream_id.len() == VWP_STREAM_ID_LEN by {
                        control::law_chunk_frames_carry_chunks(
                            stream_id@,
                            message_id,
                            vwp_tx_seq,
                            command@.encoded(),
                            i,
                        );
                    }
                }
                Ok(send)
            },
            Err(e) => Err(e),
        }
    }

    /// Whether every frame was sent.
    pub fn is_sent(&self) -> (done: bool)
        requires
            self@.wf(),
        ensures
            done == (self@.sent == self@.frames.len()),
    {
        self.sent == self.frames.len()
    }

    /// Seals the next frame in a packet with the number `tx_seq`. It succeeds only where there is
    /// room, and then always on a channel that uses the keys of a whole handshake.
    pub fn seal_next(&self, channel: &mut TransportState, out: &mut [u8], tx_seq: u64) -> (r: Result<
        Vec<u8>,
        Error,
    >)
        requires
            self@.wf(),
            self@.sent < self@.frames.len(),
        ensures
            ({
                let payload = self@.frames[self@.sent].encoded();
                &&& r is Ok ==> noise::can_seal(*old(channel), payload.len(), old(out)@.len())
                &&& noise::can_seal(*old(channel), payload.len(), old(out)@.len())
                    && noise::is_established(*old(channel)) ==> r is Ok
                &&& match r {
                    Ok(raw) => {
                        let message = noise::sealed(*old(channel), payload);
                        &&& raw@ == session::packet(
                            PacketType::Data,
                            self@.session_id,
                            tx_seq,
                            message,
                        ).encoded()
                        &&& noise::sealed_count(*final(channel)) == noise::sealed_count(
                            *old(channel),
                        ) + 1
                        &&& forall|peer: TransportState|
                            noise::in_step(*old(channel), peer) ==> #[trigger] noise::opened(
                                peer,
                                message,
                            ) == Some(payload)
                    },
                    Err(e) => {
                        &&& e == Error::SealFailed
                        &&& noise::sealed_count(*final(channel)) == noise::sealed_count(
                            *old(channel),
                        )
                    },
                }
            }),
            final(out)@.len() == old(out)@.len(),
            noise::channel_messages(*final(channel)) == noise::channel_messages(*old(channel)),
            noise::is_channel_initiator(*final(channel)) == noise::is_channel_initiator(
                *old(channel),
            ),
            noise::opened_count(*final(channel)) == noise::opened_count(*old(channel)),
    {
        let frame = &self.frames[self.sent];
        assert(self@.frames[self@.sent] == frame@);
        match frame.encode() {
            Ok(raw) => seal_packet(channel, raw.as_slice(), out, self.session_id, tx_seq),
            Err(e) => Err(e),
        }
    }

    /// Notes that a frame was sent: the next packet has the next number.
    pub fn mark_sent(&mut self, tx_seq: &mut u64)
        requires
            old(self)@.wf(),
            old(self)@.sent < old(self)@.frames.len(),
        ensures
            final(self)@.wf(),
            final(self)@ == (ControlSendView { sent: old(self)@.sent + 1, ..old(self)@ }),
            *final(tx_seq) == (*old(tx_seq) + 1) % 0x1_0000_0000_0000_0000,
            *final(tx_seq) == number_after(*old(tx_seq), 1),
    {
        proof {
            lemma_number_after(*tx_seq, 1);
        }
        self.sent = self.sent + 1;
        *tx_seq = tx_seq.wrapping_add(1);
    }

    /// The number of the first frame of the next command, when this one started at `vwp_tx_seq`.
    pub fn next_vwp_seq(&self, vwp_tx_seq: u32) -> (next: u32)
        requires
            self@.wf(),
        ensures
            next == (vwp_tx_seq + self@.frames.len()) % 0x1_0000_0000,
            next == self@.next_frame_number(vwp_tx_seq),
    {
        vwp_tx_seq.wrapping_add(self.frames.len() as u32)
    }
}

/// Those of `chunks` that name the message of a command were read from frames of that command.
pub open spec fn come_from_frames(
    chunks: Seq<ControlChunkView>,
    command: StreamCommandView,
    stream_id: Seq<u8>,
    message_id: u32,
    vwp_tx_seq: u32,
) -> bool {
    forall|k: int|
        0 <= k < chunks.len() && (#[trigger] chunks[k]).message_id == message_id ==> exists|i: int|
            0 <= i < control::chunk_count(command.encoded().len()) && ControlChunkView::decoded(
                (#[trigger] control::chunk_frame(
                    stream_id,
                    message_id,
                    vwp_tx_seq,
                    command.encoded(),
                    i,
                )).payload,
            ) == Ok::<ControlChunkView, Error>(chunks[k])
}

/// A command that was sent arrives: once each of its frames has come, in whatever order and
/// number, among chunks of whatever other messages, the assembler gives back a message that is
/// read as the command, with its lists cut to what travels.
pub proof fn law_sent_command_arrives(
    command: StreamCommandView,
    stream_id: Seq<u8>,
    message_id: u32,
    vwp_tx_seq: u32,
    state: Map<u32, Slots>,
    chunks: Seq<ControlChunkView>,
)
    requires
        command.wf(),
        control::chunk_count(command.encoded().len()) <= u16::MAX,
        !state.dom().contains(message_id),
        come_from_frames(chunks, command, stream_id, message_id, vwp_tx_seq),
        chunks.len() > 0,
        chunks.last().message_id == message_id,
        !assembler::has_arrived(
            chunks.drop_last(),
            message_id,
            chunks.last().chunk_index as int,
        ),
        forall|i: int|
            0 <= i < control::chunk_count(command.encoded().len())
                ==> #[trigger] assembler::has_arrived(chunks, message_id, i),
    ensures
        assembler::push_result(assembler::push_all(state, chunks.drop_last()), chunks.last())
            == Ok::<Option<Seq<u8>>, Error>(Some(command.encoded())),
        StreamCommandView::decoded(command.encoded()) == Ok::<StreamCommandView, Error>(
            command.cut(),
        ),
{
    let wire = command.encoded();
    assert forall|k: int|
        0 <= k < chunks.len() && (#[trigger] chunks[k]).message_id == message_id implies {
        &&& chunks[k].chunk_index < control::chunk_count(wire.len())
        &&& chunks[k] == control::chunk_of(message_id, wire, chunks[k].chunk_index as int)
    } by {
        let i = choose|i: int|
            0 <= i < control::chunk_count(wire.len()) && ControlChunkView::decoded(
                (#[trigger] control::chunk_frame(stream_id, message_id, vwp_tx_seq, wire, i)).payload,
            ) == Ok::<ControlChunkView, Error>(chunks[k]);
        control::law_chunk_frames_carry_chunks(stream_id, message_id, vwp_tx_seq, wire, i);
    }
    assembler::law_assembles_in_any_order(state, chunks, message_id, wire);
    command::law_command_roundtrip(command);
}

/// The generator starts from the entropy, with one constant mixed in, and moves on by three shifts.
pub proof fn law_probe_generator(entropy: u64, n: nat)
    ensures
        probe_state(entropy, 0) == entropy ^ 0x9E37_79B9_7F4A_7C15u64,
        ({
            let state = probe_state(entropy, n);
            let a = state ^ (state << 13);
            let b = a ^ (a >> 7);
            probe_state(entropy, n + 1) == b ^ (b << 17)
        }),
{
}

/// The identifier that probes a bucket is as the table's own above the bucket's bit, differs at that
/// bit, and has below it the lowest bits of the generator's states, one after the other.
pub proof fn law_probe_bits(target: Seq<u8>, local: Seq<u8>, bucket: u8, entropy: u64, i: int)
    requires
        is_probe(target, local, bucket, entropy),
        0 <= i < 256,
    ensures
        ({
            let mask = 1u8 << ((i % 8) as u8);
            let bit = target[31 - i / 8] & mask != 0;
            let own = local[31 - i / 8] & mask != 0;
            &&& i > bucket ==> bit == own
            &&& i == bucket ==> bit != own
            &&& i < bucket ==> bit == (probe_state(entropy, (i + 1) as nat) & 1 == 1)
        }),
{
    assert(bit_lsb(target, i) == (target[31 - i / 8] & (1u8 << ((i % 8) as u8)) != 0));
    let state = probe_state(entropy, (i + 1) as nat);
    assert((state & 1 != 0) == (state & 1 == 1)) by (bit_vector);
}

} // verus!
