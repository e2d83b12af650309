//! The receiver of a coded object.

use crate::error::Error;
use crate::stream::command::{StreamCommand, StreamCommandView};
use crate::stream::info::ObjectTransmissionInformation;
use crate::stream::raptor;
use crate::stream::raptor::{ceil_div, decode_packet, new_decoder, PACKET_ID_LEN};
use vstd::prelude::*;

verus! {

/// A stream that is being received.
struct Reception {
    info: ObjectTransmissionInformation,
    decoder: raptorq::Decoder,
}

/// Takes the packets of a coded object, until it has the object.
pub struct StreamReceiver {
    reception: Option<Reception>,
    done: bool,
}

/// What a control message did to a receiver.
#[derive(Debug, Clone, Copy, PartialEq, Eq, Structural)]
pub enum StreamControlEvent {
    Started,
    Stopped,
    Ignored,
}

/// A stream that is being received, as the contracts see it.
#[verifier::ext_equal]
pub struct ReceptionView {
    /// The parameters of the object, in wire form.
    pub info: Seq<u8>,
    /// The packets that came, in order.
    pub packets: Seq<Seq<u8>>,
}

/// A receiver as the contracts see it.
#[verifier::ext_equal]
pub struct ReceiverView {
    pub reception: Option<ReceptionView>,
    pub done: bool,
}

impl View for StreamReceiver {
    type V = ReceiverView;

    closed spec fn view(&self) -> ReceiverView {
        ReceiverView {
            reception: match self.reception {
                Some(reception) => Some(
                    ReceptionView {
                        info: raptor::decoder_info(reception.decoder),
                        packets: raptor::decoder_packets(reception.decoder),
                    },
                ),
                None => None,
            },
            done: self.done,
        }
    }
}

impl ReceiverView {
    /// Whether a control message may be handed to the receiver: one that starts a stream has to
    /// tell of symbols and blocks.
    pub open spec fn accepts_control(payload: Seq<u8>) -> bool {
        StreamCommandView::decoded(payload) matches Ok(StreamCommandView::StreamStart(config))
            ==> raptor::can_start(config)
    }

    /// Whether a data packet may be handed to the receiver: while it waits for packets, those
    /// with an identifier have to be symbols of the object.
    pub open spec fn accepts_data(self, payload: Seq<u8>) -> bool {
        (!self.done && self.reception is Some && payload.len() >= PACKET_ID_LEN)
            ==> raptor::can_take(
            ObjectTransmissionInformation::decoded(self.reception->0.info),
            payload,
        )
    }

    /// The receiver once it was handed a control message.
    pub open spec fn after_control(self, payload: Seq<u8>) -> ReceiverView {
        match StreamCommandView::decoded(payload) {
            Ok(StreamCommandView::StreamStart(_)) => ReceiverView {
                reception: Some(
                    ReceptionView { info: payload.subrange(1, 13), packets: Seq::empty() },
                ),
                done: false,
            },
            Ok(StreamCommandView::StopStream) => ReceiverView { reception: None, done: true },
            _ => self,
        }
    }

    /// What a control message does, or what is wrong with it.
    pub open spec fn control_event(payload: Seq<u8>) -> Result<StreamControlEvent, Error> {
        match StreamCommandView::decoded(payload) {
            Ok(StreamCommandView::StreamStart(_)) => Ok(StreamControlEvent::Started),
            Ok(StreamCommandView::StopStream) => Ok(StreamControlEvent::Stopped),
            Ok(_) => Ok(StreamControlEvent::Ignored),
            Err(e) => Err(e),
        }
    }

    /// What comes of a data packet: the object, where it is complete now.
    pub open spec fn data_result(self, payload: Seq<u8>) -> Result<Option<Seq<u8>>, Error> {
        if self.done || self.reception is None {
            Ok(None)
        } else if payload.len() < PACKET_ID_LEN {
            Err(Error::DataPacketTooShort)
        } else {
            Ok(
                raptor::decoded_object(
                    self.reception->0.info,
                    self.reception->0.packets.push(payload),
                ),
            )
        }
    }

    /// The receiver once it was handed a data packet: the packet is added, and when the object
    /// is complete the receiver is done.
    pub open spec fn after_data(self, payload: Seq<u8>) -> ReceiverView {
        if self.done || self.reception is None || payload.len() < PACKET_ID_LEN {
            self
        } else {
            ReceiverView {
                reception: Some(
                    ReceptionView {
                        info: self.reception->0.info,
                        packets: self.reception->0.packets.push(payload),
                    },
                ),
                done: self.data_result(payload) matches Ok(Some(_)),
            }
        }
    }

    /// What comes of a data packet, and the receiver afterwards. Where the stream and all packets
    /// so far are of one object, nothing but that object comes back, and it does come back once
    /// all packets came that there are of it without repair.
    pub open spec fn ingested(
        self,
        payload: Seq<u8>,
        after: ReceiverView,
        r: Result<Option<Seq<u8>>, Error>,
    ) -> bool {
        &&& after == self.after_data(payload)
        &&& r == self.data_result(payload)
        &&& forall|data: Seq<u8>, mtu: u16, repair: u32|
            raptor::encodable(data.len(), mtu, repair) && self.receives(payload)
                && self.reception->0.info == raptor::object_info(data.len(), mtu).encoded()
                && raptor::all_among(
                after.reception->0.packets,
                #[trigger] raptor::encoded_packets(data, mtu, repair),
            ) ==> {
                &&& r matches Ok(Some(object)) ==> object == data
                &&& raptor::all_among(
                    raptor::encoded_packets(data, mtu, 0),
                    after.reception->0.packets,
                ) ==> r matches Ok(Some(_))
            }
    }

    /// Whether a packet is received, and not passed over.
    pub open spec fn receives(self, payload: Seq<u8>) -> bool {
        !self.done && self.reception is Some && payload.len() >= PACKET_ID_LEN
    }
}

/// A result with the bytes of the object replaced by their view.
pub open spec fn object_view(r: Result<Option<Vec<u8>>, Error>) -> Result<Option<Seq<u8>>, Error> {
    match r {
        Ok(Some(object)) => Ok(Some(object@)),
        Ok(None) => Ok(None),
        Err(e) => Err(e),
    }
}

impl StreamReceiver {
    /// The parameters that are kept beside the decoder are those it was made with.
    pub closed spec fn wf(&self) -> bool {
        self.reception matches Some(reception) ==> reception.info
            == ObjectTransmissionInformation::decoded(raptor::decoder_info(reception.decoder))
    }

    /// A receiver that no stream was started on.
    pub fn new() -> (receiver: StreamReceiver)
        ensures
            receiver.wf(),
            receiver@ == (ReceiverView { reception: None, done: false }),
    {
        StreamReceiver { reception: None, done: false }
    }

    /// Whether a control message may be handed to a receiver.
    pub fn accepts_control(payload: &[u8]) -> (accepts: bool)
        ensures
            accepts == ReceiverView::accepts_control(payload@),
    {
        match StreamCommand::decode(payload) {
            Ok(StreamCommand::StreamStart(config)) => config.symbol_size != 0
                && config.source_blocks != 0,
            _ => true,
        }
    }

    /// Whether a data packet may be handed to the receiver.
    pub fn accepts_data(&self, payload: &[u8]) -> (accepts: bool)
        requires
            self.wf(),
        ensures
            accepts == self@.accepts_data(payload@),
    {
        if self.done || payload.len() < PACKET_ID_LEN {
            return true;
        }
        match &self.reception {
            None => true,
            Some(reception) => can_take(&reception.info, payload),
        }
    }

    /// Hands a control message to the receiver. Messages that do not concern streams are passed
    /// over.
    pub fn on_control_payload(&mut self, payload: &[u8]) -> (r: Result<StreamControlEvent, Error>)
        requires
            old(self).wf(),
            ReceiverView::accepts_control(payload@),
        ensures
            final(self).wf(),
            r == ReceiverView::control_event(payload@),
            final(self)@ == old(self)@.after_control(payload@),
    {
        match StreamCommand::decode(payload) {
            Err(e) => Err(e),
            Ok(StreamCommand::StreamStart(info)) => {
                let start = start_bytes(payload);
                let decoder = new_decoder(&start);
                self.reception = Some(Reception { info, decoder });
                self.done = false;
                assert(self@ =~= old(self)@.after_control(payload@));
                Ok(StreamControlEvent::Started)
            },
            Ok(StreamCommand::StopStream) => {
                self.done = true;
                self.reception = None;
                Ok(StreamControlEvent::Stopped)
            },
            Ok(_) => Ok(StreamControlEvent::Ignored),
        }
    }

    /// Hands a data packet to the receiver. Returns the object once it is complete; before a
    /// stream was started and after it is done, packets are passed over.
    pub fn ingest_data_packet(&mut self, payload: &[u8]) -> (r: Result<Option<Vec<u8>>, Error>)
        requires
            old(self).wf(),
            old(self)@.accepts_data(payload@),
        ensures
            final(self).wf(),
            old(self)@.ingested(payload@, final(self)@, object_view(r)),
    {
        if self.done {
            return Ok(None);
        }
        let mut reception = match self.reception.take() {
            None => {
                return Ok(None);
            },
            Some(reception) => reception,
        };
        if payload.len() < PACKET_ID_LEN {
            self.reception = Some(reception);
            return Err(Error::DataPacketTooShort);
        }
        let object = decode_packet(&mut reception.decoder, payload);
        self.reception = Some(reception);
        if object.is_some() {
            self.done = true;
        }
        Ok(object)
    }

    /// Whether the object was recovered or the stream was stopped.
    pub fn is_done(&self) -> (done: bool)
        ensures
            done == self@.done,
    {
        self.done
    }
}

/// The twelve bytes behind the first.
fn start_bytes(payload: &[u8]) -> (bytes: [u8; 12])
    requires
        payload@.len() == 13,
    ensures
        bytes@ == payload@.subrange(1, 13),
{
    let mut bytes: [u8; 12] = [0u8; 12];
    let mut i: usize = 0;
    while i < 12
        invariant
            i <= 12,
            payload@.len() == 13,
            forall|j: int| 0 <= j < i ==> bytes@[j] == payload@[1 + j],
        decreases 12 - i,
    {
        bytes[i] = payload[1 + i];
        i = i + 1;
    }
    assert(bytes@ =~= payload@.subrange(1, 13));
    bytes
}

/// Whether a decoder with these parameters can take a packet.
fn can_take(info: &ObjectTransmissionInformation, packet: &[u8]) -> (can: bool)
    ensures
        can == raptor::can_take(*info, packet@),
{
    if info.symbol_size == 0 || info.source_blocks == 0 || info.sub_blocks == 0
        || info.symbol_alignment == 0 {
        return false;
    }
    if packet.len() != PACKET_ID_LEN + info.symbol_size as usize || packet[0]
        >= info.source_blocks {
        return false;
    }
    let size: u64 = info.symbol_size as u64;
    let symbols: u64 = ceil_div(info.transfer_length, size) % 0x1_0000_0000;
    let largest: u64 = ceil_div(symbols, info.source_blocks as u64);
    largest <= raptor::MAX_BLOCK_SYMBOLS as u64
}

impl Default for StreamReceiver {
    fn default() -> (receiver: StreamReceiver)
        ensures
            receiver.wf(),
            receiver@ == (ReceiverView { reception: None, done: false }),
    {
        StreamReceiver::new()
    }
}

/// The command that starts a stream, once a receiver was handed it, has it wait for the packets
/// of just that object, and every packet that a decoder with these parameters can take may be
/// handed to it.
pub proof fn law_start_command_starts(
    receiver: ReceiverView,
    info: ObjectTransmissionInformation,
    packet: Seq<u8>,
)
    requires
        info.transfer_length < 0x100_0000_0000,
        raptor::can_take(info, packet),
    ensures
        ({
            let payload = StreamCommandView::StreamStart(info).encoded();
            let started = receiver.after_control(payload);
            &&& ReceiverView::accepts_control(payload)
            &&& ReceiverView::control_event(payload) == Ok::<_, Error>(StreamControlEvent::Started)
            &&& started == (ReceiverView {
                reception: Some(
                    ReceptionView { info: info.encoded(), packets: Seq::empty() },
                ),
                done: false,
            })
            &&& started.receives(packet)
            &&& started.accepts_data(packet)
        }),
{
    let command = StreamCommandView::StreamStart(info);
    crate::stream::command::law_command_roundtrip(command);
    crate::stream::info::lemma_info_len(info);
    crate::stream::info::law_info_roundtrip(info);
    assert(command.encoded().subrange(1, 13) =~= info.encoded());
}

/// What may be handed to a receiver does not depend on the packets that it has.
pub proof fn law_packets_stay_acceptable(receiver: ReceiverView, first: Seq<u8>, second: Seq<u8>)
    requires
        receiver.receives(first),
        receiver.receives(second),
        receiver.accepts_data(second),
    ensures
        receiver.after_data(first).accepts_data(second),
{
}

/// A receiver that is done, or that no stream was started on, passes every packet over.
pub proof fn law_idle_receiver_is_unmoved(receiver: ReceiverView, packet: Seq<u8>)
    requires
        receiver.done || receiver.reception is None,
    ensures
        receiver.data_result(packet) == Ok::<Option<Seq<u8>>, Error>(None),
        receiver.after_data(packet) == receiver,
{
}

/// While no object came back, the receiver waits and has just the packets that came; and what
/// came back is the object.
proof fn lemma_reception(
    data: Seq<u8>,
    mtu: u16,
    repair: u32,
    packets: Seq<Seq<u8>>,
    receivers: Seq<ReceiverView>,
    results: Seq<Result<Option<Seq<u8>>, Error>>,
    n: int,
)
    requires
        is_reception(data, mtu, repair, packets, receivers, results),
        0 <= n <= packets.len(),
    ensures
        (exists|i: int| 0 <= i < n && results[i] == Ok::<_, Error>(Some(data))) ==> receivers[n].done
            && receivers[n].reception is Some,
        !(exists|i: int| 0 <= i < n && results[i] == Ok::<_, Error>(Some(data))) ==> receivers[n]
            == (ReceiverView {
            reception: Some(
                ReceptionView {
                    info: raptor::object_info(data.len(), mtu).encoded(),
                    packets: packets.take(n),
                },
            ),
            done: false,
        }),
        forall|i: int|
            0 <= i < n ==> (#[trigger] results[i] == Ok::<_, Error>(Some(data)) || results[i]
                == Ok::<Option<Seq<u8>>, Error>(None)),
    decreases n,
{
    if n == 0 {
        assert(packets.take(0) =~= Seq::empty());
    } else {
        let m = n - 1;
        lemma_reception(data, mtu, repair, packets, receivers, results, m);
        assert(receivers[m].ingested(packets[m], receivers[m + 1], results[m]));
        if exists|i: int| 0 <= i < m && results[i] == Ok::<_, Error>(Some(data)) {
            let i = choose|i: int| 0 <= i < m && results[i] == Ok::<_, Error>(Some(data));
            assert(0 <= i < n && results[i] == Ok::<_, Error>(Some(data)));
        } else {
            assert(packets.take(n) =~= packets.take(m).push(packets[m]));
            assert(raptor::all_among(
                packets.take(n),
                raptor::encoded_packets(data, mtu, repair),
            )) by {
                assert forall|j: int| 0 <= j < n implies raptor::encoded_packets(
                    data,
                    mtu,
                    repair,
                ).contains(#[trigger] packets.take(n)[j]) by {
                    assert(packets.take(n)[j] == packets[j]);
                }
            }
            assert(receivers[n].reception->0.packets == packets.take(n));
            if results[m] == Ok::<_, Error>(Some(data)) {
                assert(0 <= m < n && results[m] == Ok::<_, Error>(Some(data)));
            }
        }
    }
}

/// Packets of one object are handed, one after the other, to a receiver that waits for it:
/// `receivers` before, between and after the packets, and `results` of each.
pub open spec fn is_reception(
    data: Seq<u8>,
    mtu: u16,
    repair: u32,
    packets: Seq<Seq<u8>>,
    receivers: Seq<ReceiverView>,
    results: Seq<Result<Option<Seq<u8>>, Error>>,
) -> bool {
    &&& raptor::encodable(data.len(), mtu, repair)
    &&& receivers.len() == packets.len() + 1
    &&& results.len() == packets.len()
    &&& receivers[0] == (ReceiverView {
        reception: Some(
            ReceptionView {
                info: raptor::object_info(data.len(), mtu).encoded(),
                packets: Seq::empty(),
            },
        ),
        done: false,
    })
    &&& raptor::all_among(packets, raptor::encoded_packets(data, mtu, repair))
    &&& forall|i: int| 0 <= i < packets.len() ==> (#[trigger] packets[i]).len() >= PACKET_ID_LEN
    &&& forall|i: int|
        0 <= i < packets.len() ==> (#[trigger] receivers[i]).ingested(
            packets[i],
            receivers[i + 1],
            results[i],
        )
}

/// A receiver that waits for an object gets nothing but that object of its packets, in whatever
/// order, number and repetition they come; and once all packets came that there are without repair
/// it has the object and is done, however many repair packets came or were lost.
pub proof fn law_stream_recovers_the_object(
    data: Seq<u8>,
    mtu: u16,
    repair: u32,
    packets: Seq<Seq<u8>>,
    receivers: Seq<ReceiverView>,
    results: Seq<Result<Option<Seq<u8>>, Error>>,
)
    requires
        is_reception(data, mtu, repair, packets, receivers, results),
    ensures
        forall|i: int|
            0 <= i < results.len() ==> (#[trigger] results[i] == Ok::<_, Error>(Some(data))
                || results[i] == Ok::<Option<Seq<u8>>, Error>(None)),
        packets.len() > 0 && raptor::all_among(raptor::encoded_packets(data, mtu, 0), packets) ==> {
            &&& exists|i: int|
                0 <= i < results.len() && #[trigger] results[i] == Ok::<_, Error>(Some(data))
            &&& receivers.last().done
        },
{
    let n = packets.len() as int;
    lemma_reception(data, mtu, repair, packets, receivers, results, n);
    if n > 0 && raptor::all_among(raptor::encoded_packets(data, mtu, 0), packets) {
        if !(exists|i: int| 0 <= i < n && results[i] == Ok::<_, Error>(Some(data))) {
            let m = n - 1;
            lemma_reception(data, mtu, repair, packets, receivers, results, m);
            assert(receivers[m].ingested(packets[m], receivers[m + 1], results[m]));
            assert(packets.take(n) =~= packets);
            assert(packets.take(m).push(packets[m]) =~= packets);
            assert(receivers[n].reception->0.packets == packets);
            assert(results[m] == Ok::<_, Error>(Some(data)));
        }
    }
}

/// A receiver that waits for an object has it once all packets of its sender came, in whatever order
/// and repetition: among them are those that there are without repair, as the sender was made.
pub proof fn law_all_sent_packets_bring_the_object(
    data: Seq<u8>,
    mtu: u16,
    repair: u32,
    packets: Seq<Seq<u8>>,
    receivers: Seq<ReceiverView>,
    results: Seq<Result<Option<Seq<u8>>, Error>>,
)
    requires
        is_reception(data, mtu, repair, packets, receivers, results),
        packets.len() > 0,
        raptor::all_among(
            raptor::encoded_packets(data, mtu, 0),
            raptor::encoded_packets(data, mtu, repair),
        ),
        raptor::all_among(raptor::encoded_packets(data, mtu, repair), packets),
    ensures
        exists|i: int|
            0 <= i < results.len() && #[trigger] results[i] == Ok::<_, Error>(Some(data)),
        receivers.last().done,
{
    let own = raptor::encoded_packets(data, mtu, 0);
    let all = raptor::encoded_packets(data, mtu, repair);
    assert forall|i: int| 0 <= i < own.len() implies packets.contains(#[trigger] own[i]) by {
        let j = choose|j: int| 0 <= j < all.len() && all[j] == own[i];
        assert(packets.contains(all[j]));
    }
    law_stream_recovers_the_object(data, mtu, repair, packets, receivers, results);
}

/// What a control message does to a receiver, command by command. One that starts a stream has it
/// wait for that object, with no packet yet, whatever it waited for or had before. One that stops
/// the stream has it wait for nothing, and it is done. Every other command is passed over, and the
/// receiver stays as it was: it waits for the same object and has the same packets.
pub proof fn law_commands_act_on_the_stream(receiver: ReceiverView, command: StreamCommandView)
    requires
        command.wf(),
    ensures
        ({
            let event = ReceiverView::control_event(command.encoded());
            let after = receiver.after_control(command.encoded());
            match command {
                StreamCommandView::StreamStart(info) => {
                    &&& event == Ok::<_, Error>(StreamControlEvent::Started)
                    &&& after.reception matches Some(reception) && reception.info == info.encoded()
                        && reception.packets.len() == 0
                    &&& !after.done
                },
                StreamCommandView::StopStream => {
                    &&& event == Ok::<_, Error>(StreamControlEvent::Stopped)
                    &&& after.reception is None
                    &&& after.done
                },
                _ => {
                    &&& event == Ok::<_, Error>(StreamControlEvent::Ignored)
                    &&& after.reception == receiver.reception
                    &&& after.done == receiver.done
                },
            }
        }),
{
    crate::stream::command::law_command_roundtrip(command);
    if let StreamCommandView::StreamStart(info) = command {
        crate::stream::info::lemma_info_len(info);
        assert(command.encoded().subrange(1, 13) =~= info.encoded());
    }
}

/// A control message that is passed over or refused leaves the receiver as it was, whatever it
/// holds; and only a message that starts with one of the two codes of stream commands is not.
pub proof fn law_other_messages_change_nothing(receiver: ReceiverView, payload: Seq<u8>)
    ensures
        ({
            let event = ReceiverView::control_event(payload);
            let after = receiver.after_control(payload);
            &&& event is Err || event == Ok::<_, Error>(StreamControlEvent::Ignored) ==> after
                == receiver
            &&& payload.len() == 0 || (payload[0] != 1 && payload[0] != 2) ==> after == receiver
                && event != Ok::<_, Error>(StreamControlEvent::Started) && event != Ok::<_, Error>(
                StreamControlEvent::Stopped,
            )
            &&& event is Err <==> StreamCommandView::decoded(payload) is Err
        }),
{
}

/// What a data packet does to a receiver. Where it waits for no packets: nothing. Where the packet is
/// too short for an identifier: it is refused, and nothing changes. Else the packet is added behind
/// those that came before, and the receiver is done just when the object comes back.
pub proof fn law_data_packets_are_collected(
    receiver: ReceiverView,
    packet: Seq<u8>,
    after: ReceiverView,
    r: Result<Option<Seq<u8>>, Error>,
)
    requires
        receiver.ingested(packet, after, r),
    ensures
        receiver.done || receiver.reception is None ==> r == Ok::<Option<Seq<u8>>, Error>(None)
            && after == receiver,
        !receiver.done && receiver.reception is Some && packet.len() < 4 ==> r == Err::<
            Option<Seq<u8>>,
            Error,
        >(Error::DataPacketTooShort) && after == receiver,
        !receiver.done && receiver.reception is Some && packet.len() >= 4 ==> {
            &&& r is Ok
            &&& after.reception matches Some(reception) && reception.info
                == receiver.reception->0.info && reception.packets
                == receiver.reception->0.packets.push(packet)
            &&& after.done <==> r->Ok_0 is Some
        },
{
}

/// What a receiver is handed, and what comes of it.
pub enum ReceiverEvent {
    Control { payload: Seq<u8>, r: Result<StreamControlEvent, Error> },
    Data { packet: Seq<u8>, r: Result<Option<Seq<u8>>, Error> },
}

/// A receiver before, between and after some events.
pub open spec fn is_run(receivers: Seq<ReceiverView>, events: Seq<ReceiverEvent>) -> bool {
    &&& receivers.len() == events.len() + 1
    &&& forall|i: int|
        0 <= i < events.len() ==> match #[trigger] events[i] {
            ReceiverEvent::Control { payload, r } => {
                &&& r == ReceiverView::control_event(payload)
                &&& receivers[i + 1] == receivers[i].after_control(payload)
            },
            ReceiverEvent::Data { packet, r } => receivers[i].ingested(packet, receivers[i + 1], r),
        }
}

/// The object came back with one of the first `n` events.
pub open spec fn came_back(events: Seq<ReceiverEvent>, n: int, data: Seq<u8>) -> bool {
    exists|i: int|
        0 <= i < n && (#[trigger] events[i]) is Data && events[i]->Data_r == Ok::<_, Error>(
            Some(data),
        )
}

/// The packet came with one of the first `n` events.
pub open spec fn came(events: Seq<ReceiverEvent>, n: int, packet: Seq<u8>) -> bool {
    exists|i: int| 0 <= i < n && (#[trigger] events[i]) is Data && events[i]->packet == packet
}

/// From the second event on, a receiver is handed packets of one object, and control messages that
/// are passed over or refused.
pub open spec fn is_undisturbed(
    events: Seq<ReceiverEvent>,
    data: Seq<u8>,
    mtu: u16,
    repair: u32,
) -> bool {
    forall|i: int|
        1 <= i < events.len() ==> match #[trigger] events[i] {
            ReceiverEvent::Control { r, .. } => r is Err || r == Ok::<_, Error>(
                StreamControlEvent::Ignored,
            ),
            ReceiverEvent::Data { packet, .. } => packet.len() >= 4 && raptor::encoded_packets(
                data,
                mtu,
                repair,
            ).contains(packet),
        }
}

/// Until the object comes back, a receiver that was told to start waits for it and has just the
/// packets that came; and nothing else comes back.
proof fn lemma_run(
    data: Seq<u8>,
    mtu: u16,
    repair: u32,
    receivers: Seq<ReceiverView>,
    events: Seq<ReceiverEvent>,
    n: int,
)
    requires
        raptor::encodable(data.len(), mtu, repair),
        is_run(receivers, events),
        is_undisturbed(events, data, mtu, repair),
        1 <= n <= events.len(),
        receivers[1] == (ReceiverView {
            reception: Some(
                ReceptionView {
                    info: raptor::object_info(data.len(), mtu).encoded(),
                    packets: Seq::empty(),
                },
            ),
            done: false,
        }),
        events[0] is Control,
    ensures
        came_back(events, n, data) ==> receivers[n].done,
        !came_back(events, n, data) ==> {
            &&& !receivers[n].done
            &&& receivers[n].reception is Some
            &&& receivers[n].reception->0.info == raptor::object_info(data.len(), mtu).encoded()
            &&& forall|packet: Seq<u8>| #[trigger]
                receivers[n].reception->0.packets.contains(packet) <==> came(events, n, packet)
            &&& raptor::all_among(
                receivers[n].reception->0.packets,
                raptor::encoded_packets(data, mtu, repair),
            )
        },
        forall|i: int|
            1 <= i < n && (#[trigger] events[i]) is Data ==> (events[i]->Data_r == Ok::<_, Error>(
                Some(data),
            ) || events[i]->Data_r == Ok::<Option<Seq<u8>>, Error>(None)),
    decreases n,
{
    if n == 1 {
        assert(!came_back(events, 1, data));
        assert(forall|packet: Seq<u8>| !came(events, 1, packet));
    } else {
        let m = n - 1;
        lemma_run(data, mtu, repair, receivers, events, m);
        let event = events[m];
        if came_back(events, m, data) {
            let i = choose|i: int|
                0 <= i < m && (#[trigger] events[i]) is Data && events[i]->Data_r == Ok::<_, Error>(
                    Some(data),
                );
            assert(events[i] is Data);
            assert(came_back(events, n, data));
            if event is Control {
                law_other_messages_change_nothing(receivers[m], event->payload);
            }
        } else {
            match event {
                ReceiverEvent::Control { payload, r } => {
                    law_other_messages_change_nothing(receivers[m], payload);
                    assert(receivers[n] == receivers[m]);
                    assert forall|packet: Seq<u8>|
                        came(events, n, packet) <==> came(events, m, packet) by {
                        if came(events, m, packet) {
                            let i = choose|i: int|
                                0 <= i < m && (#[trigger] events[i]) is Data && events[i]->packet
                                    == packet;
                            assert(events[i] is Data);
                        }
                    }
                    assert(!came_back(events, n, data));
                },
                ReceiverEvent::Data { packet, r } => {
                    let before = receivers[m].reception->0.packets;
                    let after = receivers[n].reception->0.packets;
                    assert(receivers[m].ingested(packet, receivers[n], r));
                    assert(after == before.push(packet));
                    assert(raptor::all_among(after, raptor::encoded_packets(data, mtu, repair)));
                    assert(after.last() == packet);
                    assert forall|q: Seq<u8>| #[trigger] after.contains(q) <==> came(
                        events,
                        n,
                        q,
                    ) by {
                        if before.contains(q) {
                            let j = choose|j: int| 0 <= j < before.len() && before[j] == q;
                            assert(after[j] == q);
                            assert(came(events, m, q));
                            let i = choose|i: int|
                                0 <= i < m && (#[trigger] events[i]) is Data && events[i]->packet
                                    == q;
                            assert(events[i] is Data);
                        }
                        if q == packet {
                            assert(after[before.len() as int] == q);
                            assert(events[m] is Data && events[m]->packet == q);
                        }
                        if came(events, n, q) && q != packet {
                            let i = choose|i: int|
                                0 <= i < n && (#[trigger] events[i]) is Data && events[i]->packet
                                    == q;
                            assert(i != m);
                            assert(came(events, m, q));
                        }
                        if after.contains(q) && q != packet {
                            let j = choose|j: int| 0 <= j < after.len() && after[j] == q;
                            assert(before[j] == q);
                        }
                    }
                    if r == Ok::<_, Error>(Some(data)) {
                        assert(events[m] is Data);
                        assert(came_back(events, n, data));
                    } else {
                        if came_back(events, n, data) {
                            let i = choose|i: int|
                                0 <= i < n && (#[trigger] events[i]) is Data && events[i]->Data_r
                                    == Ok::<_, Error>(Some(data));
                            assert(i != m);
                            assert(came_back(events, m, data));
                        }
                    }
                },
            }
        }
    }
}

/// A receiver that is told to start gets the object, whatever it did before and whatever other
/// control messages come in between: of the packets of the object, in whatever order, number and
/// repetition they come, nothing but the object comes back; and once all packets came that there
/// are without repair, it has come back and the receiver is done.
pub proof fn law_stream_recovers_amid_other_messages(
    data: Seq<u8>,
    mtu: u16,
    repair: u32,
    receivers: Seq<ReceiverView>,
    events: Seq<ReceiverEvent>,
)
    requires
        raptor::encodable(data.len(), mtu, repair),
        is_run(receivers, events),
        events.len() > 0,
        events[0] matches ReceiverEvent::Control { payload, .. } && payload
            == StreamCommandView::StreamStart(raptor::object_info(data.len(), mtu)).encoded(),
        is_undisturbed(events, data, mtu, repair),
    ensures
        events[0]->Control_r == Ok::<_, Error>(StreamControlEvent::Started),
        forall|i: int|
            1 <= i < events.len() && (#[trigger] events[i]) is Data ==> (events[i]->Data_r == Ok::<
                _,
                Error,
            >(Some(data)) || events[i]->Data_r == Ok::<Option<Seq<u8>>, Error>(None)),
        (exists|i: int| 1 <= i < events.len() && (#[trigger] events[i]) is Data) && (forall|k: int|
            0 <= k < raptor::encoded_packets(data, mtu, 0).len() ==> came(
                events,
                events.len() as int,
                #[trigger] raptor::encoded_packets(data, mtu, 0)[k],
            )) ==> came_back(events, events.len() as int, data) && receivers.last().done,
        !came_back(events, events.len() as int, data) ==> !receivers.last().done,
{
    let info = raptor::object_info(data.len(), mtu);
    crate::stream::sender::lemma_object_bounds(data.len(), mtu, repair);
    law_commands_act_on_the_stream(receivers[0], StreamCommandView::StreamStart(info));
    assert(events[0] is Control);
    assert(receivers[1].reception->0.packets =~= Seq::empty());
    let n = events.len() as int;
    lemma_run(data, mtu, repair, receivers, events, n);
    let own = raptor::encoded_packets(data, mtu, 0);
    if !came_back(events, n, data) && (exists|i: int|
        1 <= i < n && (#[trigger] events[i]) is Data) && (forall|k: int|
        0 <= k < own.len() ==> came(events, n, #[trigger] own[k])) {
        lemma_all_came(data, mtu, repair, receivers, events, n);
    }
}

/// With the last packet that was missing the object comes back.
proof fn lemma_all_came(
    data: Seq<u8>,
    mtu: u16,
    repair: u32,
    receivers: Seq<ReceiverView>,
    events: Seq<ReceiverEvent>,
    n: int,
)
    requires
        raptor::encodable(data.len(), mtu, repair),
        is_run(receivers, events),
        is_undisturbed(events, data, mtu, repair),
        1 <= n <= events.len(),
        receivers[1] == (ReceiverView {
            reception: Some(
                ReceptionView {
                    info: raptor::object_info(data.len(), mtu).encoded(),
                    packets: Seq::empty(),
                },
            ),
            done: false,
        }),
        events[0] is Control,
        exists|i: int| 1 <= i < n && (#[trigger] events[i]) is Data,
        forall|k: int|
            0 <= k < raptor::encoded_packets(data, mtu, 0).len() ==> came(
                events,
                n,
                #[trigger] raptor::encoded_packets(data, mtu, 0)[k],
            ),
    ensures
        came_back(events, n, data),
    decreases n,
{
    let own = raptor::encoded_packets(data, mtu, 0);
    let m = n - 1;
    let w = choose|i: int| 1 <= i < n && (#[trigger] events[i]) is Data;
    lemma_run(data, mtu, repair, receivers, events, n);
    lemma_run(data, mtu, repair, receivers, events, m);
    if !came_back(events, n, data) {
        if events[m] is Control {
            assert forall|k: int| 0 <= k < own.len() implies came(events, m, #[trigger] own[k]) by {
                assert(came(events, n, own[k]));
                let i = choose|i: int|
                    0 <= i < n && (#[trigger] events[i]) is Data && events[i]->packet == own[k];
                assert(i != m);
            }
            assert(w != m && events[w] is Data);
            lemma_all_came(data, mtu, repair, receivers, events, m);
            let i = choose|i: int|
                0 <= i < m && (#[trigger] events[i]) is Data && events[i]->Data_r == Ok::<_, Error>(
                    Some(data),
                );
            assert(events[i] is Data);
        } else {
            let packet = events[m]->packet;
            if came_back(events, m, data) {
                let i = choose|i: int|
                    0 <= i < m && (#[trigger] events[i]) is Data && events[i]->Data_r == Ok::<
                        _,
                        Error,
                    >(Some(data));
                assert(events[i] is Data);
            }
            let after = receivers[n].reception->0.packets;
            assert(receivers[m].ingested(packet, receivers[n], events[m]->Data_r));
            assert forall|k: int| 0 <= k < own.len() implies after.contains(#[trigger] own[k]) by {
                assert(came(events, n, own[k]));
            }
            assert(raptor::all_among(own, after));
        }
    }
}

/// Every control message may be handed to a receiver, but for one that starts a stream without
/// symbols or without blocks.
pub proof fn law_control_messages_may_be_handed(command: StreamCommandView, payload: Seq<u8>)
    requires
        command.wf(),
    ensures
        StreamCommandView::decoded(payload) is Err ==> ReceiverView::accepts_control(payload),
        ReceiverView::accepts_control(command.encoded()) <==> match command {
            StreamCommandView::StreamStart(info) => info.symbol_size > 0 && info.source_blocks > 0,
            _ => true,
        },
{
    crate::stream::command::law_command_roundtrip(command);
}

} // verus!
