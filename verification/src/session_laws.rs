//! What holds of a session across both of its sides.

use crate::error::Error;
use crate::negotiation;
use crate::negotiation::CapabilitySet;
use crate::noise;
use crate::replay::ReplayView;
use crate::session;
use crate::session::{AnsweredView, InitiatorView, ResponderView, SessionView, BUFFER_LEN};
use crate::wire;
use crate::wire::{PacketType, WirePacketView, HEADER_LEN, PROTOCOL_VERSION};
use vstd::prelude::*;

verus! {

/// A packet that was made is the one that the other side expects, whatever its number, if that
/// was not seen before.
proof fn lemma_packet_accepted(
    packet_type: PacketType,
    session_id: u64,
    seq: u64,
    payload: Seq<u8>,
    expected_session: Option<u64>,
    replay: ReplayView,
)
    requires
        payload.len() <= u32::MAX,
        expected_session is Some ==> expected_session->0 == session_id,
    ensures
        ({
            let p = session::packet(packet_type, session_id, seq, payload);
            &&& session::checked_packet(
                p.encoded(),
                packet_type,
                PROTOCOL_VERSION,
                expected_session,
            ) == Ok::<WirePacketView, Error>(p)
            &&& replay.verdict(seq) is Ok ==> session::packet_verdict(
                p.encoded(),
                packet_type,
                PROTOCOL_VERSION,
                expected_session,
                replay,
            ) == Ok::<WirePacketView, Error>(p)
        }),
{
    let p = session::packet(packet_type, session_id, seq, payload);
    wire::law_packet_roundtrip(p);
    crate::codec::lemma_be_u16(p.flags);
    crate::codec::lemma_be_u64(p.session_id);
    crate::codec::lemma_be_u64(p.seq);
    crate::codec::lemma_be_u32(p.payload.len() as u32);
    assert(p.encoded().len() >= HEADER_LEN);
}

/// A handshake whose packets arrive completes just when the offers of both sides lead to a
/// selection. Then both sides have that selection, in one session, and each is in step with the
/// other; else the responder refuses with the reason, and nothing more is sent.
pub proof fn law_handshake_completes(
    client: CapabilitySet,
    server: CapabilitySet,
    session_id: u64,
    initiator: InitiatorView,
    raw1: Seq<u8>,
    responder: ResponderView,
    answer: Result<(AnsweredView, Seq<u8>), Error>,
    finish: Result<(SessionView, Seq<u8>), Error>,
    done: Result<SessionView, Error>,
)
    requires
        initiator.started(client, session_id, raw1),
        responder.wf(),
        responder.local == server,
        responder.replay == ReplayView::fresh(),
        responder.answered(raw1, answer),
        answer matches Ok((_, raw2)) ==> initiator.finished(raw2, finish),
        answer matches Ok((answered, _)) && finish matches Ok((_, raw3)) ==> answered.finished(
            raw3,
            done,
        ),
    ensures
        match negotiation::negotiation(server, session::offer(client)) {
            Err(e) => answer == Err::<(AnsweredView, Seq<u8>), Error>(e),
            Ok(selected) => {
                &&& answer is Ok
                &&& finish is Ok
                &&& done is Ok
                &&& finish->Ok_0.0.selected == selected
                &&& done->Ok_0.selected == selected
                &&& finish->Ok_0.0.session_id == session_id
                &&& done->Ok_0.session_id == session_id
                &&& noise::in_step(finish->Ok_0.0.channel, done->Ok_0.channel)
                &&& noise::in_step(done->Ok_0.channel, finish->Ok_0.0.channel)
            },
        },
{
    let m1 = noise::handshake_messages(initiator.handshake)[0];
    let hello = session::offer(client);
    lemma_packet_accepted(
        PacketType::Handshake1,
        session_id,
        0,
        m1,
        None,
        ReplayView::fresh(),
    );
    negotiation::law_client_hello_roundtrip(hello, hello.encoded());
    crate::codec::lemma_be_u64(hello.caps);
    assert(noise::handshake_payload(responder.handshake, m1) == Some(hello.encoded()));
    assert(noise::can_read(responder.handshake, m1, BUFFER_LEN as nat));
    match negotiation::negotiation(server, hello) {
        Err(e) => {},
        Ok(selected) => {
            let (answered, raw2) = answer->Ok_0;
            let m2 = noise::handshake_messages(answered.handshake)[1];
            let reply = session::server_hello(server, selected);
            lemma_packet_accepted(
                PacketType::Handshake2,
                session_id,
                0,
                m2,
                Some(session_id),
                ReplayView::fresh(),
            );
            negotiation::law_server_hello_roundtrip(reply, reply.encoded());
            negotiation::law_both_sides_agree(client, server);
            crate::codec::lemma_be_u64(reply.caps);
            crate::codec::lemma_be_u64(reply.selected_caps);
            assert(noise::handshake_messages(initiator.handshake) =~= seq![m1]);
            assert(noise::handshake_payload(initiator.handshake, m2) == Some(reply.encoded()));
            assert(noise::can_read(initiator.handshake, m2, BUFFER_LEN as nat));
            let (client_session, raw3) = finish->Ok_0;
            let m3 = noise::channel_messages(client_session.channel)[2];
            let echo = session::client_finish(selected);
            lemma_packet_accepted(
                PacketType::Handshake3,
                session_id,
                1,
                m3,
                Some(session_id),
                answered.replay,
            );
            negotiation::law_client_finish_roundtrip(echo, echo.encoded());
            crate::codec::lemma_be_u64(echo.selected_caps);
            let seen = noise::handshake_messages(initiator.handshake).push(m2);
            assert(seen =~= seq![m1, m2]);
            assert(noise::handshake_messages(answered.handshake) =~= seen);
            assert(noise::handshake_payload(answered.handshake, m3) == Some(echo.encoded()));
            assert(noise::can_read(answered.handshake, m3, BUFFER_LEN as nat));
        },
    }
}

/// What one side seals the other side opens, if it is in step and has not seen the packet's
/// number; and then it is in step again.
pub proof fn law_sealed_packet_is_opened(
    sender: SessionView,
    receiver: SessionView,
    payload: Seq<u8>,
    sent: Result<Seq<u8>, Error>,
    sender_after: SessionView,
    received: Result<Seq<u8>, Error>,
    receiver_after: SessionView,
)
    requires
        noise::in_step(sender.channel, receiver.channel),
        sender.session_id == receiver.session_id,
        noise::can_seal(sender.channel, payload.len(), BUFFER_LEN as nat),
        receiver.replay.verdict(sender.tx_seq) is Ok,
        sender.sealed(payload, sender_after, sent),
        sent matches Ok(raw) ==> receiver.opened(raw, receiver_after, received),
    ensures
        sent is Ok,
        received == Ok::<Seq<u8>, Error>(payload),
        noise::in_step(sender_after.channel, receiver_after.channel),
{
    let message = noise::sealed(sender.channel, payload);
    lemma_packet_accepted(
        PacketType::Data,
        sender.session_id,
        sender.tx_seq,
        message,
        Some(receiver.session_id),
        receiver.replay,
    );
    assert(noise::opened(receiver.channel, message) == Some(payload));
    assert(noise::can_open(receiver.channel, message, BUFFER_LEN as nat));
}

/// One session comes of the other by sealing one payload or by being handed one datagram.
pub open spec fn is_step(before: SessionView, after: SessionView) -> bool {
    ||| exists|payload: Seq<u8>, r: Result<Seq<u8>, Error>| before.sealed(payload, after, r)
    ||| exists|raw: Seq<u8>, r: Result<Seq<u8>, Error>| before.opened(raw, after, r)
}

/// Each session comes of the one before it.
pub open spec fn is_history(sessions: Seq<SessionView>) -> bool {
    forall|i: int|
        0 <= i < sessions.len() - 1 ==> is_step(#[trigger] sessions[i], sessions[i + 1])
}

/// A packet number that is refused stays refused for the rest of a session, and the session keeps
/// its identifier.
proof fn lemma_refused_for_good(sessions: Seq<SessionView>, seq: u64, n: int)
    requires
        is_history(sessions),
        0 <= n < sessions.len(),
        sessions[0].replay.verdict(seq) is Err,
    ensures
        sessions[n].replay.verdict(seq) is Err,
        sessions[n].session_id == sessions[0].session_id,
    decreases n,
{
    if n > 0 {
        lemma_refused_for_good(sessions, seq, n - 1);
        assert(is_step(sessions[n - 1], sessions[n]));
    }
}

/// A packet that was opened is refused whenever it comes again, whatever was sealed and received
/// in between; and nothing changes then.
pub proof fn law_replayed_packet_is_refused(
    session: SessionView,
    raw: Seq<u8>,
    first: Result<Seq<u8>, Error>,
    between: Seq<SessionView>,
    later: SessionView,
    second: Result<Seq<u8>, Error>,
)
    requires
        between.len() > 0,
        session.opened(raw, between[0], first),
        first is Ok,
        is_history(between),
        between.last().opened(raw, later, second),
    ensures
        second is Err,
        later.replay == between.last().replay,
        noise::opened_count(later.channel) == noise::opened_count(between.last().channel),
{
    let p = session::checked_packet(
        raw,
        PacketType::Data,
        PROTOCOL_VERSION,
        Some(session.session_id),
    )->Ok_0;
    assert(between[0].replay == session.replay.after(p.seq));
    assert(between[0].replay.verdict(p.seq) is Err);
    lemma_refused_for_good(between, p.seq, between.len() - 1);
}

/// A datagram that is not one of the packets expected changes neither the channel nor the
/// replay window.
pub proof fn law_unexpected_packet_changes_nothing(
    session: SessionView,
    raw: Seq<u8>,
    after: SessionView,
    r: Result<Seq<u8>, Error>,
)
    requires
        session.opened(raw, after, r),
        session::checked_packet(
            raw,
            PacketType::Data,
            PROTOCOL_VERSION,
            Some(session.session_id),
        ) is Err,
    ensures
        r is Err,
        after.replay == session.replay,
        noise::opened_count(after.channel) == noise::opened_count(session.channel),
{
}

/// What happens on one side of a session, and what comes of it: a payload is sealed, or a datagram
/// is opened.
pub enum SessionEvent {
    Sealed { payload: Seq<u8>, r: Result<Seq<u8>, Error> },
    Opened { raw: Seq<u8>, r: Result<Seq<u8>, Error> },
}

/// One side of a session before, between and after some events.
pub open spec fn is_run(sessions: Seq<SessionView>, events: Seq<SessionEvent>) -> bool {
    &&& sessions.len() == events.len() + 1
    &&& forall|i: int|
        0 <= i < events.len() ==> match #[trigger] events[i] {
            SessionEvent::Sealed { payload, r } => sessions[i].sealed(payload, sessions[i + 1], r),
            SessionEvent::Opened { raw, r } => sessions[i].opened(raw, sessions[i + 1], r),
        }
}

/// The event sealed a payload, and this datagram came of it.
pub open spec fn sent_by(event: SessionEvent, raw: Seq<u8>) -> bool {
    event matches SessionEvent::Sealed { r, .. } && r == Ok::<Seq<u8>, Error>(raw)
}

/// A datagram is a packet with this number.
pub open spec fn is_numbered(raw: Seq<u8>, number: int) -> bool {
    WirePacketView::decoded(raw) matches Ok(p) && p.seq == number
}

/// Of one side's next number: it only grows, by no more than one with each event.
proof fn lemma_numbers_grow(sessions: Seq<SessionView>, events: Seq<SessionEvent>, m: int, n: int)
    requires
        is_run(sessions, events),
        0 <= m <= n <= events.len(),
        sessions[m].tx_seq + (n - m) <= u64::MAX,
    ensures
        sessions[m].tx_seq <= sessions[n].tx_seq <= sessions[m].tx_seq + (n - m),
    decreases n - m,
{
    if m < n {
        lemma_numbers_grow(sessions, events, m, n - 1);
        let event = events[n - 1];
        assert(sessions[n - 1].tx_seq < u64::MAX);
        assert(match event {
            SessionEvent::Sealed { payload, r } => sessions[n - 1].sealed(payload, sessions[n], r),
            SessionEvent::Opened { raw, r } => sessions[n - 1].opened(raw, sessions[n], r),
        });
    }
}

/// A datagram that was sealed has the number that was next, and then a higher one is next.
proof fn lemma_sent_number(sessions: Seq<SessionView>, events: Seq<SessionEvent>, i: int, raw: Seq<u8>)
    requires
        is_run(sessions, events),
        0 <= i < events.len(),
        sessions[i].tx_seq < u64::MAX,
        sent_by(events[i], raw),
    ensures
        is_numbered(raw, sessions[i].tx_seq as int),
        sessions[i + 1].tx_seq > sessions[i].tx_seq,
{
    let payload = events[i]->payload;
    let before = sessions[i];
    assert(before.sealed(payload, sessions[i + 1], events[i]->Sealed_r));
    wire::law_packet_roundtrip(
        session::packet(
            PacketType::Data,
            before.session_id,
            before.tx_seq,
            noise::sealed(before.channel, payload),
        ),
    );
}

/// Within a session no side uses a packet number twice, short of as many packets as there are
/// numbers: of two packets that it sealed the later one has the higher number, whatever it sealed
/// and opened in between and before.
pub proof fn law_packet_numbers_only_grow(
    sessions: Seq<SessionView>,
    events: Seq<SessionEvent>,
    i: int,
    j: int,
    earlier: Seq<u8>,
    later: Seq<u8>,
) -> (numbers: (int, int))
    requires
        is_run(sessions, events),
        sessions[0].tx_seq + events.len() <= u64::MAX,
        0 <= i < j < events.len(),
        sent_by(events[i], earlier),
        sent_by(events[j], later),
    ensures
        is_numbered(earlier, numbers.0),
        is_numbered(later, numbers.1),
        sessions[0].tx_seq <= numbers.0 < numbers.1,
{
    lemma_numbers_grow(sessions, events, 0, i);
    lemma_sent_number(sessions, events, i, earlier);
    lemma_numbers_grow(sessions, events, 0, i + 1);
    lemma_numbers_grow(sessions, events, i + 1, j);
    lemma_sent_number(sessions, events, j, later);
    (sessions[i].tx_seq as int, sessions[j].tx_seq as int)
}

/// The packets of the initiator have growing numbers from its first one on: the two of the
/// handshake, and then those of the session, in the order in which they were sealed.
pub proof fn law_initiator_numbers_only_grow(
    local: CapabilitySet,
    initiator: InitiatorView,
    raw1: Seq<u8>,
    raw2: Seq<u8>,
    raw3: Seq<u8>,
    sessions: Seq<SessionView>,
    events: Seq<SessionEvent>,
    i: int,
    raw: Seq<u8>,
) -> (numbers: (int, int, int))
    requires
        initiator.started(local, initiator.session_id, raw1),
        is_run(sessions, events),
        initiator.finished(raw2, Ok((sessions[0], raw3))),
        events.len() <= u64::MAX - 2,
        0 <= i < events.len(),
        sent_by(events[i], raw),
    ensures
        is_numbered(raw1, numbers.0),
        is_numbered(raw3, numbers.1),
        is_numbered(raw, numbers.2),
        numbers.0 < numbers.1 < numbers.2,
        sessions[0].tx_seq == 2,
{
    let m1 = noise::handshake_messages(initiator.handshake)[0];
    wire::law_packet_roundtrip(
        session::packet(PacketType::Handshake1, initiator.session_id, 0, m1),
    );
    let m3 = noise::channel_messages(sessions[0].channel)[2];
    wire::law_packet_roundtrip(
        session::packet(PacketType::Handshake3, initiator.session_id, initiator.tx_seq, m3),
    );
    lemma_numbers_grow(sessions, events, 0, i);
    lemma_sent_number(sessions, events, i, raw);
    (0, 1, sessions[i].tx_seq as int)
}

/// The packets of the responder have growing numbers from its first one on: the one of the
/// handshake, and then those of the session, in the order in which they were sealed.
pub proof fn law_responder_numbers_only_grow(
    responder: ResponderView,
    raw1: Seq<u8>,
    answered: AnsweredView,
    raw2: Seq<u8>,
    raw3: Seq<u8>,
    sessions: Seq<SessionView>,
    events: Seq<SessionEvent>,
    i: int,
    raw: Seq<u8>,
) -> (numbers: (int, int))
    requires
        responder.wf(),
        responder.answered(raw1, Ok((answered, raw2))),
        is_run(sessions, events),
        answered.finished(raw3, Ok(sessions[0])),
        events.len() <= u64::MAX - 2,
        0 <= i < events.len(),
        sent_by(events[i], raw),
    ensures
        is_numbered(raw2, numbers.0),
        is_numbered(raw, numbers.1),
        numbers.0 < numbers.1,
        sessions[0].tx_seq == 1,
{
    let m2 = noise::handshake_messages(answered.handshake)[1];
    wire::law_packet_roundtrip(session::packet(PacketType::Handshake2, answered.session_id, 0, m2));
    lemma_numbers_grow(sessions, events, 0, i);
    lemma_sent_number(sessions, events, i, raw);
    (0, sessions[i].tx_seq as int)
}

/// The second side is in step with the first, in the same session, and has seen only numbers below
/// the first side's next one.
pub open spec fn follows(sender: SessionView, receiver: SessionView) -> bool {
    &&& noise::in_step(sender.channel, receiver.channel)
    &&& sender.session_id == receiver.session_id
    &&& receiver.replay.highest matches Some(highest) ==> highest < sender.tx_seq
}

/// A payload that fits is sealed and opened, and the receiver follows the sender again.
proof fn lemma_follows(
    sender: SessionView,
    receiver: SessionView,
    payload: Seq<u8>,
    sent: Result<Seq<u8>, Error>,
    sender_after: SessionView,
    received: Result<Seq<u8>, Error>,
    receiver_after: SessionView,
)
    requires
        follows(sender, receiver),
        payload.len() <= 4080,
        noise::sealed_count(sender.channel) < u64::MAX,
        sender.tx_seq < u64::MAX,
        sender.sealed(payload, sender_after, sent),
        sent matches Ok(raw) ==> receiver.opened(raw, receiver_after, received),
    ensures
        sent is Ok,
        received == Ok::<Seq<u8>, Error>(payload),
        follows(sender_after, receiver_after),
        noise::sealed_count(sender_after.channel) == noise::sealed_count(sender.channel) + 1,
        sender_after.tx_seq == sender.tx_seq + 1,
        sender_after.replay == sender.replay,
        receiver_after.tx_seq == receiver.tx_seq,
        noise::sealed_count(receiver_after.channel) == noise::sealed_count(receiver.channel),
        noise::opened_count(sender_after.channel) == noise::opened_count(sender.channel),
{
    law_sealed_packet_is_opened(
        sender,
        receiver,
        payload,
        sent,
        sender_after,
        received,
        receiver_after,
    );
    lemma_packet_accepted(
        PacketType::Data,
        sender.session_id,
        sender.tx_seq,
        noise::sealed(sender.channel, payload),
        Some(receiver.session_id),
        receiver.replay,
    );
}

/// A handshake that was completed leaves each side following the other, with nothing sealed yet, and
/// the numbers of its packets are used up on the side that received them.
pub proof fn law_handshake_leaves_both_in_step(
    client: CapabilitySet,
    server: CapabilitySet,
    session_id: u64,
    initiator: InitiatorView,
    raw1: Seq<u8>,
    responder: ResponderView,
    answered: AnsweredView,
    raw2: Seq<u8>,
    client_session: SessionView,
    raw3: Seq<u8>,
    server_session: SessionView,
)
    requires
        initiator.started(client, session_id, raw1),
        responder.wf(),
        responder.local == server,
        responder.replay == ReplayView::fresh(),
        responder.answered(raw1, Ok((answered, raw2))),
        initiator.finished(raw2, Ok((client_session, raw3))),
        answered.finished(raw3, Ok(server_session)),
    ensures
        follows(client_session, server_session),
        follows(server_session, client_session),
        noise::sealed_count(client_session.channel) == 0,
        noise::sealed_count(server_session.channel) == 0,
        client_session.tx_seq == 2,
        server_session.tx_seq == 1,
        client_session.replay.verdict(0) is Err,
        server_session.replay.verdict(0) is Err,
        server_session.replay.verdict(1) is Err,
{
    law_handshake_completes(
        client,
        server,
        session_id,
        initiator,
        raw1,
        responder,
        Ok((answered, raw2)),
        Ok((client_session, raw3)),
        Ok(server_session),
    );
    let m1 = noise::handshake_messages(initiator.handshake)[0];
    lemma_packet_accepted(
        PacketType::Handshake1,
        session_id,
        0,
        m1,
        None,
        ReplayView::fresh(),
    );
    let m2 = noise::handshake_messages(answered.handshake)[1];
    lemma_packet_accepted(
        PacketType::Handshake2,
        session_id,
        0,
        m2,
        Some(session_id),
        ReplayView::fresh(),
    );
    let m3 = noise::channel_messages(client_session.channel)[2];
    lemma_packet_accepted(
        PacketType::Handshake3,
        session_id,
        1,
        m3,
        Some(session_id),
        answered.replay,
    );
}

/// A payload on its way from one side of a session to the other.
pub struct Delivery {
    pub from_initiator: bool,
    pub payload: Seq<u8>,
}

/// Payloads are sealed and opened one after the other, in either direction: both sides before,
/// between and after, what came of sealing each payload and what of opening it.
pub open spec fn is_conversation(
    initiators: Seq<SessionView>,
    responders: Seq<SessionView>,
    deliveries: Seq<Delivery>,
    sent: Seq<Result<Seq<u8>, Error>>,
    received: Seq<Result<Seq<u8>, Error>>,
) -> bool {
    &&& initiators.len() == deliveries.len() + 1
    &&& responders.len() == deliveries.len() + 1
    &&& sent.len() == deliveries.len()
    &&& received.len() == deliveries.len()
    &&& forall|i: int|
        0 <= i < deliveries.len() ==> if (#[trigger] deliveries[i]).from_initiator {
            &&& initiators[i].sealed(deliveries[i].payload, initiators[i + 1], sent[i])
            &&& sent[i] matches Ok(raw) ==> responders[i].opened(
                raw,
                responders[i + 1],
                received[i],
            )
        } else {
            &&& responders[i].sealed(deliveries[i].payload, responders[i + 1], sent[i])
            &&& sent[i] matches Ok(raw) ==> initiators[i].opened(
                raw,
                initiators[i + 1],
                received[i],
            )
        }
}

/// Both sides follow each other all through a conversation, and what was sent before has arrived.
proof fn lemma_conversation(
    initiators: Seq<SessionView>,
    responders: Seq<SessionView>,
    deliveries: Seq<Delivery>,
    sent: Seq<Result<Seq<u8>, Error>>,
    received: Seq<Result<Seq<u8>, Error>>,
    n: int,
)
    requires
        is_conversation(initiators, responders, deliveries, sent, received),
        follows(initiators[0], responders[0]),
        follows(responders[0], initiators[0]),
        noise::sealed_count(initiators[0].channel) == 0,
        noise::sealed_count(responders[0].channel) == 0,
        initiators[0].tx_seq <= 2,
        responders[0].tx_seq <= 2,
        deliveries.len() <= u64::MAX - 2,
        forall|i: int| 0 <= i < deliveries.len() ==> (#[trigger] deliveries[i]).payload.len() <= 4080,
        0 <= n <= deliveries.len(),
    ensures
        follows(initiators[n], responders[n]),
        follows(responders[n], initiators[n]),
        noise::sealed_count(initiators[n].channel) <= n,
        noise::sealed_count(responders[n].channel) <= n,
        initiators[n].tx_seq <= 2 + n,
        responders[n].tx_seq <= 2 + n,
        forall|i: int|
            0 <= i < n ==> (#[trigger] sent[i]) is Ok && received[i] == Ok::<Seq<u8>, Error>(
                deliveries[i].payload,
            ),
    decreases n,
{
    if n > 0 {
        let m = n - 1;
        lemma_conversation(initiators, responders, deliveries, sent, received, m);
        let delivery = deliveries[m];
        if delivery.from_initiator {
            lemma_follows(
                initiators[m],
                responders[m],
                delivery.payload,
                sent[m],
                initiators[n],
                received[m],
                responders[n],
            );
        } else {
            lemma_follows(
                responders[m],
                initiators[m],
                delivery.payload,
                sent[m],
                responders[n],
                received[m],
                initiators[n],
            );
        }
    }
}

/// From the handshake on every payload that fits a message arrives: however many are sent, short of
/// as many as there are numbers, and whichever side sends each of them, all are sealed, and each is
/// opened on the other side as what it was.
pub proof fn law_every_message_arrives(
    client: CapabilitySet,
    server: CapabilitySet,
    session_id: u64,
    initiator: InitiatorView,
    raw1: Seq<u8>,
    responder: ResponderView,
    answered: AnsweredView,
    raw2: Seq<u8>,
    raw3: Seq<u8>,
    initiators: Seq<SessionView>,
    responders: Seq<SessionView>,
    deliveries: Seq<Delivery>,
    sent: Seq<Result<Seq<u8>, Error>>,
    received: Seq<Result<Seq<u8>, Error>>,
)
    requires
        initiator.started(client, session_id, raw1),
        responder.wf(),
        responder.local == server,
        responder.replay == ReplayView::fresh(),
        responder.answered(raw1, Ok((answered, raw2))),
        initiator.finished(raw2, Ok((initiators[0], raw3))),
        answered.finished(raw3, Ok(responders[0])),
        is_conversation(initiators, responders, deliveries, sent, received),
        deliveries.len() <= u64::MAX - 2,
        forall|i: int| 0 <= i < deliveries.len() ==> (#[trigger] deliveries[i]).payload.len() <= 4080,
    ensures
        forall|i: int|
            0 <= i < deliveries.len() ==> (#[trigger] sent[i]) is Ok && received[i] == Ok::<
                Seq<u8>,
                Error,
            >(deliveries[i].payload),
{
    law_handshake_leaves_both_in_step(
        client,
        server,
        session_id,
        initiator,
        raw1,
        responder,
        answered,
        raw2,
        initiators[0],
        raw3,
        responders[0],
    );
    lemma_conversation(
        initiators,
        responders,
        deliveries,
        sent,
        received,
        deliveries.len() as int,
    );
}

/// The datagrams of one side may wait: where it sealed some payloads one after the other, and the
/// other side, which follows it, opens the datagrams later in the same order, each gives its payload.
pub proof fn law_waiting_messages_arrive(
    senders: Seq<SessionView>,
    receivers: Seq<SessionView>,
    payloads: Seq<Seq<u8>>,
    sent: Seq<Seq<u8>>,
    received: Seq<Result<Seq<u8>, Error>>,
)
    requires
        senders.len() == payloads.len() + 1,
        receivers.len() == payloads.len() + 1,
        sent.len() == payloads.len(),
        received.len() == payloads.len(),
        follows(senders[0], receivers[0]),
        noise::sealed_count(senders[0].channel) + payloads.len() <= u64::MAX,
        senders[0].tx_seq + payloads.len() <= u64::MAX,
        forall|i: int| 0 <= i < payloads.len() ==> (#[trigger] payloads[i]).len() <= 4080,
        forall|i: int|
            0 <= i < payloads.len() ==> senders[i].sealed(
                #[trigger] payloads[i],
                senders[i + 1],
                Ok(sent[i]),
            ),
        forall|i: int|
            0 <= i < payloads.len() ==> receivers[i].opened(
                #[trigger] sent[i],
                receivers[i + 1],
                received[i],
            ),
    ensures
        follows(senders.last(), receivers.last()),
        forall|i: int|
            0 <= i < payloads.len() ==> (#[trigger] received[i]) == Ok::<Seq<u8>, Error>(payloads[i]),
        noise::sealed_count(senders.last().channel) == noise::sealed_count(senders[0].channel)
            + payloads.len(),
        senders.last().tx_seq == senders[0].tx_seq + payloads.len(),
    decreases payloads.len(),
{
    if payloads.len() > 0 {
        let m = payloads.len() - 1;
        assert forall|i: int| 0 <= i < m implies (#[trigger] payloads.drop_last()[i]) == payloads[i]
            && sent.drop_last()[i] == sent[i] by {}
        assert forall|i: int| 0 <= i < m implies senders.drop_last()[i].sealed(
            #[trigger] payloads.drop_last()[i],
            senders.drop_last()[i + 1],
            Ok(sent.drop_last()[i]),
        ) by {
            assert(senders[i].sealed(payloads[i], senders[i + 1], Ok(sent[i])));
        }
        assert forall|i: int| 0 <= i < m implies receivers.drop_last()[i].opened(
            #[trigger] sent.drop_last()[i],
            receivers.drop_last()[i + 1],
            received.drop_last()[i],
        ) by {
            assert(receivers[i].opened(sent[i], receivers[i + 1], received[i]));
        }
        law_waiting_messages_arrive(
            senders.drop_last(),
            receivers.drop_last(),
            payloads.drop_last(),
            sent.drop_last(),
            received.drop_last(),
        );
        assert forall|i: int| 0 <= i < m implies (#[trigger] received[i]) == Ok::<Seq<u8>, Error>(
            payloads[i],
        ) by {
            assert(received.drop_last()[i] == received[i]);
            assert(payloads.drop_last()[i] == payloads[i]);
        }
        assert(senders.drop_last().last() == senders[m]);
        assert(receivers.drop_last().last() == receivers[m]);
        lemma_follows(
            senders[m],
            receivers[m],
            payloads[m],
            Ok(sent[m]),
            senders[m + 1],
            received[m],
            receivers[m + 1],
        );
    }
}

/// A payload that fits no message is refused, and uses no number; one that fits is sealed, as long
/// as messages can be numbered.
pub proof fn law_sealing_is_refused_without_room(
    session: SessionView,
    payload: Seq<u8>,
    after: SessionView,
    r: Result<Seq<u8>, Error>,
)
    requires
        session.sealed(payload, after, r),
        noise::sealed_count(session.channel) < u64::MAX,
    ensures
        r is Ok <==> payload.len() <= 4080,
        r matches Err(e) ==> e == Error::SealFailed && after.tx_seq == session.tx_seq
            && noise::sealed_count(after.channel) == noise::sealed_count(session.channel),
        after.session_id == session.session_id,
        after.selected == session.selected,
        after.replay == session.replay,
{
}

/// Once a data packet of the session was looked at its number is used up, whether it could be opened
/// or not; a datagram that is none uses up nothing. Neither changes which number is sent next.
pub proof fn law_received_number_is_used_up(
    session: SessionView,
    p: WirePacketView,
    after: SessionView,
    r: Result<Seq<u8>, Error>,
)
    requires
        p.payload.len() <= u32::MAX,
        session.opened(p.encoded(), after, r),
    ensures
        p.version == 1 && p.packet_type == PacketType::Data && p.session_id == session.session_id
            ==> after.replay.verdict(p.seq) is Err,
        p.version != 1 || p.packet_type != PacketType::Data || p.session_id != session.session_id
            ==> r is Err && after.replay == session.replay,
        r is Ok ==> session.replay.verdict(p.seq) is Ok,
        after.tx_seq == session.tx_seq,
        after.session_id == session.session_id,
        after.selected == session.selected,
{
    wire::law_packet_roundtrip(p);
    crate::codec::lemma_be_u16(p.flags);
    crate::codec::lemma_be_u64(p.session_id);
    crate::codec::lemma_be_u64(p.seq);
    crate::codec::lemma_be_u32(p.payload.len() as u32);
    assert(p.encoded().len() >= HEADER_LEN);
}

/// A datagram is accepted just where it is a packet of the version, the type and, if one is
/// expected, the session that are expected, and then it is read as that packet. Else the first of
/// these that is wrong is the reason.
pub proof fn law_only_the_expected_packet_is_accepted(
    p: WirePacketView,
    expected_type: PacketType,
    expected_version: u8,
    expected_session: Option<u64>,
)
    requires
        p.payload.len() <= u32::MAX,
    ensures
        ({
            let r = session::checked_packet(
                p.encoded(),
                expected_type,
                expected_version,
                expected_session,
            );
            let same_version = p.version == expected_version;
            let same_type = p.packet_type == expected_type;
            let same_session = expected_session matches Some(id) ==> p.session_id == id;
            &&& same_version && same_type && same_session ==> r == Ok::<WirePacketView, Error>(p)
            &&& !same_version ==> r == Err::<WirePacketView, Error>(
                Error::UnsupportedVersion { got: p.version, expected: expected_version },
            )
            &&& same_version && !same_type ==> r == Err::<WirePacketView, Error>(
                Error::UnexpectedPacketType { got: p.packet_type, expected: expected_type },
            )
            &&& same_version && same_type && !same_session ==> r == Err::<WirePacketView, Error>(
                Error::SessionMismatch { got: p.session_id, expected: expected_session->0 },
            )
        }),
{
    wire::law_packet_roundtrip(p);
    crate::codec::lemma_be_u16(p.flags);
    crate::codec::lemma_be_u64(p.session_id);
    crate::codec::lemma_be_u64(p.seq);
    crate::codec::lemma_be_u32(p.payload.len() as u32);
    assert(p.encoded().len() >= HEADER_LEN);
}

/// The responder takes the echo of its selection and nothing else.
pub proof fn law_only_the_selection_is_echoed(selected: negotiation::Negotiated, finish: Seq<u8>)
    ensures
        session::client_finish_verdict(selected, finish) is Ok <==> finish
            == (negotiation::ClientFinish {
            selected_version: selected.version,
            selected_caps: selected.caps,
        }).encoded(),
{
    let echo = negotiation::ClientFinish {
        selected_version: selected.version,
        selected_caps: selected.caps,
    };
    negotiation::law_client_finish_roundtrip(echo, finish);
    negotiation::law_client_finish_roundtrip(echo, echo.encoded());
}

/// A packet that is validated is the expected one and has a number that was not used, and the number
/// is used up then. One that is not the expected one uses up nothing; one whose number was used is
/// refused for that.
pub proof fn law_validation_uses_the_number(
    p: WirePacketView,
    expected_type: PacketType,
    expected_version: u8,
    expected_session: Option<u64>,
    replay: ReplayView,
)
    requires
        p.payload.len() <= u32::MAX,
    ensures
        ({
            let raw = p.encoded();
            let r = session::packet_verdict(
                raw,
                expected_type,
                expected_version,
                expected_session,
                replay,
            );
            let after = session::replay_after(
                raw,
                expected_type,
                expected_version,
                expected_session,
                replay,
            );
            let expected = p.version == expected_version && p.packet_type == expected_type && (
            expected_session matches Some(id) ==> p.session_id == id);
            &&& !expected ==> r is Err && after == replay
            &&& expected && replay.verdict(p.seq) is Ok ==> r == Ok::<WirePacketView, Error>(p)
                && after.verdict(p.seq) is Err
            &&& expected && replay.verdict(p.seq) is Err ==> r == Err::<WirePacketView, Error>(
                replay.verdict(p.seq)->Err_0,
            ) && after == replay
        }),
{
    law_only_the_expected_packet_is_accepted(p, expected_type, expected_version, expected_session);
}

/// A datagram holds a packet of this version and type, in the session if one is given, whose number
/// was not used.
pub open spec fn is_fresh_packet(
    raw: Seq<u8>,
    packet_type: PacketType,
    session_id: Option<u64>,
    replay: ReplayView,
    p: WirePacketView,
) -> bool {
    &&& raw == p.encoded()
    &&& p.version == 1
    &&& p.packet_type == packet_type
    &&& session_id matches Some(id) ==> p.session_id == id
    &&& replay.verdict(p.seq) is Ok
}

/// Each step of the handshake goes on only with a fresh packet of its own type, in the session once
/// there is one, that holds a message the handshake can read. With a packet that holds none, the
/// step of the handshake is named in the refusal.
pub proof fn law_handshake_steps_expect_their_packets(
    responder: ResponderView,
    raw1: Seq<u8>,
    answer: Result<(AnsweredView, Seq<u8>), Error>,
    initiator: InitiatorView,
    raw2: Seq<u8>,
    finish: Result<(SessionView, Seq<u8>), Error>,
    answered: AnsweredView,
    raw3: Seq<u8>,
    done: Result<SessionView, Error>,
    p: WirePacketView,
)
    requires
        responder.answered(raw1, answer),
        initiator.finished(raw2, finish),
        answered.finished(raw3, done),
    ensures
        answer is Ok ==> exists|q: WirePacketView| #[trigger]
            is_fresh_packet(raw1, PacketType::Handshake1, None, responder.replay, q)
                && noise::can_read(responder.handshake, q.payload, 4096) && answer->Ok_0.0.session_id
                == q.session_id,
        finish is Ok ==> exists|q: WirePacketView| #[trigger]
            is_fresh_packet(
                raw2,
                PacketType::Handshake2,
                Some(initiator.session_id),
                initiator.replay,
                q,
            ) && noise::can_read(initiator.handshake, q.payload, 4096),
        done is Ok ==> exists|q: WirePacketView| #[trigger]
            is_fresh_packet(
                raw3,
                PacketType::Handshake3,
                Some(answered.session_id),
                answered.replay,
                q,
            ) && noise::can_read(answered.handshake, q.payload, 4096),
        p.payload.len() <= u32::MAX && is_fresh_packet(
            raw1,
            PacketType::Handshake1,
            None,
            responder.replay,
            p,
        ) && !noise::can_read(responder.handshake, p.payload, 4096) ==> answer == Err::<
            (AnsweredView, Seq<u8>),
            Error,
        >(Error::HandshakeRead { message: 1 }),
        p.payload.len() <= u32::MAX && is_fresh_packet(
            raw2,
            PacketType::Handshake2,
            Some(initiator.session_id),
            initiator.replay,
            p,
        ) && !noise::can_read(initiator.handshake, p.payload, 4096) ==> finish == Err::<
            (SessionView, Seq<u8>),
            Error,
        >(Error::HandshakeRead { message: 2 }),
        p.payload.len() <= u32::MAX && is_fresh_packet(
            raw3,
            PacketType::Handshake3,
            Some(answered.session_id),
            answered.replay,
            p,
        ) && !noise::can_read(answered.handshake, p.payload, 4096) ==> done == Err::<
            SessionView,
            Error,
        >(Error::HandshakeRead { message: 3 }),
{
    wire::law_packet_canonical(raw1);
    wire::law_packet_canonical(raw2);
    wire::law_packet_canonical(raw3);
    if answer is Ok {
        let q = WirePacketView::decoded(raw1)->Ok_0;
        assert(is_fresh_packet(raw1, PacketType::Handshake1, None, responder.replay, q));
    }
    if finish is Ok {
        let q = WirePacketView::decoded(raw2)->Ok_0;
        assert(is_fresh_packet(
            raw2,
            PacketType::Handshake2,
            Some(initiator.session_id),
            initiator.replay,
            q,
        ));
    }
    if done is Ok {
        let q = WirePacketView::decoded(raw3)->Ok_0;
        assert(is_fresh_packet(
            raw3,
            PacketType::Handshake3,
            Some(answered.session_id),
            answered.replay,
            q,
        ));
    }
    if p.payload.len() <= u32::MAX {
        law_only_the_expected_packet_is_accepted(p, PacketType::Handshake1, 1, None);
        law_only_the_expected_packet_is_accepted(
            p,
            PacketType::Handshake2,
            1,
            Some(initiator.session_id),
        );
        law_only_the_expected_packet_is_accepted(
            p,
            PacketType::Handshake3,
            1,
            Some(answered.session_id),
        );
    }
}

/// A data packet of the session with a fresh number gives just what the channel finds in it, and one
/// in which it finds nothing, or more than fits, is refused; the channel moves on only with the former.
pub proof fn law_opening_is_what_the_channel_finds(
    session: SessionView,
    p: WirePacketView,
    after: SessionView,
    r: Result<Seq<u8>, Error>,
)
    requires
        p.payload.len() <= u32::MAX,
        session.opened(p.encoded(), after, r),
        is_fresh_packet(
            p.encoded(),
            PacketType::Data,
            Some(session.session_id),
            session.replay,
            p,
        ),
    ensures
        r matches Ok(payload) ==> noise::opened(session.channel, p.payload) == Some(payload)
            && payload.len() <= 4096 && noise::opened_count(after.channel) == noise::opened_count(
            session.channel,
        ) + 1,
        r matches Err(e) ==> e == Error::OpenFailed && noise::opened_count(after.channel)
            == noise::opened_count(session.channel),
        noise::can_open(session.channel, p.payload, 4096) ==> r is Ok,
{
    law_only_the_expected_packet_is_accepted(p, PacketType::Data, 1, Some(session.session_id));
}

/// What the hellos and the echo tell is what a node has and what was selected, and packets are of
/// version one and without flags.
pub proof fn law_hellos_tell_the_offers(
    local: CapabilitySet,
    selected: negotiation::Negotiated,
    packet_type: PacketType,
    session_id: u64,
    seq: u64,
    payload: Seq<u8>,
)
    ensures
        session::offer(local).min_version == local.min_version,
        session::offer(local).max_version == local.max_version,
        session::offer(local).caps == local.mask,
        session::server_hello(local, selected).min_version == local.min_version,
        session::server_hello(local, selected).max_version == local.max_version,
        session::server_hello(local, selected).caps == local.mask,
        session::server_hello(local, selected).selected_version == selected.version,
        session::server_hello(local, selected).selected_caps == selected.caps,
        session::client_finish(selected).selected_version == selected.version,
        session::client_finish(selected).selected_caps == selected.caps,
        session::packet(packet_type, session_id, seq, payload) == (WirePacketView {
            version: 1,
            packet_type,
            flags: 0,
            session_id,
            seq,
            payload,
        }),
{
}

/// An echo of another version is refused for that, and one of the same version with other features
/// for those.
pub proof fn law_wrong_echo_is_named(
    finish: negotiation::ClientFinish,
    selected: negotiation::Negotiated,
)
    ensures
        finish.selected_version != selected.version ==> session::finish_verdict(finish, selected)
            == Err::<(), Error>(
            Error::FinishVersionMismatch {
                got: finish.selected_version,
                expected: selected.version,
            },
        ),
        finish.selected_version == selected.version && finish.selected_caps != selected.caps
            ==> session::finish_verdict(finish, selected) == Err::<(), Error>(
            Error::FinishCapabilitiesMismatch { got: finish.selected_caps, expected: selected.caps },
        ),
        finish.selected_version == selected.version && finish.selected_caps == selected.caps
            ==> session::finish_verdict(finish, selected) is Ok,
{
}

} // verus!
