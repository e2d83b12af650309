//! The session: packets that are checked, the handshake that both sides go through, and the
//! channel that comes of it.

use crate::codec;
use crate::error::Error;
use crate::negotiation;
use crate::negotiation::{
    negotiate, parse_server_and_validate, CapabilitySet, ClientFinish, ClientHello, Negotiated,
    ServerHello, CAP_DHT_V1, CAP_FEC_V1, CAP_OBFS_V1, CAP_RELAY_V1,
};
use crate::noise;
use crate::noise::{
    build_initiator, build_responder, generate_private_key, into_channel, open_message,
    read_handshake, seal_message, write_handshake, NOISE_PATTERN,
};
use crate::replay::{ReplayView, ReplayWindow};
use crate::wire::{PacketType, WirePacket, WirePacketView, HEADER_LEN, PROTOCOL_VERSION};
use snow::{HandshakeState, TransportState};
use vstd::prelude::*;

verus! {

/// The room for one message, sealed or open.
pub const BUFFER_LEN: usize = 4096;

/// A packet of this protocol's version, without flags.
pub open spec fn packet(packet_type: PacketType, session_id: u64, seq: u64, payload: Seq<u8>) -> WirePacketView {
    WirePacketView { version: PROTOCOL_VERSION, packet_type, flags: 0, session_id, seq, payload }
}

/// The packet that a datagram holds, if it is one of the version, type and session that are
/// expected; else the first thing wrong with it.
pub open spec fn checked_packet(
    raw: Seq<u8>,
    expected_type: PacketType,
    expected_version: u8,
    expected_session: Option<u64>,
) -> Result<WirePacketView, Error> {
    if raw.len() < HEADER_LEN {
        Err(Error::PacketShorterThanHeader)
    } else {
        match WirePacketView::decoded(raw) {
            Err(e) => Err(e),
            Ok(p) => if p.version != expected_version {
                Err(Error::UnsupportedVersion { got: p.version, expected: expected_version })
            } else if p.packet_type != expected_type {
                Err(Error::UnexpectedPacketType { got: p.packet_type, expected: expected_type })
            } else if expected_session is Some && p.session_id != expected_session->0 {
                Err(Error::SessionMismatch { got: p.session_id, expected: expected_session->0 })
            } else {
                Ok(p)
            },
        }
    }
}

/// The packet that a datagram holds, if it is the expected one and was not seen before.
pub open spec fn packet_verdict(
    raw: Seq<u8>,
    expected_type: PacketType,
    expected_version: u8,
    expected_session: Option<u64>,
    replay: ReplayView,
) -> Result<WirePacketView, Error> {
    match checked_packet(raw, expected_type, expected_version, expected_session) {
        Err(e) => Err(e),
        Ok(p) => match replay.verdict(p.seq) {
            Err(e) => Err(e),
            Ok(_) => Ok(p),
        },
    }
}

/// The replay window once a datagram was looked at: only the packets expected are recorded.
pub open spec fn replay_after(
    raw: Seq<u8>,
    expected_type: PacketType,
    expected_version: u8,
    expected_session: Option<u64>,
    replay: ReplayView,
) -> ReplayView {
    match checked_packet(raw, expected_type, expected_version, expected_session) {
        Err(_) => replay,
        Ok(p) => replay.after(p.seq),
    }
}

/// Reads a datagram and checks that it is the expected packet and was not seen before.
pub fn decode_and_validate(
    raw: &[u8],
    expected_type: PacketType,
    expected_version: u8,
    expected_session: Option<u64>,
    replay: &mut ReplayWindow,
) -> (r: Result<WirePacket, Error>)
    ensures
        crate::error::viewed(r) == packet_verdict(
            raw@,
            expected_type,
            expected_version,
            expected_session,
            old(replay)@,
        ),
        final(replay)@ == replay_after(
            raw@,
            expected_type,
            expected_version,
            expected_session,
            old(replay)@,
        ),
{
    if raw.len() < HEADER_LEN {
        return Err(Error::PacketShorterThanHeader);
    }
    let packet = match WirePacket::decode(raw) {
        Ok(packet) => packet,
        Err(e) => {
            return Err(e);
        },
    };
    if packet.version != expected_version {
        return Err(Error::UnsupportedVersion { got: packet.version, expected: expected_version });
    }
    if packet.packet_type != expected_type {
        return Err(
            Error::UnexpectedPacketType { got: packet.packet_type, expected: expected_type },
        );
    }
    if let Some(session_id) = expected_session {
        if packet.session_id != session_id {
            return Err(Error::SessionMismatch { got: packet.session_id, expected: session_id });
        }
    }
    match replay.check_and_record(packet.seq) {
        Ok(()) => Ok(packet),
        Err(e) => Err(e),
    }
}

/// Whether an echo is that of the selection, or what is wrong with it.
pub open spec fn finish_verdict(finish: ClientFinish, selected: Negotiated) -> Result<(), Error> {
    if finish.selected_version != selected.version {
        Err(
            Error::FinishVersionMismatch {
                got: finish.selected_version,
                expected: selected.version,
            },
        )
    } else if finish.selected_caps != selected.caps {
        Err(
            Error::FinishCapabilitiesMismatch {
                got: finish.selected_caps,
                expected: selected.caps,
            },
        )
    } else {
        Ok(())
    }
}

/// Checks that the initiator echoed the selection.
pub fn validate_finish(finish: ClientFinish, selected: Negotiated) -> (r: Result<(), Error>)
    ensures
        r == finish_verdict(finish, selected),
{
    if finish.selected_version != selected.version {
        return Err(
            Error::FinishVersionMismatch {
                got: finish.selected_version,
                expected: selected.version,
            },
        );
    }
    if finish.selected_caps != selected.caps {
        return Err(
            Error::FinishCapabilitiesMismatch {
                got: finish.selected_caps,
                expected: selected.caps,
            },
        );
    }
    Ok(())
}

/// What this node speaks: version 1 with every feature there is.
pub fn local_caps() -> (caps: CapabilitySet)
    ensures
        caps == (CapabilitySet {
            min_version: 1,
            max_version: 1,
            mask: CAP_FEC_V1 | CAP_DHT_V1 | CAP_OBFS_V1 | CAP_RELAY_V1,
        }),
{
    let mut caps = CapabilitySet::mvp_default();
    caps.mask = caps.mask | CAP_RELAY_V1;
    caps.mask = caps.mask | CAP_OBFS_V1;
    assert(1u64 | 2u64 | 4u64 | 8u64 | 4u64 == 1u64 | 2u64 | 4u64 | 8u64) by (bit_vector);
    caps
}

/// A private key for the handshake, drawn at random.
pub fn noise_private_key() -> (r: Result<Vec<u8>, Error>)
    ensures
        r matches Ok(key) && key@.len() == noise::KEY_LEN,
{
    match generate_private_key(NOISE_PATTERN) {
        Ok(key) => Ok(key),
        Err(_) => Err(Error::NoiseKeypair),
    }
}

/// What a node offers.
pub open spec fn offer(local: CapabilitySet) -> ClientHello {
    ClientHello { min_version: local.min_version, max_version: local.max_version, caps: local.mask }
}

/// The hello that tells of a node's offer and its selection.
pub open spec fn server_hello(local: CapabilitySet, selected: Negotiated) -> ServerHello {
    ServerHello {
        min_version: local.min_version,
        max_version: local.max_version,
        caps: local.mask,
        selected_version: selected.version,
        selected_caps: selected.caps,
    }
}

/// The echo of a selection.
pub open spec fn client_finish(selected: Negotiated) -> ClientFinish {
    ClientFinish { selected_version: selected.version, selected_caps: selected.caps }
}

/// What the initiator's hello leads to.
pub open spec fn client_hello_verdict(local: CapabilitySet, hello: Seq<u8>) -> Result<
    Negotiated,
    Error,
> {
    match ClientHello::decoded(hello) {
        Err(e) => Err(e),
        Ok(remote) => negotiation::negotiation(local, remote),
    }
}

/// What the responder's hello leads to.
pub open spec fn server_hello_verdict(local: CapabilitySet, hello: Seq<u8>) -> Result<
    Negotiated,
    Error,
> {
    match ServerHello::decoded(hello) {
        Err(e) => Err(e),
        Ok(remote) => negotiation::server_verdict(local, remote),
    }
}

/// What the initiator's echo leads to.
pub open spec fn client_finish_verdict(selected: Negotiated, finish: Seq<u8>) -> Result<
    (),
    Error,
> {
    match ClientFinish::decoded(finish) {
        Err(e) => Err(e),
        Ok(finish) => finish_verdict(finish, selected),
    }
}

/// Takes the initiator's hello: what was selected, and the hello that answers it.
pub fn accept_client_hello(local: CapabilitySet, hello: &[u8]) -> (r: Result<
    (Negotiated, ServerHello),
    Error,
>)
    ensures
        match r {
            Ok((selected, reply)) => client_hello_verdict(local, hello@) == Ok::<
                Negotiated,
                Error,
            >(selected) && reply == server_hello(local, selected),
            Err(e) => client_hello_verdict(local, hello@) == Err::<Negotiated, Error>(e),
        },
{
    let remote = match ClientHello::decode(hello) {
        Ok(remote) => remote,
        Err(e) => {
            return Err(e);
        },
    };
    match negotiate(local, remote) {
        Ok(selected) => Ok(
            (
                selected,
                ServerHello {
                    min_version: local.min_version,
                    max_version: local.max_version,
                    caps: local.mask,
                    selected_version: selected.version,
                    selected_caps: selected.caps,
                },
            ),
        ),
        Err(e) => Err(e),
    }
}

/// Takes the responder's hello: what was selected, and the echo of it.
pub fn accept_server_hello(local: CapabilitySet, hello: &[u8]) -> (r: Result<
    (Negotiated, ClientFinish),
    Error,
>)
    ensures
        match r {
            Ok((selected, finish)) => server_hello_verdict(local, hello@) == Ok::<
                Negotiated,
                Error,
            >(selected) && finish == client_finish(selected),
            Err(e) => server_hello_verdict(local, hello@) == Err::<Negotiated, Error>(e),
        },
{
    let remote = match ServerHello::decode(hello) {
        Ok(remote) => remote,
        Err(e) => {
            return Err(e);
        },
    };
    match parse_server_and_validate(local, remote) {
        Ok(selected) => Ok(
            (
                selected,
                ClientFinish { selected_version: selected.version, selected_caps: selected.caps },
            ),
        ),
        Err(e) => Err(e),
    }
}

/// Takes the initiator's echo.
pub fn accept_client_finish(selected: Negotiated, finish: &[u8]) -> (r: Result<(), Error>)
    ensures
        r == client_finish_verdict(selected, finish@),
{
    match ClientFinish::decode(finish) {
        Ok(finish) => validate_finish(finish, selected),
        Err(e) => Err(e),
    }
}

/// The initiator, once it has sent its hello.
pub struct Initiator {
    handshake: HandshakeState,
    local: CapabilitySet,
    session_id: u64,
    tx_seq: u64,
    replay: ReplayWindow,
}

/// An initiator as the contracts see it.
pub struct InitiatorView {
    pub handshake: HandshakeState,
    pub local: CapabilitySet,
    pub session_id: u64,
    pub tx_seq: u64,
    pub replay: ReplayView,
}

impl View for Initiator {
    type V = InitiatorView;

    closed spec fn view(&self) -> InitiatorView {
        InitiatorView {
            handshake: self.handshake,
            local: self.local,
            session_id: self.session_id,
            tx_seq: self.tx_seq,
            replay: self.replay@,
        }
    }
}

/// The responder, before it has heard anything.
pub struct Responder {
    handshake: HandshakeState,
    local: CapabilitySet,
    replay: ReplayWindow,
}

/// A responder as the contracts see it.
pub struct ResponderView {
    pub handshake: HandshakeState,
    pub local: CapabilitySet,
    pub replay: ReplayView,
}

impl View for Responder {
    type V = ResponderView;

    closed spec fn view(&self) -> ResponderView {
        ResponderView { handshake: self.handshake, local: self.local, replay: self.replay@ }
    }
}

/// The responder, once it has answered the initiator's hello.
pub struct AnsweredResponder {
    handshake: HandshakeState,
    selected: Negotiated,
    session_id: u64,
    tx_seq: u64,
    replay: ReplayWindow,
}

/// A responder that has answered, as the contracts see it.
pub struct AnsweredView {
    pub handshake: HandshakeState,
    pub selected: Negotiated,
    pub session_id: u64,
    pub tx_seq: u64,
    pub replay: ReplayView,
}

impl View for AnsweredResponder {
    type V = AnsweredView;

    closed spec fn view(&self) -> AnsweredView {
        AnsweredView {
            handshake: self.handshake,
            selected: self.selected,
            session_id: self.session_id,
            tx_seq: self.tx_seq,
            replay: self.replay@,
        }
    }
}

/// A session: both sides have agreed, and what travels is sealed.
pub struct Session {
    channel: TransportState,
    selected: Negotiated,
    session_id: u64,
    tx_seq: u64,
    replay: ReplayWindow,
}

/// A session as the contracts see it.
pub struct SessionView {
    pub channel: TransportState,
    pub selected: Negotiated,
    pub session_id: u64,
    pub tx_seq: u64,
    pub replay: ReplayView,
}

impl View for Session {
    type V = SessionView;

    closed spec fn view(&self) -> SessionView {
        SessionView {
            channel: self.channel,
            selected: self.selected,
            session_id: self.session_id,
            tx_seq: self.tx_seq,
            replay: self.replay@,
        }
    }
}

impl InitiatorView {
    /// The initiator has sent one message and waits for the answer.
    pub open spec fn wf(self) -> bool {
        &&& noise::is_initiator(self.handshake)
        &&& noise::handshake_messages(self.handshake).len() == 1
        &&& self.tx_seq < u64::MAX
    }

    /// The initiator of a session, once it has sent `raw`: a packet with its hello in the first
    /// message of the handshake, where every responder finds it.
    pub open spec fn started(self, local: CapabilitySet, session_id: u64, raw: Seq<u8>) -> bool {
        let messages = noise::handshake_messages(self.handshake);
        &&& self.wf()
        &&& self.local == local
        &&& self.session_id == session_id
        &&& self.tx_seq == 1
        &&& self.replay == ReplayView::fresh()
        &&& messages[0].len() == noise::handshake_len(0, ClientHello::LEN as nat)
        &&& raw == packet(PacketType::Handshake1, session_id, 0, messages[0]).encoded()
        &&& forall|peer: HandshakeState|
            noise::handshake_messages(peer).len() == 0 && !noise::is_initiator(peer)
                ==> #[trigger] noise::handshake_payload(peer, messages[0]) == Some(
                offer(local).encoded(),
            )
    }

    /// What comes of a datagram that should hold the responder's hello: what is wrong with it, or
    /// a session and the packet to be sent, with the echo in the last message of the handshake,
    /// where every responder that saw the same messages finds it.
    pub open spec fn finished(self, raw: Seq<u8>, r: Result<(SessionView, Seq<u8>), Error>) -> bool {
        match packet_verdict(
            raw,
            PacketType::Handshake2,
            PROTOCOL_VERSION,
            Some(self.session_id),
            self.replay,
        ) {
            Err(e) => r == Err::<(SessionView, Seq<u8>), Error>(e),
            Ok(p) => if !noise::can_read(self.handshake, p.payload, BUFFER_LEN as nat) {
                r == Err::<(SessionView, Seq<u8>), Error>(Error::HandshakeRead { message: 2 })
            } else {
                match server_hello_verdict(
                    self.local,
                    noise::handshake_payload(self.handshake, p.payload)->0,
                ) {
                    Err(e) => r == Err::<(SessionView, Seq<u8>), Error>(e),
                    Ok(selected) => r is Ok && self.finished_with(
                        p,
                        selected,
                        r->Ok_0.0,
                        r->Ok_0.1,
                    ),
                }
            },
        }
    }

    /// The session that comes of the responder's hello in a packet, and the packet to be sent.
    pub open spec fn finished_with(
        self,
        p: WirePacketView,
        selected: Negotiated,
        session: SessionView,
        reply: Seq<u8>,
    ) -> bool {
        let seen = noise::handshake_messages(self.handshake).push(p.payload);
        let messages = noise::channel_messages(session.channel);
        &&& messages.len() == 3
        &&& messages == seen.push(messages[2])
        &&& messages[2].len() == noise::handshake_len(2, ClientFinish::LEN as nat)
        &&& session.is_new(true, selected, self.session_id, (self.tx_seq + 1) as u64)
        &&& session.replay == self.replay.after(p.seq)
        &&& reply == packet(
            PacketType::Handshake3,
            self.session_id,
            self.tx_seq,
            messages[2],
        ).encoded()
        &&& forall|peer: HandshakeState|
            noise::handshake_messages(peer) == seen && !noise::is_initiator(peer)
                ==> #[trigger] noise::handshake_payload(peer, messages[2]) == Some(
                client_finish(selected).encoded(),
            )
    }
}

impl ResponderView {
    /// The responder waits for the first message.
    pub open spec fn wf(self) -> bool {
        &&& !noise::is_initiator(self.handshake)
        &&& noise::handshake_messages(self.handshake) == Seq::<Seq<u8>>::empty()
    }

    /// What comes of a datagram that should hold the initiator's hello: what is wrong with it, or
    /// a responder that has answered and the packet to be sent, with its hello in the second
    /// message of the handshake, where every initiator that saw the same message finds it.
    pub open spec fn answered(self, raw: Seq<u8>, r: Result<(AnsweredView, Seq<u8>), Error>) -> bool {
        match packet_verdict(raw, PacketType::Handshake1, PROTOCOL_VERSION, None, self.replay) {
            Err(e) => r == Err::<(AnsweredView, Seq<u8>), Error>(e),
            Ok(p) => if !noise::can_read(self.handshake, p.payload, BUFFER_LEN as nat) {
                r == Err::<(AnsweredView, Seq<u8>), Error>(Error::HandshakeRead { message: 1 })
            } else {
                match client_hello_verdict(
                    self.local,
                    noise::handshake_payload(self.handshake, p.payload)->0,
                ) {
                    Err(e) => r == Err::<(AnsweredView, Seq<u8>), Error>(e),
                    Ok(selected) => r is Ok && self.answered_with(
                        p,
                        selected,
                        r->Ok_0.0,
                        r->Ok_0.1,
                    ),
                }
            },
        }
    }

    /// The responder that comes of the initiator's hello in a packet, and the packet to be sent.
    pub open spec fn answered_with(
        self,
        p: WirePacketView,
        selected: Negotiated,
        after: AnsweredView,
        reply: Seq<u8>,
    ) -> bool {
        let messages = noise::handshake_messages(after.handshake);
        &&& after.wf()
        &&& messages == seq![p.payload, messages[1]]
        &&& messages[1].len() == noise::handshake_len(1, ServerHello::LEN as nat)
        &&& after.selected == selected
        &&& after.session_id == p.session_id
        &&& after.tx_seq == 1
        &&& after.replay == self.replay.after(p.seq)
        &&& reply == packet(PacketType::Handshake2, p.session_id, 0, messages[1]).encoded()
        &&& forall|peer: HandshakeState|
            noise::handshake_messages(peer) == seq![p.payload] && noise::is_initiator(peer)
                ==> #[trigger] noise::handshake_payload(peer, messages[1]) == Some(
                server_hello(self.local, selected).encoded(),
            )
    }
}

impl AnsweredView {
    /// The responder has answered and waits for the last message.
    pub open spec fn wf(self) -> bool {
        &&& !noise::is_initiator(self.handshake)
        &&& noise::handshake_messages(self.handshake).len() == 2
    }

    /// What comes of a datagram that should hold the initiator's echo: what is wrong with it, or
    /// a session.
    pub open spec fn finished(self, raw: Seq<u8>, r: Result<SessionView, Error>) -> bool {
        match packet_verdict(
            raw,
            PacketType::Handshake3,
            PROTOCOL_VERSION,
            Some(self.session_id),
            self.replay,
        ) {
            Err(e) => r == Err::<SessionView, Error>(e),
            Ok(p) => if !noise::can_read(self.handshake, p.payload, BUFFER_LEN as nat) {
                r == Err::<SessionView, Error>(Error::HandshakeRead { message: 3 })
            } else {
                match client_finish_verdict(
                    self.selected,
                    noise::handshake_payload(self.handshake, p.payload)->0,
                ) {
                    Err(e) => r == Err::<SessionView, Error>(e),
                    Ok(_) => {
                        &&& r is Ok
                        &&& noise::channel_messages(r->Ok_0.channel) == noise::handshake_messages(
                            self.handshake,
                        ).push(p.payload)
                        &&& r->Ok_0.is_new(false, self.selected, self.session_id, self.tx_seq)
                        &&& r->Ok_0.replay == self.replay.after(p.seq)
                    },
                }
            },
        }
    }
}

impl SessionView {
    /// The channel uses the keys of the session's handshake.
    pub open spec fn wf(self) -> bool {
        noise::is_established(self.channel)
    }

    /// A session in which nothing was sealed or opened yet.
    pub open spec fn is_new(
        self,
        initiator: bool,
        selected: Negotiated,
        session_id: u64,
        tx_seq: u64,
    ) -> bool {
        &&& self.wf()
        &&& noise::is_channel_initiator(self.channel) == initiator
        &&& noise::sealed_count(self.channel) == 0
        &&& noise::opened_count(self.channel) == 0
        &&& self.selected == selected
        &&& self.session_id == session_id
        &&& self.tx_seq == tx_seq
    }

    /// Both are the same session at the same side, but for what was sealed and opened, and for
    /// the numbers of packets.
    pub open spec fn continues(self, before: SessionView) -> bool {
        &&& noise::channel_messages(self.channel) == noise::channel_messages(before.channel)
        &&& noise::is_channel_initiator(self.channel) == noise::is_channel_initiator(before.channel)
        &&& self.selected == before.selected
        &&& self.session_id == before.session_id
    }

    /// What comes of a payload that is to be sent: a data packet with the payload sealed, where
    /// the other side, if it is in step, finds it; or a failure, where there is no room.
    pub open spec fn sealed(self, payload: Seq<u8>, after: SessionView, r: Result<Seq<u8>, Error>) -> bool {
        &&& after.continues(self)
        &&& after.replay == self.replay
        &&& noise::opened_count(after.channel) == noise::opened_count(self.channel)
        &&& if noise::can_seal(self.channel, payload.len(), BUFFER_LEN as nat) {
            let message = noise::sealed(self.channel, payload);
            &&& message.len() == payload.len() + noise::TAG_LEN
            &&& r == Ok::<Seq<u8>, Error>(
                packet(PacketType::Data, self.session_id, self.tx_seq, message).encoded(),
            )
            &&& noise::sealed_count(after.channel) == noise::sealed_count(self.channel) + 1
            &&& after.tx_seq == (self.tx_seq + 1) % 0x1_0000_0000_0000_0000
            &&& forall|peer: TransportState|
                noise::in_step(self.channel, peer) ==> #[trigger] noise::opened(peer, message)
                    == Some(payload)
        } else {
            &&& r == Err::<Seq<u8>, Error>(Error::SealFailed)
            &&& noise::sealed_count(after.channel) == noise::sealed_count(self.channel)
            &&& after.tx_seq == self.tx_seq
        }
    }

    /// What comes of a datagram that should hold a data packet: what is wrong with it, or the
    /// payload that was sealed in it. A packet that passes the checks is recorded, even where it
    /// cannot be opened.
    pub open spec fn opened(self, raw: Seq<u8>, after: SessionView, r: Result<Seq<u8>, Error>) -> bool {
        &&& after.continues(self)
        &&& after.tx_seq == self.tx_seq
        &&& noise::sealed_count(after.channel) == noise::sealed_count(self.channel)
        &&& after.replay == replay_after(
            raw,
            PacketType::Data,
            PROTOCOL_VERSION,
            Some(self.session_id),
            self.replay,
        )
        &&& match packet_verdict(
            raw,
            PacketType::Data,
            PROTOCOL_VERSION,
            Some(self.session_id),
            self.replay,
        ) {
            Err(e) => {
                &&& r == Err::<Seq<u8>, Error>(e)
                &&& noise::opened_count(after.channel) == noise::opened_count(self.channel)
            },
            Ok(p) => if noise::can_open(self.channel, p.payload, BUFFER_LEN as nat) {
                &&& r is Ok
                &&& noise::opened(self.channel, p.payload) == Some(r->Ok_0)
                &&& noise::opened_count(after.channel) == noise::opened_count(self.channel) + 1
            } else {
                &&& r == Err::<Seq<u8>, Error>(Error::OpenFailed)
                &&& noise::opened_count(after.channel) == noise::opened_count(self.channel)
            },
        }
    }
}

/// A step's result with its values replaced by their views.
pub open spec fn step_view<T: View>(r: Result<(T, Vec<u8>), Error>) -> Result<
    (T::V, Seq<u8>),
    Error,
> {
    match r {
        Ok((value, raw)) => Ok((value@, raw@)),
        Err(e) => Err(e),
    }
}

/// The bytes of a packet whose payload is short enough for its length field.
fn encode_packet(packet_type: PacketType, session_id: u64, seq: u64, payload: Vec<u8>) -> (raw: Result<
    Vec<u8>,
    Error,
>)
    requires
        payload@.len() <= u32::MAX,
    ensures
        raw matches Ok(raw) && raw@ == packet(packet_type, session_id, seq, payload@).encoded(),
{
    WirePacket { version: PROTOCOL_VERSION, packet_type, flags: 0, session_id, seq, payload }.encode()
}

impl Initiator {
    /// Starts a session: draws a key, and makes the packet with the hello.
    pub fn start(local: CapabilitySet, session_id: u64) -> (r: Result<(Initiator, Vec<u8>), Error>)
        ensures
            r matches Ok((side, raw)) && side@.started(local, session_id, raw@),
    {
        let key = match noise_private_key() {
            Ok(key) => key,
            Err(e) => {
                return Err(e);
            },
        };
        let mut handshake = match build_initiator(NOISE_PATTERN, key.as_slice()) {
            Ok(handshake) => handshake,
            Err(_) => {
                return Err(Error::NoiseSetup);
            },
        };
        let hello = ClientHello {
            min_version: local.min_version,
            max_version: local.max_version,
            caps: local.mask,
        };
        let payload = hello.encode();
        let mut out: Vec<u8> = vec![0u8; BUFFER_LEN];
        let ghost before = handshake;
        let len: usize = match write_handshake(&mut handshake, &payload, out.as_mut_slice()) {
            Ok(len) => len,
            Err(_) => {
                return Err(Error::HandshakeWrite { message: 1 });
            },
        };
        let message = codec::copy_range(out.as_slice(), 0, len);
        proof {
            let messages = noise::handshake_messages(handshake);
            assert(messages[0] == message@);
            assert forall|peer: HandshakeState|
                noise::handshake_messages(peer).len() == 0 && !noise::is_initiator(
                    peer,
                ) implies #[trigger] noise::handshake_payload(peer, messages[0]) == Some(
                offer(local).encoded(),
            ) by {
                assert(noise::handshake_messages(peer) =~= noise::handshake_messages(before));
                assert(noise::are_peers(before, peer));
            }
        }
        let replay = ReplayWindow::default();
        let side = Initiator { handshake, local, session_id, tx_seq: 1, replay };
        match encode_packet(PacketType::Handshake1, session_id, 0, message) {
            Ok(raw) => Ok((side, raw)),
            Err(e) => Err(e),
        }
    }

    /// Takes the datagram that should hold the responder's hello, and makes the session and the
    /// packet with the echo.
    pub fn finish(self, raw: &[u8]) -> (r: Result<(Session, Vec<u8>), Error>)
        requires
            self@.wf(),
        ensures
            self@.finished(raw@, step_view(r)),
    {
        let mut handshake = self.handshake;
        let mut replay = self.replay;
        let packet2 = match decode_and_validate(
            raw,
            PacketType::Handshake2,
            PROTOCOL_VERSION,
            Some(self.session_id),
            &mut replay,
        ) {
            Ok(packet2) => packet2,
            Err(e) => {
                return Err(e);
            },
        };
        let mut out: Vec<u8> = vec![0u8; BUFFER_LEN];
        let hello_len: usize = match read_handshake(
            &mut handshake,
            packet2.payload.as_slice(),
            out.as_mut_slice(),
        ) {
            Ok(hello_len) => hello_len,
            Err(_) => {
                return Err(Error::HandshakeRead { message: 2 });
            },
        };
        let hello = codec::copy_range(out.as_slice(), 0, hello_len);
        let (selected, finish) = match accept_server_hello(self.local, hello.as_slice()) {
            Ok(accepted) => accepted,
            Err(e) => {
                return Err(e);
            },
        };
        let payload = finish.encode();
        let ghost seen = noise::handshake_messages(handshake);
        let ghost before = handshake;
        let len: usize = match write_handshake(&mut handshake, &payload, out.as_mut_slice()) {
            Ok(len) => len,
            Err(_) => {
                return Err(Error::HandshakeWrite { message: 3 });
            },
        };
        let message = codec::copy_range(out.as_slice(), 0, len);
        let ghost messages = noise::handshake_messages(handshake);
        proof {
            assert(messages == seen.push(message@));
            assert(messages[2] == message@);
            assert forall|peer: HandshakeState|
                noise::handshake_messages(peer) == seen && !noise::is_initiator(
                    peer,
                ) implies #[trigger] noise::handshake_payload(peer, messages[2]) == Some(
                client_finish(selected).encoded(),
            ) by {
                assert(noise::are_peers(before, peer));
            }
        }
        let channel = match into_channel(handshake) {
            Ok(channel) => channel,
            Err(_) => {
                return Err(Error::NoChannel);
            },
        };
        let session = Session {
            channel,
            selected,
            session_id: self.session_id,
            tx_seq: self.tx_seq + 1,
            replay,
        };
        match encode_packet(PacketType::Handshake3, self.session_id, self.tx_seq, message) {
            Ok(raw) => Ok((session, raw)),
            Err(e) => Err(e),
        }
    }
}

impl Responder {
    /// Gets ready for an initiator: draws a key.
    pub fn start(local: CapabilitySet) -> (r: Result<Responder, Error>)
        ensures
            r matches Ok(side) && side@.wf() && side@.local == local && side@.replay
                == ReplayView::fresh(),
    {
        let key = match noise_private_key() {
            Ok(key) => key,
            Err(e) => {
                return Err(e);
            },
        };
        match build_responder(NOISE_PATTERN, key.as_slice()) {
            Ok(handshake) => Ok(Responder { handshake, local, replay: ReplayWindow::default() }),
            Err(_) => Err(Error::NoiseSetup),
        }
    }

    /// Takes the datagram that should hold the initiator's hello, and makes the packet that
    /// answers it.
    pub fn answer(self, raw: &[u8]) -> (r: Result<(AnsweredResponder, Vec<u8>), Error>)
        requires
            self@.wf(),
        ensures
            self@.answered(raw@, step_view(r)),
    {
        let mut handshake = self.handshake;
        let mut replay = self.replay;
        let packet1 = match decode_and_validate(
            raw,
            PacketType::Handshake1,
            PROTOCOL_VERSION,
            None,
            &mut replay,
        ) {
            Ok(packet1) => packet1,
            Err(e) => {
                return Err(e);
            },
        };
        let mut out: Vec<u8> = vec![0u8; BUFFER_LEN];
        let hello_len: usize = match read_handshake(
            &mut handshake,
            packet1.payload.as_slice(),
            out.as_mut_slice(),
        ) {
            Ok(hello_len) => hello_len,
            Err(_) => {
                return Err(Error::HandshakeRead { message: 1 });
            },
        };
        let hello = codec::copy_range(out.as_slice(), 0, hello_len);
        let (selected, reply) = match accept_client_hello(self.local, hello.as_slice()) {
            Ok(accepted) => accepted,
            Err(e) => {
                return Err(e);
            },
        };
        let payload = reply.encode();
        let ghost before = handshake;
        let len: usize = match write_handshake(&mut handshake, &payload, out.as_mut_slice()) {
            Ok(len) => len,
            Err(_) => {
                return Err(Error::HandshakeWrite { message: 2 });
            },
        };
        let message = codec::copy_range(out.as_slice(), 0, len);
        proof {
            let messages = noise::handshake_messages(handshake);
            let seen = noise::handshake_messages(before);
            assert(seen =~= seq![packet1.payload@]);
            assert(messages =~= seq![packet1.payload@, message@]);
            assert forall|peer: HandshakeState|
                noise::handshake_messages(peer) == seq![packet1.payload@] && noise::is_initiator(
                    peer,
                ) implies #[trigger] noise::handshake_payload(peer, messages[1]) == Some(
                server_hello(self.local, selected).encoded(),
            ) by {
                assert(noise::are_peers(before, peer));
            }
        }
        let session_id = packet1.session_id;
        let side = AnsweredResponder { handshake, selected, session_id, tx_seq: 1, replay };
        match encode_packet(PacketType::Handshake2, session_id, 0, message) {
            Ok(raw) => Ok((side, raw)),
            Err(e) => Err(e),
        }
    }
}

impl AnsweredResponder {
    /// What was selected.
    pub fn selected(&self) -> (selected: Negotiated)
        ensures
            selected == self@.selected,
    {
        self.selected
    }

    /// Takes the datagram that should hold the initiator's echo, and makes the session.
    pub fn finish(self, raw: &[u8]) -> (r: Result<Session, Error>)
        requires
            self@.wf(),
        ensures
            self@.finished(raw@, crate::error::viewed(r)),
    {
        let mut handshake = self.handshake;
        let mut replay = self.replay;
        let packet3 = match decode_and_validate(
            raw,
            PacketType::Handshake3,
            PROTOCOL_VERSION,
            Some(self.session_id),
            &mut replay,
        ) {
            Ok(packet3) => packet3,
            Err(e) => {
                return Err(e);
            },
        };
        let mut out: Vec<u8> = vec![0u8; BUFFER_LEN];
        let finish_len: usize = match read_handshake(
            &mut handshake,
            packet3.payload.as_slice(),
            out.as_mut_slice(),
        ) {
            Ok(finish_len) => finish_len,
            Err(_) => {
                return Err(Error::HandshakeRead { message: 3 });
            },
        };
        let finish = codec::copy_range(out.as_slice(), 0, finish_len);
        match accept_client_finish(self.selected, finish.as_slice()) {
            Ok(()) => {},
            Err(e) => {
                return Err(e);
            },
        }
        match into_channel(handshake) {
            Ok(channel) => Ok(
                Session {
                    channel,
                    selected: self.selected,
                    session_id: self.session_id,
                    tx_seq: self.tx_seq,
                    replay,
                },
            ),
            Err(_) => Err(Error::NoChannel),
        }
    }
}

/// Seals a payload and makes the data packet that carries it. It succeeds only where there is
/// room, and then always on a channel that uses the keys of a whole handshake. The buffer holds
/// the sealed message for a while; what it holds afterwards is of no use.
pub fn seal_packet(
    channel: &mut TransportState,
    payload: &[u8],
    out: &mut [u8],
    session_id: u64,
    seq: u64,
) -> (r: Result<Vec<u8>, Error>)
    ensures
        final(out)@.len() == old(out)@.len(),
        noise::channel_messages(*final(channel)) == noise::channel_messages(*old(channel)),
        noise::is_channel_initiator(*final(channel)) == noise::is_channel_initiator(*old(channel)),
        noise::opened_count(*final(channel)) == noise::opened_count(*old(channel)),
        r is Ok ==> noise::can_seal(*old(channel), payload@.len(), old(out)@.len()),
        noise::can_seal(*old(channel), payload@.len(), old(out)@.len()) && noise::is_established(
            *old(channel),
        ) ==> r is Ok,
        match r {
            Ok(raw) => {
                let message = noise::sealed(*old(channel), payload@);
                &&& message.len() == payload@.len() + noise::TAG_LEN
                &&& raw@ == packet(PacketType::Data, session_id, seq, message).encoded()
                &&& noise::sealed_count(*final(channel)) == noise::sealed_count(*old(channel)) + 1
                &&& forall|peer: TransportState|
                    noise::in_step(*old(channel), peer) ==> #[trigger] noise::opened(peer, message)
                        == Some(payload@)
            },
            Err(e) => {
                &&& e == Error::SealFailed
                &&& noise::sealed_count(*final(channel)) == noise::sealed_count(*old(channel))
            },
        },
{
    match seal_message(channel, payload, out) {
        Ok(len) => {
            let message = codec::copy_range(out, 0, len);
            encode_packet(PacketType::Data, session_id, seq, message)
        },
        Err(_) => Err(Error::SealFailed),
    }
}

impl Session {
    /// What both sides agreed on.
    pub fn selected(&self) -> (selected: Negotiated)
        ensures
            selected == self@.selected,
    {
        self.selected
    }

    /// The identifier of the session.
    pub fn session_id(&self) -> (session_id: u64)
        ensures
            session_id == self@.session_id,
    {
        self.session_id
    }

    /// Makes the data packet that carries a payload.
    pub fn seal(&mut self, payload: &[u8]) -> (r: Result<Vec<u8>, Error>)
        requires
            old(self)@.wf(),
        ensures
            final(self)@.wf(),
            old(self)@.sealed(payload@, final(self)@, crate::error::viewed(r)),
    {
        let mut out: Vec<u8> = vec![0u8; BUFFER_LEN];
        let r = seal_packet(
            &mut self.channel,
            payload,
            out.as_mut_slice(),
            self.session_id,
            self.tx_seq,
        );
        if r.is_ok() {
            self.tx_seq = self.tx_seq.wrapping_add(1);
        }
        r
    }

    /// Takes the datagram that should hold a data packet, and opens what it carries.
    pub fn open(&mut self, raw: &[u8]) -> (r: Result<Vec<u8>, Error>)
        ensures
            old(self)@.wf() ==> final(self)@.wf(),
            old(self)@.opened(raw@, final(self)@, crate::error::viewed(r)),
    {
        let packet = match decode_and_validate(
            raw,
            PacketType::Data,
            PROTOCOL_VERSION,
            Some(self.session_id),
            &mut self.replay,
        ) {
            Ok(packet) => packet,
            Err(e) => {
                return Err(e);
            },
        };
        let mut out: Vec<u8> = vec![0u8; BUFFER_LEN];
        match open_message(&mut self.channel, packet.payload.as_slice(), out.as_mut_slice()) {
            Ok(len) => Ok(codec::copy_range(out.as_slice(), 0, len)),
            Err(_) => Err(Error::OpenFailed),
        }
    }
}

} // verus!
