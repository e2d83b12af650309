//! The secure channel, from the `snow` crate: a Noise XX handshake of three messages, then
//! sealed messages in both directions.

use snow::Error as NoiseError;
use snow::{Builder, HandshakeState, TransportState};
use vstd::prelude::*;

verus! {

/// The handshake and the primitives of the channel.
pub const NOISE_PATTERN: &'static str = "Noise_XX_25519_ChaChaPoly_BLAKE2s";

/// The length of a private key.
pub const KEY_LEN: usize = 32;

/// The length of the tag that authenticates a sealed message.
pub const TAG_LEN: usize = 16;

/// The most that a message may have, sealed.
pub const MAX_MESSAGE: usize = 65535;

/// What a handshake buffer has to hold at least: the keys in the second message.
pub const MIN_HANDSHAKE_BUFFER: usize = 80;

/// `snow::Error`: why an operation of the channel failed. Nothing is known of it.
#[verifier::external_type_specification]
#[verifier::external_body]
pub struct ExNoiseError(NoiseError);

/// `snow::HandshakeState`: one side of a handshake.
#[verifier::external_type_specification]
#[verifier::external_body]
pub struct ExHandshakeState(HandshakeState);

/// `snow::TransportState`: one side of a channel.
#[verifier::external_type_specification]
#[verifier::external_body]
pub struct ExTransportState(TransportState);

/// The messages that have passed in a handshake, in order, as this side saw them.
pub uninterp spec fn handshake_messages(handshake: HandshakeState) -> Seq<Seq<u8>>;

/// Whether this side sends the first message.
pub uninterp spec fn is_initiator(handshake: HandshakeState) -> bool;

/// The payload that a handshake finds in a message, if the message is authentic to it.
pub uninterp spec fn handshake_payload(handshake: HandshakeState, message: Seq<u8>) -> Option<
    Seq<u8>,
>;

/// The messages of the handshake whose keys a channel uses, in order, and none once it was given
/// other keys. The handshakes of one-way patterns have fewer than three messages.
pub uninterp spec fn channel_messages(channel: TransportState) -> Seq<Seq<u8>>;

/// Whether this side of the channel sent the first message of the handshake.
pub uninterp spec fn is_channel_initiator(channel: TransportState) -> bool;

/// How many messages this side has sealed.
pub uninterp spec fn sealed_count(channel: TransportState) -> u64;

/// How many messages this side has opened.
pub uninterp spec fn opened_count(channel: TransportState) -> u64;

/// A payload as this side would seal it next.
pub uninterp spec fn sealed(channel: TransportState, payload: Seq<u8>) -> Seq<u8>;

/// The payload that this side would find in a message next, if the message is authentic to it.
pub uninterp spec fn opened(channel: TransportState, message: Seq<u8>) -> Option<Seq<u8>>;

/// Whether it is this side's turn to send: the initiator sends the first message, and then the
/// sides take turns, three messages in all.
pub open spec fn my_turn(handshake: HandshakeState) -> bool {
    handshake_messages(handshake).len() < 3 && is_initiator(handshake) == (handshake_messages(
        handshake,
    ).len() % 2 == 0)
}

/// Whether it is the other side's turn to send.
pub open spec fn their_turn(handshake: HandshakeState) -> bool {
    handshake_messages(handshake).len() < 3 && is_initiator(handshake) != (handshake_messages(
        handshake,
    ).len() % 2 == 0)
}

/// Two sides of one handshake: they saw the same messages, in opposite roles.
pub open spec fn are_peers(a: HandshakeState, b: HandshakeState) -> bool {
    handshake_messages(a) == handshake_messages(b) && is_initiator(a) != is_initiator(b)
}

/// Whether a channel uses the keys of a whole handshake of three messages, and so can send both
/// ways.
pub open spec fn is_established(channel: TransportState) -> bool {
    channel_messages(channel).len() == 3
}

/// Two sides of one channel, where the second has opened just what the first has sealed.
pub open spec fn in_step(sender: TransportState, receiver: TransportState) -> bool {
    &&& is_established(sender)
    &&& channel_messages(sender) == channel_messages(receiver)
    &&& is_channel_initiator(sender) != is_channel_initiator(receiver)
    &&& sealed_count(sender) == opened_count(receiver)
}

/// How many bytes of keys the next handshake message holds.
pub open spec fn key_bytes(messages: nat) -> nat {
    if messages == 0 {
        32
    } else if messages == 1 {
        80
    } else {
        48
    }
}

/// How long the next handshake message is: keys, payload, and but for the first message a tag.
pub open spec fn handshake_len(messages: nat, payload: nat) -> nat {
    key_bytes(messages) + payload + if messages == 0 {
        0
    } else {
        TAG_LEN as nat
    }
}

/// Whether this side can send a payload now, through a buffer with this much room.
pub open spec fn can_write(handshake: HandshakeState, payload: nat, room: nat) -> bool {
    let messages = handshake_messages(handshake).len();
    &&& my_turn(handshake)
    &&& key_bytes(messages) + payload + TAG_LEN <= room
    &&& handshake_len(messages, payload) <= MAX_MESSAGE
}

/// Whether this side can take a message now, through a buffer with this much room.
pub open spec fn can_read(handshake: HandshakeState, message: Seq<u8>, room: nat) -> bool {
    &&& their_turn(handshake)
    &&& message.len() <= MAX_MESSAGE
    &&& handshake_payload(handshake, message) matches Some(payload) && payload.len() <= room
}

/// Whether this side can seal a payload now, through a buffer with this much room.
pub open spec fn can_seal(channel: TransportState, payload: nat, room: nat) -> bool {
    &&& payload + TAG_LEN <= MAX_MESSAGE
    &&& payload + TAG_LEN <= room
    &&& sealed_count(channel) < u64::MAX
}

/// Whether this side can open a message now, through a buffer with this much room.
pub open spec fn can_open(channel: TransportState, message: Seq<u8>, room: nat) -> bool {
    &&& message.len() <= MAX_MESSAGE
    &&& opened_count(channel) < u64::MAX
    &&& opened(channel, message) matches Some(payload) && payload.len() <= room
}

/// `snow::Builder::generate_keypair`, the private key of it. The key is drawn at random: only
/// its length is known.
#[verifier::external_body]
pub(crate) fn generate_private_key(pattern: &str) -> (r: Result<Vec<u8>, NoiseError>)
    requires
        pattern@ == NOISE_PATTERN@,
    ensures
        r is Ok,
        r matches Ok(key) ==> key@.len() == KEY_LEN,
{
    Ok(Builder::new(pattern.parse()?).generate_keypair()?.private)
}

/// `snow::Builder::build_initiator`, with a private key. Nothing has passed in the handshake
/// yet. The outside function panics on a key that is too long.
#[verifier::external_body]
pub(crate) fn build_initiator(pattern: &str, key: &[u8]) -> (r: Result<
    HandshakeState,
    NoiseError,
>)
    requires
        pattern@ == NOISE_PATTERN@,
        key@.len() == KEY_LEN,
    ensures
        r is Ok,
        r matches Ok(handshake) ==> handshake_messages(handshake) == Seq::<Seq<u8>>::empty(),
        r matches Ok(handshake) ==> is_initiator(handshake),
{
    Builder::new(pattern.parse()?).local_private_key(key).build_initiator()
}

/// `snow::Builder::build_responder`, with a private key. Nothing has passed in the handshake
/// yet. The outside function panics on a key that is too long.
#[verifier::external_body]
pub(crate) fn build_responder(pattern: &str, key: &[u8]) -> (r: Result<
    HandshakeState,
    NoiseError,
>)
    requires
        pattern@ == NOISE_PATTERN@,
        key@.len() == KEY_LEN,
    ensures
        r is Ok,
        r matches Ok(handshake) ==> handshake_messages(handshake) == Seq::<Seq<u8>>::empty(),
        r matches Ok(handshake) ==> !is_initiator(handshake),
{
    Builder::new(pattern.parse()?).local_private_key(key).build_responder()
}

/// `snow::HandshakeState::write_message`. It succeeds when it is this side's turn and there is
/// room; the keys in the message are drawn at random, and every peer finds the payload in it.
/// After a failure only the number of messages that have passed is known. The outside function
/// panics where the buffer cannot hold the keys.
#[verifier::external_body]
pub(crate) fn write_handshake(handshake: &mut HandshakeState, payload: &[u8], out: &mut [u8]) -> (r:
    Result<usize, NoiseError>)
    requires
        old(out)@.len() >= MIN_HANDSHAKE_BUFFER,
    ensures
        final(out)@.len() == old(out)@.len(),
        is_initiator(*final(handshake)) == is_initiator(*old(handshake)),
        r is Ok <==> can_write(*old(handshake), payload@.len(), old(out)@.len()),
        r matches Ok(n) ==> {
            &&& n == handshake_len(handshake_messages(*old(handshake)).len(), payload@.len())
            &&& n <= final(out)@.len()
            &&& handshake_messages(*final(handshake)) == handshake_messages(*old(handshake)).push(
                final(out)@.subrange(0, n as int),
            )
            &&& forall|peer: HandshakeState|
                are_peers(*old(handshake), peer) ==> #[trigger] handshake_payload(
                    peer,
                    final(out)@.subrange(0, n as int),
                ) == Some(payload@)
        },
        r is Err ==> handshake_messages(*final(handshake)).len() == handshake_messages(
            *old(handshake),
        ).len(),
{
    handshake.write_message(payload, out)
}

/// `snow::HandshakeState::read_message`. It succeeds when it is the other side's turn, the message
/// is authentic, and its payload fits the buffer. After a failure only the number of messages
/// that have passed is known.
#[verifier::external_body]
pub(crate) fn read_handshake(handshake: &mut HandshakeState, message: &[u8], out: &mut [u8]) -> (r:
    Result<usize, NoiseError>)
    ensures
        final(out)@.len() == old(out)@.len(),
        is_initiator(*final(handshake)) == is_initiator(*old(handshake)),
        r is Ok <==> can_read(*old(handshake), message@, old(out)@.len()),
        r matches Ok(n) ==> {
            &&& n <= final(out)@.len()
            &&& handshake_payload(*old(handshake), message@) == Some(
                final(out)@.subrange(0, n as int),
            )
            &&& handshake_messages(*final(handshake)) == handshake_messages(*old(handshake)).push(
                message@,
            )
        },
        r is Err ==> handshake_messages(*final(handshake)).len() == handshake_messages(
            *old(handshake),
        ).len(),
{
    handshake.read_message(message, out)
}

/// `snow::HandshakeState::into_transport_mode`. It succeeds once all messages of the handshake
/// have passed; the channel has sealed and opened nothing yet.
#[verifier::external_body]
pub(crate) fn into_channel(handshake: HandshakeState) -> (r: Result<TransportState, NoiseError>)
    ensures
        r is Ok <==> handshake_messages(handshake).len() == 3,
        r matches Ok(channel) ==> {
            &&& channel_messages(channel) == handshake_messages(handshake)
            &&& is_channel_initiator(channel) == is_initiator(handshake)
            &&& sealed_count(channel) == 0
            &&& opened_count(channel) == 0
        },
{
    handshake.into_transport_mode()
}

/// `snow::TransportState::write_message`. It succeeds only when there is room and messages can
/// still be numbered, and then always on a channel that uses the keys of a whole handshake of
/// three messages; on other channels, such as the receiving side of a one-way pattern, it may fail
/// all the same. The other side, if it is in step, finds the payload in the message. A failure
/// changes nothing that is known of the channel.
#[verifier::external_body]
pub(crate) fn seal_message(channel: &mut TransportState, payload: &[u8], out: &mut [u8]) -> (r:
    Result<usize, NoiseError>)
    ensures
        final(out)@.len() == old(out)@.len(),
        channel_messages(*final(channel)) == channel_messages(*old(channel)),
        is_channel_initiator(*final(channel)) == is_channel_initiator(*old(channel)),
        opened_count(*final(channel)) == opened_count(*old(channel)),
        r is Ok ==> can_seal(*old(channel), payload@.len(), old(out)@.len()),
        can_seal(*old(channel), payload@.len(), old(out)@.len()) && is_established(*old(channel))
            ==> r is Ok,
        r matches Ok(n) ==> {
            &&& n == payload@.len() + TAG_LEN
            &&& sealed_count(*final(channel)) == sealed_count(*old(channel)) + 1
            &&& final(out)@.subrange(0, n as int) == sealed(*old(channel), payload@)
            &&& forall|peer: TransportState|
                in_step(*old(channel), peer) ==> #[trigger] opened(
                    peer,
                    final(out)@.subrange(0, n as int),
                ) == Some(payload@)
        },
        r is Err ==> sealed_count(*final(channel)) == sealed_count(*old(channel)),
{
    channel.write_message(payload, out)
}

/// `snow::TransportState::read_message`. It succeeds when the message is authentic, its payload fits
/// the buffer, and messages can still be numbered. A failure changes nothing that is known of the
/// channel.
#[verifier::external_body]
pub(crate) fn open_message(channel: &mut TransportState, message: &[u8], out: &mut [u8]) -> (r:
    Result<usize, NoiseError>)
    ensures
        final(out)@.len() == old(out)@.len(),
        channel_messages(*final(channel)) == channel_messages(*old(channel)),
        is_channel_initiator(*final(channel)) == is_channel_initiator(*old(channel)),
        sealed_count(*final(channel)) == sealed_count(*old(channel)),
        r is Ok <==> can_open(*old(channel), message@, old(out)@.len()),
        r matches Ok(n) ==> {
            &&& n <= final(out)@.len()
            &&& opened(*old(channel), message@) == Some(final(out)@.subrange(0, n as int))
            &&& opened_count(*final(channel)) == opened_count(*old(channel)) + 1
        },
        r is Err ==> opened_count(*final(channel)) == opened_count(*old(channel)),
{
    channel.read_message(message, out)
}

} // verus!
