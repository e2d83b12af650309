//! Who a node is, and the numbers it draws at random.

use ed25519_dalek::SigningKey;
use rand_core::{OsRng, RngCore};
use vstd::prelude::*;

verus! {

/// The length of a public key.
pub const PUBLIC_KEY_LEN: usize = 32;

/// The hexadecimal digit of a number below sixteen, in lower case.
pub open spec fn hex_digit(value: int) -> char {
    if value < 10 {
        ('0' as int + value) as char
    } else {
        ('a' as int + value - 10) as char
    }
}

/// Bytes in hexadecimal: two digits each, the upper half first.
pub open spec fn hex_text(bytes: Seq<u8>) -> Seq<char> {
    Seq::new(
        2 * bytes.len(),
        |i: int|
            hex_digit(
                if i % 2 == 0 {
                    bytes[i / 2] as int / 16
                } else {
                    bytes[i / 2] as int % 16
                },
            ),
    )
}

/// `hex::encode`: the bytes in hexadecimal, in lower case.
#[verifier::external_body]
fn hex_encode(bytes: &[u8]) -> (text: String)
    ensures
        text@ == hex_text(bytes@),
{
    hex::encode(bytes)
}

/// `ed25519_dalek::SigningKey::generate`, the public half of it. The key is drawn at random, so
/// nothing is promised of it.
#[verifier::external_body]
fn generate_public_key() -> (key: [u8; 32]) {
    SigningKey::generate(&mut OsRng).verifying_key().to_bytes()
}

/// `rand_core::OsRng::next_u64`: a number drawn at random, so nothing is promised of it.
#[verifier::external_body]
fn random_u64() -> (value: u64) {
    OsRng.next_u64()
}

/// The name of the node with this public key: the key in hexadecimal.
pub fn peer_id(public_key: &[u8; PUBLIC_KEY_LEN]) -> (name: String)
    ensures
        name@ == hex_text(public_key@),
        name@.len() == 2 * PUBLIC_KEY_LEN,
{
    hex_encode(public_key)
}

/// The name of a new node, whose key is drawn at random.
pub fn new_peer_id() -> (name: String)
    ensures
        exists|public_key: [u8; PUBLIC_KEY_LEN]| name@ == #[trigger] hex_text(public_key@),
{
    let public_key = generate_public_key();
    peer_id(&public_key)
}

/// An identifier for a new session, drawn at random. Nothing is promised of it.
pub fn new_session_id() -> u64 {
    random_u64()
}

/// Nodes with different keys have different names.
pub proof fn law_peer_ids_are_distinct(a: Seq<u8>, b: Seq<u8>)
    requires
        hex_text(a) == hex_text(b),
    ensures
        a == b,
{
    assert(hex_text(a).len() == 2 * a.len());
    assert(hex_text(b).len() == 2 * b.len());
    assert forall|i: int| 0 <= i < a.len() implies a[i] == b[i] by {
        assert((2 * i) / 2 == i && (2 * i + 1) / 2 == i && (2 * i) % 2 == 0 && (2 * i + 1) % 2 == 1);
        assert(hex_text(a)[2 * i] == hex_digit(a[i] as int / 16));
        assert(hex_text(b)[2 * i] == hex_digit(b[i] as int / 16));
        assert(hex_text(a)[2 * i + 1] == hex_digit(a[i] as int % 16));
        assert(hex_text(b)[2 * i + 1] == hex_digit(b[i] as int % 16));
        lemma_hex_digit(a[i] as int / 16, b[i] as int / 16);
        lemma_hex_digit(a[i] as int % 16, b[i] as int % 16);
    }
    assert(a =~= b);
}

/// Different numbers have different digits.
proof fn lemma_hex_digit(a: int, b: int)
    requires
        0 <= a < 16,
        0 <= b < 16,
    ensures
        hex_digit(a) == hex_digit(b) ==> a == b,
{
}

} // verus!
