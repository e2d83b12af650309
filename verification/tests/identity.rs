//! Names of nodes, and numbers drawn at random.

use velyx::identity::{new_peer_id, new_session_id, peer_id};

#[test]
fn peer_id_is_the_key_in_hexadecimal() {
    let mut key = [0u8; 32];
    key[0] = 0x0F;
    key[1] = 0xA9;
    key[31] = 0xFE;
    let expected = format!("0fa9{}fe", "00".repeat(29));
    assert_eq!(peer_id(&key), expected);
}

#[test]
fn peer_ids_are_drawn_at_random() {
    let a = new_peer_id();
    let b = new_peer_id();
    assert_eq!(a.len(), 64);
    assert!(a.chars().all(|c| c.is_ascii_hexdigit() && !c.is_ascii_uppercase()));
    assert_ne!(a, b);
}

#[test]
fn session_ids_are_drawn_at_random() {
    assert_ne!(new_session_id(), new_session_id());
}
