//! Identifiers of nodes and content, and the distance between them.

use crate::codec;
use sha2::{Digest, Sha256};
use vstd::arithmetic::power2::*;
use vstd::prelude::*;

verus! {

/// The length of a node identifier.
pub const NODE_ID_LEN: usize = 32;

/// The length of a content key.
pub const CONTENT_KEY_LEN: usize = 32;

/// Identifies a node: a 256-bit number, most significant byte first.
#[derive(Debug, Clone, Copy, Eq, Hash, PartialOrd, Ord)]
pub struct NodeId([u8; NODE_ID_LEN]);

/// Identifies content: the SHA-256 digest of it.
#[derive(Debug, Clone, Copy, Eq, Hash, PartialOrd, Ord)]
pub struct ContentKey([u8; CONTENT_KEY_LEN]);

/// How far apart two nodes are: a 256-bit number, most significant byte first.
#[derive(Debug, Clone, Copy, Eq, Hash, PartialOrd, Ord)]
pub struct XorDistance([u8; NODE_ID_LEN]);

impl View for NodeId {
    type V = Seq<u8>;

    closed spec fn view(&self) -> Seq<u8> {
        self.0@
    }
}

impl View for ContentKey {
    type V = Seq<u8>;

    closed spec fn view(&self) -> Seq<u8> {
        self.0@
    }
}

impl View for XorDistance {
    type V = Seq<u8>;

    closed spec fn view(&self) -> Seq<u8> {
        self.0@
    }
}

/// A node identifier has 32 bytes, and is nothing but its bytes.
pub broadcast proof fn lemma_node_id_view(a: NodeId, b: NodeId)
    ensures
        #![trigger a@, b@]
        a@.len() == NODE_ID_LEN,
        a@ == b@ ==> a == b,
{
    if a@ == b@ {
        assert(a.0 =~= b.0);
    }
}

/// A content key has 32 bytes, and is nothing but its bytes.
pub broadcast proof fn lemma_content_key_view(a: ContentKey, b: ContentKey)
    ensures
        #![trigger a@, b@]
        a@.len() == CONTENT_KEY_LEN,
        a@ == b@ ==> a == b,
{
    if a@ == b@ {
        assert(a.0 =~= b.0);
    }
}

/// A distance has 32 bytes, and is nothing but its bytes.
pub broadcast proof fn lemma_distance_view(a: XorDistance, b: XorDistance)
    ensures
        #![trigger a@, b@]
        a@.len() == NODE_ID_LEN,
        a@ == b@ ==> a == b,
{
    if a@ == b@ {
        assert(a.0 =~= b.0);
    }
}

/// Whether two blocks of 32 bytes are the same.
fn same_bytes(a: &[u8; 32], b: &[u8; 32]) -> (same: bool)
    ensures
        same == (*a == *b),
{
    let mut i: usize = 0;
    while i < 32
        invariant
            i <= 32,
            forall|j: int| 0 <= j < i ==> a@[j] == b@[j],
        decreases 32 - i,
    {
        if a[i] != b[i] {
            return false;
        }
        i = i + 1;
    }
    assert(*a =~= *b);
    true
}

impl PartialEq for NodeId {
    fn eq(&self, other: &Self) -> (same: bool) {
        same_bytes(&self.0, &other.0)
    }
}

impl vstd::std_specs::cmp::PartialEqSpecImpl for NodeId {
    open spec fn obeys_eq_spec() -> bool {
        true
    }

    open spec fn eq_spec(&self, other: &Self) -> bool {
        *self == *other
    }
}

impl PartialEq for ContentKey {
    fn eq(&self, other: &Self) -> (same: bool) {
        same_bytes(&self.0, &other.0)
    }
}

impl vstd::std_specs::cmp::PartialEqSpecImpl for ContentKey {
    open spec fn obeys_eq_spec() -> bool {
        true
    }

    open spec fn eq_spec(&self, other: &Self) -> bool {
        *self == *other
    }
}

impl PartialEq for XorDistance {
    fn eq(&self, other: &Self) -> (same: bool) {
        same_bytes(&self.0, &other.0)
    }
}

impl vstd::std_specs::cmp::PartialEqSpecImpl for XorDistance {
    open spec fn obeys_eq_spec() -> bool {
        true
    }

    open spec fn eq_spec(&self, other: &Self) -> bool {
        *self == *other
    }
}

/// The bytewise exclusive or of two identifiers.
pub open spec fn xor_bytes(a: Seq<u8>, b: Seq<u8>) -> Seq<u8> {
    Seq::new(NODE_ID_LEN as nat, |i: int| a[i] ^ b[i])
}

/// How far apart two nodes are, as a number.
pub open spec fn distance(a: NodeId, b: NodeId) -> nat {
    codec::be_value(xor_bytes(a@, b@))
}

/// The position of the highest bit of a number that is not zero.
pub open spec fn floor_log2(value: nat) -> nat
    decreases value,
{
    if value < 2 {
        0
    } else {
        1 + floor_log2(value / 2)
    }
}

/// The bucket of a distance: the position of its highest bit, and none for no distance.
pub open spec fn bucket_of(distance: Seq<u8>) -> Option<u8> {
    if codec::be_value(distance) == 0 {
        None
    } else {
        Some(floor_log2(codec::be_value(distance)) as u8)
    }
}

/// A number between two neighbouring powers of two has the lower exponent as its logarithm.
pub proof fn lemma_floor_log2(value: nat, e: nat)
    requires
        pow2(e) <= value < pow2(e + 1),
    ensures
        floor_log2(value) == e,
    decreases e,
{
    lemma_pow2_unfold(e + 1);
    if e == 0 {
        lemma2_to64();
    } else {
        lemma_pow2_unfold(e);
        lemma_pow2_pos((e - 1) as nat);
        lemma_floor_log2(value / 2, (e - 1) as nat);
    }
}

/// The logarithm of a number bounds it on both sides.
pub proof fn lemma_floor_log2_bounds(value: nat)
    requires
        value > 0,
    ensures
        pow2(floor_log2(value)) <= value < pow2(floor_log2(value) + 1),
    decreases value,
{
    lemma2_to64();
    if value >= 2 {
        lemma_floor_log2_bounds(value / 2);
        lemma_pow2_unfold(floor_log2(value));
        lemma_pow2_unfold(floor_log2(value) + 1);
    }
}

/// The number that two runs of bytes spell together.
pub proof fn lemma_be_value_concat(a: Seq<u8>, b: Seq<u8>)
    ensures
        codec::be_value(a + b) == codec::be_value(a) * pow2(8 * b.len()) + codec::be_value(b),
    decreases b.len(),
{
    if b.len() == 0 {
        lemma2_to64();
        assert(a + b =~= a);
        assert(codec::be_value(a) * pow2(0) == codec::be_value(a)) by (nonlinear_arith)
            requires
                pow2(0) == 1,
        ;
    } else {
        let head = b.drop_last();
        lemma_be_value_concat(a, head);
        assert((a + b).drop_last() =~= a + head);
        lemma_pow2_adds(8 * head.len(), 8);
        lemma2_to64();
        assert(8 * head.len() + 8 == 8 * b.len());
        let x = codec::be_value(a);
        let p = pow2(8 * head.len());
        assert((x * p) * 256 == x * (p * 256)) by (nonlinear_arith);
    }
}

/// Bytes that are all zero spell zero, and other bytes do not.
pub proof fn lemma_be_value_zero(bytes: Seq<u8>)
    ensures
        codec::be_value(bytes) == 0 <==> forall|i: int|
            0 <= i < bytes.len() ==> #[trigger] bytes[i] == 0,
    decreases bytes.len(),
{
    if bytes.len() > 0 {
        let head = bytes.drop_last();
        lemma_be_value_zero(head);
        assert(forall|i: int| 0 <= i < head.len() ==> head[i] == bytes[i]);
        if codec::be_value(bytes) == 0 {
            assert forall|i: int| 0 <= i < bytes.len() implies #[trigger] bytes[i] == 0 by {
                if i < head.len() {
                    assert(head[i] == 0);
                }
            }
        }
    }
}

/// Of two runs of bytes of one length, the one with the smaller byte where they first differ
/// spells the smaller number.
pub proof fn lemma_be_value_order(a: Seq<u8>, b: Seq<u8>, j: int)
    requires
        a.len() == b.len(),
        0 <= j < a.len(),
        forall|i: int| 0 <= i < j ==> a[i] == b[i],
        a[j] < b[j],
    ensures
        codec::be_value(a) < codec::be_value(b),
{
    let n = a.len() as int;
    let common = a.subrange(0, j);
    let rest_a = a.subrange(j + 1, n);
    let rest_b = b.subrange(j + 1, n);
    let p = pow2(8 * rest_a.len());
    let tail_a = seq![a[j]] + rest_a;
    let tail_b = seq![b[j]] + rest_b;
    assert(a =~= common + tail_a);
    assert(b =~= common + tail_b);
    lemma_be_value_concat(common, tail_a);
    lemma_be_value_concat(common, tail_b);
    lemma_be_value_concat(seq![a[j]], rest_a);
    lemma_be_value_concat(seq![b[j]], rest_b);
    lemma_be_value_one(a[j]);
    lemma_be_value_one(b[j]);
    codec::lemma_be_value_bound(rest_a);
    assert(a[j] * p + p <= b[j] * p) by (nonlinear_arith)
        requires
            a[j] + 1 <= b[j],
    ;
}

/// One byte spells itself.
proof fn lemma_be_value_one(byte: u8)
    ensures
        codec::be_value(seq![byte]) == byte,
{
    assert(seq![byte].drop_last() =~= Seq::<u8>::empty());
    assert(codec::be_value(seq![byte].drop_last()) == 0);
}

/// The bucket of a distance whose first byte that is not zero is byte `j`, with its highest
/// bit at position `bit`.
pub proof fn lemma_bucket_of_first_byte(distance: Seq<u8>, j: int, bit: nat)
    requires
        distance.len() == NODE_ID_LEN,
        0 <= j < NODE_ID_LEN,
        forall|i: int| 0 <= i < j ==> distance[i] == 0,
        bit < 8,
        pow2(bit) <= distance[j] < pow2(bit + 1),
    ensures
        bucket_of(distance) == Some((8 * (31 - j) + bit) as u8),
{
    let zeros = distance.subrange(0, j);
    let first = distance.subrange(j, j + 1);
    let rest = distance.subrange(j + 1, 32);
    let m = 8 * rest.len();
    lemma_be_value_zero(zeros);
    lemma_be_value_concat(first, rest);
    lemma_be_value_concat(zeros, first + rest);
    assert(distance =~= zeros + (first + rest));
    lemma_be_value_one(distance[j]);
    assert(first =~= seq![distance[j]]);
    assert(codec::be_value(zeros) * pow2(8 * (first + rest).len()) == 0) by (nonlinear_arith)
        requires
            codec::be_value(zeros) == 0,
    ;
    codec::lemma_be_value_bound(rest);
    lemma_pow2_adds(bit, m);
    lemma_pow2_adds(bit + 1, m);
    let b = distance[j] as nat;
    let low = codec::be_value(rest);
    let value = codec::be_value(distance);
    assert(value == b * pow2(m) + low);
    assert(pow2(bit) * pow2(m) <= b * pow2(m)) by (nonlinear_arith)
        requires
            pow2(bit) <= b,
    ;
    assert(b * pow2(m) + pow2(m) <= pow2(bit + 1) * pow2(m)) by (nonlinear_arith)
        requires
            b + 1 <= pow2(bit + 1),
    ;
    lemma_pow2_pos(bit + m);
    lemma_floor_log2(value, bit + m);
}

/// A byte whose bits from `bit` on are just one lies between two neighbouring powers of two.
pub proof fn lemma_top_bit(byte: u8, bit: u8)
    requires
        bit < 8,
        byte >> bit == 1,
    ensures
        pow2(bit as nat) <= byte < pow2(bit as nat + 1),
{
    let low: u16 = 1u16 << bit;
    let high: u16 = 1u16 << ((bit + 1) as u8);
    assert(low <= byte < high) by (bit_vector)
        requires
            bit < 8,
            byte >> bit == 1,
            low == 1u16 << bit,
            high == 1u16 << ((bit + 1) as u8),
    ;
    assert(1u16 << 0u8 == 1 && 1u16 << 1u8 == 2 && 1u16 << 2u8 == 4 && 1u16 << 3u8 == 8 && 1u16
        << 4u8 == 16 && 1u16 << 5u8 == 32 && 1u16 << 6u8 == 64 && 1u16 << 7u8 == 128 && 1u16
        << 8u8 == 256) by (bit_vector);
    lemma2_to64();
}

/// The highest bit of a byte, from its leading zeros.
proof fn lemma_leading_zeros(byte: u8)
    requires
        byte != 0,
    ensures
        vstd::std_specs::bits::u8_leading_zeros(byte) < 8,
        pow2((7 - vstd::std_specs::bits::u8_leading_zeros(byte)) as nat) <= byte < pow2(
            (8 - vstd::std_specs::bits::u8_leading_zeros(byte)) as nat,
        ),
{
    vstd::std_specs::bits::axiom_u8_leading_zeros(byte);
    let bit = (7 - vstd::std_specs::bits::u8_leading_zeros(byte)) as u8;
    assert(byte >> bit == 1) by (bit_vector)
        requires
            bit < 8,
            (byte >> bit) & 1 != 0,
            bit < 7 ==> byte >> ((bit + 1) as u8) == 0,
    ;
    lemma_top_bit(byte, bit);
}

impl NodeId {
    /// The identifier with these bytes.
    pub fn from_bytes(bytes: [u8; NODE_ID_LEN]) -> (id: Self)
        ensures
            id@ == bytes@,
    {
        NodeId(bytes)
    }

    /// The bytes of the identifier.
    pub fn as_bytes(&self) -> (bytes: &[u8; NODE_ID_LEN])
        ensures
            bytes@ == self@,
    {
        &self.0
    }

    /// How far this node is from `other`.
    pub fn xor_distance(&self, other: &Self) -> (distance: XorDistance)
        ensures
            distance@ == xor_bytes(self@, other@),
    {
        let mut out: [u8; NODE_ID_LEN] = [0u8; NODE_ID_LEN];
        let mut i: usize = 0;
        while i < NODE_ID_LEN
            invariant
                i <= NODE_ID_LEN,
                forall|j: int| 0 <= j < i ==> out@[j] == self.0@[j] ^ other.0@[j],
            decreases NODE_ID_LEN - i,
        {
            out[i] = self.0[i] ^ other.0[i];
            i = i + 1;
        }
        assert(out@ =~= xor_bytes(self@, other@));
        XorDistance(out)
    }

    /// The bucket in which this node keeps `other`: none for itself.
    pub fn bucket_index(&self, other: &Self) -> (bucket: Option<u8>)
        ensures
            bucket == bucket_of(xor_bytes(self@, other@)),
    {
        self.xor_distance(other).bucket_index()
    }
}

/// What `sha2::Sha256::digest` returns for some content: its SHA-256 digest.
pub uninterp spec fn sha256_digest(content: Seq<u8>) -> Seq<u8>;

/// `sha2::Sha256::digest`: the digest depends on the content alone.
#[verifier::external_body]
fn sha256(content: &[u8]) -> (digest: [u8; 32])
    ensures
        digest@ == sha256_digest(content@),
{
    Sha256::digest(content).into()
}

impl ContentKey {
    /// The key with these bytes.
    pub fn from_bytes(bytes: [u8; CONTENT_KEY_LEN]) -> (key: Self)
        ensures
            key@ == bytes@,
    {
        ContentKey(bytes)
    }

    /// The key of some content: its SHA-256 digest.
    pub fn from_content(content: &[u8]) -> (key: Self)
        ensures
            key@ == sha256_digest(content@),
    {
        ContentKey(sha256(content))
    }

    /// The bytes of the key.
    pub fn as_bytes(&self) -> (bytes: &[u8; CONTENT_KEY_LEN])
        ensures
            bytes@ == self@,
    {
        &self.0
    }
}

impl XorDistance {
    /// The bytes of the distance.
    pub fn as_bytes(&self) -> (bytes: &[u8; NODE_ID_LEN])
        ensures
            bytes@ == self@,
    {
        &self.0
    }

    /// Whether there is no distance at all.
    pub fn is_zero(&self) -> (zero: bool)
        ensures
            zero == (codec::be_value(self@) == 0),
    {
        proof {
            lemma_be_value_zero(self@);
        }
        let mut i: usize = 0;
        while i < NODE_ID_LEN
            invariant
                i <= NODE_ID_LEN,
                forall|j: int| 0 <= j < i ==> self@[j] == 0,
                codec::be_value(self@) == 0 <==> forall|j: int|
                    0 <= j < self@.len() ==> #[trigger] self@[j] == 0,
            decreases NODE_ID_LEN - i,
        {
            if self.0[i] != 0 {
                assert(self@[i as int] != 0);
                return false;
            }
            i = i + 1;
        }
        true
    }

    /// Whether this distance is shorter than `other`.
    pub fn shorter_than(&self, other: &Self) -> (shorter: bool)
        ensures
            shorter == (codec::be_value(self@) < codec::be_value(other@)),
    {
        let mut i: usize = 0;
        while i < NODE_ID_LEN
            invariant
                i <= NODE_ID_LEN,
                forall|j: int| 0 <= j < i ==> self@[j] == other@[j],
            decreases NODE_ID_LEN - i,
        {
            if self.0[i] != other.0[i] {
                proof {
                    if self@[i as int] < other@[i as int] {
                        lemma_be_value_order(self@, other@, i as int);
                    } else {
                        lemma_be_value_order(other@, self@, i as int);
                    }
                }
                return self.0[i] < other.0[i];
            }
            i = i + 1;
        }
        assert(self@ =~= other@);
        false
    }

    /// The position of the highest bit of the distance, counted from the least significant.
    pub fn bucket_index(&self) -> (bucket: Option<u8>)
        ensures
            bucket == bucket_of(self@),
    {
        let mut i: usize = 0;
        while i < NODE_ID_LEN
            invariant
                i <= NODE_ID_LEN,
                forall|j: int| 0 <= j < i ==> self@[j] == 0,
            decreases NODE_ID_LEN - i,
        {
            let byte = self.0[i];
            if byte != 0 {
                proof {
                    lemma_leading_zeros(byte);
                    lemma_bucket_of_first_byte(
                        self@,
                        i as int,
                        (7 - vstd::std_specs::bits::u8_leading_zeros(byte)) as nat,
                    );
                }
                let leading: usize = byte.leading_zeros() as usize;
                let index: usize = 255 - (i * 8 + leading);
                return Some(index as u8);
            }
            i = i + 1;
        }
        proof {
            lemma_be_value_zero(self@);
        }
        None
    }
}

/// The distance is the same from both ends, as a number and as a value.
pub proof fn law_distance_is_symmetric(a: NodeId, b: NodeId)
    ensures
        xor_bytes(a@, b@) == xor_bytes(b@, a@),
        distance(a, b) == distance(b, a),
        forall|there: XorDistance, back: XorDistance|
            #![trigger there@, back@]
            there@ == xor_bytes(a@, b@) && back@ == xor_bytes(b@, a@) ==> there == back,
{
    broadcast use lemma_distance_view;

    assert forall|i: int| 0 <= i < NODE_ID_LEN implies xor_bytes(a@, b@)[i] == xor_bytes(
        b@,
        a@,
    )[i] by {
        let x = a@[i];
        let y = b@[i];
        assert(x ^ y == y ^ x) by (bit_vector);
    }
    assert(xor_bytes(a@, b@) =~= xor_bytes(b@, a@));
}

/// For one target no two nodes are equally far: equal distances mean the same node.
pub proof fn law_distance_is_injective(a: NodeId, b: NodeId, target: NodeId)
    requires
        distance(a, target) == distance(b, target),
    ensures
        a == b,
{
    codec::lemma_be_bytes_of_value(xor_bytes(a@, target@));
    codec::lemma_be_bytes_of_value(xor_bytes(b@, target@));
    assert forall|i: int| 0 <= i < NODE_ID_LEN implies a@[i] == b@[i] by {
        let x = a@[i];
        let y = b@[i];
        let t = target@[i];
        assert(xor_bytes(a@, target@)[i] == x ^ t);
        assert(xor_bytes(b@, target@)[i] == y ^ t);
        assert(x ^ t == y ^ t ==> x == y) by (bit_vector);
    }
    lemma_node_id_view(a, b);
    lemma_node_id_view(b, a);
    assert(a@ =~= b@);
}

/// A node has no bucket for itself and one for every other node, and in it lie just the nodes
/// whose distance has its highest bit at the bucket's index.
pub proof fn law_bucket_bounds_distance(local: NodeId, other: NodeId)
    ensures
        bucket_of(xor_bytes(local@, other@)) is None <==> local == other,
        bucket_of(xor_bytes(local@, other@)) matches Some(bucket) ==> pow2(bucket as nat)
            <= codec::be_value(xor_bytes(local@, other@)) < pow2(bucket as nat + 1),
{
    let distance = xor_bytes(local@, other@);
    let value = codec::be_value(distance);
    lemma_be_value_zero(distance);
    lemma_node_id_view(local, other);
    lemma_node_id_view(other, local);
    assert forall|i: int| 0 <= i < NODE_ID_LEN implies (distance[i] == 0 <==> local@[i]
        == other@[i]) by {
        let x = local@[i];
        let y = other@[i];
        assert(x ^ y == 0 <==> x == y) by (bit_vector);
    }
    if value == 0 {
        assert forall|i: int| 0 <= i < NODE_ID_LEN implies local@[i] == other@[i] by {
            assert(distance[i] == 0);
        }
        assert(local@ =~= other@);
    } else {
        if local == other {
            assert forall|i: int| 0 <= i < distance.len() implies #[trigger] distance[i] == 0 by {}
        }
        lemma_floor_log2_bounds(value);
        codec::lemma_be_value_bound(distance);
        if floor_log2(value) >= 256 {
            if floor_log2(value) > 256 {
                lemma_pow2_strictly_increases(256, floor_log2(value));
            }
        }
    }
}

/// The distance of two nodes differs from zero in just the bits in which their identifiers differ.
pub proof fn law_distance_is_bitwise(a: NodeId, b: NodeId, i: int)
    requires
        0 <= i < 32,
    ensures
        xor_bytes(a@, b@).len() == 32,
        xor_bytes(a@, b@)[i] == a@[i] ^ b@[i],
        distance(a, b) == 0 <==> a == b,
{
    law_bucket_bounds_distance(a, b);
    lemma_be_value_zero(xor_bytes(a@, b@));
    lemma_pow2_pos(bucket_of(xor_bytes(a@, b@))->0 as nat);
}

} // verus!
