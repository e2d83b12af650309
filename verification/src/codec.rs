//! Big-endian numbers, and the copying of bytes in and out of buffers.

use vstd::arithmetic::power2::*;
use vstd::prelude::*;
use vstd::slice::{slice_subrange, slice_to_vec};

verus! {

/// The number that `bytes` spell, most significant byte first.
pub open spec fn be_value(bytes: Seq<u8>) -> nat
    decreases bytes.len(),
{
    if bytes.len() == 0 {
        0
    } else {
        be_value(bytes.drop_last()) * 256 + bytes.last() as nat
    }
}

/// The last `width` base-256 digits of `value`, most significant first.
pub open spec fn be_bytes(value: nat, width: nat) -> Seq<u8>
    decreases width,
{
    if width == 0 {
        Seq::empty()
    } else {
        be_bytes(value / 256, (width - 1) as nat).push((value % 256) as u8)
    }
}

/// The number spelled by the `width` bytes of `input` that start at `start`.
pub open spec fn be_field(input: Seq<u8>, start: int, width: int) -> nat {
    be_value(input.subrange(start, start + width))
}

/// `be_bytes` has exactly the length it was asked for.
pub proof fn lemma_be_bytes_len(value: nat, width: nat)
    ensures
        be_bytes(value, width).len() == width,
    decreases width,
{
    if width > 0 {
        lemma_be_bytes_len(value / 256, (width - 1) as nat);
    }
}

/// A number spelled with `n` bytes is below two to the power of `8 * n`.
pub proof fn lemma_be_value_bound(bytes: Seq<u8>)
    ensures
        be_value(bytes) < pow2(8 * bytes.len()),
    decreases bytes.len(),
{
    if bytes.len() == 0 {
        lemma_pow2_pos(0);
    } else {
        let head = bytes.drop_last();
        lemma_be_value_bound(head);
        lemma_pow2_adds(8 * head.len(), 8);
        assert(pow2(8) == 256) by {
            lemma2_to64();
        }
        assert(8 * head.len() + 8 == 8 * bytes.len());
        assert(pow2(8 * bytes.len()) == pow2(8 * head.len()) * 256);
    }
}

/// Reading back the digits of a number that fits gives the number.
pub proof fn lemma_be_value_of_bytes(value: nat, width: nat)
    requires
        value < pow2(8 * width),
    ensures
        be_value(be_bytes(value, width)) == value,
    decreases width,
{
    if width == 0 {
        assert(pow2(0) == 1) by {
            lemma2_to64();
        }
    } else {
        let shorter = (width - 1) as nat;
        lemma_pow2_adds(8 * shorter, 8);
        assert(pow2(8) == 256) by {
            lemma2_to64();
        }
        assert(8 * shorter + 8 == 8 * width);
        assert(value / 256 < pow2(8 * shorter)) by (nonlinear_arith)
            requires
                value < pow2(8 * shorter) * 256,
        ;
        lemma_be_value_of_bytes(value / 256, shorter);
        let digits = be_bytes(value, width);
        assert(digits.drop_last() =~= be_bytes(value / 256, shorter));
    }
}

/// Writing out the number that some bytes spell gives the bytes.
pub proof fn lemma_be_bytes_of_value(bytes: Seq<u8>)
    ensures
        be_bytes(be_value(bytes), bytes.len()) == bytes,
    decreases bytes.len(),
{
    if bytes.len() == 0 {
        assert(be_bytes(be_value(bytes), 0) =~= bytes);
    } else {
        let head = bytes.drop_last();
        lemma_be_bytes_of_value(head);
        let value = be_value(bytes);
        assert(value / 256 == be_value(head));
        assert(value % 256 == bytes.last());
        assert(be_bytes(value, bytes.len()) =~= bytes);
    }
}

/// The powers of two that bound the fixed-width integers.
pub proof fn lemma_width_bounds()
    ensures
        pow2(8) == 0x100,
        pow2(16) == 0x1_0000,
        pow2(32) == 0x1_0000_0000,
        pow2(64) == 0x1_0000_0000_0000_0000,
{
    lemma2_to64();
}

/// A 16-bit number survives being written and read.
pub proof fn lemma_be_u16(value: u16)
    ensures
        be_bytes(value as nat, 2).len() == 2,
        be_value(be_bytes(value as nat, 2)) == value,
{
    lemma_width_bounds();
    lemma_be_bytes_len(value as nat, 2);
    lemma_be_value_of_bytes(value as nat, 2);
}

/// A 32-bit number survives being written and read.
pub proof fn lemma_be_u32(value: u32)
    ensures
        be_bytes(value as nat, 4).len() == 4,
        be_value(be_bytes(value as nat, 4)) == value,
{
    lemma_width_bounds();
    lemma_be_bytes_len(value as nat, 4);
    lemma_be_value_of_bytes(value as nat, 4);
}

/// A 64-bit number survives being written and read.
pub proof fn lemma_be_u64(value: u64)
    ensures
        be_bytes(value as nat, 8).len() == 8,
        be_value(be_bytes(value as nat, 8)) == value,
{
    lemma_width_bounds();
    lemma_be_bytes_len(value as nat, 8);
    lemma_be_value_of_bytes(value as nat, 8);
}

/// A field of `width` bytes is below two to the power of `8 * width`, and its bytes are the
/// digits of its value.
pub proof fn lemma_be_field(input: Seq<u8>, start: int, width: int)
    requires
        0 <= start,
        0 <= width,
        start + width <= input.len(),
    ensures
        be_field(input, start, width) < pow2((8 * width) as nat),
        be_bytes(be_field(input, start, width), width as nat) == input.subrange(
            start,
            start + width,
        ),
{
    let bytes = input.subrange(start, start + width);
    lemma_be_value_bound(bytes);
    lemma_be_bytes_of_value(bytes);
}

/// Appends `value` to `out` as `width` bytes, most significant first.
pub fn push_be(out: &mut Vec<u8>, value: u64, width: usize)
    ensures
        final(out)@ == old(out)@ + be_bytes(value as nat, width as nat),
    decreases width,
{
    if width > 0 {
        push_be(out, value / 256, width - 1);
        out.push((value % 256) as u8);
    }
    assert(out@ =~= old(out)@ + be_bytes(value as nat, width as nat));
}

/// Reads the `width` bytes of `input` that start at `start` as one number.
pub fn read_be(input: &[u8], start: usize, width: usize) -> (value: u64)
    requires
        width <= 8,
        start + width <= input@.len(),
    ensures
        value == be_field(input@, start as int, width as int),
{
    let len = input.len();
    let mut value: u64 = 0;
    let mut i: usize = 0;
    assert(input@.subrange(start as int, start as int) =~= Seq::<u8>::empty());
    while i < width
        invariant
            i <= width <= 8,
            start + width <= len,
            len == input@.len(),
            value == be_field(input@, start as int, i as int),
        decreases width - i,
    {
        let ghost done = input@.subrange(start as int, start + i);
        let ghost more = input@.subrange(start as int, start + i + 1);
        proof {
            assert(more.drop_last() =~= done);
            lemma_be_value_bound(more);
            lemma_width_bounds();
            if i + 1 < 8 {
                lemma_pow2_strictly_increases(8 * more.len(), 64);
            }
        }
        value = value * 256 + input[start + i] as u64;
        i = i + 1;
    }
    value
}

/// `read_be` of a two-byte field.
pub fn read_u16(input: &[u8], start: usize) -> (value: u16)
    requires
        start + 2 <= input@.len(),
    ensures
        value == be_field(input@, start as int, 2),
{
    proof {
        lemma_be_field(input@, start as int, 2);
        lemma_width_bounds();
    }
    read_be(input, start, 2) as u16
}

/// `read_be` of a four-byte field.
pub fn read_u32(input: &[u8], start: usize) -> (value: u32)
    requires
        start + 4 <= input@.len(),
    ensures
        value == be_field(input@, start as int, 4),
{
    proof {
        lemma_be_field(input@, start as int, 4);
        lemma_width_bounds();
    }
    read_be(input, start, 4) as u32
}

/// `read_be` of an eight-byte field.
pub fn read_u64(input: &[u8], start: usize) -> (value: u64)
    requires
        start + 8 <= input@.len(),
    ensures
        value == be_field(input@, start as int, 8),
{
    read_be(input, start, 8)
}

/// Appends all of `bytes` to `out`.
pub fn push_bytes(out: &mut Vec<u8>, bytes: &[u8])
    ensures
        final(out)@ == old(out)@ + bytes@,
{
    out.extend_from_slice(bytes);
    assert(out@ =~= old(out)@ + bytes@);
}

/// A copy of the bytes of `input` from `start` up to `end`.
pub fn copy_range(input: &[u8], start: usize, end: usize) -> (out: Vec<u8>)
    requires
        start <= end <= input@.len(),
    ensures
        out@ == input@.subrange(start as int, end as int),
{
    slice_to_vec(slice_subrange(input, start, end))
}

/// The 32 bytes of `input` that start at `start`.
pub fn copy_32(input: &[u8], start: usize) -> (out: [u8; 32])
    requires
        start + 32 <= input@.len(),
    ensures
        out@ == input@.subrange(start as int, start + 32),
{
    let len = input.len();
    let mut out: [u8; 32] = [0u8; 32];
    let mut i: usize = 0;
    while i < 32
        invariant
            i <= 32,
            start + 32 <= len,
            len == input@.len(),
            forall|j: int| 0 <= j < i ==> out@[j] == input@[start + j],
        decreases 32 - i,
    {
        out[i] = input[start + i];
        i = i + 1;
    }
    assert(out@ =~= input@.subrange(start as int, start + 32));
    out
}

/// Overwrites `width` bytes of `out`, from `at` on, with the digits of `value`.
pub fn put_be<const N: usize>(out: &mut [u8; N], at: usize, value: u64, width: usize)
    requires
        at + width <= N,
    ensures
        final(out)@ == old(out)@.subrange(0, at as int) + be_bytes(value as nat, width as nat)
            + old(out)@.subrange(at + width, N as int),
    decreases width,
{
    proof {
        lemma_be_bytes_len(value as nat, width as nat);
        lemma_be_bytes_len(value as nat / 256, (width - 1) as nat);
    }
    if width > 0 {
        put_be(out, at, value / 256, width - 1);
        out[at + width - 1] = (value % 256) as u8;
    }
    assert(out@ =~= old(out)@.subrange(0, at as int) + be_bytes(value as nat, width as nat) + old(
        out,
    )@.subrange(at + width, N as int));
}

} // verus!
