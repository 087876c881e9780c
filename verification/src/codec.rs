//! Fixed-width integers as big-endian bytes.

use vstd::prelude::*;

verus! {

/// The four bytes of `x`, most significant first.
#[verifier::opaque]
pub open spec fn u32_bytes(x: u32) -> Seq<u8> {
    seq![
        (x / 0x100_0000) as u8,
        ((x / 0x1_0000) % 0x100) as u8,
        ((x / 0x100) % 0x100) as u8,
        (x % 0x100) as u8,
    ]
}

/// The number that four bytes spell, most significant first.
#[verifier::opaque]
pub open spec fn u32_value(bytes: Seq<u8>) -> u32
    recommends
        bytes.len() == 4,
{
    (bytes[0] * 0x100_0000 + bytes[1] * 0x1_0000 + bytes[2] * 0x100 + bytes[3]) as u32
}

/// The eight bytes of `x`, most significant first.
#[verifier::opaque]
pub open spec fn u64_bytes(x: u64) -> Seq<u8> {
    u32_bytes((x / 0x1_0000_0000) as u32) + u32_bytes((x % 0x1_0000_0000) as u32)
}

/// The number that eight bytes spell, most significant first.
#[verifier::opaque]
pub open spec fn u64_value(bytes: Seq<u8>) -> u64
    recommends
        bytes.len() == 8,
{
    (u32_value(bytes.subrange(0, 4)) * 0x1_0000_0000 + u32_value(bytes.subrange(4, 8))) as u64
}

/// A signed number as the unsigned one with the same 64 bits.
pub open spec fn i64_bits(x: i64) -> u64 {
    if x >= 0 {
        x as u64
    } else {
        (x + 0x1_0000_0000_0000_0000) as u64
    }
}

/// The signed number with the same 64 bits as `u`.
pub open spec fn bits_i64(u: u64) -> i64 {
    if u < 0x8000_0000_0000_0000 {
        u as i64
    } else {
        (u - 0x1_0000_0000_0000_0000) as i64
    }
}

/// `n` zero bytes.
pub open spec fn zeros(n: nat) -> Seq<u8> {
    Seq::new(n, |i: int| 0u8)
}

/// Reading back what was written gives the number again.
pub proof fn lemma_u32_round_trip(x: u32)
    ensures
        u32_bytes(x).len() == 4,
        u32_value(u32_bytes(x)) == x,
{
    reveal(u32_bytes);
    reveal(u32_value);
}

/// Writing what was read gives the bytes again.
pub proof fn lemma_u32_bytes_of_value(bytes: Seq<u8>)
    requires
        bytes.len() == 4,
    ensures
        u32_bytes(u32_value(bytes)) == bytes,
{
    reveal(u32_bytes);
    reveal(u32_value);
    assert(u32_bytes(u32_value(bytes)) =~= bytes);
}

/// Reading back what was written gives the number again.
pub proof fn lemma_u64_round_trip(x: u64)
    ensures
        u64_bytes(x).len() == 8,
        u64_value(u64_bytes(x)) == x,
{
    reveal(u64_bytes);
    reveal(u64_value);
    let high = (x / 0x1_0000_0000) as u32;
    let low = (x % 0x1_0000_0000) as u32;
    lemma_u32_round_trip(high);
    lemma_u32_round_trip(low);
    assert(u64_bytes(x).subrange(0, 4) =~= u32_bytes(high));
    assert(u64_bytes(x).subrange(4, 8) =~= u32_bytes(low));
}

/// Writing what was read gives the bytes again.
pub proof fn lemma_u64_bytes_of_value(bytes: Seq<u8>)
    requires
        bytes.len() == 8,
    ensures
        u64_bytes(u64_value(bytes)) == bytes,
{
    reveal(u64_bytes);
    reveal(u64_value);
    let high = bytes.subrange(0, 4);
    let low = bytes.subrange(4, 8);
    lemma_u32_bytes_of_value(high);
    lemma_u32_bytes_of_value(low);
    let x = u64_value(bytes);
    assert(x == u32_value(high) * 0x1_0000_0000 + u32_value(low));
    assert((x / 0x1_0000_0000) as u32 == u32_value(high));
    assert((x % 0x1_0000_0000) as u32 == u32_value(low));
    assert(u64_bytes(x) =~= bytes);
}

/// The two readings of 64 bits undo each other.
pub proof fn lemma_i64_round_trip(x: i64)
    ensures
        bits_i64(i64_bits(x)) == x,
{
}

/// Appends the four bytes of `x`.
pub fn put_u32(buf: &mut Vec<u8>, x: u32)
    ensures
        final(buf)@ == old(buf)@ + u32_bytes(x),
{
    buf.push((x / 0x100_0000) as u8);
    buf.push(((x / 0x1_0000) % 0x100) as u8);
    buf.push(((x / 0x100) % 0x100) as u8);
    buf.push((x % 0x100) as u8);
    reveal(u32_bytes);
    assert(buf@ =~= old(buf)@ + u32_bytes(x));
}

/// Appends the eight bytes of `x`.
pub fn put_u64(buf: &mut Vec<u8>, x: u64)
    ensures
        final(buf)@ == old(buf)@ + u64_bytes(x),
{
    put_u32(buf, (x / 0x1_0000_0000) as u32);
    put_u32(buf, (x % 0x1_0000_0000) as u32);
    reveal(u64_bytes);
    assert(buf@ =~= old(buf)@ + u64_bytes(x));
}

/// Appends the eight bytes of a signed number.
pub fn put_i64(buf: &mut Vec<u8>, x: i64)
    ensures
        final(buf)@ == old(buf)@ + u64_bytes(i64_bits(x)),
{
    put_u64(buf, i64_to_bits(x));
}

/// Appends all of `bytes`.
pub fn put_bytes(buf: &mut Vec<u8>, bytes: &[u8])
    ensures
        final(buf)@ == old(buf)@ + bytes@,
{
    let mut i: usize = 0;
    while i < bytes.len()
        invariant
            i <= bytes.len(),
            buf@ == old(buf)@ + bytes@.subrange(0, i as int),
        decreases bytes.len() - i,
    {
        buf.push(bytes[i]);
        i += 1;
        assert(buf@ =~= old(buf)@ + bytes@.subrange(0, i as int));
    }
    assert(bytes@.subrange(0, i as int) =~= bytes@);
}

/// Reads the number that the four bytes at `pos` spell.
pub fn get_u32(data: &[u8], pos: usize) -> (x: u32)
    requires
        pos + 4 <= data.len(),
    ensures
        x == u32_value(data@.subrange(pos as int, pos + 4)),
{
    let b0: u32 = data[pos] as u32;
    let b1: u32 = data[pos + 1] as u32;
    let b2: u32 = data[pos + 2] as u32;
    let b3: u32 = data[pos + 3] as u32;
    reveal(u32_value);
    b0 * 0x100_0000 + b1 * 0x1_0000 + b2 * 0x100 + b3
}

/// Reads the number that the eight bytes at `pos` spell.
pub fn get_u64(data: &[u8], pos: usize) -> (x: u64)
    requires
        pos + 8 <= data.len(),
    ensures
        x == u64_value(data@.subrange(pos as int, pos + 8)),
{
    let high: u64 = get_u32(data, pos) as u64;
    let low: u64 = get_u32(data, pos + 4) as u64;
    proof {
        reveal(u64_value);
        let whole = data@.subrange(pos as int, pos + 8);
        assert(whole.subrange(0, 4) =~= data@.subrange(pos as int, pos + 4));
        assert(whole.subrange(4, 8) =~= data@.subrange(pos + 4, pos + 8));
    }
    high * 0x1_0000_0000 + low
}

/// Reads the signed number that the eight bytes at `pos` spell.
pub fn get_i64(data: &[u8], pos: usize) -> (x: i64)
    requires
        pos + 8 <= data.len(),
    ensures
        x == bits_i64(u64_value(data@.subrange(pos as int, pos + 8))),
{
    bits_to_i64(get_u64(data, pos))
}

/// The unsigned number with the same bits as `x`.
pub fn i64_to_bits(x: i64) -> (u: u64)
    ensures
        u == i64_bits(x),
{
    if x >= 0 {
        x as u64
    } else {
        let lifted: i64 = (x + i64::MAX) + 1;
        (lifted as u64) + 0x8000_0000_0000_0000
    }
}

/// The signed number with the same bits as `u`.
pub fn bits_to_i64(u: u64) -> (x: i64)
    ensures
        x == bits_i64(u),
{
    if u < 0x8000_0000_0000_0000 {
        u as i64
    } else {
        let low: i64 = (u - 0x8000_0000_0000_0000) as i64;
        (low - i64::MAX) - 1
    }
}

} // verus!
