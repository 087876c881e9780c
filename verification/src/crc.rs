//! The 32-bit cyclic redundancy check that guards message bodies.

use vstd::prelude::*;

verus! {

/// The reflected polynomial of the check.
pub const CRC_POLYNOMIAL: u32 = 0xEDB8_8320;

/// One bit of input taken into the register.
pub open spec fn crc_shift(register: u32) -> u32 {
    if register & 1 == 1 {
        (register >> 1) ^ CRC_POLYNOMIAL
    } else {
        register >> 1
    }
}

/// One byte of input taken into the register.
pub open spec fn crc_byte(register: u32, byte: u8) -> u32 {
    crc_shift(
        crc_shift(
            crc_shift(
                crc_shift(crc_shift(crc_shift(crc_shift(crc_shift(register ^ (byte as u32)))))),
            ),
        ),
    )
}

/// The register after all of `bytes`, starting from `register`.
pub open spec fn crc_fold(register: u32, bytes: Seq<u8>) -> u32
    decreases bytes.len(),
{
    if bytes.len() == 0 {
        register
    } else {
        crc_byte(crc_fold(register, bytes.drop_last()), bytes.last())
    }
}

/// The check value of `bytes`.
pub open spec fn crc32(bytes: Seq<u8>) -> u32 {
    !crc_fold(0xFFFF_FFFF, bytes)
}

fn shift(register: u32) -> (next: u32)
    ensures
        next == crc_shift(register),
{
    if register & 1 == 1 {
        (register >> 1) ^ CRC_POLYNOMIAL
    } else {
        register >> 1
    }
}

/// Computes the check value of `bytes`.
pub fn checksum(bytes: &[u8]) -> (value: u32)
    ensures
        value == crc32(bytes@),
{
    let mut register: u32 = 0xFFFF_FFFF;
    let mut i: usize = 0;
    while i < bytes.len()
        invariant
            i <= bytes.len(),
            register == crc_fold(0xFFFF_FFFF, bytes@.subrange(0, i as int)),
        decreases bytes.len() - i,
    {
        let mut r: u32 = register ^ (bytes[i] as u32);
        r = shift(r);
        r = shift(r);
        r = shift(r);
        r = shift(r);
        r = shift(r);
        r = shift(r);
        r = shift(r);
        r = shift(r);
        proof {
            let before = bytes@.subrange(0, i as int);
            let after = bytes@.subrange(0, i + 1);
            assert(after.drop_last() =~= before);
            assert(after.last() == bytes@[i as int]);
        }
        register = r;
        i += 1;
    }
    assert(bytes@.subrange(0, i as int) =~= bytes@);
    !register
}

} // verus!
