use vstd::prelude::*;

verus! {

/// Scales are carried as 64-bit codes whose unsigned order is the order of
/// the scales they stand for. This is the code of scale zero, the level at
/// which every leaf of a partition tree is born.
pub const ZERO_SCALE: u64 = 0x8000_0000_0000_0000;

/// The number that a 64-bit pattern of a sign and a magnitude stands for in
/// the order of such patterns: the magnitude in the lower 63 bits, counted
/// below zero where the top bit is set. Binary numbers with a sign, an
/// exponent and a fraction are ordered as their patterns are in this sense.
pub open spec fn signed_magnitude(bits: u64) -> int {
    if bits >= 0x8000_0000_0000_0000 {
        -((bits - 0x8000_0000_0000_0000) as int)
    } else {
        bits as int
    }
}

/// The code of a pattern of a sign and a magnitude: the pattern with its
/// top bit set where it was clear, and with every bit turned over where it
/// was set.
pub open spec fn code_of(bits: u64) -> u64 {
    if bits >= 0x8000_0000_0000_0000 {
        (0xffff_ffff_ffff_ffff - bits) as u64
    } else {
        (bits + 0x8000_0000_0000_0000) as u64
    }
}

/// The pattern that a code stands for.
pub open spec fn bits_of(code: u64) -> u64 {
    if code >= 0x8000_0000_0000_0000 {
        (code - 0x8000_0000_0000_0000) as u64
    } else {
        (0xffff_ffff_ffff_ffff - code) as u64
    }
}

/// The code of a pattern of a sign and a magnitude.
pub fn encode_bits(bits: u64) -> (code: u64)
    ensures
        code == code_of(bits),
{
    if bits >> 63 == 1 {
        assert(bits >> 63 == 1 ==> bits >= 0x8000_0000_0000_0000 && !bits
            == 0xffff_ffff_ffff_ffff - bits) by (bit_vector);
        !bits
    } else {
        assert(bits >> 63 != 1 ==> bits < 0x8000_0000_0000_0000 && bits | (1u64 << 63) == bits
            + 0x8000_0000_0000_0000) by (bit_vector);
        bits | (1u64 << 63)
    }
}

/// The pattern of a sign and a magnitude that a code stands for.
pub fn decode_bits(code: u64) -> (bits: u64)
    ensures
        bits == bits_of(code),
{
    if code >> 63 == 1 {
        assert(code >> 63 == 1 ==> code >= 0x8000_0000_0000_0000 && code & !(1u64 << 63) == code
            - 0x8000_0000_0000_0000) by (bit_vector);
        code & !(1u64 << 63)
    } else {
        assert(code >> 63 != 1 ==> code < 0x8000_0000_0000_0000 && !code == 0xffff_ffff_ffff_ffff
            - code) by (bit_vector);
        !code
    }
}

/// Codes are ordered as the numbers their patterns stand for, every code
/// stands for the pattern it was made of, and the pattern of all zeros has
/// the code of scale zero.
pub proof fn lemma_codes(a: u64, b: u64)
    ensures
        signed_magnitude(a) < signed_magnitude(b) ==> code_of(a) < code_of(b),
        code_of(a) < code_of(b) ==> signed_magnitude(a) <= signed_magnitude(b),
        bits_of(code_of(a)) == a,
        code_of(bits_of(a)) == a,
        code_of(0) == ZERO_SCALE,
{
}

} // verus!
