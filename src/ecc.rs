//! The 6-bit SECDED code carried in bits 29:24 of a 32-bit fuse word.

use vstd::prelude::*;

verus! {

/// Generator masks, one per row of the code; each selects the data bits
/// whose parity forms one bit of the raw code.
pub const GEN_ROW0: u32 = 16_515_312;
pub const GEN_ROW1: u32 = 14_911_249;
pub const GEN_ROW2: u32 = 10_180_898;
pub const GEN_ROW3: u32 = 5_696_068;
pub const GEN_ROW4: u32 = 3_011_720;
pub const GEN_ROW5: u32 = 16_777_215;

/// Mask of the bits that a data record may not use.
pub const RESERVED_BITS: u32 = 0xFF00_0000;

/// XOR of bits `0 .. n` of `x`, as 0 or 1.
pub open spec fn xor_bits(x: u32, n: nat) -> u32
    decreases n,
{
    if n == 0 {
        0
    } else {
        xor_bits(x, (n - 1) as nat) ^ ((x >> ((n - 1) as u32)) & 1)
    }
}

/// Parity of the low 24 bits of `x`.
pub open spec fn parity24(x: u32) -> u32 {
    xor_bits(x, 24)
}

/// The raw 6-bit code: bit `row` is the parity of `data` under generator row `row`.
pub open spec fn raw_code(data: u32) -> u32 {
    parity24(GEN_ROW0 & data) | (parity24(GEN_ROW1 & data) << 1u32) | (parity24(GEN_ROW2 & data)
        << 2u32) | (parity24(GEN_ROW3 & data) << 3u32) | (parity24(GEN_ROW4 & data) << 4u32) | (
    parity24(GEN_ROW5 & data) << 5u32)
}

/// When bit 5 of the raw code is set, the low five bits are complemented
/// and bit 5 stays set.
pub open spec fn normalized_code(c: u32) -> u32 {
    if c & 0x20 != 0 {
        (!c & 0x1F) | 0x20
    } else {
        c
    }
}

/// The overall parity of the six low bits of `c`, as 0 or 1.
pub open spec fn parity6(c: u32) -> u32 {
    ((c >> 5u32) ^ (c >> 4u32) ^ (c >> 3u32) ^ (c >> 2u32) ^ (c >> 1u32) ^ c) & 1
}

/// The transmitted code: the low five bits of the normalized code, with
/// bit 5 replaced by the overall parity of its six bits.
pub open spec fn secded_code(c: u32) -> u32 {
    (c & 0x1F) | (parity6(c) << 5u32)
}

/// The full fuse word for a 24-bit data record.
pub open spec fn fuse_word(data: u32) -> u32 {
    data | (secded_code(normalized_code(raw_code(data))) << 24u32)
}

proof fn lemma_xor_bits_is_bit(x: u32, n: nat)
    ensures
        xor_bits(x, n) <= 1,
    decreases n,
{
    if n > 0 {
        lemma_xor_bits_is_bit(x, (n - 1) as nat);
        let p = xor_bits(x, (n - 1) as nat);
        let s = (n - 1) as u32;
        assert(p <= 1 ==> (p ^ ((x >> s) & 1)) <= 1) by (bit_vector);
    }
}

/// Parity of the low 24 bits of `x`, as 0 or 1.
fn parity24_exec(x: u32) -> (r: u32)
    ensures
        r == parity24(x),
        r <= 1,
{
    let mut parity: u32 = 0;
    let mut bit: u32 = 0;
    while bit < 24
        invariant
            bit <= 24,
            parity == xor_bits(x, bit as nat),
        decreases 24 - bit,
    {
        parity = parity ^ ((x >> bit) & 0x1);
        bit = bit + 1;
    }
    proof {
        lemma_xor_bits_is_bit(x, 24);
    }
    parity
}

/// Given a 24-bit data record, returns the record with its 6-bit SECDED
/// code in bits 29:24. A record that uses any of bits 31:24 is a caller
/// error and is excluded by the precondition.
pub fn add_ecc(data: u32) -> (r: u32)
    requires
        data & RESERVED_BITS == 0,
    ensures
        r == fuse_word(data),
        r & 0x00FF_FFFF == data,
        r & 0xC000_0000 == 0,
{
    let p0 = parity24_exec(GEN_ROW0 & data);
    let p1 = parity24_exec(GEN_ROW1 & data);
    let p2 = parity24_exec(GEN_ROW2 & data);
    let p3 = parity24_exec(GEN_ROW3 & data);
    let p4 = parity24_exec(GEN_ROW4 & data);
    let p5 = parity24_exec(GEN_ROW5 & data);
    let mut code: u32 = p0 | (p1 << 1u32) | (p2 << 2u32) | (p3 << 3u32) | (p4 << 4u32) | (p5 << 5u32);
    assert(code == raw_code(data));
    if (code & 0x20) != 0 {
        code = (!code & 0x1F) | 0x20;
    }
    assert(code == normalized_code(raw_code(data)));
    let parity: u32 = ((code >> 5u32) ^ (code >> 4u32) ^ (code >> 3u32) ^ (code >> 2u32) ^ (code
        >> 1u32) ^ code) & 0x1;
    assert(parity <= 1) by (bit_vector)
        requires
            parity == ((code >> 5u32) ^ (code >> 4u32) ^ (code >> 3u32) ^ (code >> 2u32) ^ (code
                >> 1u32) ^ code) & 0x1,
    ;
    let secded: u32 = (code & 0x1F) | (parity << 5u32);
    let r = data | (secded << 24u32);
    assert(r & 0x00FF_FFFF == data && r & 0xC000_0000 == 0) by (bit_vector)
        requires
            data & 0xFF00_0000 == 0,
            parity <= 1,
            secded == (code & 0x1F) | (parity << 5u32),
            r == data | (secded << 24u32),
    ;
    r
}

} // verus!
