//! Little-endian fields and the file-system tag.

use vstd::prelude::*;

verus! {

/// The 16-bit little-endian number stored at `s[i]`, `s[i + 1]`.
pub open spec fn le_u16_at(s: Seq<u8>, i: int) -> u16 {
    (s[i] as int + 256 * (s[i + 1] as int)) as u16
}

/// The 32-bit little-endian number stored at `s[i] .. s[i + 3]`.
pub open spec fn le_u32_at(s: Seq<u8>, i: int) -> u32 {
    (s[i] as int + 256 * (s[i + 1] as int) + 65536 * (s[i + 2] as int) + 16777216 * (s[i + 3] as int)) as u32
}

/// The four bytes that store `x` in little-endian order.
pub open spec fn u32_le_bytes(x: u32) -> Seq<u8> {
    seq![
        (x as int % 256) as u8,
        (x as int / 256 % 256) as u8,
        (x as int / 65536 % 256) as u8,
        (x as int / 16777216) as u8,
    ]
}

/// Whether `s` starts with the five ASCII letters `FAT32`.
pub open spec fn fat32_tag(s: Seq<u8>) -> bool {
    &&& s.len() >= 5
    &&& s[0] == 0x46
    &&& s[1] == 0x41
    &&& s[2] == 0x54
    &&& s[3] == 0x33
    &&& s[4] == 0x32
}

/// Decoding undoes encoding, for every 32-bit number.
pub proof fn lemma_le_u32_round_trip(x: u32)
    ensures
        u32_le_bytes(x).len() == 4,
        le_u32_at(u32_le_bytes(x), 0) == x,
{
}

/// A 32-bit little-endian number is zero exactly when its four bytes are.
pub proof fn lemma_le_u32_zero(s: Seq<u8>, i: int)
    ensures
        le_u32_at(s, i) == 0 <==> (s[i] == 0 && s[i + 1] == 0 && s[i + 2] == 0 && s[i + 3] == 0),
{
}

pub fn is_fat32(value: &[u8]) -> (r: bool)
    requires
        value@.len() >= 5,
    ensures
        r == fat32_tag(value@),
{
    value[0] == 0x46 && value[1] == 0x41 && value[2] == 0x54 && value[3] == 0x33 && value[4]
        == 0x32
}

pub fn read_le_u16(input: &[u8]) -> (r: u16)
    requires
        input@.len() >= 2,
    ensures
        r == le_u16_at(input@, 0),
{
    let b0: u16 = input[0] as u16;
    let b1: u16 = input[1] as u16;
    assert(b0 | (b1 << 8) == b0 + 256 * b1) by (bit_vector)
        requires
            b0 < 256,
            b1 < 256,
    ;
    b0 | (b1 << 8)
}

pub fn read_le_u32(input: &[u8]) -> (r: u32)
    requires
        input@.len() >= 4,
    ensures
        r == le_u32_at(input@, 0),
{
    let b0: u32 = input[0] as u32;
    let b1: u32 = input[1] as u32;
    let b2: u32 = input[2] as u32;
    let b3: u32 = input[3] as u32;
    assert(b0 | (b1 << 8) | (b2 << 16) | (b3 << 24) == b0 + 256 * b1 + 65536 * b2 + 16777216
        * b3) by (bit_vector)
        requires
            b0 < 256,
            b1 < 256,
            b2 < 256,
            b3 < 256,
    ;
    b0 | (b1 << 8) | (b2 << 16) | (b3 << 24)
}

/// The little-endian bytes of a 32-bit number.
pub fn write_le_u32(x: u32) -> (r: [u8; 4])
    ensures
        r@ == u32_le_bytes(x),
{
    assert(x & 0xFF == x % 256 && (x >> 8) & 0xFF == x / 256 % 256 && (x >> 16) & 0xFF == x
        / 65536 % 256 && (x >> 24) == x / 16777216) by (bit_vector);
    let r: [u8; 4] = [
        (x & 0xFF) as u8,
        ((x >> 8) & 0xFF) as u8,
        ((x >> 16) & 0xFF) as u8,
        (x >> 24) as u8,
    ];
    assert(r@ =~= u32_le_bytes(x));
    r
}

} // verus!
