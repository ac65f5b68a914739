//! Little-endian numbers, as the game's files store them.
use byteorder::{ByteOrder, LittleEndian, WriteBytesExt};
use vstd::prelude::*;

verus! {

/// The unsigned 32-bit number whose little-endian encoding starts `b`.
pub open spec fn le_u32(b: Seq<u8>) -> u32 {
    (b[0] + 256 * b[1] + 65536 * b[2] + 16777216 * b[3]) as u32
}

/// The signed 32-bit number whose little-endian two's-complement encoding starts `b`.
pub open spec fn le_i32(b: Seq<u8>) -> i32 {
    le_u32(b) as i32
}

/// The four little-endian bytes of `n`.
pub open spec fn le_bytes_u32(n: u32) -> Seq<u8> {
    seq![(n % 256) as u8, ((n / 256) % 256) as u8, ((n / 65536) % 256) as u8, (n / 16777216) as u8]
}

/// The four little-endian two's-complement bytes of `n`.
pub open spec fn le_bytes_i32(n: i32) -> Seq<u8> {
    le_bytes_u32(n as u32)
}

/// Calls `LittleEndian::read_u32`, which decodes the first four bytes of
/// `buf` with the least significant byte first (it panics on fewer than four).
#[verifier::external_body]
pub(crate) fn read_u32_le(buf: &[u8]) -> (v: u32)
    requires
        buf@.len() >= 4,
    ensures
        v == le_u32(buf@),
{
    LittleEndian::read_u32(buf)
}

/// Calls `LittleEndian::read_i32`, which is `read_u32` reinterpreted as a
/// two's-complement number.
#[verifier::external_body]
pub(crate) fn read_i32_le(buf: &[u8]) -> (v: i32)
    requires
        buf@.len() >= 4,
    ensures
        v == le_i32(buf@),
{
    LittleEndian::read_i32(buf)
}

/// Calls `WriteBytesExt::write_u32::<LittleEndian>` on a `Vec<u8>`, which
/// appends the four little-endian bytes of `n` (writing to a vector never fails).
#[verifier::external_body]
pub(crate) fn push_u32_le(out: &mut Vec<u8>, n: u32)
    ensures
        final(out)@ == old(out)@ + le_bytes_u32(n),
{
    let _ = out.write_u32::<LittleEndian>(n);
}

/// Calls `WriteBytesExt::write_i32::<LittleEndian>` on a `Vec<u8>`, which
/// appends the four little-endian two's-complement bytes of `n`.
#[verifier::external_body]
pub(crate) fn push_i32_le(out: &mut Vec<u8>, n: i32)
    ensures
        final(out)@ == old(out)@ + le_bytes_i32(n),
{
    let _ = out.write_i32::<LittleEndian>(n);
}

/// Decoding the little-endian bytes of `n` gives back `n`.
pub proof fn lemma_le_u32_roundtrip(n: u32, rest: Seq<u8>)
    ensures
        le_u32(le_bytes_u32(n) + rest) == n,
{
    let b = le_bytes_u32(n) + rest;
    assert(b[0] == n % 256);
    assert(b[1] == (n / 256) % 256);
    assert(b[2] == (n / 65536) % 256);
    assert(b[3] == n / 16777216);
    assert(n % 256 + 256 * ((n / 256) % 256) + 65536 * ((n / 65536) % 256) + 16777216 * (n
        / 16777216) == n) by (nonlinear_arith);
}

/// Decoding the little-endian two's-complement bytes of `n` gives back `n`.
pub proof fn lemma_le_i32_roundtrip(n: i32, rest: Seq<u8>)
    ensures
        le_i32(le_bytes_i32(n) + rest) == n,
{
    lemma_le_u32_roundtrip(n as u32, rest);
    assert((n as u32) as i32 == n) by (bit_vector);
}

/// Encoding the number that four bytes decode to gives back those bytes.
pub proof fn lemma_le_u32_bytes(b: Seq<u8>)
    requires
        b.len() == 4,
    ensures
        le_bytes_u32(le_u32(b)) == b,
{
    let (b0, b1, b2, b3) = (b[0] as int, b[1] as int, b[2] as int, b[3] as int);
    let x = b0 + 256 * b1 + 65536 * b2 + 16777216 * b3;
    assert(0 <= x < 0x1_0000_0000) by (nonlinear_arith)
        requires
            0 <= b0 < 256,
            0 <= b1 < 256,
            0 <= b2 < 256,
            0 <= b3 < 256,
            x == b0 + 256 * b1 + 65536 * b2 + 16777216 * b3,
    ;
    assert(x % 256 == b0 && (x / 256) % 256 == b1 && (x / 65536) % 256 == b2 && x / 16777216 == b3)
        by (nonlinear_arith)
        requires
            0 <= b0 < 256,
            0 <= b1 < 256,
            0 <= b2 < 256,
            0 <= b3 < 256,
            x == b0 + 256 * b1 + 65536 * b2 + 16777216 * b3,
    ;
    assert(le_bytes_u32(le_u32(b)) =~= b);
}

/// Encoding the signed number that four bytes decode to gives back those bytes.
pub proof fn lemma_le_i32_bytes(b: Seq<u8>)
    requires
        b.len() == 4,
    ensures
        le_bytes_i32(le_i32(b)) == b,
{
    let x = le_u32(b);
    assert(((x as i32) as u32) == x) by (bit_vector);
    lemma_le_u32_bytes(b);
}

} // verus!
