//! Little-endian integers on the wire.

use byteorder::{ByteOrder, LittleEndian};
use vstd::prelude::*;
use vstd::slice::slice_subrange;

verus! {

/// The two bytes of `v`, least significant first.
#[verifier::opaque]
pub open spec fn u16_le(v: u16) -> Seq<u8> {
    seq![(v % 256) as u8, (v / 256) as u8]
}

/// The four bytes of `v`, least significant first.
#[verifier::opaque]
pub open spec fn u32_le(v: u32) -> Seq<u8> {
    seq![
        (v % 256) as u8,
        (v / 0x100 % 256) as u8,
        (v / 0x1_0000 % 256) as u8,
        (v / 0x100_0000) as u8,
    ]
}

/// The eight bytes of `v`, least significant first.
#[verifier::opaque]
pub open spec fn u64_le(v: u64) -> Seq<u8> {
    seq![
        (v % 256) as u8,
        (v / 0x100 % 256) as u8,
        (v / 0x1_0000 % 256) as u8,
        (v / 0x100_0000 % 256) as u8,
        (v / 0x1_0000_0000 % 256) as u8,
        (v / 0x100_0000_0000 % 256) as u8,
        (v / 0x1_0000_0000_0000 % 256) as u8,
        (v / 0x100_0000_0000_0000) as u8,
    ]
}

/// The number that the first two bytes of `b` spell, least significant first.
#[verifier::opaque]
pub open spec fn u16_of_le(b: Seq<u8>) -> u16
    recommends
        b.len() >= 2,
{
    (b[0] as int + 0x100 * (b[1] as int)) as u16
}

/// The number that the first four bytes of `b` spell, least significant first.
#[verifier::opaque]
pub open spec fn u32_of_le(b: Seq<u8>) -> u32
    recommends
        b.len() >= 4,
{
    (b[0] as int + 0x100 * (b[1] as int) + 0x1_0000 * (b[2] as int) + 0x100_0000 * (
    b[3] as int)) as u32
}

/// The number that the first eight bytes of `b` spell, least significant first.
#[verifier::opaque]
pub open spec fn u64_of_le(b: Seq<u8>) -> u64
    recommends
        b.len() >= 8,
{
    (b[0] as int + 0x100 * (b[1] as int) + 0x1_0000 * (b[2] as int) + 0x100_0000 * (b[3] as int)
        + 0x1_0000_0000 * (b[4] as int) + 0x100_0000_0000 * (b[5] as int) + 0x1_0000_0000_0000 * (
    b[6] as int) + 0x100_0000_0000_0000 * (b[7] as int)) as u64
}

/// Decoding undoes encoding of a 16-bit number.
pub proof fn lemma_u16_le_inverse(v: u16)
    ensures
        u16_le(v).len() == 2,
        u16_of_le(u16_le(v)) == v,
{
    reveal(u16_le);
    reveal(u16_of_le);
    assert(v == (v % 256) + 0x100 * (v / 256) && v / 256 < 256) by (bit_vector);
}

/// Decoding undoes encoding of a 32-bit number.
pub proof fn lemma_u32_le_inverse(v: u32)
    ensures
        u32_le(v).len() == 4,
        u32_of_le(u32_le(v)) == v,
{
    reveal(u32_le);
    reveal(u32_of_le);
    assert(v == (v % 256) + 0x100 * (v / 0x100 % 256) + 0x1_0000 * (v / 0x1_0000 % 256) + 0x100_0000
        * (v / 0x100_0000) && v / 0x100_0000 < 256) by (bit_vector);
}

/// Decoding undoes encoding of a 64-bit number.
pub proof fn lemma_u64_le_inverse(v: u64)
    ensures
        u64_le(v).len() == 8,
        u64_of_le(u64_le(v)) == v,
{
    reveal(u64_le);
    reveal(u64_of_le);
    assert(v == (v % 256) + 0x100 * (v / 0x100 % 256) + 0x1_0000 * (v / 0x1_0000 % 256) + 0x100_0000
        * (v / 0x100_0000 % 256) + 0x1_0000_0000 * (v / 0x1_0000_0000 % 256) + 0x100_0000_0000 * (v
        / 0x100_0000_0000 % 256) + 0x1_0000_0000_0000 * (v / 0x1_0000_0000_0000 % 256)
        + 0x100_0000_0000_0000 * (v / 0x100_0000_0000_0000) && v / 0x100_0000_0000_0000 < 256)
        by (bit_vector);
}

/// `byteorder::LittleEndian::read_u16`: the first two bytes of `buf` as a
/// little-endian number. It panics on fewer than two bytes.
#[verifier::external_body]
fn le_read_u16(buf: &[u8]) -> (v: u16)
    requires
        buf@.len() >= 2,
    ensures
        v == u16_of_le(buf@),
{
    LittleEndian::read_u16(buf)
}

/// `byteorder::LittleEndian::read_u32`: the first four bytes of `buf` as a
/// little-endian number. It panics on fewer than four bytes.
#[verifier::external_body]
fn le_read_u32(buf: &[u8]) -> (v: u32)
    requires
        buf@.len() >= 4,
    ensures
        v == u32_of_le(buf@),
{
    LittleEndian::read_u32(buf)
}

/// `byteorder::LittleEndian::read_u64`: the first eight bytes of `buf` as a
/// little-endian number. It panics on fewer than eight bytes.
#[verifier::external_body]
fn le_read_u64(buf: &[u8]) -> (v: u64)
    requires
        buf@.len() >= 8,
    ensures
        v == u64_of_le(buf@),
{
    LittleEndian::read_u64(buf)
}

/// `byteorder::LittleEndian::write_u16` on a fresh two-byte buffer: the
/// buffer then holds the little-endian bytes of `v`.
#[verifier::external_body]
fn le_write_u16(v: u16) -> (b: [u8; 2])
    ensures
        b@ == u16_le(v),
{
    let mut b = [0u8; 2];
    LittleEndian::write_u16(&mut b, v);
    b
}

/// `byteorder::LittleEndian::write_u32` on a fresh four-byte buffer: the
/// buffer then holds the little-endian bytes of `v`.
#[verifier::external_body]
fn le_write_u32(v: u32) -> (b: [u8; 4])
    ensures
        b@ == u32_le(v),
{
    let mut b = [0u8; 4];
    LittleEndian::write_u32(&mut b, v);
    b
}

/// `byteorder::LittleEndian::write_u64` on a fresh eight-byte buffer: the
/// buffer then holds the little-endian bytes of `v`.
#[verifier::external_body]
fn le_write_u64(v: u64) -> (b: [u8; 8])
    ensures
        b@ == u64_le(v),
{
    let mut b = [0u8; 8];
    LittleEndian::write_u64(&mut b, v);
    b
}

/// `byteorder::LittleEndian::read_i16`: the first two bytes of `buf` as a
/// little-endian number in two's complement. It panics on fewer than two
/// bytes.
#[verifier::external_body]
fn le_read_i16(buf: &[u8]) -> (v: i16)
    requires
        buf@.len() >= 2,
    ensures
        v == u16_of_le(buf@) as i16,
{
    LittleEndian::read_i16(buf)
}

/// `byteorder::LittleEndian::read_i32`: the first four bytes of `buf` as a
/// little-endian number in two's complement. It panics on fewer than four
/// bytes.
#[verifier::external_body]
fn le_read_i32(buf: &[u8]) -> (v: i32)
    requires
        buf@.len() >= 4,
    ensures
        v == u32_of_le(buf@) as i32,
{
    LittleEndian::read_i32(buf)
}

/// `byteorder::LittleEndian::read_i64`: the first eight bytes of `buf` as a
/// little-endian number in two's complement. It panics on fewer than eight
/// bytes.
#[verifier::external_body]
fn le_read_i64(buf: &[u8]) -> (v: i64)
    requires
        buf@.len() >= 8,
    ensures
        v == u64_of_le(buf@) as i64,
{
    LittleEndian::read_i64(buf)
}

/// `byteorder::LittleEndian::write_i16` on a fresh two-byte buffer: the
/// buffer then holds the little-endian bytes of `v` in two's complement.
#[verifier::external_body]
fn le_write_i16(v: i16) -> (b: [u8; 2])
    ensures
        b@ == u16_le(v as u16),
{
    let mut b = [0u8; 2];
    LittleEndian::write_i16(&mut b, v);
    b
}

/// `byteorder::LittleEndian::write_i32` on a fresh four-byte buffer: the
/// buffer then holds the little-endian bytes of `v` in two's complement.
#[verifier::external_body]
fn le_write_i32(v: i32) -> (b: [u8; 4])
    ensures
        b@ == u32_le(v as u32),
{
    let mut b = [0u8; 4];
    LittleEndian::write_i32(&mut b, v);
    b
}

/// `byteorder::LittleEndian::write_i64` on a fresh eight-byte buffer: the
/// buffer then holds the little-endian bytes of `v` in two's complement.
#[verifier::external_body]
fn le_write_i64(v: i64) -> (b: [u8; 8])
    ensures
        b@ == u64_le(v as u64),
{
    let mut b = [0u8; 8];
    LittleEndian::write_i64(&mut b, v);
    b
}

/// Reads the two bytes at `pos`.
pub(crate) fn get_u16(bytes: &[u8], pos: usize) -> (v: u16)
    requires
        pos + 2 <= bytes@.len(),
    ensures
        v == u16_of_le(bytes@.subrange(pos as int, pos + 2)),
{
    let _ = bytes.len();
    le_read_u16(slice_subrange(bytes, pos, pos + 2))
}

/// Reads the four bytes at `pos`.
pub(crate) fn get_u32(bytes: &[u8], pos: usize) -> (v: u32)
    requires
        pos + 4 <= bytes@.len(),
    ensures
        v == u32_of_le(bytes@.subrange(pos as int, pos + 4)),
{
    let _ = bytes.len();
    le_read_u32(slice_subrange(bytes, pos, pos + 4))
}

/// Reads the eight bytes at `pos`.
pub(crate) fn get_u64(bytes: &[u8], pos: usize) -> (v: u64)
    requires
        pos + 8 <= bytes@.len(),
    ensures
        v == u64_of_le(bytes@.subrange(pos as int, pos + 8)),
{
    let _ = bytes.len();
    le_read_u64(slice_subrange(bytes, pos, pos + 8))
}

/// Reads the two bytes at `pos` as a signed number.
pub(crate) fn get_i16(bytes: &[u8], pos: usize) -> (v: i16)
    requires
        pos + 2 <= bytes@.len(),
    ensures
        v == u16_of_le(bytes@.subrange(pos as int, pos + 2)) as i16,
{
    let _ = bytes.len();
    le_read_i16(slice_subrange(bytes, pos, pos + 2))
}

/// Reads the four bytes at `pos` as a signed number.
pub(crate) fn get_i32(bytes: &[u8], pos: usize) -> (v: i32)
    requires
        pos + 4 <= bytes@.len(),
    ensures
        v == u32_of_le(bytes@.subrange(pos as int, pos + 4)) as i32,
{
    let _ = bytes.len();
    le_read_i32(slice_subrange(bytes, pos, pos + 4))
}

/// Reads the eight bytes at `pos` as a signed number.
pub(crate) fn get_i64(bytes: &[u8], pos: usize) -> (v: i64)
    requires
        pos + 8 <= bytes@.len(),
    ensures
        v == u64_of_le(bytes@.subrange(pos as int, pos + 8)) as i64,
{
    let _ = bytes.len();
    le_read_i64(slice_subrange(bytes, pos, pos + 8))
}

/// Appends `src` to `out`.
pub(crate) fn put_bytes(out: &mut Vec<u8>, src: &[u8])
    ensures
        final(out)@ == old(out)@ + src@,
{
    out.extend_from_slice(src);
    assert(out@ =~= old(out)@ + src@);
}

/// Appends the two bytes of `v`.
pub(crate) fn put_u16(out: &mut Vec<u8>, v: u16)
    ensures
        final(out)@ == old(out)@ + u16_le(v),
{
    let b = le_write_u16(v);
    put_bytes(out, b.as_slice());
}

/// Appends the four bytes of `v`.
pub(crate) fn put_u32(out: &mut Vec<u8>, v: u32)
    ensures
        final(out)@ == old(out)@ + u32_le(v),
{
    let b = le_write_u32(v);
    put_bytes(out, b.as_slice());
}

/// Appends the eight bytes of `v`.
pub(crate) fn put_u64(out: &mut Vec<u8>, v: u64)
    ensures
        final(out)@ == old(out)@ + u64_le(v),
{
    let b = le_write_u64(v);
    put_bytes(out, b.as_slice());
}

/// Appends the two bytes of a signed number.
pub(crate) fn put_i16(out: &mut Vec<u8>, v: i16)
    ensures
        final(out)@ == old(out)@ + u16_le(v as u16),
{
    let b = le_write_i16(v);
    put_bytes(out, b.as_slice());
}

/// Appends the four bytes of a signed number.
pub(crate) fn put_i32(out: &mut Vec<u8>, v: i32)
    ensures
        final(out)@ == old(out)@ + u32_le(v as u32),
{
    let b = le_write_i32(v);
    put_bytes(out, b.as_slice());
}

/// Appends the eight bytes of a signed number.
pub(crate) fn put_i64(out: &mut Vec<u8>, v: i64)
    ensures
        final(out)@ == old(out)@ + u64_le(v as u64),
{
    let b = le_write_i64(v);
    put_bytes(out, b.as_slice());
}

/// Overwrites the bytes at `at` with `src`.
pub(crate) fn patch_bytes(out: &mut Vec<u8>, at: usize, src: &[u8])
    requires
        at + src@.len() <= old(out)@.len(),
    ensures
        final(out)@ == old(out)@.subrange(0, at as int) + src@ + old(out)@.subrange(
            at + src@.len(),
            old(out)@.len() as int,
        ),
{
    let n = src.len();
    let len = out.len();
    let mut k: usize = 0;
    while k < n
        invariant
            k <= n,
            n == src@.len(),
            at + n <= len,
            len == old(out)@.len(),
            out@.len() == old(out)@.len(),
            forall|j: int| 0 <= j < out@.len() && !(at <= j < at + k) ==> out@[j] == old(out)@[j],
            forall|j: int| 0 <= j < k ==> out@[at + j] == src@[j],
        decreases n - k,
    {
        out.set(at + k, src[k]);
        k += 1;
    }
    assert(out@ =~= old(out)@.subrange(0, at as int) + src@ + old(out)@.subrange(
        at + src@.len(),
        old(out)@.len() as int,
    ));
}

/// Overwrites the eight bytes at `at` with the bytes of `v`.
pub(crate) fn patch_u64(out: &mut Vec<u8>, at: usize, v: u64)
    requires
        at + 8 <= old(out)@.len(),
    ensures
        final(out)@ == old(out)@.subrange(0, at as int) + u64_le(v) + old(out)@.subrange(
            at + 8,
            old(out)@.len() as int,
        ),
{
    let field = le_write_u64(v);
    proof {
        lemma_u64_le_inverse(v);
    }
    patch_bytes(out, at, field.as_slice());
}

} // verus!
