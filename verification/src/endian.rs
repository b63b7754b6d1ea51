//! Fixed-width integers as they lie in an archive: most significant byte
//! first in the directory layout, least significant byte first in the flat
//! layout.
use byteorder::{BigEndian, ByteOrder, LittleEndian};
use vstd::prelude::*;
use vstd::slice::slice_subrange;

verus! {

/// The unsigned number that two bytes at `pos` spell, most significant first.
pub open spec fn be_u16_at(s: Seq<u8>, pos: int) -> int {
    s[pos] * 0x100 + s[pos + 1]
}

/// The signed number that two bytes at `pos` spell in two's complement, most
/// significant first.
pub open spec fn be_i16_at(s: Seq<u8>, pos: int) -> int {
    if be_u16_at(s, pos) >= 0x8000 {
        be_u16_at(s, pos) - 0x10000
    } else {
        be_u16_at(s, pos)
    }
}

/// The unsigned number that four bytes at `pos` spell, most significant first.
pub open spec fn be_u32_at(s: Seq<u8>, pos: int) -> int {
    s[pos] * 0x100_0000 + s[pos + 1] * 0x1_0000 + s[pos + 2] * 0x100 + s[pos + 3]
}

/// The unsigned number that four bytes at `pos` spell, least significant first.
pub open spec fn le_u32_at(s: Seq<u8>, pos: int) -> int {
    s[pos] + s[pos + 1] * 0x100 + s[pos + 2] * 0x1_0000 + s[pos + 3] * 0x100_0000
}

/// The four bytes of `n`, most significant first.
pub open spec fn be_u32_bytes(n: u32) -> Seq<u8> {
    seq![
        (n / 0x100_0000) as u8,
        ((n / 0x1_0000) % 0x100) as u8,
        ((n / 0x100) % 0x100) as u8,
        (n % 0x100) as u8,
    ]
}

/// The four bytes of `n`, least significant first.
pub open spec fn le_u32_bytes(n: u32) -> Seq<u8> {
    seq![
        (n % 0x100) as u8,
        ((n / 0x100) % 0x100) as u8,
        ((n / 0x1_0000) % 0x100) as u8,
        (n / 0x100_0000) as u8,
    ]
}

/// `byteorder::BigEndian::read_i16`: the first two bytes of `buf` taken as a
/// signed big-endian number. The call panics on a shorter buffer.
#[verifier::external_body]
fn be_i16_of(buf: &[u8]) -> (r: i16)
    requires
        buf@.len() >= 2,
    ensures
        r == be_i16_at(buf@, 0),
{
    BigEndian::read_i16(buf)
}

/// `byteorder::BigEndian::read_u32`: the first four bytes of `buf` taken as
/// an unsigned big-endian number. The call panics on a shorter buffer.
#[verifier::external_body]
fn be_u32_of(buf: &[u8]) -> (r: u32)
    requires
        buf@.len() >= 4,
    ensures
        r == be_u32_at(buf@, 0),
{
    BigEndian::read_u32(buf)
}

/// `byteorder::LittleEndian::read_u32`: the first four bytes of `buf` taken
/// as an unsigned little-endian number. The call panics on a shorter buffer.
#[verifier::external_body]
fn le_u32_of(buf: &[u8]) -> (r: u32)
    requires
        buf@.len() >= 4,
    ensures
        r == le_u32_at(buf@, 0),
{
    LittleEndian::read_u32(buf)
}

/// `byteorder::BigEndian::write_u32` into a buffer of four bytes: the bytes
/// of `n`, most significant first.
#[verifier::external_body]
fn be_u32_array(n: u32) -> (r: [u8; 4])
    ensures
        r@ == be_u32_bytes(n),
{
    let mut b = [0u8; 4];
    BigEndian::write_u32(&mut b, n);
    b
}

/// `byteorder::LittleEndian::write_u32` into a buffer of four bytes: the
/// bytes of `n`, least significant first.
#[verifier::external_body]
fn le_u32_array(n: u32) -> (r: [u8; 4])
    ensures
        r@ == le_u32_bytes(n),
{
    let mut b = [0u8; 4];
    LittleEndian::write_u32(&mut b, n);
    b
}

/// Reads a signed 16-bit big-endian number at `pos`, or nothing where fewer
/// than two bytes are left.
pub fn read_be_i16(data: &[u8], pos: usize) -> (r: Option<i16>)
    ensures
        r is Some <==> pos + 2 <= data@.len(),
        r is Some ==> r.unwrap() == be_i16_at(data@, pos as int),
{
    if pos > data.len() || data.len() - pos < 2 {
        None
    } else {
        Some(be_i16_of(slice_subrange(data, pos, pos + 2)))
    }
}

/// Reads an unsigned 32-bit big-endian number at `pos`, or nothing where
/// fewer than four bytes are left.
pub fn read_be_u32(data: &[u8], pos: usize) -> (r: Option<u32>)
    ensures
        r is Some <==> pos + 4 <= data@.len(),
        r is Some ==> r.unwrap() == be_u32_at(data@, pos as int),
{
    if pos > data.len() || data.len() - pos < 4 {
        None
    } else {
        Some(be_u32_of(slice_subrange(data, pos, pos + 4)))
    }
}

/// Reads an unsigned 32-bit little-endian number at `pos`, or nothing where
/// fewer than four bytes are left.
pub fn read_le_u32(data: &[u8], pos: usize) -> (r: Option<u32>)
    ensures
        r is Some <==> pos + 4 <= data@.len(),
        r is Some ==> r.unwrap() == le_u32_at(data@, pos as int),
{
    if pos > data.len() || data.len() - pos < 4 {
        None
    } else {
        Some(le_u32_of(slice_subrange(data, pos, pos + 4)))
    }
}

/// Appends the four bytes of `n` to `out`, most significant first.
pub fn push_be_u32(out: &mut Vec<u8>, n: u32)
    ensures
        final(out)@ == old(out)@ + be_u32_bytes(n),
{
    let b = be_u32_array(n);
    out.push(b[0]);
    out.push(b[1]);
    out.push(b[2]);
    out.push(b[3]);
}

/// Appends the four bytes of `n` to `out`, least significant first.
pub fn push_le_u32(out: &mut Vec<u8>, n: u32)
    ensures
        final(out)@ == old(out)@ + le_u32_bytes(n),
{
    let b = le_u32_array(n);
    out.push(b[0]);
    out.push(b[1]);
    out.push(b[2]);
    out.push(b[3]);
}

/// Reading back what `be_u32_bytes` wrote gives the number again, wherever
/// the four bytes stand.
pub proof fn lemma_be_u32_round_trip(s: Seq<u8>, pos: int, n: u32)
    requires
        0 <= pos,
        pos + 4 <= s.len(),
        s.subrange(pos, pos + 4) == be_u32_bytes(n),
    ensures
        be_u32_at(s, pos) == n,
{
    let b = be_u32_bytes(n);
    assert(s[pos] == s.subrange(pos, pos + 4)[0]);
    assert(s[pos + 1] == s.subrange(pos, pos + 4)[1]);
    assert(s[pos + 2] == s.subrange(pos, pos + 4)[2]);
    assert(s[pos + 3] == s.subrange(pos, pos + 4)[3]);
}

/// Reading back what `le_u32_bytes` wrote gives the number again, wherever
/// the four bytes stand.
pub proof fn lemma_le_u32_round_trip(s: Seq<u8>, pos: int, n: u32)
    requires
        0 <= pos,
        pos + 4 <= s.len(),
        s.subrange(pos, pos + 4) == le_u32_bytes(n),
    ensures
        le_u32_at(s, pos) == n,
{
    let b = le_u32_bytes(n);
    assert(s[pos] == s.subrange(pos, pos + 4)[0]);
    assert(s[pos + 1] == s.subrange(pos, pos + 4)[1]);
    assert(s[pos + 2] == s.subrange(pos, pos + 4)[2]);
    assert(s[pos + 3] == s.subrange(pos, pos + 4)[3]);
}

} // verus!
