use byteorder::{BigEndian, ByteOrder};
use vstd::prelude::*;
use crate::cursor::Cursor;
use crate::error::Error;

verus! {

/// The unsigned number that the first two bytes of `b` spell, most
/// significant byte first.
pub open spec fn be_u16(b: Seq<u8>) -> u16
    recommends
        b.len() >= 2,
{
    (b[0] as int * 0x100 + b[1] as int) as u16
}

/// The unsigned number that the first four bytes of `b` spell, most
/// significant byte first.
pub open spec fn be_u32(b: Seq<u8>) -> u32
    recommends
        b.len() >= 4,
{
    (b[0] as int * 0x100_0000 + b[1] as int * 0x1_0000 + b[2] as int * 0x100 + b[3] as int) as u32
}

/// The two bytes that spell `n`, most significant first.
#[verifier::opaque]
pub open spec fn u16_be(n: u16) -> Seq<u8> {
    seq![(n / 0x100) as u8, (n % 0x100) as u8]
}

/// The four bytes that spell `n`, most significant first.
#[verifier::opaque]
pub open spec fn u32_be(n: u32) -> Seq<u8> {
    seq![
        (n / 0x100_0000) as u8,
        ((n / 0x1_0000) % 0x100) as u8,
        ((n / 0x100) % 0x100) as u8,
        (n % 0x100) as u8,
    ]
}

/// The signed number that has the bit pattern of `u` in two's complement.
pub open spec fn signed(u: u32) -> i32 {
    if u < 0x8000_0000 {
        u as i32
    } else {
        (u - 0x1_0000_0000) as i32
    }
}

/// The unsigned number that has the bit pattern of `i` in two's complement.
pub open spec fn unsigned(i: i32) -> u32 {
    if i >= 0 {
        i as u32
    } else {
        (i + 0x1_0000_0000) as u32
    }
}

/// `byteorder::BigEndian::read_u16`: the number spelled by the first two bytes
/// of `buf`, most significant first. It panics on a shorter buffer.
#[verifier::external_body]
fn be_read_u16(buf: &[u8]) -> (n: u16)
    requires
        buf@.len() >= 2,
    ensures
        n == be_u16(buf@),
{
    BigEndian::read_u16(buf)
}

/// `byteorder::BigEndian::read_u32`: the number spelled by the first four
/// bytes of `buf`, most significant first. It panics on a shorter buffer.
#[verifier::external_body]
fn be_read_u32(buf: &[u8]) -> (n: u32)
    requires
        buf@.len() >= 4,
    ensures
        n == be_u32(buf@),
{
    BigEndian::read_u32(buf)
}

/// `byteorder::BigEndian::read_i32`: the first four bytes of `buf` read as an
/// unsigned number, most significant first, and then taken as two's
/// complement. It panics on a shorter buffer.
#[verifier::external_body]
fn be_read_i32(buf: &[u8]) -> (n: i32)
    requires
        buf@.len() >= 4,
    ensures
        n == signed(be_u32(buf@)),
{
    BigEndian::read_i32(buf)
}

/// `byteorder::BigEndian::write_u16` into a buffer of two bytes: the bytes
/// that spell `n`, most significant first.
#[verifier::external_body]
fn be_write_u16(n: u16) -> (buf: [u8; 2])
    ensures
        buf@ == u16_be(n),
{
    let mut buf = [0u8; 2];
    BigEndian::write_u16(&mut buf, n);
    buf
}

/// `byteorder::BigEndian::write_u32` into a buffer of four bytes: the bytes
/// that spell `n`, most significant first.
#[verifier::external_body]
fn be_write_u32(n: u32) -> (buf: [u8; 4])
    ensures
        buf@ == u32_be(n),
{
    let mut buf = [0u8; 4];
    BigEndian::write_u32(&mut buf, n);
    buf
}

/// `byteorder::BigEndian::write_i32` into a buffer of four bytes: the bytes
/// that spell the two's complement pattern of `n`, most significant first.
#[verifier::external_body]
fn be_write_i32(n: i32) -> (buf: [u8; 4])
    ensures
        buf@ == u32_be(unsigned(n)),
{
    let mut buf = [0u8; 4];
    BigEndian::write_i32(&mut buf, n);
    buf
}

/// Reads a big-endian `u16`. Fails on fewer than two bytes, and then leaves
/// the cursor where it was.
pub fn read_u16(reader: &mut Cursor) -> (r: Result<u16, Error>)
    ensures
        match r {
            Ok(n) => {
                &&& old(reader)@.len() >= 2
                &&& n == be_u16(old(reader)@)
                &&& final(reader)@ == old(reader)@.skip(2)
            },
            Err(e) => e == Error::IOError && old(reader)@.len() < 2 && final(reader)@ == old(reader)@,
        },
{
    match reader.read_exact(2) {
        Ok(bytes) => Ok(be_read_u16(bytes.as_slice())),
        Err(e) => Err(e),
    }
}

/// Reads a big-endian `u32`. Fails on fewer than four bytes, and then leaves
/// the cursor where it was.
pub fn read_u32(reader: &mut Cursor) -> (r: Result<u32, Error>)
    ensures
        match r {
            Ok(n) => {
                &&& old(reader)@.len() >= 4
                &&& n == be_u32(old(reader)@)
                &&& final(reader)@ == old(reader)@.skip(4)
            },
            Err(e) => e == Error::IOError && old(reader)@.len() < 4 && final(reader)@ == old(reader)@,
        },
{
    match reader.read_exact(4) {
        Ok(bytes) => Ok(be_read_u32(bytes.as_slice())),
        Err(e) => Err(e),
    }
}

/// Reads a big-endian two's complement `i32`. Fails on fewer than four bytes,
/// and then leaves the cursor where it was.
pub fn read_i32(reader: &mut Cursor) -> (r: Result<i32, Error>)
    ensures
        match r {
            Ok(n) => {
                &&& old(reader)@.len() >= 4
                &&& n == signed(be_u32(old(reader)@))
                &&& final(reader)@ == old(reader)@.skip(4)
            },
            Err(e) => e == Error::IOError && old(reader)@.len() < 4 && final(reader)@ == old(reader)@,
        },
{
    match reader.read_exact(4) {
        Ok(bytes) => Ok(be_read_i32(bytes.as_slice())),
        Err(e) => Err(e),
    }
}

/// Appends the two bytes of `n`, most significant first.
pub fn write_u16(writer: &mut Vec<u8>, n: u16)
    ensures
        final(writer)@ == old(writer)@ + u16_be(n),
{
    let buf = be_write_u16(n);
    writer.extend_from_slice(buf.as_slice());
}

/// Appends the four bytes of `n`, most significant first.
pub fn write_u32(writer: &mut Vec<u8>, n: u32)
    ensures
        final(writer)@ == old(writer)@ + u32_be(n),
{
    let buf = be_write_u32(n);
    writer.extend_from_slice(buf.as_slice());
}

/// Appends the four bytes of the two's complement pattern of `n`, most
/// significant first.
pub fn write_i32(writer: &mut Vec<u8>, n: i32)
    ensures
        final(writer)@ == old(writer)@ + u32_be(unsigned(n)),
{
    let buf = be_write_i32(n);
    writer.extend_from_slice(buf.as_slice());
}

/// A `u16` is spelled in two bytes and a `u32` in four.
pub proof fn lemma_be_len(n16: u16, n32: u32)
    ensures
        u16_be(n16).len() == 2,
        u32_be(n32).len() == 4,
{
    reveal(u16_be);
    reveal(u32_be);
}

/// Spelling a number and reading the bytes back gives the number, for each
/// of the three widths.
pub proof fn lemma_be_of_number(n16: u16, n32: u32, i: i32)
    ensures
        be_u16(u16_be(n16)) == n16,
        be_u32(u32_be(n32)) == n32,
        signed(unsigned(i)) == i,
        signed(be_u32(u32_be(unsigned(i)))) == i,
{
    reveal(u16_be);
    lemma_u32_parts(n32);
    lemma_u32_parts(unsigned(i));
}

/// The four bytes of a number, weighted by their places, add up to it.
proof fn lemma_u32_parts(n: u32)
    ensures
        be_u32(u32_be(n)) == n,
{
    reveal(u32_be);
    let q1: int = n as int / 0x100;
    let q2: int = q1 / 0x100;
    let q3: int = q2 / 0x100;
    assert(n as int == q1 * 0x100 + n as int % 0x100);
    assert(q1 == q2 * 0x100 + q1 % 0x100);
    assert(q2 == q3 * 0x100 + q2 % 0x100);
    assert(q2 == n as int / 0x1_0000);
    assert(q3 == n as int / 0x100_0000);
    assert(0 <= q3 < 0x100);
    assert((n as int / 0x100) % 0x100 == q1 % 0x100);
    assert((n as int / 0x1_0000) % 0x100 == q2 % 0x100);
}

/// Reading two bytes as a number and spelling it gives the two bytes.
pub proof fn lemma_be_of_bytes_u16(b: Seq<u8>)
    requires
        b.len() == 2,
    ensures
        u16_be(be_u16(b)) == b,
{
    reveal(u16_be);
    assert(u16_be(be_u16(b)) =~= b);
}

/// Reading four bytes as a number, signed or not, and spelling it gives the
/// four bytes.
pub proof fn lemma_be_of_bytes_u32(b: Seq<u8>)
    requires
        b.len() == 4,
    ensures
        u32_be(be_u32(b)) == b,
        u32_be(unsigned(signed(be_u32(b)))) == b,
{
    reveal(u32_be);
    let w1: int = b[0] as int * 0x100 + b[1] as int;
    let w2: int = w1 * 0x100 + b[2] as int;
    let w3: int = w2 * 0x100 + b[3] as int;
    assert(0 <= w1 < 0x1_0000 && 0 <= w2 < 0x100_0000 && 0 <= w3 < 0x1_0000_0000);
    assert(be_u32(b) == w3);
    assert(w3 % 0x100 == b[3] && w3 / 0x100 == w2);
    assert(w2 % 0x100 == b[2] && w2 / 0x100 == w1);
    assert(w1 % 0x100 == b[1] && w1 / 0x100 == b[0]);
    assert(w3 / 0x1_0000 == w1);
    assert(w3 / 0x100_0000 == b[0]);
    let n = be_u32(b);
    assert(unsigned(signed(n)) == n);
    assert(u32_be(n) =~= b);
}

/// A number that was spelled is read back from the start of any longer
/// sequence of bytes.
pub proof fn lemma_be_prefix(n16: u16, n32: u32, i: i32, tail: Seq<u8>)
    ensures
        be_u16(u16_be(n16) + tail) == n16,
        be_u32(u32_be(n32) + tail) == n32,
        signed(be_u32(u32_be(unsigned(i)) + tail)) == i,
{
    lemma_be_of_number(n16, n32, i);
    lemma_be_len(n16, n32);
    lemma_be_len(n16, unsigned(i));
    assert(be_u16(u16_be(n16) + tail) == be_u16(u16_be(n16)));
    assert(be_u32(u32_be(n32) + tail) == be_u32(u32_be(n32)));
    assert(be_u32(u32_be(unsigned(i)) + tail) == be_u32(u32_be(unsigned(i))));
}

/// The two bytes at position `k` of `s`, read as a number and spelled again,
/// are those two bytes.
pub proof fn lemma_u16_at(s: Seq<u8>, k: int)
    requires
        0 <= k,
        k + 2 <= s.len(),
    ensures
        u16_be(be_u16(s.skip(k))) == s.subrange(k, k + 2),
{
    let b = s.subrange(k, k + 2);
    lemma_be_of_bytes_u16(b);
    assert(be_u16(s.skip(k)) == be_u16(b));
}

/// The four bytes at position `k` of `s`, read as a number, signed or not,
/// and spelled again, are those four bytes.
pub proof fn lemma_u32_at(s: Seq<u8>, k: int)
    requires
        0 <= k,
        k + 4 <= s.len(),
    ensures
        u32_be(be_u32(s.skip(k))) == s.subrange(k, k + 4),
        u32_be(unsigned(signed(be_u32(s.skip(k))))) == s.subrange(k, k + 4),
{
    let b = s.subrange(k, k + 4);
    lemma_be_of_bytes_u32(b);
    assert(be_u32(s.skip(k)) == be_u32(b));
}

} // verus!
