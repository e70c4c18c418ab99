//! Big-endian integers as they appear in box headers and offset tables.
//!
//! The four functions that read and write them are opaque, so that proofs
//! about whole containers do not unfold their arithmetic; the lemmas here
//! say what such proofs need, and `reveal` opens a function where a value
//! is wanted.

use byteorder::{BigEndian, ByteOrder};
use vstd::prelude::*;

verus! {

/// The 32-bit value stored big-endian in the first four bytes of `s`.
#[verifier::opaque]
pub open spec fn be_u32(s: Seq<u8>) -> u32 {
    (s[0] as int * 0x100_0000 + s[1] as int * 0x1_0000 + s[2] as int * 0x100 + s[3] as int) as u32
}

/// The 64-bit value stored big-endian in the first eight bytes of `s`.
#[verifier::opaque]
pub open spec fn be_u64(s: Seq<u8>) -> u64 {
    (be_u32(s) as int * 0x1_0000_0000 + be_u32(s.skip(4)) as int) as u64
}

/// The four bytes that store `x` big-endian.
#[verifier::opaque]
pub open spec fn u32_be_bytes(x: u32) -> Seq<u8> {
    seq![
        (x / 0x100_0000) as u8,
        (x / 0x1_0000 % 0x100) as u8,
        (x / 0x100 % 0x100) as u8,
        (x % 0x100) as u8,
    ]
}

/// The eight bytes that store `x` big-endian.
#[verifier::opaque]
pub open spec fn u64_be_bytes(x: u64) -> Seq<u8> {
    u32_be_bytes((x / 0x1_0000_0000) as u32) + u32_be_bytes((x % 0x1_0000_0000) as u32)
}

/// A 32-bit value is stored in four bytes, a 64-bit value in eight.
pub proof fn lemma_be_bytes_len(x: u32, y: u64)
    ensures
        u32_be_bytes(x).len() == 4,
        u64_be_bytes(y).len() == 8,
{
    reveal(u32_be_bytes);
    reveal(u64_be_bytes);
}

/// A 32-bit value is read from the first four bytes alone.
pub proof fn lemma_be_u32_prefix(a: Seq<u8>, b: Seq<u8>)
    requires
        a.len() >= 4,
        b.len() >= 4,
        a.take(4) == b.take(4),
    ensures
        be_u32(a) == be_u32(b),
{
    reveal(be_u32);
    assert(forall|i: int| 0 <= i < 4 ==> a[i] == a.take(4)[i] && b[i] == b.take(4)[i]);
}

/// A 64-bit value is read from the first eight bytes alone.
pub proof fn lemma_be_u64_prefix(a: Seq<u8>, b: Seq<u8>)
    requires
        a.len() >= 8,
        b.len() >= 8,
        a.take(8) == b.take(8),
    ensures
        be_u64(a) == be_u64(b),
{
    reveal(be_u64);
    assert(forall|i: int| 0 <= i < 8 ==> a[i] == a.take(8)[i] && b[i] == b.take(8)[i]);
    assert(a.take(4) =~= b.take(4));
    assert(a.skip(4).take(4) =~= b.skip(4).take(4));
    lemma_be_u32_prefix(a, b);
    lemma_be_u32_prefix(a.skip(4), b.skip(4));
}

/// Reading back four bytes written by `u32_be_bytes` gives the value again,
/// whatever follows them.
pub proof fn lemma_be_u32_of_bytes(x: u32, rest: Seq<u8>)
    ensures
        u32_be_bytes(x).len() == 4,
        be_u32(u32_be_bytes(x) + rest) == x,
{
    reveal(be_u32);
    reveal(u32_be_bytes);
    let s = u32_be_bytes(x) + rest;
    assert(s[0] == u32_be_bytes(x)[0]);
    assert(s[1] == u32_be_bytes(x)[1]);
    assert(s[2] == u32_be_bytes(x)[2]);
    assert(s[3] == u32_be_bytes(x)[3]);
}

/// Writing the value read from four bytes gives those bytes again.
pub proof fn lemma_bytes_of_be_u32(s: Seq<u8>)
    requires
        s.len() >= 4,
    ensures
        u32_be_bytes(be_u32(s)) == s.take(4),
{
    reveal(be_u32);
    reveal(u32_be_bytes);
    lemma_digits(s[0], s[1], s[2], s[3]);
    assert(u32_be_bytes(be_u32(s)) =~= s.take(4));
}

/// Four base-256 digits are recovered from their weighted sum by division
/// and remainder.
proof fn lemma_digits(a: u8, b: u8, c: u8, d: u8)
    ensures
        ({
            let x = a as int * 0x100_0000 + b as int * 0x1_0000 + c as int * 0x100 + d as int;
            &&& 0 <= x <= u32::MAX
            &&& x / 0x100_0000 == a
            &&& x / 0x1_0000 % 0x100 == b
            &&& x / 0x100 % 0x100 == c
            &&& x % 0x100 == d
        }),
{
    let (a, b, c, d) = (a as u64, b as u64, c as u64, d as u64);
    assert(a < 256 && b < 256 && c < 256 && d < 256 ==> {
        let x = (a * 0x100_0000 + b * 0x1_0000 + c * 0x100 + d) as u64;
        &&& x <= 0xFFFF_FFFF
        &&& x / 0x100_0000 == a
        &&& x / 0x1_0000 % 0x100 == b
        &&& x / 0x100 % 0x100 == c
        &&& x % 0x100 == d
    }) by (bit_vector);
}

/// Reading back eight bytes written by `u64_be_bytes` gives the value again,
/// whatever follows them.
pub proof fn lemma_be_u64_of_bytes(x: u64, rest: Seq<u8>)
    ensures
        u64_be_bytes(x).len() == 8,
        be_u64(u64_be_bytes(x) + rest) == x,
{
    reveal(be_u64);
    reveal(u64_be_bytes);
    lemma_be_bytes_len(0, x);
    let hi = (x / 0x1_0000_0000) as u32;
    let lo = (x % 0x1_0000_0000) as u32;
    let s = u64_be_bytes(x) + rest;
    lemma_be_u32_of_bytes(hi, u32_be_bytes(lo) + rest);
    lemma_be_u32_of_bytes(lo, rest);
    assert(s =~= u32_be_bytes(hi) + (u32_be_bytes(lo) + rest));
    assert(s.skip(4) =~= u32_be_bytes(lo) + rest);
}

/// Writing the value read from eight bytes gives those bytes again.
pub proof fn lemma_bytes_of_be_u64(s: Seq<u8>)
    requires
        s.len() >= 8,
    ensures
        u64_be_bytes(be_u64(s)) == s.take(8),
{
    reveal(be_u64);
    reveal(u64_be_bytes);
    lemma_bytes_of_be_u32(s);
    lemma_bytes_of_be_u32(s.skip(4));
    let x = be_u64(s);
    assert((x / 0x1_0000_0000) as u32 == be_u32(s));
    assert((x % 0x1_0000_0000) as u32 == be_u32(s.skip(4)));
    assert(s.take(8) =~= s.take(4) + s.skip(4).take(4));
}

/// `byteorder::BigEndian::read_u32`: the big-endian value of the first four
/// bytes of `buf`. The call panics on a shorter slice, which `requires`
/// leaves out.
#[verifier::external_body]
pub(crate) fn read_be_u32(buf: &[u8]) -> (r: u32)
    requires
        buf@.len() >= 4,
    ensures
        r == be_u32(buf@),
{
    BigEndian::read_u32(buf)
}

/// `byteorder::BigEndian::read_u64`: the big-endian value of the first eight
/// bytes of `buf`. The call panics on a shorter slice, which `requires`
/// leaves out.
#[verifier::external_body]
pub(crate) fn read_be_u64(buf: &[u8]) -> (r: u64)
    requires
        buf@.len() >= 8,
    ensures
        r == be_u64(buf@),
{
    BigEndian::read_u64(buf)
}

/// `byteorder::BigEndian::write_u32` on a fresh four-byte buffer: the bytes
/// that store `n` big-endian.
#[verifier::external_body]
pub(crate) fn be_bytes_of_u32(n: u32) -> (r: Vec<u8>)
    ensures
        r@ == u32_be_bytes(n),
{
    let mut buf = vec![0u8; 4];
    BigEndian::write_u32(&mut buf, n);
    buf
}

/// `byteorder::BigEndian::write_u64` on a fresh eight-byte buffer: the bytes
/// that store `n` big-endian.
#[verifier::external_body]
pub(crate) fn be_bytes_of_u64(n: u64) -> (r: Vec<u8>)
    ensures
        r@ == u64_be_bytes(n),
{
    let mut buf = vec![0u8; 8];
    BigEndian::write_u64(&mut buf, n);
    buf
}

} // verus!
