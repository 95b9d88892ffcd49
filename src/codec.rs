//! Fixed-width integers as bytes, in either byte order.
use vstd::prelude::*;

use byteorder::{BigEndian, ByteOrder, LittleEndian};
use bytes::{Buf, BufMut};

verus! {

/// The value of a byte string read most-significant byte first.
pub open spec fn be_value(s: Seq<u8>) -> nat
    decreases s.len(),
{
    if s.len() == 0 {
        0
    } else {
        (be_value(s.drop_last()) * 256 + s.last()) as nat
    }
}

/// The value of a byte string read least-significant byte first.
pub open spec fn le_value(s: Seq<u8>) -> nat
    decreases s.len(),
{
    if s.len() == 0 {
        0
    } else {
        (s.first() + 256 * le_value(s.drop_first())) as nat
    }
}

/// The `k` low-order bytes of `n`, most significant first.
pub open spec fn be_bytes(n: nat, k: nat) -> Seq<u8>
    decreases k,
{
    if k == 0 {
        Seq::empty()
    } else {
        be_bytes(n / 256, (k - 1) as nat).push((n % 256) as u8)
    }
}

/// The `k` low-order bytes of `n`, least significant first.
pub open spec fn le_bytes(n: nat, k: nat) -> Seq<u8>
    decreases k,
{
    if k == 0 {
        Seq::empty()
    } else {
        seq![(n % 256) as u8] + le_bytes(n / 256, (k - 1) as nat)
    }
}

pub proof fn lemma_bytes_len(n: nat, k: nat)
    ensures
        be_bytes(n, k).len() == k,
        le_bytes(n, k).len() == k,
    decreases k,
{
    if k > 0 {
        lemma_bytes_len(n / 256, (k - 1) as nat);
    }
}

/// `256` to the power `k`: the number of values `k` bytes can hold.
pub open spec fn byte_range(k: nat) -> nat
    decreases k,
{
    if k == 0 {
        1
    } else {
        256 * byte_range((k - 1) as nat)
    }
}

proof fn lemma_div_256(n: nat, k: nat)
    requires
        k >= 1,
        n < byte_range(k),
    ensures
        n / 256 < byte_range((k - 1) as nat),
        n == 256 * (n / 256) + n % 256,
{
    vstd::arithmetic::div_mod::lemma_fundamental_div_mod(n as int, 256);
    let b = byte_range((k - 1) as nat);
    assert(n / 256 < b) by (nonlinear_arith)
        requires
            n < 256 * b,
            n == 256 * (n / 256) + n % 256,
            0 <= n % 256 < 256,
    ;
}

/// A value written as `k` bytes, most significant first, reads back the
/// same.
pub proof fn lemma_be_round_trip(n: nat, k: nat)
    requires
        n < byte_range(k),
    ensures
        be_bytes(n, k).len() == k,
        be_value(be_bytes(n, k)) == n,
    decreases k,
{
    if k > 0 {
        lemma_div_256(n, k);
        lemma_be_round_trip(n / 256, (k - 1) as nat);
        assert(be_bytes(n, k).drop_last() =~= be_bytes(n / 256, (k - 1) as nat));
    }
}

/// A value written as `k` bytes, least significant first, reads back the
/// same.
pub proof fn lemma_le_round_trip(n: nat, k: nat)
    requires
        n < byte_range(k),
    ensures
        le_bytes(n, k).len() == k,
        le_value(le_bytes(n, k)) == n,
    decreases k,
{
    if k > 0 {
        lemma_div_256(n, k);
        lemma_le_round_trip(n / 256, (k - 1) as nat);
        assert(le_bytes(n, k).drop_first() =~= le_bytes(n / 256, (k - 1) as nat));
    }
}

/// The two bytes of `n`, most significant first.
pub open spec fn be_u16_bytes(n: u16) -> Seq<u8> {
    seq![(n / 256) as u8, (n % 256) as u8]
}

/// Relies on `bytes::Buf::get_u16` for `&[u8]`: reads the first two bytes
/// as a big-endian integer (it panics on fewer than two).
#[verifier::external_body]
pub(crate) fn get_u16_be(b: &[u8]) -> (r: u16)
    requires
        b@.len() >= 2,
    ensures
        r == be_value(b@.subrange(0, 2)),
{
    let mut cursor = b;
    cursor.get_u16()
}

/// Relies on `bytes::BufMut::put_u16` for `Vec<u8>`: appends the two
/// big-endian bytes of `n`.
#[verifier::external_body]
pub(crate) fn put_u16_be(out: &mut Vec<u8>, n: u16)
    ensures
        final(out)@ == old(out)@ + be_u16_bytes(n),
{
    out.put_u16(n)
}

/// Relies on byteorder's `BigEndian::read_u16`: the first two bytes, most
/// significant first (it panics on fewer).
#[verifier::external_body]
pub(crate) fn read_u16_be(b: &[u8]) -> (r: u16)
    requires
        b@.len() >= 2,
    ensures
        r == be_value(b@.subrange(0, 2)),
{
    BigEndian::read_u16(b)
}

/// Relies on byteorder's `LittleEndian::read_u16`: the first two bytes,
/// least significant first (it panics on fewer).
#[verifier::external_body]
pub(crate) fn read_u16_le(b: &[u8]) -> (r: u16)
    requires
        b@.len() >= 2,
    ensures
        r == le_value(b@.subrange(0, 2)),
{
    LittleEndian::read_u16(b)
}

/// Relies on byteorder's `BigEndian::read_u32`: the first four bytes, most
/// significant first (it panics on fewer).
#[verifier::external_body]
pub(crate) fn read_u32_be(b: &[u8]) -> (r: u32)
    requires
        b@.len() >= 4,
    ensures
        r == be_value(b@.subrange(0, 4)),
{
    BigEndian::read_u32(b)
}

/// Relies on byteorder's `LittleEndian::read_u32`: the first four bytes,
/// least significant first (it panics on fewer).
#[verifier::external_body]
pub(crate) fn read_u32_le(b: &[u8]) -> (r: u32)
    requires
        b@.len() >= 4,
    ensures
        r == le_value(b@.subrange(0, 4)),
{
    LittleEndian::read_u32(b)
}

/// Relies on byteorder's `BigEndian::read_u64`: the first eight bytes, most
/// significant first (it panics on fewer).
#[verifier::external_body]
pub(crate) fn read_u64_be(b: &[u8]) -> (r: u64)
    requires
        b@.len() >= 8,
    ensures
        r == be_value(b@.subrange(0, 8)),
{
    BigEndian::read_u64(b)
}

/// Relies on byteorder's `LittleEndian::read_u64`: the first eight bytes,
/// least significant first (it panics on fewer).
#[verifier::external_body]
pub(crate) fn read_u64_le(b: &[u8]) -> (r: u64)
    requires
        b@.len() >= 8,
    ensures
        r == le_value(b@.subrange(0, 8)),
{
    LittleEndian::read_u64(b)
}

/// Relies on byteorder's `BigEndian::write_u16`: stores `n` in the first
/// two bytes, most significant first, and leaves the rest (it panics on
/// fewer than two).
#[verifier::external_body]
pub(crate) fn write_u16_be(buf: &mut [u8], n: u16)
    requires
        old(buf)@.len() >= 2,
    ensures
        final(buf)@ == be_bytes(n as nat, 2) + old(buf)@.subrange(2, old(buf)@.len() as int),
{
    BigEndian::write_u16(buf, n)
}

/// Relies on byteorder's `LittleEndian::write_u16`: stores `n` in the first
/// two bytes, least significant first, and leaves the rest (it panics on
/// fewer than two).
#[verifier::external_body]
pub(crate) fn write_u16_le(buf: &mut [u8], n: u16)
    requires
        old(buf)@.len() >= 2,
    ensures
        final(buf)@ == le_bytes(n as nat, 2) + old(buf)@.subrange(2, old(buf)@.len() as int),
{
    LittleEndian::write_u16(buf, n)
}

/// Relies on byteorder's `BigEndian::write_u32`: stores `n` in the first
/// four bytes, most significant first, and leaves the rest (it panics on
/// fewer than four).
#[verifier::external_body]
pub(crate) fn write_u32_be(buf: &mut [u8], n: u32)
    requires
        old(buf)@.len() >= 4,
    ensures
        final(buf)@ == be_bytes(n as nat, 4) + old(buf)@.subrange(4, old(buf)@.len() as int),
{
    BigEndian::write_u32(buf, n)
}

/// Relies on byteorder's `LittleEndian::write_u32`: stores `n` in the first
/// four bytes, least significant first, and leaves the rest (it panics on
/// fewer than four).
#[verifier::external_body]
pub(crate) fn write_u32_le(buf: &mut [u8], n: u32)
    requires
        old(buf)@.len() >= 4,
    ensures
        final(buf)@ == le_bytes(n as nat, 4) + old(buf)@.subrange(4, old(buf)@.len() as int),
{
    LittleEndian::write_u32(buf, n)
}

/// Relies on byteorder's `BigEndian::write_u64`: stores `n` in the first
/// eight bytes, most significant first, and leaves the rest (it panics on
/// fewer than eight).
#[verifier::external_body]
pub(crate) fn write_u64_be(buf: &mut [u8], n: u64)
    requires
        old(buf)@.len() >= 8,
    ensures
        final(buf)@ == be_bytes(n as nat, 8) + old(buf)@.subrange(8, old(buf)@.len() as int),
{
    BigEndian::write_u64(buf, n)
}

/// Relies on byteorder's `LittleEndian::write_u64`: stores `n` in the first
/// eight bytes, least significant first, and leaves the rest (it panics on
/// fewer than eight).
#[verifier::external_body]
pub(crate) fn write_u64_le(buf: &mut [u8], n: u64)
    requires
        old(buf)@.len() >= 8,
    ensures
        final(buf)@ == le_bytes(n as nat, 8) + old(buf)@.subrange(8, old(buf)@.len() as int),
{
    LittleEndian::write_u64(buf, n)
}

/// Two bytes written most significant first read back as the same value.
pub proof fn lemma_be_u16_round_trip(n: u16)
    ensures
        be_value(be_u16_bytes(n)) == n,
{
    let s = be_u16_bytes(n);
    assert(s.drop_last().drop_last() =~= Seq::<u8>::empty());
    assert(s.drop_last() =~= seq![(n / 256) as u8]);
    assert(be_value(s.drop_last().drop_last()) == 0);
    assert(be_value(s.drop_last()) == n / 256);
}

} // verus!
