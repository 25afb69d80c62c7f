//! Little-endian numbers in byte sequences.
//!
//! The executable conversions come from the `byteorder` crate; their contracts
//! below are taken on trust and say which number the bytes stand for.

use byteorder::{ByteOrder, LittleEndian, ReadBytesExt, WriteBytesExt};
use vstd::prelude::*;

verus! {

/// Little-endian value of the first `n` bytes of `bytes`.
pub open spec fn le_value(bytes: Seq<u8>, n: int) -> int
    decreases n,
{
    if n <= 0 {
        0
    } else {
        bytes[0] as int + 0x100 * le_value(bytes.drop_first(), n - 1)
    }
}

/// The `n` low bytes of `raw`, least significant first.
pub open spec fn le_bytes(raw: int, n: int) -> Seq<u8>
    decreases n,
{
    if n <= 0 {
        Seq::empty()
    } else {
        seq![(raw % 0x100) as u8] + le_bytes(raw / 0x100, n - 1)
    }
}

/// `le_bytes` yields exactly `n` bytes.
pub proof fn lemma_le_bytes_len(raw: int, n: int)
    requires
        0 <= n,
    ensures
        le_bytes(raw, n).len() == n,
    decreases n,
{
    if n > 0 {
        lemma_le_bytes_len(raw / 0x100, n - 1);
    }
}

/// Reading back the bytes of a number gives the number, as far as `n` bytes hold it;
/// bytes that follow the first `n` do not matter.
pub proof fn lemma_le_value_of_le_bytes(raw: int, n: int, rest: Seq<u8>)
    requires
        0 <= n,
        0 <= raw,
    ensures
        le_value(le_bytes(raw, n) + rest, n) == raw % pow256(n),
    decreases n,
{
    if n > 0 {
        let head = seq![(raw % 0x100) as u8];
        let tail = le_bytes(raw / 0x100, n - 1);
        assert((le_bytes(raw, n) + rest).drop_first() =~= tail + rest);
        lemma_le_value_of_le_bytes(raw / 0x100, n - 1, rest);
        let p = pow256(n - 1);
        lemma_pow256_positive(n - 1);
        assert(raw % (0x100 * p) == raw % 0x100 + 0x100 * ((raw / 0x100) % p)) by {
            vstd::arithmetic::div_mod::lemma_breakdown(raw, 0x100, p);
            vstd::arithmetic::div_mod::lemma_small_mod((raw % 0x100) as nat, 0x100);
        }
    }
}

/// 256 to the power `n`.
pub open spec fn pow256(n: int) -> int
    decreases n,
{
    if n <= 0 {
        1
    } else {
        0x100 * pow256(n - 1)
    }
}

/// A power of 256 is above 0.
pub proof fn lemma_pow256_positive(n: int)
    ensures
        pow256(n) > 0,
    decreases n,
{
    if n > 0 {
        lemma_pow256_positive(n - 1);
    }
}

/// A value read from `n` bytes is below 256 to the power `n`.
pub proof fn lemma_le_value_bound(bytes: Seq<u8>, n: int)
    requires
        0 <= n <= bytes.len(),
    ensures
        0 <= le_value(bytes, n) < pow256(n),
    decreases n,
{
    if n > 0 {
        lemma_le_value_bound(bytes.drop_first(), n - 1);
    }
}

/// The value of the first `n` bytes depends on those bytes only.
pub proof fn lemma_le_value_prefix(a: Seq<u8>, b: Seq<u8>, n: int)
    requires
        0 <= n <= a.len(),
        n <= b.len(),
        a.subrange(0, n) == b.subrange(0, n),
    ensures
        le_value(a, n) == le_value(b, n),
    decreases n,
{
    if n > 0 {
        assert(a[0] == a.subrange(0, n)[0]);
        assert(b[0] == b.subrange(0, n)[0]);
        assert(a.drop_first().subrange(0, n - 1) =~= a.subrange(0, n).drop_first());
        assert(b.drop_first().subrange(0, n - 1) =~= b.subrange(0, n).drop_first());
        lemma_le_value_prefix(a.drop_first(), b.drop_first(), n - 1);
    }
}

/// Cutting the value of `m` bytes down to `n` bytes' worth leaves the value of
/// the first `n` bytes.
pub proof fn lemma_le_value_truncate(bytes: Seq<u8>, m: int, n: int)
    requires
        0 <= n <= m <= bytes.len(),
    ensures
        le_value(bytes, m) % pow256(n) == le_value(bytes, n),
    decreases n,
{
    lemma_pow256_positive(n);
    if n > 0 {
        let rest = bytes.drop_first();
        lemma_le_value_truncate(rest, m - 1, n - 1);
        lemma_le_value_bound(rest, m - 1);
        lemma_le_value_bound(rest, n - 1);
        let p = pow256(n - 1);
        lemma_pow256_positive(n - 1);
        let v = le_value(bytes, m);
        assert(v % (0x100 * p) == v % 0x100 + 0x100 * ((v / 0x100) % p)) by {
            vstd::arithmetic::div_mod::lemma_breakdown(v, 0x100, p);
            vstd::arithmetic::div_mod::lemma_small_mod((v % 0x100) as nat, 0x100);
        }
        assert(v % 0x100 == bytes[0] as int && v / 0x100 == le_value(rest, m - 1));
    } else {
        lemma_le_value_bound(bytes, m);
    }
}

/// `byteorder::LittleEndian::read_u16` on the two bytes of `data` that start at
/// `at`: the result is the little-endian value of those bytes.
#[verifier::external_body]
pub(crate) fn le_read_u16(data: &[u8], at: usize) -> (r: u16)
    requires
        at + 2 <= data@.len(),
    ensures
        r as int == le_value(data@.subrange(at as int, at + 2), 2),
{
    LittleEndian::read_u16(&data[at..])
}

/// `byteorder::LittleEndian::read_u32` on the four bytes of `data` that start at
/// `at`: the result is the little-endian value of those bytes.
#[verifier::external_body]
pub(crate) fn le_read_u32(data: &[u8], at: usize) -> (r: u32)
    requires
        at + 4 <= data@.len(),
    ensures
        r as int == le_value(data@.subrange(at as int, at + 4), 4),
{
    LittleEndian::read_u32(&data[at..])
}

/// `byteorder::LittleEndian::read_u64` on the eight bytes of `data` that start at
/// `at`: the result is the little-endian value of those bytes.
#[verifier::external_body]
pub(crate) fn le_read_u64(data: &[u8], at: usize) -> (r: u64)
    requires
        at + 8 <= data@.len(),
    ensures
        r as int == le_value(data@.subrange(at as int, at + 8), 8),
{
    LittleEndian::read_u64(&data[at..])
}

/// `byteorder::ReadBytesExt::read_u8` on the bytes of `data` from `at` on: the
/// first of them.
#[verifier::external_body]
pub(crate) fn read_byte(data: &[u8], at: usize) -> (r: u8)
    requires
        at < data@.len(),
    ensures
        r == data@[at as int],
{
    let mut rest: &[u8] = &data[at..];
    rest.read_u8().unwrap()
}

/// `byteorder::WriteBytesExt::write_u8` on a byte vector: the byte is appended.
#[verifier::external_body]
pub(crate) fn write_byte(out: &mut Vec<u8>, n: u8)
    ensures
        final(out)@ == old(out)@.push(n),
{
    let _ = out.write_u8(n);
}

/// `byteorder::WriteBytesExt::write_u16` with `LittleEndian` on a byte vector:
/// the two bytes of `n` are appended, least significant first.
#[verifier::external_body]
pub(crate) fn le_write_u16(out: &mut Vec<u8>, n: u16)
    ensures
        final(out)@ == old(out)@ + le_bytes(n as int, 2),
{
    let _ = out.write_u16::<LittleEndian>(n);
}

/// `byteorder::WriteBytesExt::write_u32` with `LittleEndian` on a byte vector:
/// the four bytes of `n` are appended, least significant first.
#[verifier::external_body]
pub(crate) fn le_write_u32(out: &mut Vec<u8>, n: u32)
    ensures
        final(out)@ == old(out)@ + le_bytes(n as int, 4),
{
    let _ = out.write_u32::<LittleEndian>(n);
}

/// `byteorder::WriteBytesExt::write_u64` with `LittleEndian` on a byte vector:
/// the eight bytes of `n` are appended, least significant first.
#[verifier::external_body]
pub(crate) fn le_write_u64(out: &mut Vec<u8>, n: u64)
    ensures
        final(out)@ == old(out)@ + le_bytes(n as int, 8),
{
    let _ = out.write_u64::<LittleEndian>(n);
}

} // verus!
