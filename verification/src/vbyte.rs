//! Variable-length unsigned integers stored in one, two, three or five bytes.
//!
//! The two low bits of the first byte hold a length code; the remaining bits,
//! read as a little-endian number, hold the value.

use crate::endian::{
    le_bytes, le_read_u64, le_value, lemma_le_bytes_len, lemma_le_value_bound,
    lemma_le_value_of_le_bytes, lemma_le_value_prefix, lemma_le_value_truncate, pow256,
};
use vstd::prelude::*;

verus! {

/// Values at or above this limit have no encoding.
pub const VBYTE_LIMIT: u64 = 0x40_0000_0000;

/// Number of bytes that a length code stands for.
pub open spec fn spec_vbyte_len(code: int) -> int {
    if code == 0 {
        1
    } else if code == 1 {
        2
    } else if code == 2 {
        3
    } else {
        5
    }
}

/// The smallest length code whose payload can hold `data`.
pub open spec fn spec_vbyte_len_code(data: int) -> int {
    if data < 0x40 {
        0
    } else if data < 0x4000 {
        1
    } else if data < 0x40_0000 {
        2
    } else {
        3
    }
}

/// The number that `data` is stored as: the value shifted past the length code.
pub open spec fn spec_vbyte_raw(data: int) -> int {
    data * 4 + spec_vbyte_len_code(data)
}

/// The encoding of `data`.
pub open spec fn spec_vbyte_bytes(data: int) -> Seq<u8> {
    le_bytes(spec_vbyte_raw(data), spec_vbyte_len(spec_vbyte_len_code(data)))
}

/// Number of bytes taken by the encoding that starts `bytes`.
pub open spec fn spec_vbyte_stored_len(bytes: Seq<u8>) -> int {
    spec_vbyte_len(bytes[0] as int % 4)
}

/// The value whose encoding starts `bytes`.
pub open spec fn spec_vbyte_value(bytes: Seq<u8>) -> int {
    le_value(bytes, spec_vbyte_stored_len(bytes)) / 4
}

/// Number of bytes that a length code stands for.
pub fn vbyte_len(code: u8) -> (len: u8)
    requires
        code < 4,
    ensures
        len as int == spec_vbyte_len(code as int),
{
    if code == 0 {
        1
    } else if code == 1 {
        2
    } else if code == 2 {
        3
    } else {
        5
    }
}

/// The smallest length code whose payload can hold `data`.
pub fn vbyte_len_code(data: u64) -> (code: u8)
    requires
        data < VBYTE_LIMIT,
    ensures
        code as int == spec_vbyte_len_code(data as int),
{
    if data < 0x4000 {
        if data < 0x40 {
            0
        } else {
            1
        }
    } else {
        if data < 0x40_0000 {
            2
        } else {
            3
        }
    }
}

/// Length in bytes and stored number of the encoding of `data`.
pub fn encode_vbyte(data: u64) -> (r: (u8, u64))
    requires
        data < VBYTE_LIMIT,
    ensures
        r.0 as int == spec_vbyte_len(spec_vbyte_len_code(data as int)),
        r.1 as int == spec_vbyte_raw(data as int),
{
    let code: u8 = vbyte_len_code(data);
    let length: u8 = vbyte_len(code);
    let code_wide: u64 = code as u64;
    assert(data < 0x40_0000_0000 && code_wide < 4 ==> ((data << 2) | code_wide) == data * 4 + code_wide)
        by (bit_vector);
    let encoded_value: u64 = (data << 2) | code_wide;
    (length, encoded_value)
}

/// The bits of an eight-byte read that belong to an encoding with the given length code.
fn vbyte_mask(code: u8) -> (mask: u64)
    requires
        code < 4,
    ensures
        mask as int == pow256(spec_vbyte_len(code as int)) - 1,
{
    assert(pow256(1) == 0x100 && pow256(2) == 0x1_0000 && pow256(3) == 0x100_0000 && pow256(5)
        == 0x100_0000_0000) by {
        reveal_with_fuel(pow256, 6);
    }
    if code == 0 {
        0xff
    } else if code == 1 {
        0xffff
    } else if code == 2 {
        0xff_ffff
    } else {
        0xff_ffff_ffff
    }
}

/// Decodes the value whose encoding starts at `at`, and tells how many bytes it takes.
///
/// Eight bytes are read whatever the length, so eight bytes must be there.
pub fn read_vbyte(data: &[u8], at: usize) -> (r: (u64, u8))
    requires
        at + 8 <= data@.len(),
    ensures
        r.0 as int == spec_vbyte_value(data@.skip(at as int)),
        r.1 as int == spec_vbyte_stored_len(data@.skip(at as int)),
        1 <= r.1 <= 5,
        r.0 < VBYTE_LIMIT,
{
    let value: u64 = le_read_u64(data, at);
    let low: u64 = value & 0x3;
    assert(low == value % 4 && low < 4) by (bit_vector)
        requires
            low == value & 0x3,
    ;
    let code: u8 = low as u8;
    let length: u8 = vbyte_len(code);
    let mask: u64 = vbyte_mask(code);
    let kept: u64 = value & mask;
    let result: u64 = kept >> 2;
    proof {
        let rest = data@.skip(at as int);
        let window = data@.subrange(at as int, at + 8);
        let n = spec_vbyte_len(code as int);
        assert(window.subrange(0, 8) =~= rest.subrange(0, 8));
        lemma_le_value_prefix(window, rest, 8);
        lemma_le_value_truncate(rest, 8, n);
        lemma_le_value_truncate(rest, 8, 1);
        lemma_le_value_bound(rest, n);
        assert(pow256(1) == 0x100 && pow256(2) == 0x1_0000 && pow256(3) == 0x100_0000 && pow256(5)
            == 0x100_0000_0000) by {
            reveal_with_fuel(pow256, 6);
        }
        assert(le_value(rest, 1) == rest[0] as int) by {
            reveal_with_fuel(le_value, 2);
        }
        assert(value as int % 4 == rest[0] as int % 4);
        assert(value & 0xff == value % 0x100) by (bit_vector);
        assert(value & 0xffff == value % 0x1_0000) by (bit_vector);
        assert(value & 0xff_ffff == value % 0x100_0000) by (bit_vector);
        assert(value & 0xff_ffff_ffff == value % 0x100_0000_0000) by (bit_vector);
        assert(result == kept / 4) by (bit_vector)
            requires
                result == kept >> 2,
        ;
    }
    (result, length)
}

/// What is decoded lies below the limit of what can be encoded.
pub proof fn lemma_vbyte_value_bounded(bytes: Seq<u8>)
    requires
        bytes.len() >= 5,
    ensures
        0 <= spec_vbyte_value(bytes) < VBYTE_LIMIT,
{
    let n = spec_vbyte_stored_len(bytes);
    lemma_le_value_bound(bytes, n);
    assert(pow256(1) == 0x100 && pow256(2) == 0x1_0000 && pow256(3) == 0x100_0000 && pow256(5)
        == 0x100_0000_0000) by {
        reveal_with_fuel(pow256, 6);
    }
}

/// Decoding what was encoded gives the value back, whatever bytes follow.
pub proof fn lemma_vbyte_round_trip(data: int, rest: Seq<u8>)
    requires
        0 <= data < VBYTE_LIMIT,
    ensures
        spec_vbyte_value(spec_vbyte_bytes(data) + rest) == data,
        spec_vbyte_stored_len(spec_vbyte_bytes(data) + rest) == spec_vbyte_bytes(data).len(),
        1 <= spec_vbyte_bytes(data).len() <= 5,
{
    let code = spec_vbyte_len_code(data);
    let n = spec_vbyte_len(code);
    let raw = spec_vbyte_raw(data);
    let bytes = spec_vbyte_bytes(data);
    lemma_le_bytes_len(raw, n);
    assert(bytes[0] as int == raw % 0x100);
    assert((bytes + rest)[0] == bytes[0]);
    assert(pow256(1) == 0x100 && pow256(2) == 0x1_0000 && pow256(3) == 0x100_0000 && pow256(5)
        == 0x100_0000_0000) by {
        reveal_with_fuel(pow256, 6);
    }
    lemma_le_value_of_le_bytes(raw, n, rest);
    assert(raw % pow256(n) == raw);
}

/// The encodings of `values`, one after the other.
pub open spec fn spec_vbyte_seq_bytes(values: Seq<int>) -> Seq<u8>
    decreases values.len(),
{
    if values.len() == 0 {
        Seq::empty()
    } else {
        spec_vbyte_bytes(values[0]) + spec_vbyte_seq_bytes(values.drop_first())
    }
}

/// The first `count` values encoded one after the other at the start of `bytes`.
pub open spec fn spec_vbyte_seq_values(bytes: Seq<u8>, count: int) -> Seq<int>
    decreases count,
{
    if count <= 0 {
        Seq::empty()
    } else {
        seq![spec_vbyte_value(bytes)] + spec_vbyte_seq_values(
            bytes.skip(spec_vbyte_stored_len(bytes)),
            count - 1,
        )
    }
}

/// Values encoded one after the other decode in order, whatever bytes follow.
pub proof fn lemma_vbyte_seq_round_trip(values: Seq<int>, rest: Seq<u8>)
    requires
        forall|i: int| 0 <= i < values.len() ==> 0 <= #[trigger] values[i] < VBYTE_LIMIT,
    ensures
        spec_vbyte_seq_values(spec_vbyte_seq_bytes(values) + rest, values.len() as int) == values,
    decreases values.len(),
{
    if values.len() > 0 {
        let head = spec_vbyte_bytes(values[0]);
        let tail = spec_vbyte_seq_bytes(values.drop_first());
        let all = spec_vbyte_seq_bytes(values) + rest;
        assert(all =~= head + (tail + rest));
        lemma_vbyte_round_trip(values[0], tail + rest);
        assert(all.skip(head.len() as int) =~= tail + rest);
        lemma_vbyte_seq_round_trip(values.drop_first(), rest);
        assert(spec_vbyte_seq_values(all, values.len() as int) =~= values);
    } else {
        assert(spec_vbyte_seq_values(spec_vbyte_seq_bytes(values) + rest, 0) =~= values);
    }
}

} // verus!
