//! Searching bytes without regard to ASCII case, and edit distances.

use crate::endian::{le_read_u64, le_value};
use vstd::prelude::*;
use vstd::std_specs::bits::axiom_u64_trailing_zeros;
use vstd::string::*;

verus! {

/// The byte with an ASCII capital letter turned into its small letter.
pub open spec fn spec_lower(b: u8) -> u8 {
    if 0x41 <= b && b <= 0x5a {
        (b + 0x20) as u8
    } else {
        b
    }
}

/// Equality of two bytes under ASCII case folding.
pub open spec fn eq_ci(a: u8, b: u8) -> bool {
    spec_lower(a) == spec_lower(b)
}

/// Equality of two byte strings under ASCII case folding.
pub open spec fn seq_eq_ci(a: Seq<u8>, b: Seq<u8>) -> bool {
    &&& a.len() == b.len()
    &&& forall|k: int| 0 <= k < a.len() ==> eq_ci(#[trigger] a[k], b[k])
}

/// `needle` stands in `hay` at position `at`, under ASCII case folding.
pub open spec fn matches_at_ci(needle: Seq<u8>, hay: Seq<u8>, at: int) -> bool {
    &&& 0 <= at
    &&& at + needle.len() <= hay.len()
    &&& forall|k: int| 0 <= k < needle.len() ==> eq_ci(#[trigger] needle[k], hay[at + k])
}

/// The first position at or after `from` where `needle` stands in `hay`.
pub open spec fn first_match_from(needle: Seq<u8>, hay: Seq<u8>, from: int) -> Option<int>
    decreases hay.len() - from,
{
    if from < 0 || from + needle.len() > hay.len() {
        None
    } else if matches_at_ci(needle, hay, from) {
        Some(from)
    } else {
        first_match_from(needle, hay, from + 1)
    }
}

/// The first position where `needle` stands in `hay`, under ASCII case folding.
pub open spec fn spec_indexof_ci(needle: Seq<u8>, hay: Seq<u8>) -> Option<int> {
    first_match_from(needle, hay, 0)
}

/// What `first_match_from` finds is a match, lies at or after `from`, and no
/// match lies between; where it finds nothing, there is no match from `from` on.
pub proof fn lemma_first_match_from(needle: Seq<u8>, hay: Seq<u8>, from: int)
    requires
        0 <= from,
    ensures
        match first_match_from(needle, hay, from) {
            Some(at) => {
                &&& from <= at
                &&& matches_at_ci(needle, hay, at)
                &&& forall|j: int| from <= j < at ==> !matches_at_ci(needle, hay, j)
            },
            None => forall|j: int| from <= j ==> !matches_at_ci(needle, hay, j),
        },
    decreases hay.len() - from,
{
    if from + needle.len() > hay.len() {
    } else if matches_at_ci(needle, hay, from) {
    } else {
        lemma_first_match_from(needle, hay, from + 1);
    }
}

/// Positions without a match can be passed over.
pub proof fn lemma_first_match_skip(needle: Seq<u8>, hay: Seq<u8>, from: int, to: int)
    requires
        0 <= from <= to,
        forall|j: int| from <= j < to ==> !matches_at_ci(needle, hay, j),
    ensures
        first_match_from(needle, hay, from) == first_match_from(needle, hay, to),
    decreases to - from,
{
    if from < to {
        lemma_first_match_skip(needle, hay, from + 1, to);
        if from + needle.len() > hay.len() {
            assert(first_match_from(needle, hay, to) is None);
        }
    }
}

/// The first match is the least position with a match.
pub proof fn lemma_indexof_ci_is_least(needle: Seq<u8>, hay: Seq<u8>, at: int)
    requires
        matches_at_ci(needle, hay, at),
        forall|j: int| 0 <= j < at ==> !matches_at_ci(needle, hay, j),
    ensures
        spec_indexof_ci(needle, hay) == Some(at),
{
    lemma_first_match_skip(needle, hay, 0, at);
}

/// Where a needle stands does not depend on the case of its letters, nor on
/// the case of the letters of the haystack.
pub proof fn lemma_indexof_ci_folds(
    needle: Seq<u8>,
    other_needle: Seq<u8>,
    hay: Seq<u8>,
    other_hay: Seq<u8>,
)
    requires
        seq_eq_ci(needle, other_needle),
        seq_eq_ci(hay, other_hay),
    ensures
        spec_indexof_ci(needle, hay) == spec_indexof_ci(other_needle, other_hay),
{
    lemma_first_match_folds(needle, other_needle, hay, other_hay, 0);
}

/// The first match from `from` on does not depend on the case of letters.
proof fn lemma_first_match_folds(
    needle: Seq<u8>,
    other_needle: Seq<u8>,
    hay: Seq<u8>,
    other_hay: Seq<u8>,
    from: int,
)
    requires
        seq_eq_ci(needle, other_needle),
        seq_eq_ci(hay, other_hay),
        0 <= from,
    ensures
        first_match_from(needle, hay, from) == first_match_from(other_needle, other_hay, from),
    decreases hay.len() - from,
{
    if from + needle.len() <= hay.len() {
        assert(matches_at_ci(needle, hay, from) == matches_at_ci(other_needle, other_hay, from)) by {
            if matches_at_ci(needle, hay, from) {
                assert forall|k: int| 0 <= k < other_needle.len() implies eq_ci(
                    #[trigger] other_needle[k],
                    other_hay[from + k],
                ) by {
                    assert(eq_ci(needle[k], other_needle[k]));
                    assert(eq_ci(needle[k], hay[from + k]));
                    assert(eq_ci(hay[from + k], other_hay[from + k]));
                }
            }
            if matches_at_ci(other_needle, other_hay, from) {
                assert forall|k: int| 0 <= k < needle.len() implies eq_ci(
                    #[trigger] needle[k],
                    hay[from + k],
                ) by {
                    assert(eq_ci(needle[k], other_needle[k]));
                    assert(eq_ci(other_needle[k], other_hay[from + k]));
                    assert(eq_ci(hay[from + k], other_hay[from + k]));
                }
            }
        }
        if !matches_at_ci(needle, hay, from) {
            lemma_first_match_folds(needle, other_needle, hay, other_hay, from + 1);
        }
    }
}

/// The byte with an ASCII capital letter turned into its small letter.
pub fn to_lower(b: u8) -> (r: u8)
    ensures
        r == spec_lower(b),
{
    if b >= 0x41 && b <= 0x5a {
        b + 0x20
    } else {
        b
    }
}

/// Equality of two bytes under ASCII case folding.
pub fn byte_eq_ignore_case(a: u8, b: u8) -> (r: bool)
    ensures
        r == eq_ci(a, b),
{
    to_lower(a) == to_lower(b)
}

/// Equality of two byte strings under ASCII case folding.
pub fn bytes_eq_ignore_case(a: &[u8], b: &[u8]) -> (r: bool)
    ensures
        r == seq_eq_ci(a@, b@),
{
    if a.len() != b.len() {
        return false;
    }
    let mut k: usize = 0;
    while k < a.len()
        invariant
            a@.len() == b@.len(),
            k <= a@.len(),
            forall|j: int| 0 <= j < k ==> eq_ci(#[trigger] a@[j], b@[j]),
        decreases a@.len() - k,
    {
        if !byte_eq_ignore_case(a[k], b[k]) {
            return false;
        }
        k += 1;
    }
    true
}

/// Whether `needle` stands in `hay` at position `at`; `at` must leave room for it.
fn matches_here(needle: &[u8], hay: &[u8], at: usize) -> (r: bool)
    requires
        at + needle@.len() <= hay@.len(),
    ensures
        r == matches_at_ci(needle@, hay@, at as int),
{
    let hay_len: usize = hay.len();
    let mut k: usize = 0;
    while k < needle.len()
        invariant
            at + needle@.len() <= hay@.len() == hay_len,
            k <= needle@.len(),
            forall|j: int| 0 <= j < k ==> eq_ci(#[trigger] needle@[j], hay@[at + j]),
        decreases needle@.len() - k,
    {
        if !byte_eq_ignore_case(needle[k], hay[at + k]) {
            return false;
        }
        k += 1;
    }
    true
}

/// Byte `k` of `x`, counted from the least significant.
pub open spec fn byte_at(x: u64, k: int) -> u8 {
    ((x >> ((8 * k) as u64)) & 0xff) as u8
}

/// The bytes of an eight-byte little-endian number are the bytes it was read from.
proof fn lemma_le_u64_bytes(bytes: Seq<u8>, x: u64)
    requires
        bytes.len() >= 8,
        x as int == le_value(bytes, 8),
    ensures
        forall|k: int| 0 <= k < 8 ==> #[trigger] byte_at(x, k) == bytes[k],
{
    let b0 = bytes[0];
    let b1 = bytes[1];
    let b2 = bytes[2];
    let b3 = bytes[3];
    let b4 = bytes[4];
    let b5 = bytes[5];
    let b6 = bytes[6];
    let b7 = bytes[7];
    assert(x as int == b0 + 0x100 * (b1 + 0x100 * (b2 + 0x100 * (b3 + 0x100 * (b4 + 0x100 * (b5
        + 0x100 * (b6 + 0x100 * b7))))))) by {
        reveal_with_fuel(le_value, 9);
        let s1 = bytes.drop_first();
        let s2 = s1.drop_first();
        let s3 = s2.drop_first();
        let s4 = s3.drop_first();
        let s5 = s4.drop_first();
        let s6 = s5.drop_first();
        let s7 = s6.drop_first();
        assert(s1[0] == b1 && s2[0] == b2 && s3[0] == b3 && s4[0] == b4 && s5[0] == b5 && s6[0]
            == b6 && s7[0] == b7);
    }
    assert(x == (b0 as u64) | (b1 as u64) << 8 | (b2 as u64) << 16 | (b3 as u64) << 24 | (b4 as u64)
        << 32 | (b5 as u64) << 40 | (b6 as u64) << 48 | (b7 as u64) << 56) by (bit_vector)
        requires
            x == b0 + 0x100 * (b1 + 0x100 * (b2 + 0x100 * (b3 + 0x100 * (b4 + 0x100 * (b5 + 0x100
                * (b6 + 0x100 * b7)))))),
    ;
    assert(((x >> 0u64) & 0xff) as u8 == b0 && ((x >> 8u64) & 0xff) as u8 == b1 && ((x >> 16u64)
        & 0xff) as u8 == b2 && ((x >> 24u64) & 0xff) as u8 == b3 && ((x >> 32u64) & 0xff) as u8
        == b4 && ((x >> 40u64) & 0xff) as u8 == b5 && ((x >> 48u64) & 0xff) as u8 == b6 && ((x
        >> 56u64) & 0xff) as u8 == b7) by (bit_vector)
        requires
            x == (b0 as u64) | (b1 as u64) << 8 | (b2 as u64) << 16 | (b3 as u64) << 24 | (b4 as u64)
                << 32 | (b5 as u64) << 40 | (b6 as u64) << 48 | (b7 as u64) << 56,
    ;
    assert forall|k: int| 0 <= k < 8 implies #[trigger] byte_at(x, k) == bytes[k] by {
        if k == 0 {
        } else if k == 1 {
        } else if k == 2 {
        } else if k == 3 {
        } else if k == 4 {
        } else if k == 5 {
        } else if k == 6 {
        } else {
        }
    }
}

/// The zero-byte test on a 64-bit word: where the marker of no byte up to and
/// including byte `k` is set, byte `k` of `x` is not zero.
proof fn lemma_zero_byte_markers(x: u64, w: u64, m: u64)
    requires
        x >= 0x0101010101010101 ==> w == x - 0x0101010101010101,
        x < 0x0101010101010101 ==> w == x + 0xfefefefefefefeff,
        m == w & !x & 0x8080808080808080,
    ensures
        m & 0x80 == 0 ==> byte_at(x, 0) != 0,
        m & 0x8080 == 0 ==> byte_at(x, 1) != 0,
        m & 0x808080 == 0 ==> byte_at(x, 2) != 0,
        m & 0x80808080 == 0 ==> byte_at(x, 3) != 0,
        m & 0x8080808080 == 0 ==> byte_at(x, 4) != 0,
        m & 0x808080808080 == 0 ==> byte_at(x, 5) != 0,
        m & 0x80808080808080 == 0 ==> byte_at(x, 6) != 0,
        m & 0x8080808080808080 == 0 ==> byte_at(x, 7) != 0,
{
    assert({
        &&& m & 0x80 == 0 ==> ((x >> 0u64) & 0xff) as u8 != 0
        &&& m & 0x8080 == 0 ==> ((x >> 8u64) & 0xff) as u8 != 0
        &&& m & 0x808080 == 0 ==> ((x >> 16u64) & 0xff) as u8 != 0
        &&& m & 0x80808080 == 0 ==> ((x >> 24u64) & 0xff) as u8 != 0
        &&& m & 0x8080808080 == 0 ==> ((x >> 32u64) & 0xff) as u8 != 0
        &&& m & 0x808080808080 == 0 ==> ((x >> 40u64) & 0xff) as u8 != 0
        &&& m & 0x80808080808080 == 0 ==> ((x >> 48u64) & 0xff) as u8 != 0
        &&& m & 0x8080808080808080 == 0 ==> ((x >> 56u64) & 0xff) as u8 != 0
    }) by (bit_vector)
        requires
            x >= 0x0101010101010101 ==> w == x - 0x0101010101010101,
            x < 0x0101010101010101 ==> w == x + 0xfefefefefefefeff,
            m == w & !x & 0x8080808080808080,
    ;
}

/// The zero-byte test on a 64-bit word: the lowest marker that is set stands
/// at a byte of `x` that is zero.
proof fn lemma_first_marker_is_exact(x: u64, w: u64, m: u64)
    requires
        x >= 0x0101010101010101 ==> w == x - 0x0101010101010101,
        x < 0x0101010101010101 ==> w == x + 0xfefefefefefefeff,
        m == w & !x & 0x8080808080808080,
    ensures
        m & 0x80 != 0 ==> byte_at(x, 0) == 0,
        m & 0x80 == 0 && m & 0x8000 != 0 ==> byte_at(x, 1) == 0,
        m & 0x8080 == 0 && m & 0x800000 != 0 ==> byte_at(x, 2) == 0,
        m & 0x808080 == 0 && m & 0x80000000 != 0 ==> byte_at(x, 3) == 0,
        m & 0x80808080 == 0 && m & 0x8000000000 != 0 ==> byte_at(x, 4) == 0,
        m & 0x8080808080 == 0 && m & 0x800000000000 != 0 ==> byte_at(x, 5) == 0,
        m & 0x808080808080 == 0 && m & 0x80000000000000 != 0 ==> byte_at(x, 6) == 0,
        m & 0x80808080808080 == 0 && m & 0x8000000000000000 != 0 ==> byte_at(x, 7) == 0,
{
    assert({
        &&& m & 0x80 != 0 ==> ((x >> 0u64) & 0xff) as u8 == 0
        &&& m & 0x80 == 0 && m & 0x8000 != 0 ==> ((x >> 8u64) & 0xff) as u8 == 0
        &&& m & 0x8080 == 0 && m & 0x800000 != 0 ==> ((x >> 16u64) & 0xff) as u8 == 0
        &&& m & 0x808080 == 0 && m & 0x80000000 != 0 ==> ((x >> 24u64) & 0xff) as u8 == 0
        &&& m & 0x80808080 == 0 && m & 0x8000000000 != 0 ==> ((x >> 32u64) & 0xff) as u8 == 0
        &&& m & 0x8080808080 == 0 && m & 0x800000000000 != 0 ==> ((x >> 40u64) & 0xff) as u8 == 0
        &&& m & 0x808080808080 == 0 && m & 0x80000000000000 != 0 ==> ((x >> 48u64) & 0xff) as u8
            == 0
        &&& m & 0x80808080808080 == 0 && m & 0x8000000000000000 != 0 ==> ((x >> 56u64) & 0xff) as u8
            == 0
    }) by (bit_vector)
        requires
            x >= 0x0101010101010101 ==> w == x - 0x0101010101010101,
            x < 0x0101010101010101 ==> w == x + 0xfefefefefefefeff,
            m == w & !x & 0x8080808080808080,
    ;
}

/// Whether the byte is an ASCII letter.
pub open spec fn spec_is_ascii_letter(b: u8) -> bool {
    (0x61 <= b && b <= 0x7a) || (0x41 <= b && b <= 0x5a)
}

/// The byte repeated in each of the eight bytes of a word.
fn splat(b: u8) -> (key: u64)
    ensures
        key == b * 0x0101010101010101,
{
    let x: u64 = b as u64;
    assert((x << 56 | x << 48 | x << 40 | x << 32 | x << 24 | x << 16 | x << 8 | x << 0) == x
        * 0x0101010101010101) by (bit_vector)
        requires
            x < 0x100,
    ;
    x << 56 | x << 48 | x << 40 | x << 32 | x << 24 | x << 16 | x << 8 | x << 0
}

/// How far a search for `first`, an ASCII letter, moves on from `at`: to the
/// first of the next eight bytes of `hay` that is `first` in either case, or
/// over all eight where none of them is.
fn letter_skip(hay: &[u8], at: usize, first: u8, key: u64) -> (skip: usize)
    requires
        at + 8 <= hay@.len(),
        spec_is_ascii_letter(first),
        key == (first | 0x20) * 0x0101010101010101,
    ensures
        skip <= 8,
        forall|k: int| 0 <= k < skip ==> !eq_ci(first, #[trigger] hay@[at + k]),
        skip < 8 ==> eq_ci(first, hay@[at + skip]),
{
    let read: u64 = le_read_u64(hay, at);
    let lowercased: u64 = read | 0x2020202020202020;
    let xor: u64 = lowercased ^ key;
    let borrowed: u64 = xor.wrapping_sub(0x0101010101010101);
    let match_mask: u64 = borrowed & !xor & 0x8080808080808080;
    let ghost window = hay@.subrange(at as int, at + 8);
    let ghost c: u8 = first | 0x20;
    proof {
        lemma_le_u64_bytes(window, read);
        lemma_zero_byte_markers(xor, borrowed, match_mask);
        assert(forall|h: u8|
            spec_is_ascii_letter(first) && #[trigger] eq_ci(first, h) ==> ((h | 0x20) ^ (first
                | 0x20)) == 0) by (bit_vector);
        assert({
            &&& (xor >> 0u64) & 0xff == (((read >> 0u64) & 0xff) | 0x20) ^ (c as u64)
            &&& (xor >> 8u64) & 0xff == (((read >> 8u64) & 0xff) | 0x20) ^ (c as u64)
            &&& (xor >> 16u64) & 0xff == (((read >> 16u64) & 0xff) | 0x20) ^ (c as u64)
            &&& (xor >> 24u64) & 0xff == (((read >> 24u64) & 0xff) | 0x20) ^ (c as u64)
            &&& (xor >> 32u64) & 0xff == (((read >> 32u64) & 0xff) | 0x20) ^ (c as u64)
            &&& (xor >> 40u64) & 0xff == (((read >> 40u64) & 0xff) | 0x20) ^ (c as u64)
            &&& (xor >> 48u64) & 0xff == (((read >> 48u64) & 0xff) | 0x20) ^ (c as u64)
            &&& (xor >> 56u64) & 0xff == (((read >> 56u64) & 0xff) | 0x20) ^ (c as u64)
        }) by (bit_vector)
            requires
                xor == (read | 0x2020202020202020) ^ key,
                key == c * 0x0101010101010101,
        ;
        lemma_first_marker_is_exact(xor, borrowed, match_mask);
        assert(forall|h: u8|
            spec_is_ascii_letter(first) && ((h | 0x20) ^ (first | 0x20)) == 0 ==> #[trigger] eq_ci(
                first,
                h,
            )) by (bit_vector);
        assert(forall|k: int| 0 <= k < 8 ==> window[k] == hay@[at + k]);
        assert forall|k: int| 0 <= k < 8 && byte_at(xor, k) == 0 implies eq_ci(
            first,
            #[trigger] hay@[at + k],
        ) by {
            let h: u8 = hay@[at + k];
            assert(byte_at(read, k) == h);
            let sh: u64 = (8 * k) as u64;
            let rk: u64 = (read >> sh) & 0xff;
            let xk: u64 = (xor >> sh) & 0xff;
            assert(sh == 0 || sh == 8 || sh == 16 || sh == 24 || sh == 32 || sh == 40 || sh == 48
                || sh == 56);
            assert(xk == (rk | 0x20) ^ (c as u64));
            assert(((h | 0x20) ^ c) == 0) by (bit_vector)
                requires
                    xk == (rk | 0x20) ^ (c as u64),
                    rk == (read >> sh) & 0xff,
                    rk as u8 == h,
                    xk as u8 == 0,
                    xk == (xor >> sh) & 0xff,
            ;
        }
        assert forall|k: int| 0 <= k < 8 && byte_at(xor, k) != 0 implies !eq_ci(
            first,
            #[trigger] hay@[at + k],
        ) by {
            let h: u8 = hay@[at + k];
            assert(byte_at(read, k) == h);
            if eq_ci(first, h) {
                let sh: u64 = (8 * k) as u64;
                let rk: u64 = (read >> sh) & 0xff;
                let xk: u64 = (xor >> sh) & 0xff;
                assert(sh == 0 || sh == 8 || sh == 16 || sh == 24 || sh == 32 || sh == 40 || sh
                    == 48 || sh == 56);
                assert(xk == (rk | 0x20) ^ (c as u64));
                assert(((h | 0x20) ^ c) == 0);
                assert(xk == 0) by (bit_vector)
                    requires
                        xk == (rk | 0x20) ^ (c as u64),
                        rk == (read >> sh) & 0xff,
                        rk as u8 == h,
                        ((h | 0x20) ^ c) == 0,
                ;
                assert(false);
            }
        }
    }
    if match_mask != 0 {
        let zeros: u32 = match_mask.trailing_zeros();
        proof {
            axiom_u64_trailing_zeros(match_mask);
            let t: u64 = zeros as u64;
            let gap: u64 = (64 - t) as u64;
            assert({
                &&& t >= 8 ==> match_mask & 0x80 == 0
                &&& t >= 16 ==> match_mask & 0x8080 == 0
                &&& t >= 24 ==> match_mask & 0x808080 == 0
                &&& t >= 32 ==> match_mask & 0x80808080 == 0
                &&& t >= 40 ==> match_mask & 0x8080808080 == 0
                &&& t >= 48 ==> match_mask & 0x808080808080 == 0
                &&& t >= 56 ==> match_mask & 0x80808080808080 == 0
            }) by (bit_vector)
                requires
                    t < 64,
                    gap == 64 - t,
                    match_mask << gap == 0,
            ;
            // The lowest bit that is set is a marker.
            assert({
                ||| t == 7 && match_mask & 0x80 != 0
                ||| t == 15 && match_mask & 0x8000 != 0
                ||| t == 23 && match_mask & 0x800000 != 0
                ||| t == 31 && match_mask & 0x80000000 != 0
                ||| t == 39 && match_mask & 0x8000000000 != 0
                ||| t == 47 && match_mask & 0x800000000000 != 0
                ||| t == 55 && match_mask & 0x80000000000000 != 0
                ||| t == 63 && match_mask & 0x8000000000000000 != 0
            }) by (bit_vector)
                requires
                    t < 64,
                    (match_mask >> t) & 1 == 1,
                    match_mask == borrowed & !xor & 0x8080808080808080,
            ;
            assert(byte_at(xor, (zeros / 8) as int) == 0);
        }
        let skip: usize = (zeros / 8) as usize;
        assert forall|k: int| 0 <= k < skip implies byte_at(xor, k) != 0 by {
            if k == 0 {
            } else if k == 1 {
            } else if k == 2 {
            } else if k == 3 {
            } else if k == 4 {
            } else if k == 5 {
            } else {
            }
        }
        skip
    } else {
        assert(match_mask & 0x80 == 0 && match_mask & 0x8080 == 0 && match_mask & 0x808080 == 0
            && match_mask & 0x80808080 == 0 && match_mask & 0x8080808080 == 0 && match_mask
            & 0x808080808080 == 0 && match_mask & 0x80808080808080 == 0 && match_mask
            & 0x8080808080808080 == 0) by (bit_vector)
            requires
                match_mask == 0,
        ;
        assert forall|k: int| 0 <= k < 8 implies byte_at(xor, k) != 0 by {
            if k == 0 {
            } else if k == 1 {
            } else if k == 2 {
            } else if k == 3 {
            } else if k == 4 {
            } else if k == 5 {
            } else if k == 6 {
            } else {
            }
        }
        8
    }
}

/// The first position in `hay` where `needle` stands, under ASCII case folding.
///
/// Where the needle starts with a letter, eight bytes of the haystack are
/// tested at once for that letter before any position is compared in full.
pub fn indexof_ignore_case(needle: &[u8], hay: &[u8]) -> (r: Option<usize>)
    requires
        needle@.len() >= 1,
    ensures
        match r {
            Some(at) => spec_indexof_ci(needle@, hay@) == Some(at as int),
            None => spec_indexof_ci(needle@, hay@) is None,
        },
{
    if hay.len() < needle.len() {
        return None;
    }
    let end: usize = hay.len() - needle.len();
    let first: u8 = needle[0];
    let first_is_letter: bool = (first >= 0x61 && first <= 0x7a) || (first >= 0x41 && first
        <= 0x5a);
    let key: u64 = splat(first | 0x20);
    let mut i: usize = 0;
    while i <= end
        invariant
            needle@.len() >= 1,
            end == hay@.len() - needle@.len(),
            hay@.len() <= usize::MAX,
            first == needle@[0],
            first_is_letter == spec_is_ascii_letter(first),
            key == (first | 0x20) * 0x0101010101010101,
            first_match_from(needle@, hay@, 0) == first_match_from(needle@, hay@, i as int),
        decreases end + 1 - i,
    {
        if first_is_letter && end - i > 8 {
            let skip: usize = letter_skip(hay, i, first, key);
            proof {
                assert forall|j: int| i <= j < i + skip implies !matches_at_ci(
                    needle@,
                    hay@,
                    j,
                ) by {
                    assert(!eq_ci(needle@[0], hay@[i + (j - i)]));
                }
                lemma_first_match_skip(needle@, hay@, i as int, i + skip);
            }
            i += skip;
            if skip == 8 {
                continue;
            }
        }
        if matches_here(needle, hay, i) {
            return Some(i);
        }
        i += 1;
    }
    None
}

/// The first position in `haystack_bs` where the bytes of `needle` stand,
/// under ASCII case folding; `needle` must not be empty.
pub fn string_indexof_linear_ignorecase(needle: &str, haystack_bs: &[u8]) -> (r: Option<usize>)
    requires
        needle.spec_bytes().len() >= 1,
    ensures
        match r {
            Some(at) => spec_indexof_ci(needle.spec_bytes(), haystack_bs@) == Some(at as int),
            None => spec_indexof_ci(needle.spec_bytes(), haystack_bs@) is None,
        },
{
    indexof_ignore_case(needle.as_bytes(), haystack_bs)
}

/// The smaller of two numbers.
pub open spec fn min2(a: int, b: int) -> int {
    if a <= b {
        a
    } else {
        b
    }
}

/// Cell `(i, j)` of the edit-distance table of `query` against `target`: the
/// least cost of turning the first `i` bytes of `query` into the first `j`
/// bytes of `target`, where dropping or adding a byte costs 1 and changing one
/// costs `sub_cost`. With `free_start`, bytes of `target` before the match
/// cost nothing.
pub open spec fn edit_cell(
    query: Seq<u8>,
    target: Seq<u8>,
    free_start: bool,
    sub_cost: int,
    i: int,
    j: int,
) -> int
    decreases i + j,
{
    if i <= 0 {
        if free_start {
            0
        } else {
            j
        }
    } else if j <= 0 {
        i
    } else {
        let change = if query[i - 1] == target[j - 1] {
            0
        } else {
            sub_cost
        };
        min2(
            min2(
                edit_cell(query, target, free_start, sub_cost, i - 1, j) + 1,
                edit_cell(query, target, free_start, sub_cost, i, j - 1) + 1,
            ),
            edit_cell(query, target, free_start, sub_cost, i - 1, j - 1) + change,
        )
    }
}

/// The least of the cells `(i, 1)` to `(i, j)`.
pub open spec fn edit_row_min(
    query: Seq<u8>,
    target: Seq<u8>,
    free_start: bool,
    sub_cost: int,
    i: int,
    j: int,
) -> int
    decreases j,
{
    if j <= 1 {
        edit_cell(query, target, free_start, sub_cost, i, 1)
    } else {
        min2(
            edit_row_min(query, target, free_start, sub_cost, i, j - 1),
            edit_cell(query, target, free_start, sub_cost, i, j),
        )
    }
}

/// Least edit distance from `query` to a prefix of `target`, the empty
/// prefix among them, a changed byte counting 2: the least cell of the last
/// row of the table, of which the first is the length of the query.
pub open spec fn spec_prefix_levenshtein(query: Seq<u8>, target: Seq<u8>) -> int {
    if query.len() == 0 {
        0
    } else if target.len() == 0 {
        query.len() as int
    } else {
        min2(
            query.len() as int,
            edit_row_min(query, target, false, 2, query.len() as int, target.len() as int),
        )
    }
}

/// Least edit distance from `query` to a non-empty stretch of `target` that
/// may start anywhere, a changed byte counting 1; for an empty query 0, for an
/// empty target the length of the query.
pub open spec fn spec_local_levenshtein(query: Seq<u8>, target: Seq<u8>) -> int {
    if query.len() == 0 {
        0
    } else if target.len() == 0 {
        query.len() as int
    } else {
        edit_row_min(query, target, true, 1, query.len() as int, target.len() as int)
    }
}

/// A cell is never negative and never more than the cost of dropping all of
/// the query and adding all of the target.
pub proof fn lemma_edit_cell_bounds(
    query: Seq<u8>,
    target: Seq<u8>,
    free_start: bool,
    sub_cost: int,
    i: int,
    j: int,
)
    requires
        0 <= i,
        0 <= j,
        0 <= sub_cost,
    ensures
        0 <= edit_cell(query, target, free_start, sub_cost, i, j) <= i + j,
    decreases i + j,
{
    if i > 0 && j > 0 {
        lemma_edit_cell_bounds(query, target, free_start, sub_cost, i - 1, j);
        lemma_edit_cell_bounds(query, target, free_start, sub_cost, i, j - 1);
        lemma_edit_cell_bounds(query, target, free_start, sub_cost, i - 1, j - 1);
    }
}

/// The least cell of a row lies within the bounds of its cells.
pub proof fn lemma_edit_row_min_bounds(
    query: Seq<u8>,
    target: Seq<u8>,
    free_start: bool,
    sub_cost: int,
    i: int,
    j: int,
)
    requires
        0 <= i,
        1 <= j,
        0 <= sub_cost,
    ensures
        0 <= edit_row_min(query, target, free_start, sub_cost, i, j) <= i + 1,
    decreases j,
{
    lemma_edit_cell_bounds(query, target, free_start, sub_cost, i, 1);
    lemma_edit_cell_bounds(query, target, free_start, sub_cost, i, j);
    if j > 1 {
        lemma_edit_row_min_bounds(query, target, free_start, sub_cost, i, j - 1);
    }
}

/// Fills the edit-distance table row by row and returns the least cell of
/// the last row, the first column left out.
fn edit_distance(query: &[u8], target: &[u8], free_start: bool, sub_cost: u64) -> (r: u64)
    requires
        query@.len() >= 1,
        target@.len() >= 1,
        query@.len() + target@.len() < 0x7fff_ffff_ffff_ffff,
        sub_cost <= 2,
    ensures
        r as int == edit_row_min(
            query@,
            target@,
            free_start,
            sub_cost as int,
            query@.len() as int,
            target@.len() as int,
        ),
{
    let n: usize = query.len();
    let m: usize = target.len();
    let mut prev: Vec<u64> = Vec::new();
    prev.push(0);
    let mut filled: usize = 0;
    while filled < m
        invariant
            m == target@.len(),
            n == query@.len(),
            n + m < 0x7fff_ffff_ffff_ffff,
            filled <= m,
            prev@.len() == filled + 1,
            forall|k: int|
                0 <= k <= filled ==> #[trigger] prev@[k] as int == edit_cell(
                    query@,
                    target@,
                    free_start,
                    sub_cost as int,
                    0,
                    k,
                ),
        decreases m - filled,
    {
        filled += 1;
        prev.push(if free_start {
            0
        } else {
            filled as u64
        });
    }
    let mut least: u64 = 0;
    let mut rows: usize = 0;
    while rows < n
        invariant
            m == target@.len(),
            n == query@.len(),
            m >= 1,
            n + m < 0x7fff_ffff_ffff_ffff,
            sub_cost <= 2,
            rows <= n,
            prev@.len() == m + 1,
            forall|k: int|
                0 <= k <= m ==> #[trigger] prev@[k] as int == edit_cell(
                    query@,
                    target@,
                    free_start,
                    sub_cost as int,
                    rows as int,
                    k,
                ),
            rows >= 1 ==> least as int == edit_row_min(
                query@,
                target@,
                free_start,
                sub_cost as int,
                rows as int,
                m as int,
            ),
        decreases n - rows,
    {
        let i: usize = rows + 1;
        let mut cur: Vec<u64> = Vec::new();
        cur.push(i as u64);
        let mut row_least: u64 = 0;
        let mut cols: usize = 0;
        while cols < m
            invariant
                m == target@.len(),
                n == query@.len(),
                n + m < 0x7fff_ffff_ffff_ffff,
                sub_cost <= 2,
                1 <= i <= n,
                i == rows + 1,
                cols <= m,
                prev@.len() == m + 1,
                cur@.len() == cols + 1,
                forall|k: int|
                    0 <= k <= m ==> #[trigger] prev@[k] as int == edit_cell(
                        query@,
                        target@,
                        free_start,
                        sub_cost as int,
                        i - 1,
                        k,
                    ),
                forall|k: int|
                    0 <= k <= cols ==> #[trigger] cur@[k] as int == edit_cell(
                        query@,
                        target@,
                        free_start,
                        sub_cost as int,
                        i as int,
                        k,
                    ),
                cols >= 1 ==> row_least as int == edit_row_min(
                    query@,
                    target@,
                    free_start,
                    sub_cost as int,
                    i as int,
                    cols as int,
                ),
            decreases m - cols,
        {
            let j: usize = cols + 1;
            proof {
                lemma_edit_cell_bounds(query@, target@, free_start, sub_cost as int, i - 1, j as int);
                lemma_edit_cell_bounds(query@, target@, free_start, sub_cost as int, i as int, j - 1);
                lemma_edit_cell_bounds(query@, target@, free_start, sub_cost as int, i - 1, j - 1);
            }
            let change: u64 = if query[i - 1] == target[j - 1] {
                0
            } else {
                sub_cost
            };
            let top: u64 = prev[j] + 1;
            let left: u64 = cur[j - 1] + 1;
            let diag: u64 = prev[j - 1] + change;
            let side: u64 = if top <= left {
                top
            } else {
                left
            };
            let cell: u64 = if side <= diag {
                side
            } else {
                diag
            };
            cur.push(cell);
            if j == 1 || cell < row_least {
                row_least = cell;
            }
            cols = j;
        }
        prev = cur;
        least = row_least;
        rows = i;
    }
    least
}

/// A cell is at least the number of bytes by which the part of the query is
/// longer than the part of the target.
pub proof fn lemma_edit_cell_at_least(
    query: Seq<u8>,
    target: Seq<u8>,
    free_start: bool,
    sub_cost: int,
    i: int,
    j: int,
)
    requires
        0 <= i,
        0 <= j,
        0 <= sub_cost,
    ensures
        edit_cell(query, target, free_start, sub_cost, i, j) >= i - j,
    decreases i + j,
{
    if i > 0 && j > 0 {
        lemma_edit_cell_at_least(query, target, free_start, sub_cost, i - 1, j);
        lemma_edit_cell_at_least(query, target, free_start, sub_cost, i, j - 1);
        lemma_edit_cell_at_least(query, target, free_start, sub_cost, i - 1, j - 1);
    }
}

/// The least cell of a row is at least the number of bytes by which the part
/// of the query is longer than the part of the target.
pub proof fn lemma_edit_row_min_at_least(
    query: Seq<u8>,
    target: Seq<u8>,
    free_start: bool,
    sub_cost: int,
    i: int,
    j: int,
)
    requires
        0 <= i,
        1 <= j,
        0 <= sub_cost,
    ensures
        edit_row_min(query, target, free_start, sub_cost, i, j) >= i - j,
    decreases j,
{
    lemma_edit_cell_at_least(query, target, free_start, sub_cost, i, 1);
    lemma_edit_cell_at_least(query, target, free_start, sub_cost, i, j);
    if j > 1 {
        lemma_edit_row_min_at_least(query, target, free_start, sub_cost, i, j - 1);
    }
}

/// A query is at least as far from every prefix of a target as it is longer
/// than the target.
pub proof fn lemma_prefix_distance_at_least(query: Seq<u8>, target: Seq<u8>)
    ensures
        spec_prefix_levenshtein(query, target) >= query.len() - target.len(),
        spec_prefix_levenshtein(query, target) >= 0,
{
    if query.len() > 0 && target.len() > 0 {
        lemma_edit_row_min_at_least(query, target, false, 2, query.len() as int, target.len() as int);
        lemma_edit_row_min_bounds(query, target, false, 2, query.len() as int, target.len() as int);
    }
}

/// A cell of the table of prefix distances is 0 only on the diagonal, and
/// only where the query and the target agree up to there.
pub proof fn lemma_edit_cell_zero(query: Seq<u8>, target: Seq<u8>, i: int, j: int)
    requires
        0 <= i <= query.len(),
        0 <= j <= target.len(),
        edit_cell(query, target, false, 2, i, j) == 0,
    ensures
        i == j,
        forall|x: int| 0 <= x < i ==> query[x] == target[x],
    decreases i + j,
{
    if i > 0 && j > 0 {
        lemma_edit_cell_bounds(query, target, false, 2, i - 1, j);
        lemma_edit_cell_bounds(query, target, false, 2, i, j - 1);
        lemma_edit_cell_bounds(query, target, false, 2, i - 1, j - 1);
        lemma_edit_cell_zero(query, target, i - 1, j - 1);
    }
}

/// A least cell of 0 in a row means that the query is a prefix of the target.
pub proof fn lemma_edit_row_zero(query: Seq<u8>, target: Seq<u8>, j: int)
    requires
        query.len() > 0,
        1 <= j <= target.len(),
        edit_row_min(query, target, false, 2, query.len() as int, j) == 0,
    ensures
        query.len() <= target.len(),
        forall|x: int| 0 <= x < query.len() ==> query[x] == target[x],
    decreases j,
{
    let n = query.len() as int;
    lemma_edit_cell_bounds(query, target, false, 2, n, j);
    if j <= 1 {
        lemma_edit_cell_zero(query, target, n, 1);
    } else if edit_cell(query, target, false, 2, n, j) == 0 {
        lemma_edit_cell_zero(query, target, n, j);
    } else {
        lemma_edit_row_min_bounds(query, target, false, 2, n, j - 1);
        lemma_edit_row_zero(query, target, j - 1);
    }
}

/// Where the query and the target agree up to place `i`, the cell on the
/// diagonal there is 0.
pub proof fn lemma_edit_diagonal_zero(query: Seq<u8>, target: Seq<u8>, i: int)
    requires
        0 <= i <= query.len(),
        i <= target.len(),
        forall|x: int| 0 <= x < i ==> query[x] == target[x],
    ensures
        edit_cell(query, target, false, 2, i, i) == 0,
    decreases i,
{
    if i > 0 {
        lemma_edit_diagonal_zero(query, target, i - 1);
        lemma_edit_cell_bounds(query, target, false, 2, i - 1, i);
        lemma_edit_cell_bounds(query, target, false, 2, i, i - 1);
        assert(query[i - 1] == target[i - 1]);
    }
}

/// The least cell of a row is no more than any of its cells.
pub proof fn lemma_edit_row_min_at_most(query: Seq<u8>, target: Seq<u8>, i: int, j: int, k: int)
    requires
        1 <= k <= j,
    ensures
        edit_row_min(query, target, false, 2, i, j) <= edit_cell(query, target, false, 2, i, k),
    decreases j,
{
    if j > 1 && k < j {
        lemma_edit_row_min_at_most(query, target, i, j - 1, k);
    }
}

/// The distance from a query to the prefixes of a target is no more than
/// the length of the query, and it is 0 just where the query is a prefix of
/// the target.
pub proof fn lemma_prefix_distance_zero(query: Seq<u8>, target: Seq<u8>)
    ensures
        0 <= spec_prefix_levenshtein(query, target) <= query.len(),
        spec_prefix_levenshtein(query, target) == 0 <==> query.len() <= target.len()
            && target.subrange(0, query.len() as int) == query,
{
    let n = query.len() as int;
    let m = target.len() as int;
    if n == 0 {
        assert(target.subrange(0, 0) =~= query);
    } else if m > 0 {
        lemma_edit_row_min_bounds(query, target, false, 2, n, m);
        if spec_prefix_levenshtein(query, target) == 0 {
            lemma_edit_row_zero(query, target, m);
            assert(target.subrange(0, n) =~= query);
        }
        if n <= m && target.subrange(0, n) == query {
            assert forall|x: int| 0 <= x < n implies query[x] == target[x] by {
                assert(target.subrange(0, n)[x] == target[x]);
            }
            lemma_edit_diagonal_zero(query, target, n);
            lemma_edit_row_min_at_most(query, target, n, m, n);
        }
    }
}

/// Least edit distance from `query` to a prefix of `target`, the empty
/// prefix among them, a changed byte counting 2.
pub fn prefix_distance(query: &[u8], target: &[u8]) -> (r: u64)
    requires
        query@.len() + target@.len() < 0x7fff_ffff_ffff_ffff,
    ensures
        r as int == spec_prefix_levenshtein(query@, target@),
{
    let dropped: u64 = query.len() as u64;
    if query.len() == 0 || target.len() == 0 {
        dropped
    } else {
        let least: u64 = edit_distance(query, target, false, 2);
        if dropped <= least {
            dropped
        } else {
            least
        }
    }
}

/// Least edit distance from `query` to a prefix of `target`, the empty
/// prefix among them, a changed byte counting 2.
pub fn _prefix_levenshtein_bs(query: &[u8], target: &[u8]) -> (r: i32)
    requires
        query@.len() + target@.len() < i32::MAX,
    ensures
        r as int == spec_prefix_levenshtein(query@, target@),
{
    prefix_distance(query, target) as i32
}

/// Least edit distance from `query` to a non-empty stretch of `target`, a
/// changed byte counting 1; for an empty query 0, for an empty target the
/// length of the query.
pub fn _local_levenshtein_bs(query: &[u8], target: &[u8]) -> (r: i32)
    requires
        query@.len() + target@.len() < i32::MAX,
    ensures
        r as int == spec_local_levenshtein(query@, target@),
{
    if query.len() == 0 {
        0
    } else if target.len() == 0 {
        query.len() as i32
    } else {
        proof {
            lemma_edit_row_min_bounds(
                query@,
                target@,
                true,
                1,
                query@.len() as int,
                target@.len() as int,
            );
        }
        edit_distance(query, target, true, 1) as i32
    }
}

/// Least edit distance from the bytes of `query` to a prefix of those of
/// `target`, the empty prefix among them, a changed byte counting 2.
pub fn prefix_levenshtein_ascii(query: &str, target: &str) -> (r: i32)
    requires
        query.spec_bytes().len() + target.spec_bytes().len() < i32::MAX,
    ensures
        r as int == spec_prefix_levenshtein(query.spec_bytes(), target.spec_bytes()),
{
    _prefix_levenshtein_bs(query.as_bytes(), target.as_bytes())
}

/// Least edit distance from the bytes of `query` to a non-empty stretch of
/// those of `target`, a changed byte counting 1; for an empty query 0, for an
/// empty target the length of the query.
pub fn local_levenshtein_ascii(query: &str, target: &str) -> (r: i32)
    requires
        query.spec_bytes().len() + target.spec_bytes().len() < i32::MAX,
    ensures
        r as int == spec_local_levenshtein(query.spec_bytes(), target.spec_bytes()),
{
    _local_levenshtein_bs(query.as_bytes(), target.as_bytes())
}

} // verus!
