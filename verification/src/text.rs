//! Bytes of texts: ASCII classes, words between ASCII whitespace, and cutting
//! a text where a character ends.

use vstd::prelude::*;
use vstd::string::*;
use vstd::utf8::*;

verus! {

/// The byte is an ASCII whitespace: space, tab, line feed, form feed or
/// carriage return.
pub open spec fn spec_is_space(b: u8) -> bool {
    b == 0x20 || b == 0x09 || b == 0x0a || b == 0x0c || b == 0x0d
}

/// The byte is an ASCII digit.
pub open spec fn spec_is_digit(b: u8) -> bool {
    0x30 <= b && b <= 0x39
}

/// The byte is an ASCII whitespace.
pub fn is_space(b: u8) -> (r: bool)
    ensures
        r == spec_is_space(b),
{
    b == 0x20 || b == 0x09 || b == 0x0a || b == 0x0c || b == 0x0d
}

/// The byte is an ASCII digit.
pub fn is_digit(b: u8) -> (r: bool)
    ensures
        r == spec_is_digit(b),
{
    0x30 <= b && b <= 0x39
}

/// Where the words of `bytes` lie: each pair is the start and the end of a
/// longest run of bytes that are no ASCII whitespace, in order.
pub open spec fn token_ranges(bytes: Seq<u8>) -> Seq<(int, int)>
    decreases bytes.len(),
{
    if bytes.len() == 0 {
        Seq::empty()
    } else {
        let n = bytes.len() - 1;
        let before = token_ranges(bytes.take(n));
        if spec_is_space(bytes[n]) {
            before
        } else if n >= 1 && !spec_is_space(bytes[n - 1]) {
            before.drop_last().push((before.last().0, n + 1))
        } else {
            before.push((n, n + 1))
        }
    }
}

/// The words of `bytes`.
pub open spec fn spec_tokens(bytes: Seq<u8>) -> Seq<Seq<u8>> {
    Seq::new(
        token_ranges(bytes).len(),
        |i: int| bytes.subrange(token_ranges(bytes)[i].0, token_ranges(bytes)[i].1),
    )
}

/// What holds of the ranges of the words: each is a non-empty run without
/// whitespace inside the text, starts at the start of the text or behind a
/// whitespace, and ends at the end of the text or before a whitespace; each
/// starts behind the end of the one before it.
pub open spec fn token_ranges_sound(bytes: Seq<u8>, ranges: Seq<(int, int)>) -> bool {
    &&& forall|i: int|
        0 <= i < ranges.len() ==> {
            let r = #[trigger] ranges[i];
            &&& 0 <= r.0 < r.1 <= bytes.len()
            &&& (r.0 == 0 || spec_is_space(bytes[r.0 - 1]))
            &&& (r.1 == bytes.len() || spec_is_space(bytes[r.1]))
            &&& forall|k: int| r.0 <= k < r.1 ==> !spec_is_space(#[trigger] bytes[k])
        }
    &&& forall|i: int| 0 <= i < ranges.len() - 1 ==> (#[trigger] ranges[i]).1 < ranges[i + 1].0
}

/// The ranges of the words are sound; the last one reaches the end of the
/// text just when the text does not end in whitespace.
pub proof fn lemma_token_ranges_sound(bytes: Seq<u8>)
    ensures
        token_ranges_sound(bytes, token_ranges(bytes)),
        bytes.len() > 0 && !spec_is_space(bytes.last()) ==> token_ranges(bytes).len() > 0
            && token_ranges(bytes).last().1 == bytes.len(),
        token_ranges(bytes).len() > 0 && token_ranges(bytes).last().1 == bytes.len()
            ==> !spec_is_space(bytes.last()),
    decreases bytes.len(),
{
    if bytes.len() > 0 {
        let n = bytes.len() - 1;
        let head = bytes.take(n);
        let before = token_ranges(head);
        lemma_token_ranges_sound(head);
        let ranges = token_ranges(bytes);
        assert(forall|k: int| 0 <= k < n ==> head[k] == bytes[k]);
        if spec_is_space(bytes[n]) {
            assert forall|i: int| 0 <= i < ranges.len() implies {
                let r = #[trigger] ranges[i];
                &&& 0 <= r.0 < r.1 <= bytes.len()
                &&& (r.0 == 0 || spec_is_space(bytes[r.0 - 1]))
                &&& (r.1 == bytes.len() || spec_is_space(bytes[r.1]))
                &&& forall|k: int| r.0 <= k < r.1 ==> !spec_is_space(#[trigger] bytes[k])
            } by {
                let r = before[i];
                assert(forall|k: int| r.0 <= k < r.1 ==> head[k] == bytes[k]);
            }
        } else if n >= 1 && !spec_is_space(bytes[n - 1]) {
            assert(head.last() == bytes[n - 1]);
            let last = before.len() - 1;
            assert forall|i: int| 0 <= i < ranges.len() implies {
                let r = #[trigger] ranges[i];
                &&& 0 <= r.0 < r.1 <= bytes.len()
                &&& (r.0 == 0 || spec_is_space(bytes[r.0 - 1]))
                &&& (r.1 == bytes.len() || spec_is_space(bytes[r.1]))
                &&& forall|k: int| r.0 <= k < r.1 ==> !spec_is_space(#[trigger] bytes[k])
            } by {
                let r = before[i];
                assert(forall|k: int| r.0 <= k < r.1 ==> head[k] == bytes[k]);
                if i < last {
                    assert(before[i].1 < before[i + 1].0);
                }
            }
            assert forall|i: int| 0 <= i < ranges.len() - 1 implies (#[trigger] ranges[i]).1
                < ranges[i + 1].0 by {
                assert(before[i].1 < before[i + 1].0);
            }
        } else {
            assert forall|i: int| 0 <= i < ranges.len() implies {
                let r = #[trigger] ranges[i];
                &&& 0 <= r.0 < r.1 <= bytes.len()
                &&& (r.0 == 0 || spec_is_space(bytes[r.0 - 1]))
                &&& (r.1 == bytes.len() || spec_is_space(bytes[r.1]))
                &&& forall|k: int| r.0 <= k < r.1 ==> !spec_is_space(#[trigger] bytes[k])
            } by {
                if i < before.len() {
                    let r = before[i];
                    assert(forall|k: int| r.0 <= k < r.1 ==> head[k] == bytes[k]);
                    if r.1 == n {
                        assert(before.last().1 == n) by {
                            if i < before.len() - 1 {
                                assert(before[i].1 < before[i + 1].0);
                                let q = before[i + 1];
                                assert(q.0 < q.1 <= n);
                            }
                        }
                    }
                }
            }
            assert forall|i: int| 0 <= i < ranges.len() - 1 implies (#[trigger] ranges[i]).1
                < ranges[i + 1].0 by {
                if i < before.len() - 1 {
                    assert(before[i].1 < before[i + 1].0);
                } else {
                    let r = before[i];
                    if r.1 == n {
                        assert(!spec_is_space(head.last()));
                    }
                }
            }
        }
    }
}

/// Finds the words of `bytes`.
pub fn scan_tokens(bytes: &[u8]) -> (ranges: Vec<(usize, usize)>)
    ensures
        ranges@.len() == token_ranges(bytes@).len(),
        forall|i: int|
            0 <= i < ranges@.len() ==> (#[trigger] ranges@[i]).0 as int == token_ranges(bytes@)[i].0
                && ranges@[i].1 as int == token_ranges(bytes@)[i].1,
{
    let mut ranges: Vec<(usize, usize)> = Vec::new();
    let mut i: usize = 0;
    assert(bytes@.take(0) =~= Seq::<u8>::empty());
    while i < bytes.len()
        invariant
            i <= bytes@.len(),
            ranges@.len() == token_ranges(bytes@.take(i as int)).len(),
            forall|k: int|
                0 <= k < ranges@.len() ==> (#[trigger] ranges@[k]).0 as int == token_ranges(
                    bytes@.take(i as int),
                )[k].0 && ranges@[k].1 as int == token_ranges(bytes@.take(i as int))[k].1,
        decreases bytes@.len() - i,
    {
        let ghost head = bytes@.take(i as int);
        let ghost next = bytes@.take(i + 1);
        proof {
            assert(next.take(i as int) =~= head);
            assert(next[i as int] == bytes@[i as int]);
            lemma_token_ranges_sound(head);
            if i >= 1 {
                assert(next[i - 1] == bytes@[i - 1]);
                assert(head.last() == bytes@[i - 1]);
            }
        }
        if !is_space(bytes[i]) {
            if i >= 1 && !is_space(bytes[i - 1]) {
                let last: usize = ranges.len() - 1;
                let start: usize = ranges[last].0;
                ranges.set(last, (start, i + 1));
            } else {
                ranges.push((i, i + 1));
            }
        }
        i += 1;
    }
    assert(bytes@.take(i as int) =~= bytes@);
    ranges
}

/// In a text, the byte behind an ASCII byte starts a character.
pub proof fn lemma_boundary_behind_ascii(bytes: Seq<u8>, i: int)
    requires
        valid_utf8(bytes),
        0 <= i < bytes.len(),
        bytes[i] < 0x80,
    ensures
        is_char_boundary(bytes, i + 1),
    decreases bytes.len(),
{
    let w = length_of_first_scalar(bytes);
    let rest = pop_first_scalar(bytes);
    if i < w {
        assert(w == 1 && i == 0);
        assert(is_char_boundary(rest, 0));
    } else {
        assert(rest[i - w] == bytes[i]);
        lemma_boundary_behind_ascii(rest, i - w);
    }
}

/// In a text, an ASCII byte starts a character.
pub proof fn lemma_boundary_at_ascii(bytes: Seq<u8>, i: int)
    requires
        valid_utf8(bytes),
        0 <= i < bytes.len(),
        bytes[i] < 0x80,
    ensures
        is_char_boundary(bytes, i),
{
    is_char_boundary_iff_not_is_continuation_byte(bytes, i);
}

/// The part of `s` from byte `start` to byte `end`, both of which must be
/// ends of characters.
pub fn str_range<'a>(s: &'a str, start: usize, end: usize) -> (part: &'a str)
    requires
        start <= end <= s.spec_bytes().len(),
        is_char_boundary(s.spec_bytes(), start as int),
        is_char_boundary(s.spec_bytes(), end as int),
    ensures
        part.spec_bytes() == s.spec_bytes().subrange(start as int, end as int),
{
    let ghost bytes = s.spec_bytes();
    proof {
        encode_utf8_valid_utf8(s@);
    }
    let (head, _) = s.split_at(end);
    proof {
        valid_utf8_split(bytes, end as int);
        let h = head.spec_bytes();
        assert(h =~= bytes.subrange(0, end as int));
        if start == 0 {
        } else if start == end {
            is_char_boundary_start_end_of_seq(h);
        } else {
            is_char_boundary_iff_not_is_continuation_byte(bytes, start as int);
            is_char_boundary_iff_not_is_continuation_byte(h, start as int);
        }
    }
    let (_, part) = head.split_at(start);
    proof {
        assert(part.spec_bytes() =~= bytes.subrange(start as int, end as int));
    }
    part
}

/// The bytes of two texts one behind the other are the bytes of the first
/// and then the bytes of the second.
pub proof fn lemma_encode_utf8_concat(a: Seq<char>, b: Seq<char>)
    ensures
        encode_utf8(a + b) == encode_utf8(a) + encode_utf8(b),
    decreases a.len(),
{
    if a.len() == 0 {
        assert(a + b =~= b);
        assert(encode_utf8(a) + encode_utf8(b) =~= encode_utf8(b));
    } else {
        assert((a + b).drop_first() =~= a.drop_first() + b);
        lemma_encode_utf8_concat(a.drop_first(), b);
        assert(encode_utf8(a + b) =~= encode_utf8(a) + encode_utf8(b));
    }
}

/// The bytes of a text with an ASCII character behind it are the bytes of
/// the text and then the one byte of the character.
pub proof fn lemma_encode_utf8_push_ascii(a: Seq<char>, c: char)
    requires
        c as u32 <= 0x7f,
    ensures
        encode_utf8(a.push(c)) == encode_utf8(a).push(c as u8),
{
    let scalar = c as u32;
    assert((scalar & 0x7F) as u8 == scalar as u8) by (bit_vector)
        requires
            scalar <= 0x7f,
    ;
    lemma_encode_utf8_concat(a, seq![c]);
    assert(a.push(c) =~= a + seq![c]);
    assert(seq![c].drop_first() =~= Seq::<char>::empty());
    assert(encode_utf8(seq![c]) =~= seq![c as u8]) by {
        reveal_with_fuel(encode_utf8, 2);
    }
    assert(encode_utf8(a) + seq![c as u8] =~= encode_utf8(a).push(c as u8));
}

/// `core::str::from_utf8`: the bytes as a text, where they are the UTF-8
/// encoding of one, and nothing where they are not.
#[verifier::external_body]
pub(crate) fn str_from_utf8<'a>(bytes: &'a [u8]) -> (r: Option<&'a str>)
    ensures
        r is Some <==> valid_utf8(bytes@),
        r is Some ==> r.unwrap().spec_bytes() == bytes@,
{
    core::str::from_utf8(bytes).ok()
}

/// `char::from_u32`: the character with the given number, where the number
/// is a Unicode scalar value, and nothing where it is not.
#[verifier::external_body]
pub(crate) fn char_from_scalar(scalar: u32) -> (r: Option<char>)
    ensures
        r is Some <==> is_scalar(scalar),
        r is Some ==> r.unwrap() as u32 == scalar,
{
    char::from_u32(scalar)
}

/// `String::push`: the character is added at the end of the text.
#[verifier::external_body]
pub(crate) fn push_char(text: &mut String, c: char)
    ensures
        final(text)@ == old(text)@.push(c),
{
    text.push(c);
}

/// The ASCII digit for a number from 0 to 9.
pub fn digit_char(value: u8) -> (c: char)
    requires
        value <= 9,
    ensures
        c as int == value + 0x30,
{
    (value + 0x30) as char
}

} // verus!
