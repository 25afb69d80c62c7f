//! Reading numbers and texts out of a byte buffer, little end first.

use crate::endian::{
    le_read_u16, le_read_u32, le_read_u64, le_value, lemma_le_value_prefix, read_byte,
};
use crate::text::{char_from_scalar, str_from_utf8};
use crate::vbyte::{spec_vbyte_stored_len, spec_vbyte_value};
use crate::OffsetString;
use vstd::prelude::*;
use vstd::string::*;
use vstd::utf8::*;

verus! {

/// A byte buffer and a place in it from which the next read takes its bytes.
pub struct DataReader<'a> {
    pub data: &'a [u8],
    pub position: usize,
}

impl<'a> DataReader<'a> {
    /// The bytes from the place of the reader on.
    pub open spec fn rest(&self) -> Seq<u8> {
        self.data@.skip(self.position as int)
    }

    /// At least `n` bytes are left.
    pub open spec fn has(&self, n: int) -> bool {
        self.position + n <= self.data@.len()
    }

    /// The reader has moved on by `n` bytes over the same buffer.
    pub open spec fn moved(&self, before: &DataReader<'a>, n: int) -> bool {
        &&& self.data == before.data
        &&& self.position == before.position + n
    }

    /// Moves on by `n` bytes that the buffer holds.
    fn advance(&mut self, n: usize)
        requires
            old(self).has(n as int),
        ensures
            final(self).moved(old(self), n as int),
    {
        let total: usize = self.data.len();
        assert(self.position + n <= total);
        self.position += n;
    }

    /// A reader at the start of `data`.
    #[inline]
    pub fn new(data: &'a [u8]) -> (reader: Self)
        ensures
            reader.data == data,
            reader.position == 0,
    {
        Self { data, position: 0 }
    }

    /// A reader at byte `position` of `data`.
    #[inline]
    pub fn new_at(data: &'a [u8], position: usize) -> (reader: Self)
        ensures
            reader.data == data,
            reader.position == position,
    {
        Self { data, position }
    }

    /// How many bytes are left; none where the place lies behind the buffer.
    pub fn remaining(&self) -> (n: usize)
        ensures
            n as int == if self.position <= self.data@.len() {
                self.data@.len() - self.position
            } else {
                0
            },
    {
        if self.position <= self.data.len() {
            self.data.len() - self.position
        } else {
            0
        }
    }

    /// The next byte.
    #[inline]
    pub fn read_u8(&mut self) -> (r: u8)
        requires
            old(self).has(1),
        ensures
            r == old(self).rest()[0],
            final(self).moved(old(self), 1),
    {
        let r: u8 = read_byte(self.data, self.position);
        self.advance(1);
        r
    }

    /// The number in the next two bytes, little end first.
    #[inline]
    pub fn read_u16(&mut self) -> (r: u16)
        requires
            old(self).has(2),
        ensures
            r as int == le_value(old(self).rest(), 2),
            final(self).moved(old(self), 2),
    {
        proof {
            let window = self.data@.subrange(self.position as int, self.position + 2);
            assert(window.subrange(0, 2) =~= self.rest().subrange(0, 2));
            lemma_le_value_prefix(window, self.rest(), 2);
        }
        let r: u16 = le_read_u16(self.data, self.position);
        self.advance(2);
        r
    }

    /// The number in the next four bytes, little end first.
    #[inline]
    pub fn read_u32(&mut self) -> (r: u32)
        requires
            old(self).has(4),
        ensures
            r as int == le_value(old(self).rest(), 4),
            final(self).moved(old(self), 4),
    {
        proof {
            let window = self.data@.subrange(self.position as int, self.position + 4);
            assert(window.subrange(0, 4) =~= self.rest().subrange(0, 4));
            lemma_le_value_prefix(window, self.rest(), 4);
        }
        let r: u32 = le_read_u32(self.data, self.position);
        self.advance(4);
        r
    }

    /// The number in the next eight bytes, little end first.
    #[inline]
    pub fn read_u64(&mut self) -> (r: u64)
        requires
            old(self).has(8),
        ensures
            r as int == le_value(old(self).rest(), 8),
            final(self).moved(old(self), 8),
    {
        proof {
            let window = self.data@.subrange(self.position as int, self.position + 8);
            assert(window.subrange(0, 8) =~= self.rest().subrange(0, 8));
            lemma_le_value_prefix(window, self.rest(), 8);
        }
        let r: u64 = le_read_u64(self.data, self.position);
        self.advance(8);
        r
    }

    /// The next `len` bytes.
    #[inline]
    pub fn read_bytes_len(&mut self, len: usize) -> (bytes: &'a [u8])
        requires
            old(self).has(len as int),
        ensures
            bytes@ == old(self).rest().subrange(0, len as int),
            final(self).moved(old(self), len as int),
    {
        let data: &'a [u8] = self.data;
        let total: usize = data.len();
        let bytes: &'a [u8] = &data[self.position..self.position + len];
        assert(bytes@ =~= self.rest().subrange(0, len as int));
        self.advance(len);
        bytes
    }

    /// The character whose UTF-8 encoding comes next, where one does; the
    /// reader moves on behind it, and stays where none does. Four bytes must
    /// be left whatever the length of the encoding.
    pub fn try_read_utf8_char(&mut self) -> (r: Option<char>)
        requires
            old(self).has(4),
        ensures
            match r {
                Some(c) => {
                    &&& valid_first_scalar(old(self).rest())
                    &&& c == decode_first_scalar(old(self).rest()) as char
                    &&& final(self).moved(old(self), length_of_first_scalar(old(self).rest()))
                },
                None => !valid_first_scalar(old(self).rest()) && *final(self) == *old(self),
            },
    {
        let at: usize = self.position;
        let ghost rest = self.rest();
        let b0: u8 = self.data[at];
        let b1: u8 = self.data[at + 1];
        let b2: u8 = self.data[at + 2];
        let b3: u8 = self.data[at + 3];
        assert(rest[0] == b0 && rest[1] == b1 && rest[2] == b2 && rest[3] == b3);
        let width: usize;
        let scalar: u32;
        if b0 <= 0x7f {
            width = 1;
            scalar = (b0 & 0x7F) as u32;
        } else if 0xc0 <= b0 && b0 <= 0xdf {
            if !(0x80 <= b1 && b1 <= 0xbf) {
                return None;
            }
            width = 2;
            scalar = (((b0 & 0x1F) as u32) << 6) | ((b1 & 0x3f) as u32);
            if scalar < 0x80 {
                return None;
            }
        } else if 0xe0 <= b0 && b0 <= 0xef {
            if !(0x80 <= b1 && b1 <= 0xbf && 0x80 <= b2 && b2 <= 0xbf) {
                return None;
            }
            width = 3;
            scalar = (((b0 & 0x0F) as u32) << 12) | (((b1 & 0x3f) as u32) << 6) | ((b2
                & 0x3f) as u32);
            if scalar < 0x800 {
                return None;
            }
        } else if 0xf0 <= b0 && b0 <= 0xf7 {
            if !(0x80 <= b1 && b1 <= 0xbf && 0x80 <= b2 && b2 <= 0xbf && 0x80 <= b3 && b3
                <= 0xbf) {
                return None;
            }
            width = 4;
            scalar = (((b0 & 0x07) as u32) << 18) | (((b1 & 0x3f) as u32) << 12) | (((b2
                & 0x3f) as u32) << 6) | ((b3 & 0x3f) as u32);
            if scalar < 0x10000 || scalar > 0x10ffff {
                return None;
            }
        } else {
            return None;
        }
        if 0xD800 <= scalar && scalar <= 0xDFFF {
            return None;
        }
        assert(scalar == decode_first_scalar(rest));
        assert(valid_first_scalar(rest));
        proof {
            assert(scalar <= 0x10ffff) by {
                if width == 1 {
                    assert((b0 & 0x7F) as u32 <= 0x7f) by (bit_vector);
                } else if width == 2 {
                    assert(((((b0 & 0x1F) as u32) << 6) | ((b1 & 0x3f) as u32)) <= 0x7ff)
                        by (bit_vector);
                } else if width == 3 {
                    assert(((((b0 & 0x0F) as u32) << 12) | (((b1 & 0x3f) as u32) << 6) | ((b2
                        & 0x3f) as u32)) <= 0xffff) by (bit_vector);
                }
            }
        }
        match char_from_scalar(scalar) {
            Some(c) => {
                proof {
                    char_u32_cast(c, scalar);
                }
                self.advance(width);
                Some(c)
            },
            None => None,
        }
    }

    /// The character whose UTF-8 encoding comes next. Four bytes must be left
    /// whatever the length of the encoding.
    #[inline]
    pub fn read_utf8_char(&mut self) -> (c: char)
        requires
            old(self).has(4),
            valid_first_scalar(old(self).rest()),
        ensures
            c == decode_first_scalar(old(self).rest()) as char,
            final(self).moved(old(self), length_of_first_scalar(old(self).rest())),
    {
        match self.try_read_utf8_char() {
            Some(c) => c,
            None => '\0',
        }
    }

    /// What a text stored behind its length takes up: four bytes of length
    /// and as many bytes as the length says, which are valid UTF-8.
    pub open spec fn has_string(&self) -> bool {
        &&& self.has(4)
        &&& self.has(4 + le_value(self.rest(), 4))
        &&& valid_utf8(self.rest().subrange(4, 4 + le_value(self.rest(), 4)))
    }

    /// The text that is stored next behind its length, where one is; the
    /// reader moves on behind it, and stays where none is.
    pub fn try_read_string(&mut self) -> (r: Option<&'a str>)
        ensures
            match r {
                Some(text) => {
                    &&& old(self).has_string()
                    &&& text.spec_bytes() == old(self).rest().subrange(
                        4,
                        4 + le_value(old(self).rest(), 4),
                    )
                    &&& final(self).moved(old(self), 4 + le_value(old(self).rest(), 4))
                },
                None => !old(self).has_string() && *final(self) == *old(self),
            },
    {
        if self.remaining() < 4 {
            return None;
        }
        let start: usize = self.position;
        let ghost rest = self.rest();
        let len: usize = self.read_u32() as usize;
        if self.remaining() < len {
            self.position = start;
            return None;
        }
        let data: &'a [u8] = self.data;
        let total: usize = data.len();
        let bytes: &'a [u8] = &data[self.position..self.position + len];
        assert(bytes@ =~= rest.subrange(4, 4 + len));
        match str_from_utf8(bytes) {
            Some(text) => {
                self.advance(len);
                Some(text)
            },
            None => {
                self.position = start;
                None
            },
        }
    }

    /// The text that is stored next behind its length.
    #[inline]
    pub fn read_string(&mut self) -> (text: &'a str)
        requires
            old(self).has_string(),
        ensures
            text.spec_bytes() == old(self).rest().subrange(4, 4 + le_value(old(self).rest(), 4)),
            final(self).moved(old(self), 4 + le_value(old(self).rest(), 4)),
    {
        match self.try_read_string() {
            Some(text) => text,
            None => "",
        }
    }

    /// The value stored next in one, two, three or five bytes. Eight bytes
    /// must be left whatever the length.
    #[inline]
    pub fn read_vbyte(&mut self) -> (value: u64)
        requires
            old(self).has(8),
        ensures
            value as int == spec_vbyte_value(old(self).rest()),
            value < crate::vbyte::VBYTE_LIMIT,
            final(self).moved(old(self), spec_vbyte_stored_len(old(self).rest())),
            1 <= spec_vbyte_stored_len(old(self).rest()) <= 5,
    {
        let (value, length) = crate::vbyte::read_vbyte(self.data, self.position);
        self.advance(length as usize);
        value
    }

    /// The value stored next, as `read_vbyte` gives it; the reader stays.
    #[inline]
    pub fn peek_vbyte(&self) -> (value: u64)
        requires
            self.has(8),
        ensures
            value as int == spec_vbyte_value(self.rest()),
    {
        let (value, _) = crate::vbyte::read_vbyte(self.data, self.position);
        value
    }

    /// Where the bytes stored next behind their length lie; the reader moves
    /// on behind them.
    #[inline]
    pub fn read_offset_string(&mut self) -> (offset: OffsetString)
        requires
            old(self).has(4),
            old(self).position + 4 + le_value(old(self).rest(), 4) <= u32::MAX,
        ensures
            offset.start == old(self).position + 4,
            offset.len as int == le_value(old(self).rest(), 4),
            final(self).moved(old(self), 4 + le_value(old(self).rest(), 4)),
    {
        let len: u32 = self.read_u32();
        let offset = OffsetString { start: self.position as u32, len };
        self.skip(len as usize);
        offset
    }

    /// Moves on by `offset` bytes.
    #[inline]
    pub fn skip(&mut self, offset: usize)
        requires
            old(self).position + offset <= usize::MAX,
        ensures
            final(self).moved(old(self), offset as int),
    {
        self.position += offset;
    }
}

} // verus!
