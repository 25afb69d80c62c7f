//! Writing numbers and texts into a byte buffer, little end first.

use crate::endian::{
    le_bytes, le_write_u16, le_write_u32, le_write_u64, lemma_le_bytes_len, write_byte,
};
use crate::vbyte::{encode_vbyte, spec_vbyte_bytes, spec_vbyte_raw, VBYTE_LIMIT};
use vstd::prelude::*;
use vstd::string::*;
use vstd::utf8::*;

verus! {

/// A byte buffer that is written to at its end, and the number of bytes
/// written so far.
pub struct DataWriter {
    pub write_len: usize,
    pub inner: Vec<u8>,
}

/// The `n` low bytes of `raw`, least significant first, are those of
/// `n - 1` bytes and then the byte above them.
pub proof fn lemma_le_bytes_push(raw: int, n: int)
    requires
        0 < n,
        0 <= raw,
    ensures
        le_bytes(raw, n) == le_bytes(raw, n - 1).push(
            ((raw / crate::endian::pow256(n - 1)) % 0x100) as u8,
        ),
    decreases n,
{
    if n == 1 {
        assert(le_bytes(raw, 1) =~= seq![(raw % 0x100) as u8]) by {
            reveal_with_fuel(le_bytes, 2);
        }
        assert(le_bytes(raw, 0).push((raw % 0x100) as u8) =~= seq![(raw % 0x100) as u8]);
    } else {
        lemma_le_bytes_push(raw / 0x100, n - 1);
        let p = crate::endian::pow256(n - 2);
        crate::endian::lemma_pow256_positive(n - 2);
        assert(raw / (0x100 * p) == (raw / 0x100) / p) by {
            vstd::arithmetic::div_mod::lemma_div_denominator(raw, 0x100, p);
        }
        assert(le_bytes(raw, n) =~= le_bytes(raw, n - 1).push(
            ((raw / crate::endian::pow256(n - 1)) % 0x100) as u8,
        ));
    }
}

/// The bytes of the one character `c`.
pub open spec fn spec_char_bytes(c: char) -> Seq<u8> {
    encode_scalar(c as u32)
}

impl DataWriter {
    /// Adds `count` to the number of bytes written, after as many bytes have
    /// gone into the buffer.
    fn count_written(&mut self, count: usize)
        requires
            old(self).write_len + count <= old(self).inner@.len(),
        ensures
            final(self).inner == old(self).inner,
            final(self).write_len == old(self).write_len + count,
    {
        let filled: usize = self.inner.len();
        assert(self.write_len + count <= filled);
        self.write_len += count;
    }

    /// The count does not run ahead of the buffer.
    pub open spec fn wf(&self) -> bool {
        self.write_len <= self.inner@.len()
    }

    /// `bytes` have been written since `before`.
    pub open spec fn wrote(&self, before: &DataWriter, bytes: Seq<u8>) -> bool {
        &&& self.inner@ == before.inner@ + bytes
        &&& self.write_len == before.write_len + bytes.len()
        &&& self.wf()
    }

    /// A writer with an empty buffer.
    pub fn new() -> (writer: Self)
        ensures
            writer.wf(),
            writer.inner@ == Seq::<u8>::empty(),
            writer.write_len == 0,
    {
        DataWriter { write_len: 0, inner: Vec::new() }
    }

    /// Writes one byte.
    pub fn write_u8(&mut self, data: u8)
        requires
            old(self).wf(),
        ensures
            final(self).wrote(old(self), seq![data]),
    {
        write_byte(&mut self.inner, data);
        assert(self.inner@ =~= old(self).inner@ + seq![data]);
        self.count_written(1);
    }

    /// Writes the number in two bytes, little end first.
    pub fn write_u16(&mut self, data: u16)
        requires
            old(self).wf(),
        ensures
            final(self).wrote(old(self), le_bytes(data as int, 2)),
    {
        proof {
            lemma_le_bytes_len(data as int, 2);
        }
        le_write_u16(&mut self.inner, data);
        self.count_written(2);
    }

    /// Writes the number in four bytes, little end first.
    pub fn write_u32(&mut self, data: u32)
        requires
            old(self).wf(),
        ensures
            final(self).wrote(old(self), le_bytes(data as int, 4)),
    {
        proof {
            lemma_le_bytes_len(data as int, 4);
        }
        le_write_u32(&mut self.inner, data);
        self.count_written(4);
    }

    /// Writes the number in eight bytes, little end first.
    pub fn write_u64(&mut self, data: u64)
        requires
            old(self).wf(),
        ensures
            final(self).wrote(old(self), le_bytes(data as int, 8)),
    {
        proof {
            lemma_le_bytes_len(data as int, 8);
        }
        le_write_u64(&mut self.inner, data);
        self.count_written(8);
    }

    /// Writes `data` in one, two, three or five bytes.
    pub fn write_vbyte(&mut self, data: u64)
        requires
            old(self).wf(),
            data < VBYTE_LIMIT,
        ensures
            final(self).wrote(old(self), spec_vbyte_bytes(data as int)),
    {
        let (length, encoded) = encode_vbyte(data);
        let ghost raw = spec_vbyte_raw(data as int);
        let mut rest: u64 = encoded;
        let mut i: u8 = 0;
        assert(le_bytes(raw, 0) =~= Seq::<u8>::empty());
        assert(self.inner@ =~= old(self).inner@ + le_bytes(raw, 0));
        while i < length
            invariant
                0 <= raw == encoded,
                i <= length <= 5,
                rest as int == raw / crate::endian::pow256(i as int),
                self.inner@ == old(self).inner@ + le_bytes(raw, i as int),
                self.write_len == old(self).write_len,
                old(self).wf(),
            decreases length - i,
        {
            proof {
                lemma_le_bytes_push(raw, i + 1);
                crate::endian::lemma_pow256_positive(i as int);
                vstd::arithmetic::div_mod::lemma_div_denominator(
                    raw,
                    crate::endian::pow256(i as int),
                    0x100,
                );
                assert(crate::endian::pow256(i + 1) == 0x100 * crate::endian::pow256(i as int));
                assert(0x100 * crate::endian::pow256(i as int) == crate::endian::pow256(i as int)
                    * 0x100);
            }
            let ghost before = self.inner@;
            write_byte(&mut self.inner, (rest % 0x100) as u8);
            assert(self.inner@ =~= old(self).inner@ + le_bytes(raw, i + 1));
            rest = rest / 0x100;
            i += 1;
        }
        proof {
            lemma_le_bytes_len(raw, length as int);
        }
        self.count_written(length as usize);
    }

    /// Writes the bytes of `str` behind their number.
    pub fn write_string(&mut self, str: &str)
        requires
            old(self).wf(),
            str.spec_bytes().len() <= u32::MAX,
        ensures
            final(self).wrote(
                old(self),
                le_bytes(str.spec_bytes().len() as int, 4) + str.spec_bytes(),
            ),
    {
        self.write_bytes_and_length(str.as_bytes())
    }

    /// Writes `bytes` behind their number, which takes four bytes.
    pub fn write_bytes_and_length(&mut self, bytes: &[u8])
        requires
            old(self).wf(),
            bytes@.len() <= u32::MAX,
        ensures
            final(self).wrote(old(self), le_bytes(bytes@.len() as int, 4) + bytes@),
    {
        self.write_u32(bytes.len() as u32);
        self.write_bytes(bytes);
        assert(self.inner@ =~= old(self).inner@ + (le_bytes(bytes@.len() as int, 4) + bytes@));
    }

    /// Writes the bytes as they are.
    pub fn write_bytes(&mut self, bytes: &[u8])
        requires
            old(self).wf(),
        ensures
            final(self).wrote(old(self), bytes@),
    {
        self.inner.extend_from_slice(bytes);
        assert(self.inner@ =~= old(self).inner@ + bytes@);
        self.count_written(bytes.len());
    }

    /// Writes the one to four bytes of the character.
    pub fn write_utf8(&mut self, data: char)
        requires
            old(self).wf(),
        ensures
            final(self).wrote(old(self), spec_char_bytes(data)),
    {
        let scalar: u32 = data as u32;
        if scalar <= 0x7F {
            self.write_u8((scalar & 0x7F) as u8);
        } else if scalar <= 0x7FF {
            self.write_u8(0xC0 | ((scalar >> 6) & 0x1F) as u8);
            self.write_u8(0x80 | (scalar & 0x3F) as u8);
        } else if scalar <= 0xFFFF {
            self.write_u8(0xE0 | ((scalar >> 12) & 0x0F) as u8);
            self.write_u8(0x80 | ((scalar >> 6) & 0x3F) as u8);
            self.write_u8(0x80 | (scalar & 0x3F) as u8);
        } else {
            self.write_u8(0xF0 | ((scalar >> 18) & 0x7) as u8);
            self.write_u8(0x80 | ((scalar >> 12) & 0x3F) as u8);
            self.write_u8(0x80 | ((scalar >> 6) & 0x3F) as u8);
            self.write_u8(0x80 | (scalar & 0x3F) as u8);
        }
        assert(self.inner@ =~= old(self).inner@ + spec_char_bytes(data));
    }
}

} // verus!
