//! A growable little-endian byte buffer with a cursor: sequential reads from
//! the cursor, and append-only writes at the end.

use vstd::prelude::*;
use vstd::slice::{slice_subrange, slice_to_vec};
use vstd::string::StringSliceAdditionalSpecFns;
use vstd::utf8::{decode_utf8, valid_utf8};
use crate::errors::CodecError;
use crate::le::{le2_bytes, le2_val, le4_bytes, le4_val, le8_bytes, le8_val};
use crate::le::{i8_of_u8, u8_of_i8, i16_of_u16, u16_of_i16};
use crate::le::{i32_of_u32, u32_of_i32, i64_of_u64, u64_of_i64};
use crate::text::string_from_utf8;

verus! {

/// The byte buffer and its cursor.
pub struct ByteStream {
    bytes: Vec<u8>,
    pos: usize,
}

impl ByteStream {
    /// The whole buffer.
    pub closed spec fn data(&self) -> Seq<u8> {
        self.bytes@
    }

    /// The cursor position.
    pub closed spec fn cursor(&self) -> int {
        self.pos as int
    }

    /// The cursor never lies past the end of the buffer.
    pub open spec fn wf(&self) -> bool {
        0 <= self.cursor() <= self.data().len()
    }

    /// Whether the cursor is at the end of the buffer.
    pub open spec fn at_end(&self) -> bool {
        self.cursor() == self.data().len()
    }

    /// How many bytes remain between the cursor and the end.
    pub open spec fn remaining(&self) -> int {
        self.data().len() - self.cursor()
    }

    /// An empty stream, ready for writing.
    pub fn new() -> (r: ByteStream)
        ensures
            r.data() == Seq::<u8>::empty(),
            r.cursor() == 0,
    {
        ByteStream { bytes: Vec::new(), pos: 0 }
    }

    /// A stream over a copy of the given bytes, ready for reading.
    pub fn make(items: &Vec<u8>) -> (r: ByteStream)
        ensures
            r.data() == items@,
            r.cursor() == 0,
    {
        ByteStream { bytes: items.clone(), pos: 0 }
    }

    /// Moves the cursor; fails if the target lies outside the buffer.
    pub fn seek(&mut self, pos: usize) -> (r: Result<(), CodecError>)
        ensures
            final(self).data() == old(self).data(),
            match r {
                Ok(()) => pos <= old(self).data().len() && final(self).cursor() == pos,
                Err(e) => e == CodecError::BadSeek && pos > old(self).data().len() && final(self).cursor() == old(self).cursor(),
            },
    {
        if pos > self.bytes.len() {
            return Err(CodecError::BadSeek);
        }
        self.pos = pos;
        Ok(())
    }

    /// The buffer's length.
    pub fn len(&self) -> (r: usize)
        ensures
            r == self.data().len(),
    {
        self.bytes.len()
    }

    /// Consumes `count` bytes and returns them.
    pub fn read(&mut self, count: usize) -> (r: Result<Vec<u8>, CodecError>)
        requires
            old(self).wf(),
        ensures
            final(self).data() == old(self).data(),
            final(self).wf(),
            match r {
                Ok(v) => count <= old(self).remaining() && v@ == old(self).data().subrange(
                    old(self).cursor(),
                    old(self).cursor() + count,
                ) && final(self).cursor() == old(self).cursor() + count,
                Err(e) => e == CodecError::ShortRead && count > old(self).remaining() && final(self).cursor() == old(self).cursor(),
            },
    {
        if count > self.bytes.len() - self.pos {
            return Err(CodecError::ShortRead);
        }
        let s = slice_subrange(self.bytes.as_slice(), self.pos, self.pos + count);
        let v = slice_to_vec(s);
        self.pos = self.pos + count;
        Ok(v)
    }

    /// Consumes and returns everything from the cursor to the end.
    pub fn read_remaining(&mut self) -> (r: Result<Vec<u8>, CodecError>)
        requires
            old(self).wf(),
        ensures
            final(self).data() == old(self).data(),
            final(self).at_end(),
            match r {
                Ok(v) => v@ == old(self).data().subrange(
                    old(self).cursor(),
                    old(self).data().len() as int,
                ),
                Err(_) => false,
            },
    {
        let s = slice_subrange(self.bytes.as_slice(), self.pos, self.bytes.len());
        let v = slice_to_vec(s);
        self.pos = self.bytes.len();
        Ok(v)
    }

    /// Consumes one byte.
    pub fn read1(&mut self) -> (r: Result<[u8; 1], CodecError>)
        requires
            old(self).wf(),
        ensures
            final(self).data() == old(self).data(),
            final(self).wf(),
            match r {
                Ok(v) => 1 <= old(self).remaining() && v@ == old(self).data().subrange(
                    old(self).cursor(),
                    old(self).cursor() + 1,
                ) && final(self).cursor() == old(self).cursor() + 1,
                Err(e) => e == CodecError::ShortRead && old(self).remaining() < 1 && final(self).cursor() == old(self).cursor(),
            },
    {
        if self.bytes.len() - self.pos < 1 {
            return Err(CodecError::ShortRead);
        }
        let v = [self.bytes[self.pos]];
        self.pos = self.pos + 1;
        proof {
            assert(v@ =~= old(self).data().subrange(old(self).cursor(), old(self).cursor() + 1));
        }
        Ok(v)
    }

    /// Consumes two bytes.
    pub fn read2(&mut self) -> (r: Result<[u8; 2], CodecError>)
        requires
            old(self).wf(),
        ensures
            final(self).data() == old(self).data(),
            final(self).wf(),
            match r {
                Ok(v) => 2 <= old(self).remaining() && v@ == old(self).data().subrange(
                    old(self).cursor(),
                    old(self).cursor() + 2,
                ) && final(self).cursor() == old(self).cursor() + 2,
                Err(e) => e == CodecError::ShortRead && old(self).remaining() < 2 && final(self).cursor() == old(self).cursor(),
            },
    {
        if self.bytes.len() - self.pos < 2 {
            return Err(CodecError::ShortRead);
        }
        let v = [self.bytes[self.pos], self.bytes[self.pos + 1]];
        self.pos = self.pos + 2;
        proof {
            assert(v@ =~= old(self).data().subrange(old(self).cursor(), old(self).cursor() + 2));
        }
        Ok(v)
    }

    /// Consumes four bytes.
    pub fn read4(&mut self) -> (r: Result<[u8; 4], CodecError>)
        requires
            old(self).wf(),
        ensures
            final(self).data() == old(self).data(),
            final(self).wf(),
            match r {
                Ok(v) => 4 <= old(self).remaining() && v@ == old(self).data().subrange(
                    old(self).cursor(),
                    old(self).cursor() + 4,
                ) && final(self).cursor() == old(self).cursor() + 4,
                Err(e) => e == CodecError::ShortRead && old(self).remaining() < 4 && final(self).cursor() == old(self).cursor(),
            },
    {
        if self.bytes.len() - self.pos < 4 {
            return Err(CodecError::ShortRead);
        }
        let v = [
            self.bytes[self.pos],
            self.bytes[self.pos + 1],
            self.bytes[self.pos + 2],
            self.bytes[self.pos + 3],
        ];
        self.pos = self.pos + 4;
        proof {
            assert(v@ =~= old(self).data().subrange(old(self).cursor(), old(self).cursor() + 4));
        }
        Ok(v)
    }

    /// Consumes eight bytes.
    pub fn read8(&mut self) -> (r: Result<[u8; 8], CodecError>)
        requires
            old(self).wf(),
        ensures
            final(self).data() == old(self).data(),
            final(self).wf(),
            match r {
                Ok(v) => 8 <= old(self).remaining() && v@ == old(self).data().subrange(
                    old(self).cursor(),
                    old(self).cursor() + 8,
                ) && final(self).cursor() == old(self).cursor() + 8,
                Err(e) => e == CodecError::ShortRead && old(self).remaining() < 8 && final(self).cursor() == old(self).cursor(),
            },
    {
        if self.bytes.len() - self.pos < 8 {
            return Err(CodecError::ShortRead);
        }
        let v = [
            self.bytes[self.pos],
            self.bytes[self.pos + 1],
            self.bytes[self.pos + 2],
            self.bytes[self.pos + 3],
            self.bytes[self.pos + 4],
            self.bytes[self.pos + 5],
            self.bytes[self.pos + 6],
            self.bytes[self.pos + 7],
        ];
        self.pos = self.pos + 8;
        proof {
            assert(v@ =~= old(self).data().subrange(old(self).cursor(), old(self).cursor() + 8));
        }
        Ok(v)
    }

    /// Consumes one byte as an unsigned integer.
    pub fn read_u8(&mut self) -> (r: Result<u8, CodecError>)
        requires
            old(self).wf(),
        ensures
            final(self).data() == old(self).data(),
            final(self).wf(),
            match r {
                Ok(v) => 1 <= old(self).remaining() && v == old(self).data()[old(self).cursor()]
                    && final(self).cursor() == old(self).cursor() + 1,
                Err(e) => e == CodecError::ShortRead && old(self).remaining() < 1 && final(self).cursor() == old(self).cursor(),
            },
    {
        match self.read1() {
            Ok(b) => Ok(b[0]),
            Err(e) => Err(e),
        }
    }

    /// Consumes one byte as a signed integer.
    pub fn read_i8(&mut self) -> (r: Result<i8, CodecError>)
        requires
            old(self).wf(),
        ensures
            final(self).data() == old(self).data(),
            final(self).wf(),
            match r {
                Ok(v) => 1 <= old(self).remaining() && v == i8_of_u8(
                    old(self).data()[old(self).cursor()],
                ) && final(self).cursor() == old(self).cursor() + 1,
                Err(e) => e == CodecError::ShortRead && old(self).remaining() < 1 && final(self).cursor() == old(self).cursor(),
            },
    {
        let u = match self.read_u8() {
            Ok(u) => u,
            Err(e) => {
                return Err(e);
            },
        };
        if u < 0x80 {
            Ok(u as i8)
        } else {
            Ok((-((0x100 - u as i32)) as i32) as i8)
        }
    }

    /// Consumes two bytes as a little-endian unsigned integer.
    pub fn read_u16(&mut self) -> (r: Result<u16, CodecError>)
        requires
            old(self).wf(),
        ensures
            final(self).data() == old(self).data(),
            final(self).wf(),
            match r {
                Ok(v) => 2 <= old(self).remaining() && v == le2_val(
                    old(self).data().subrange(old(self).cursor(), old(self).cursor() + 2),
                ) && final(self).cursor() == old(self).cursor() + 2,
                Err(e) => e == CodecError::ShortRead && old(self).remaining() < 2 && final(self).cursor() == old(self).cursor(),
            },
    {
        let b = match self.read2() {
            Ok(b) => b,
            Err(e) => {
                return Err(e);
            },
        };
        Ok(b[0] as u16 + b[1] as u16 * 0x100)
    }

    /// Consumes two bytes as a little-endian signed integer.
    pub fn read_i16(&mut self) -> (r: Result<i16, CodecError>)
        requires
            old(self).wf(),
        ensures
            final(self).data() == old(self).data(),
            final(self).wf(),
            match r {
                Ok(v) => 2 <= old(self).remaining() && v == i16_of_u16(
                    le2_val(old(self).data().subrange(old(self).cursor(), old(self).cursor() + 2)),
                ) && final(self).cursor() == old(self).cursor() + 2,
                Err(e) => e == CodecError::ShortRead && old(self).remaining() < 2 && final(self).cursor() == old(self).cursor(),
            },
    {
        let u = match self.read_u16() {
            Ok(u) => u,
            Err(e) => {
                return Err(e);
            },
        };
        if u < 0x8000 {
            Ok(u as i16)
        } else {
            Ok((-((0x10000 - u as i32)) as i32) as i16)
        }
    }

    /// Consumes four bytes as a little-endian unsigned integer.
    pub fn read_u32(&mut self) -> (r: Result<u32, CodecError>)
        requires
            old(self).wf(),
        ensures
            final(self).data() == old(self).data(),
            final(self).wf(),
            match r {
                Ok(v) => 4 <= old(self).remaining() && v == le4_val(
                    old(self).data().subrange(old(self).cursor(), old(self).cursor() + 4),
                ) && final(self).cursor() == old(self).cursor() + 4,
                Err(e) => e == CodecError::ShortRead && old(self).remaining() < 4 && final(self).cursor() == old(self).cursor(),
            },
    {
        let b = match self.read4() {
            Ok(b) => b,
            Err(e) => {
                return Err(e);
            },
        };
        Ok(b[0] as u32 + b[1] as u32 * 0x100 + b[2] as u32 * 0x10000 + b[3] as u32 * 0x1000000)
    }

    /// Consumes four bytes as a little-endian signed integer.
    pub fn read_i32(&mut self) -> (r: Result<i32, CodecError>)
        requires
            old(self).wf(),
        ensures
            final(self).data() == old(self).data(),
            final(self).wf(),
            match r {
                Ok(v) => 4 <= old(self).remaining() && v == i32_of_u32(
                    le4_val(old(self).data().subrange(old(self).cursor(), old(self).cursor() + 4)),
                ) && final(self).cursor() == old(self).cursor() + 4,
                Err(e) => e == CodecError::ShortRead && old(self).remaining() < 4 && final(self).cursor() == old(self).cursor(),
            },
    {
        let u = match self.read_u32() {
            Ok(u) => u,
            Err(e) => {
                return Err(e);
            },
        };
        if u < 0x80000000 {
            Ok(u as i32)
        } else {
            Ok((-((0x100000000 - u as i64)) as i64) as i32)
        }
    }

    /// Consumes eight bytes as a little-endian unsigned integer.
    pub fn read_u64(&mut self) -> (r: Result<u64, CodecError>)
        requires
            old(self).wf(),
        ensures
            final(self).data() == old(self).data(),
            final(self).wf(),
            match r {
                Ok(v) => 8 <= old(self).remaining() && v == le8_val(
                    old(self).data().subrange(old(self).cursor(), old(self).cursor() + 8),
                ) && final(self).cursor() == old(self).cursor() + 8,
                Err(e) => e == CodecError::ShortRead && old(self).remaining() < 8 && final(self).cursor() == old(self).cursor(),
            },
    {
        let b = match self.read8() {
            Ok(b) => b,
            Err(e) => {
                return Err(e);
            },
        };
        Ok(
            b[0] as u64 + b[1] as u64 * 0x100 + b[2] as u64 * 0x10000 + b[3] as u64 * 0x1000000 + b[4]
                as u64 * 0x100000000 + b[5] as u64 * 0x10000000000 + b[6] as u64 * 0x1000000000000
                + b[7] as u64 * 0x100000000000000,
        )
    }

    /// Consumes eight bytes as a little-endian signed integer.
    pub fn read_i64(&mut self) -> (r: Result<i64, CodecError>)
        requires
            old(self).wf(),
        ensures
            final(self).data() == old(self).data(),
            final(self).wf(),
            match r {
                Ok(v) => 8 <= old(self).remaining() && v == i64_of_u64(
                    le8_val(old(self).data().subrange(old(self).cursor(), old(self).cursor() + 8)),
                ) && final(self).cursor() == old(self).cursor() + 8,
                Err(e) => e == CodecError::ShortRead && old(self).remaining() < 8 && final(self).cursor() == old(self).cursor(),
            },
    {
        let u = match self.read_u64() {
            Ok(u) => u,
            Err(e) => {
                return Err(e);
            },
        };
        if u < 0x8000000000000000 {
            Ok(u as i64)
        } else {
            Ok((-((0x10000000000000000 - u as i128)) as i128) as i64)
        }
    }

    /// Consumes `count` bytes and decodes them as UTF-8 text.
    pub fn read_string(&mut self, count: usize) -> (r: Result<String, CodecError>)
        requires
            old(self).wf(),
        ensures
            final(self).data() == old(self).data(),
            final(self).wf(),
            match r {
                Ok(s) => count <= old(self).remaining() && valid_utf8(
                    old(self).data().subrange(old(self).cursor(), old(self).cursor() + count),
                ) && s@ == decode_utf8(
                    old(self).data().subrange(old(self).cursor(), old(self).cursor() + count),
                ) && final(self).cursor() == old(self).cursor() + count,
                Err(e) => (e == CodecError::ShortRead && count > old(self).remaining() && final(self).cursor() == old(self).cursor()) || (e == CodecError::InvalidUtf8 && count <= old(
                    self,
                ).remaining() && !valid_utf8(
                    old(self).data().subrange(old(self).cursor(), old(self).cursor() + count),
                ) && final(self).cursor() == old(self).cursor() + count),
            },
    {
        let v = match self.read(count) {
            Ok(v) => v,
            Err(e) => {
                return Err(e);
            },
        };
        match string_from_utf8(v) {
            Some(s) => Ok(s),
            None => Err(CodecError::InvalidUtf8),
        }
    }

    /// The whole buffer, borrowed.
    pub fn as_bytes(&self) -> (r: &Vec<u8>)
        ensures
            r@ == self.data(),
    {
        &self.bytes
    }

    /// Appends bytes at the end of the buffer and moves the cursor past them.
    pub fn write(&mut self, bytes: &[u8])
        requires
            old(self).wf(),
            old(self).at_end(),
        ensures
            final(self).data() == old(self).data() + bytes@,
            final(self).at_end(),
    {
        self.bytes.extend_from_slice(bytes);
        self.pos = self.bytes.len();
    }

    /// Appends two bytes.
    pub fn write2(&mut self, value: &[u8; 2])
        requires
            old(self).wf(),
            old(self).at_end(),
        ensures
            final(self).data() == old(self).data() + value@,
            final(self).at_end(),
    {
        self.write(value.as_slice());
    }

    /// Appends four bytes.
    pub fn write4(&mut self, value: &[u8; 4])
        requires
            old(self).wf(),
            old(self).at_end(),
        ensures
            final(self).data() == old(self).data() + value@,
            final(self).at_end(),
    {
        self.write(value.as_slice());
    }

    /// Appends an unsigned byte.
    pub fn write_u8(&mut self, value: u8)
        requires
            old(self).wf(),
            old(self).at_end(),
        ensures
            final(self).data() == old(self).data() + seq![value],
            final(self).at_end(),
    {
        let b = [value];
        proof {
            assert(b@ =~= seq![value]);
        }
        self.write(b.as_slice());
    }

    /// Appends a signed byte in two's complement.
    pub fn write_i8(&mut self, value: i8)
        requires
            old(self).wf(),
            old(self).at_end(),
        ensures
            final(self).data() == old(self).data() + seq![u8_of_i8(value)],
            final(self).at_end(),
    {
        if value >= 0 {
            self.write_u8(value as u8);
        } else {
            self.write_u8((value as i32 + 0x100) as u8);
        }
    }

    /// Appends an unsigned 16-bit integer, little-endian.
    pub fn write_u16(&mut self, value: u16)
        requires
            old(self).wf(),
            old(self).at_end(),
        ensures
            final(self).data() == old(self).data() + le2_bytes(value),
            final(self).at_end(),
    {
        let b = [(value % 0x100) as u8, (value / 0x100) as u8];
        proof {
            assert(b@ =~= le2_bytes(value));
        }
        self.write(b.as_slice());
    }

    /// Appends a signed 16-bit integer in two's complement, little-endian.
    pub fn write_i16(&mut self, value: i16)
        requires
            old(self).wf(),
            old(self).at_end(),
        ensures
            final(self).data() == old(self).data() + le2_bytes(u16_of_i16(value)),
            final(self).at_end(),
    {
        if value >= 0 {
            self.write_u16(value as u16);
        } else {
            self.write_u16((value as i32 + 0x10000) as u16);
        }
    }

    /// Appends an unsigned 32-bit integer, little-endian.
    pub fn write_u32(&mut self, value: u32)
        requires
            old(self).wf(),
            old(self).at_end(),
        ensures
            final(self).data() == old(self).data() + le4_bytes(value),
            final(self).at_end(),
    {
        let b = [
            (value % 0x100) as u8,
            (value / 0x100 % 0x100) as u8,
            (value / 0x10000 % 0x100) as u8,
            (value / 0x1000000) as u8,
        ];
        proof {
            assert(b@ =~= le4_bytes(value));
        }
        self.write(b.as_slice());
    }

    /// Appends a signed 32-bit integer in two's complement, little-endian.
    pub fn write_i32(&mut self, value: i32)
        requires
            old(self).wf(),
            old(self).at_end(),
        ensures
            final(self).data() == old(self).data() + le4_bytes(u32_of_i32(value)),
            final(self).at_end(),
    {
        if value >= 0 {
            self.write_u32(value as u32);
        } else {
            self.write_u32((value as i64 + 0x100000000) as u32);
        }
    }

    /// Appends an unsigned 64-bit integer, little-endian.
    pub fn write_u64(&mut self, value: u64)
        requires
            old(self).wf(),
            old(self).at_end(),
        ensures
            final(self).data() == old(self).data() + le8_bytes(value),
            final(self).at_end(),
    {
        let b = [
            (value % 0x100) as u8,
            (value / 0x100 % 0x100) as u8,
            (value / 0x10000 % 0x100) as u8,
            (value / 0x1000000 % 0x100) as u8,
            (value / 0x100000000 % 0x100) as u8,
            (value / 0x10000000000 % 0x100) as u8,
            (value / 0x1000000000000 % 0x100) as u8,
            (value / 0x100000000000000) as u8,
        ];
        proof {
            assert(b@ =~= le8_bytes(value));
        }
        self.write(b.as_slice());
    }

    /// Appends a signed 64-bit integer in two's complement, little-endian.
    pub fn write_i64(&mut self, value: i64)
        requires
            old(self).wf(),
            old(self).at_end(),
        ensures
            final(self).data() == old(self).data() + le8_bytes(u64_of_i64(value)),
            final(self).at_end(),
    {
        if value >= 0 {
            self.write_u64(value as u64);
        } else {
            self.write_u64((value as i128 + 0x10000000000000000) as u64);
        }
    }

    /// Appends the UTF-8 bytes of a string.
    pub fn write_string(&mut self, value: &str)
        requires
            old(self).wf(),
            old(self).at_end(),
        ensures
            final(self).data() == old(self).data() + value.spec_bytes(),
            final(self).at_end(),
    {
        self.write(value.as_bytes());
    }
}

} // verus!
