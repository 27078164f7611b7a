//! The one-byte type-tag alphabet: each tag names a category and, for
//! containers and strings, a size class.

use vstd::prelude::*;
use crate::byte_stream::ByteStream;
use crate::errors::CodecError;
use crate::le::{le2_bytes, le2_val, le4_bytes, le4_val};

verus! {

/// Tag of an empty object.
pub const TAG_EMPTY_OBJECT: u8 = 0x6F;

/// Tag of an object with a u8 pair count.
pub const TAG_SMALL_OBJECT: u8 = 0x4F;

/// Tag of an object with a u16 pair count.
pub const TAG_BIG_OBJECT: u8 = 0x70;

/// Tag of an object with a u32 pair count.
pub const TAG_LONG_OBJECT: u8 = 0x50;

/// Tag of an empty array.
pub const TAG_EMPTY_ARRAY: u8 = 0x61;

/// Tag of an array with a u8 element count.
pub const TAG_SMALL_ARRAY: u8 = 0x41;

/// Tag of an array with a u16 element count.
pub const TAG_BIG_ARRAY: u8 = 0x63;

/// Tag of an array with a u32 element count.
pub const TAG_LONG_ARRAY: u8 = 0x43;

/// Tag of an empty string.
pub const TAG_EMPTY_STRING: u8 = 0x73;

/// Tag of a string with a u8 byte length.
pub const TAG_SMALL_STRING: u8 = 0x53;

/// Tag of a string with a u16 byte length.
pub const TAG_BIG_STRING: u8 = 0x74;

/// Tag of a string with a u32 byte length.
pub const TAG_LONG_STRING: u8 = 0x54;

/// Tag of the integer zero.
pub const TAG_INT_ZERO: u8 = 0x30;

/// Tag of an i8 payload.
pub const TAG_I8: u8 = 0x69;

/// Tag of a u8 payload.
pub const TAG_U8: u8 = 0x49;

/// Tag of an i16 payload.
pub const TAG_I16: u8 = 0x6A;

/// Tag of a u16 payload.
pub const TAG_U16: u8 = 0x4A;

/// Tag of an i32 payload.
pub const TAG_I32: u8 = 0x6B;

/// Tag of a u32 payload.
pub const TAG_U32: u8 = 0x4B;

/// Tag of an i64 payload.
pub const TAG_I64: u8 = 0x6C;

/// Tag of a u64 payload.
pub const TAG_U64: u8 = 0x4C;

/// Tag of the float zero.
pub const TAG_FLOAT_ZERO: u8 = 0x66;

/// Tag of a single-precision payload.
pub const TAG_F32: u8 = 0x46;

/// Tag of a double-precision payload.
pub const TAG_F64: u8 = 0x64;

/// Tag of the boolean false.
pub const TAG_FALSE: u8 = 0x62;

/// Tag of the boolean true.
pub const TAG_TRUE: u8 = 0x42;

/// Tag of null.
pub const TAG_NULL: u8 = 0x7A;

/// What a tag stands for.
#[derive(Clone, Copy, Debug, PartialEq, Eq, Structural)]
pub enum DataTypeCategory {
    Object,
    Array,
    String,
    Integer,
    Float,
    Bool,
    Null,
}

/// A decoded tag: the byte itself, its category, and the width of the size
/// field that follows it.
pub struct DataType {
    pub char: u8,
    pub category: DataTypeCategory,
    pub size_field_bytes: u8,
}

/// The category a tag byte names, or `None` outside the alphabet.
pub open spec fn spec_category(c: u8) -> Option<DataTypeCategory> {
    if c == TAG_EMPTY_OBJECT || c == TAG_SMALL_OBJECT || c == TAG_BIG_OBJECT || c
        == TAG_LONG_OBJECT {
        Some(DataTypeCategory::Object)
    } else if c == TAG_EMPTY_ARRAY || c == TAG_SMALL_ARRAY || c == TAG_BIG_ARRAY || c
        == TAG_LONG_ARRAY {
        Some(DataTypeCategory::Array)
    } else if c == TAG_EMPTY_STRING || c == TAG_SMALL_STRING || c == TAG_BIG_STRING || c
        == TAG_LONG_STRING {
        Some(DataTypeCategory::String)
    } else if c == TAG_INT_ZERO || c == TAG_I8 || c == TAG_U8 || c == TAG_I16 || c == TAG_U16 || c
        == TAG_I32 || c == TAG_U32 || c == TAG_I64 || c == TAG_U64 {
        Some(DataTypeCategory::Integer)
    } else if c == TAG_FLOAT_ZERO || c == TAG_F32 || c == TAG_F64 {
        Some(DataTypeCategory::Float)
    } else if c == TAG_FALSE || c == TAG_TRUE {
        Some(DataTypeCategory::Bool)
    } else if c == TAG_NULL {
        Some(DataTypeCategory::Null)
    } else {
        None
    }
}

/// The width of the size field after a container or string tag.
pub open spec fn spec_size_width(c: u8) -> u8 {
    if c == TAG_SMALL_OBJECT || c == TAG_SMALL_ARRAY || c == TAG_SMALL_STRING {
        1
    } else if c == TAG_BIG_OBJECT || c == TAG_BIG_ARRAY || c == TAG_BIG_STRING {
        2
    } else if c == TAG_LONG_OBJECT || c == TAG_LONG_ARRAY || c == TAG_LONG_STRING {
        4
    } else {
        0
    }
}

/// Reading a size field of the given width at `i`: the size and the position
/// after it, or the error the read reports.
pub open spec fn dec_size(s: Seq<u8>, i: int, width: u8) -> Result<(int, int), CodecError> {
    if width == 0 {
        Ok((0, i))
    } else if width == 1 {
        if i + 1 > s.len() {
            Err(CodecError::ShortRead)
        } else {
            Ok((s[i] as int, i + 1))
        }
    } else if width == 2 {
        if i + 2 > s.len() {
            Err(CodecError::ShortRead)
        } else {
            Ok((le2_val(s.subrange(i, i + 2)) as int, i + 2))
        }
    } else {
        if i + 4 > s.len() {
            Err(CodecError::ShortRead)
        } else {
            Ok((le4_val(s.subrange(i, i + 4)) as int, i + 4))
        }
    }
}

/// The tag and size field written for a container or string of `size`
/// elements or bytes: the smallest class whose field holds the size.
pub open spec fn tag_and_size(size: int, chars: (u8, u8, u8, u8)) -> Result<Seq<u8>, CodecError> {
    if size == 0 {
        Ok(seq![chars.0])
    } else if size <= 0xFF {
        Ok(seq![chars.1, size as u8])
    } else if size <= 0xFFFF {
        Ok(seq![chars.2] + le2_bytes(size as u16))
    } else if size <= 0xFFFFFFFF {
        Ok(seq![chars.3] + le4_bytes(size as u32))
    } else {
        Err(CodecError::SizeTooBig)
    }
}

impl DataType {
    /// Decodes a tag byte, or reports `BadTypeTag` outside the alphabet.
    pub fn from_char(c: u8) -> (r: Result<DataType, CodecError>)
        ensures
            match r {
                Ok(dt) => spec_category(c) == Some(dt.category) && dt.char == c
                    && dt.size_field_bytes == spec_size_width(c),
                Err(e) => e == CodecError::BadTypeTag && spec_category(c) is None,
            },
    {
        match spec_category_exec(c) {
            Some(category) => Ok(
                DataType { char: c, category, size_field_bytes: spec_size_width_exec(c) },
            ),
            None => Err(CodecError::BadTypeTag),
        }
    }

    /// Reads this tag's size field from the stream.
    pub fn read_type_size(&self, bytes: &mut ByteStream) -> (r: Result<usize, CodecError>)
        requires
            old(bytes).wf(),
            self.size_field_bytes == 0 || self.size_field_bytes == 1 || self.size_field_bytes == 2
                || self.size_field_bytes == 4,
        ensures
            final(bytes).wf(),
            final(bytes).data() == old(bytes).data(),
            match r {
                Ok(n) => dec_size(old(bytes).data(), old(bytes).cursor(), self.size_field_bytes)
                    == Ok::<_, CodecError>((n as int, final(bytes).cursor())),
                Err(e) => dec_size(old(bytes).data(), old(bytes).cursor(), self.size_field_bytes)
                    == Err::<(int, int), _>(e) && final(bytes).cursor() == old(bytes).cursor(),
            },
    {
        if self.size_field_bytes == 0 {
            Ok(0)
        } else if self.size_field_bytes == 1 {
            match bytes.read_u8() {
                Ok(n) => Ok(n as usize),
                Err(e) => Err(e),
            }
        } else if self.size_field_bytes == 2 {
            match bytes.read_u16() {
                Ok(n) => Ok(n as usize),
                Err(e) => Err(e),
            }
        } else {
            match bytes.read_u32() {
                Ok(n) => Ok(n as usize),
                Err(e) => Err(e),
            }
        }
    }

    /// Writes the tag of the smallest size class that holds `size`, then the
    /// size field itself; reports `SizeTooBig` past the largest class.
    pub fn write_char_and_size_class(
        size: usize,
        data_type_chars: &[u8; 4],
        bytes: &mut ByteStream,
    ) -> (r: Result<(), CodecError>)
        requires
            old(bytes).wf(),
            old(bytes).at_end(),
        ensures
            final(bytes).at_end(),
            match r {
                Ok(()) => (match tag_and_size(
                    size as int,
                    (
                        data_type_chars@[0],
                        data_type_chars@[1],
                        data_type_chars@[2],
                        data_type_chars@[3],
                    ),
                ) {
                    Ok(h) => final(bytes).data() == old(bytes).data() + h,
                    Err(_) => false,
                }),
                Err(e) => tag_and_size(
                    size as int,
                    (
                        data_type_chars@[0],
                        data_type_chars@[1],
                        data_type_chars@[2],
                        data_type_chars@[3],
                    ),
                ) == Err::<Seq<u8>, _>(e) && final(bytes).data() == old(bytes).data(),
            },
    {
        if size == 0 {
            bytes.write_u8(data_type_chars[0]);
            proof {
                assert(final(bytes).data() =~= old(bytes).data() + seq![data_type_chars@[0]]);
            }
            Ok(())
        } else if size <= 0xFF {
            bytes.write_u8(data_type_chars[1]);
            bytes.write_u8(size as u8);
            proof {
                assert(final(bytes).data() =~= old(bytes).data() + seq![
                    data_type_chars@[1],
                    size as u8,
                ]);
            }
            Ok(())
        } else if size <= 0xFFFF {
            bytes.write_u8(data_type_chars[2]);
            bytes.write_u16(size as u16);
            proof {
                assert(final(bytes).data() =~= old(bytes).data() + (seq![data_type_chars@[2]]
                    + le2_bytes(size as u16)));
            }
            Ok(())
        } else if size <= 0xFFFFFFFF {
            bytes.write_u8(data_type_chars[3]);
            bytes.write_u32(size as u32);
            proof {
                assert(final(bytes).data() =~= old(bytes).data() + (seq![data_type_chars@[3]]
                    + le4_bytes(size as u32)));
            }
            Ok(())
        } else {
            Err(CodecError::SizeTooBig)
        }
    }
}

/// The size-field width of a tag byte, as a machine value.
fn spec_size_width_exec(c: u8) -> (r: u8)
    ensures
        r == spec_size_width(c),
{
    if c == TAG_SMALL_OBJECT || c == TAG_SMALL_ARRAY || c == TAG_SMALL_STRING {
        1
    } else if c == TAG_BIG_OBJECT || c == TAG_BIG_ARRAY || c == TAG_BIG_STRING {
        2
    } else if c == TAG_LONG_OBJECT || c == TAG_LONG_ARRAY || c == TAG_LONG_STRING {
        4
    } else {
        0
    }
}

/// The category of a tag byte, as a machine value.
fn spec_category_exec(c: u8) -> (r: Option<DataTypeCategory>)
    ensures
        r == spec_category(c),
{
    if c == TAG_EMPTY_OBJECT || c == TAG_SMALL_OBJECT || c == TAG_BIG_OBJECT || c
        == TAG_LONG_OBJECT {
        Some(DataTypeCategory::Object)
    } else if c == TAG_EMPTY_ARRAY || c == TAG_SMALL_ARRAY || c == TAG_BIG_ARRAY || c
        == TAG_LONG_ARRAY {
        Some(DataTypeCategory::Array)
    } else if c == TAG_EMPTY_STRING || c == TAG_SMALL_STRING || c == TAG_BIG_STRING || c
        == TAG_LONG_STRING {
        Some(DataTypeCategory::String)
    } else if c == TAG_INT_ZERO || c == TAG_I8 || c == TAG_U8 || c == TAG_I16 || c == TAG_U16 || c
        == TAG_I32 || c == TAG_U32 || c == TAG_I64 || c == TAG_U64 {
        Some(DataTypeCategory::Integer)
    } else if c == TAG_FLOAT_ZERO || c == TAG_F32 || c == TAG_F64 {
        Some(DataTypeCategory::Float)
    } else if c == TAG_FALSE || c == TAG_TRUE {
        Some(DataTypeCategory::Bool)
    } else if c == TAG_NULL {
        Some(DataTypeCategory::Null)
    } else {
        None
    }
}

} // verus!
