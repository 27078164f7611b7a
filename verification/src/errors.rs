//! The error kinds that codec operations can report.

use vstd::prelude::*;

verus! {

/// Every fallible operation of the codec reports one of these kinds.
#[derive(Clone, Copy, Debug, PartialEq, Eq, Structural)]
pub enum CodecError {
    /// Fewer bytes remain in the stream than a read asked for.
    ShortRead,
    /// A seek target lies outside the stream.
    BadSeek,
    /// Bytes that should hold UTF-8 text do not.
    InvalidUtf8,
    /// A container or string exceeds the largest encodable size.
    SizeTooBig,
    /// The frame does not start with the expected magic bytes.
    BadMagic,
    /// The frame's version field is newer than this codec.
    UnsupportedVersion,
    /// A value's type-tag byte is not in the tag alphabet.
    BadTypeTag,
    /// A key record's first byte is the reserved value.
    BadKeyTag,
    /// A variable-length integer is malformed.
    BadVarint,
    /// A serialized keys table has a non-zero configuration byte.
    UnsupportedTableConfig,
    /// A key is too long for its encoding.
    KeyTooLong,
    /// The local keys table is at its capacity.
    TableFull,
    /// A number is a NaN or an infinity.
    NonFiniteNumber,
    /// A key index points outside its table.
    BadIndex,
    /// An object holds the same key twice.
    DuplicateKey,
    /// The block compressor failed.
    CompressorFailure,
    /// A compressed payload would expand past the decoder's ceiling.
    DecompressionTooLarge,
}

impl CodecError {
    /// A short diagnostic text for the error kind.
    pub fn message(&self) -> &'static str {
        match self {
            CodecError::ShortRead => "short read",
            CodecError::BadSeek => "bad seek",
            CodecError::InvalidUtf8 => "invalid utf-8",
            CodecError::SizeTooBig => "size too big",
            CodecError::BadMagic => "bad magic",
            CodecError::UnsupportedVersion => "unsupported version",
            CodecError::BadTypeTag => "bad type tag",
            CodecError::BadKeyTag => "bad key tag",
            CodecError::BadVarint => "bad varint",
            CodecError::UnsupportedTableConfig => "unsupported table config",
            CodecError::KeyTooLong => "key too long",
            CodecError::TableFull => "table full",
            CodecError::NonFiniteNumber => "non-finite number",
            CodecError::BadIndex => "bad index",
            CodecError::DuplicateKey => "duplicate key",
            CodecError::CompressorFailure => "compressor failure",
            CodecError::DecompressionTooLarge => "decompression too large",
        }
    }
}

} // verus!
