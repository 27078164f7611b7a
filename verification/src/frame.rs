//! The file-level frame: the magic-and-config header, the optional block
//! compression of the payload, and the whole-document encode and decode
//! entry points.

use vstd::prelude::*;
use crate::byte_stream::ByteStream;
use crate::codec::{dec_value, enc_value, read_value, write_value};
use crate::errors::CodecError;
use crate::json::{JVal, JsonValue};
use crate::keys_table::{parse_table, GlobalKeysTable, KeysTables};

verus! {

/// The format version this codec writes and the newest it reads.
pub const CURRENT_VERSION: u8 = 0;

/// The first magic byte, ASCII `F`.
pub const MAGIC_0: u8 = 0x46;

/// The second magic byte, ASCII `J`.
pub const MAGIC_1: u8 = 0x4A;

/// What the frame header carries: a version, and the feature bits for a
/// legacy separate local table and for block compression.
pub struct Config {
    pub version: u8,
    pub uses_local_keys_table: bool,
    pub is_zstd_compressed: bool,
}

/// The configuration byte of a header.
pub open spec fn config_byte(version: u8, bit4: bool, bit5: bool) -> u8 {
    ((version as int) + (if bit4 {
        0x10int
    } else {
        0int
    }) + (if bit5 {
        0x20int
    } else {
        0int
    })) as u8
}

/// The three header bytes this encoder writes.
pub open spec fn header_bytes(is_compressed: bool) -> Seq<u8> {
    seq![MAGIC_0, MAGIC_1, config_byte(CURRENT_VERSION, false, is_compressed)]
}

/// Skipping extension bytes from `i`: bytes keep being consumed while their
/// continuation bit is set, and the first byte without it is consumed too.
pub open spec fn skip_extension(s: Seq<u8>, i: int) -> Result<int, CodecError>
    decreases s.len() - i,
{
    if i + 1 > s.len() {
        Err(CodecError::ShortRead)
    } else if s[i] >= 0x80 {
        skip_extension(s, i + 1)
    } else {
        Ok(i + 1)
    }
}

/// Reading a header at `i`: the version and the two feature bits, and the
/// position after the header and any extension bytes.
pub open spec fn parse_header(s: Seq<u8>, i: int) -> Result<((u8, bool, bool), int), CodecError> {
    if i + 2 > s.len() {
        Err(CodecError::ShortRead)
    } else if s[i] != MAGIC_0 || s[i + 1] != MAGIC_1 {
        Err(CodecError::BadMagic)
    } else if i + 3 > s.len() {
        Err(CodecError::ShortRead)
    } else {
        let cfg = s[i + 2] as int;
        let version = (cfg % 0x10) as u8;
        let bit4 = cfg / 0x10 % 2 == 1;
        let bit5 = cfg / 0x20 % 2 == 1;
        let bit7 = cfg / 0x80 % 2 == 1;
        if version > CURRENT_VERSION {
            Err(CodecError::UnsupportedVersion)
        } else if bit7 {
            match skip_extension(s, i + 3) {
                Ok(j) => Ok(((version, bit4, bit5), j)),
                Err(e) => Err(e),
            }
        } else {
            Ok(((version, bit4, bit5), i + 3))
        }
    }
}

impl Config {
    /// A current-version header with the given feature bits.
    pub fn make(uses_local_keys_table: bool, is_zstd_compressed: bool) -> (r: Config)
        ensures
            r.version == CURRENT_VERSION,
            r.uses_local_keys_table == uses_local_keys_table,
            r.is_zstd_compressed == is_zstd_compressed,
    {
        Config { version: CURRENT_VERSION, uses_local_keys_table, is_zstd_compressed }
    }

    /// Reads and checks a header, consuming any extension bytes.
    #[verifier::loop_isolation(false)]
    pub fn read_header(bytes: &mut ByteStream) -> (r: Result<Config, CodecError>)
        requires
            old(bytes).wf(),
        ensures
            final(bytes).wf(),
            final(bytes).data() == old(bytes).data(),
            match r {
                Ok(c) => parse_header(old(bytes).data(), old(bytes).cursor()) == Ok::<
                    _,
                    CodecError,
                >(((c.version, c.uses_local_keys_table, c.is_zstd_compressed), final(bytes).cursor())),
                Err(e) => parse_header(old(bytes).data(), old(bytes).cursor()) == Err::<
                    ((u8, bool, bool), int),
                    _,
                >(e),
            },
    {
        let magic = match bytes.read2() {
            Ok(m) => m,
            Err(e) => {
                return Err(e);
            },
        };
        if magic[0] != MAGIC_0 || magic[1] != MAGIC_1 {
            return Err(CodecError::BadMagic);
        }
        let cfg = match bytes.read_u8() {
            Ok(c) => c,
            Err(e) => {
                return Err(e);
            },
        };
        let version = cfg % 0x10;
        let uses_local_keys_table = cfg / 0x10 % 2 == 1;
        let is_zstd_compressed = cfg / 0x20 % 2 == 1;
        let has_continuation = cfg / 0x80 % 2 == 1;
        if version > CURRENT_VERSION {
            return Err(CodecError::UnsupportedVersion);
        }
        if has_continuation {
            loop
                invariant
                    bytes.wf(),
                    bytes.data() == old(bytes).data(),
                    old(bytes).cursor() + 3 <= bytes.cursor() <= bytes.data().len(),
                    skip_extension(bytes.data(), old(bytes).cursor() + 3) == skip_extension(
                        bytes.data(),
                        bytes.cursor(),
                    ),
                decreases bytes.data().len() - bytes.cursor(),
            {
                let ext = match bytes.read_u8() {
                    Ok(b) => b,
                    Err(e) => {
                        return Err(e);
                    },
                };
                if ext < 0x80 {
                    break ;
                }
            }
        }
        Ok(Config { version, uses_local_keys_table, is_zstd_compressed })
    }

    /// Writes the magic bytes and the configuration byte.
    pub fn write_header(&self, bytes: &mut ByteStream)
        requires
            old(bytes).wf(),
            old(bytes).at_end(),
            self.version <= 0x0F,
        ensures
            final(bytes).at_end(),
            final(bytes).data() == old(bytes).data() + seq![
                MAGIC_0,
                MAGIC_1,
                config_byte(self.version, self.uses_local_keys_table, self.is_zstd_compressed),
            ],
    {
        bytes.write2(&[MAGIC_0, MAGIC_1]);
        let mut cfg = self.version;
        if self.uses_local_keys_table {
            cfg = cfg + 0x10;
        }
        if self.is_zstd_compressed {
            cfg = cfg + 0x20;
        }
        bytes.write_u8(cfg);
        proof {
            assert([MAGIC_0, MAGIC_1]@ =~= seq![MAGIC_0, MAGIC_1]);
            assert(final(bytes).data() =~= old(bytes).data() + seq![
                MAGIC_0,
                MAGIC_1,
                config_byte(self.version, self.uses_local_keys_table, self.is_zstd_compressed),
            ]);
        }
    }
}

/// What the block compressor returns for a byte block at a level.
pub uninterp spec fn zstd_compress_of(data: Seq<u8>, level: int) -> Seq<u8>;

/// What block decompression under a capacity ceiling returns: the original
/// block, or nothing when the input is not a block that fits the ceiling.
pub uninterp spec fn zstd_decompress_of(data: Seq<u8>, capacity: nat) -> Option<Seq<u8>>;

/// Relies on `zstd::bulk::compress`: it compresses one block at the given
/// level, and `zstd::bulk::decompress` returns that block again under any
/// capacity that holds it.
#[verifier::external_body]
fn zstd_compress(data: &Vec<u8>, level: i32) -> (r: Option<Vec<u8>>)
    ensures
        match r {
            Some(c) => c@ == zstd_compress_of(data@, level as int) && (forall|cap: nat|
                data@.len() <= cap ==> zstd_decompress_of(c@, cap) == Some(data@)),
            None => true,
        },
{
    zstd::bulk::compress(data.as_slice(), level).ok()
}

/// Relies on `zstd::bulk::decompress`: it decompresses one block into at most
/// `capacity` bytes, and fails on anything else.
#[verifier::external_body]
fn zstd_decompress(data: &Vec<u8>, capacity: usize) -> (r: Option<Vec<u8>>)
    ensures
        match r {
            Some(d) => zstd_decompress_of(data@, capacity as nat) == Some(d@) && d@.len()
                <= capacity,
            None => zstd_decompress_of(data@, capacity as nat) is None,
        },
{
    zstd::bulk::decompress(data.as_slice(), capacity).ok()
}

/// The view of an optional borrowed byte vector.
pub open spec fn opt_bytes(o: Option<&Vec<u8>>) -> Option<Seq<u8>> {
    match o {
        Some(b) => Some(b@),
        None => None,
    }
}

/// The keys a side-channel global table holds: none at all, or the parsed
/// serialized table.
pub open spec fn spec_global_table(gtb: Option<Seq<u8>>) -> Result<Seq<Seq<char>>, CodecError> {
    match gtb {
        None => Ok(seq![]),
        Some(b) => parse_table(b),
    }
}

/// The bytes `encode` returns for a value, a global table, and a compression
/// setting, or the error it reports; a compressor failure is the one outcome
/// this function does not decide.
pub open spec fn spec_encode(v: JVal, gtb: Option<Seq<u8>>, level: Option<i32>) -> Result<
    Seq<u8>,
    CodecError,
> {
    match spec_global_table(gtb) {
        Err(e) => Err(e),
        Ok(gt) => match enc_value(v, gt, seq![]) {
            Err(e) => Err(e),
            Ok((payload, _)) => match level {
                None => Ok(header_bytes(false) + payload),
                Some(l) => Ok(header_bytes(true) + zstd_compress_of(payload, l as int)),
            },
        },
    }
}

/// The value `decode` returns for a byte sequence and a global table, or the
/// error it reports.
pub open spec fn spec_decode(b: Seq<u8>, gtb: Option<Seq<u8>>) -> Result<JVal, CodecError> {
    match parse_header(b, 0) {
        Err(e) => Err(e),
        Ok(((_version, _bit4, compressed), pos)) => {
            if compressed {
                let c = b.skip(pos);
                if c.len() > usize::MAX as int / 50 {
                    Err(CodecError::DecompressionTooLarge)
                } else {
                    match zstd_decompress_of(c, (c.len() * 50) as nat) {
                        None => Err(CodecError::DecompressionTooLarge),
                        Some(d) => match spec_global_table(gtb) {
                            Err(e) => Err(e),
                            Ok(gt) => match dec_value(d, 0, gt, seq![], (d.len() + 1) as nat) {
                                Err(e) => Err(e),
                                Ok((v, _, _)) => Ok(v),
                            },
                        },
                    }
                }
            } else {
                match spec_global_table(gtb) {
                    Err(e) => Err(e),
                    Ok(gt) => match dec_value(
                        b,
                        pos,
                        gt,
                        seq![],
                        (b.len() - pos + 1) as nat,
                    ) {
                        Err(e) => Err(e),
                        Ok((v, _, _)) => Ok(v),
                    },
                }
            }
        },
    }
}

/// Parses an optional serialized global table into tables for one codec run.
fn make_tables(global_keys_table_bytes: Option<&Vec<u8>>) -> (r: Result<KeysTables, CodecError>)
    ensures
        match r {
            Ok(t) => spec_global_table(opt_bytes(global_keys_table_bytes)) == Ok::<_, CodecError>(
                t.global(),
            ) && t.local() == Seq::<Seq<char>>::empty() && t.global().len() <= 0xFFFF,
            Err(e) => spec_global_table(opt_bytes(global_keys_table_bytes)) == Err::<
                Seq<Seq<char>>,
                _,
            >(e),
        },
{
    let global_table = match global_keys_table_bytes {
        Some(bts) => {
            let mut reader = ByteStream::make(bts);
            proof {
                crate::keys_table::lemma_parse_table_len(bts@);
            }
            match GlobalKeysTable::read_keys_table(&mut reader) {
                Ok(t) => Some(t),
                Err(e) => {
                    return Err(e);
                },
            }
        },
        None => None,
    };
    Ok(KeysTables::make(global_table))
}

/// Encodes a value into a framed byte sequence: the header, then the value
/// payload, block-compressed when a level is given.
pub fn encode(
    json: &JsonValue,
    global_keys_table_bytes: Option<&Vec<u8>>,
    compression_level: Option<i32>,
) -> (r: Result<Vec<u8>, CodecError>)
    ensures
        match r {
            Ok(b) => spec_encode(
                json@,
                opt_bytes(global_keys_table_bytes),
                compression_level,
            ) == Ok::<Seq<u8>, CodecError>(b@),
            Err(e) => spec_encode(json@, opt_bytes(global_keys_table_bytes), compression_level)
                == Err::<Seq<u8>, CodecError>(e) || (e == CodecError::CompressorFailure
                && compression_level is Some && spec_encode(
                json@,
                opt_bytes(global_keys_table_bytes),
                compression_level,
            ) is Ok),
        },
{
    let mut keys_table = match make_tables(global_keys_table_bytes) {
        Ok(t) => t,
        Err(e) => {
            return Err(e);
        },
    };
    let mut value_bytes = ByteStream::new();
    match write_value(json, &mut value_bytes, &mut keys_table) {
        Ok(()) => {},
        Err(e) => {
            return Err(e);
        },
    }
    let config = Config::make(false, compression_level.is_some());
    let mut out = ByteStream::new();
    config.write_header(&mut out);
    match compression_level {
        None => {
            out.write(value_bytes.as_bytes().as_slice());
            let r = out.as_bytes().clone();
            proof {
                assert(r@ =~= header_bytes(false) + value_bytes.data());
            }
            Ok(r)
        },
        Some(level) => {
            match zstd_compress(value_bytes.as_bytes(), level) {
                Some(compressed) => {
                    out.write(compressed.as_slice());
                    let r = out.as_bytes().clone();
                    proof {
                        assert(r@ =~= header_bytes(true) + zstd_compress_of(
                            value_bytes.data(),
                            level as int,
                        ));
                    }
                    Ok(r)
                },
                None => Err(CodecError::CompressorFailure),
            }
        },
    }
}

/// Decodes a framed byte sequence back to a value, decompressing the payload
/// when the header says it is compressed.
pub fn decode(frac_json_bytes: &Vec<u8>, global_keys_table_bytes: Option<&Vec<u8>>) -> (r: Result<
    JsonValue,
    CodecError,
>)
    ensures
        match r {
            Ok(v) => spec_decode(frac_json_bytes@, opt_bytes(global_keys_table_bytes)) == Ok::<
                JVal,
                CodecError,
            >(v@),
            Err(e) => spec_decode(frac_json_bytes@, opt_bytes(global_keys_table_bytes)) == Err::<
                JVal,
                CodecError,
            >(e),
        },
{
    let mut bytes = ByteStream::make(frac_json_bytes);
    let config = match Config::read_header(&mut bytes) {
        Ok(c) => c,
        Err(e) => {
            return Err(e);
        },
    };
    if config.is_zstd_compressed {
        let compressed = match bytes.read_remaining() {
            Ok(c) => c,
            Err(e) => {
                return Err(e);
            },
        };
        if compressed.len() > usize::MAX / 50 {
            return Err(CodecError::DecompressionTooLarge);
        }
        let capacity = compressed.len() * 50;
        let decompressed = match zstd_decompress(&compressed, capacity) {
            Some(d) => d,
            None => {
                return Err(CodecError::DecompressionTooLarge);
            },
        };
        let mut keys_table = match make_tables(global_keys_table_bytes) {
            Ok(t) => t,
            Err(e) => {
                return Err(e);
            },
        };
        let mut payload = ByteStream::make(&decompressed);
        match read_value(&mut payload, &mut keys_table) {
            Ok(v) => Ok(v),
            Err(e) => Err(e),
        }
    } else {
        let mut keys_table = match make_tables(global_keys_table_bytes) {
            Ok(t) => t,
            Err(e) => {
                return Err(e);
            },
        };
        match read_value(&mut bytes, &mut keys_table) {
            Ok(v) => Ok(v),
            Err(e) => Err(e),
        }
    }
}

} // verus!
