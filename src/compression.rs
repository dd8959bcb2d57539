//! Chunk compression: the method nibble, and the four schemes behind it.

use vstd::prelude::*;
use vstd::slice::slice_subrange;
use vstd::slice::slice_to_vec;
use std::io::Read;
use std::io::Write;
use crate::error::LsfError;

verus! {

/// How a chunk's bytes are stored.
#[derive(Debug, Clone, Copy, PartialEq, Eq, Structural)]
pub enum CompressionMethod {
    Uncompressed,
    Zlib,
    Lz4,
    Zstd,
}

/// The method that a flag value in [0, 3] stands for.
pub open spec fn method_of(value: u32) -> Option<CompressionMethod> {
    if value == 0 {
        Some(CompressionMethod::Uncompressed)
    } else if value == 1 {
        Some(CompressionMethod::Zlib)
    } else if value == 2 {
        Some(CompressionMethod::Lz4)
    } else if value == 3 {
        Some(CompressionMethod::Zstd)
    } else {
        None
    }
}

/// The method that a file's flag word selects: its low nibble, with an
/// unknown nibble read as uncompressed.
pub open spec fn method_of_flags(flags: u32) -> CompressionMethod {
    match method_of(flags & 0x0f) {
        Some(m) => m,
        None => CompressionMethod::Uncompressed,
    }
}

/// The flag value recorded for a method.
pub open spec fn method_code(m: CompressionMethod) -> u32 {
    match m {
        CompressionMethod::Uncompressed => 0,
        CompressionMethod::Zlib => 1,
        CompressionMethod::Lz4 => 2,
        CompressionMethod::Zstd => 3,
    }
}

impl CompressionMethod {
    pub fn from_u32(value: u32) -> (r: Option<Self>)
        ensures
            r == method_of(value),
    {
        match value {
            0 => Some(Self::Uncompressed),
            1 => Some(Self::Zlib),
            2 => Some(Self::Lz4),
            3 => Some(Self::Zstd),
            _ => None,
        }
    }

    /// The flag value recorded for this method.
    pub fn code(&self) -> (r: u32)
        ensures
            r == method_code(*self),
    {
        match self {
            Self::Uncompressed => 0,
            Self::Zlib => 1,
            Self::Lz4 => 2,
            Self::Zstd => 3,
        }
    }
}

/// The method selected by the low nibble of a flag word.
pub fn get_compression_method(flags: u32) -> (r: CompressionMethod)
    ensures
        r == method_of_flags(flags),
{
    match CompressionMethod::from_u32(flags & 0x0f) {
        Some(m) => m,
        None => CompressionMethod::Uncompressed,
    }
}

/// What zlib decoding yields for a byte run, or `None` where it fails.
pub uninterp spec fn zlib_inflate(data: Seq<u8>) -> Option<Seq<u8>>;

/// What LZ4 frame decoding yields for a byte run, or `None` where it fails.
pub uninterp spec fn lz4_frame_decode(data: Seq<u8>) -> Option<Seq<u8>>;

/// What LZ4 block decoding with a given output size yields, or `None`.
pub uninterp spec fn lz4_block_decode(data: Seq<u8>, size: nat) -> Option<Seq<u8>>;

/// What Zstandard decoding yields for a byte run, or `None` where it fails.
pub uninterp spec fn zstd_decode(data: Seq<u8>) -> Option<Seq<u8>>;

/// What zlib encoding at a level yields for a byte run.
pub uninterp spec fn zlib_deflate(data: Seq<u8>, level: u32) -> Seq<u8>;

/// What LZ4 frame encoding yields for a byte run.
pub uninterp spec fn lz4_frame_encode(data: Seq<u8>) -> Seq<u8>;

/// What Zstandard encoding at a level yields for a byte run.
pub uninterp spec fn zstd_encode(data: Seq<u8>, level: i32) -> Seq<u8>;

/// Relies on flate2's `ZlibDecoder` read to the end: a function of the bytes.
#[verifier::external_body]
fn inflate_zlib(data: &[u8]) -> (r: Option<Vec<u8>>)
    ensures
        match r {
            Some(v) => zlib_inflate(data@) == Some(v@),
            None => zlib_inflate(data@) is None,
        },
{
    let mut out = Vec::new();
    match flate2::read::ZlibDecoder::new(data).read_to_end(&mut out) {
        Ok(_) => Some(out),
        Err(_) => None,
    }
}

/// Relies on lz4_flex's `FrameDecoder` read to the end: a function of the bytes.
#[verifier::external_body]
fn decode_lz4_frame(data: &[u8]) -> (r: Option<Vec<u8>>)
    ensures
        match r {
            Some(v) => lz4_frame_decode(data@) == Some(v@),
            None => lz4_frame_decode(data@) is None,
        },
{
    let mut out = Vec::new();
    match lz4_flex::frame::FrameDecoder::new(data).read_to_end(&mut out) {
        Ok(_) => Some(out),
        Err(_) => None,
    }
}

/// The shortest run of 0xFF bytes that could overflow an LZ4 block length
/// field: `lz4_flex::decompress` sums a field's bytes into a `u32`, 255 for
/// each 0xFF byte and less for the last one, so a field over a shorter run
/// sums to at most `255 * (LZ4_FF_RUN_LIMIT - 1) + 254`, below `u32::MAX`.
pub const LZ4_FF_RUN_LIMIT: usize = 16_843_009;

/// `len` bytes of 0xFF from `i`.
pub open spec fn ff_run_at(d: Seq<u8>, i: int, len: int) -> bool {
    0 <= i && i + len <= d.len() && forall|j: int| i <= j < i + len ==> d[j] == 0xff
}

/// The run holds `LZ4_FF_RUN_LIMIT` 0xFF bytes in a row somewhere.
pub open spec fn has_long_ff_run(d: Seq<u8>) -> bool {
    exists|i: int| #[trigger] ff_run_at(d, i, LZ4_FF_RUN_LIMIT as int)
}

/// Whether the run holds `LZ4_FF_RUN_LIMIT` 0xFF bytes in a row.
fn long_ff_run(d: &[u8]) -> (r: bool)
    ensures
        r == has_long_ff_run(d@),
{
    let n = d.len();
    let mut i: usize = 0;
    let mut cur: usize = 0;
    while i < n
        invariant
            n == d@.len(),
            i <= n,
            cur <= i,
            cur < LZ4_FF_RUN_LIMIT,
            forall|j: int| i - cur <= j < i ==> d@[j] == 0xff,
            cur < i ==> d@[i - cur - 1] != 0xff,
            forall|s: int| 0 <= s && s + LZ4_FF_RUN_LIMIT <= i ==> !#[trigger] ff_run_at(d@, s, LZ4_FF_RUN_LIMIT as int),
        decreases n - i,
    {
        if d[i] == 0xff {
            if cur + 1 == LZ4_FF_RUN_LIMIT {
                proof {
                    let s0 = (i + 1 - LZ4_FF_RUN_LIMIT) as int;
                    assert(ff_run_at(d@, s0, LZ4_FF_RUN_LIMIT as int));
                }
                return true;
            }
            proof {
                assert forall|s: int| 0 <= s && s + LZ4_FF_RUN_LIMIT <= i + 1 implies !#[trigger] ff_run_at(d@, s, LZ4_FF_RUN_LIMIT as int) by {
                    if s + LZ4_FF_RUN_LIMIT == i + 1 && ff_run_at(d@, s, LZ4_FF_RUN_LIMIT as int) {
                        assert(d@[i - cur - 1] == 0xff);
                    }
                }
            }
            cur = cur + 1;
        } else {
            proof {
                assert forall|s: int| 0 <= s && s + LZ4_FF_RUN_LIMIT <= i + 1 implies !#[trigger] ff_run_at(d@, s, LZ4_FF_RUN_LIMIT as int) by {
                    if s + LZ4_FF_RUN_LIMIT == i + 1 && ff_run_at(d@, s, LZ4_FF_RUN_LIMIT as int) {
                        assert(d@[i as int] == 0xff);
                    }
                }
            }
            cur = 0;
        }
        i = i + 1;
    }
    false
}

/// Relies on `lz4_flex::decompress`: a function of the bytes and the size.
/// Its length fields are summed into a `u32`, hence no run of
/// `LZ4_FF_RUN_LIMIT` 0xFF bytes.
#[verifier::external_body]
fn decode_lz4_block(data: &[u8], size: usize) -> (r: Option<Vec<u8>>)
    requires
        !has_long_ff_run(data@),
    ensures
        match r {
            Some(v) => lz4_block_decode(data@, size as nat) == Some(v@),
            None => lz4_block_decode(data@, size as nat) is None,
        },
{
    lz4_flex::decompress(data, size).ok()
}

/// Relies on `zstd::decode_all`: a function of the bytes.
#[verifier::external_body]
fn decode_zstd(data: &[u8]) -> (r: Option<Vec<u8>>)
    ensures
        match r {
            Some(v) => zstd_decode(data@) == Some(v@),
            None => zstd_decode(data@) is None,
        },
{
    zstd::decode_all(data).ok()
}

/// Relies on flate2's `ZlibEncoder` at `Compression::new(level)`, which
/// asserts a level of at most 10 in debug builds; writing into a vector does
/// not fail.
#[verifier::external_body]
fn deflate_zlib(data: &[u8], level: u32) -> (r: Option<Vec<u8>>)
    requires
        level <= 9,
    ensures
        r is Some,
        r matches Some(v) ==> v@ == zlib_deflate(data@, level),
{
    let mut encoder = flate2::write::ZlibEncoder::new(Vec::new(), flate2::Compression::new(level));
    match encoder.write_all(data) {
        Ok(()) => encoder.finish().ok(),
        Err(_) => None,
    }
}

/// Relies on lz4_flex's `FrameEncoder` writing into a vector, which does not
/// fail (the frame declares no content size to check).
#[verifier::external_body]
fn encode_lz4_frame(data: &[u8]) -> (r: Option<Vec<u8>>)
    ensures
        r is Some,
        r matches Some(v) ==> v@ == lz4_frame_encode(data@),
{
    let mut encoder = lz4_flex::frame::FrameEncoder::new(Vec::new());
    match encoder.write_all(data) {
        Ok(()) => encoder.finish().ok(),
        Err(_) => None,
    }
}

/// Relies on `zstd::encode_all` at a level (zstd clamps the level to its
/// bounds); writing into a vector does not fail.
#[verifier::external_body]
fn encode_zstd(data: &[u8], level: i32) -> (r: Option<Vec<u8>>)
    ensures
        r is Some,
        r matches Some(v) ==> v@ == zstd_encode(data@, level),
{
    zstd::encode_all(data, level).ok()
}

/// The LZ4 frame magic `04 22 4D 18` opens the run.
pub open spec fn is_lz4_frame(data: Seq<u8>) -> bool {
    data.len() >= 4 && data[0] == 0x04 && data[1] == 0x22 && data[2] == 0x4d && data[3] == 0x18
}

/// What decoding a run with a method yields, or `None` where it fails.
/// LZ4 takes the frame format where the run opens with its magic, and the
/// block format, which needs the output size, otherwise; a block run that
/// holds `LZ4_FF_RUN_LIMIT` 0xFF bytes in a row is refused.
pub open spec fn decoded(data: Seq<u8>, method: CompressionMethod, expected_size: nat) -> Option<Seq<u8>> {
    match method {
        CompressionMethod::Uncompressed => Some(data),
        CompressionMethod::Zlib => zlib_inflate(data),
        CompressionMethod::Lz4 => if is_lz4_frame(data) {
            lz4_frame_decode(data)
        } else if !has_long_ff_run(data) {
            lz4_block_decode(data, expected_size)
        } else {
            None
        },
        CompressionMethod::Zstd => zstd_decode(data),
    }
}

/// The zlib level that a requested level stands for: clamped to 0 through 9.
pub open spec fn zlib_level(level: i32) -> u32 {
    if level < 0 {
        0
    } else if level > 9 {
        9
    } else {
        level as u32
    }
}

/// What encoding a run with a method at a level yields.
pub open spec fn encoded(data: Seq<u8>, method: CompressionMethod, level: i32) -> Seq<u8> {
    match method {
        CompressionMethod::Uncompressed => data,
        CompressionMethod::Zlib => zlib_deflate(data, zlib_level(level)),
        CompressionMethod::Lz4 => lz4_frame_encode(data),
        CompressionMethod::Zstd => zstd_encode(data, level),
    }
}

/// Decodes a run with a method; fails with `CorruptChunk` where the scheme does.
pub fn decompress(data: &[u8], method: CompressionMethod, expected_size: usize) -> (r: Result<Vec<u8>, LsfError>)
    ensures
        match r {
            Ok(v) => decoded(data@, method, expected_size as nat) == Some(v@),
            Err(e) => decoded(data@, method, expected_size as nat) is None && e == LsfError::CorruptChunk,
        },
{
    let out = match method {
        CompressionMethod::Uncompressed => Some(slice_to_vec(data)),
        CompressionMethod::Zlib => inflate_zlib(data),
        CompressionMethod::Lz4 => {
            if data.len() >= 4 && data[0] == 0x04 && data[1] == 0x22 && data[2] == 0x4d && data[3] == 0x18 {
                decode_lz4_frame(data)
            } else {
                if !long_ff_run(data) {
                    decode_lz4_block(data, expected_size)
                } else {
                    None
                }
            }
        },
        CompressionMethod::Zstd => decode_zstd(data),
    };
    match out {
        Some(v) => Ok(v),
        None => Err(LsfError::CorruptChunk),
    }
}

/// Encodes a run with a method at a level (for zlib clamped to 0 through 9).
pub fn compress(data: &[u8], method: CompressionMethod, level: i32) -> (r: Result<Vec<u8>, LsfError>)
    ensures
        r matches Ok(v) && v@ == encoded(data@, method, level),
{
    let out = match method {
        CompressionMethod::Uncompressed => Some(slice_to_vec(data)),
        CompressionMethod::Zlib => {
            let zl: u32 = if level < 0 {
                0
            } else if level > 9 {
                9
            } else {
                level as u32
            };
            deflate_zlib(data, zl)
        },
        CompressionMethod::Lz4 => encode_lz4_frame(data),
        CompressionMethod::Zstd => encode_zstd(data, level),
    };
    match out {
        Some(v) => Ok(v),
        None => Err(LsfError::CorruptChunk),
    }
}

/// The outcome of reading one chunk that starts at `pos`: the bytes it holds
/// and the position after it.
pub open spec fn chunk_outcome(
    data: Seq<u8>,
    pos: int,
    compressed: int,
    uncompressed: int,
    method: CompressionMethod,
) -> Result<(Seq<u8>, int), LsfError> {
    if compressed == 0 && uncompressed == 0 {
        Ok((Seq::empty(), pos))
    } else if compressed == 0 {
        if pos + uncompressed > data.len() {
            Err(LsfError::TruncatedChunk)
        } else {
            Ok((data.subrange(pos, pos + uncompressed), pos + uncompressed))
        }
    } else if pos + compressed > data.len() {
        Err(LsfError::TruncatedChunk)
    } else {
        match decoded(data.subrange(pos, pos + compressed), method, uncompressed as nat) {
            Some(out) => if out.len() == uncompressed {
                Ok((out, pos + compressed))
            } else {
                Err(LsfError::CorruptChunk)
            },
            None => Err(LsfError::CorruptChunk),
        }
    }
}

/// Reads the chunk that starts at `pos`. A zero compressed size with a
/// nonzero uncompressed size marks raw bytes, whatever the method.
pub fn read_and_decompress_chunk(
    data: &[u8],
    pos: usize,
    compressed_size: u32,
    uncompressed_size: u32,
    method: CompressionMethod,
) -> (r: Result<(Vec<u8>, usize), LsfError>)
    requires
        pos <= data@.len(),
    ensures
        match chunk_outcome(data@, pos as int, compressed_size as int, uncompressed_size as int, method) {
            Ok((bytes, next)) => (r matches Ok((v, p)) && v@ == bytes && p as int == next),
            Err(e) => r == Err::<(Vec<u8>, usize), LsfError>(e),
        },
{
    let c = compressed_size as usize;
    let u = uncompressed_size as usize;
    if c == 0 && u == 0 {
        return Ok((Vec::new(), pos));
    }
    if c == 0 {
        if u > data.len() - pos {
            return Err(LsfError::TruncatedChunk);
        }
        let raw = slice_to_vec(slice_subrange(data, pos, pos + u));
        return Ok((raw, pos + u));
    }
    if c > data.len() - pos {
        return Err(LsfError::TruncatedChunk);
    }
    let out = decompress(slice_subrange(data, pos, pos + c), method, u)?;
    if out.len() != u {
        return Err(LsfError::CorruptChunk);
    }
    Ok((out, pos + c))
}

} // verus!
