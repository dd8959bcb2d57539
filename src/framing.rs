//! The file framing: header, metadata block and the five chunks.

use vstd::prelude::*;
use vstd::slice::slice_subrange;
use vstd::slice::slice_to_vec;
use crate::bytes::{u32_at, read_u32};
use crate::compression::{
    CompressionMethod, chunk_outcome, decoded, get_compression_method, method_of_flags,
    read_and_decompress_chunk, decompress,
};
use crate::error::LsfError;

verus! {

/// The oldest layout version that is read.
pub const MIN_VERSION: u32 = 2;

/// The four magic bytes "LSOF".
pub open spec fn magic() -> Seq<u8> {
    seq![0x4cu8, 0x53u8, 0x4fu8, 0x46u8]
}

/// The sizes of the chunks and the compression flags.
#[derive(Debug, Clone, Copy, PartialEq, Eq, Structural)]
pub struct LsfMetadata {
    pub strings_uncompressed_size: u32,
    pub strings_compressed_size: u32,
    pub keys_uncompressed_size: u32,
    pub keys_compressed_size: u32,
    pub nodes_uncompressed_size: u32,
    pub nodes_compressed_size: u32,
    pub attributes_uncompressed_size: u32,
    pub attributes_compressed_size: u32,
    pub values_uncompressed_size: u32,
    pub values_compressed_size: u32,
    pub compression_flags: u32,
}

/// The size of the metadata block: 56 bytes from version 6, 48 before.
pub open spec fn metadata_size(version: u32) -> int {
    if version >= 6 {
        56
    } else {
        48
    }
}

/// The metadata block stored at `pos`; before version 6 it has no Keys sizes.
pub open spec fn metadata_at(d: Seq<u8>, pos: int, version: u32) -> LsfMetadata {
    let k = if version >= 6 { 8int } else { 0int };
    LsfMetadata {
        strings_uncompressed_size: u32_at(d, pos),
        strings_compressed_size: u32_at(d, pos + 4),
        keys_uncompressed_size: if version >= 6 { u32_at(d, pos + 8) } else { 0 },
        keys_compressed_size: if version >= 6 { u32_at(d, pos + 12) } else { 0 },
        nodes_uncompressed_size: u32_at(d, pos + 8 + k),
        nodes_compressed_size: u32_at(d, pos + 12 + k),
        attributes_uncompressed_size: u32_at(d, pos + 16 + k),
        attributes_compressed_size: u32_at(d, pos + 20 + k),
        values_uncompressed_size: u32_at(d, pos + 24 + k),
        values_compressed_size: u32_at(d, pos + 28 + k),
        compression_flags: u32_at(d, pos + 32 + k),
    }
}

/// The raw chunks of a file.
pub struct Chunks {
    pub version: u32,
    pub strings: Vec<u8>,
    pub keys: Vec<u8>,
    pub nodes: Vec<u8>,
    pub attributes: Vec<u8>,
    pub values: Vec<u8>,
}

/// What the chunks of a file hold: version, Strings, Keys, Nodes,
/// Attributes and Values.
pub type ChunksView = (u32, Seq<u8>, Seq<u8>, Seq<u8>, Seq<u8>, Seq<u8>);

impl View for Chunks {
    type V = ChunksView;

    open spec fn view(&self) -> ChunksView {
        (self.version, self.strings@, self.keys@, self.nodes@, self.attributes@, self.values@)
    }
}

/// The Values payload: the rest of the stream, decoded with the file's method
/// where its compressed size is nonzero. Its declared sizes are advisory.
pub open spec fn values_outcome(rest: Seq<u8>, m: LsfMetadata) -> Result<Seq<u8>, LsfError> {
    if m.values_compressed_size == 0 {
        Ok(rest)
    } else {
        match decoded(rest, method_of_flags(m.compression_flags), m.values_uncompressed_size as nat) {
            Some(v) => Ok(v),
            None => Err(LsfError::CorruptChunk),
        }
    }
}

/// The outcome of splitting a file into its chunks.
pub open spec fn chunks_outcome(d: Seq<u8>) -> Result<ChunksView, LsfError> {
    if d.len() < 4 || d.subrange(0, 4) != magic() {
        Err(LsfError::BadMagic)
    } else if d.len() < 16 {
        Err(LsfError::TruncatedChunk)
    } else if u32_at(d, 4) < MIN_VERSION {
        Err(LsfError::UnsupportedVersion)
    } else if d.len() < 16 + metadata_size(u32_at(d, 4)) {
        Err(LsfError::TruncatedChunk)
    } else {
        let version = u32_at(d, 4);
        let m = metadata_at(d, 16, version);
        let method = method_of_flags(m.compression_flags);
        let p0 = 16 + metadata_size(version);
        match chunk_outcome(d, p0, m.strings_compressed_size as int, m.strings_uncompressed_size as int, method) {
            Err(e) => Err(e),
            Ok((strings, p1)) => match chunk_outcome(d, p1, m.keys_compressed_size as int, m.keys_uncompressed_size as int, method) {
                Err(e) => Err(e),
                Ok((keys, p2)) => match chunk_outcome(d, p2, m.nodes_compressed_size as int, m.nodes_uncompressed_size as int, method) {
                    Err(e) => Err(e),
                    Ok((nodes, p3)) => match chunk_outcome(d, p3, m.attributes_compressed_size as int, m.attributes_uncompressed_size as int, method) {
                        Err(e) => Err(e),
                        Ok((attributes, p4)) => match values_outcome(d.subrange(p4, d.len() as int), m) {
                            Err(e) => Err(e),
                            Ok(values) => Ok((version, strings, keys, nodes, attributes, values)),
                        },
                    },
                },
            },
        }
    }
}

fn read_metadata(d: &[u8], version: u32) -> (m: LsfMetadata)
    requires
        d@.len() >= 16 + metadata_size(version),
    ensures
        m == metadata_at(d@, 16, version),
{
    let k: usize = if version >= 6 { 8 } else { 0 };
    LsfMetadata {
        strings_uncompressed_size: read_u32(d, 16),
        strings_compressed_size: read_u32(d, 20),
        keys_uncompressed_size: if version >= 6 { read_u32(d, 24) } else { 0 },
        keys_compressed_size: if version >= 6 { read_u32(d, 28) } else { 0 },
        nodes_uncompressed_size: read_u32(d, 24 + k),
        nodes_compressed_size: read_u32(d, 28 + k),
        attributes_uncompressed_size: read_u32(d, 32 + k),
        attributes_compressed_size: read_u32(d, 36 + k),
        values_uncompressed_size: read_u32(d, 40 + k),
        values_compressed_size: read_u32(d, 44 + k),
        compression_flags: read_u32(d, 48 + k),
    }
}

/// Splits a file into its chunks, decompressing each.
pub fn read_chunks(d: &[u8]) -> (r: Result<Chunks, LsfError>)
    ensures
        match chunks_outcome(d@) {
            Ok(c) => (r matches Ok(x) && x@ == c),
            Err(e) => r matches Err(x) && x == e,
        },
{
    if d.len() < 4 || d[0] != 0x4c || d[1] != 0x53 || d[2] != 0x4f || d[3] != 0x46 {
        proof {
            if d@.len() >= 4 && d@.subrange(0, 4) == magic() {
                assert(d@[0] == d@.subrange(0, 4)[0] && d@[1] == d@.subrange(0, 4)[1]);
                assert(d@[2] == d@.subrange(0, 4)[2] && d@[3] == d@.subrange(0, 4)[3]);
            }
        }
        return Err(LsfError::BadMagic);
    }
    assert(d@.subrange(0, 4) =~= magic());
    if d.len() < 16 {
        return Err(LsfError::TruncatedChunk);
    }
    let version = read_u32(d, 4);
    if version < MIN_VERSION {
        return Err(LsfError::UnsupportedVersion);
    }
    let msize: usize = if version >= 6 { 56 } else { 48 };
    if d.len() < 16 + msize {
        return Err(LsfError::TruncatedChunk);
    }
    let m = read_metadata(d, version);
    let method = get_compression_method(m.compression_flags);
    let p0: usize = 16 + msize;
    let (strings, p1) = read_and_decompress_chunk(d, p0, m.strings_compressed_size, m.strings_uncompressed_size, method)?;
    let (keys, p2) = read_and_decompress_chunk(d, p1, m.keys_compressed_size, m.keys_uncompressed_size, method)?;
    let (nodes, p3) = read_and_decompress_chunk(d, p2, m.nodes_compressed_size, m.nodes_uncompressed_size, method)?;
    let (attributes, p4) = read_and_decompress_chunk(d, p3, m.attributes_compressed_size, m.attributes_uncompressed_size, method)?;
    let rest = slice_subrange(d, p4, d.len());
    let values = if m.values_compressed_size == 0 {
        slice_to_vec(rest)
    } else {
        decompress(rest, method, m.values_uncompressed_size as usize)?
    };
    Ok(Chunks { version, strings, keys, nodes, attributes, values })
}

} // verus!
