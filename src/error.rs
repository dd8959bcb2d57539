//! The hard errors that abort decoding.

use vstd::prelude::*;

verus! {

/// A failure that stops a file from being decoded.
#[derive(Debug, Clone, Copy, PartialEq, Eq, Structural)]
pub enum LsfError {
    /// The first four bytes are not "LSOF".
    BadMagic,
    /// The version field is below the oldest supported layout.
    UnsupportedVersion,
    /// A declared size runs past the end of the stream.
    TruncatedChunk,
    /// A decompressor failed or produced a size other than the declared one.
    CorruptChunk,
    /// The string pool is malformed or holds bytes that are not UTF-8.
    InvalidStringTable,
    /// A resource holds more records, or a longer name or payload, than the
    /// layout's fields can store.
    LimitExceeded,
}

/// A defect that decoding skips over, reported so that callers can log it.
#[derive(Debug, Clone, Copy, PartialEq, Eq, Structural)]
pub enum SoftError {
    /// The attribute record at this index has a type id outside the catalog.
    UnknownAttributeType(usize),
    /// The attribute record at this index declares a payload over the cap.
    AttributeTooLarge(usize),
    /// The record at this index points outside its array or the value blob.
    OutOfRangeIndex(usize),
    /// An attribute chain returns to the record at this index.
    CycleDetected(usize),
    /// This packed string id names no string of the pool.
    UnresolvedStringReference(u32),
    /// No node record has the parent index -1: roots were read permissively.
    PermissiveRoots,
}

} // verus!
