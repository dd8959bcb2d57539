//! Reader and writer for the LSF binary resource container.
//!
//! A resource is a set of named regions, each a tree of nodes carrying typed
//! attributes. On disk it is a header, a metadata block and five chunks
//! (Strings, Keys, Nodes, Attributes, Values), each optionally compressed.
//! The modules follow the layers of that format:
//!
//! - `bytes`: little-endian integers;
//! - `compression`: the method nibble and the four chunk encodings;
//! - `framing`: header, metadata and chunk boundaries;
//! - `strings`: the string pool and its packed ids;
//! - `records`: node and attribute records;
//! - `values`: the payload layout of each attribute type;
//! - `graph`: rebuilding the node trees from the records;
//! - `writer`: flattening a resource and writing a file;
//! - `lsf`: reading a whole file.

pub mod bytes;
pub mod compression;
pub mod error;
pub mod framing;
pub mod graph;
pub mod lsf;
pub mod records;
pub mod resource;
pub mod strings;
pub mod text;
pub mod values;
pub mod writer;
