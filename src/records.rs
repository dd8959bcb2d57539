//! The flat node and attribute record arrays.

use vstd::prelude::*;
use crate::bytes::{u32_at, i32_at, le32, read_u32, read_i32, push_u32, lemma_le32, lemma_flatten_blocks};
use crate::resource::{AttributeType, type_of_id};

verus! {

/// One node record: its name's packed id, its parent's index (-1 for a
/// region root), its next sibling's index and its first attribute's index
/// (-1 for none).
#[derive(Debug, Clone, Copy, PartialEq, Eq, Structural)]
pub struct NodeEntry {
    pub name_id: u32,
    pub parent_index: i32,
    pub next_sibling_index: i32,
    pub first_attribute_index: i32,
}

/// One attribute record: its name's packed id, its type id (low 6 bits) and
/// declared length (high 26 bits), the next attribute's index (-1 for none),
/// and its payload's offset in the value blob (layouts from version 3).
#[derive(Debug, Clone, Copy, PartialEq, Eq, Structural)]
pub struct AttributeEntry {
    pub name_hash_table_index: u32,
    pub type_and_length: u32,
    pub next_attribute_index: i32,
    pub offset: u32,
}

impl AttributeEntry {
    /// The catalog entry of the stored type id, if the id is in the catalog.
    pub fn attribute_type(&self) -> (r: Option<AttributeType>)
        ensures
            r == type_of_id((self.type_and_length % 64) as int),
    {
        let x = self.type_and_length;
        let id = x & 0x3f;
        assert(id == x % 64) by (bit_vector)
            requires
                id == x & 0x3f,
        ;
        AttributeType::from_u8(id as u8)
    }

    /// The declared payload length.
    pub fn length(&self) -> (r: u32)
        ensures
            r == self.type_and_length / 64,
    {
        let x = self.type_and_length;
        let r = x >> 6;
        assert(r == x / 64) by (bit_vector)
            requires
                r == x >> 6,
        ;
        r
    }
}

/// The size of one record: 16 bytes from version 3, 12 before.
pub open spec fn record_size(version: u32) -> int {
    if version >= 3 {
        16
    } else {
        12
    }
}

/// The node record stored at `pos`; before version 3 it has no sibling field.
pub open spec fn node_at(d: Seq<u8>, pos: int, version: u32) -> NodeEntry {
    if version >= 3 {
        NodeEntry {
            name_id: u32_at(d, pos),
            parent_index: i32_at(d, pos + 4),
            next_sibling_index: i32_at(d, pos + 8),
            first_attribute_index: i32_at(d, pos + 12),
        }
    } else {
        NodeEntry {
            name_id: u32_at(d, pos),
            parent_index: i32_at(d, pos + 4),
            next_sibling_index: -1i32,
            first_attribute_index: i32_at(d, pos + 8),
        }
    }
}

/// The attribute record stored at `pos`; before version 3 it has no offset.
pub open spec fn attribute_at(d: Seq<u8>, pos: int, version: u32) -> AttributeEntry {
    AttributeEntry {
        name_hash_table_index: u32_at(d, pos),
        type_and_length: u32_at(d, pos + 4),
        next_attribute_index: i32_at(d, pos + 8),
        offset: if version >= 3 { u32_at(d, pos + 12) } else { 0 },
    }
}

/// The records a chunk holds: one per whole record, a trailing fragment ignored.
pub open spec fn nodes_of(d: Seq<u8>, version: u32) -> Seq<NodeEntry> {
    Seq::new((d.len() as int / record_size(version)) as nat, |i: int| node_at(d, i * record_size(version), version))
}

pub open spec fn attributes_of(d: Seq<u8>, version: u32) -> Seq<AttributeEntry> {
    Seq::new(
        (d.len() as int / record_size(version)) as nat,
        |i: int| attribute_at(d, i * record_size(version), version),
    )
}

/// Decodes the node records of a chunk.
pub fn parse_node_entries(d: &[u8], version: u32) -> (r: Vec<NodeEntry>)
    ensures
        r@ == nodes_of(d@, version),
{
    let size: usize = if version >= 3 { 16 } else { 12 };
    let count = d.len() / size;
    let mut out: Vec<NodeEntry> = Vec::new();
    let mut i: usize = 0;
    while i < count
        invariant
            size as int == record_size(version),
            d@.len() <= usize::MAX,
            count as int == d@.len() as int / size as int,
            i <= count,
            out@ == nodes_of(d@, version).subrange(0, i as int),
        decreases count - i,
    {
        assert((i + 1) * size <= count * size) by (nonlinear_arith)
            requires
                i < count,
        ;
        assert(count * size <= d@.len()) by (nonlinear_arith)
            requires
                count as int == d@.len() as int / size as int,
                size > 0,
        ;
        assert(i * size + size == (i + 1) * size) by (nonlinear_arith);
        let pos = i * size;
        let e = if version >= 3 {
            NodeEntry {
                name_id: read_u32(d, pos),
                parent_index: read_i32(d, pos + 4),
                next_sibling_index: read_i32(d, pos + 8),
                first_attribute_index: read_i32(d, pos + 12),
            }
        } else {
            NodeEntry {
                name_id: read_u32(d, pos),
                parent_index: read_i32(d, pos + 4),
                next_sibling_index: -1,
                first_attribute_index: read_i32(d, pos + 8),
            }
        };
        out.push(e);
        assert(out@ =~= nodes_of(d@, version).subrange(0, i + 1));
        i = i + 1;
    }
    assert(out@ =~= nodes_of(d@, version));
    out
}

/// Decodes the attribute records of a chunk.
pub fn parse_attribute_entries(d: &[u8], version: u32) -> (r: Vec<AttributeEntry>)
    ensures
        r@ == attributes_of(d@, version),
{
    let size: usize = if version >= 3 { 16 } else { 12 };
    let count = d.len() / size;
    let mut out: Vec<AttributeEntry> = Vec::new();
    let mut i: usize = 0;
    while i < count
        invariant
            size as int == record_size(version),
            d@.len() <= usize::MAX,
            count as int == d@.len() as int / size as int,
            i <= count,
            out@ == attributes_of(d@, version).subrange(0, i as int),
        decreases count - i,
    {
        assert((i + 1) * size <= count * size) by (nonlinear_arith)
            requires
                i < count,
        ;
        assert(count * size <= d@.len()) by (nonlinear_arith)
            requires
                count as int == d@.len() as int / size as int,
                size > 0,
        ;
        assert(i * size + size == (i + 1) * size) by (nonlinear_arith);
        let pos = i * size;
        let e = AttributeEntry {
            name_hash_table_index: read_u32(d, pos),
            type_and_length: read_u32(d, pos + 4),
            next_attribute_index: read_i32(d, pos + 8),
            offset: if version >= 3 { read_u32(d, pos + 12) } else { 0 },
        };
        out.push(e);
        assert(out@ =~= attributes_of(d@, version).subrange(0, i + 1));
        i = i + 1;
    }
    assert(out@ =~= attributes_of(d@, version));
    out
}

/// The bytes of a node record in a version's layout.
pub open spec fn node_bytes(e: NodeEntry, version: u32) -> Seq<u8> {
    if version >= 3 {
        le32(e.name_id) + le32(e.parent_index as u32) + le32(e.next_sibling_index as u32) + le32(
            e.first_attribute_index as u32,
        )
    } else {
        le32(e.name_id) + le32(e.parent_index as u32) + le32(e.first_attribute_index as u32)
    }
}

/// The bytes of an attribute record in a version's layout.
pub open spec fn attribute_bytes(e: AttributeEntry, version: u32) -> Seq<u8> {
    if version >= 3 {
        le32(e.name_hash_table_index) + le32(e.type_and_length) + le32(e.next_attribute_index as u32)
            + le32(e.offset)
    } else {
        le32(e.name_hash_table_index) + le32(e.type_and_length) + le32(e.next_attribute_index as u32)
    }
}

/// Appends a node record.
pub fn write_node_entry(out: &mut Vec<u8>, e: &NodeEntry, version: u32)
    ensures
        final(out)@ == old(out)@ + node_bytes(*e, version),
{
    push_u32(out, e.name_id);
    push_u32(out, e.parent_index as u32);
    if version >= 3 {
        push_u32(out, e.next_sibling_index as u32);
    }
    push_u32(out, e.first_attribute_index as u32);
    assert(final(out)@ =~= old(out)@ + node_bytes(*e, version));
}

/// Appends an attribute record.
pub fn write_attribute_entry(out: &mut Vec<u8>, e: &AttributeEntry, version: u32)
    ensures
        final(out)@ == old(out)@ + attribute_bytes(*e, version),
{
    push_u32(out, e.name_hash_table_index);
    push_u32(out, e.type_and_length);
    push_u32(out, e.next_attribute_index as u32);
    if version >= 3 {
        push_u32(out, e.offset);
    }
    assert(final(out)@ =~= old(out)@ + attribute_bytes(*e, version));
}

/// The bytes of a run of node records.
pub open spec fn nodes_bytes(ns: Seq<NodeEntry>, version: u32) -> Seq<u8> {
    ns.map_values(|e: NodeEntry| node_bytes(e, version)).flatten()
}

/// The bytes of a run of attribute records.
pub open spec fn attributes_bytes(attrs: Seq<AttributeEntry>, version: u32) -> Seq<u8> {
    attrs.map_values(|e: AttributeEntry| attribute_bytes(e, version)).flatten()
}

/// A node record as a version's layout keeps it: before version 3 the
/// sibling link is not stored and reads as -1.
pub open spec fn node_as_stored(e: NodeEntry, version: u32) -> NodeEntry {
    if version >= 3 {
        e
    } else {
        NodeEntry { next_sibling_index: -1i32, ..e }
    }
}

/// An attribute record as a version's layout keeps it: before version 3 the
/// offset is not stored and reads as 0.
pub open spec fn attribute_as_stored(e: AttributeEntry, version: u32) -> AttributeEntry {
    if version >= 3 {
        e
    } else {
        AttributeEntry { offset: 0u32, ..e }
    }
}

proof fn lemma_i32_le(x: i32, d: Seq<u8>, p: int)
    requires
        0 <= p,
        p + 4 <= d.len(),
        d.subrange(p, p + 4) == le32(x as u32),
    ensures
        i32_at(d, p) == x,
{
    lemma_le32(x as u32, d, p);
    let y = u32_at(d, p);
    assert(y as i32 == x) by (bit_vector)
        requires
            y == x as u32,
    ;
}

/// Written node records read back as stored.
pub proof fn lemma_nodes_round_trip(ns: Seq<NodeEntry>, version: u32)
    ensures
        nodes_of(nodes_bytes(ns, version), version) == ns.map_values(|e: NodeEntry| node_as_stored(e, version)),
{
    let size = record_size(version);
    let bs = ns.map_values(|e: NodeEntry| node_bytes(e, version));
    lemma_flatten_blocks(bs, size);
    let d = bs.flatten();
    assert(d.len() as int / size == ns.len()) by (nonlinear_arith)
        requires
            d.len() == size * ns.len(),
            size > 0,
    ;
    assert forall|i: int| 0 <= i < ns.len() implies nodes_of(d, version)[i] == node_as_stored(ns[i], version) by {
        let e = ns[i];
        let p = i * size;
        assert(p == size * i && 0 <= p) by (nonlinear_arith)
            requires
                p == i * size,
                i >= 0,
                size > 0,
        ;
        assert(p + size <= d.len()) by (nonlinear_arith)
            requires
                d.len() == size * ns.len(),
                0 <= i < ns.len(),
                p == size * i,
                size > 0,
        ;
        let blk = d.subrange(p, p + size);
        assert(blk == bs[i]);
        assert(d.subrange(p, p + 4) =~= blk.subrange(0, 4));
        assert(d.subrange(p + 4, p + 8) =~= blk.subrange(4, 8));
        assert(d.subrange(p + 8, p + 12) =~= blk.subrange(8, 12));
        assert(blk.subrange(0, 4) =~= le32(e.name_id));
        assert(blk.subrange(4, 8) =~= le32(e.parent_index as u32));
        lemma_le32(e.name_id, d, p);
        lemma_i32_le(e.parent_index, d, p + 4);
        if version >= 3 {
            assert(d.subrange(p + 12, p + 16) =~= blk.subrange(12, 16));
            assert(blk.subrange(8, 12) =~= le32(e.next_sibling_index as u32));
            assert(blk.subrange(12, 16) =~= le32(e.first_attribute_index as u32));
            lemma_i32_le(e.next_sibling_index, d, p + 8);
            lemma_i32_le(e.first_attribute_index, d, p + 12);
        } else {
            assert(blk.subrange(8, 12) =~= le32(e.first_attribute_index as u32));
            lemma_i32_le(e.first_attribute_index, d, p + 8);
        }
    }
    assert(nodes_of(d, version) =~= ns.map_values(|e: NodeEntry| node_as_stored(e, version)));
}

/// Written attribute records read back as stored.
pub proof fn lemma_attributes_round_trip(attrs: Seq<AttributeEntry>, version: u32)
    ensures
        attributes_of(attributes_bytes(attrs, version), version) == attrs.map_values(
            |e: AttributeEntry| attribute_as_stored(e, version),
        ),
{
    let size = record_size(version);
    let bs = attrs.map_values(|e: AttributeEntry| attribute_bytes(e, version));
    lemma_flatten_blocks(bs, size);
    let d = bs.flatten();
    assert(d.len() as int / size == attrs.len()) by (nonlinear_arith)
        requires
            d.len() == size * attrs.len(),
            size > 0,
    ;
    assert forall|i: int| 0 <= i < attrs.len() implies attributes_of(d, version)[i] == attribute_as_stored(attrs[i], version) by {
        let e = attrs[i];
        let p = i * size;
        assert(p == size * i && 0 <= p) by (nonlinear_arith)
            requires
                p == i * size,
                i >= 0,
                size > 0,
        ;
        assert(p + size <= d.len()) by (nonlinear_arith)
            requires
                d.len() == size * attrs.len(),
                0 <= i < attrs.len(),
                p == size * i,
                size > 0,
        ;
        let blk = d.subrange(p, p + size);
        assert(blk == bs[i]);
        assert(d.subrange(p, p + 4) =~= blk.subrange(0, 4));
        assert(d.subrange(p + 4, p + 8) =~= blk.subrange(4, 8));
        assert(d.subrange(p + 8, p + 12) =~= blk.subrange(8, 12));
        assert(blk.subrange(0, 4) =~= le32(e.name_hash_table_index));
        assert(blk.subrange(4, 8) =~= le32(e.type_and_length));
        assert(blk.subrange(8, 12) =~= le32(e.next_attribute_index as u32));
        lemma_le32(e.name_hash_table_index, d, p);
        lemma_le32(e.type_and_length, d, p + 4);
        lemma_i32_le(e.next_attribute_index, d, p + 8);
        if version >= 3 {
            assert(d.subrange(p + 12, p + 16) =~= blk.subrange(12, 16));
            assert(blk.subrange(12, 16) =~= le32(e.offset));
            lemma_le32(e.offset, d, p + 12);
        }
    }
    assert(attributes_of(d, version) =~= attrs.map_values(|e: AttributeEntry| attribute_as_stored(e, version)));
}

} // verus!
