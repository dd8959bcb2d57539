//! Flattening a resource into record arrays and writing a whole file.

use vstd::prelude::*;
use vstd::utf8::*;
use crate::bytes::{u32_at, le32, le64, push_u32, push_u64, push_bytes, lemma_le32, lemma_flatten_blocks};
use crate::compression::{CompressionMethod, chunk_outcome, compress, encoded, method_code, method_of_flags};
use crate::error::LsfError;
use crate::framing::{ChunksView, LsfMetadata, MIN_VERSION, chunks_outcome, magic, metadata_at, metadata_size, values_outcome};
use crate::records::{
    AttributeEntry, NodeEntry, record_size, attribute_as_stored, attribute_bytes, attributes_bytes, attributes_of, lemma_attributes_round_trip,
    lemma_nodes_round_trip, node_as_stored, node_bytes, nodes_bytes, nodes_of, write_attribute_entry, write_node_entry,
};
use crate::resource::{AttributeValue, Node, NodeAttribute, Region, Resource, attributes_wf, lemma_id_closure, type_id, value_type};
use crate::lsf::decodes_as;
use crate::graph::{
    attr_prefix, complete_for, decodable, decoded_at, forest_of, from_walk, has_name, last_of_name, is_root, lemma_walk_consecutive, node_of_record, node_prefix,
    reads_permissively, record_at, start_cursor, subnode, tree_of_record, tree_placed, walk, MAX_ATTRIBUTES_PER_NODE,
};
use crate::strings::name_of;
use crate::strings::{
    BUCKET_COUNT, StringTable, bucket_of, pool_canonical, chain_bytes, lemma_table_bytes_len, chains_fit, extends, intern, lemma_bucket_within_total, lemma_total_empty, lemma_total_push, table_total, lemma_extends_refl, lemma_extends_trans, lemma_resolve_stable, lemma_table_round_trip, new_table, parse_table, resolve, storable, table_bytes,
    write_string_table,
};
use crate::values::{MAX_VALUE_SIZE, encodable, encode_value, value_bytes, fixed_size, lemma_fixed_len, lemma_value_round_trip, is_fixed_layout, payload_len, lemma_words_le, push_words, words_le};

verus! {

/// The most records of one kind that a file can index.
pub const MAX_RECORDS: usize = 0x7fff_ffff;

/// The record reached from node record `i` after `m` sibling links, or -1
/// once a link leaves the array.
pub open spec fn follow_siblings(nodes: Seq<NodeEntry>, i: int, m: nat) -> int
    decreases m,
{
    if m == 0 {
        i
    } else {
        let p = follow_siblings(nodes, i, (m - 1) as nat);
        if 0 <= p < nodes.len() {
            nodes[p].next_sibling_index as int
        } else {
            -1
        }
    }
}

/// The record reached from attribute record `i` after `m` links, or -1 once
/// a link leaves the array.
pub open spec fn follow_attributes(attrs: Seq<AttributeEntry>, i: int, m: nat) -> int
    decreases m,
{
    if m == 0 {
        i
    } else {
        let p = follow_attributes(attrs, i, (m - 1) as nat);
        if 0 <= p < attrs.len() {
            attrs[p].next_attribute_index as int
        } else {
            -1
        }
    }
}

proof fn lemma_siblings_advance(nodes: Seq<NodeEntry>, attr_count: int, i: int, m: nat)
    requires
        node_links_forward(nodes, attr_count),
        0 <= i,
    ensures
        follow_siblings(nodes, i, m) == -1 || follow_siblings(nodes, i, m) >= i + m,
    decreases m,
{
    if m > 0 {
        lemma_siblings_advance(nodes, attr_count, i, (m - 1) as nat);
        let p = follow_siblings(nodes, i, (m - 1) as nat);
        if 0 <= p < nodes.len() {
            assert(nodes[p].next_sibling_index == -1 || p < nodes[p].next_sibling_index < nodes.len());
        }
    }
}

proof fn lemma_attributes_advance(attrs: Seq<AttributeEntry>, i: int, m: nat)
    requires
        attribute_links_forward(attrs),
        0 <= i,
    ensures
        follow_attributes(attrs, i, m) == -1 || follow_attributes(attrs, i, m) >= i + m,
    decreases m,
{
    if m > 0 {
        lemma_attributes_advance(attrs, i, (m - 1) as nat);
        let p = follow_attributes(attrs, i, (m - 1) as nat);
        if 0 <= p < attrs.len() {
            assert(attrs[p].next_attribute_index == -1 || p < attrs[p].next_attribute_index < attrs.len());
        }
    }
}

/// In records whose links lead forward, as the writer produces them, a
/// sibling chain or an attribute chain from any record leaves its array
/// within as many steps as the array has records.
pub proof fn lemma_chains_terminate(nodes: Seq<NodeEntry>, attrs: Seq<AttributeEntry>, i: int)
    requires
        node_links_forward(nodes, attrs.len() as int),
        attribute_links_forward(attrs),
        0 <= i,
    ensures
        !(0 <= follow_siblings(nodes, i, nodes.len()) < nodes.len()),
        !(0 <= follow_attributes(attrs, i, attrs.len()) < attrs.len()),
{
    lemma_siblings_advance(nodes, attrs.len() as int, i, nodes.len());
    lemma_attributes_advance(attrs, i, attrs.len());
}

/// The record arrays, value blob and string pool that a resource flattens to.
pub struct Flat {
    pub table: StringTable,
    pub nodes: Vec<NodeEntry>,
    pub attributes: Vec<AttributeEntry>,
    pub values: Vec<u8>,
}

/// Every sibling link leads forward, to a later record in range, or is -1;
/// every parent index is -1 or names an earlier record.
pub open spec fn node_links_forward(nodes: Seq<NodeEntry>, attr_count: int) -> bool {
    forall|k: int| #![trigger nodes[k]] 0 <= k < nodes.len() ==> {
        &&& (nodes[k].next_sibling_index == -1 || k < nodes[k].next_sibling_index < nodes.len())
        &&& (nodes[k].parent_index == -1 || 0 <= nodes[k].parent_index < k)
        &&& (nodes[k].first_attribute_index == -1 || 0 <= nodes[k].first_attribute_index < attr_count)
    }
}

/// Every attribute link leads forward, to a later record in range, or is -1.
pub open spec fn attribute_links_forward(attrs: Seq<AttributeEntry>) -> bool {
    forall|k: int| #![trigger attrs[k]] 0 <= k < attrs.len() ==> (attrs[k].next_attribute_index == -1
        || k < attrs[k].next_attribute_index < attrs.len())
}

/// The node records while a subtree is being written: the same as the final
/// property, except that sibling links may point one past the end, to the
/// record that the next write adds.
pub open spec fn node_links_pending(nodes: Seq<NodeEntry>, attr_count: int) -> bool {
    forall|k: int| #![trigger nodes[k]] 0 <= k < nodes.len() ==> {
        &&& (nodes[k].next_sibling_index == -1 || k < nodes[k].next_sibling_index <= nodes.len())
        &&& (nodes[k].parent_index == -1 || 0 <= nodes[k].parent_index < k)
        &&& (nodes[k].first_attribute_index == -1 || 0 <= nodes[k].first_attribute_index < attr_count)
    }
}

/// The flattening so far fits the layout: a full pool whose chains and
/// strings fit 16-bit lengths, and record counts that fit 31-bit indices.
pub open spec fn flat_ok(f: Flat) -> bool {
    &&& f.table@.len() == BUCKET_COUNT
    &&& chains_fit(f.table@)
    &&& pool_canonical(f.table@)
    &&& f.nodes@.len() <= MAX_RECORDS
    &&& f.attributes@.len() <= MAX_RECORDS
}

/// The most records (nodes and attributes together) of a resource that the
/// writer always accepts: with payloads of at most `MAX_VALUE_SIZE` bytes the
/// value blob then fits 32-bit offsets, and the pool's chains fit 16 bits.
pub const MAX_WRITABLE_RECORDS: usize = 4095;

/// An attribute the layout stores: a name and a payload that fit their
/// length fields.
pub open spec fn attr_fits(a: (String, NodeAttribute)) -> bool {
    &&& encode_utf8(a.0@).len() <= 0xffff
    &&& encodable(a.1.value)
    &&& value_bytes(a.1.value).len() <= MAX_VALUE_SIZE
}

/// A node whose name and attributes the layout stores.
pub open spec fn node_fits_here(n: Node) -> bool {
    &&& encode_utf8(n.name@).len() <= 0xffff
    &&& forall|k: int| 0 <= k < n.attributes@.len() ==> attr_fits(#[trigger] n.attributes@[k])
}

/// A node whose name and attributes, and those of every descendant, the
/// layout stores.
pub open spec fn node_fits(n: Node) -> bool {
    forall|p: Seq<int>| #[trigger] subnode(n, p) is Some ==> node_fits_here(subnode(n, p)->0)
}

/// A node that fits stores its own name and attributes.
proof fn lemma_fits_here(n: Node)
    requires
        node_fits(n),
    ensures
        node_fits_here(n),
{
    assert(subnode(n, Seq::empty()) == Some(n));
}

/// The children of a node that fits fit too.
proof fn lemma_child_fits(n: Node, c: int)
    requires
        node_fits(n),
        0 <= c < n.children@.len(),
    ensures
        node_fits(n.children@[c]),
        node_fits_here(n),
{
    assert(subnode(n, Seq::empty()) == Some(n));
    assert forall|p: Seq<int>| #[trigger] subnode(n.children@[c], p) is Some implies node_fits_here(subnode(n.children@[c], p)->0) by {
        let q = seq![c] + p;
        assert(q.drop_first() =~= p);
        assert(subnode(n, q) == subnode(n.children@[c], p));
    }
}

/// The records a subtree flattens to: one per node and one per attribute.
pub open spec fn tree_size(n: Node) -> nat
    decreases n, 1nat,
{
    1 + n.attributes@.len() + children_size(n, n.children@.len() as int)
}

/// The records the first `k` children of `n` flatten to.
pub open spec fn children_size(n: Node, k: int) -> nat
    decreases n, 0nat, k,
{
    if k <= 0 || k > n.children@.len() {
        0
    } else {
        children_size(n, k - 1) + tree_size(n.children@[k - 1])
    }
}

/// Counting more children counts no fewer records.
pub proof fn lemma_children_size_grows(n: Node, k: int, k2: int)
    requires
        0 <= k <= k2 <= n.children@.len(),
    ensures
        children_size(n, k) <= children_size(n, k2),
    decreases k2 - k,
{
    if k < k2 {
        lemma_children_size_grows(n, k, k2 - 1);
    }
}

/// The records a sequence of trees flattens to.
pub open spec fn forest_size(s: Seq<Node>) -> nat
    decreases s.len(),
{
    if s.len() == 0 {
        0
    } else {
        forest_size(s.drop_last()) + tree_size(s.last())
    }
}

/// The records the regions flatten to.
pub open spec fn regions_size(s: Seq<Region>) -> nat
    decreases s.len(),
{
    if s.len() == 0 {
        0
    } else {
        regions_size(s.drop_last()) + forest_size(s.last().nodes@)
    }
}

proof fn lemma_forest_prefix(s: Seq<Node>, k: int, k2: int)
    requires
        0 <= k <= k2 <= s.len(),
    ensures
        forest_size(s.subrange(0, k)) <= forest_size(s.subrange(0, k2)),
        k < s.len() ==> forest_size(s.subrange(0, k + 1)) == forest_size(s.subrange(0, k)) + tree_size(s[k]),
    decreases k2 - k,
{
    if k < s.len() {
        assert(s.subrange(0, k + 1).drop_last() =~= s.subrange(0, k));
    }
    if k < k2 {
        lemma_forest_prefix(s, k, k2 - 1);
        assert(s.subrange(0, k2).drop_last() =~= s.subrange(0, k2 - 1));
    }
}

proof fn lemma_regions_prefix(s: Seq<Region>, g: int, g2: int)
    requires
        0 <= g <= g2 <= s.len(),
    ensures
        regions_size(s.subrange(0, g)) <= regions_size(s.subrange(0, g2)),
        g < s.len() ==> regions_size(s.subrange(0, g + 1)) == regions_size(s.subrange(0, g)) + forest_size(s[g].nodes@),
    decreases g2 - g,
{
    if g < s.len() {
        assert(s.subrange(0, g + 1).drop_last() =~= s.subrange(0, g));
    }
    if g < g2 {
        lemma_regions_prefix(s, g, g2 - 1);
        assert(s.subrange(0, g2).drop_last() =~= s.subrange(0, g2 - 1));
    }
}

/// A resource the writer always encodes (uncompressed): every region name
/// and node fits the layout, and its records and regions number at most
/// `MAX_WRITABLE_RECORDS` together.
pub open spec fn writable(res: Resource) -> bool {
    &&& res.metadata.major_version >= MIN_VERSION
    &&& forall|g: int, q: int| 0 <= g < res.regions@.len() && 0 <= q < res.regions@[g].nodes@.len() ==> #[trigger] node_fits(
        res.regions@[g].nodes@[q],
    )
    &&& forall|g: int| 0 <= g < res.regions@.len() ==> encode_utf8((#[trigger] res.regions@[g]).name@).len() <= 0xffff
    &&& regions_size(res.regions@) + res.regions@.len() <= MAX_WRITABLE_RECORDS
}

/// The pool holds the string `name` under some id.
pub open spec fn pooled(t: Seq<Seq<Seq<char>>>, name: Seq<char>) -> bool {
    exists|id: u32| #[trigger] resolve(t, id) == Some(name)
}

/// Adds every region name to the pool.
fn pool_region_names(res: &Resource, f: &mut Flat) -> (r: Result<(), LsfError>)
    requires
        flat_ok(*old(f)),
    ensures
        flat_ok(*final(f)),
        extends(old(f).table@, final(f).table@),
        final(f).nodes@ == old(f).nodes@,
        final(f).attributes@ == old(f).attributes@,
        final(f).values@ == old(f).values@,
        r is Ok ==> forall|g: int| 0 <= g < res.regions@.len() ==> pooled(final(f).table@, (#[trigger] res.regions@[g]).name@),
        r is Ok ==> table_total(final(f).table@) <= table_total(old(f).table@) + res.regions@.len(),
        ((forall|g: int| 0 <= g < res.regions@.len() ==> encode_utf8((#[trigger] res.regions@[g]).name@).len() <= 0xffff)
            && table_total(old(f).table@) + res.regions@.len() < 0xffff) ==> r is Ok,
{
    proof {
        lemma_extends_refl(f.table@);
    }
    let ghost good = (forall|g: int| 0 <= g < res.regions@.len() ==> encode_utf8((#[trigger] res.regions@[g]).name@).len() <= 0xffff)
        && table_total(f.table@) + res.regions@.len() < 0xffff;
    let mut g: usize = 0;
    while g < res.regions.len()
        invariant
            flat_ok(*f),
            extends(old(f).table@, f.table@),
            f.nodes@ == old(f).nodes@,
            f.attributes@ == old(f).attributes@,
            f.values@ == old(f).values@,
            g <= res.regions@.len(),
            table_total(f.table@) <= table_total(old(f).table@) + g,
            good == ((forall|g: int| 0 <= g < res.regions@.len() ==> encode_utf8((#[trigger] res.regions@[g]).name@).len() <= 0xffff)
                && table_total(old(f).table@) + res.regions@.len() < 0xffff),
            forall|h: int| 0 <= h < g ==> pooled(f.table@, (#[trigger] res.regions@[h]).name@),
        decreases res.regions@.len() - g,
    {
        let ghost t0 = f.table@;
        let interned = intern_name(&mut f.table, &res.regions[g].name);
        proof {
            lemma_extends_trans(old(f).table@, t0, f.table@);
        }
        let id = interned?;
        proof {
            assert forall|h: int| 0 <= h < g + 1 implies pooled(f.table@, (#[trigger] res.regions@[h]).name@) by {
                if h < g {
                    let id0 = choose|id0: u32| #[trigger] resolve(t0, id0) == Some(res.regions@[h].name@);
                    lemma_resolve_stable(t0, f.table@, id0);
                } else {
                    assert(resolve(f.table@, id) == Some(res.regions@[h].name@));
                }
            }
        }
        g = g + 1;
    }
    Ok(())
}

/// The pool holds no more strings than there are records, and the value blob
/// no more than a full payload per attribute record.
pub open spec fn accounted(f: Flat) -> bool {
    &&& table_total(f.table@) <= f.nodes@.len() + f.attributes@.len()
    &&& f.values@.len() <= f.attributes@.len() * MAX_VALUE_SIZE
}

/// Attribute record `e` stores the attribute `a`: its name's id, its type id
/// and payload length, and an offset where the value blob holds the payload.
pub open spec fn attr_record_ok(t: Seq<Seq<Seq<char>>>, e: AttributeEntry, a: (String, NodeAttribute), values: Seq<u8>) -> bool {
    let len = value_bytes(a.1.value).len();
    &&& resolve(t, e.name_hash_table_index) == Some(a.0@)
    &&& len <= MAX_VALUE_SIZE
    &&& e.type_and_length as int == type_id(a.1.attribute_type) + len * 64
    &&& e.offset + len <= values.len()
    &&& values.subrange(e.offset as int, e.offset + len) == value_bytes(a.1.value)
}

/// The value blob is the payloads of the attribute records laid end to end
/// in record order, nothing else: each record's offset is where the one
/// before it ends, and the blob ends where the last one does.
#[verifier::opaque]
pub open spec fn blob_tiled(attrs: Seq<AttributeEntry>, values: Seq<u8>) -> bool {
    &&& forall|i: int| 0 <= i < attrs.len() ==> (#[trigger] attrs[i]).offset as int == (if i == 0 {
        0
    } else {
        attrs[i - 1].offset + attrs[i - 1].type_and_length / 64
    })
    &&& values.len() == (if attrs.len() == 0 {
        0
    } else {
        attrs.last().offset + attrs.last().type_and_length / 64
    })
}

proof fn lemma_tiled_push(attrs: Seq<AttributeEntry>, values: Seq<u8>, e: AttributeEntry, payload: Seq<u8>)
    requires
        blob_tiled(attrs, values),
        e.offset as int == values.len(),
        e.type_and_length / 64 == payload.len(),
    ensures
        blob_tiled(attrs.push(e), values + payload),
{
    reveal(blob_tiled);
    let a2 = attrs.push(e);
    assert forall|i: int| 0 <= i < a2.len() implies (#[trigger] a2[i]).offset as int == (if i == 0 {
        0
    } else {
        a2[i - 1].offset + a2[i - 1].type_and_length / 64
    }) by {
        if i < attrs.len() {
            assert(a2[i] == attrs[i]);
            if i > 0 {
                assert(a2[i - 1] == attrs[i - 1]);
            }
        } else if i > 0 {
            assert(a2[i - 1] == attrs.last());
        }
    }
}

proof fn lemma_tiled_empty(v: Seq<u8>)
    requires
        v.len() == 0,
    ensures
        blob_tiled(Seq::<AttributeEntry>::empty(), v),
{
    reveal(blob_tiled);
}

/// Node record `e` stores the attributes of `node`: none (-1) where it has
/// none; otherwise one record each, in order, from `e`'s first attribute
/// index, each linking to the next and the last to -1.
pub open spec fn node_attrs_written(
    t: Seq<Seq<Seq<char>>>,
    e: NodeEntry,
    attrs: Seq<AttributeEntry>,
    values: Seq<u8>,
    node: Node,
) -> bool {
    let count = node.attributes@.len();
    let first = e.first_attribute_index as int;
    &&& count == 0 ==> first == -1
    &&& count > 0 ==> 0 <= first && first + count <= attrs.len() && forall|k: int| 0 <= k < count ==> attr_record_ok(
        t,
        #[trigger] attrs[first + k],
        node.attributes@[k],
        values,
    ) && attrs[first + k].next_attribute_index == (if k + 1 < count { first + k + 1 } else { -1 })
}

/// Records stay as they were when the pool is extended and records and
/// payloads are only appended.
proof fn lemma_attrs_written_stable(
    t: Seq<Seq<Seq<char>>>,
    e: NodeEntry,
    attrs: Seq<AttributeEntry>,
    values: Seq<u8>,
    node: Node,
    t2: Seq<Seq<Seq<char>>>,
    attrs2: Seq<AttributeEntry>,
    values2: Seq<u8>,
)
    requires
        node_attrs_written(t, e, attrs, values, node),
        extends(t, t2),
        attrs2.len() >= attrs.len(),
        attrs2.subrange(0, attrs.len() as int) == attrs,
        values2.len() >= values.len(),
        values2.subrange(0, values.len() as int) == values,
    ensures
        node_attrs_written(t2, e, attrs2, values2, node),
{
    let count = node.attributes@.len();
    let first = e.first_attribute_index as int;
    if count > 0 {
        assert forall|k: int| 0 <= k < count implies attr_record_ok(t2, #[trigger] attrs2[first + k], node.attributes@[k], values2)
            && attrs2[first + k].next_attribute_index == (if k + 1 < count { first + k + 1 } else { -1 }) by {
            assert(attrs2[first + k] == attrs2.subrange(0, attrs.len() as int)[first + k]);
            let r = attrs[first + k];
            assert(attr_record_ok(t, r, node.attributes@[k], values));
            lemma_resolve_stable(t, t2, r.name_hash_table_index);
            let len = value_bytes(node.attributes@[k].1.value).len();
            assert(values2.subrange(r.offset as int, r.offset + len) =~= values.subrange(r.offset as int, r.offset + len));
        }
    }
}

/// The records `s` up to `e` are one subtree in preorder: the first names
/// `parent` and has no sibling link yet; each later one names a parent in
/// the subtree before it, and its sibling link is -1 or leads forward, within
/// the subtree, to a record of the same parent.
pub open spec fn subtree_links(nodes: Seq<NodeEntry>, s: int, e: int, parent: int) -> bool {
    &&& 0 <= s < e <= nodes.len()
    &&& nodes[s].parent_index == parent
    &&& nodes[s].next_sibling_index == -1
    &&& forall|k: int| #![trigger nodes[k]] s < k < e ==> s <= nodes[k].parent_index < k
    &&& forall|k: int| #![trigger nodes[k]] s < k < e ==> (nodes[k].next_sibling_index == -1 || (k < nodes[k].next_sibling_index < e
        && nodes[nodes[k].next_sibling_index as int].parent_index == nodes[k].parent_index))
}

/// Record `k` stores one of the top-level nodes of the regions.
pub open spec fn stores_top_node(
    t: Seq<Seq<Seq<char>>>,
    nodes: Seq<NodeEntry>,
    attrs: Seq<AttributeEntry>,
    values: Seq<u8>,
    regions: Seq<Region>,
    k: int,
) -> bool {
    exists|g: int, q: int| 0 <= g < regions.len() && 0 <= q < regions[g].nodes@.len() && resolve(t, nodes[k].name_id) == Some(
        (#[trigger] regions[g].nodes@[q]).name@,
    ) && node_attrs_written(t, nodes[k], attrs, values, regions[g].nodes@[q])
}

/// The node records link as a forest: a sibling link is -1 or leads forward
/// to a record of the same parent; a parent index is -1 or an earlier
/// record; and every root record (parent -1) has no sibling link and stores
/// a top-level node of the regions.
#[verifier::opaque]
pub open spec fn records_linked(
    t: Seq<Seq<Seq<char>>>,
    nodes: Seq<NodeEntry>,
    attrs: Seq<AttributeEntry>,
    values: Seq<u8>,
    regions: Seq<Region>,
) -> bool {
    forall|k: int| #![trigger nodes[k]] 0 <= k < nodes.len() ==> {
        &&& (nodes[k].next_sibling_index == -1 || (k < nodes[k].next_sibling_index < nodes.len()
            && nodes[nodes[k].next_sibling_index as int].parent_index == nodes[k].parent_index))
        &&& (nodes[k].parent_index == -1 || 0 <= nodes[k].parent_index < k)
        &&& (nodes[k].parent_index == -1 ==> nodes[k].next_sibling_index == -1 && stores_top_node(t, nodes, attrs, values, regions, k))
    }
}

proof fn lemma_records_linked_stable(
    t: Seq<Seq<Seq<char>>>,
    nodes: Seq<NodeEntry>,
    attrs: Seq<AttributeEntry>,
    values: Seq<u8>,
    regions: Seq<Region>,
    t2: Seq<Seq<Seq<char>>>,
    attrs2: Seq<AttributeEntry>,
    values2: Seq<u8>,
    k: int,
)
    requires
        0 <= k < nodes.len(),
        stores_top_node(t, nodes, attrs, values, regions, k),
        extends(t, t2),
        attrs2.len() >= attrs.len(),
        attrs2.subrange(0, attrs.len() as int) == attrs,
        values2.len() >= values.len(),
        values2.subrange(0, values.len() as int) == values,
    ensures
        stores_top_node(t2, nodes, attrs2, values2, regions, k),
{
    let (g, q) = choose|g: int, q: int| 0 <= g < regions.len() && 0 <= q < regions[g].nodes@.len() && resolve(t, nodes[k].name_id) == Some(
        (#[trigger] regions[g].nodes@[q]).name@,
    ) && node_attrs_written(t, nodes[k], attrs, values, regions[g].nodes@[q]);
    lemma_resolve_stable(t, t2, nodes[k].name_id);
    lemma_attrs_written_stable(t, nodes[k], attrs, values, regions[g].nodes@[q], t2, attrs2, values2);
    assert(resolve(t2, nodes[k].name_id) == Some(regions[g].nodes@[q].name@));
}

/// Record `k` carries the name of `m` and stores its attributes.
pub open spec fn stores_node(t: Seq<Seq<Seq<char>>>, nodes: Seq<NodeEntry>, attrs: Seq<AttributeEntry>, values: Seq<u8>, k: int, m: Node) -> bool {
    0 <= k < nodes.len() && resolve(t, nodes[k].name_id) == Some(m.name@) && node_attrs_written(t, nodes[k], attrs, values, m)
}

/// Some record whose parent index is `k` stores the node `c`.
#[verifier::opaque]
pub open spec fn child_recorded(t: Seq<Seq<Seq<char>>>, nodes: Seq<NodeEntry>, attrs: Seq<AttributeEntry>, values: Seq<u8>, k: int, c: Node) -> bool {
    exists|k2: int| #[trigger] stores_node(t, nodes, attrs, values, k2, c) && nodes[k2].parent_index == k
}

/// Some node record stores `m`, and for each child of `m` a record naming
/// that record as its parent stores the child.
#[verifier::opaque]
pub open spec fn has_record_for(
    t: Seq<Seq<Seq<char>>>,
    nodes: Seq<NodeEntry>,
    attrs: Seq<AttributeEntry>,
    values: Seq<u8>,
    m: Node,
) -> bool {
    exists|k: int| #[trigger] stores_node(t, nodes, attrs, values, k, m) && forall|c: int| 0 <= c < m.children@.len() ==> child_recorded(
        t,
        nodes,
        attrs,
        values,
        k,
        #[trigger] m.children@[c],
    )
}

/// Every node of the tree `n`, at every depth, has a node record that
/// carries its name and stores its attributes, with a record for each of its
/// children that names it as parent.
pub open spec fn tree_written(
    t: Seq<Seq<Seq<char>>>,
    nodes: Seq<NodeEntry>,
    attrs: Seq<AttributeEntry>,
    values: Seq<u8>,
    n: Node,
) -> bool {
    forall|p: Seq<int>| #[trigger] subnode(n, p) is Some ==> has_record_for(t, nodes, attrs, values, subnode(n, p)->0)
}

/// Records keep what they store when the pool is extended, records and
/// payloads are only appended, and node records keep their name, first
/// attribute and parent.
pub open spec fn records_kept(
    t: Seq<Seq<Seq<char>>>,
    nodes: Seq<NodeEntry>,
    attrs: Seq<AttributeEntry>,
    values: Seq<u8>,
    t2: Seq<Seq<Seq<char>>>,
    nodes2: Seq<NodeEntry>,
    attrs2: Seq<AttributeEntry>,
    values2: Seq<u8>,
) -> bool {
    &&& extends(t, t2)
    &&& nodes2.len() >= nodes.len()
    &&& forall|k: int| 0 <= k < nodes.len() ==> (#[trigger] nodes2[k]).name_id == nodes[k].name_id
        && nodes2[k].first_attribute_index == nodes[k].first_attribute_index && nodes2[k].parent_index == nodes[k].parent_index
    &&& attrs2.len() >= attrs.len()
    &&& attrs2.subrange(0, attrs.len() as int) == attrs
    &&& values2.len() >= values.len()
    &&& values2.subrange(0, values.len() as int) == values
}

proof fn lemma_stores_kept(
    t: Seq<Seq<Seq<char>>>, nodes: Seq<NodeEntry>, attrs: Seq<AttributeEntry>, values: Seq<u8>,
    t2: Seq<Seq<Seq<char>>>, nodes2: Seq<NodeEntry>, attrs2: Seq<AttributeEntry>, values2: Seq<u8>,
    k: int, m: Node,
)
    requires
        records_kept(t, nodes, attrs, values, t2, nodes2, attrs2, values2),
        stores_node(t, nodes, attrs, values, k, m),
    ensures
        stores_node(t2, nodes2, attrs2, values2, k, m),
        nodes2[k].parent_index == nodes[k].parent_index,
{
    lemma_resolve_stable(t, t2, nodes[k].name_id);
    lemma_attrs_written_stable(t, nodes[k], attrs, values, m, t2, attrs2, values2);
    assert(node_attrs_written(t2, nodes2[k], attrs2, values2, m));
}

proof fn lemma_child_recorded_kept(
    t: Seq<Seq<Seq<char>>>, nodes: Seq<NodeEntry>, attrs: Seq<AttributeEntry>, values: Seq<u8>,
    t2: Seq<Seq<Seq<char>>>, nodes2: Seq<NodeEntry>, attrs2: Seq<AttributeEntry>, values2: Seq<u8>,
    k: int, c: Node,
)
    requires
        records_kept(t, nodes, attrs, values, t2, nodes2, attrs2, values2),
        child_recorded(t, nodes, attrs, values, k, c),
    ensures
        child_recorded(t2, nodes2, attrs2, values2, k, c),
{
    reveal(child_recorded);
    let k2 = choose|k2: int| #[trigger] stores_node(t, nodes, attrs, values, k2, c) && nodes[k2].parent_index == k;
    lemma_stores_kept(t, nodes, attrs, values, t2, nodes2, attrs2, values2, k2, c);
}

proof fn lemma_child_recorded_intro(
    t: Seq<Seq<Seq<char>>>, nodes: Seq<NodeEntry>, attrs: Seq<AttributeEntry>, values: Seq<u8>, k: int, k2: int, c: Node,
)
    requires
        stores_node(t, nodes, attrs, values, k2, c),
        nodes[k2].parent_index == k,
    ensures
        child_recorded(t, nodes, attrs, values, k, c),
{
    reveal(child_recorded);
}

proof fn lemma_has_record_intro(
    t: Seq<Seq<Seq<char>>>, nodes: Seq<NodeEntry>, attrs: Seq<AttributeEntry>, values: Seq<u8>, k: int, m: Node,
)
    requires
        stores_node(t, nodes, attrs, values, k, m),
        forall|c: int| 0 <= c < m.children@.len() ==> child_recorded(t, nodes, attrs, values, k, #[trigger] m.children@[c]),
    ensures
        has_record_for(t, nodes, attrs, values, m),
{
    reveal(has_record_for);
}

proof fn lemma_tree_written_stable(
    t: Seq<Seq<Seq<char>>>,
    nodes: Seq<NodeEntry>,
    attrs: Seq<AttributeEntry>,
    values: Seq<u8>,
    n: Node,
    t2: Seq<Seq<Seq<char>>>,
    nodes2: Seq<NodeEntry>,
    attrs2: Seq<AttributeEntry>,
    values2: Seq<u8>,
)
    requires
        tree_written(t, nodes, attrs, values, n),
        records_kept(t, nodes, attrs, values, t2, nodes2, attrs2, values2),
    ensures
        tree_written(t2, nodes2, attrs2, values2, n),
{
    reveal(has_record_for);
    assert forall|p: Seq<int>| #[trigger] subnode(n, p) is Some implies has_record_for(t2, nodes2, attrs2, values2, subnode(n, p)->0) by {
        let m = subnode(n, p)->0;
        assert(has_record_for(t, nodes, attrs, values, m));
        let k = choose|k: int| #[trigger] stores_node(t, nodes, attrs, values, k, m) && forall|c: int| 0 <= c < m.children@.len() ==> child_recorded(
            t, nodes, attrs, values, k, #[trigger] m.children@[c]);
        lemma_stores_kept(t, nodes, attrs, values, t2, nodes2, attrs2, values2, k, m);
        assert forall|c: int| 0 <= c < m.children@.len() implies child_recorded(t2, nodes2, attrs2, values2, k, #[trigger] m.children@[c]) by {
            lemma_child_recorded_kept(t, nodes, attrs, values, t2, nodes2, attrs2, values2, k, m.children@[c]);
        }
    }
}

/// Appends the attribute records and payloads of one node; returns the index
/// of its first attribute record, or -1 where it has none.
fn flatten_attributes(node: &Node, f: &mut Flat) -> (r: Result<i32, LsfError>)
    requires
        flat_ok(*old(f)),
        attribute_links_forward(old(f).attributes@),
    ensures
        flat_ok(*final(f)),
        extends(old(f).table@, final(f).table@),
        r is Ok ==> attribute_links_forward(final(f).attributes@),
        final(f).nodes@ == old(f).nodes@,
        final(f).attributes@.len() >= old(f).attributes@.len(),
        r matches Ok(first) ==> first == -1 || 0 <= first < final(f).attributes@.len(),
        r is Ok ==> final(f).attributes@.len() == old(f).attributes@.len() + node.attributes@.len(),
        r matches Ok(first) ==> first == (if node.attributes@.len() == 0 { -1 } else { old(f).attributes@.len() as int }),
        r is Ok ==> final(f).values@.len() >= old(f).values@.len() && final(f).values@.subrange(0, old(f).values@.len() as int) == old(f).values@,
        r is Ok ==> forall|k: int| 0 <= k < node.attributes@.len() ==> attr_record_ok(
            final(f).table@,
            #[trigger] final(f).attributes@[old(f).attributes@.len() + k],
            node.attributes@[k],
            final(f).values@,
        ) && final(f).attributes@[old(f).attributes@.len() + k].next_attribute_index == (if k + 1 < node.attributes@.len() {
            old(f).attributes@.len() + k + 1
        } else {
            -1
        }),
        r is Ok ==> final(f).attributes@.subrange(0, old(f).attributes@.len() as int) == old(f).attributes@,
        r is Ok && accounted(*old(f)) ==> accounted(*final(f)),
        r is Ok && blob_tiled(old(f).attributes@, old(f).values@) ==> blob_tiled(final(f).attributes@, final(f).values@),
        (accounted(*old(f)) && old(f).nodes@.len() + old(f).attributes@.len() + node.attributes@.len() <= MAX_WRITABLE_RECORDS
            && forall|k: int| 0 <= k < node.attributes@.len() ==> attr_fits(#[trigger] node.attributes@[k])) ==> r is Ok,
{
    let ghost good = accounted(*f) && f.nodes@.len() + f.attributes@.len() + node.attributes@.len() <= MAX_WRITABLE_RECORDS
        && forall|k: int| 0 <= k < node.attributes@.len() ==> attr_fits(#[trigger] node.attributes@[k]);
    let ghost acc = accounted(*f);
    let ghost tiled = blob_tiled(f.attributes@, f.values@);
    proof {
        lemma_extends_refl(f.table@);
    }
    let count = node.attributes.len();
    if count == 0 {
        proof {
            assert(f.attributes@.subrange(0, f.attributes@.len() as int) =~= f.attributes@);
            assert(f.values@.subrange(0, f.values@.len() as int) =~= f.values@);
        }
        return Ok(-1);
    }
    let first = f.attributes.len();
    if count > MAX_RECORDS - first {
        return Err(LsfError::LimitExceeded);
    }
    let mut k: usize = 0;
    while k < count
        invariant
            flat_ok(*f),
            extends(old(f).table@, f.table@),
            f.nodes@ == old(f).nodes@,
            count == node.attributes@.len(),
            first == old(f).attributes@.len(),
            first + count <= MAX_RECORDS,
            k <= count,
            f.attributes@.len() == first + k,
            f.attributes@.subrange(0, first as int) == old(f).attributes@,
            attribute_links_forward(old(f).attributes@),
            forall|j: int| #![trigger f.attributes@[j]] first <= j < first + k ==> f.attributes@[j].next_attribute_index
                == if j + 1 < first + count { j + 1 } else { -1 },
            acc == accounted(*old(f)),
            acc ==> accounted(*f),
            good ==> acc && first + count + f.nodes@.len() <= MAX_WRITABLE_RECORDS,
            good ==> forall|q: int| 0 <= q < node.attributes@.len() ==> attr_fits(#[trigger] node.attributes@[q]),
            f.values@.len() >= old(f).values@.len(),
            f.values@.subrange(0, old(f).values@.len() as int) == old(f).values@,
            forall|q: int| 0 <= q < k ==> attr_record_ok(f.table@, #[trigger] f.attributes@[first + q], node.attributes@[q], f.values@),
            tiled == blob_tiled(old(f).attributes@, old(f).values@),
            tiled ==> blob_tiled(f.attributes@, f.values@),
        decreases count - k,
    {
        let (name, attr) = (&node.attributes[k].0, &node.attributes[k].1);
        let ghost t0 = f.table@;
        proof {
            if good {
                assert(attr_fits(node.attributes@[k as int]));
            }
        }
        let interned = intern_name(&mut f.table, name);
        proof {
            lemma_extends_trans(old(f).table@, t0, f.table@);
        }
        let name_id = interned?;
        if !is_encodable(&attr.value) {
            return Err(LsfError::LimitExceeded);
        }
        let offset = f.values.len();
        if offset > u32::MAX as usize {
            return Err(LsfError::LimitExceeded);
        }
        let ghost v0 = f.values@;
        let ghost t3 = f.table@;
        encode_value(&mut f.values, &attr.value);
        let len = f.values.len() - offset;
        proof {
            assert(len == value_bytes(attr.value).len());
        }
        if len > MAX_VALUE_SIZE as usize {
            return Err(LsfError::LimitExceeded);
        }
        let id = attr.attribute_type.id() as u32;
        let next: i32 = if k + 1 < count { (first + k + 1) as i32 } else { -1 };
        let ghost before = f.attributes@;
        f.attributes.push(AttributeEntry {
            name_hash_table_index: name_id,
            type_and_length: id + (len as u32) * 64,
            next_attribute_index: next,
            offset: offset as u32,
        });
        proof {
            let tl = (id + (len as u32) * 64) as int;
            assert(tl / 64 == len) by (nonlinear_arith)
                requires
                    tl == id + len * 64,
                    0 <= id < 64,
                    0 <= len,
            ;
            if tiled {
                lemma_tiled_push(before, v0, f.attributes@[before.len() as int], value_bytes(attr.value));
                assert(f.attributes@ =~= before.push(f.attributes@[before.len() as int]));
            }
            if acc {
                assert(f.values@.len() <= f.attributes@.len() * MAX_VALUE_SIZE) by (nonlinear_arith)
                    requires
                        f.values@.len() == v0.len() + len,
                        v0.len() <= before.len() * MAX_VALUE_SIZE,
                        len <= MAX_VALUE_SIZE,
                        f.attributes@.len() == before.len() + 1,
                ;
            }
            assert(f.attributes@.subrange(0, first as int) =~= before.subrange(0, first as int));
            assert(f.values@.subrange(0, old(f).values@.len() as int) =~= v0.subrange(0, old(f).values@.len() as int));
            assert forall|q: int| 0 <= q < k + 1 implies attr_record_ok(f.table@, #[trigger] f.attributes@[first + q], node.attributes@[q], f.values@) by {
                if q < k {
                    let r = before[first + q];
                    assert(f.attributes@[first + q] == r);
                    let len = value_bytes(node.attributes@[q].1.value).len();
                    assert(f.values@.subrange(r.offset as int, r.offset + len) =~= v0.subrange(r.offset as int, r.offset + len));
                } else {
                    assert(f.values@.subrange(offset as int, offset + len) =~= value_bytes(attr.value));
                    assert(node.attributes@[q] == (*name, *attr));
                }
            }
            assert forall|j: int| #![trigger f.attributes@[j]] first <= j < first + k + 1 implies f.attributes@[j].next_attribute_index
                == if j + 1 < first + count { j + 1 } else { -1 } by {
                if j < before.len() {
                    assert(f.attributes@[j] == before[j]);
                }
            }
        }
        k = k + 1;
    }
    proof {
        let a = f.attributes@;
        assert(a.subrange(0, old(f).attributes@.len() as int) == old(f).attributes@);
        assert forall|j: int| #![trigger a[j]] 0 <= j < a.len() implies (a[j].next_attribute_index == -1
            || j < a[j].next_attribute_index < a.len()) by {
            if j < first {
                assert(a[j] == a.subrange(0, first as int)[j]);
                assert(old(f).attributes@[j] == a[j]);
            }
        }
    }
    Ok(first as i32)
}

/// The pool id of a name; fails with `LimitExceeded` where the name or its
/// bucket's chain is too long for the layout.
fn intern_name(t: &mut StringTable, name: &String) -> (r: Result<u32, LsfError>)
    requires
        old(t)@.len() == BUCKET_COUNT,
        chains_fit(old(t)@),
        pool_canonical(old(t)@),
    ensures
        final(t)@.len() == BUCKET_COUNT,
        chains_fit(final(t)@),
        pool_canonical(final(t)@),
        extends(old(t)@, final(t)@),
        r matches Ok(id) ==> resolve(final(t)@, id) == Some(name@),
        r is Ok ==> table_total(final(t)@) <= table_total(old(t)@) + 1,
        encode_utf8(name@).len() <= 0xffff && table_total(old(t)@) < 0xffff ==> r is Ok,
{
    if name.as_str().as_bytes().len() > 0xffff {
        proof {
            lemma_extends_refl(t@);
        }
        return Err(LsfError::LimitExceeded);
    }
    let ghost t0 = t@;
    proof {
        assert(0 <= bucket_of(name@) < BUCKET_COUNT);
        lemma_bucket_within_total(t0, bucket_of(name@));
    }
    let r = intern(t, name);
    proof {
        if r is Some && !t0[bucket_of(name@)].contains(name@) {
            lemma_total_push(t0, bucket_of(name@), name@);
        }
    }
    match r {
        Some(id) => Ok(id),
        None => Err(LsfError::LimitExceeded),
    }
}

/// Appends the records of a node and its subtree, in preorder. Its record
/// names `parent`; each child but the last links to the next one.
fn flatten_node(node: &Node, parent: i32, f: &mut Flat) -> (r: Result<(), LsfError>)
    requires
        flat_ok(*old(f)),
        attribute_links_forward(old(f).attributes@),
        node_links_pending(old(f).nodes@, old(f).attributes@.len() as int),
        parent == -1 || 0 <= parent < old(f).nodes@.len(),
    ensures
        flat_ok(*final(f)),
        extends(old(f).table@, final(f).table@),
        r is Ok ==> final(f).nodes@[old(f).nodes@.len() as int].parent_index == parent,
        r is Ok ==> resolve(final(f).table@, final(f).nodes@[old(f).nodes@.len() as int].name_id) == Some(node.name@),
        r is Ok ==> attribute_links_forward(final(f).attributes@),
        r is Ok ==> node_links_forward(final(f).nodes@, final(f).attributes@.len() as int),
        r is Ok ==> final(f).nodes@.len() > old(f).nodes@.len(),
        r is Ok ==> final(f).nodes@.subrange(0, old(f).nodes@.len() as int) == old(f).nodes@,
        r is Ok ==> final(f).attributes@.len() >= old(f).attributes@.len(),
        r is Ok ==> final(f).nodes@.len() + final(f).attributes@.len() == old(f).nodes@.len() + old(f).attributes@.len() + tree_size(*node),
        r is Ok && accounted(*old(f)) ==> accounted(*final(f)),
        r is Ok ==> final(f).attributes@.subrange(0, old(f).attributes@.len() as int) == old(f).attributes@,
        r is Ok ==> final(f).values@.len() >= old(f).values@.len() && final(f).values@.subrange(0, old(f).values@.len() as int) == old(f).values@,
        r is Ok ==> node_attrs_written(final(f).table@, final(f).nodes@[old(f).nodes@.len() as int], final(f).attributes@, final(f).values@, *node),
        r is Ok ==> tree_written(final(f).table@, final(f).nodes@, final(f).attributes@, final(f).values@, *node),
        r is Ok && blob_tiled(old(f).attributes@, old(f).values@) ==> blob_tiled(final(f).attributes@, final(f).values@),
        r is Ok ==> subtree_links(final(f).nodes@, old(f).nodes@.len() as int, final(f).nodes@.len() as int, parent as int),
        (accounted(*old(f)) && node_fits(*node) && old(f).nodes@.len() + old(f).attributes@.len() + tree_size(*node)
            <= MAX_WRITABLE_RECORDS) ==> r is Ok,
    decreases node,
{
    proof {
        lemma_extends_refl(f.table@);
    }
    let idx = f.nodes.len();
    if idx >= MAX_RECORDS {
        return Err(LsfError::LimitExceeded);
    }
    let ghost good = accounted(*f) && node_fits(*node) && f.nodes@.len() + f.attributes@.len() + tree_size(*node)
        <= MAX_WRITABLE_RECORDS;
    let ghost acc = accounted(*f);
    let ghost tiled = blob_tiled(f.attributes@, f.values@);
    proof {
        if good {
            lemma_fits_here(*node);
        }
    }
    let interned = intern_name(&mut f.table, &node.name);
    let name_id = interned?;
    let ghost t1 = f.table@;
    let first: i32 = if node.attributes.len() == 0 { -1 } else { f.attributes.len() as i32 };
    let ghost before = f.nodes@;
    f.nodes.push(NodeEntry { name_id, parent_index: parent, next_sibling_index: -1, first_attribute_index: first });
    proof {
        assert(f.nodes@.subrange(0, before.len() as int) =~= before);
    }
    let ghost a0 = f.attributes@;
    let flat_attrs = flatten_attributes(node, f);
    proof {
        lemma_extends_trans(old(f).table@, t1, f.table@);
        lemma_resolve_stable(t1, f.table@, name_id);
    }
    let returned = flat_attrs?;
    proof {
        assert(returned == first);
        assert(f.nodes@[idx as int].first_attribute_index == first);
        assert(node_attrs_written(f.table@, f.nodes@[idx as int], f.attributes@, f.values@, *node)) by {
            let count = node.attributes@.len();
            if count > 0 {
                assert forall|k: int| 0 <= k < count implies attr_record_ok(
                    f.table@, #[trigger] f.attributes@[first as int + k], node.attributes@[k], f.values@)
                    && f.attributes@[first as int + k].next_attribute_index == (if k + 1 < count { first as int + k + 1 } else { -1 }) by {
                    assert(first as int == a0.len());
                    assert(f.attributes@[a0.len() + k] == f.attributes@[first as int + k]);
                }
            }
        }
        assert(children_size(*node, 0) == 0);
        assert(f.nodes@[idx as int].name_id == name_id);
        assert forall|k: int| #![trigger f.nodes@[k]] 0 <= k < f.nodes@.len() implies {
            &&& (f.nodes@[k].next_sibling_index == -1 || k < f.nodes@[k].next_sibling_index < f.nodes@.len())
            &&& (f.nodes@[k].parent_index == -1 || 0 <= f.nodes@[k].parent_index < k)
            &&& (f.nodes@[k].first_attribute_index == -1 || 0 <= f.nodes@[k].first_attribute_index < f.attributes@.len())
        } by {
            if k < before.len() {
                assert(f.nodes@[k] == old(f).nodes@[k]);
            }
        }
        assert(f.nodes@.subrange(0, old(f).nodes@.len() as int) =~= old(f).nodes@);
    }
    let count = node.children.len();
    let mut c: usize = 0;
    while c < count
        invariant
            flat_ok(*f),
            idx < f.nodes@.len(),
            idx < MAX_RECORDS,
            count == node.children@.len(),
            c <= count,
            attribute_links_forward(f.attributes@),
            node_links_pending(f.nodes@, f.attributes@.len() as int),
            forall|k: int| #![trigger f.nodes@[k]] 0 <= k < f.nodes@.len() && f.nodes@[k].next_sibling_index == f.nodes@.len() ==> c < count,
            f.nodes@.len() > old(f).nodes@.len(),
            f.nodes@.subrange(0, old(f).nodes@.len() as int) == old(f).nodes@,
            f.attributes@.len() >= old(f).attributes@.len(),
            extends(old(f).table@, f.table@),
            idx == old(f).nodes@.len(),
            f.nodes@[idx as int].parent_index == parent,
            resolve(f.table@, f.nodes@[idx as int].name_id) == Some(node.name@),
            f.nodes@.len() + f.attributes@.len() == old(f).nodes@.len() + old(f).attributes@.len() + 1 + node.attributes@.len()
                + children_size(*node, c as int),
            acc == accounted(*old(f)),
            acc ==> accounted(*f),
            good == (accounted(*old(f)) && node_fits(*node) && old(f).nodes@.len() + old(f).attributes@.len() + tree_size(*node)
                <= MAX_WRITABLE_RECORDS),
            f.attributes@.subrange(0, old(f).attributes@.len() as int) == old(f).attributes@,
            f.values@.len() >= old(f).values@.len(),
            f.values@.subrange(0, old(f).values@.len() as int) == old(f).values@,
            node_attrs_written(f.table@, f.nodes@[idx as int], f.attributes@, f.values@, *node),
            forall|cc: int| 0 <= cc < c ==> tree_written(f.table@, f.nodes@, f.attributes@, f.values@, #[trigger] node.children@[cc])
                && child_recorded(f.table@, f.nodes@, f.attributes@, f.values@, idx as int, node.children@[cc]),
            f.nodes@[idx as int].next_sibling_index == -1,
            tiled == blob_tiled(old(f).attributes@, old(f).values@),
            tiled ==> blob_tiled(f.attributes@, f.values@),
            forall|k: int| #![trigger f.nodes@[k]] idx < k < f.nodes@.len() ==> idx <= f.nodes@[k].parent_index < k,
            forall|k: int| #![trigger f.nodes@[k]] idx < k < f.nodes@.len() ==> (f.nodes@[k].next_sibling_index == -1 || (
                k < f.nodes@[k].next_sibling_index <= f.nodes@.len() && (f.nodes@[k].next_sibling_index < f.nodes@.len()
                ==> f.nodes@[f.nodes@[k].next_sibling_index as int].parent_index == f.nodes@[k].parent_index)
                && (f.nodes@[k].next_sibling_index == f.nodes@.len() ==> f.nodes@[k].parent_index == idx))),
        decreases count - c,
    {
        let child_idx = f.nodes.len();
        let ghost mid = f.nodes@;
        let ghost t2 = f.table@;
        proof {
            assert(children_size(*node, c + 1) == children_size(*node, c as int) + tree_size(node.children@[c as int]));
            lemma_children_size_grows(*node, c + 1, count as int);
            assert(tree_size(*node) == 1 + node.attributes@.len() + children_size(*node, count as int));
            if good {
                lemma_child_fits(*node, c as int);
                assert(accounted(*f));
                assert(f.nodes@.len() + f.attributes@.len() + tree_size(node.children@[c as int]) <= MAX_WRITABLE_RECORDS);
            }
        }
        let ghost (a2, v2, e2, n2) = (f.attributes@, f.values@, f.nodes@[idx as int], f.nodes@);
        let done = flatten_node(&node.children[c], idx as i32, f);
        proof {
            lemma_extends_trans(old(f).table@, t2, f.table@);
        }
        done?;
        proof {
            assert forall|k: int| #![trigger f.nodes@[k]] idx < k < f.nodes@.len() implies idx <= f.nodes@[k].parent_index < k
                && (f.nodes@[k].next_sibling_index == -1 || (
                k < f.nodes@[k].next_sibling_index <= f.nodes@.len() && (f.nodes@[k].next_sibling_index < f.nodes@.len()
                ==> f.nodes@[f.nodes@[k].next_sibling_index as int].parent_index == f.nodes@[k].parent_index)
                && (f.nodes@[k].next_sibling_index == f.nodes@.len() ==> f.nodes@[k].parent_index == idx))) by {
                if k < mid.len() {
                    assert(f.nodes@[k] == f.nodes@.subrange(0, mid.len() as int)[k]);
                    assert(mid[k] == f.nodes@[k]);
                }
            }
            assert(f.nodes@[idx as int] == f.nodes@.subrange(0, mid.len() as int)[idx as int]);
        }
        proof {
            lemma_resolve_stable(t2, f.table@, mid[idx as int].name_id);
            assert(f.nodes@[idx as int] == f.nodes@.subrange(0, mid.len() as int)[idx as int]);
            lemma_attrs_written_stable(t2, e2, a2, v2, *node, f.table@, f.attributes@, f.values@);
            assert forall|k: int| 0 <= k < n2.len() implies (#[trigger] f.nodes@[k]).name_id == n2[k].name_id
                && f.nodes@[k].first_attribute_index == n2[k].first_attribute_index && f.nodes@[k].parent_index == n2[k].parent_index by {
                assert(f.nodes@[k] == f.nodes@.subrange(0, n2.len() as int)[k]);
            }
            assert(records_kept(t2, n2, a2, v2, f.table@, f.nodes@, f.attributes@, f.values@));
            assert forall|cc: int| 0 <= cc < c implies tree_written(f.table@, f.nodes@, f.attributes@, f.values@, #[trigger] node.children@[cc])
                && child_recorded(f.table@, f.nodes@, f.attributes@, f.values@, idx as int, node.children@[cc]) by {
                lemma_tree_written_stable(t2, n2, a2, v2, node.children@[cc], f.table@, f.nodes@, f.attributes@, f.values@);
                lemma_child_recorded_kept(t2, n2, a2, v2, f.table@, f.nodes@, f.attributes@, f.values@, idx as int, node.children@[cc]);
            }
            assert(stores_node(f.table@, f.nodes@, f.attributes@, f.values@, child_idx as int, node.children@[c as int]));
            lemma_child_recorded_intro(f.table@, f.nodes@, f.attributes@, f.values@, idx as int, child_idx as int, node.children@[c as int]);
            assert(f.attributes@.subrange(0, old(f).attributes@.len() as int) =~= a2.subrange(0, old(f).attributes@.len() as int));
            assert(f.values@.subrange(0, old(f).values@.len() as int) =~= v2.subrange(0, old(f).values@.len() as int));
        }
        proof {
            assert(f.nodes@.subrange(0, old(f).nodes@.len() as int) =~= mid.subrange(0, old(f).nodes@.len() as int)) by {
                assert forall|k: int| 0 <= k < old(f).nodes@.len() implies f.nodes@[k] == mid[k] by {
                    assert(f.nodes@.subrange(0, mid.len() as int)[k] == mid[k]);
                }
            }
        }
        if c + 1 < count {
            if f.nodes.len() > MAX_RECORDS {
                return Err(LsfError::LimitExceeded);
            }
            let next = f.nodes.len() as i32;
            let mut e = f.nodes[child_idx];
            e.next_sibling_index = next;
            let ghost patched = f.nodes@;
            f.nodes.set(child_idx, e);
            proof {
                assert(f.nodes@[child_idx as int].parent_index == patched[child_idx as int].parent_index);
                assert(f.nodes@[idx as int] == patched[idx as int]);
                assert forall|k: int| #![trigger f.nodes@[k]] 0 <= k < f.nodes@.len() implies {
                    &&& (f.nodes@[k].next_sibling_index == -1 || k < f.nodes@[k].next_sibling_index <= f.nodes@.len())
                    &&& (f.nodes@[k].parent_index == -1 || 0 <= f.nodes@[k].parent_index < k)
                    &&& (f.nodes@[k].first_attribute_index == -1 || 0 <= f.nodes@[k].first_attribute_index < f.attributes@.len())
                } by {
                    if k != child_idx {
                        assert(f.nodes@[k] == patched[k]);
                    }
                }
                assert forall|k: int| 0 <= k < old(f).nodes@.len() implies f.nodes@[k] == patched[k] by {}
                assert forall|k: int| #![trigger f.nodes@[k]] idx < k < f.nodes@.len() implies idx <= f.nodes@[k].parent_index < k
                    && (f.nodes@[k].next_sibling_index == -1 || (
                    k < f.nodes@[k].next_sibling_index <= f.nodes@.len() && (f.nodes@[k].next_sibling_index < f.nodes@.len()
                    ==> f.nodes@[f.nodes@[k].next_sibling_index as int].parent_index == f.nodes@[k].parent_index)
                    && (f.nodes@[k].next_sibling_index == f.nodes@.len() ==> f.nodes@[k].parent_index == idx))) by {
                    if k != child_idx {
                        assert(f.nodes@[k] == patched[k]);
                    }
                }
                assert forall|k: int| 0 <= k < patched.len() implies (#[trigger] f.nodes@[k]).name_id == patched[k].name_id
                    && f.nodes@[k].first_attribute_index == patched[k].first_attribute_index by {}
                lemma_extends_refl(f.table@);
                assert(f.attributes@.subrange(0, f.attributes@.len() as int) =~= f.attributes@);
                assert(f.values@.subrange(0, f.values@.len() as int) =~= f.values@);
                assert forall|k: int| 0 <= k < patched.len() implies (#[trigger] f.nodes@[k]).name_id == patched[k].name_id
                    && f.nodes@[k].first_attribute_index == patched[k].first_attribute_index && f.nodes@[k].parent_index == patched[k].parent_index by {}
                assert(records_kept(f.table@, patched, f.attributes@, f.values@, f.table@, f.nodes@, f.attributes@, f.values@));
                assert forall|cc: int| 0 <= cc < c + 1 implies tree_written(f.table@, f.nodes@, f.attributes@, f.values@, #[trigger] node.children@[cc])
                    && child_recorded(f.table@, f.nodes@, f.attributes@, f.values@, idx as int, node.children@[cc]) by {
                    lemma_tree_written_stable(f.table@, patched, f.attributes@, f.values@, node.children@[cc], f.table@, f.nodes@, f.attributes@, f.values@);
                    lemma_child_recorded_kept(f.table@, patched, f.attributes@, f.values@, f.table@, f.nodes@, f.attributes@, f.values@, idx as int, node.children@[cc]);
                }
                assert(f.nodes@.subrange(0, old(f).nodes@.len() as int) =~= patched.subrange(0, old(f).nodes@.len() as int));
            }
        }
        c = c + 1;
    }
    proof {
        assert forall|p: Seq<int>| #[trigger] subnode(*node, p) is Some implies has_record_for(
            f.table@, f.nodes@, f.attributes@, f.values@, subnode(*node, p)->0) by {
            if p.len() == 0 {
                assert(subnode(*node, p) == Some(*node));
                assert(resolve(f.table@, f.nodes@[idx as int].name_id) == Some(node.name@));
                assert(stores_node(f.table@, f.nodes@, f.attributes@, f.values@, idx as int, *node));
                lemma_has_record_intro(f.table@, f.nodes@, f.attributes@, f.values@, idx as int, *node);
            } else {
                let cc = p[0];
                assert(subnode(*node, p) == subnode(node.children@[cc], p.drop_first()));
                assert(tree_written(f.table@, f.nodes@, f.attributes@, f.values@, node.children@[cc]));
                assert(subnode(node.children@[cc], p.drop_first()) is Some);
            }
        }
    }
    Ok(())
}

/// Some root record (parent index -1) carries the name of `n` and stores
/// its attributes.
pub open spec fn has_root_for(
    t: Seq<Seq<Seq<char>>>,
    nodes: Seq<NodeEntry>,
    attrs: Seq<AttributeEntry>,
    values: Seq<u8>,
    n: Node,
) -> bool {
    exists|k: int| 0 <= k < nodes.len() && (#[trigger] nodes[k]).parent_index == -1 && resolve(t, nodes[k].name_id) == Some(n.name@)
        && node_attrs_written(t, nodes[k], attrs, values, n)
}

/// Every top-level node of the regions is written as a root record of its
/// name, with its attributes, and every node below it has a record of its
/// name with its attributes.
pub open spec fn roots_written(
    regions: Seq<Region>,
    t: Seq<Seq<Seq<char>>>,
    nodes: Seq<NodeEntry>,
    attrs: Seq<AttributeEntry>,
    values: Seq<u8>,
) -> bool {
    forall|g: int, q: int| 0 <= g < regions.len() && 0 <= q < regions[g].nodes@.len() ==> has_root_for(
        t,
        nodes,
        attrs,
        values,
        #[trigger] regions[g].nodes@[q],
    ) && tree_written(t, nodes, attrs, values, regions[g].nodes@[q])
}

proof fn lemma_root_for_stable(
    t: Seq<Seq<Seq<char>>>,
    nodes: Seq<NodeEntry>,
    attrs: Seq<AttributeEntry>,
    values: Seq<u8>,
    t2: Seq<Seq<Seq<char>>>,
    nodes2: Seq<NodeEntry>,
    attrs2: Seq<AttributeEntry>,
    values2: Seq<u8>,
    n: Node,
)
    requires
        has_root_for(t, nodes, attrs, values, n),
        extends(t, t2),
        nodes2.len() >= nodes.len(),
        nodes2.subrange(0, nodes.len() as int) == nodes,
        attrs2.len() >= attrs.len(),
        attrs2.subrange(0, attrs.len() as int) == attrs,
        values2.len() >= values.len(),
        values2.subrange(0, values.len() as int) == values,
    ensures
        has_root_for(t2, nodes2, attrs2, values2, n),
{
    let k = choose|k: int| 0 <= k < nodes.len() && (#[trigger] nodes[k]).parent_index == -1 && resolve(t, nodes[k].name_id) == Some(n.name@)
        && node_attrs_written(t, nodes[k], attrs, values, n);
    assert(nodes2[k] == nodes2.subrange(0, nodes.len() as int)[k]);
    lemma_resolve_stable(t, t2, nodes[k].name_id);
    lemma_attrs_written_stable(t, nodes[k], attrs, values, n, t2, attrs2, values2);
}

proof fn lemma_linked_extend(
    t0: Seq<Seq<Seq<char>>>,
    n0: Seq<NodeEntry>,
    a0: Seq<AttributeEntry>,
    v0: Seq<u8>,
    t: Seq<Seq<Seq<char>>>,
    n: Seq<NodeEntry>,
    a: Seq<AttributeEntry>,
    v: Seq<u8>,
    regions: Seq<Region>,
    g: int,
    k: int,
)
    requires
        records_linked(t0, n0, a0, v0, regions),
        subtree_links(n, n0.len() as int, n.len() as int, -1),
        n.subrange(0, n0.len() as int) == n0,
        extends(t0, t),
        a.len() >= a0.len(),
        a.subrange(0, a0.len() as int) == a0,
        v.len() >= v0.len(),
        v.subrange(0, v0.len() as int) == v0,
        0 <= g < regions.len(),
        0 <= k < regions[g].nodes@.len(),
        resolve(t, n[n0.len() as int].name_id) == Some(regions[g].nodes@[k].name@),
        node_attrs_written(t, n[n0.len() as int], a, v, regions[g].nodes@[k]),
    ensures
        records_linked(t, n, a, v, regions),
{
    reveal(records_linked);
    let e = n.len() as int;
    let st = n0.len() as int;
    assert forall|x: int| #![trigger n[x]] 0 <= x < e implies {
        &&& (n[x].next_sibling_index == -1 || (x < n[x].next_sibling_index < e
            && n[n[x].next_sibling_index as int].parent_index == n[x].parent_index))
        &&& (n[x].parent_index == -1 || 0 <= n[x].parent_index < x)
        &&& (n[x].parent_index == -1 ==> n[x].next_sibling_index == -1 && stores_top_node(t, n, a, v, regions, x))
    } by {
        if x < st {
            assert(n[x] == n.subrange(0, st)[x]);
            if n0[x].next_sibling_index != -1 {
                let y = n0[x].next_sibling_index as int;
                assert(n[y] == n.subrange(0, st)[y]);
            }
            if n0[x].parent_index == -1 {
                assert(stores_top_node(t0, n0, a0, v0, regions, x));
                lemma_records_linked_stable(t0, n0, a0, v0, regions, t, a, v, x);
                let (g3, q3) = choose|g3: int, q3: int| 0 <= g3 < regions.len() && 0 <= q3 < regions[g3].nodes@.len()
                    && resolve(t, n0[x].name_id) == Some((#[trigger] regions[g3].nodes@[q3]).name@)
                    && node_attrs_written(t, n0[x], a, v, regions[g3].nodes@[q3]);
                assert(resolve(t, n[x].name_id) == Some(regions[g3].nodes@[q3].name@));
            }
        } else if x == st {
            assert(resolve(t, n[st].name_id) == Some(regions[g].nodes@[k].name@));
        }
    }
}

proof fn lemma_linked_start(t: Seq<Seq<Seq<char>>>, a: Seq<AttributeEntry>, v: Seq<u8>, regions: Seq<Region>)
    ensures
        records_linked(t, Seq::<NodeEntry>::empty(), a, v, regions),
{
    reveal(records_linked);
}

proof fn lemma_linked_retable(
    t: Seq<Seq<Seq<char>>>,
    n: Seq<NodeEntry>,
    a: Seq<AttributeEntry>,
    v: Seq<u8>,
    regions: Seq<Region>,
    t2: Seq<Seq<Seq<char>>>,
)
    requires
        records_linked(t, n, a, v, regions),
        extends(t, t2),
    ensures
        records_linked(t2, n, a, v, regions),
{
    reveal(records_linked);
    assert(a.subrange(0, a.len() as int) =~= a);
    assert(v.subrange(0, v.len() as int) =~= v);
    assert forall|x: int| #![trigger n[x]] 0 <= x < n.len() && n[x].parent_index == -1 implies stores_top_node(t2, n, a, v, regions, x) by {
        lemma_records_linked_stable(t, n, a, v, regions, t2, a, v, x);
    }
}

/// Flattens every region's nodes, region by region, in preorder.
pub fn flatten_resource(res: &Resource) -> (r: Result<Flat, LsfError>)
    ensures
        r matches Ok(f) ==> flat_ok(f) && attribute_links_forward(f.attributes@)
            && node_links_forward(f.nodes@, f.attributes@.len() as int)
            && roots_written(res.regions@, f.table@, f.nodes@, f.attributes@, f.values@)
            && f.values@.len() <= f.attributes@.len() * MAX_VALUE_SIZE
            && table_total(f.table@) <= f.nodes@.len() + f.attributes@.len() + res.regions@.len()
            && f.nodes@.len() + f.attributes@.len() == regions_size(res.regions@)
            && (forall|g: int| 0 <= g < res.regions@.len() ==> pooled(f.table@, (#[trigger] res.regions@[g]).name@))
            && records_linked(f.table@, f.nodes@, f.attributes@, f.values@, res.regions@)
            && blob_tiled(f.attributes@, f.values@),
        writable(*res) ==> r is Ok,
{
    let mut f = Flat { table: new_table(), nodes: Vec::new(), attributes: Vec::new(), values: Vec::new() };
    proof {
        assert forall|b: int| 0 <= b < f.table@.len() implies (#[trigger] f.table@[b]).len() <= 0xffff
            && forall|c: int| 0 <= c < f.table@[b].len() ==> encode_utf8(#[trigger] f.table@[b][c]).len() <= 0xffff by {}
    }
    proof {
        lemma_linked_start(f.table@, f.attributes@, f.values@, res.regions@);
        lemma_tiled_empty(f.values@);
        assert(f.attributes@ =~= Seq::<AttributeEntry>::empty());
        assert(f.nodes@ =~= Seq::<NodeEntry>::empty());
        lemma_total_empty(f.table@);
        assert(res.regions@.subrange(0, 0) =~= Seq::<Region>::empty());
    }
    let ghost good = writable(*res);
    let mut g: usize = 0;
    while g < res.regions.len()
        invariant
            good == writable(*res),
            accounted(f),
            f.nodes@.len() + f.attributes@.len() == regions_size(res.regions@.subrange(0, g as int)),
            records_linked(f.table@, f.nodes@, f.attributes@, f.values@, res.regions@),
            blob_tiled(f.attributes@, f.values@),
            flat_ok(f),
            attribute_links_forward(f.attributes@),
            node_links_forward(f.nodes@, f.attributes@.len() as int),
            g <= res.regions@.len(),
            forall|h: int, q: int| 0 <= h < g && 0 <= q < res.regions@[h].nodes@.len() ==> has_root_for(
                f.table@,
                f.nodes@,
                f.attributes@,
                f.values@,
                #[trigger] res.regions@[h].nodes@[q],
            ) && tree_written(f.table@, f.nodes@, f.attributes@, f.values@, res.regions@[h].nodes@[q]),
        decreases res.regions@.len() - g,
    {
        let region = &res.regions[g];
        let mut k: usize = 0;
        proof {
            assert(region.nodes@.subrange(0, 0) =~= Seq::<Node>::empty());
        }
        while k < region.nodes.len()
            invariant
                good == writable(*res),
                accounted(f),
                records_linked(f.table@, f.nodes@, f.attributes@, f.values@, res.regions@),
                blob_tiled(f.attributes@, f.values@),
                f.nodes@.len() + f.attributes@.len() == regions_size(res.regions@.subrange(0, g as int)) + forest_size(
                    region.nodes@.subrange(0, k as int),
                ),
                flat_ok(f),
                attribute_links_forward(f.attributes@),
                node_links_forward(f.nodes@, f.attributes@.len() as int),
                k <= region.nodes@.len(),
                region == &res.regions@[g as int],
                g < res.regions@.len(),
                forall|h: int, q: int| 0 <= h < g && 0 <= q < res.regions@[h].nodes@.len() ==> has_root_for(
                    f.table@,
                    f.nodes@,
                    f.attributes@,
                    f.values@,
                    #[trigger] res.regions@[h].nodes@[q],
                ) && tree_written(f.table@, f.nodes@, f.attributes@, f.values@, res.regions@[h].nodes@[q]),
                forall|q: int| 0 <= q < k ==> has_root_for(f.table@, f.nodes@, f.attributes@, f.values@, #[trigger] region.nodes@[q])
                    && tree_written(f.table@, f.nodes@, f.attributes@, f.values@, region.nodes@[q]),
            decreases region.nodes@.len() - k,
        {
            let ghost (t0, n0, a0, v0) = (f.table@, f.nodes@, f.attributes@, f.values@);
            proof {
                lemma_forest_prefix(region.nodes@, k as int, region.nodes@.len() as int);
                lemma_forest_prefix(region.nodes@, k + 1, region.nodes@.len() as int);
                lemma_regions_prefix(res.regions@, g as int, res.regions@.len() as int);
                lemma_regions_prefix(res.regions@, g + 1, res.regions@.len() as int);
                assert(region.nodes@.subrange(0, region.nodes@.len() as int) =~= region.nodes@);
                assert(res.regions@.subrange(0, res.regions@.len() as int) =~= res.regions@);
                if good {
                    assert(node_fits(res.regions@[g as int].nodes@[k as int]));
                    assert(forest_size(region.nodes@.subrange(0, k + 1)) <= forest_size(region.nodes@));
                    assert(regions_size(res.regions@.subrange(0, g + 1)) <= regions_size(res.regions@));
                    assert(f.nodes@.len() + f.attributes@.len() + tree_size(region.nodes@[k as int]) <= MAX_WRITABLE_RECORDS);
                }
            }
            flatten_node(&region.nodes[k], -1, &mut f)?;
            proof {
                lemma_linked_extend(t0, n0, a0, v0, f.table@, f.nodes@, f.attributes@, f.values@, res.regions@, g as int, k as int);
                assert(f.nodes@[n0.len() as int].parent_index == -1);
                assert(has_root_for(f.table@, f.nodes@, f.attributes@, f.values@, region.nodes@[k as int]));
                assert forall|h: int, q: int| 0 <= h < g && 0 <= q < res.regions@[h].nodes@.len() implies has_root_for(
                    f.table@,
                    f.nodes@,
                    f.attributes@,
                    f.values@,
                    #[trigger] res.regions@[h].nodes@[q],
                ) && tree_written(f.table@, f.nodes@, f.attributes@, f.values@, res.regions@[h].nodes@[q]) by {
                    lemma_root_for_stable(t0, n0, a0, v0, f.table@, f.nodes@, f.attributes@, f.values@, res.regions@[h].nodes@[q]);
                    lemma_tree_written_stable(t0, n0, a0, v0, res.regions@[h].nodes@[q], f.table@, f.nodes@, f.attributes@, f.values@);
                }
                assert forall|q: int| 0 <= q < k + 1 implies has_root_for(f.table@, f.nodes@, f.attributes@, f.values@, #[trigger] region.nodes@[q])
                    && tree_written(f.table@, f.nodes@, f.attributes@, f.values@, region.nodes@[q]) by {
                    if q < k {
                        lemma_root_for_stable(t0, n0, a0, v0, f.table@, f.nodes@, f.attributes@, f.values@, region.nodes@[q]);
                        lemma_tree_written_stable(t0, n0, a0, v0, region.nodes@[q], f.table@, f.nodes@, f.attributes@, f.values@);
                    }
                }
            }
            k = k + 1;
        }
        proof {
            lemma_regions_prefix(res.regions@, g as int, res.regions@.len() as int);
            assert(region.nodes@.subrange(0, region.nodes@.len() as int) =~= region.nodes@);
        }
        g = g + 1;
    }
    proof {
        assert(res.regions@.subrange(0, res.regions@.len() as int) =~= res.regions@);
    }
    let ghost (t1, n1, a1, v1) = (f.table@, f.nodes@, f.attributes@, f.values@);
    pool_region_names(res, &mut f)?;
    proof {
        lemma_linked_retable(t1, n1, a1, v1, res.regions@, f.table@);
        assert(n1.subrange(0, n1.len() as int) =~= n1);
        assert(a1.subrange(0, a1.len() as int) =~= a1);
        assert(v1.subrange(0, v1.len() as int) =~= v1);
        assert forall|h: int, q: int| 0 <= h < res.regions@.len() && 0 <= q < res.regions@[h].nodes@.len() implies has_root_for(
            f.table@,
            f.nodes@,
            f.attributes@,
            f.values@,
            #[trigger] res.regions@[h].nodes@[q],
        ) && tree_written(f.table@, f.nodes@, f.attributes@, f.values@, res.regions@[h].nodes@[q]) by {
            lemma_root_for_stable(t1, n1, a1, v1, f.table@, f.nodes@, f.attributes@, f.values@, res.regions@[h].nodes@[q]);
            lemma_tree_written_stable(t1, n1, a1, v1, res.regions@[h].nodes@[q], f.table@, f.nodes@, f.attributes@, f.values@);
        }
    }
    Ok(f)
}

/// The bytes a chunk is stored as: raw where the method is `Uncompressed` or
/// the chunk is empty, else encoded with the method.
pub open spec fn stored_chunk(raw: Seq<u8>, method: CompressionMethod) -> Seq<u8> {
    if method == CompressionMethod::Uncompressed || raw.len() == 0 {
        raw
    } else {
        encoded(raw, method, COMPRESSION_LEVEL)
    }
}

/// The compressed size recorded for a chunk: 0 where it is stored raw.
pub open spec fn stored_size(raw: Seq<u8>, method: CompressionMethod) -> u32 {
    if method == CompressionMethod::Uncompressed || raw.len() == 0 {
        0
    } else {
        stored_chunk(raw, method).len() as u32
    }
}

/// The bytes of a file: header, metadata, then the Strings, Nodes, Attributes
/// and Values chunks as stored with `method` (the Keys chunk empty).
pub open spec fn file_layout(
    version: u32,
    method: CompressionMethod,
    s: Seq<u8>,
    n: Seq<u8>,
    a: Seq<u8>,
    v: Seq<u8>,
) -> Seq<u8> {
    magic() + le32(version) + le64(0) + words_le(metadata_words(
        version,
        seq![s.len() as u32, stored_size(s, method), n.len() as u32, stored_size(n, method), a.len() as u32, stored_size(a, method), v.len() as u32, stored_size(v, method)],
        method_code(method),
    )) + stored_chunk(s, method) + stored_chunk(n, method) + stored_chunk(a, method) + stored_chunk(v, method)
}

/// A chunk as stored: its bytes, uncompressed size and compressed size (0
/// where the bytes are stored raw).
fn pack_chunk(raw: Vec<u8>, method: CompressionMethod) -> (r: Result<(Vec<u8>, u32, u32), LsfError>)
    ensures
        r matches Ok((bytes, u, c)) ==> bytes@ == stored_chunk(raw@, method) && c == stored_size(raw@, method),
        r matches Ok((bytes, u, c)) ==> u as int == raw@.len() && (c == 0 ==> bytes@ == raw@)
            && (c != 0 ==> c as int == bytes@.len()),
        method == CompressionMethod::Uncompressed && raw@.len() <= u32::MAX ==> (r matches Ok((bytes, u, c)) && c == 0),
{
    if raw.len() > u32::MAX as usize {
        return Err(LsfError::LimitExceeded);
    }
    let u = raw.len() as u32;
    match method {
        CompressionMethod::Uncompressed => Ok((raw, u, 0)),
        _ => {
            if raw.len() == 0 {
                return Ok((raw, 0, 0));
            }
            let packed = compress(raw.as_slice(), method, COMPRESSION_LEVEL)?;
            if packed.len() == 0 || packed.len() > u32::MAX as usize {
                return Err(LsfError::LimitExceeded);
            }
            let c = packed.len() as u32;
            Ok((packed, u, c))
        },
    }
}

/// The 16-byte header: magic, version and a zero engine version.
fn frame_header(version: u32) -> (out: Vec<u8>)
    ensures
        out@ == magic() + le32(version) + le64(0),
{
    let mut out: Vec<u8> = Vec::new();
    out.push(0x4c);
    out.push(0x53);
    out.push(0x4f);
    out.push(0x46);
    assert(out@ =~= magic());
    push_u32(&mut out, version);
    push_u64(&mut out, 0);
    out
}

/// The level handed to zlib and Zstandard.
pub const COMPRESSION_LEVEL: i32 = 6;

/// The node and attribute chunks of flattened records.
fn encode_records(f: &Flat, version: u32) -> (r: (Vec<u8>, Vec<u8>))
    ensures
        r.0@ == nodes_bytes(f.nodes@, version),
        r.1@ == attributes_bytes(f.attributes@, version),
{
    let mut nodes: Vec<u8> = Vec::new();
    let mut k: usize = 0;
    while k < f.nodes.len()
        invariant
            k <= f.nodes@.len(),
            nodes@ == f.nodes@.subrange(0, k as int).map_values(|e: NodeEntry| node_bytes(e, version)).flatten_alt(),
        decreases f.nodes@.len() - k,
    {
        write_node_entry(&mut nodes, &f.nodes[k], version);
        proof {
            let m = f.nodes@.subrange(0, k + 1).map_values(|e: NodeEntry| node_bytes(e, version));
            assert(m.drop_last() =~= f.nodes@.subrange(0, k as int).map_values(|e: NodeEntry| node_bytes(e, version)));
        }
        k = k + 1;
    }
    let mut attributes: Vec<u8> = Vec::new();
    let mut k: usize = 0;
    while k < f.attributes.len()
        invariant
            k <= f.attributes@.len(),
            attributes@ == f.attributes@.subrange(0, k as int).map_values(|e: AttributeEntry| attribute_bytes(e, version)).flatten_alt(),
        decreases f.attributes@.len() - k,
    {
        write_attribute_entry(&mut attributes, &f.attributes[k], version);
        proof {
            let m = f.attributes@.subrange(0, k + 1).map_values(|e: AttributeEntry| attribute_bytes(e, version));
            assert(m.drop_last() =~= f.attributes@.subrange(0, k as int).map_values(|e: AttributeEntry| attribute_bytes(e, version)));
        }
        k = k + 1;
    }
    proof {
        assert(f.nodes@.subrange(0, f.nodes@.len() as int) =~= f.nodes@);
        assert(f.attributes@.subrange(0, f.attributes@.len() as int) =~= f.attributes@);
        f.nodes@.map_values(|e: NodeEntry| node_bytes(e, version)).lemma_flatten_and_flatten_alt_are_equivalent();
        f.attributes@.map_values(|e: AttributeEntry| attribute_bytes(e, version)).lemma_flatten_and_flatten_alt_are_equivalent();
    }
    (nodes, attributes)
}

/// The words of the metadata block.
pub open spec fn metadata_words(version: u32, sizes: Seq<u32>, flags: u32) -> Seq<u32> {
    if version >= 6 {
        seq![sizes[0], sizes[1], 0u32, 0u32, sizes[2], sizes[3], sizes[4], sizes[5], sizes[6], sizes[7], flags, 0u32, 0u32, 0u32]
    } else {
        seq![sizes[0], sizes[1], sizes[2], sizes[3], sizes[4], sizes[5], sizes[6], sizes[7], flags, 0u32, 0u32, 0u32]
    }
}

/// Frames four chunks: header, metadata, then Strings, Nodes, Attributes and
/// Values, each stored with `method`, and an empty Keys chunk. Stored
/// uncompressed, the file splits back into exactly these chunks.
fn assemble(
    version: u32,
    method: CompressionMethod,
    strings: Vec<u8>,
    nodes: Vec<u8>,
    attributes: Vec<u8>,
    values: Vec<u8>,
) -> (r: Result<Vec<u8>, LsfError>)
    requires
        version >= MIN_VERSION,
    ensures
        r matches Ok(out) ==> out@.len() >= 16 && out@.subrange(0, 4) == magic() && u32_at(out@, 4) == version,
        r matches Ok(out) ==> out@ == file_layout(version, method, strings@, nodes@, attributes@, values@),
        (method == CompressionMethod::Uncompressed && strings@.len() <= u32::MAX && nodes@.len() <= u32::MAX
            && attributes@.len() <= u32::MAX && values@.len() <= u32::MAX) ==> (r matches Ok(out)
            && chunks_outcome(out@) == Ok::<ChunksView, LsfError>((version, strings@, Seq::empty(), nodes@, attributes@, values@))),
{
    let ghost (sv, nv, av, vv) = (strings@, nodes@, attributes@, values@);
    let (s_bytes, s_u, s_c) = pack_chunk(strings, method)?;
    let (n_bytes, n_u, n_c) = pack_chunk(nodes, method)?;
    let (a_bytes, a_u, a_c) = pack_chunk(attributes, method)?;
    let (v_bytes, v_u, v_c) = pack_chunk(values, method)?;
    let mut out = frame_header(version);
    let ghost header = out@;
    let sizes = [s_u, s_c, n_u, n_c, a_u, a_c, v_u, v_c];
    let words = metadata_vec(version, &sizes, method.code());
    push_words(&mut out, words.as_slice());
    let ghost meta = out@;
    push_bytes(&mut out, s_bytes.as_slice());
    push_bytes(&mut out, n_bytes.as_slice());
    push_bytes(&mut out, a_bytes.as_slice());
    push_bytes(&mut out, v_bytes.as_slice());
    proof {
        let d = out@;
        assert(d =~= magic() + le32(version) + le64(0) + words_le(words@) + s_bytes@ + n_bytes@ + a_bytes@ + v_bytes@);
        assert(d.subrange(0, 4) =~= magic());
        assert(d.subrange(4, 8) =~= le32(version));
        lemma_le32(version, d, 4);
        if method == CompressionMethod::Uncompressed && sv.len() <= u32::MAX && nv.len() <= u32::MAX
            && av.len() <= u32::MAX && vv.len() <= u32::MAX {
            lemma_frame_splits(d, version, words@, sv, nv, av, vv);
        }
    }
    Ok(out)
}

/// The metadata block of an uncompressed file with chunks of these sizes.
pub open spec fn raw_metadata(version: u32, s: int, n: int, a: int, v: int) -> LsfMetadata {
    LsfMetadata {
        strings_uncompressed_size: s as u32,
        strings_compressed_size: 0,
        keys_uncompressed_size: 0,
        keys_compressed_size: 0,
        nodes_uncompressed_size: n as u32,
        nodes_compressed_size: 0,
        attributes_uncompressed_size: a as u32,
        attributes_compressed_size: 0,
        values_uncompressed_size: v as u32,
        values_compressed_size: 0,
        compression_flags: 0,
    }
}

proof fn lemma_metadata_reads(d: Seq<u8>, version: u32, ws: Seq<u32>, s: int, n: int, a: int, v: int)
    requires
        0 <= s <= u32::MAX,
        0 <= n <= u32::MAX,
        0 <= a <= u32::MAX,
        0 <= v <= u32::MAX,
        ws == metadata_words(version, seq![s as u32, 0u32, n as u32, 0u32, a as u32, 0u32, v as u32, 0u32], 0),
        d.len() >= 16 + 4 * ws.len(),
        d.subrange(16, 16 + 4 * ws.len() as int) == words_le(ws),
    ensures
        metadata_at(d, 16, version) == raw_metadata(version, s, n, a, v),
{
    lemma_words_le(ws);
    assert forall|k: int| 0 <= k < ws.len() implies u32_at(d, 16 + 4 * k) == ws[k] by {
        assert(d.subrange(16 + 4 * k, 16 + 4 * k + 4) =~= words_le(ws).subrange(4 * k, 4 * k + 4));
        lemma_le32(ws[k], d, 16 + 4 * k);
    }
    if version >= 6 {
        assert(u32_at(d, 56int) == ws[10]);
    } else {
        assert(u32_at(d, 48int) == ws[8]);
    }
}

#[verifier::rlimit(60)]
proof fn lemma_frame_splits(d: Seq<u8>, version: u32, ws: Seq<u32>, sv: Seq<u8>, nv: Seq<u8>, av: Seq<u8>, vv: Seq<u8>)
    requires
        version >= MIN_VERSION,
        sv.len() <= u32::MAX,
        nv.len() <= u32::MAX,
        av.len() <= u32::MAX,
        vv.len() <= u32::MAX,
        ws == metadata_words(version, seq![sv.len() as u32, 0u32, nv.len() as u32, 0u32, av.len() as u32, 0u32, vv.len() as u32, 0u32], 0),
        d == magic() + le32(version) + le64(0) + words_le(ws) + sv + nv + av + vv,
    ensures
        chunks_outcome(d) == Ok::<ChunksView, LsfError>((version, sv, Seq::empty(), nv, av, vv)),
{
    lemma_words_le(ws);
    assert(4 * ws.len() == metadata_size(version));
    assert(d.subrange(0, 4) =~= magic());
    assert(d.subrange(4, 8) =~= le32(version));
    lemma_le32(version, d, 4);
    assert(d.subrange(16, 16 + 4 * ws.len() as int) =~= words_le(ws));
    lemma_metadata_reads(d, version, ws, sv.len() as int, nv.len() as int, av.len() as int, vv.len() as int);
    let p0 = 16 + metadata_size(version);
    let p1 = p0 + sv.len();
    let p2 = p1 + nv.len();
    let p3 = p2 + av.len();
    assert(d.subrange(p0, p1) =~= sv);
    assert(d.subrange(p1, p2) =~= nv);
    assert(d.subrange(p2, p3) =~= av);
    assert(d.subrange(p3, d.len() as int) =~= vv);
    if sv.len() == 0 {
        assert(sv =~= Seq::<u8>::empty());
    }
    if nv.len() == 0 {
        assert(nv =~= Seq::<u8>::empty());
    }
    if av.len() == 0 {
        assert(av =~= Seq::<u8>::empty());
    }
    let m = CompressionMethod::Uncompressed;
    assert(chunk_outcome(d, p0, 0, sv.len() as int, m) == Ok::<(Seq<u8>, int), LsfError>((sv, p1)));
    assert(chunk_outcome(d, p1, 0, 0, m) == Ok::<(Seq<u8>, int), LsfError>((Seq::empty(), p1)));
    assert(chunk_outcome(d, p1, 0, nv.len() as int, m) == Ok::<(Seq<u8>, int), LsfError>((nv, p2)));
    assert(chunk_outcome(d, p2, 0, av.len() as int, m) == Ok::<(Seq<u8>, int), LsfError>((av, p3)));
    assert(values_outcome(d.subrange(p3, d.len() as int), raw_metadata(version, sv.len() as int, nv.len() as int, av.len() as int, vv.len() as int)) == Ok::<Seq<u8>, LsfError>(vv));
    assert(0u32 & 0x0f == 0) by (bit_vector);
    assert(method_of_flags(0) == m);
}

/// The metadata words in a vector.
fn metadata_vec(version: u32, sizes: &[u32; 8], flags: u32) -> (r: Vec<u32>)
    ensures
        r@ == metadata_words(version, sizes@, flags),
        r@.len() * 4 == metadata_size(version),
{
    let mut w: Vec<u32> = Vec::new();
    w.push(sizes[0]);
    w.push(sizes[1]);
    if version >= 6 {
        w.push(0);
        w.push(0);
    }
    w.push(sizes[2]);
    w.push(sizes[3]);
    w.push(sizes[4]);
    w.push(sizes[5]);
    w.push(sizes[6]);
    w.push(sizes[7]);
    w.push(flags);
    w.push(0);
    w.push(0);
    w.push(0);
    assert(w@ =~= metadata_words(version, sizes@, flags));
    w
}

/// What a file written from `regions` with `method` is: the header, the
/// metadata and the chunks as stored with the method, where the chunks are
/// the hashed layout of a full canonical pool holding every region name, the
/// node and attribute records linked as a forest whose roots store the
/// top-level nodes, and the value blob of the payloads in record order.
pub open spec fn written_with(
    out: Seq<u8>,
    method: CompressionMethod,
    version: u32,
    regions: Seq<Region>,
    t: Seq<Seq<Seq<char>>>,
    nodes: Seq<NodeEntry>,
    attrs: Seq<AttributeEntry>,
    values: Seq<u8>,
) -> bool {
    &&& out == file_layout(version, method, table_bytes(t), nodes_bytes(nodes, version), attributes_bytes(attrs, version), values)
    &&& storable(t)
    &&& pool_canonical(t)
    &&& t.len() == BUCKET_COUNT
    &&& node_links_forward(nodes, attrs.len() as int)
    &&& attribute_links_forward(attrs)
    &&& roots_written(regions, t, nodes, attrs, values)
    &&& forall|g: int| 0 <= g < regions.len() ==> pooled(t, (#[trigger] regions[g]).name@)
    &&& records_linked(t, nodes, attrs, values, regions)
    &&& blob_tiled(attrs, values)
}

/// What a file written uncompressed from `regions` holds: chunks that are the
/// hashed layout of a full pool in canonical placement (each string once)
/// that holds every region name; the node and attribute records in the
/// version's layout, linked as a forest (links lead forward, siblings share a
/// parent, and every root record stores a top-level node); and a value blob
/// that is exactly the payloads in record order. Every top-level node is a
/// root record of its name whose attribute records store its attributes, in
/// order, and every node below it has a record of its name and attributes,
/// each node's children stored in records that name that node's record as
/// their parent.
#[verifier::opaque]
pub open spec fn written_from(
    out: Seq<u8>,
    version: u32,
    regions: Seq<Region>,
    t: Seq<Seq<Seq<char>>>,
    nodes: Seq<NodeEntry>,
    attrs: Seq<AttributeEntry>,
    values: Seq<u8>,
) -> bool {
    &&& chunks_outcome(out) == Ok::<ChunksView, LsfError>(
        (version, table_bytes(t), Seq::empty(), nodes_bytes(nodes, version), attributes_bytes(attrs, version), values),
    )
    &&& storable(t)
    &&& pool_canonical(t)
    &&& t.len() == BUCKET_COUNT
    &&& node_links_forward(nodes, attrs.len() as int)
    &&& attribute_links_forward(attrs)
    &&& roots_written(regions, t, nodes, attrs, values)
    &&& forall|g: int| 0 <= g < regions.len() ==> pooled(t, (#[trigger] regions[g]).name@)
    &&& records_linked(t, nodes, attrs, values, regions)
    &&& blob_tiled(attrs, values)
    &&& nodes.len() <= usize::MAX
}

/// The chunks of records within the writable count fit 32-bit sizes.
proof fn lemma_chunks_fit(
    t: Seq<Seq<Seq<char>>>,
    nodes: Seq<NodeEntry>,
    attrs: Seq<AttributeEntry>,
    values: Seq<u8>,
    version: u32,
)
    requires
        t.len() == BUCKET_COUNT,
        chains_fit(t),
        table_total(t) <= MAX_WRITABLE_RECORDS,
        values.len() <= attrs.len() * MAX_VALUE_SIZE,
        nodes.len() + attrs.len() <= MAX_WRITABLE_RECORDS,
    ensures
        table_bytes(t).len() <= u32::MAX,
        nodes_bytes(nodes, version).len() <= u32::MAX,
        attributes_bytes(attrs, version).len() <= u32::MAX,
        values.len() <= u32::MAX,
{
    lemma_table_bytes_len(t);
    lemma_flatten_blocks(nodes.map_values(|e: NodeEntry| node_bytes(e, version)), record_size(version));
    lemma_flatten_blocks(attrs.map_values(|e: AttributeEntry| attribute_bytes(e, version)), record_size(version));
    assert(values.len() <= u32::MAX) by (nonlinear_arith)
        requires
            values.len() <= attrs.len() * MAX_VALUE_SIZE,
            attrs.len() <= MAX_WRITABLE_RECORDS,
    ;
    assert(nodes_bytes(nodes, version).len() <= u32::MAX) by (nonlinear_arith)
        requires
            nodes_bytes(nodes, version).len() == record_size(version) * nodes.len(),
            record_size(version) <= 16,
            nodes.len() <= MAX_WRITABLE_RECORDS,
    ;
    assert(attributes_bytes(attrs, version).len() <= u32::MAX) by (nonlinear_arith)
        requires
            attributes_bytes(attrs, version).len() == record_size(version) * attrs.len(),
            record_size(version) <= 16,
            attrs.len() <= MAX_WRITABLE_RECORDS,
    ;
    assert(table_bytes(t).len() <= u32::MAX) by (nonlinear_arith)
        requires
            table_bytes(t).len() == 4 + t.map_values(|c: Seq<Seq<char>>| chain_bytes(c)).flatten().len(),
            t.map_values(|c: Seq<Seq<char>>| chain_bytes(c)).flatten().len() <= t.len() * 2 + table_total(t) * 0x10001,
            t.len() == BUCKET_COUNT,
            table_total(t) <= MAX_WRITABLE_RECORDS,
    ;
}

/// Encodes a whole file at the resource's major version, each chunk stored
/// with `method`. The Keys chunk is written empty.
pub fn write_lsf_bytes(res: &Resource, method: CompressionMethod) -> (r: Result<Vec<u8>, LsfError>)
    ensures
        res.metadata.major_version < MIN_VERSION ==> r == Err::<Vec<u8>, LsfError>(LsfError::UnsupportedVersion),
        r matches Ok(out) ==> out@.len() >= 16 && out@.subrange(0, 4) == magic()
            && u32_at(out@, 4) == res.metadata.major_version,
        (r is Ok && method == CompressionMethod::Uncompressed) ==> exists|t: Seq<Seq<Seq<char>>>, ns: Seq<NodeEntry>, attrs: Seq<AttributeEntry>, vs: Seq<u8>|
            #[trigger] written_from(r->Ok_0@, res.metadata.major_version, res.regions@, t, ns, attrs, vs),
        writable(*res) && method == CompressionMethod::Uncompressed ==> r is Ok,
        r is Ok ==> exists|t: Seq<Seq<Seq<char>>>, ns: Seq<NodeEntry>, attrs: Seq<AttributeEntry>, vs: Seq<u8>|
            #[trigger] written_with(r->Ok_0@, method, res.metadata.major_version, res.regions@, t, ns, attrs, vs),
{
    let version = res.metadata.major_version;
    if version < MIN_VERSION {
        return Err(LsfError::UnsupportedVersion);
    }
    let f = flatten_resource(res)?;
    let mut strings: Vec<u8> = Vec::new();
    write_string_table(&mut strings, &f.table);
    assert(strings@ =~= table_bytes(f.table@));
    let (nodes, attributes) = encode_records(&f, version);
    let ghost (t, ns, attrs, vs) = (f.table@, f.nodes@, f.attributes@, f.values@);
    let _node_count = f.nodes.len();
    let sl = strings.len();
    let nl = nodes.len();
    let al = attributes.len();
    let vl = f.values.len();
    proof {
        if writable(*res) {
            lemma_chunks_fit(f.table@, f.nodes@, f.attributes@, f.values@, version);
        }
    }
    if sl > u32::MAX as usize || nl > u32::MAX as usize || al > u32::MAX as usize || vl > u32::MAX as usize {
        return Err(LsfError::LimitExceeded);
    }
    let out = assemble(version, method, strings, nodes, attributes, f.values)?;
    proof {
        assert(written_with(out@, method, version, res.regions@, t, ns, attrs, vs));
        if method == CompressionMethod::Uncompressed {
            reveal(written_from);
            assert(written_from(out@, version, res.regions@, t, ns, attrs, vs));
        }
    }
    Ok(out)
}

/// A file that the writer produced uncompressed splits into the chunks it was
/// written from, and those decode to the same pool, the same records (before
/// version 3 without the fields that layout does not store) and the same
/// value blob.
pub proof fn lemma_written_file_decodes(
    out: Seq<u8>,
    version: u32,
    regions: Seq<Region>,
    t: Seq<Seq<Seq<char>>>,
    nodes: Seq<NodeEntry>,
    attrs: Seq<AttributeEntry>,
    values: Seq<u8>,
)
    requires
        written_from(out, version, regions, t, nodes, attrs, values),
    ensures
        chunks_outcome(out) matches Ok(c) && c.0 == version && parse_table(c.1) == Some(t)
            && nodes_of(c.3, version) == nodes.map_values(|e: NodeEntry| node_as_stored(e, version))
            && attributes_of(c.4, version) == attrs.map_values(|e: AttributeEntry| attribute_as_stored(e, version))
            && c.5 == values,
{
    reveal(written_from);
    lemma_table_round_trip(t);
    lemma_nodes_round_trip(nodes, version);
    lemma_attributes_round_trip(attrs, version);
}

/// Whether a value fits the payload layout.
fn is_encodable(v: &AttributeValue) -> (r: bool)
    ensures
        r == encodable(*v),
{
    match v {
        AttributeValue::TranslatedString { value, .. } => value.as_str().as_bytes().len() <= 0xffff,
        AttributeValue::TranslatedFSString { value, .. } => value.as_str().as_bytes().len() <= 0xffff,
        _ => true,
    }
}

} // verus!

verus! {

/// Some region has the name `name`.
pub open spec fn is_region_name(regions: Seq<Region>, name: Seq<char>) -> bool {
    exists|g: int| 0 <= g < regions.len() && (#[trigger] regions[g]).name@ == name
}

/// Writing a resource and reading the file back keeps its region structure
/// by name: every top-level node's name is the name of a region of the
/// resource read back.
#[verifier::rlimit(100)]
pub proof fn lemma_region_names_survive(
    out: Seq<u8>,
    version: u32,
    regions: Seq<Region>,
    t: Seq<Seq<Seq<char>>>,
    nodes: Seq<NodeEntry>,
    attrs: Seq<AttributeEntry>,
    values: Seq<u8>,
    back: Resource,
)
    requires
        written_from(out, version, regions, t, nodes, attrs, values),
        decodes_as(out, Ok::<Resource, LsfError>(back)),
    ensures
        forall|g: int, q: int| 0 <= g < regions.len() && 0 <= q < regions[g].nodes@.len() ==> is_region_name(
            back.regions@,
            (#[trigger] regions[g].nodes@[q]).name@,
        ),
{
    reveal(written_from);
    reveal(decodes_as);
    lemma_written_file_decodes(out, version, regions, t, nodes, attrs, values);
    let read = nodes_of(nodes_bytes(nodes, version), version);
    assert(read == nodes.map_values(|e: NodeEntry| node_as_stored(e, version)));
    assert forall|g: int, q: int| 0 <= g < regions.len() && 0 <= q < regions[g].nodes@.len() implies is_region_name(
        back.regions@,
        (#[trigger] regions[g].nodes@[q]).name@,
    ) by {
        let name = regions[g].nodes@[q].name@;
        assert(has_root_for(t, nodes, attrs, values, regions[g].nodes@[q]));
        let k = choose|k: int| 0 <= k < nodes.len() && (#[trigger] nodes[k]).parent_index == -1 && resolve(t, nodes[k].name_id) == Some(name)
            && node_attrs_written(t, nodes[k], attrs, values, regions[g].nodes@[q]);
        assert(read[k] == node_as_stored(nodes[k], version));
        assert(is_root(read[k], reads_permissively(read)));
        assert(name_of(t, read[k].name_id, node_prefix()) == name);
    }
}

} // verus!

verus! {

/// A written attribute record is decoded, under the attribute's name, when
/// the attribute's value has the shape of its type.
proof fn lemma_written_record_decodable(t: Seq<Seq<Seq<char>>>, e: AttributeEntry, a: (String, NodeAttribute), values: Seq<u8>)
    requires
        attr_record_ok(t, e, a, values),
        value_type(a.1.value) == a.1.attribute_type,
    ensures
        decodable(e, values.len() as int, e.offset as int),
        name_of(t, e.name_hash_table_index, attr_prefix()) == a.0@,
{
    let ty = a.1.attribute_type;
    let len = value_bytes(a.1.value).len() as int;
    let id = type_id(ty);
    lemma_id_closure(ty, 0);
    let tl = e.type_and_length as int;
    assert(tl % 64 == id && tl / 64 == len) by (nonlinear_arith)
        requires
            tl == id + len * 64,
            0 <= id < 64,
            0 <= len,
    ;
    if fixed_size(ty) >= 0 {
        lemma_fixed_len(a.1.value);
    }
    assert(payload_len(ty, len) == len);
}

proof fn lemma_root_read_back(
    t: Seq<Seq<Seq<char>>>,
    nodes: Seq<NodeEntry>,
    attrs: Seq<AttributeEntry>,
    values: Seq<u8>,
    version: u32,
    roots: Seq<usize>,
    kids: Seq<Vec<usize>>,
    regs: Seq<Region>,
    kr: int,
)
    requires
        forest_of(t, nodes, attrs, values, version, roots, kids, regs),
        0 <= kr < nodes.len(),
        nodes.len() <= usize::MAX,
        nodes[kr].parent_index == -1,
    ensures
        exists|g2: int, q2: int| 0 <= g2 < regs.len() && 0 <= q2 < regs[g2].nodes@.len() && #[trigger] node_of_record(
            regs[g2].nodes@[q2],
            kr,
            true,
            t,
            nodes,
            kids,
            attrs,
            values,
            version,
        ),
{
    assert(is_root(nodes[kr], reads_permissively(nodes)));
    assert(roots.contains(kr as usize));
    let kk = choose|kk: int| 0 <= kk < roots.len() && roots[kk] == kr as usize;
    assert(roots[kk] as int == kr);
    assert(tree_placed(regs, roots[kk] as int, t, nodes, kids, attrs, values, version));
    let (g2, q2) = choose|g2: int, q2: int| 0 <= g2 < regs.len() && 0 <= q2 < regs[g2].nodes@.len()
        && #[trigger] tree_of_record(regs[g2].nodes@[q2], kr, nodes.len() as int, t, nodes, kids, attrs, values, version);
    let b = regs[g2].nodes@[q2];
    let empty = Seq::<int>::empty();
    assert(subnode(b, empty) == Some(b));
    assert(record_at(kids, kr, empty) == kr);
    assert(subnode(b, empty) is Some);
    assert(node_of_record(subnode(b, empty)->0, record_at(kids, kr, empty), empty.len() < nodes.len() as int, t, nodes, kids, attrs, values, version));
    assert(node_of_record(b, kr, true, t, nodes, kids, attrs, values, version));
}

proof fn lemma_decoded_forest(
    out: Seq<u8>,
    version: u32,
    regions: Seq<Region>,
    t: Seq<Seq<Seq<char>>>,
    nodes: Seq<NodeEntry>,
    attrs: Seq<AttributeEntry>,
    values: Seq<u8>,
    back: Resource,
)
    requires
        version >= 3,
        written_from(out, version, regions, t, nodes, attrs, values),
        decodes_as(out, Ok::<Resource, LsfError>(back)),
    ensures
        exists|roots: Seq<usize>, kids: Seq<Vec<usize>>| #[trigger] forest_of(t, nodes, attrs, values, version, roots, kids, back.regions@),
        roots_written(regions, t, nodes, attrs, values),
        nodes.len() <= usize::MAX,
{
    reveal(written_from);
    reveal(decodes_as);
    lemma_written_file_decodes(out, version, regions, t, nodes, attrs, values);
    assert(nodes.map_values(|e: NodeEntry| node_as_stored(e, version)) =~= nodes);
    assert(attrs.map_values(|e: AttributeEntry| attribute_as_stored(e, version)) =~= attrs);
}

proof fn lemma_attribute_read_back(
    t: Seq<Seq<Seq<char>>>,
    nodes: Seq<NodeEntry>,
    attrs: Seq<AttributeEntry>,
    values: Seq<u8>,
    version: u32,
    kids: Seq<Vec<usize>>,
    b: Node,
    kr: int,
    n: Node,
    k: int,
)
    requires
        version >= 3,
        0 <= kr < nodes.len(),
        node_of_record(b, kr, true, t, nodes, kids, attrs, values, version),
        resolve(t, nodes[kr].name_id) == Some(n.name@),
        node_attrs_written(t, nodes[kr], attrs, values, n),
        0 <= k < n.attributes@.len(),
        attributes_wf(n.attributes@),
        n.attributes@.len() <= MAX_ATTRIBUTES_PER_NODE,
    ensures
        b.name@ == n.name@,
        has_name(b.attributes@, n.attributes@[k].0@),
{
    let first = nodes[kr].first_attribute_index as int;
    let count = n.attributes@.len() as int;
    let cur = start_cursor(nodes, attrs, version, kr);
    assert(complete_for(t, attrs, values, version, first, cur, b.attributes@));
    lemma_walk_consecutive(attrs, version, first, count, 0, first, MAX_ATTRIBUTES_PER_NODE as nat, Set::empty(), cur);
    let w = walk(attrs, version, first, MAX_ATTRIBUTES_PER_NODE as nat, Set::empty(), cur);
    assert(w[k] == (first + k, attrs[first + k].offset as int));
    assert(attr_record_ok(t, attrs[first + k], n.attributes@[k], values));
    assert(value_type(n.attributes@[k].1.value) == n.attributes@[k].1.attribute_type);
    lemma_written_record_decodable(t, attrs[first + k], n.attributes@[k], values);
    assert(decodable(attrs[w[k].0], values.len() as int, w[k].1));
}

/// Writing a resource (from version 3) and reading the file back keeps the
/// attribute names of every top-level node: the resource read back has a
/// top-level node of the same name with an attribute of each of those names.
pub proof fn lemma_attribute_names_survive(
    out: Seq<u8>,
    version: u32,
    regions: Seq<Region>,
    t: Seq<Seq<Seq<char>>>,
    nodes: Seq<NodeEntry>,
    attrs: Seq<AttributeEntry>,
    values: Seq<u8>,
    back: Resource,
    g: int,
    q: int,
    k: int,
)
    requires
        version >= 3,
        written_from(out, version, regions, t, nodes, attrs, values),
        decodes_as(out, Ok::<Resource, LsfError>(back)),
        0 <= g < regions.len(),
        0 <= q < regions[g].nodes@.len(),
        0 <= k < regions[g].nodes@[q].attributes@.len(),
        attributes_wf(regions[g].nodes@[q].attributes@),
        regions[g].nodes@[q].attributes@.len() <= MAX_ATTRIBUTES_PER_NODE,
    ensures
        exists|g2: int, q2: int| 0 <= g2 < back.regions@.len() && 0 <= q2 < back.regions@[g2].nodes@.len()
            && (#[trigger] back.regions@[g2].nodes@[q2]).name@ == regions[g].nodes@[q].name@
            && has_name(back.regions@[g2].nodes@[q2].attributes@, regions[g].nodes@[q].attributes@[k].0@),
{
    let n = regions[g].nodes@[q];
    lemma_decoded_forest(out, version, regions, t, nodes, attrs, values, back);
    assert(has_root_for(t, nodes, attrs, values, n));
    let kr = choose|kr: int| 0 <= kr < nodes.len() && (#[trigger] nodes[kr]).parent_index == -1 && resolve(t, nodes[kr].name_id) == Some(n.name@)
        && node_attrs_written(t, nodes[kr], attrs, values, n);
    let (roots, kids) = choose|roots: Seq<usize>, kids: Seq<Vec<usize>>| #[trigger] forest_of(t, nodes, attrs, values, version, roots, kids, back.regions@);
    lemma_root_read_back(t, nodes, attrs, values, version, roots, kids, back.regions@, kr);
    let (g2, q2) = choose|g2: int, q2: int| 0 <= g2 < back.regions@.len() && 0 <= q2 < back.regions@[g2].nodes@.len() && #[trigger] node_of_record(
        back.regions@[g2].nodes@[q2], kr, true, t, nodes, kids, attrs, values, version);
    lemma_attribute_read_back(t, nodes, attrs, values, version, kids, back.regions@[g2].nodes@[q2], kr, n, k);
}

proof fn lemma_value_read_back(
    t: Seq<Seq<Seq<char>>>,
    nodes: Seq<NodeEntry>,
    attrs: Seq<AttributeEntry>,
    values: Seq<u8>,
    version: u32,
    kids: Seq<Vec<usize>>,
    b: Node,
    kr: int,
    n: Node,
    k: int,
)
    requires
        version >= 3,
        0 <= kr < nodes.len(),
        node_of_record(b, kr, true, t, nodes, kids, attrs, values, version),
        resolve(t, nodes[kr].name_id) == Some(n.name@),
        node_attrs_written(t, nodes[kr], attrs, values, n),
        0 <= k < n.attributes@.len(),
        attributes_wf(n.attributes@),
        n.attributes@.len() <= MAX_ATTRIBUTES_PER_NODE,
        is_fixed_layout(value_type(n.attributes@[k].1.value)),
    ensures
        exists|j: int| 0 <= j < b.attributes@.len() && (#[trigger] b.attributes@[j]).0@ == n.attributes@[k].0@
            && b.attributes@[j].1 == n.attributes@[k].1,
{
    lemma_attribute_read_back(t, nodes, attrs, values, version, kids, b, kr, n, k);
    let nm = n.attributes@[k].0@;
    let j = choose|j: int| 0 <= j < b.attributes@.len() && (#[trigger] b.attributes@[j]).0@ == nm;
    let first = nodes[kr].first_attribute_index as int;
    let count = n.attributes@.len() as int;
    let cur = start_cursor(nodes, attrs, version, kr);
    lemma_walk_consecutive(attrs, version, first, count, 0, first, MAX_ATTRIBUTES_PER_NODE as nat, Set::empty(), cur);
    let w = walk(attrs, version, first, MAX_ATTRIBUTES_PER_NODE as nat, Set::empty(), cur);
    assert(from_walk(t, attrs, values, w, b.attributes@));
    let a2 = b.attributes@[j].1;
    assert(last_of_name(t, attrs, values, w, b.attributes@[j].0@, a2));
    let m = choose|m: int| 0 <= m < w.len() && #[trigger] decoded_at(t, attrs[w[m].0], values, w[m].1, nm, a2)
        && forall|m2: int| m < m2 < w.len() && decodable(attrs[(#[trigger] w[m2]).0], values.len() as int, w[m2].1)
            ==> name_of(t, attrs[w[m2].0].name_hash_table_index, attr_prefix()) != nm;
    assert(w[m] == (first + m, attrs[first + m].offset as int));
    assert(attr_record_ok(t, attrs[first + m], n.attributes@[m], values));
    assert(value_type(n.attributes@[m].1.value) == n.attributes@[m].1.attribute_type);
    lemma_written_record_decodable(t, attrs[first + m], n.attributes@[m], values);
    if m != k {
        if m < k {
            assert(n.attributes@[m].0@ != n.attributes@[k].0@);
        } else {
            assert(n.attributes@[k].0@ != n.attributes@[m].0@);
        }
    }
    let v = n.attributes@[k].1;
    let e = attrs[first + k];
    let len = value_bytes(v.value).len() as int;
    lemma_id_closure(v.attribute_type, 0);
    let tl = e.type_and_length as int;
    assert(tl % 64 == type_id(v.attribute_type) && tl / 64 == len) by (nonlinear_arith)
        requires
            tl == type_id(v.attribute_type) + len * 64,
            0 <= type_id(v.attribute_type) < 64,
            0 <= len,
    ;
    assert(a2.attribute_type == v.attribute_type);
    lemma_fixed_len(v.value);
    assert(payload_len(v.attribute_type, len) == len);
    assert(values.subrange(e.offset as int, e.offset + len) == value_bytes(v.value));
    lemma_value_round_trip(v.value, a2.value);
    assert(a2 == v);
}

/// Writing a resource (from version 3) and reading the file back keeps the
/// fixed-layout attributes of every top-level node: the resource read back
/// has a top-level node of the same name holding each such attribute, with
/// the same type and value.
pub proof fn lemma_attribute_values_survive(
    out: Seq<u8>,
    version: u32,
    regions: Seq<Region>,
    t: Seq<Seq<Seq<char>>>,
    nodes: Seq<NodeEntry>,
    attrs: Seq<AttributeEntry>,
    values: Seq<u8>,
    back: Resource,
    g: int,
    q: int,
    k: int,
)
    requires
        version >= 3,
        written_from(out, version, regions, t, nodes, attrs, values),
        decodes_as(out, Ok::<Resource, LsfError>(back)),
        0 <= g < regions.len(),
        0 <= q < regions[g].nodes@.len(),
        0 <= k < regions[g].nodes@[q].attributes@.len(),
        attributes_wf(regions[g].nodes@[q].attributes@),
        regions[g].nodes@[q].attributes@.len() <= MAX_ATTRIBUTES_PER_NODE,
        is_fixed_layout(value_type(regions[g].nodes@[q].attributes@[k].1.value)),
    ensures
        exists|g2: int, q2: int, j: int| 0 <= g2 < back.regions@.len() && 0 <= q2 < back.regions@[g2].nodes@.len()
            && 0 <= j < back.regions@[g2].nodes@[q2].attributes@.len()
            && (#[trigger] back.regions@[g2].nodes@[q2].attributes@[j]).0@ == regions[g].nodes@[q].attributes@[k].0@
            && back.regions@[g2].nodes@[q2].attributes@[j].1 == regions[g].nodes@[q].attributes@[k].1
            && back.regions@[g2].nodes@[q2].name@ == regions[g].nodes@[q].name@,
{
    let n = regions[g].nodes@[q];
    lemma_decoded_forest(out, version, regions, t, nodes, attrs, values, back);
    assert(has_root_for(t, nodes, attrs, values, n));
    let kr = choose|kr: int| 0 <= kr < nodes.len() && (#[trigger] nodes[kr]).parent_index == -1 && resolve(t, nodes[kr].name_id) == Some(n.name@)
        && node_attrs_written(t, nodes[kr], attrs, values, n);
    let (roots, kids) = choose|roots: Seq<usize>, kids: Seq<Vec<usize>>| #[trigger] forest_of(t, nodes, attrs, values, version, roots, kids, back.regions@);
    lemma_root_read_back(t, nodes, attrs, values, version, roots, kids, back.regions@, kr);
    let (g2, q2) = choose|g2: int, q2: int| 0 <= g2 < back.regions@.len() && 0 <= q2 < back.regions@[g2].nodes@.len() && #[trigger] node_of_record(
        back.regions@[g2].nodes@[q2], kr, true, t, nodes, kids, attrs, values, version);
    let b = back.regions@[g2].nodes@[q2];
    lemma_attribute_read_back(t, nodes, attrs, values, version, kids, b, kr, n, k);
    lemma_value_read_back(t, nodes, attrs, values, version, kids, b, kr, n, k);
    let j = choose|j: int| 0 <= j < b.attributes@.len() && (#[trigger] b.attributes@[j]).0@ == n.attributes@[k].0@
        && b.attributes@[j].1 == n.attributes@[k].1;
    assert(back.regions@[g2].nodes@[q2].attributes@[j] == b.attributes@[j]);
}

} // verus!
