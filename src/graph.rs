//! Graph reconstruction: from the flat record arrays to a tree of nodes.

use vstd::prelude::*;
use vstd::slice::slice_subrange;
use crate::error::SoftError;
use crate::records::{NodeEntry, AttributeEntry};
use crate::resource::{
    AttributeType, Metadata, Node, NodeAttribute, Region, Resource, attributes_wf, node_wf,
    regions_wf, resource_wf, set_attribute, type_of_id, value_type,
};
use crate::strings::{StringTable, get_string_from_hash, name_of, resolve};
use crate::text::with_hex8;
use crate::text::str_eq;
use crate::values::{MAX_VALUE_SIZE, decode_value, decodes_to, payload_len, payload_size};

verus! {

/// The most attributes read from one node's chain.
pub const MAX_ATTRIBUTES_PER_NODE: usize = 1000;

/// The name prefix of an attribute whose name the pool does not hold.
pub open spec fn attr_prefix() -> Seq<char> {
    seq!['a', 't', 't', 'r', '_', '0', 'x']
}

/// The name prefix of a node whose name the pool does not hold.
pub open spec fn node_prefix() -> Seq<char> {
    seq!['n', 'o', 'd', 'e', '_', '0', 'x']
}

/// The payload of record `e` starts at `pos` of the value blob and decodes
/// to `a`, under the name that the pool gives the record.
pub open spec fn decoded_at(
    t: Seq<Seq<Seq<char>>>,
    e: AttributeEntry,
    values: Seq<u8>,
    pos: int,
    name: Seq<char>,
    a: NodeAttribute,
) -> bool {
    let len = (e.type_and_length / 64) as int;
    &&& name == name_of(t, e.name_hash_table_index, attr_prefix())
    &&& type_of_id((e.type_and_length % 64) as int) == Some(a.attribute_type)
    &&& len <= MAX_VALUE_SIZE
    &&& 0 <= pos && pos + payload_len(a.attribute_type, len) <= values.len()
    &&& decodes_to(
        a.attribute_type,
        values.subrange(pos, pos + payload_len(a.attribute_type, len)),
        a.value,
    )
}

/// Attribute `a`, named `name`, is the decoding of a record of the walk
/// `w` at the position the walk gives it, and no later record of the walk
/// decodes under the same name.
pub open spec fn last_of_name(
    t: Seq<Seq<Seq<char>>>,
    attrs: Seq<AttributeEntry>,
    values: Seq<u8>,
    w: Seq<(int, int)>,
    name: Seq<char>,
    a: NodeAttribute,
) -> bool {
    exists|m: int| 0 <= m < w.len() && #[trigger] decoded_at(t, attrs[w[m].0], values, w[m].1, name, a)
        && forall|m2: int| m < m2 < w.len() && decodable(attrs[(#[trigger] w[m2]).0], values.len() as int, w[m2].1)
            ==> name_of(t, attrs[w[m2].0].name_hash_table_index, attr_prefix()) != name
}

/// Every entry of an attribute list is the last decoding under its name of
/// a record of the walk `w`.
pub open spec fn from_walk(
    t: Seq<Seq<Seq<char>>>,
    attrs: Seq<AttributeEntry>,
    values: Seq<u8>,
    w: Seq<(int, int)>,
    list: Seq<(String, NodeAttribute)>,
) -> bool {
    forall|k: int| 0 <= k < list.len() ==> last_of_name(t, attrs, values, w, (#[trigger] list[k]).0@, list[k].1)
}

/// A walk step keeps `from_walk`: a record decoded and set under its name, or
/// a record that is not decoded and leaves the list as it was.
proof fn lemma_from_walk_step(
    t: Seq<Seq<Seq<char>>>,
    attrs: Seq<AttributeEntry>,
    values: Seq<u8>,
    done: Seq<(int, int)>,
    x: (int, int),
    before: Seq<(String, NodeAttribute)>,
    after: Seq<(String, NodeAttribute)>,
    taken: bool,
    nm: Seq<char>,
    a: NodeAttribute,
)
    requires
        from_walk(t, attrs, values, done, before),
        taken ==> decoded_at(t, attrs[x.0], values, x.1, nm, a),
        taken ==> attributes_wf(after),
        taken ==> exists|k: int| 0 <= k < after.len() && (#[trigger] after[k]).0@ == nm && after[k].1 == a,
        taken ==> forall|k: int| 0 <= k < after.len() && (#[trigger] after[k]).0@ != nm ==> before.contains(after[k]),
        !taken ==> after == before && !decodable(attrs[x.0], values.len() as int, x.1),
    ensures
        from_walk(t, attrs, values, done.push(x), after),
{
    let w = done.push(x);
    assert forall|k: int| 0 <= k < after.len() implies last_of_name(t, attrs, values, w, (#[trigger] after[k]).0@, after[k].1) by {
        if taken && after[k].0@ == nm {
            let k2 = choose|k2: int| 0 <= k2 < after.len() && (#[trigger] after[k2]).0@ == nm && after[k2].1 == a;
            if k != k2 {
                if k < k2 {
                    assert(after[k].0@ != after[k2].0@);
                } else {
                    assert(after[k2].0@ != after[k].0@);
                }
            }
            assert(w[done.len() as int] == x);
            assert(decoded_at(t, attrs[w[done.len() as int].0], values, w[done.len() as int].1, after[k].0@, after[k].1));
        } else {
            let e = after[k];
            let k3 = if taken {
                assert(before.contains(e));
                choose|k3: int| 0 <= k3 < before.len() && before[k3] == e
            } else {
                k
            };
            assert(before[k3] == e);
            assert(last_of_name(t, attrs, values, done, before[k3].0@, before[k3].1));
            let m = choose|m: int| 0 <= m < done.len() && #[trigger] decoded_at(t, attrs[done[m].0], values, done[m].1, e.0@, e.1)
                && forall|m2: int| m < m2 < done.len() && decodable(attrs[(#[trigger] done[m2]).0], values.len() as int, done[m2].1)
                    ==> name_of(t, attrs[done[m2].0].name_hash_table_index, attr_prefix()) != e.0@;
            assert(w[m] == done[m]);
            assert forall|m2: int| m < m2 < w.len() && decodable(attrs[(#[trigger] w[m2]).0], values.len() as int, w[m2].1)
                implies name_of(t, attrs[w[m2].0].name_hash_table_index, attr_prefix()) != e.0@ by {
                if m2 < done.len() {
                    assert(w[m2] == done[m2]);
                } else {
                    assert(w[m2] == x);
                }
            }
        }
    }
}

/// The records an attribute chain visits, each with the blob position its
/// payload is read from: from `i`, following the links, until a link leaves
/// the array, returns to a record already visited, or `fuel` runs out. From
/// version 3 a payload sits at its record's offset; before, payloads follow
/// one another from `cursor`, each record advancing it by its declared length.
pub open spec fn walk(
    attrs: Seq<AttributeEntry>,
    version: u32,
    i: int,
    fuel: nat,
    seen: Set<int>,
    cursor: int,
) -> Seq<(int, int)>
    decreases fuel,
{
    if fuel == 0 || i < 0 || i >= attrs.len() || seen.contains(i) {
        Seq::empty()
    } else {
        let e = attrs[i];
        let pos = if version >= 3 { e.offset as int } else { cursor };
        let next_cursor = if version >= 3 { cursor } else { advance(cursor, (e.type_and_length / 64) as int) };
        seq![(i, pos)] + walk(attrs, version, e.next_attribute_index as int, (fuel - 1) as nat, seen.insert(i), next_cursor)
    }
}

/// The payload cursor after a payload of `len` bytes, saturating at the
/// largest 64-bit value.
pub open spec fn advance(cursor: int, len: int) -> int {
    if cursor + len <= u64::MAX {
        cursor + len
    } else {
        u64::MAX as int
    }
}

/// The cursor after a walk: unchanged from version 3.
pub open spec fn walk_end_cursor(attrs: Seq<AttributeEntry>, version: u32, w: Seq<(int, int)>, cursor: int) -> int
    decreases w.len(),
{
    if w.len() == 0 || version >= 3 {
        cursor
    } else {
        advance(walk_end_cursor(attrs, version, w.drop_last(), cursor), (attrs[w.last().0].type_and_length / 64) as int)
    }
}

/// Record `e` is decoded when its payload is read from `pos`: its type id is
/// in the catalog, its declared length within the cap, and its payload
/// inside the blob.
pub open spec fn decodable(e: AttributeEntry, values_len: int, pos: int) -> bool {
    match type_of_id((e.type_and_length % 64) as int) {
        Some(ty) => (e.type_and_length / 64) as int <= MAX_VALUE_SIZE && 0 <= pos && pos + payload_len(
            ty,
            (e.type_and_length / 64) as int,
        ) <= values_len,
        None => false,
    }
}

/// A reported defect is one that the records have.
pub open spec fn soft_error_holds(attrs: Seq<AttributeEntry>, t: Seq<Seq<Seq<char>>>, d: SoftError) -> bool {
    match d {
        SoftError::UnknownAttributeType(j) => j < attrs.len() && type_of_id((attrs[j as int].type_and_length % 64) as int) is None,
        SoftError::AttributeTooLarge(j) => j < attrs.len() && attrs[j as int].type_and_length / 64 > MAX_VALUE_SIZE,
        SoftError::CycleDetected(j) => j < attrs.len(),
        SoftError::UnresolvedStringReference(id) => resolve(t, id) is None,
        _ => true,
    }
}

/// Every defect reported after position `from` holds.
pub open spec fn reports_hold(attrs: Seq<AttributeEntry>, t: Seq<Seq<Seq<char>>>, diag: Seq<SoftError>, from: int) -> bool {
    forall|k: int| from <= k < diag.len() ==> soft_error_holds(attrs, t, #[trigger] diag[k])
}

/// The name of a record with a packed id: the pooled string, or `prefix` and
/// the id in hexadecimal, reported as unresolved.
fn record_name(t: &StringTable, id: u32, prefix: &str, diag: &mut Vec<SoftError>) -> (r: String)
    ensures
        r@ == name_of(t@, id, prefix@),
        final(diag)@.len() >= old(diag)@.len(),
        final(diag)@.subrange(0, old(diag)@.len() as int) == old(diag)@,
        forall|a: Seq<AttributeEntry>| reports_hold(a, t@, final(diag)@, old(diag)@.len() as int),
{
    match get_string_from_hash(t, id) {
        Some(s) => {
            assert(diag@.subrange(0, diag@.len() as int) =~= diag@);
            s
        },
        None => {
            diag.push(SoftError::UnresolvedStringReference(id));
            assert(final(diag)@.subrange(0, old(diag)@.len() as int) =~= old(diag)@);
            with_hex8(prefix, id)
        },
    }
}

/// The report that skipping a walk record gives: an unknown type id, a
/// declared length over the cap, or a payload outside the blob.
pub open spec fn skip_report(attrs: Seq<AttributeEntry>, values_len: int, x: (int, int)) -> Option<SoftError> {
    let e = attrs[x.0];
    let len = (e.type_and_length / 64) as int;
    match type_of_id((e.type_and_length % 64) as int) {
        None => Some(SoftError::UnknownAttributeType(x.0 as usize)),
        Some(ty) => if len > MAX_VALUE_SIZE {
            Some(SoftError::AttributeTooLarge(x.0 as usize))
        } else if !(0 <= x.1 && x.1 + payload_len(ty, len) <= values_len) {
            Some(SoftError::OutOfRangeIndex(x.0 as usize))
        } else {
            None
        },
    }
}

/// Every record of the walk that is skipped is reported.
pub open spec fn skips_reported(attrs: Seq<AttributeEntry>, values_len: int, w: Seq<(int, int)>, diag: Seq<SoftError>) -> bool {
    forall|m: int| 0 <= m < w.len() && (#[trigger] skip_report(attrs, values_len, w[m])) is Some ==> diag.contains(
        skip_report(attrs, values_len, w[m])->0,
    )
}

proof fn lemma_contains_kept(a: Seq<SoftError>, b: Seq<SoftError>, d: SoftError)
    requires
        b.len() >= a.len(),
        b.subrange(0, a.len() as int) == a,
        a.contains(d),
    ensures
        b.contains(d),
{
    let k = choose|k: int| 0 <= k < a.len() && a[k] == d;
    assert(b[k] == b.subrange(0, a.len() as int)[k]);
}

proof fn lemma_skips_kept(attrs: Seq<AttributeEntry>, values_len: int, w: Seq<(int, int)>, a: Seq<SoftError>, b: Seq<SoftError>)
    requires
        skips_reported(attrs, values_len, w, a),
        b.len() >= a.len(),
        b.subrange(0, a.len() as int) == a,
    ensures
        skips_reported(attrs, values_len, w, b),
{
    assert forall|m: int| 0 <= m < w.len() && (#[trigger] skip_report(attrs, values_len, w[m])) is Some implies b.contains(
        skip_report(attrs, values_len, w[m])->0,
    ) by {
        lemma_contains_kept(a, b, skip_report(attrs, values_len, w[m])->0);
    }
}

/// From version 3, a walk along records `first`, `first + 1`, ... linked
/// one to the next and the last to -1 visits exactly those records, each at
/// its stored offset (shown here from the `j`-th record on).
pub proof fn lemma_walk_consecutive(
    attrs: Seq<AttributeEntry>,
    version: u32,
    first: int,
    count: int,
    j: int,
    i: int,
    fuel: nat,
    seen: Set<int>,
    c: int,
)
    requires
        version >= 3,
        0 <= first,
        0 <= j <= count,
        first + count <= attrs.len(),
        i == (if j < count { first + j } else { -1 }),
        fuel >= count - j,
        forall|k: int| 0 <= k < count ==> (#[trigger] attrs[first + k]).next_attribute_index == (if k + 1 < count { first + k + 1 } else { -1 }),
        forall|x: int| seen.contains(x) ==> x < first + j,
    ensures
        walk(attrs, version, i, fuel, seen, c).len() == count - j,
        forall|m: int| 0 <= m < count - j ==> #[trigger] walk(attrs, version, i, fuel, seen, c)[m] == (first + j + m, attrs[first + j + m].offset as int),
    decreases count - j,
{
    if j < count {
        let e = attrs[first + j];
        assert(e.next_attribute_index == (if j + 1 < count { first + j + 1 } else { -1 }));
        lemma_walk_consecutive(attrs, version, first, count, j + 1, e.next_attribute_index as int, (fuel - 1) as nat, seen.insert(i), c);
        let rest = walk(attrs, version, e.next_attribute_index as int, (fuel - 1) as nat, seen.insert(i), c);
        assert(walk(attrs, version, i, fuel, seen, c) == seq![(i, e.offset as int)] + rest);
        assert forall|m: int| 0 <= m < count - j implies #[trigger] walk(attrs, version, i, fuel, seen, c)[m] == (first + j + m, attrs[first + j + m].offset as int) by {
            if m > 0 {
                assert(walk(attrs, version, i, fuel, seen, c)[m] == rest[m - 1]);
            }
        }
    }
}

/// Some entry of the list has the name `name`.
pub open spec fn has_name(list: Seq<(String, NodeAttribute)>, name: Seq<char>) -> bool {
    exists|k: int| 0 <= k < list.len() && (#[trigger] list[k]).0@ == name
}

/// Reads the attribute chain that starts at `first`. Each record visited is
/// stamped in `marks`, so that a chain that returns to a record of this walk
/// ends there; at most `MAX_ATTRIBUTES_PER_NODE` records are visited. A record
/// with an unknown type, an oversized or out-of-range payload is skipped.
/// Before version 3 payloads are read one after another from `cursor`.
/// Every record the walk decodes yields an entry under its name; a later
/// record of the same name replaces the earlier one's value.
pub fn read_node_attributes(
    first: i32,
    attrs: &Vec<AttributeEntry>,
    t: &StringTable,
    values: &Vec<u8>,
    version: u32,
    marks: &mut Vec<bool>,
    cursor: &mut u64,
    diag: &mut Vec<SoftError>,
) -> (r: Vec<(String, NodeAttribute)>)
    requires
        old(marks)@.len() == attrs@.len(),
        forall|x: int| 0 <= x < attrs@.len() ==> !(#[trigger] old(marks)@[x]),
    ensures
        final(diag)@.len() >= old(diag)@.len(),
        final(diag)@.subrange(0, old(diag)@.len() as int) == old(diag)@,
        reports_hold(attrs@, t@, final(diag)@, old(diag)@.len() as int),
        skips_reported(attrs@, values@.len() as int, walk(attrs@, version, first as int, MAX_ATTRIBUTES_PER_NODE as nat, Set::empty(), *old(cursor) as int), final(diag)@),
        final(marks)@.len() == attrs@.len(),
        forall|x: int| 0 <= x < attrs@.len() ==> !(#[trigger] final(marks)@[x]),
        attributes_wf(r@),
        from_walk(t@, attrs@, values@, walk(attrs@, version, first as int, MAX_ATTRIBUTES_PER_NODE as nat, Set::empty(), *old(cursor) as int), r@),
        r@.len() <= MAX_ATTRIBUTES_PER_NODE,
        ({
            let w = walk(attrs@, version, first as int, MAX_ATTRIBUTES_PER_NODE as nat, Set::empty(), *old(cursor) as int);
            &&& forall|m: int| 0 <= m < w.len() && decodable(attrs@[(#[trigger] w[m]).0], values@.len() as int, w[m].1)
                ==> has_name(r@, name_of(t@, attrs@[w[m].0].name_hash_table_index, attr_prefix()))
            &&& *final(cursor) as int == walk_end_cursor(attrs@, version, w, *old(cursor) as int)
        }),
{
    let ghost whole = walk(attrs@, version, first as int, MAX_ATTRIBUTES_PER_NODE as nat, Set::empty(), *cursor as int);
    let ghost c0 = *cursor as int;
    let ghost mut done: Seq<(int, int)> = Seq::empty();
    let ghost mut seen: Set<int> = Set::empty();
    let mut out: Vec<(String, NodeAttribute)> = Vec::new();
    let mut touched: Vec<usize> = Vec::new();
    let mut i = first;
    let mut steps: usize = 0;
    let mut returned = false;
    while !returned && i >= 0 && (i as usize) < attrs.len() && steps < MAX_ATTRIBUTES_PER_NODE
        invariant
            returned ==> 0 <= i < attrs@.len() && seen.contains(i as int),
            diag@.len() >= old(diag)@.len(),
            diag@.subrange(0, old(diag)@.len() as int) == old(diag)@,
            reports_hold(attrs@, t@, diag@, old(diag)@.len() as int),
            skips_reported(attrs@, values@.len() as int, done, diag@),
            marks@.len() == attrs@.len(),
            forall|x: int| 0 <= x < attrs@.len() ==> ((#[trigger] marks@[x]) <==> seen.contains(x)),
            forall|x: int| 0 <= x < attrs@.len() && (#[trigger] marks@[x]) ==> touched@.contains(x as usize),
            forall|k: int| 0 <= k < touched@.len() ==> (#[trigger] touched@[k]) < attrs@.len(),
            forall|x: int| seen.contains(x) ==> 0 <= x < attrs@.len(),
            attributes_wf(out@),
            from_walk(t@, attrs@, values@, done, out@),
            out@.len() <= steps,
            steps <= MAX_ATTRIBUTES_PER_NODE,
            whole == done + walk(attrs@, version, i as int, (MAX_ATTRIBUTES_PER_NODE - steps) as nat, seen, *cursor as int),
            *cursor as int == walk_end_cursor(attrs@, version, done, c0),
            forall|m: int| 0 <= m < done.len() && decodable(attrs@[(#[trigger] done[m]).0], values@.len() as int, done[m].1)
                ==> has_name(out@, name_of(t@, attrs@[done[m].0].name_hash_table_index, attr_prefix())),
            forall|m: int| 0 <= m < done.len() ==> 0 <= (#[trigger] done[m]).0 < attrs@.len(),
        decreases MAX_ATTRIBUTES_PER_NODE - steps + (if returned { 0int } else { 1int }),
    {
        let idx = i as usize;
        if marks[idx] {
            let ghost dc = diag@;
            push_report(diag, SoftError::CycleDetected(idx), Ghost(attrs@), Ghost(t@));
            proof {
                assert(diag@.subrange(0, dc.len() as int) =~= dc);
                lemma_skips_kept(attrs@, values@.len() as int, done, dc, diag@);
            }
            returned = true;
            continue;
        }
        let ghost pos_spec: int = if version >= 3 { attrs@[idx as int].offset as int } else { *cursor as int };
        let ghost rest = walk(attrs@, version, attrs@[idx as int].next_attribute_index as int,
            (MAX_ATTRIBUTES_PER_NODE - steps - 1) as nat, seen.insert(idx as int),
            if version >= 3 { *cursor as int } else { advance(*cursor as int, (attrs@[idx as int].type_and_length / 64) as int) });
        assert(walk(attrs@, version, i as int, (MAX_ATTRIBUTES_PER_NODE - steps) as nat, seen, *cursor as int) == seq![(idx as int, pos_spec)] + rest);
        marks.set(idx, true);
        let ghost old_touched = touched@;
        touched.push(idx);
        proof {
            assert forall|x: int| 0 <= x < attrs@.len() && (#[trigger] marks@[x]) implies touched@.contains(x as usize) by {
                if x == idx {
                    assert(touched@[touched@.len() - 1] == idx);
                } else {
                    let k = choose|k: int| 0 <= k < old_touched.len() && old_touched[k] == x as usize;
                    assert(touched@[k] == x as usize);
                }
            }
        }
        let e = attrs[idx];
        let ghost d0 = diag@;
        let name = record_name(t, e.name_hash_table_index, "attr_0x", diag);
        proof {
            lemma_skips_kept(attrs@, values@.len() as int, done, d0, diag@);
        }
        let ghost d_named = diag@;
        proof {
            reveal_strlit("attr_0x");
            assert("attr_0x"@ =~= attr_prefix());
            assert(reports_hold(attrs@, t@, diag@, old(diag)@.len() as int)) by {
                assert(reports_hold(attrs@, t@, diag@, d0.len() as int));
                assert forall|k: int| old(diag)@.len() <= k < diag@.len() implies soft_error_holds(attrs@, t@, #[trigger] diag@[k]) by {
                    if k < d0.len() {
                        assert(diag@[k] == diag@.subrange(0, d0.len() as int)[k]);
                        assert(diag@[k] == d0[k]);
                        assert(soft_error_holds(attrs@, t@, d0[k]));
                    }
                }
            }
            assert(diag@.subrange(0, old(diag)@.len() as int) =~= d0.subrange(0, old(diag)@.len() as int));
        }
        let ghost before_out = out@;
        let len = e.length();
        let mut taken = false;
        match e.attribute_type() {
            Some(ty) => {
                if len <= MAX_VALUE_SIZE {
                    let pos: u64 = if version >= 3 { e.offset as u64 } else { *cursor };
                    let size = payload_size(ty, len) as u64;
                    if pos <= values.len() as u64 && size <= values.len() as u64 - pos {
                        let p = slice_subrange(values.as_slice(), pos as usize, (pos + size) as usize);
                        let v = decode_value(p, ty);
                        let a = NodeAttribute { attribute_type: ty, value: v };
                        let ghost before = out@;
                        let ghost nm = name@;
                        proof {
                            assert(decoded_at(t@, attrs@[idx as int], values@, pos as int, nm, a));
                        }
                        set_attribute(&mut out, name, a);
                        taken = true;
                        proof {
                            assert(pos as int == pos_spec);
                            lemma_from_walk_step(t@, attrs@, values@, done, (idx as int, pos_spec), before, out@, true, nm, a);
                            lemma_names_kept(before, out@, nm);
                        }
                    } else {
                        push_report(diag, SoftError::OutOfRangeIndex(idx), Ghost(attrs@), Ghost(t@));
                proof {
                    assert(diag@[diag@.len() - 1] == SoftError::OutOfRangeIndex(idx));
                    assert(skip_report(attrs@, values@.len() as int, (idx as int, pos_spec)) == Some(SoftError::OutOfRangeIndex(idx)));
                }
                    }
                } else {
                    push_report(diag, SoftError::AttributeTooLarge(idx), Ghost(attrs@), Ghost(t@));
                proof {
                    assert(diag@[diag@.len() - 1] == SoftError::AttributeTooLarge(idx));
                    assert(skip_report(attrs@, values@.len() as int, (idx as int, pos_spec)) == Some(SoftError::AttributeTooLarge(idx)));
                }
                }
            },
            None => {
                push_report(diag, SoftError::UnknownAttributeType(idx), Ghost(attrs@), Ghost(t@));
                proof {
                    assert(diag@[diag@.len() - 1] == SoftError::UnknownAttributeType(idx));
                    assert(skip_report(attrs@, values@.len() as int, (idx as int, pos_spec)) == Some(SoftError::UnknownAttributeType(idx)));
                }
            },
        }
        proof {
            assert(diag@.len() >= d_named.len() && diag@.subrange(0, d_named.len() as int) =~= d_named);
            lemma_skips_kept(attrs@, values@.len() as int, done, d_named, diag@);
            let x = (idx as int, pos_spec);
            if skip_report(attrs@, values@.len() as int, x) is Some {
                assert(diag@.contains(skip_report(attrs@, values@.len() as int, x)->0));
            }
            assert forall|m: int| 0 <= m < done.len() + 1 && (#[trigger] skip_report(attrs@, values@.len() as int, done.push(x)[m])) is Some
                implies diag@.contains(skip_report(attrs@, values@.len() as int, done.push(x)[m])->0) by {
                if m < done.len() {
                    assert(done.push(x)[m] == done[m]);
                } else {
                    assert(done.push(x)[m] == x);
                }
            }
            if !taken {
                assert(!decodable(attrs@[idx as int], values@.len() as int, pos_spec));
                assert(out@ == before_out);
                lemma_from_walk_step(t@, attrs@, values@, done, (idx as int, pos_spec), before_out, out@, false, Seq::empty(),
                    NodeAttribute { attribute_type: AttributeType::Empty, value: crate::resource::AttributeValue::Empty });
            }
            assert forall|m: int| 0 <= m < done.len() + 1 && decodable(attrs@[(#[trigger] done.push((idx as int, pos_spec))[m]).0], values@.len() as int, done.push((idx as int, pos_spec))[m].1)
                implies has_name(out@, name_of(t@, attrs@[done.push((idx as int, pos_spec))[m].0].name_hash_table_index, attr_prefix())) by {
                if m < done.len() {
                    assert(done.push((idx as int, pos_spec))[m] == done[m]);
                    assert(has_name(before_out, name_of(t@, attrs@[done[m].0].name_hash_table_index, attr_prefix())));
                }
            }
        }
        if version < 3 {
            *cursor = if *cursor <= u64::MAX - len as u64 { *cursor + len as u64 } else { u64::MAX };
        }
        proof {
            assert(done.push((idx as int, pos_spec)).drop_last() =~= done);
            assert(whole =~= done.push((idx as int, pos_spec)) + rest);
            done = done.push((idx as int, pos_spec));
            seen = seen.insert(idx as int);
        }
        steps = steps + 1;
        i = e.next_attribute_index;
    }
    proof {
        assert(done + Seq::<(int, int)>::empty() =~= done);
    }
    let mut k: usize = 0;
    assert(touched@.subrange(0, touched@.len() as int) =~= touched@);
    let _n = attrs.len();
    while k < touched.len()
        invariant
            attrs@.len() <= usize::MAX,
            marks@.len() == attrs@.len(),
            k <= touched@.len(),
            forall|q: int| 0 <= q < touched@.len() ==> (#[trigger] touched@[q]) < attrs@.len(),
            forall|x: int| 0 <= x < attrs@.len() && (#[trigger] marks@[x]) ==> touched@.subrange(k as int, touched@.len() as int).contains(x as usize),
        decreases touched@.len() - k,
    {
        let ghost before = marks@;
        let y = touched[k];
        marks.set(y, false);
        proof {
            assert forall|x: int| 0 <= x < attrs@.len() && (#[trigger] marks@[x]) implies touched@.subrange(k + 1, touched@.len() as int).contains(x as usize) by {
                assert(x != y as int);
                assert(x as usize != y);
                assert(before[x]);
                let q = choose|q: int| 0 <= q < touched@.len() - k && touched@.subrange(k as int, touched@.len() as int)[q] == x as usize;
                assert(touched@.subrange(k as int, touched@.len() as int)[0] == y);
                assert(q != 0);
                assert(touched@.subrange(k + 1, touched@.len() as int)[q - 1] == x as usize);
            }
        }
        k = k + 1;
    }
    out
}

/// `after` is `before` with reports added that hold of the records.
pub open spec fn diag_extends(
    attrs: Seq<AttributeEntry>,
    t: Seq<Seq<Seq<char>>>,
    before: Seq<SoftError>,
    after: Seq<SoftError>,
) -> bool {
    &&& after.len() >= before.len()
    &&& after.subrange(0, before.len() as int) == before
    &&& reports_hold(attrs, t, after, before.len() as int)
}

proof fn lemma_diag_extends_refl(attrs: Seq<AttributeEntry>, t: Seq<Seq<Seq<char>>>, d: Seq<SoftError>)
    ensures
        diag_extends(attrs, t, d, d),
{
    assert(d.subrange(0, d.len() as int) =~= d);
}

proof fn lemma_diag_extends_trans(
    attrs: Seq<AttributeEntry>,
    t: Seq<Seq<Seq<char>>>,
    a: Seq<SoftError>,
    b: Seq<SoftError>,
    c: Seq<SoftError>,
)
    requires
        diag_extends(attrs, t, a, b),
        diag_extends(attrs, t, b, c),
    ensures
        diag_extends(attrs, t, a, c),
{
    assert(c.subrange(0, a.len() as int) =~= b.subrange(0, a.len() as int)) by {
        assert forall|k: int| 0 <= k < a.len() implies c.subrange(0, a.len() as int)[k] == b.subrange(0, a.len() as int)[k] by {
            assert(c[k] == c.subrange(0, b.len() as int)[k]);
        }
    }
    assert forall|k: int| a.len() <= k < c.len() implies soft_error_holds(attrs, t, #[trigger] c[k]) by {
        if k < b.len() {
            assert(c[k] == c.subrange(0, b.len() as int)[k]);
            assert(soft_error_holds(attrs, t, b[k]));
        }
    }
}

/// Appends a report that holds of the records.
fn push_report(diag: &mut Vec<SoftError>, d: SoftError, attrs: Ghost<Seq<AttributeEntry>>, t: Ghost<Seq<Seq<Seq<char>>>>)
    requires
        soft_error_holds(attrs@, t@, d),
    ensures
        final(diag)@ == old(diag)@.push(d),
        forall|from: int| 0 <= from && reports_hold(attrs@, t@, old(diag)@, from) ==> reports_hold(attrs@, t@, final(diag)@, from),
{
    let ghost before = diag@;
    diag.push(d);
    proof {
        assert forall|from: int| 0 <= from && reports_hold(attrs@, t@, before, from) implies reports_hold(attrs@, t@, diag@, from) by {
            assert forall|k: int| from <= k < diag@.len() implies soft_error_holds(attrs@, t@, #[trigger] diag@[k]) by {
                if k < before.len() {
                    assert(diag@[k] == before[k]);
                }
            }
        }
    }
}

/// After setting an attribute, every name that was present still is, and the
/// new one too.
proof fn lemma_names_kept(before: Seq<(String, NodeAttribute)>, after: Seq<(String, NodeAttribute)>, nm: Seq<char>)
    requires
        exists|k: int| 0 <= k < after.len() && (#[trigger] after[k]).0@ == nm,
        forall|k: int| 0 <= k < before.len() && (#[trigger] before[k]).0@ != nm ==> after.contains(before[k]),
    ensures
        has_name(after, nm),
        forall|n: Seq<char>| has_name(before, n) ==> has_name(after, n),
{
    assert forall|n: Seq<char>| has_name(before, n) implies has_name(after, n) by {
        if n != nm {
            let k = choose|k: int| 0 <= k < before.len() && (#[trigger] before[k]).0@ == n;
            assert(after.contains(before[k]));
            let k2 = choose|k2: int| 0 <= k2 < after.len() && after[k2] == before[k];
            assert(after[k2].0@ == n);
        }
    }
}

/// A node record that starts a region: its parent index is -1, or, in the
/// permissive reading, any index at or below 0.
pub open spec fn is_root(e: NodeEntry, permissive: bool) -> bool {
    e.parent_index == -1 || (permissive && e.parent_index <= 0)
}

/// The permissive reading applies where no record has the parent index -1.
pub open spec fn reads_permissively(nodes: Seq<NodeEntry>) -> bool {
    nodes.len() > 0 && forall|j: int| 0 <= j < nodes.len() ==> (#[trigger] nodes[j]).parent_index != -1
}

/// The indices of a sequence, strictly increasing.
pub open spec fn increasing(s: Seq<usize>) -> bool {
    forall|a: int, b: int| 0 <= a < b < s.len() ==> s[a] < s[b]
}

/// `roots` lists the region roots and `kids[p]` the children of record `p`,
/// each in index order: every other record whose parent index is in range
/// appears exactly once, in the list of its parent.
pub open spec fn children_in_index_order(
    nodes: Seq<NodeEntry>,
    permissive: bool,
    roots: Seq<usize>,
    kids: Seq<Vec<usize>>,
) -> bool {
    &&& kids.len() == nodes.len()
    &&& increasing(roots)
    &&& forall|j: int| #![trigger roots.contains(j as usize)] 0 <= j < nodes.len() ==> (roots.contains(j as usize) <==> is_root(nodes[j], permissive))
    &&& forall|k: int| 0 <= k < roots.len() ==> (#[trigger] roots[k]) < nodes.len() && is_root(nodes[roots[k] as int], permissive)
    &&& forall|p: int| 0 <= p < kids.len() ==> increasing(#[trigger] kids[p]@)
    &&& forall|p: int, k: int| 0 <= p < kids.len() && 0 <= k < kids[p]@.len() ==> (#[trigger] kids[p]@[k]) < nodes.len()
        && !is_root(nodes[kids[p]@[k] as int], permissive) && nodes[kids[p]@[k] as int].parent_index == p
    &&& forall|p: int, j: int| 0 <= p < kids.len() && 0 <= j < nodes.len() && !is_root(#[trigger] nodes[j], permissive)
        && nodes[j].parent_index == p ==> (#[trigger] kids[p]@).contains(j as usize)
}

/// Groups the records under their parents, in index order, and lists the
/// region roots.
fn group_by_parent(nodes: &Vec<NodeEntry>, permissive: bool) -> (r: (Vec<usize>, Vec<Vec<usize>>))
    ensures
        children_in_index_order(nodes@, permissive, r.0@, r.1@),
{
    let n = nodes.len();
    let mut kids: Vec<Vec<usize>> = Vec::new();
    let mut p: usize = 0;
    while p < n
        invariant
            p <= n,
            n == nodes@.len(),
            kids@.len() == p,
            forall|q: int| 0 <= q < p ==> (#[trigger] kids@[q])@.len() == 0,
        decreases n - p,
    {
        kids.push(Vec::new());
        p = p + 1;
    }
    let mut roots: Vec<usize> = Vec::new();
    let mut j: usize = 0;
    while j < n
        invariant
            j <= n,
            n == nodes@.len(),
            kids@.len() == n,
            increasing(roots@),
            forall|k: int| 0 <= k < roots@.len() ==> (#[trigger] roots@[k]) < j && is_root(nodes@[roots@[k] as int], permissive),
            forall|i: int| #![trigger roots@.contains(i as usize)] 0 <= i < j ==> (roots@.contains(i as usize) <==> is_root(nodes@[i], permissive)),
            forall|q: int| 0 <= q < n ==> increasing(#[trigger] kids@[q]@),
            forall|q: int, k: int| 0 <= q < n && 0 <= k < kids@[q]@.len() ==> (#[trigger] kids@[q]@[k]) < j
                && !is_root(nodes@[kids@[q]@[k] as int], permissive) && nodes@[kids@[q]@[k] as int].parent_index == q,
            forall|q: int, i: int| 0 <= q < n && 0 <= i < j && !is_root(#[trigger] nodes@[i], permissive)
                && nodes@[i].parent_index == q ==> (#[trigger] kids@[q]@).contains(i as usize),
        decreases n - j,
    {
        let e = nodes[j];
        let root = e.parent_index == -1 || (permissive && e.parent_index <= 0);
        if root {
            let ghost before = roots@;
            roots.push(j);
            proof {
                assert(roots@.drop_last() =~= before);
                assert forall|i: int| #![trigger roots@.contains(i as usize)] 0 <= i < j + 1 implies (roots@.contains(i as usize) <==> is_root(nodes@[i], permissive)) by {
                    if i == j {
                        assert(roots@[roots@.len() - 1] == j);
                    } else {
                        if roots@.contains(i as usize) {
                            let k = choose|k: int| 0 <= k < roots@.len() && roots@[k] == i as usize;
                            assert(k < roots@.len() - 1);
                            assert(before[k] == i as usize);
                            assert(before.contains(i as usize));
                        }
                        if before.contains(i as usize) {
                            let k = choose|k: int| 0 <= k < before.len() && before[k] == i as usize;
                            assert(roots@[k] == i as usize);
                        }
                    }
                }
            }
        } else if e.parent_index >= 0 && (e.parent_index as usize) < n {
            let q = e.parent_index as usize;
            let ghost before = kids@;
            let mut list: Vec<usize> = Vec::new();
            std::mem::swap(&mut list, &mut kids[q]);
            list.push(j);
            std::mem::swap(&mut list, &mut kids[q]);
            proof {
                assert(kids@[q as int]@ == before[q as int]@.push(j));
                assert forall|q2: int| 0 <= q2 < n implies (#[trigger] kids@[q2]@) == if q2 == q { before[q2]@.push(j) } else { before[q2]@ } by {}
                assert forall|q2: int, i: int| 0 <= q2 < n && 0 <= i < j + 1 && !is_root(#[trigger] nodes@[i], permissive)
                    && nodes@[i].parent_index == q2 implies (#[trigger] kids@[q2]@).contains(i as usize) by {
                    if i == j {
                        assert(kids@[q2]@[kids@[q2]@.len() - 1] == j);
                    } else {
                        assert(before[q2]@.contains(i as usize));
                        let k = choose|k: int| 0 <= k < before[q2]@.len() && before[q2]@[k] == i as usize;
                        assert(kids@[q2]@[k] == i as usize);
                    }
                }
            }
        }
        proof {
            assert forall|i: int| #![trigger roots@.contains(i as usize)] 0 <= i < j + 1 implies (roots@.contains(i as usize) <==> is_root(nodes@[i], permissive)) by {
                if i == j && !root {
                    if roots@.contains(i as usize) {
                        let k = choose|k: int| 0 <= k < roots@.len() && roots@[k] == i as usize;
                    }
                }
            }
        }
        j = j + 1;
    }
    (roots, kids)
}

/// `roots` lists the region roots in index order and `kids[p]` the children
/// of record `p`: every other record whose parent index is in range appears
/// exactly once, in the list of its parent, which follows the sibling links.
pub open spec fn children_lists(
    nodes: Seq<NodeEntry>,
    permissive: bool,
    roots: Seq<usize>,
    kids: Seq<Vec<usize>>,
) -> bool {
    &&& kids.len() == nodes.len()
    &&& increasing(roots)
    &&& forall|j: int| #![trigger roots.contains(j as usize)] 0 <= j < nodes.len() ==> (roots.contains(j as usize) <==> is_root(nodes[j], permissive))
    &&& forall|k: int| 0 <= k < roots.len() ==> (#[trigger] roots[k]) < nodes.len() && is_root(nodes[roots[k] as int], permissive)
    &&& forall|p: int| 0 <= p < kids.len() ==> (#[trigger] kids[p]@).no_duplicates()
    &&& forall|p: int| 0 <= p < kids.len() ==> sibling_ordered(nodes, permissive, p, #[trigger] kids[p]@)
    &&& forall|p: int, j: int| #![trigger kids[p]@.contains(j as usize)] 0 <= p < kids.len() && 0 <= j < nodes.len() ==> (kids[p]@.contains(j as usize)
        <==> (!is_root(nodes[j], permissive) && nodes[j].parent_index == p))
    &&& forall|p: int, k: int| 0 <= p < kids.len() && 0 <= k < kids[p]@.len() ==> (#[trigger] kids[p]@[k]) < nodes.len()
}

/// Record `j` is a child of record `p`.
pub open spec fn is_child_of(nodes: Seq<NodeEntry>, permissive: bool, j: int, p: int) -> bool {
    !is_root(nodes[j], permissive) && nodes[j].parent_index == p
}

/// The sibling link of record `c`.
pub open spec fn next_of(nodes: Seq<NodeEntry>, c: usize) -> int {
    nodes[c as int].next_sibling_index as int
}

/// The child list `s` of record `p` follows the sibling links: where a
/// child's link names another child of `p` not listed before it, that child
/// comes next.
pub open spec fn sibling_ordered(nodes: Seq<NodeEntry>, permissive: bool, p: int, s: Seq<usize>) -> bool {
    forall|k: int| 0 <= k < s.len() - 1 && 0 <= #[trigger] next_of(nodes, s[k]) < nodes.len() && is_child_of(
        nodes,
        permissive,
        next_of(nodes, s[k]),
        p,
    ) && !s.subrange(0, k + 1).contains(next_of(nodes, s[k]) as usize) ==> s[k + 1] == next_of(nodes, s[k]) as usize
}

/// The state while the children of `p` are being ordered: `out` lists
/// distinct children of `p` in sibling order, exactly the ones marked in
/// `visited`, and the link of the last one leads nowhere new.
pub open spec fn ordering_state(
    nodes: Seq<NodeEntry>,
    permissive: bool,
    p: int,
    list: Seq<usize>,
    visited: Seq<bool>,
    old_visited: Seq<bool>,
    out: Seq<usize>,
) -> bool {
    &&& visited.len() == nodes.len()
    &&& nodes.len() <= usize::MAX
    &&& increasing(list)
    &&& forall|k: int| 0 <= k < list.len() ==> (#[trigger] list[k]) < nodes.len()
    &&& forall|j: usize| #![trigger list.contains(j)] j < nodes.len() ==> (list.contains(j) <==> is_child_of(nodes, permissive, j as int, p))
    &&& out.no_duplicates()
    &&& forall|k: int| 0 <= k < out.len() ==> (#[trigger] out[k]) < nodes.len() && list.contains(out[k])
    &&& forall|j: int| 0 <= j < nodes.len() && is_child_of(nodes, permissive, j, p) ==> ((#[trigger] visited[j]) <==> out.contains(j as usize))
    &&& forall|j: int| 0 <= j < nodes.len() && !is_child_of(nodes, permissive, j, p) ==> (#[trigger] visited[j]) == old_visited[j]
    &&& sibling_ordered(nodes, permissive, p, out)
    &&& out.len() <= list.len()
}

/// The link of the last listed child names no unlisted child.
pub open spec fn chain_closed(nodes: Seq<NodeEntry>, permissive: bool, p: int, out: Seq<usize>) -> bool {
    out.len() > 0 ==> !(0 <= next_of(nodes, out.last()) < nodes.len() && is_child_of(nodes, permissive, next_of(nodes, out.last()), p)
        && !out.contains(next_of(nodes, out.last()) as usize))
}

proof fn lemma_push_child(
    nodes: Seq<NodeEntry>,
    permissive: bool,
    p: int,
    list: Seq<usize>,
    visited: Seq<bool>,
    old_visited: Seq<bool>,
    out: Seq<usize>,
    c: usize,
)
    requires
        ordering_state(nodes, permissive, p, list, visited, old_visited, out),
        c < nodes.len(),
        is_child_of(nodes, permissive, c as int, p),
        !visited[c as int],
        out.len() > 0 && !chain_closed(nodes, permissive, p, out) ==> c as int == next_of(nodes, out.last()),
    ensures
        ordering_state(nodes, permissive, p, list, visited.update(c as int, true), old_visited, out.push(c)),
{
    let o2 = out.push(c);
    let v2 = visited.update(c as int, true);
    assert(list.contains(c));
    assert(!out.contains(c));
    assert forall|k: int| 0 <= k < o2.len() implies (#[trigger] o2[k]) < nodes.len() && list.contains(o2[k]) by {
        if k < out.len() {
            assert(o2[k] == out[k]);
        }
    }
    assert forall|j: int| 0 <= j < nodes.len() && is_child_of(nodes, permissive, j, p) implies ((#[trigger] v2[j]) <==> o2.contains(j as usize)) by {
        if j != c as int {
            assert(j as usize != c);
            if o2.contains(j as usize) {
                let k = choose|k: int| 0 <= k < o2.len() && o2[k] == j as usize;
                assert(k < out.len());
                assert(out[k] == j as usize);
            }
            if out.contains(j as usize) {
                let k = choose|k: int| 0 <= k < out.len() && out[k] == j as usize;
                assert(o2[k] == j as usize);
            }
        } else {
            assert(o2[out.len() as int] == c);
        }
    }
    assert(o2.no_duplicates()) by {
        assert forall|a: int, b: int| 0 <= a < b < o2.len() implies o2[a] != o2[b] by {
            if b == out.len() {
                assert(o2[a] == out[a]);
                assert(out.contains(o2[a]));
            } else {
                assert(o2[a] == out[a] && o2[b] == out[b]);
            }
        }
    }
    assert forall|k: int| 0 <= k < o2.len() - 1 && 0 <= #[trigger] next_of(nodes, o2[k]) < nodes.len() && is_child_of(
        nodes,
        permissive,
        next_of(nodes, o2[k]),
        p,
    ) && !o2.subrange(0, k + 1).contains(next_of(nodes, o2[k]) as usize) implies o2[k + 1] == next_of(nodes, o2[k]) as usize by {
        assert(o2.subrange(0, k + 1) =~= out.subrange(0, k + 1));
        assert(o2[k] == out[k]);
        if k < out.len() - 1 {
            assert(o2[k + 1] == out[k + 1]);
        } else {
            assert(out.subrange(0, k + 1) =~= out);
            assert(out.last() == out[k]);
        }
    }
    lemma_distinct_members_fit(o2, list);
}

/// Lists the children of `p` reached from `start` by sibling links, until a
/// link leaves the children of `p` or returns to a listed one.
fn follow_chain(
    start: usize,
    p: usize,
    list: &Vec<usize>,
    nodes: &Vec<NodeEntry>,
    permissive: bool,
    visited: &mut Vec<bool>,
    out: &mut Vec<usize>,
    Ghost(old_visited): Ghost<Seq<bool>>,
)
    requires
        ordering_state(nodes@, permissive, p as int, list@, old(visited)@, old_visited, old(out)@),
        chain_closed(nodes@, permissive, p as int, old(out)@),
        start < nodes@.len(),
        is_child_of(nodes@, permissive, start as int, p as int),
        !old(visited)@[start as int],
    ensures
        ordering_state(nodes@, permissive, p as int, list@, final(visited)@, old_visited, final(out)@),
        chain_closed(nodes@, permissive, p as int, final(out)@),
        final(out)@.len() > old(out)@.len(),
        final(out)@.subrange(0, old(out)@.len() as int) == old(out)@,
        final(out)@.contains(start),
{
    let n = nodes.len();
    let ghost o0 = out@;
    proof {
        lemma_push_child(nodes@, permissive, p as int, list@, visited@, old_visited, out@, start);
    }
    out.push(start);
    visited.set(start, true);
    let mut cur: i64 = nodes[start].next_sibling_index as i64;
    let mut stop = false;
    while !stop && 0 <= cur && (cur as usize) < n
        invariant
            n == nodes@.len(),
            ordering_state(nodes@, permissive, p as int, list@, visited@, old_visited, out@),
            out@.len() > o0.len(),
            out@.subrange(0, o0.len() as int) == o0,
            out@[o0.len() as int] == start,
            cur as int == next_of(nodes@, out@.last()),
            stop ==> 0 <= cur < n && !(is_child_of(nodes@, permissive, cur as int, p as int) && !out@.contains(cur as usize)),
        decreases list@.len() - out@.len() + (if stop { 0int } else { 1int }),
    {
        let c = cur as usize;
        let e = nodes[c];
        let member = !(e.parent_index == -1 || (permissive && e.parent_index <= 0)) && e.parent_index >= 0
            && e.parent_index as usize == p;
        assert(member == is_child_of(nodes@, permissive, c as int, p as int));
        if !member || visited[c] {
            stop = true;
        } else {
            proof {
                lemma_push_child(nodes@, permissive, p as int, list@, visited@, old_visited, out@, c);
            }
            let ghost before = out@;
            out.push(c);
            visited.set(c, true);
            proof {
                assert(out@.subrange(0, o0.len() as int) =~= before.subrange(0, o0.len() as int));
                lemma_distinct_members_fit(out@, list@);
            }
            cur = e.next_sibling_index as i64;
        }
    }
    proof {
        assert(out@.contains(start)) by {
            assert(out@[o0.len() as int] == start);
        }
    }
}

/// Orders the children of record `p` (given in index order) by their sibling
/// links: each chain is followed from a child that no sibling links to, then
/// from each child not yet listed, in index order.
fn order_siblings(
    p: usize,
    list: &Vec<usize>,
    nodes: &Vec<NodeEntry>,
    permissive: bool,
    linked: &Vec<bool>,
    visited: &mut Vec<bool>,
) -> (r: Vec<usize>)
    requires
        p < nodes@.len(),
        linked@.len() == nodes@.len(),
        old(visited)@.len() == nodes@.len(),
        increasing(list@),
        forall|k: int| 0 <= k < list@.len() ==> (#[trigger] list@[k]) < nodes@.len(),
        forall|j: usize| #![trigger list@.contains(j)] j < nodes@.len() ==> (list@.contains(j) <==> is_child_of(nodes@, permissive, j as int, p as int)),
        forall|j: int| 0 <= j < nodes@.len() && is_child_of(nodes@, permissive, j, p as int) ==> !(#[trigger] old(visited)@[j]),
    ensures
        final(visited)@.len() == nodes@.len(),
        forall|j: int| 0 <= j < nodes@.len() && !is_child_of(nodes@, permissive, j, p as int) ==> (#[trigger] final(visited)@[j]) == old(visited)@[j],
        r@.no_duplicates(),
        forall|j: int| #![trigger r@.contains(j as usize)] 0 <= j < nodes@.len() ==> (r@.contains(j as usize) <==> list@.contains(j as usize)),
        forall|k: int| 0 <= k < r@.len() ==> (#[trigger] r@[k]) < nodes@.len(),
        sibling_ordered(nodes@, permissive, p as int, r@),
{
    let ghost ov = visited@;
    let _n = nodes.len();
    let mut out: Vec<usize> = Vec::new();
    proof {
        assert(out@.no_duplicates());
        assert(sibling_ordered(nodes@, permissive, p as int, out@));
        assert forall|j: int| 0 <= j < nodes@.len() && is_child_of(nodes@, permissive, j, p as int) implies ((#[trigger] visited@[j]) <==> out@.contains(j as usize)) by {}
    }
    let mut phase: usize = 0;
    while phase < 2
        invariant
            p < nodes@.len(),
            linked@.len() == nodes@.len(),
            ordering_state(nodes@, permissive, p as int, list@, visited@, ov, out@),
            chain_closed(nodes@, permissive, p as int, out@),
            phase <= 2,
            phase == 2 ==> forall|q: int| 0 <= q < list@.len() ==> out@.contains(#[trigger] list@[q]),
        decreases 2 - phase,
    {
        let mut h: usize = 0;
        while h < list.len()
            invariant
                p < nodes@.len(),
                linked@.len() == nodes@.len(),
                ordering_state(nodes@, permissive, p as int, list@, visited@, ov, out@),
                chain_closed(nodes@, permissive, p as int, out@),
                phase < 2,
                h <= list@.len(),
                phase == 1 ==> forall|q: int| 0 <= q < h ==> out@.contains(#[trigger] list@[q]),
            decreases list@.len() - h,
        {
            let x = list[h];
            proof {
                assert(list@.contains(x));
            }
            if !visited[x] && (phase == 1 || !linked[x]) {
                let ghost before = out@;
                follow_chain(x, p, list, nodes, permissive, visited, &mut out, Ghost(ov));
                proof {
                    assert forall|q: int| 0 <= q < h && phase == 1 implies out@.contains(#[trigger] list@[q]) by {
                        let w = choose|w: int| 0 <= w < before.len() && before[w] == list@[q];
                        assert(out@[w] == out@.subrange(0, before.len() as int)[w]);
                    }
                }
            }
            proof {
                if phase == 1 {
                    assert(out@.contains(x));
                }
            }
            h = h + 1;
        }
        phase = phase + 1;
    }
    proof {
        assert forall|j: int| #![trigger out@.contains(j as usize)] 0 <= j < nodes@.len() implies (out@.contains(j as usize) <==> list@.contains(j as usize)) by {
            if list@.contains(j as usize) {
                let q = choose|q: int| 0 <= q < list@.len() && list@[q] == j as usize;
                assert(out@.contains(list@[q]));
            }
        }
    }
    out
}

/// A sequence without repeats whose items all come from another has at most
/// its length.
proof fn lemma_distinct_members_fit(a: Seq<usize>, b: Seq<usize>)
    requires
        a.no_duplicates(),
        forall|k: int| 0 <= k < a.len() ==> b.contains(#[trigger] a[k]),
        increasing(b),
    ensures
        a.len() <= b.len(),
{
    a.unique_seq_to_set();
    assert forall|x: usize| a.to_set().contains(x) implies b.to_set().contains(x) by {
        let k = choose|k: int| 0 <= k < a.len() && a[k] == x;
        assert(b.contains(a[k]));
    }
    assert(b.no_duplicates()) by {
        assert forall|i: int, j: int| 0 <= i < b.len() && 0 <= j < b.len() && i != j implies b[i] != b[j] by {
            if i < j {
                assert(b[i] < b[j]);
            } else {
                assert(b[j] < b[i]);
            }
        }
    }
    b.unique_seq_to_set();
    vstd::set_lib::lemma_len_subset(a.to_set(), b.to_set());
}

/// Groups the records under their parents and lists the region roots; each
/// record's children come in sibling-link order.
pub fn collect_children(nodes: &Vec<NodeEntry>, permissive: bool) -> (r: (Vec<usize>, Vec<Vec<usize>>))
    ensures
        children_lists(nodes@, permissive, r.0@, r.1@),
{
    let n = nodes.len();
    let (roots, grouped) = group_by_parent(nodes, permissive);
    let mut linked: Vec<bool> = Vec::new();
    let mut visited: Vec<bool> = Vec::new();
    let mut j: usize = 0;
    while j < n
        invariant
            j <= n,
            n == nodes@.len(),
            linked@.len() == j,
            visited@.len() == j,
            forall|q: int| 0 <= q < j ==> !(#[trigger] visited@[q]),
        decreases n - j,
    {
        linked.push(false);
        visited.push(false);
        j = j + 1;
    }
    let mut j: usize = 0;
    while j < n
        invariant
            j <= n,
            n == nodes@.len(),
            linked@.len() == n,
        decreases n - j,
    {
        let e = nodes[j];
        let s = e.next_sibling_index;
        if s >= 0 && (s as usize) < n && (s as usize) != j && nodes[s as usize].parent_index == e.parent_index {
            linked.set(s as usize, true);
        }
        j = j + 1;
    }
    let mut kids: Vec<Vec<usize>> = Vec::new();
    let mut p: usize = 0;
    while p < n
        invariant
            p <= n,
            n == nodes@.len(),
            linked@.len() == n,
            visited@.len() == n,
            children_in_index_order(nodes@, permissive, roots@, grouped@),
            kids@.len() == p,
            forall|j: int| 0 <= j < n && (#[trigger] visited@[j]) ==> !is_root(nodes@[j], permissive) && 0 <= nodes@[j].parent_index < p,
            forall|q: int| 0 <= q < p ==> (#[trigger] kids@[q]@).no_duplicates(),
            forall|q: int| 0 <= q < p ==> sibling_ordered(nodes@, permissive, q, #[trigger] kids@[q]@),
            forall|q: int, j: int| #![trigger kids@[q]@.contains(j as usize)] 0 <= q < p && 0 <= j < n ==> (kids@[q]@.contains(j as usize)
                <==> (!is_root(nodes@[j], permissive) && nodes@[j].parent_index == q)),
            forall|q: int, k: int| 0 <= q < p && 0 <= k < kids@[q]@.len() ==> (#[trigger] kids@[q]@[k]) < n,
        decreases n - p,
    {
        proof {
            assert forall|j: usize| #![trigger grouped@[p as int]@.contains(j)] j < n implies (grouped@[p as int]@.contains(j) <==> is_child_of(nodes@, permissive, j as int, p as int)) by {
                if grouped@[p as int]@.contains(j) {
                    let k = choose|k: int| 0 <= k < grouped@[p as int]@.len() && grouped@[p as int]@[k] == j;
                    assert(grouped@[p as int]@[k] < n);
                }
                if is_child_of(nodes@, permissive, j as int, p as int) {
                    assert(grouped@[p as int]@.contains((j as int) as usize));
                }
            }
        }
        let ordered = order_siblings(p, &grouped[p], nodes, permissive, &linked, &mut visited);
        kids.push(ordered);
        proof {
            assert forall|q: int, j: int| #![trigger kids@[q]@.contains(j as usize)] 0 <= q < p + 1 && 0 <= j < n implies (kids@[q]@.contains(j as usize)
                <==> (!is_root(nodes@[j], permissive) && nodes@[j].parent_index == q)) by {
                if q == p {
                    assert(kids@[q]@ == ordered@);
                    assert(ordered@.contains(j as usize) <==> grouped@[p as int]@.contains(j as usize));
                }
            }
        }
        p = p + 1;
    }
    (roots, kids)
}

/// Each region is named after one of the region roots.
pub open spec fn named_after_roots(
    nodes: Seq<NodeEntry>,
    t: Seq<Seq<Seq<char>>>,
    regions: Seq<Region>,
) -> bool {
    forall|g: int| 0 <= g < regions.len() ==> exists|j: int| 0 <= j < nodes.len()
        && is_root(#[trigger] nodes[j], reads_permissively(nodes))
        && (#[trigger] regions[g]).name@ == name_of(t, nodes[j].name_id, node_prefix())
}

/// Every region root's name is the name of a region.
pub open spec fn roots_become_regions(nodes: Seq<NodeEntry>, t: Seq<Seq<Seq<char>>>, regions: Seq<Region>) -> bool {
    forall|j: int| 0 <= j < nodes.len() && is_root(#[trigger] nodes[j], reads_permissively(nodes)) ==> exists|g: int|
        0 <= g < regions.len() && (#[trigger] regions[g]).name@ == name_of(t, nodes[j].name_id, node_prefix())
}

/// Every top-level node of a region carries the region's name.
pub open spec fn nodes_carry_region_name(regions: Seq<Region>) -> bool {
    forall|g: int, q: int| 0 <= g < regions.len() && 0 <= q < regions[g].nodes@.len() ==> (#[trigger] regions[g].nodes@[q]).name@
        == regions[g].name@
}

/// Every record a chain walk from `first`, with payloads from `cursor`,
/// decodes yields an entry of `list` under its name.
pub open spec fn complete_for(
    t: Seq<Seq<Seq<char>>>,
    attrs: Seq<AttributeEntry>,
    values: Seq<u8>,
    version: u32,
    first: int,
    cursor: int,
    list: Seq<(String, NodeAttribute)>,
) -> bool {
    let w = walk(attrs, version, first, MAX_ATTRIBUTES_PER_NODE as nat, Set::empty(), cursor);
    forall|m: int| 0 <= m < w.len() && decodable(attrs[(#[trigger] w[m]).0], values.len() as int, w[m].1)
        ==> has_name(list, name_of(t, attrs[w[m].0].name_hash_table_index, attr_prefix()))
}

/// The payload cursor before node record `i`'s chain: 0 before the first
/// record; before version 3 each earlier record's chain advances it by the
/// declared lengths it visits.
pub open spec fn start_cursor(nodes: Seq<NodeEntry>, attrs: Seq<AttributeEntry>, version: u32, i: int) -> int
    decreases i,
{
    if i <= 0 {
        0
    } else {
        let c = start_cursor(nodes, attrs, version, i - 1);
        let f = nodes[i - 1].first_attribute_index;
        if version < 3 && f >= 0 {
            walk_end_cursor(attrs, version, walk(attrs, version, f as int, MAX_ATTRIBUTES_PER_NODE as nat, Set::empty(), c), c)
        } else {
            c
        }
    }
}

/// `list` holds the attributes of node record `j`: none where the record has
/// no chain; otherwise, for the walk of its chain (payloads from the running
/// cursor before version 3), the last decoding of each name the walk decodes,
/// and nothing else.
pub open spec fn attributes_of_record(
    t: Seq<Seq<Seq<char>>>,
    nodes: Seq<NodeEntry>,
    attrs: Seq<AttributeEntry>,
    values: Seq<u8>,
    version: u32,
    j: int,
    list: Seq<(String, NodeAttribute)>,
) -> bool {
    let first = nodes[j].first_attribute_index as int;
    let c = start_cursor(nodes, attrs, version, j);
    &&& attributes_wf(list)
    &&& first < 0 ==> list.len() == 0
    &&& first >= 0 ==> from_walk(t, attrs, values, walk(attrs, version, first, MAX_ATTRIBUTES_PER_NODE as nat, Set::empty(), c), list)
    &&& first >= 0 ==> complete_for(t, attrs, values, version, first, c, list)
}

/// The node reached from `n` by following the child positions of `p`.
pub open spec fn subnode(n: Node, p: Seq<int>) -> Option<Node>
    decreases p.len(),
{
    if p.len() == 0 {
        Some(n)
    } else if 0 <= p[0] < n.children@.len() {
        subnode(n.children@[p[0]], p.drop_first())
    } else {
        None
    }
}

/// The record reached from record `j` by following the positions of `p` in
/// the child lists.
pub open spec fn record_at(kids: Seq<Vec<usize>>, j: int, p: Seq<int>) -> int
    decreases p.len(),
{
    if p.len() == 0 {
        j
    } else {
        record_at(kids, kids[j]@[p[0]] as int, p.drop_first())
    }
}

/// Node `m` is the node of record `r`: its name, its attributes, and as many
/// children as the record's child list (none where `full` is false).
pub open spec fn node_of_record(
    m: Node,
    r: int,
    full: bool,
    t: Seq<Seq<Seq<char>>>,
    nodes: Seq<NodeEntry>,
    kids: Seq<Vec<usize>>,
    attrs: Seq<AttributeEntry>,
    values: Seq<u8>,
    version: u32,
) -> bool {
    &&& m.name@ == name_of(t, nodes[r].name_id, node_prefix())
    &&& attributes_of_record(t, nodes, attrs, values, version, r, m.attributes@)
    &&& m.children@.len() == (if full { kids[r]@.len() } else { 0 })
}

/// `n` is the tree of record `j`, `depth` levels deep: the node at every path
/// is the node of the record that the same path reaches through the child
/// lists, with its children down to that depth.
pub open spec fn tree_of_record(
    n: Node,
    j: int,
    depth: int,
    t: Seq<Seq<Seq<char>>>,
    nodes: Seq<NodeEntry>,
    kids: Seq<Vec<usize>>,
    attrs: Seq<AttributeEntry>,
    values: Seq<u8>,
    version: u32,
) -> bool {
    forall|p: Seq<int>| #[trigger] subnode(n, p) is Some ==> node_of_record(
        subnode(n, p)->0,
        record_at(kids, j, p),
        p.len() < depth,
        t,
        nodes,
        kids,
        attrs,
        values,
        version,
    )
}

/// Record `j` is no region root and its parent index is outside the array.
pub open spec fn bad_parent(nodes: Seq<NodeEntry>, j: int) -> bool {
    !is_root(nodes[j], reads_permissively(nodes)) && (nodes[j].parent_index < 0 || nodes[j].parent_index >= nodes.len())
}

/// The number of top-level nodes of the regions.
pub open spec fn total_nodes(regions: Seq<Region>) -> nat
    decreases regions.len(),
{
    if regions.len() == 0 {
        0
    } else {
        total_nodes(regions.drop_last()) + regions.last().nodes@.len()
    }
}

proof fn lemma_total_nodes_update(s: Seq<Region>, h: int, r: Region)
    requires
        0 <= h < s.len(),
        r.nodes@.len() == s[h].nodes@.len() + 1,
    ensures
        total_nodes(s.update(h, r)) == total_nodes(s) + 1,
    decreases s.len(),
{
    let u = s.update(h, r);
    if h == s.len() - 1 {
        assert(u.drop_last() =~= s.drop_last());
    } else {
        assert(u.drop_last() =~= s.drop_last().update(h, r));
        lemma_total_nodes_update(s.drop_last(), h, r);
    }
}

/// `n` is the tree of one of the first `upto` roots.
pub open spec fn tree_of_some_root(
    n: Node,
    roots: Seq<usize>,
    upto: int,
    t: Seq<Seq<Seq<char>>>,
    nodes: Seq<NodeEntry>,
    kids: Seq<Vec<usize>>,
    attrs: Seq<AttributeEntry>,
    values: Seq<u8>,
    version: u32,
) -> bool {
    exists|kk: int| 0 <= kk < upto && #[trigger] tree_of_record(n, roots[kk] as int, nodes.len() as int, t, nodes, kids, attrs, values, version)
}

/// The tree of record `j` is a top-level node of the regions.
pub open spec fn tree_placed(
    regions: Seq<Region>,
    j: int,
    t: Seq<Seq<Seq<char>>>,
    nodes: Seq<NodeEntry>,
    kids: Seq<Vec<usize>>,
    attrs: Seq<AttributeEntry>,
    values: Seq<u8>,
    version: u32,
) -> bool {
    exists|g: int, q: int| 0 <= g < regions.len() && 0 <= q < regions[g].nodes@.len()
        && #[trigger] tree_of_record(regions[g].nodes@[q], j, nodes.len() as int, t, nodes, kids, attrs, values, version)
}

/// The regions hold the trees of the region roots, each root's tree once:
/// every top-level node is the tree of a root, every root's tree is a
/// top-level node, and there are as many top-level nodes as roots.
pub open spec fn forest_of(
    t: Seq<Seq<Seq<char>>>,
    nodes: Seq<NodeEntry>,
    attrs: Seq<AttributeEntry>,
    values: Seq<u8>,
    version: u32,
    roots: Seq<usize>,
    kids: Seq<Vec<usize>>,
    regions: Seq<Region>,
) -> bool {
    &&& children_lists(nodes, reads_permissively(nodes), roots, kids)
    &&& total_nodes(regions) == roots.len()
    &&& forall|g: int, q: int| 0 <= g < regions.len() && 0 <= q < regions[g].nodes@.len() ==> #[trigger] tree_of_some_root(
        regions[g].nodes@[q],
        roots,
        roots.len() as int,
        t,
        nodes,
        kids,
        attrs,
        values,
        version,
    )
    &&& forall|kk: int| 0 <= kk < roots.len() ==> #[trigger] tree_placed(regions, roots[kk] as int, t, nodes, kids, attrs, values, version)
}

/// Every mark is clear.
pub open spec fn all_clear(marks: Seq<bool>) -> bool {
    forall|x: int| 0 <= x < marks.len() ==> !(#[trigger] marks[x])
}

/// The read-only inputs of the reconstruction.
pub struct Records<'a> {
    pub version: u32,
    pub table: &'a StringTable,
    pub nodes: &'a Vec<NodeEntry>,
    pub attrs: &'a Vec<AttributeEntry>,
    pub values: &'a Vec<u8>,
    pub kids: &'a Vec<Vec<usize>>,
    pub starts: &'a Vec<u64>,
}

/// The records are consistent: a child list per node record, a start cursor
/// per node record, and child indices in range.
pub open spec fn records_ok(g: Records) -> bool {
    &&& g.kids@.len() == g.nodes@.len()
    &&& g.starts@.len() == g.nodes@.len()
    &&& forall|i: int| 0 <= i < g.nodes@.len() ==> (#[trigger] g.starts@[i]) as int == start_cursor(g.nodes@, g.attrs@, g.version, i)
    &&& forall|p: int, k: int| 0 <= p < g.kids@.len() && 0 <= k < g.kids@[p]@.len() ==> (#[trigger] g.kids@[p]@[k]) < g.nodes@.len()
}

/// Reads the attributes of node record `i`.
fn node_attributes(g: &Records, i: usize, marks: &mut Vec<bool>, diag: &mut Vec<SoftError>) -> (r: Vec<(String, NodeAttribute)>)
    requires
        records_ok(*g),
        i < g.nodes@.len(),
        old(marks)@.len() == g.attrs@.len(),
        all_clear(old(marks)@),
    ensures
        final(marks)@.len() == g.attrs@.len(),
        all_clear(final(marks)@),
        attributes_of_record(g.table@, g.nodes@, g.attrs@, g.values@, g.version, i as int, r@),
        diag_extends(g.attrs@, g.table@, old(diag)@, final(diag)@),
{
    let first = g.nodes[i].first_attribute_index;
    if first < 0 {
        proof {
            assert(attributes_wf(Seq::<(String, NodeAttribute)>::empty()));
            lemma_diag_extends_refl(g.attrs@, g.table@, diag@);
        }
        return Vec::new();
    }
    let mut c = g.starts[i];
    let ghost c0 = c as int;
    let list = read_node_attributes(first, g.attrs, g.table, g.values, g.version, marks, &mut c, diag);
    proof {
        assert(c0 == start_cursor(g.nodes@, g.attrs@, g.version, i as int));
        assert(complete_for(g.table@, g.attrs@, g.values@, g.version, first as int, c0, list@));
    }
    list
}

/// Builds the subtree of record `i`: its name, its attributes, and the
/// subtrees of the records its child list names, in order, down to `depth`
/// levels.
fn build_node(g: &Records, i: usize, depth: usize, marks: &mut Vec<bool>, diag: &mut Vec<SoftError>) -> (r: Node)
    requires
        records_ok(*g),
        i < g.nodes@.len(),
        old(marks)@.len() == g.attrs@.len(),
        all_clear(old(marks)@),
    ensures
        final(marks)@.len() == g.attrs@.len(),
        all_clear(final(marks)@),
        diag_extends(g.attrs@, g.table@, old(diag)@, final(diag)@),
        node_wf(r),
        r.name@ == name_of(g.table@, g.nodes@[i as int].name_id, node_prefix()),
        attributes_of_record(g.table@, g.nodes@, g.attrs@, g.values@, g.version, i as int, r.attributes@),
        r.children@.len() == (if depth > 0 { g.kids@[i as int]@.len() } else { 0 }),
        tree_of_record(r, i as int, depth as int, g.table@, g.nodes@, g.kids@, g.attrs@, g.values@, g.version),
        forall|k: int| 0 <= k < r.children@.len() ==> (#[trigger] r.children@[k]).name@ == name_of(
            g.table@,
            g.nodes@[g.kids@[i as int]@[k] as int].name_id,
            node_prefix(),
        ) && attributes_of_record(
            g.table@,
            g.nodes@,
            g.attrs@,
            g.values@,
            g.version,
            g.kids@[i as int]@[k] as int,
            r.children@[k].attributes@,
        ),
    decreases depth,
{
    let name = record_name(g.table, g.nodes[i].name_id, "node_0x", diag);
    proof {
        reveal_strlit("node_0x");
        assert("node_0x"@ =~= node_prefix());
    }
    let ghost d1 = diag@;
    let attributes = node_attributes(g, i, marks, diag);
    proof {
        lemma_diag_extends_trans(g.attrs@, g.table@, old(diag)@, d1, diag@);
    }
    let mut children: Vec<Node> = Vec::new();
    if depth > 0 {
        let list = &g.kids[i];
        let mut k: usize = 0;
        while k < list.len()
            invariant
                records_ok(*g),
                i < g.nodes@.len(),
                depth > 0,
                list == &g.kids@[i as int],
                marks@.len() == g.attrs@.len(),
                all_clear(marks@),
                diag_extends(g.attrs@, g.table@, old(diag)@, diag@),
                k <= list@.len(),
                children@.len() == k,
                forall|c: int| 0 <= c < k ==> node_wf(#[trigger] children@[c]),
                forall|c: int| 0 <= c < k ==> (#[trigger] children@[c]).name@ == name_of(
                    g.table@,
                    g.nodes@[g.kids@[i as int]@[c] as int].name_id,
                    node_prefix(),
                ) && attributes_of_record(
                    g.table@,
                    g.nodes@,
                    g.attrs@,
                    g.values@,
                    g.version,
                    g.kids@[i as int]@[c] as int,
                    children@[c].attributes@,
                ),
                forall|c: int| 0 <= c < k ==> tree_of_record(
                    #[trigger] children@[c],
                    g.kids@[i as int]@[c] as int,
                    depth - 1,
                    g.table@,
                    g.nodes@,
                    g.kids@,
                    g.attrs@,
                    g.values@,
                    g.version,
                ),
            decreases list@.len() - k,
        {
            let ghost d2 = diag@;
            let child = build_node(g, list[k], depth - 1, marks, diag);
            proof {
                lemma_diag_extends_trans(g.attrs@, g.table@, old(diag)@, d2, diag@);
            }
            children.push(child);
            k = k + 1;
        }
    }
    let r = Node { name, attributes, children };
    proof {
        assert forall|p: Seq<int>| #[trigger] subnode(r, p) is Some implies node_of_record(
            subnode(r, p)->0,
            record_at(g.kids@, i as int, p),
            p.len() < depth,
            g.table@,
            g.nodes@,
            g.kids@,
            g.attrs@,
            g.values@,
            g.version,
        ) by {
            if p.len() > 0 {
                let k = p[0];
                let rest = p.drop_first();
                assert(subnode(r, p) == subnode(r.children@[k], rest));
                assert(r.children@[k] == children@[k]);
                assert(record_at(g.kids@, i as int, p) == record_at(g.kids@, g.kids@[i as int]@[k] as int, rest));
                assert(subnode(children@[k], rest) is Some);
            }
        }
    }
    r
}

/// Each region holds the trees of region roots of its name: every top-level
/// node carries the name and the attributes of some root record.
pub open spec fn regions_from_roots(
    t: Seq<Seq<Seq<char>>>,
    nodes: Seq<NodeEntry>,
    attrs: Seq<AttributeEntry>,
    values: Seq<u8>,
    version: u32,
    regions: Seq<Region>,
) -> bool {
    forall|g: int, q: int| 0 <= g < regions.len() && 0 <= q < regions[g].nodes@.len() ==> exists|j: int|
        0 <= j < nodes.len() && is_root(#[trigger] nodes[j], reads_permissively(nodes))
        && (#[trigger] regions[g].nodes@[q]).name@ == name_of(t, nodes[j].name_id, node_prefix())
        && attributes_of_record(t, nodes, attrs, values, version, j, regions[g].nodes@[q].attributes@)
}

/// The payload cursor before each node record's chain: payloads before
/// version 3 follow one another across the chains in record order.
fn chain_starts(
    version: u32,
    t: &StringTable,
    nodes: &Vec<NodeEntry>,
    attrs: &Vec<AttributeEntry>,
    values: &Vec<u8>,
    marks: &mut Vec<bool>,
) -> (r: Vec<u64>)
    requires
        old(marks)@.len() == attrs@.len(),
        all_clear(old(marks)@),
    ensures
        final(marks)@.len() == attrs@.len(),
        all_clear(final(marks)@),
        r@.len() == nodes@.len(),
        forall|i: int| 0 <= i < nodes@.len() ==> (#[trigger] r@[i]) as int == start_cursor(nodes@, attrs@, version, i),
{
    let n = nodes.len();
    let mut starts: Vec<u64> = Vec::new();
    let mut cursor: u64 = 0;
    let mut i: usize = 0;
    while i < n
        invariant
            i <= n,
            n == nodes@.len(),
            starts@.len() == i,
            marks@.len() == attrs@.len(),
            all_clear(marks@),
            cursor as int == start_cursor(nodes@, attrs@, version, i as int),
            forall|k: int| 0 <= k < i ==> (#[trigger] starts@[k]) as int == start_cursor(nodes@, attrs@, version, k),
        decreases n - i,
    {
        starts.push(cursor);
        let first = nodes[i].first_attribute_index;
        if version < 3 && first >= 0 {
            let mut unused: Vec<SoftError> = Vec::new();
            let _ = read_node_attributes(first, attrs, t, values, version, marks, &mut cursor, &mut unused);
        }
        i = i + 1;
    }
    starts
}

/// Rebuilds the resource from the decoded pool and records: each region root
/// becomes a top-level node of the region of its name, in index order.
#[verifier::rlimit(100)]
pub fn build_resource(
    version: u32,
    t: &StringTable,
    nodes: &Vec<NodeEntry>,
    attrs: &Vec<AttributeEntry>,
    values: &Vec<u8>,
    diag: &mut Vec<SoftError>,
) -> (r: Resource)
    ensures
        diag_extends(attrs@, t@, old(diag)@, final(diag)@),
        r.metadata == (Metadata { major_version: version, minor_version: 0, revision: 0, build_number: 0 }),
        resource_wf(r),
        (exists|j: int| 0 <= j < nodes@.len() && (#[trigger] nodes@[j]).parent_index == -1) ==> r.regions@.len() > 0,
        named_after_roots(nodes@, t@, r.regions@),
        nodes_carry_region_name(r.regions@),
        regions_from_roots(t@, nodes@, attrs@, values@, version, r.regions@),
        roots_become_regions(nodes@, t@, r.regions@),
        exists|roots: Seq<usize>, kids: Seq<Vec<usize>>| #[trigger] forest_of(t@, nodes@, attrs@, values@, version, roots, kids, r.regions@),
        reads_permissively(nodes@) ==> final(diag)@.contains(SoftError::PermissiveRoots),
        forall|j: int| 0 <= j < nodes@.len() && #[trigger] bad_parent(nodes@, j) ==> final(diag)@.contains(SoftError::OutOfRangeIndex(j as usize)),
{
    let n = nodes.len();
    let mut marks: Vec<bool> = Vec::new();
    let mut a: usize = 0;
    while a < attrs.len()
        invariant
            a <= attrs@.len(),
            marks@.len() == a,
            all_clear(marks@),
        decreases attrs@.len() - a,
    {
        marks.push(false);
        a = a + 1;
    }
    let starts = chain_starts(version, t, nodes, attrs, values, &mut marks);
    let mut permissive = n > 0;
    let mut i: usize = 0;
    while i < n
        invariant
            i <= n,
            n == nodes@.len(),
            permissive == (n > 0 && forall|j: int| 0 <= j < i ==> (#[trigger] nodes@[j]).parent_index != -1),
        decreases n - i,
    {
        if nodes[i].parent_index == -1 {
            permissive = false;
        }
        i = i + 1;
    }
    assert(permissive == reads_permissively(nodes@));
    proof {
        lemma_diag_extends_refl(attrs@, t@, diag@);
    }
    let (roots, kids) = collect_children(nodes, permissive);
    let g = Records { version, table: t, nodes, attrs, values, kids: &kids, starts: &starts };
    let mut regions: Vec<Region> = Vec::new();
    let mut k: usize = 0;
    while k < roots.len()
        invariant
            n == nodes@.len(),
            permissive == reads_permissively(nodes@),
            children_lists(nodes@, permissive, roots@, kids@),
            records_ok(g),
            g.table == t,
            g.nodes == nodes,
            g.attrs == attrs,
            g.values == values,
            g.version == version,
            g.kids == &kids,
            marks@.len() == attrs@.len(),
            all_clear(marks@),
            diag_extends(attrs@, t@, old(diag)@, diag@),
            k <= roots@.len(),
            k > 0 ==> regions@.len() > 0,
            regions_wf(regions@),
            named_after_roots(nodes@, t@, regions@),
            nodes_carry_region_name(regions@),
            regions_from_roots(t@, nodes@, attrs@, values@, version, regions@),
            forall|kk: int| 0 <= kk < k ==> exists|g2: int| 0 <= g2 < regions@.len() && (#[trigger] regions@[g2]).name@
                == name_of(t@, nodes@[#[trigger] roots@[kk] as int].name_id, node_prefix()),
            total_nodes(regions@) == k,
            forall|x: int, q: int| 0 <= x < regions@.len() && 0 <= q < regions@[x].nodes@.len() ==> #[trigger] tree_of_some_root(
                regions@[x].nodes@[q], roots@, k as int, t@, nodes@, kids@, attrs@, values@, version),
            forall|kk: int| 0 <= kk < k ==> #[trigger] tree_placed(regions@, roots@[kk] as int, t@, nodes@, kids@, attrs@, values@, version),
        decreases roots@.len() - k,
    {
        let j = roots[k];
        let ghost d3 = diag@;
        let node = build_node(&g, j, n, &mut marks, diag);
        proof {
            lemma_diag_extends_trans(attrs@, t@, old(diag)@, d3, diag@);
        }
        assert(roots@[k as int] == j);
        assert(roots@.contains(j));
        assert(is_root(nodes@[j as int], permissive));
        let ghost built = node;
        let mut h: usize = 0;
        let mut found = false;
        while h < regions.len() && !found
            invariant
                h <= regions@.len(),
                found ==> h < regions@.len() && regions@[h as int].name@ == node.name@,
                forall|q: int| 0 <= q < h ==> (#[trigger] regions@[q]).name@ != node.name@,
            decreases regions@.len() - h + (if found { 0int } else { 1int }),
        {
            if str_eq(regions[h].name.as_str(), node.name.as_str()) {
                found = true;
            } else {
                h = h + 1;
            }
        }
        let ghost before = regions@;
        if found {
            let mut region = Region { name: String::new(), nodes: Vec::new() };
            std::mem::swap(&mut region, &mut regions[h]);
            region.nodes.push(node);
            std::mem::swap(&mut region, &mut regions[h]);
            proof {
                assert(regions@[h as int].nodes@ == before[h as int].nodes@.push(built));
                assert(regions@ == before.update(h as int, regions@[h as int]));
                lemma_total_nodes_update(before, h as int, regions@[h as int]);
                assert forall|x: int, q: int| 0 <= x < regions@.len() && 0 <= q < regions@[x].nodes@.len() implies #[trigger] tree_of_some_root(
                    regions@[x].nodes@[q], roots@, k + 1, t@, nodes@, kids@, attrs@, values@, version) by {
                    if x == h && q == regions@[x].nodes@.len() - 1 {
                        assert(regions@[x].nodes@[q] == built);
                        assert(tree_of_record(regions@[x].nodes@[q], roots@[k as int] as int, n as int, t@, nodes@, kids@, attrs@, values@, version));
                    } else {
                        assert(regions@[x].nodes@[q] == before[x].nodes@[q]);
                        assert(tree_of_some_root(before[x].nodes@[q], roots@, k as int, t@, nodes@, kids@, attrs@, values@, version));
                        let kk = choose|kk: int| 0 <= kk < k
                            && #[trigger] tree_of_record(before[x].nodes@[q], roots@[kk] as int, n as int, t@, nodes@, kids@, attrs@, values@, version);
                        assert(tree_of_record(regions@[x].nodes@[q], roots@[kk] as int, n as int, t@, nodes@, kids@, attrs@, values@, version));
                    }
                }
                assert forall|kk: int| 0 <= kk < k + 1 implies #[trigger] tree_placed(regions@, roots@[kk] as int, t@, nodes@, kids@, attrs@, values@, version) by {
                    if kk == k {
                        let q = regions@[h as int].nodes@.len() - 1;
                        assert(regions@[h as int].nodes@[q] == built);
                        assert(tree_of_record(regions@[h as int].nodes@[q], roots@[kk] as int, n as int, t@, nodes@, kids@, attrs@, values@, version));
                    } else {
                        assert(tree_placed(before, roots@[kk] as int, t@, nodes@, kids@, attrs@, values@, version));
                        let (x, q) = choose|x: int, q: int| 0 <= x < before.len() && 0 <= q < before[x].nodes@.len()
                            && #[trigger] tree_of_record(before[x].nodes@[q], roots@[kk] as int, n as int, t@, nodes@, kids@, attrs@, values@, version);
                        assert(regions@[x].nodes@[q] == before[x].nodes@[q]);
                        assert(tree_of_record(regions@[x].nodes@[q], roots@[kk] as int, n as int, t@, nodes@, kids@, attrs@, values@, version));
                    }
                }
                assert forall|x: int| 0 <= x < regions@.len() implies (#[trigger] regions@[x]).name@ == before[x].name@ by {}
                assert forall|kk: int| 0 <= kk < k + 1 implies exists|g2: int| 0 <= g2 < regions@.len() && (#[trigger] regions@[g2]).name@
                    == name_of(t@, nodes@[#[trigger] roots@[kk] as int].name_id, node_prefix()) by {
                    if kk < k {
                        let g2 = choose|g2: int| 0 <= g2 < before.len() && (#[trigger] before[g2]).name@
                            == name_of(t@, nodes@[roots@[kk] as int].name_id, node_prefix());
                        assert(regions@[g2].name@ == before[g2].name@);
                    } else {
                        assert(regions@[h as int].name@ == before[h as int].name@);
                    }
                }
                assert forall|x: int, q: int| 0 <= x < regions@.len() && 0 <= q < regions@[x].nodes@.len() implies #[trigger] node_wf(regions@[x].nodes@[q]) by {
                    if x == h && q == regions@[x].nodes@.len() - 1 {
                        assert(regions@[x].nodes@[q] == built);
                    } else if x == h {
                        assert(regions@[x].nodes@[q] == before[x].nodes@[q]);
                        assert(node_wf(before[x].nodes@[q]));
                    } else {
                        assert(regions@[x] == before[x]);
                        assert(node_wf(before[x].nodes@[q]));
                    }
                }
                assert forall|x: int, q: int| 0 <= x < regions@.len() && 0 <= q < regions@[x].nodes@.len() implies (#[trigger] regions@[x].nodes@[q]).name@
                    == regions@[x].name@ by {
                    if x == h && q == regions@[x].nodes@.len() - 1 {
                        assert(regions@[x].nodes@[q] == built);
                    } else if x == h {
                        assert(regions@[x].nodes@[q] == before[x].nodes@[q]);
                    } else {
                        assert(regions@[x] == before[x]);
                    }
                }
                assert forall|x: int| 0 <= x < regions@.len() implies exists|j2: int| 0 <= j2 < nodes@.len()
                    && is_root(#[trigger] nodes@[j2], reads_permissively(nodes@))
                    && (#[trigger] regions@[x]).name@ == name_of(t@, nodes@[j2].name_id, node_prefix()) by {
                    assert(regions@[x].name@ == before[x].name@);
                }
                assert forall|x: int, q: int| 0 <= x < regions@.len() && 0 <= q < regions@[x].nodes@.len() implies exists|j2: int|
                    0 <= j2 < nodes@.len() && is_root(#[trigger] nodes@[j2], reads_permissively(nodes@))
                    && (#[trigger] regions@[x].nodes@[q]).name@ == name_of(t@, nodes@[j2].name_id, node_prefix())
                    && attributes_of_record(t@, nodes@, attrs@, values@, version, j2, regions@[x].nodes@[q].attributes@) by {
                    if x == h && q == regions@[x].nodes@.len() - 1 {
                        assert(regions@[x].nodes@[q] == built);
                        assert(is_root(nodes@[j as int], reads_permissively(nodes@)));
                    } else if x == h {
                        assert(regions@[x].nodes@[q] == before[x].nodes@[q]);
                    } else {
                        assert(regions@[x] == before[x]);
                    }
                }
            }
        } else {
            let name = node.name.clone();
            let mut list: Vec<Node> = Vec::new();
            list.push(node);
            regions.push(Region { name, nodes: list });
            proof {
                assert forall|x: int| 0 <= x < before.len() implies (#[trigger] regions@[x]) == before[x] by {}
                assert(regions@[before.len() as int].nodes@[0] == built);
                assert(regions@.drop_last() =~= before);
                assert forall|x: int, q: int| 0 <= x < regions@.len() && 0 <= q < regions@[x].nodes@.len() implies #[trigger] tree_of_some_root(
                    regions@[x].nodes@[q], roots@, k + 1, t@, nodes@, kids@, attrs@, values@, version) by {
                    if x == before.len() {
                        assert(regions@[x].nodes@[q] == built);
                        assert(tree_of_record(regions@[x].nodes@[q], roots@[k as int] as int, n as int, t@, nodes@, kids@, attrs@, values@, version));
                    } else {
                        assert(regions@[x] == before[x]);
                        assert(tree_of_some_root(before[x].nodes@[q], roots@, k as int, t@, nodes@, kids@, attrs@, values@, version));
                        let kk = choose|kk: int| 0 <= kk < k
                            && #[trigger] tree_of_record(before[x].nodes@[q], roots@[kk] as int, n as int, t@, nodes@, kids@, attrs@, values@, version);
                        assert(tree_of_record(regions@[x].nodes@[q], roots@[kk] as int, n as int, t@, nodes@, kids@, attrs@, values@, version));
                    }
                }
                assert forall|kk: int| 0 <= kk < k + 1 implies #[trigger] tree_placed(regions@, roots@[kk] as int, t@, nodes@, kids@, attrs@, values@, version) by {
                    if kk == k {
                        let x = before.len() as int;
                        assert(regions@[x].nodes@[0] == built);
                        assert(tree_of_record(regions@[x].nodes@[0], roots@[kk] as int, n as int, t@, nodes@, kids@, attrs@, values@, version));
                    } else {
                        assert(tree_placed(before, roots@[kk] as int, t@, nodes@, kids@, attrs@, values@, version));
                        let (x, q) = choose|x: int, q: int| 0 <= x < before.len() && 0 <= q < before[x].nodes@.len()
                            && #[trigger] tree_of_record(before[x].nodes@[q], roots@[kk] as int, n as int, t@, nodes@, kids@, attrs@, values@, version);
                        assert(regions@[x] == before[x]);
                        assert(tree_of_record(regions@[x].nodes@[q], roots@[kk] as int, n as int, t@, nodes@, kids@, attrs@, values@, version));
                    }
                }
                assert forall|kk: int| 0 <= kk < k + 1 implies exists|g2: int| 0 <= g2 < regions@.len() && (#[trigger] regions@[g2]).name@
                    == name_of(t@, nodes@[#[trigger] roots@[kk] as int].name_id, node_prefix()) by {
                    if kk < k {
                        let g2 = choose|g2: int| 0 <= g2 < before.len() && (#[trigger] before[g2]).name@
                            == name_of(t@, nodes@[roots@[kk] as int].name_id, node_prefix());
                        assert(regions@[g2] == before[g2]);
                    } else {
                        assert(regions@[before.len() as int].name@ == name_of(t@, nodes@[j as int].name_id, node_prefix()));
                    }
                }
                assert forall|x: int, q: int| 0 <= x < regions@.len() && 0 <= q < regions@[x].nodes@.len() implies #[trigger] node_wf(regions@[x].nodes@[q]) by {
                    if x < before.len() {
                        assert(regions@[x] == before[x]);
                        assert(node_wf(before[x].nodes@[q]));
                    } else {
                        assert(regions@[x].nodes@[q] == built);
                    }
                }
                assert forall|x: int, q: int| 0 <= x < regions@.len() && 0 <= q < regions@[x].nodes@.len() implies (#[trigger] regions@[x].nodes@[q]).name@
                    == regions@[x].name@ by {
                    if x < before.len() {
                        assert(regions@[x] == before[x]);
                    } else {
                        assert(regions@[x].nodes@[q] == built);
                    }
                }
                assert forall|x: int| 0 <= x < regions@.len() implies exists|j2: int| 0 <= j2 < nodes@.len()
                    && is_root(#[trigger] nodes@[j2], reads_permissively(nodes@))
                    && (#[trigger] regions@[x]).name@ == name_of(t@, nodes@[j2].name_id, node_prefix()) by {
                    if x == before.len() {
                        assert(regions@[x].name@ == name_of(t@, nodes@[j as int].name_id, node_prefix()));
                    } else {
                        assert(regions@[x] == before[x]);
                    }
                }
                assert forall|x: int, q: int| 0 <= x < regions@.len() && 0 <= q < regions@[x].nodes@.len() implies exists|j2: int|
                    0 <= j2 < nodes@.len() && is_root(#[trigger] nodes@[j2], reads_permissively(nodes@))
                    && (#[trigger] regions@[x].nodes@[q]).name@ == name_of(t@, nodes@[j2].name_id, node_prefix())
                    && attributes_of_record(t@, nodes@, attrs@, values@, version, j2, regions@[x].nodes@[q].attributes@) by {
                    if x < before.len() {
                        assert(regions@[x] == before[x]);
                    } else {
                        assert(regions@[x].nodes@[q] == built);
                        assert(is_root(nodes@[j as int], reads_permissively(nodes@)));
                    }
                }
            }
        }
        k = k + 1;
    }
    proof {
        if exists|j: int| 0 <= j < nodes@.len() && (#[trigger] nodes@[j]).parent_index == -1 {
            let j = choose|j: int| 0 <= j < nodes@.len() && (#[trigger] nodes@[j]).parent_index == -1;
            assert(roots@.contains(j as usize));
        }
        assert forall|j: int| 0 <= j < nodes@.len() && is_root(#[trigger] nodes@[j], reads_permissively(nodes@)) implies exists|g2: int|
            0 <= g2 < regions@.len() && (#[trigger] regions@[g2]).name@ == name_of(t@, nodes@[j].name_id, node_prefix()) by {
            assert(roots@.contains(j as usize));
            let kk = choose|kk: int| 0 <= kk < roots@.len() && roots@[kk] == j as usize;
            assert(nodes@[roots@[kk] as int] == nodes@[j]);
        }
        assert(forest_of(t@, nodes@, attrs@, values@, version, roots@, kids@, regions@));
    }
    let mut i: usize = 0;
    while i < n
        invariant
            i <= n,
            n == nodes@.len(),
            permissive == reads_permissively(nodes@),
            diag_extends(attrs@, t@, old(diag)@, diag@),
            forall|jj: int| 0 <= jj < i && #[trigger] bad_parent(nodes@, jj) ==> diag@.contains(SoftError::OutOfRangeIndex(jj as usize)),
        decreases n - i,
    {
        let e = nodes[i];
        let root = e.parent_index == -1 || (permissive && e.parent_index <= 0);
        if !root && (e.parent_index < 0 || e.parent_index as usize >= n) {
            let ghost d0 = diag@;
            push_report(diag, SoftError::OutOfRangeIndex(i), Ghost(attrs@), Ghost(t@));
            proof {
                assert(diag@.subrange(0, old(diag)@.len() as int) =~= d0.subrange(0, old(diag)@.len() as int));
                assert(diag@.subrange(0, d0.len() as int) =~= d0);
                assert forall|jj: int| 0 <= jj < i && #[trigger] bad_parent(nodes@, jj) implies diag@.contains(SoftError::OutOfRangeIndex(jj as usize)) by {
                    lemma_contains_kept(d0, diag@, SoftError::OutOfRangeIndex(jj as usize));
                }
                assert(diag@[diag@.len() - 1] == SoftError::OutOfRangeIndex(i));
            }
        }
        i = i + 1;
    }
    if permissive {
        let ghost d0 = diag@;
        push_report(diag, SoftError::PermissiveRoots, Ghost(attrs@), Ghost(t@));
        proof {
            assert(diag@.subrange(0, old(diag)@.len() as int) =~= d0.subrange(0, old(diag)@.len() as int));
            assert(diag@.subrange(0, d0.len() as int) =~= d0);
            assert forall|jj: int| 0 <= jj < n && #[trigger] bad_parent(nodes@, jj) implies diag@.contains(SoftError::OutOfRangeIndex(jj as usize)) by {
                lemma_contains_kept(d0, diag@, SoftError::OutOfRangeIndex(jj as usize));
            }
            assert(diag@[diag@.len() - 1] == SoftError::PermissiveRoots);
        }
    }
    Resource {
        metadata: Metadata { major_version: version, minor_version: 0, revision: 0, build_number: 0 },
        regions,
    }
}

/// Every record is placed at most once: a region root appears once among
/// the roots and in no child list; any other record whose parent index is in
/// range appears exactly once, in its parent's child list and no other; a
/// record with a parent index out of range appears nowhere.
pub proof fn lemma_each_record_once(
    nodes: Seq<NodeEntry>,
    permissive: bool,
    roots: Seq<usize>,
    kids: Seq<Vec<usize>>,
    j: int,
)
    requires
        children_lists(nodes, permissive, roots, kids),
        0 <= j < nodes.len(),
    ensures
        roots.no_duplicates(),
        is_root(nodes[j], permissive) ==> roots.contains(j as usize)
            && forall|p: int| 0 <= p < kids.len() ==> !(#[trigger] kids[p]@).contains(j as usize),
        !is_root(nodes[j], permissive) ==> !roots.contains(j as usize),
        !is_root(nodes[j], permissive) && 0 <= nodes[j].parent_index < nodes.len() ==> kids[nodes[j].parent_index as int]@.contains(
            j as usize,
        ) && kids[nodes[j].parent_index as int]@.no_duplicates()
            && forall|p: int| 0 <= p < kids.len() && p != nodes[j].parent_index ==> !(#[trigger] kids[p]@).contains(j as usize),
        !is_root(nodes[j], permissive) && !(0 <= nodes[j].parent_index < nodes.len()) ==> forall|p: int| 0 <= p < kids.len()
            ==> !(#[trigger] kids[p]@).contains(j as usize),
{
    assert(roots.no_duplicates()) by {
        assert forall|a: int, b: int| 0 <= a < roots.len() && 0 <= b < roots.len() && a != b implies roots[a] != roots[b] by {
            if a < b {
                assert(roots[a] < roots[b]);
            } else {
                assert(roots[b] < roots[a]);
            }
        }
    }
    assert(roots.contains(j as usize) <==> is_root(nodes[j], permissive));
    assert forall|p: int| 0 <= p < kids.len() implies ((#[trigger] kids[p]@).contains(j as usize) <==> (!is_root(nodes[j], permissive)
        && nodes[j].parent_index == p)) by {}
}

/// Every node of a region read back, at any depth, is named as the packed id
/// of the record it comes from (reached from a root through the child lists)
/// resolves: the pooled string, or `node_0x` and the id in eight hexadecimal
/// digits; an unresolved id is never an error.
pub proof fn lemma_node_names_resolved(
    t: Seq<Seq<Seq<char>>>,
    nodes: Seq<NodeEntry>,
    attrs: Seq<AttributeEntry>,
    values: Seq<u8>,
    version: u32,
    roots: Seq<usize>,
    kids: Seq<Vec<usize>>,
    regions: Seq<Region>,
    g: int,
    q: int,
    p: Seq<int>,
)
    requires
        forest_of(t, nodes, attrs, values, version, roots, kids, regions),
        0 <= g < regions.len(),
        0 <= q < regions[g].nodes@.len(),
        subnode(regions[g].nodes@[q], p) is Some,
    ensures
        exists|kk: int| 0 <= kk < roots.len() && (subnode(regions[g].nodes@[q], p)->0).name@ == name_of(
            t,
            nodes[#[trigger] record_at(kids, roots[kk] as int, p)].name_id,
            node_prefix(),
        ),
{
    let n = regions[g].nodes@[q];
    assert(tree_of_some_root(n, roots, roots.len() as int, t, nodes, kids, attrs, values, version));
    let kk = choose|kk: int| 0 <= kk < roots.len() && #[trigger] tree_of_record(n, roots[kk] as int, nodes.len() as int, t, nodes, kids, attrs, values, version);
    assert(node_of_record(subnode(n, p)->0, record_at(kids, roots[kk] as int, p), p.len() < nodes.len(), t, nodes, kids, attrs, values, version));

}

} // verus!
