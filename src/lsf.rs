//! Reading whole files.

use vstd::prelude::*;
use crate::bytes::u32_at;
use crate::error::{LsfError, SoftError};
use crate::framing::{chunks_outcome, read_chunks};
use crate::graph::{bad_parent, reads_permissively, build_resource, named_after_roots, nodes_carry_region_name, regions_from_roots, reports_hold, roots_become_regions, forest_of};
use crate::records::{NodeEntry, attributes_of, nodes_of, parse_attribute_entries, parse_node_entries};
use crate::resource::{Metadata, Resource, resource_wf};
use crate::strings::{parse_string_table, parse_table};

verus! {

/// What decoding the file `d` gives: the hard error of its framing or its
/// string pool, or a well-formed resource at the file's version whose regions
/// hold the tree of each root record once: every node, at every depth, named
/// and with attributes as its record gives them, and with the children that
/// its record's child list names, in order.
#[verifier::opaque]
pub open spec fn decodes_as(d: Seq<u8>, r: Result<Resource, LsfError>) -> bool {
    match chunks_outcome(d) {
        Err(e) => r == Err::<Resource, LsfError>(e),
        Ok(c) => match parse_table(c.1) {
            None => r == Err::<Resource, LsfError>(LsfError::InvalidStringTable),
            Some(t) => r matches Ok(res) && res.metadata == (Metadata {
                major_version: c.0,
                minor_version: 0,
                revision: 0,
                build_number: 0,
            }) && resource_wf(res) && named_after_roots(nodes_of(c.3, c.0), t, res.regions@)
                && nodes_carry_region_name(res.regions@)
                && regions_from_roots(t, nodes_of(c.3, c.0), attributes_of(c.4, c.0), c.5, c.0, res.regions@)
                && roots_become_regions(nodes_of(c.3, c.0), t, res.regions@)
                && (exists|roots: Seq<usize>, kids: Seq<Vec<usize>>| #[trigger] forest_of(
                    t,
                    nodes_of(c.3, c.0),
                    attributes_of(c.4, c.0),
                    c.5,
                    c.0,
                    roots,
                    kids,
                    res.regions@,
                ))
                && ((exists|j: int| 0 <= j < nodes_of(c.3, c.0).len() && (#[trigger] nodes_of(c.3, c.0)[j]).parent_index == -1)
                ==> res.regions@.len() > 0),
        },
    }
}

/// The reports that decoding the records owes: the permissive reading of
/// roots, and each record whose parent index is out of range.
pub open spec fn reports_of_records(nodes: Seq<NodeEntry>, skipped: Seq<SoftError>) -> bool {
    &&& reads_permissively(nodes) ==> skipped.contains(SoftError::PermissiveRoots)
    &&& forall|j: int| 0 <= j < nodes.len() && #[trigger] bad_parent(nodes, j) ==> skipped.contains(SoftError::OutOfRangeIndex(j as usize))
}

/// Decodes a whole file, and reports the defects that decoding skipped. The
/// reports owed by the records as a whole are those of `reports_of_records`;
/// each chain walk reports the records it skips (see `read_node_attributes`).
pub fn read_lsf_bytes_reporting(d: &[u8]) -> (r: Result<(Resource, Vec<SoftError>), LsfError>)
    ensures
        decodes_as(d@, match r {
            Ok((res, _)) => Ok(res),
            Err(e) => Err(e),
        }),
        r matches Ok((res, _)) ==> res.metadata.major_version == u32_at(d@, 4),
        r matches Ok((_, skipped)) ==> (chunks_outcome(d@) matches Ok(c) && reports_of_records(nodes_of(c.3, c.0), skipped@)),
{
    proof {
        reveal(decodes_as);
    }
    let chunks = read_chunks(d)?;
    let table = parse_string_table(chunks.strings.as_slice())?;
    let nodes = parse_node_entries(chunks.nodes.as_slice(), chunks.version);
    let attrs = parse_attribute_entries(chunks.attributes.as_slice(), chunks.version);
    let mut diag: Vec<SoftError> = Vec::new();
    let res = build_resource(chunks.version, &table, &nodes, &attrs, &chunks.values, &mut diag);
    Ok((res, diag))
}

/// Decodes a whole file.
pub fn read_lsf_bytes(d: &[u8]) -> (r: Result<Resource, LsfError>)
    ensures
        decodes_as(d@, r),
        r matches Ok(res) ==> res.metadata.major_version == u32_at(d@, 4),
{
    match read_lsf_bytes_reporting(d) {
        Ok((res, _)) => Ok(res),
        Err(e) => Err(e),
    }
}

} // verus!
