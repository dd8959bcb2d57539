use larian_convert::compression::{compress, decompress, read_and_decompress_chunk, CompressionMethod};
use larian_convert::error::{LsfError, SoftError};
use larian_convert::lsf::{read_lsf_bytes, read_lsf_bytes_reporting};
use larian_convert::resource::{add_region, set_attribute, AttributeType, AttributeValue, Metadata, Node, NodeAttribute, Region, Resource};
use larian_convert::strings::{get_string_from_hash, parse_string_table, resolve_name};
use larian_convert::values::{decode_value, encode_value};
use larian_convert::writer::write_lsf_bytes;

fn le32(v: u32) -> Vec<u8> {
    v.to_le_bytes().to_vec()
}

/// A canonical string pool with `names` in bucket 0.
fn pool(names: &[&str]) -> Vec<u8> {
    let mut d = le32(0x200);
    d.extend_from_slice(&(names.len() as u16).to_le_bytes());
    for n in names {
        d.extend_from_slice(&(n.len() as u16).to_le_bytes());
        d.extend_from_slice(n.as_bytes());
    }
    for _ in 1..0x200 {
        d.extend_from_slice(&[0, 0]);
    }
    d
}

/// A version-7 file with raw chunks.
fn file_v7(strings: &[u8], nodes: &[u8], attrs: &[u8], values: &[u8], flags: u32) -> Vec<u8> {
    let mut d = b"LSOF".to_vec();
    d.extend(le32(7));
    d.extend_from_slice(&[0; 8]);
    for size in [strings.len(), 0, nodes.len(), attrs.len(), values.len()] {
        d.extend(le32(size as u32));
        d.extend(le32(0));
    }
    d.extend(le32(flags));
    d.extend_from_slice(&[0; 12]);
    d.extend_from_slice(strings);
    d.extend_from_slice(nodes);
    d.extend_from_slice(attrs);
    d.extend_from_slice(values);
    d
}

fn node_record(name: u32, parent: i32, next: i32, first: i32) -> Vec<u8> {
    let mut d = le32(name);
    d.extend(le32(parent as u32));
    d.extend(le32(next as u32));
    d.extend(le32(first as u32));
    d
}

fn attr_record(name: u32, ty: u32, len: u32, next: i32, offset: u32) -> Vec<u8> {
    let mut d = le32(name);
    d.extend(le32(ty | (len << 6)));
    d.extend(le32(next as u32));
    d.extend(le32(offset));
    d
}

fn single_int_file() -> Vec<u8> {
    file_v7(
        &pool(&["R", "N", "A"]),
        &node_record(1, -1, -1, 0),
        &attr_record(2, 4, 4, -1, 0),
        &[0x2a, 0, 0, 0],
        0,
    )
}

fn attr<'a>(n: &'a Node, name: &str) -> Option<&'a NodeAttribute> {
    n.attributes.iter().find(|(k, _)| k == name).map(|(_, a)| a)
}

#[test]
fn minimal_header_reads_as_empty_resource() {
    let mut d = vec![0x4c, 0x53, 0x4f, 0x46, 7, 0, 0, 0];
    d.extend_from_slice(&[0; 8]);
    d.extend_from_slice(&[0; 56]);
    let r = read_lsf_bytes(&d).unwrap();
    assert_eq!(r.metadata.major_version, 7);
    assert!(r.regions.is_empty());
}

#[test]
fn single_int_attribute() {
    let r = read_lsf_bytes(&single_int_file()).unwrap();
    assert_eq!(r.regions.len(), 1);
    let region = &r.regions[0];
    assert_eq!(region.name, "N");
    assert_eq!(region.nodes.len(), 1);
    let n = &region.nodes[0];
    assert_eq!(n.name, "N");
    let a = attr(n, "A").unwrap();
    assert_eq!(a.attribute_type, AttributeType::Int);
    assert_eq!(a.value, AttributeValue::Int(42));
}

#[test]
fn float_vector_payload() {
    let b = [0x00, 0x00, 0x80, 0x3f, 0x00, 0x00, 0x00, 0x40, 0x00, 0x00, 0x40, 0x40];
    match decode_value(&b, AttributeType::Vec3) {
        AttributeValue::Vec3(v) => {
            assert_eq!(f32::from_bits(v[0]), 1.0);
            assert_eq!(f32::from_bits(v[1]), 2.0);
            assert_eq!(f32::from_bits(v[2]), 3.0);
        }
        other => panic!("unexpected {:?}", other),
    }
}

#[test]
fn uuid_half_reversal() {
    let wire: Vec<u8> = (0u8..16).collect();
    let v = decode_value(&wire, AttributeType::UUID);
    assert_eq!(
        v,
        AttributeValue::UUID([0, 1, 2, 3, 4, 5, 6, 7, 0x0f, 0x0e, 0x0d, 0x0c, 0x0b, 0x0a, 9, 8])
    );
    let mut out = Vec::new();
    encode_value(&mut out, &v);
    assert_eq!(out, wire);
}

#[test]
fn wide_string_with_and_without_terminator() {
    let b = [0x48, 0, 0x65, 0, 0x6c, 0, 0x6c, 0, 0x6f, 0];
    assert_eq!(decode_value(&b, AttributeType::WString), AttributeValue::WString("Hello".to_string()));
    let mut t = b.to_vec();
    t.extend_from_slice(&[0, 0]);
    assert_eq!(decode_value(&t, AttributeType::WString), AttributeValue::WString("Hello".to_string()));
    let mut out = Vec::new();
    encode_value(&mut out, &AttributeValue::LSWString("Hello".to_string()));
    assert_eq!(out, b.to_vec());
}

#[test]
fn raw_chunk_ignores_method() {
    let data: Vec<u8> = (0u8..40).collect();
    for m in [CompressionMethod::Zlib, CompressionMethod::Lz4, CompressionMethod::Zstd] {
        let (v, next) = read_and_decompress_chunk(&data, 4, 0, 32, m).unwrap();
        assert_eq!(v, data[4..36].to_vec());
        assert_eq!(next, 36);
    }
}

#[test]
fn raw_strings_chunk_in_zlib_file() {
    let mut strings = le32(0);
    strings.extend_from_slice(&[1, 0, 24, 0]);
    strings.extend_from_slice(b"ABCDEFGHIJKLMNOPQRSTUVWX");
    assert_eq!(strings.len(), 32);
    let d = file_v7(&strings, &node_record(0, -1, -1, -1), &[], &[], 1);
    let r = read_lsf_bytes(&d).unwrap();
    assert_eq!(r.regions.len(), 1);
    assert_eq!(r.regions[0].name, "ABCDEFGHIJKLMNOPQRSTUVWX");
}

#[test]
fn empty_and_nul_strings() {
    assert_eq!(decode_value(&[], AttributeType::String), AttributeValue::String(String::new()));
    assert_eq!(decode_value(&[0, 0, 0], AttributeType::Path), AttributeValue::Path(String::new()));
    assert_eq!(
        decode_value(b"ab\0\0", AttributeType::FixedString),
        AttributeValue::FixedString("ab".to_string())
    );
}

#[test]
fn invalid_utf8_value_is_replaced() {
    assert_eq!(
        decode_value(&[0x61, 0xff, 0x62], AttributeType::LSString),
        AttributeValue::LSString("a\u{fffd}b".to_string())
    );
}

#[test]
fn bool_decoding() {
    assert_eq!(decode_value(&[0], AttributeType::Bool), AttributeValue::Bool(false));
    assert_eq!(decode_value(&[1], AttributeType::Bool), AttributeValue::Bool(true));
    assert_eq!(decode_value(&[0x7f], AttributeType::Bool), AttributeValue::Bool(true));
}

#[test]
fn scalar_round_trips() {
    let values = vec![
        AttributeValue::Byte(200),
        AttributeValue::Short(-2),
        AttributeValue::UShort(65535),
        AttributeValue::Int(-123456),
        AttributeValue::UInt(0xdeadbeef),
        AttributeValue::Float(1.5f32.to_bits()),
        AttributeValue::Double((-2.25f64).to_bits()),
        AttributeValue::IVec3([1, -2, 3]),
        AttributeValue::Mat2([1, 2, 3, 4]),
        AttributeValue::Mat4([7; 16]),
        AttributeValue::Bool(true),
        AttributeValue::ULongLong(u64::MAX),
        AttributeValue::LongLong(i64::MIN),
        AttributeValue::Int8(-5),
        AttributeValue::Int64(42),
    ];
    for v in values {
        let mut out = Vec::new();
        encode_value(&mut out, &v);
        assert_eq!(decode_value(&out, v.attribute_type()), v);
    }
    let mut out = Vec::new();
    encode_value(&mut out, &AttributeValue::Int(42));
    assert_eq!(out, vec![0x2a, 0, 0, 0]);
}

#[test]
fn translated_string_layout() {
    let v = AttributeValue::TranslatedString { value: "hi".to_string(), handle: "h1".to_string() };
    let mut out = Vec::new();
    encode_value(&mut out, &v);
    assert_eq!(out, vec![0, 0, 2, 0, b'h', b'i', b'h', b'1']);
    assert_eq!(decode_value(&out, AttributeType::TranslatedString), v);
    let mut padded = out.clone();
    padded.extend_from_slice(&[0, 0]);
    assert_eq!(decode_value(&padded, AttributeType::TranslatedString), v);
    assert_eq!(
        decode_value(&[1, 2], AttributeType::TranslatedFSString),
        AttributeValue::TranslatedFSString { value: String::new(), handle: String::new() }
    );
}

#[test]
fn catalog_ids_and_tags() {
    for id in 0u8..=33 {
        let t = AttributeType::from_u8(id).unwrap();
        assert_eq!(t.id(), id);
        let back = AttributeType::from_str(t.as_str()).unwrap();
        assert_eq!(back.as_str(), t.as_str());
    }
    assert_eq!(AttributeType::from_u8(34), None);
    assert_eq!(AttributeType::from_str("fvec3"), Some(AttributeType::Vec3));
    assert_eq!(AttributeType::from_str("LSString"), Some(AttributeType::String));
    assert_eq!(AttributeType::from_str("nope"), None);
    assert_eq!(AttributeType::UUID.as_str(), "guid");
}

#[test]
fn compression_method_from_flags() {
    assert_eq!(CompressionMethod::from_u32(2), Some(CompressionMethod::Lz4));
    assert_eq!(CompressionMethod::from_u32(4), None);
    assert_eq!(larian_convert::compression::get_compression_method(0x13), CompressionMethod::Zstd);
    assert_eq!(larian_convert::compression::get_compression_method(0x0f), CompressionMethod::Uncompressed);
}

#[test]
fn compression_schemes_round_trip() {
    let data: Vec<u8> = b"hello hello hello hello hello".to_vec();
    for m in [CompressionMethod::Zlib, CompressionMethod::Lz4, CompressionMethod::Zstd] {
        let packed = compress(&data, m, 6).unwrap();
        assert_ne!(packed, data);
        assert_eq!(decompress(&packed, m, data.len()).unwrap(), data);
    }
    let block = lz4_flex::compress(&data);
    assert_eq!(decompress(&block, CompressionMethod::Lz4, data.len()).unwrap(), data);
    assert_eq!(decompress(&[1, 2, 3], CompressionMethod::Zlib, 10), Err(LsfError::CorruptChunk));
}

#[test]
fn unresolved_names_are_synthetic() {
    let t = parse_string_table(&pool(&["x"])).unwrap();
    assert_eq!(get_string_from_hash(&t, 0), Some("x".to_string()));
    assert_eq!(get_string_from_hash(&t, 0xffff_ffff), None);
    assert_eq!(resolve_name(&t, 0x0000_abcd, "attr_0x"), "attr_0x0000abcd");
    let d = file_v7(&pool(&["N"]), &node_record(0, -1, -1, 0), &attr_record(7, 19, 1, -1, 0), &[1], 0);
    let r = read_lsf_bytes(&d).unwrap();
    let a = attr(&r.regions[0].nodes[0], "attr_0x00000007").unwrap();
    assert_eq!(a.value, AttributeValue::Bool(true));
}

#[test]
fn hard_errors() {
    assert_eq!(read_lsf_bytes(b"LSO").unwrap_err(), LsfError::BadMagic);
    assert_eq!(read_lsf_bytes(b"XSOF\x07\0\0\0\0\0\0\0\0\0\0\0").unwrap_err(), LsfError::BadMagic);
    let mut old = single_int_file();
    old[4] = 1;
    assert_eq!(read_lsf_bytes(&old).unwrap_err(), LsfError::UnsupportedVersion);
    let full = single_int_file();
    assert_eq!(read_lsf_bytes(&full[..80]).unwrap_err(), LsfError::TruncatedChunk);
    let bad = file_v7(&[2, 0, 0, 0, 5, 0], &[], &[], &[], 0);
    assert_eq!(read_lsf_bytes(&bad).unwrap_err(), LsfError::InvalidStringTable);
    let utf = file_v7(&pool(&["\u{e9}"]).iter().map(|b| if *b == 0xc3 { 0xff } else { *b }).collect::<Vec<u8>>(), &[], &[], &[], 0);
    assert_eq!(read_lsf_bytes(&utf).unwrap_err(), LsfError::InvalidStringTable);
    let mut z = file_v7(&[], &[], &[], &[], 1);
    // Declare a three-byte zlib Nodes chunk that does not decode.
    z[32..36].copy_from_slice(&le32(4));
    z[36..40].copy_from_slice(&le32(3));
    z.extend_from_slice(&[1, 2, 3]);
    assert_eq!(read_lsf_bytes(&z).unwrap_err(), LsfError::CorruptChunk);
}

#[test]
fn soft_errors_skip_records() {
    // Unknown type id 40, an oversized payload, an out-of-range offset and a
    // chain that returns to its start: only the good attribute is kept.
    let mut attrs = attr_record(0, 40, 4, 1, 0);
    attrs.extend(attr_record(0, 4, 4, 2, 100));
    attrs.extend(attr_record(0, 25, 0x20_0000, 3, 0));
    attrs.extend(attr_record(1, 4, 4, 0, 0));
    let d = file_v7(&pool(&["N", "A"]), &node_record(0, -1, -1, 0), &attrs, &[5, 0, 0, 0], 0);
    let r = read_lsf_bytes(&d).unwrap();
    let n = &r.regions[0].nodes[0];
    assert_eq!(n.attributes.len(), 1);
    assert_eq!(attr(n, "A").unwrap().value, AttributeValue::Int(5));
}

fn sample_resource() -> Resource {
    let leaf = Node {
        name: "Leaf".to_string(),
        attributes: vec![(
            "Label".to_string(),
            NodeAttribute {
                attribute_type: AttributeType::LSString,
                value: AttributeValue::LSString("text".to_string()),
            },
        )],
        children: vec![],
    };
    let other = Node { name: "Other".to_string(), attributes: vec![], children: vec![] };
    let root = Node {
        name: "Root".to_string(),
        attributes: vec![
            ("Count".to_string(), NodeAttribute { attribute_type: AttributeType::Int, value: AttributeValue::Int(-7) }),
            ("Id".to_string(), NodeAttribute { attribute_type: AttributeType::UUID, value: AttributeValue::UUID([3; 16]) }),
        ],
        children: vec![leaf, other],
    };
    Resource {
        metadata: Metadata { major_version: 7, minor_version: 0, revision: 0, build_number: 0 },
        regions: vec![Region { name: "Root".to_string(), nodes: vec![root] }],
    }
}

#[test]
fn written_files_read_back() {
    let res = sample_resource();
    for m in [CompressionMethod::Uncompressed, CompressionMethod::Zlib, CompressionMethod::Lz4, CompressionMethod::Zstd] {
        let bytes = write_lsf_bytes(&res, m).unwrap();
        assert_eq!(&bytes[0..4], b"LSOF");
        assert_eq!(u32::from_le_bytes([bytes[4], bytes[5], bytes[6], bytes[7]]), 7);
        let back = read_lsf_bytes(&bytes).unwrap();
        assert_eq!(back, res);
    }
}

#[test]
fn read_write_read_is_stable() {
    let first = read_lsf_bytes(&single_int_file()).unwrap();
    let again = read_lsf_bytes(&write_lsf_bytes(&first, CompressionMethod::Uncompressed).unwrap()).unwrap();
    assert_eq!(again, first);
}

#[test]
fn old_layouts_round_trip() {
    for v in [2u32, 5] {
        let mut res = sample_resource();
        res.metadata.major_version = v;
        let back = read_lsf_bytes(&write_lsf_bytes(&res, CompressionMethod::Uncompressed).unwrap()).unwrap();
        assert_eq!(back, res);
    }
    let mut res = sample_resource();
    res.metadata.major_version = 1;
    assert_eq!(write_lsf_bytes(&res, CompressionMethod::Uncompressed), Err(LsfError::UnsupportedVersion));
}

#[test]
fn written_links_lead_forward() {
    let bytes = write_lsf_bytes(&sample_resource(), CompressionMethod::Uncompressed).unwrap();
    let meta = |i: usize| u32::from_le_bytes([bytes[16 + 4 * i], bytes[17 + 4 * i], bytes[18 + 4 * i], bytes[19 + 4 * i]]) as usize;
    let (s, n, a) = (meta(0), meta(4), meta(6));
    let nodes = &bytes[72 + s..72 + s + n];
    let attrs = &bytes[72 + s + n..72 + s + n + a];
    let count = n / 16;
    assert_eq!(count, 3);
    let field = |d: &[u8], i: usize, f: usize| i32::from_le_bytes([d[16 * i + 4 * f], d[16 * i + 4 * f + 1], d[16 * i + 4 * f + 2], d[16 * i + 4 * f + 3]]);
    assert_eq!(field(nodes, 0, 1), -1);
    assert_eq!(field(nodes, 1, 1), 0);
    assert_eq!(field(nodes, 2, 1), 0);
    assert_eq!(field(nodes, 1, 2), 2);
    assert_eq!(field(nodes, 2, 2), -1);
    for i in 0..count {
        let next = field(nodes, i, 2);
        assert!(next == -1 || (next as usize > i && (next as usize) < count));
    }
    for i in 0..a / 16 {
        let next = field(attrs, i, 2);
        assert!(next == -1 || (next as usize > i && (next as usize) < a / 16));
    }
}

#[test]
fn duplicate_roots_share_a_region() {
    let mut nodes = node_record(0, -1, -1, -1);
    nodes.extend(node_record(0, -1, -1, -1));
    nodes.extend(node_record(1, 0, -1, -1));
    let d = file_v7(&pool(&["R", "C"]), &nodes, &[], &[], 0);
    let r = read_lsf_bytes(&d).unwrap();
    assert_eq!(r.regions.len(), 1);
    assert_eq!(r.regions[0].nodes.len(), 2);
    assert_eq!(r.regions[0].nodes[0].children.len(), 1);
    assert_eq!(r.regions[0].nodes[0].children[0].name, "C");
}

#[test]
fn permissive_roots_when_none_is_strict() {
    let mut nodes = node_record(0, 0, -1, -1);
    nodes.extend(node_record(1, 5, -1, -1));
    let d = file_v7(&pool(&["R", "X"]), &nodes, &[], &[], 0);
    let r = read_lsf_bytes(&d).unwrap();
    assert_eq!(r.regions.len(), 1);
    assert_eq!(r.regions[0].name, "R");
}

#[test]
fn flat_string_pool() {
    let mut d = le32(0);
    d.extend_from_slice(&[1, 0, 2, 0, b'h', b'i', 1, 0, 0, 0, 1, 0, 1, 0, b'z', 9]);
    let t = parse_string_table(&d).unwrap();
    assert_eq!(t.buckets.len(), 0x200);
    assert_eq!(get_string_from_hash(&t, 0), Some("hi".to_string()));
    assert_eq!(get_string_from_hash(&t, 1), Some(String::new()));
    assert_eq!(get_string_from_hash(&t, 2), Some("z".to_string()));
    assert_eq!(get_string_from_hash(&t, 3), None);
}

#[test]
fn too_long_name_is_refused() {
    let mut res = sample_resource();
    res.regions[0].nodes[0].name = "x".repeat(70000);
    assert_eq!(write_lsf_bytes(&res, CompressionMethod::Uncompressed), Err(LsfError::LimitExceeded));
}

#[test]
fn children_follow_sibling_links() {
    let mut nodes = node_record(0, -1, -1, -1);
    nodes.extend(node_record(1, 0, -1, -1));
    nodes.extend(node_record(2, 0, 1, -1));
    let d = file_v7(&pool(&["R", "B", "A"]), &nodes, &[], &[], 0);
    let r = read_lsf_bytes(&d).unwrap();
    let names: Vec<&str> = r.regions[0].nodes[0].children.iter().map(|c| c.name.as_str()).collect();
    assert_eq!(names, vec!["A", "B"]);
}

#[test]
fn sibling_cycle_keeps_each_child_once() {
    let mut nodes = node_record(0, -1, -1, -1);
    nodes.extend(node_record(1, 0, 2, -1));
    nodes.extend(node_record(2, 0, 1, -1));
    let d = file_v7(&pool(&["R", "B", "A"]), &nodes, &[], &[], 0);
    let r = read_lsf_bytes(&d).unwrap();
    let names: Vec<&str> = r.regions[0].nodes[0].children.iter().map(|c| c.name.as_str()).collect();
    assert_eq!(names, vec!["B", "A"]);
}

#[test]
fn skipped_records_are_reported() {
    let mut attrs = attr_record(0, 40, 4, 1, 0);
    attrs.extend(attr_record(0, 4, 4, 2, 100));
    attrs.extend(attr_record(0, 25, 0x20_0000, 3, 0));
    attrs.extend(attr_record(9, 4, 4, 0, 0));
    let mut nodes = node_record(0, -1, -1, 0);
    nodes.extend(node_record(0, 7, -1, -1));
    let d = file_v7(&pool(&["N", "A"]), &nodes, &attrs, &[5, 0, 0, 0], 0);
    let (r, skipped) = read_lsf_bytes_reporting(&d).unwrap();
    assert_eq!(r.regions.len(), 1);
    assert!(skipped.contains(&SoftError::UnknownAttributeType(0)));
    assert!(skipped.contains(&SoftError::OutOfRangeIndex(1)));
    assert!(skipped.contains(&SoftError::AttributeTooLarge(2)));
    assert!(skipped.contains(&SoftError::UnresolvedStringReference(9)));
    assert!(skipped.contains(&SoftError::CycleDetected(0)));
    assert!(!skipped.contains(&SoftError::PermissiveRoots));
    let mut fallback = node_record(0, 0, -1, -1);
    fallback.extend(node_record(0, 0, -1, -1));
    let (_, skipped) = read_lsf_bytes_reporting(&file_v7(&pool(&["R"]), &fallback, &[], &[], 0)).unwrap();
    assert_eq!(skipped, vec![SoftError::PermissiveRoots]);
}

#[test]
fn long_lz4_block_runs_are_refused() {
    let mut data = vec![0xffu8; 16_843_011];
    data[0] = 0xf0;
    assert_eq!(decompress(&data, CompressionMethod::Lz4, 16), Err(LsfError::CorruptChunk));
}

#[test]
fn large_lz4_blocks_are_accepted() {
    let mut x: u32 = 12345;
    let data: Vec<u8> = (0..0x0101_0000u32)
        .map(|_| {
            x = x.wrapping_mul(1_103_515_245).wrapping_add(12345);
            (x >> 16) as u8
        })
        .collect();
    let block = lz4_flex::compress(&data);
    assert!(block.len() > 0x0100_0000);
    assert_eq!(decompress(&block, CompressionMethod::Lz4, data.len()).unwrap(), data);
}

#[test]
fn regions_merge_by_name() {
    let node = |n: &str| Node { name: n.to_string(), attributes: vec![], children: vec![] };
    let mut regions = vec![Region { name: "A".to_string(), nodes: vec![node("A")] }];
    add_region(&mut regions, Region { name: "B".to_string(), nodes: vec![node("B")] });
    add_region(&mut regions, Region { name: "A".to_string(), nodes: vec![node("A2")] });
    assert_eq!(regions.len(), 2);
    assert_eq!(regions[0].nodes.len(), 2);
    assert_eq!(regions[0].nodes[1].name, "A2");
    let mut attrs = Vec::new();
    set_attribute(&mut attrs, "x".to_string(), NodeAttribute { attribute_type: AttributeType::Int, value: AttributeValue::Int(1) });
    set_attribute(&mut attrs, "x".to_string(), NodeAttribute { attribute_type: AttributeType::Int, value: AttributeValue::Int(2) });
    assert_eq!(attrs.len(), 1);
    assert_eq!(attrs[0].1.value, AttributeValue::Int(2));
}

#[test]
fn later_record_of_a_name_wins() {
    let mut attrs = attr_record(1, 4, 4, 1, 0);
    attrs.extend(attr_record(1, 4, 4, -1, 4));
    let d = file_v7(&pool(&["N", "A"]), &node_record(0, -1, -1, 0), &attrs, &[1, 0, 0, 0, 2, 0, 0, 0], 0);
    let r = read_lsf_bytes(&d).unwrap();
    let n = &r.regions[0].nodes[0];
    assert_eq!(n.attributes.len(), 1);
    assert_eq!(attr(n, "A").unwrap().value, AttributeValue::Int(2));
}

#[test]
fn old_layout_cursor_runs_across_nodes() {
    let mut d = b"LSOF".to_vec();
    d.extend(le32(2));
    d.extend_from_slice(&[0; 8]);
    let strings = pool(&["R", "C", "A", "B"]);
    let mut nodes = le32(0);
    nodes.extend(le32(u32::MAX));
    nodes.extend(le32(0));
    nodes.extend(le32(1));
    nodes.extend(le32(0));
    nodes.extend(le32(1));
    let mut attrs = le32(2);
    attrs.extend(le32(4 | (4 << 6)));
    attrs.extend(le32(u32::MAX));
    attrs.extend(le32(3));
    attrs.extend(le32(4 | (4 << 6)));
    attrs.extend(le32(u32::MAX));
    let values = [7u8, 0, 0, 0, 9, 0, 0, 0];
    for size in [strings.len(), nodes.len(), attrs.len(), values.len()] {
        d.extend(le32(size as u32));
        d.extend(le32(0));
    }
    d.extend(le32(0));
    d.extend_from_slice(&[0; 12]);
    d.extend_from_slice(&strings);
    d.extend_from_slice(&nodes);
    d.extend_from_slice(&attrs);
    d.extend_from_slice(&values);
    let r = read_lsf_bytes(&d).unwrap();
    let root = &r.regions[0].nodes[0];
    assert_eq!(attr(root, "A").unwrap().value, AttributeValue::Int(7));
    assert_eq!(attr(&root.children[0], "B").unwrap().value, AttributeValue::Int(9));
}

#[test]
fn region_names_are_pooled() {
    let mut res = sample_resource();
    res.regions[0].name = "Config".to_string();
    let bytes = write_lsf_bytes(&res, CompressionMethod::Uncompressed).unwrap();
    let s = u32::from_le_bytes([bytes[16], bytes[17], bytes[18], bytes[19]]) as usize;
    let t = parse_string_table(&bytes[72..72 + s]).unwrap();
    let all: Vec<&String> = t.buckets.iter().flatten().collect();
    for name in ["Config", "Root", "Leaf", "Other", "Count", "Id", "Label"] {
        assert_eq!(all.iter().filter(|x| x.as_str() == name).count(), 1, "{}", name);
    }
}

#[test]
fn compressed_chunks_are_encoded() {
    let res = sample_resource();
    for m in [CompressionMethod::Zlib, CompressionMethod::Lz4, CompressionMethod::Zstd] {
        let bytes = write_lsf_bytes(&res, m).unwrap();
        let flags = u32::from_le_bytes([bytes[56], bytes[57], bytes[58], bytes[59]]);
        assert_eq!(flags, m.code());
        assert!(compress(&[1, 2, 3], m, 3).is_ok());
    }
}
