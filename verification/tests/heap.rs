use rawheap::format::{ByteOrder, compare_bytes};
use rawheap::json::json_number;
use rawheap::{total_bytes, walk_heaps, HeapBuilder, JsonValue, RawHeap};

fn s(x: &str) -> String {
    String::from(x)
}

#[test]
fn new_heap_is_just_the_header() {
    let b = HeapBuilder::new();
    assert_eq!(b.finish(0), vec![0u8, 0, 0, 0]);
}

#[test]
fn offsets_are_positions_after_the_header() {
    let mut b = HeapBuilder::new();
    assert_eq!(b.write_null(), 4);
    assert_eq!(b.write_bool(true), 5);
    assert_eq!(b.write_bool(false), 6);
    assert_eq!(b.write_i64(1), 7);
    assert_eq!(b.write_null(), 16);
    let bytes = b.finish(7);
    assert_eq!(
        bytes,
        vec![7u8, 0, 0, 0, 0x01, 0x03, 0x02, 0x04, 1, 0, 0, 0, 0, 0, 0, 0, 0x01]
    );
}

#[test]
fn finish_writes_root_little_endian() {
    let mut b = HeapBuilder::new();
    b.write_null();
    let bytes = b.finish(0x0403_0201);
    assert_eq!(&bytes[0..4], &[1u8, 2, 3, 4]);
    let mut b2 = HeapBuilder::new();
    let off = b2.write_null();
    let bytes2 = b2.finish(off);
    assert_eq!(&bytes2[0..4], &[4u8, 0, 0, 0]);
    assert_eq!(RawHeap::new(&bytes2).root().tag(), 0x01);
}

#[test]
fn string_layout_and_roundtrip() {
    let mut b = HeapBuilder::new();
    let off = b.write_string("héllo");
    let bytes = b.finish(off);
    assert_eq!(&bytes[4..9], &[0x06u8, 6, 0, 0, 0]);
    assert_eq!(&bytes[9..], "héllo".as_bytes());
    let root = RawHeap::new(&bytes).root();
    assert_eq!(root.as_str(), Some("héllo"));
    assert_eq!(root.as_i64(), None);
    assert_eq!(root.as_bool(), None);
}

#[test]
fn empty_string_roundtrip() {
    let mut b = HeapBuilder::new();
    let off = b.write_string("");
    let bytes = b.finish(off);
    assert_eq!(RawHeap::new(&bytes).root().as_str(), Some(""));
}

#[test]
fn i64_roundtrip_extremes() {
    for v in [0i64, 1, -1, 42, i64::MIN, i64::MAX, -1234567890123] {
        let mut b = HeapBuilder::new();
        let off = b.write_i64(v);
        let bytes = b.finish(off);
        let root = RawHeap::new(&bytes).root();
        assert_eq!(root.tag(), 0x04);
        assert_eq!(root.as_i64(), Some(v));
        assert_eq!(root.as_f64_bits(), None);
    }
}

#[test]
fn i64_is_twos_complement_little_endian() {
    let mut b = HeapBuilder::new();
    let off = b.write_i64(-2);
    let bytes = b.finish(off);
    assert_eq!(&bytes[4..], &[0x04u8, 0xfe, 0xff, 0xff, 0xff, 0xff, 0xff, 0xff, 0xff]);
}

#[test]
fn f64_bits_roundtrip() {
    let mut b = HeapBuilder::new();
    let off = b.write_f64_bits(1.5f64.to_bits());
    let bytes = b.finish(off);
    let root = RawHeap::new(&bytes).root();
    assert_eq!(root.tag(), 0x05);
    assert_eq!(root.as_f64_bits().map(f64::from_bits), Some(1.5));
    assert_eq!(root.as_i64(), None);
}

#[test]
fn bool_roundtrip() {
    let mut b = HeapBuilder::new();
    let t = b.write_bool(true);
    let f = b.write_bool(false);
    let n = b.write_null();
    let bytes = b.finish(t);
    let heap = RawHeap::new(&bytes);
    assert_eq!(heap.root().as_bool(), Some(true));
    let arr_bytes = {
        let mut b2 = HeapBuilder::new();
        let t2 = b2.write_bool(true);
        let f2 = b2.write_bool(false);
        let n2 = b2.write_null();
        let a = b2.write_array(&[t2, f2, n2]);
        b2.finish(a)
    };
    let root = RawHeap::new(&arr_bytes).root();
    assert_eq!(root.array_get(1).unwrap().as_bool(), Some(false));
    assert_eq!(root.array_get(2).unwrap().as_bool(), None);
    assert_eq!((t, f, n), (4, 5, 6));
}

#[test]
fn array_roundtrip_and_bounds() {
    let mut b = HeapBuilder::new();
    let x = b.write_i64(10);
    let y = b.write_string("y");
    let a = b.write_array(&[x, y, x]);
    let bytes = b.finish(a);
    let root = RawHeap::new(&bytes).root();
    assert_eq!(root.array_len(), Some(3));
    assert_eq!(root.array_get(0).unwrap().as_i64(), Some(10));
    assert_eq!(root.array_get(1).unwrap().as_str(), Some("y"));
    assert_eq!(root.array_get(2).unwrap().as_i64(), Some(10));
    assert!(root.array_get(3).is_none());
    assert_eq!(root.map_len(), None);
    assert!(root.map_get("y").is_none());
}

#[test]
fn empty_array() {
    let mut b = HeapBuilder::new();
    let a = b.write_array(&[]);
    let bytes = b.finish(a);
    assert_eq!(&bytes[4..], &[0x07u8, 0, 0, 0, 0]);
    let root = RawHeap::new(&bytes).root();
    assert_eq!(root.array_len(), Some(0));
    assert!(root.array_get(0).is_none());
    assert!(root.is_walkable(1));
}

#[test]
fn write_map_sorts_entries_by_key_content() {
    let mut b = HeapBuilder::new();
    let kc = b.write_string("c");
    let ka = b.write_string("a");
    let kb = b.write_string("b");
    let v1 = b.write_i64(1);
    let v2 = b.write_i64(2);
    let v3 = b.write_i64(3);
    let mut entries = vec![(kc, v3), (ka, v1), (kb, v2)];
    let m = b.write_map(&mut entries);
    assert_eq!(entries, vec![(ka, v1), (kb, v2), (kc, v3)]);
    let bytes = b.finish(m);
    let root = RawHeap::new(&bytes).root();
    assert_eq!(root.map_len(), Some(3));
    assert_eq!(root.map_get("a").unwrap().as_i64(), Some(1));
    assert_eq!(root.map_get("b").unwrap().as_i64(), Some(2));
    assert_eq!(root.map_get("c").unwrap().as_i64(), Some(3));
    assert!(root.map_get("").is_none());
    assert!(root.map_get("bb").is_none());
    assert!(root.map_get("d").is_none());
    assert_eq!(root.array_len(), None);
}

#[test]
fn write_map_orders_prefixes_first() {
    let mut b = HeapBuilder::new();
    let k_ab = b.write_string("ab");
    let k_a = b.write_string("a");
    let k_b = b.write_string("b");
    let mut entries = vec![(k_b, 0), (k_ab, 1), (k_a, 2)];
    b.write_map(&mut entries);
    assert_eq!(entries, vec![(k_a, 2), (k_ab, 1), (k_b, 0)]);
}

#[test]
fn write_map_keeps_equal_keys_in_order() {
    let mut b = HeapBuilder::new();
    let k1 = b.write_string("k");
    let z = b.write_string("a");
    let k2 = b.write_string("k");
    let v1 = b.write_i64(1);
    let v2 = b.write_i64(2);
    let v3 = b.write_i64(3);
    let mut entries = vec![(k1, v1), (k2, v2), (z, v3)];
    let m = b.write_map(&mut entries);
    assert_eq!(entries, vec![(z, v3), (k1, v1), (k2, v2)]);
    let bytes = b.finish(m);
    let root = RawHeap::new(&bytes).root();
    // The first entry with the key is the one found.
    assert_eq!(root.map_get("k").unwrap().as_i64(), Some(1));
    assert_eq!(root.map_get("a").unwrap().as_i64(), Some(3));
}

#[test]
fn write_map_single_entry_needs_no_string_key() {
    let mut b = HeapBuilder::new();
    let n = b.write_null();
    let mut entries = vec![(n, n)];
    let m = b.write_map(&mut entries);
    let bytes = b.finish(m);
    assert_eq!(&bytes[m as usize..], &[0x08u8, 1, 0, 0, 0, 4, 0, 0, 0, 4, 0, 0, 0]);
    let root = RawHeap::new(&bytes).root();
    // The key is not a string, so the scan goes past it.
    assert!(root.map_get("x").is_none());
}

#[test]
fn map_get_stops_at_a_greater_key() {
    let mut b = HeapBuilder::new();
    let ka = b.write_string("a");
    let kc = b.write_string("c");
    let v = b.write_null();
    let mut entries = vec![(ka, v), (kc, v)];
    let m = b.write_map(&mut entries);
    let bytes = b.finish(m);
    let root = RawHeap::new(&bytes).root();
    assert!(root.map_get("b").is_none());
    assert_eq!(root.map_get("c").unwrap().tag(), 0x01);
}

#[test]
fn compare_bytes_is_lexicographic() {
    assert_eq!(compare_bytes(b"a", b"b"), ByteOrder::Less);
    assert_eq!(compare_bytes(b"b", b"a"), ByteOrder::Greater);
    assert_eq!(compare_bytes(b"ab", b"ab"), ByteOrder::Equal);
    assert_eq!(compare_bytes(b"a", b"ab"), ByteOrder::Less);
    assert_eq!(compare_bytes(b"", b""), ByteOrder::Equal);
    assert_eq!(compare_bytes(b"\xff", b"\x00\x00"), ByteOrder::Greater);
}

fn sample_document() -> JsonValue {
    JsonValue::Object(vec![
        (s("name"), JsonValue::Str(s("rawheap"))),
        (s("count"), JsonValue::Int(-3)),
        (
            s("tags"),
            JsonValue::Array(vec![
                JsonValue::Str(s("x")),
                JsonValue::Bool(true),
                JsonValue::Null,
                JsonValue::Float(0.25f64.to_bits()),
            ]),
        ),
        (
            s("nested"),
            JsonValue::Object(vec![(s("z"), JsonValue::Int(9)), (s("a"), JsonValue::Array(vec![]))]),
        ),
    ])
}

#[test]
fn json_document_roundtrip() {
    let doc = sample_document();
    let mut b = HeapBuilder::new();
    assert!(b.fits_json_value(&doc));
    let root_off = b.write_json_value(&doc);
    let bytes = b.finish(root_off);
    let heap = RawHeap::new(&bytes);
    let root = heap.root();
    assert!(root.is_walkable(bytes.len()));
    root.visit();
    assert_eq!(root.map_len(), Some(4));
    assert_eq!(root.map_get("name").unwrap().as_str(), Some("rawheap"));
    assert_eq!(root.map_get("count").unwrap().as_i64(), Some(-3));
    let tags = root.map_get("tags").unwrap();
    assert_eq!(tags.array_len(), Some(4));
    assert_eq!(tags.array_get(0).unwrap().as_str(), Some("x"));
    assert_eq!(tags.array_get(1).unwrap().as_bool(), Some(true));
    assert_eq!(tags.array_get(2).unwrap().tag(), 0x01);
    assert_eq!(tags.array_get(3).unwrap().as_f64_bits().map(f64::from_bits), Some(0.25));
    let nested = root.map_get("nested").unwrap();
    assert_eq!(nested.map_get("z").unwrap().as_i64(), Some(9));
    assert_eq!(nested.map_get("a").unwrap().array_len(), Some(0));
    assert!(root.map_get("missing").is_none());
}

#[test]
fn json_scalars_match_direct_writes() {
    let mut b1 = HeapBuilder::new();
    let o1 = b1.write_json_value(&JsonValue::Str(s("hi")));
    let mut b2 = HeapBuilder::new();
    let o2 = b2.write_string("hi");
    assert_eq!(o1, o2);
    assert_eq!(b1.finish(o1), b2.finish(o2));
}

#[test]
fn json_object_layout() {
    let doc = JsonValue::Object(vec![(s("b"), JsonValue::Null), (s("a"), JsonValue::Bool(false))]);
    let mut b = HeapBuilder::new();
    let off = b.write_json_value(&doc);
    let bytes = b.finish(off);
    let expected: Vec<u8> = vec![
        18, 0, 0, 0, // root offset
        0x06, 1, 0, 0, 0, b'b', // key "b" at 4
        0x01, // null at 10
        0x06, 1, 0, 0, 0, b'a', // key "a" at 11
        0x02, // false at 17
        0x08, 2, 0, 0, 0, // map at 18 with 2 entries, sorted
        11, 0, 0, 0, 17, 0, 0, 0, // "a" -> false
        4, 0, 0, 0, 10, 0, 0, 0, // "b" -> null
    ];
    assert_eq!(bytes, expected);
}

#[test]
fn is_walkable_rejects_malformed_heaps() {
    let unknown_tag = vec![4u8, 0, 0, 0, 0x09];
    assert!(!RawHeap::new(&unknown_tag).root().is_walkable(10));
    let truncated_i64 = vec![4u8, 0, 0, 0, 0x04, 1, 2];
    assert!(!RawHeap::new(&truncated_i64).root().is_walkable(10));
    let root_out_of_range = vec![9u8, 0, 0, 0, 0x01];
    assert!(!RawHeap::new(&root_out_of_range).root().is_walkable(10));
    let bad_utf8 = vec![4u8, 0, 0, 0, 0x06, 1, 0, 0, 0, 0xff];
    assert!(!RawHeap::new(&bad_utf8).root().is_walkable(10));
    let self_loop = vec![4u8, 0, 0, 0, 0x07, 1, 0, 0, 0, 4, 0, 0, 0];
    assert!(!RawHeap::new(&self_loop).root().is_walkable(100));
    let nul = vec![4u8, 0, 0, 0, 0x01];
    assert!(!RawHeap::new(&nul).root().is_walkable(0));
    assert!(RawHeap::new(&nul).root().is_walkable(1));
}

#[test]
fn total_bytes_sums_lengths() {
    let blobs = vec![vec![1u8, 2, 3], vec![], vec![4u8; 10]];
    assert_eq!(total_bytes(&blobs), 13);
    assert_eq!(total_bytes(&[]), 0);
}

#[test]
fn walk_heaps_walks_every_blob() {
    let mut blobs = Vec::new();
    for i in 0..3i64 {
        let mut b = HeapBuilder::new();
        let doc = JsonValue::Array(vec![JsonValue::Int(i), sample_document()]);
        let off = b.write_json_value(&doc);
        blobs.push(b.finish(off));
    }
    for blob in &blobs {
        assert!(RawHeap::new(blob).root().is_walkable(blob.len()));
    }
    walk_heaps(&blobs, 2);
    walk_heaps(&blobs, 0);
}

#[test]
fn write_map_order_of_distinct_keys_does_not_matter() {
    let mut b = HeapBuilder::new();
    let kx = b.write_string("x");
    let ky = b.write_string("y");
    let kz = b.write_string("zz");
    let mut first = vec![(kz, 1), (kx, 2), (ky, 3)];
    let mut second = vec![(ky, 3), (kz, 1), (kx, 2)];
    let m1 = b.write_map(&mut first);
    let m2 = b.write_map(&mut second);
    assert_eq!(first, second);
    let bytes = b.finish(m1);
    assert_eq!(&bytes[m1 as usize..m2 as usize], &bytes[m2 as usize..]);
}

#[test]
fn written_values_survive_later_writes() {
    let mut b = HeapBuilder::new();
    let s = b.write_string("kept");
    let i = b.write_i64(77);
    for k in 0..20 {
        b.write_i64(k);
        b.write_string("filler");
    }
    let a = b.write_array(&[s, i]);
    let bytes = b.finish(a);
    let root = RawHeap::new(&bytes).root();
    assert_eq!(root.array_get(0).unwrap().as_str(), Some("kept"));
    assert_eq!(root.array_get(1).unwrap().as_i64(), Some(77));
}

#[test]
fn walk_heaps_reads_nothing_without_a_pass() {
    let blobs = vec![vec![0xffu8], vec![9u8, 9, 9, 9, 9]];
    walk_heaps(&blobs, 0);
}

#[test]
fn heap_ref_reports_position_and_heap_length() {
    let mut b = HeapBuilder::new();
    b.write_null();
    let off = b.write_i64(-7);
    assert_eq!(b.len(), 14);
    let bytes = b.finish(off);
    let root = RawHeap::new(&bytes).root();
    assert_eq!(root.offset(), 5);
    assert_eq!(root.heap_len(), 14);
    assert_eq!(root.as_i64(), Some(-7));
}

/// A heap written by hand, with arrays and a map that refer to earlier
/// writes; the offsets of all its writes.
fn hand_built() -> (HeapBuilder, Vec<u32>) {
    let mut b = HeapBuilder::new();
    let n = b.write_null();
    let t = b.write_bool(true);
    let k1 = b.write_string("zeta");
    let k2 = b.write_string("alpha");
    let f = b.write_f64_bits(0x7ff8_0000_0000_0001);
    let a = b.write_array(&[n, t, f, k1]);
    let mut entries = [(k1, a), (k2, f), (k2, n)];
    let m = b.write_map(&mut entries);
    let outer = b.write_array(&[m, a, m]);
    (b, vec![n, t, k1, k2, f, a, m, outer])
}

#[test]
fn heap_built_by_hand_walks_from_any_of_its_writes() {
    let (_, offsets) = hand_built();
    let mut blobs = Vec::new();
    for &root in &offsets {
        let (b, _) = hand_built();
        let bytes = b.finish(root);
        assert!(RawHeap::new(&bytes).root().is_walkable(bytes.len()));
        blobs.push(bytes);
    }
    walk_heaps(&blobs, 1);
}

#[test]
fn json_number_prefers_an_integer() {
    assert!(matches!(json_number(Some(-5), Some((-5.0f64).to_bits())), Some(JsonValue::Int(-5))));
    let bits = 2.5f64.to_bits();
    assert!(matches!(json_number(None, Some(bits)), Some(JsonValue::Float(b)) if b == bits));
    assert!(json_number(None, None).is_none());
}

#[test]
fn heap_from_json_matches_a_builder_run() {
    let doc = sample_document();
    let mut b = HeapBuilder::new();
    let off = b.write_json_value(&doc);
    let expected = b.finish(off);
    let heap = rawheap::json::heap_from_json(&doc).unwrap();
    assert_eq!(heap, expected);
    let root = RawHeap::new(&heap).root();
    assert_eq!(root.map_get("count").unwrap().as_i64(), Some(-3));
}
