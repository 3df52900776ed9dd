use rawheap::codecs::{decode_encode, decode_encode_all, nesting_bounded, Codec};
use rawheap::nesting::{bson_nesting_bounded, ion_nesting_bounded};

fn sample() -> serde_json::Value {
    serde_json::from_str(r#"{"type":"m.room.message","content":{"body":"hi","n":3},"tags":[1,2,true,null]}"#)
        .unwrap()
}

#[test]
fn json_round_trip() {
    let blob = serde_json::to_vec(&sample()).unwrap();
    let expected = serde_json_canonicalizer::to_vec(&sample()).unwrap();
    assert_eq!(decode_encode(Codec::CanonicalJson, &blob), Some(expected));
    assert_eq!(decode_encode(Codec::CanonicalJson, b"{not json"), None);
}

#[test]
fn canonical_json_sorts_keys_and_drops_spaces() {
    let out = decode_encode(Codec::CanonicalJson, br#"{ "b" : 1, "a" : [true, null] }"#);
    assert_eq!(out, Some(br#"{"a":[true,null],"b":1}"#.to_vec()));
}

#[test]
fn dagcbor_round_trip() {
    let blob = serde_ipld_dagcbor::to_vec(&sample()).unwrap();
    assert_eq!(decode_encode(Codec::DagCbor, &blob), Some(blob.clone()));
    assert_eq!(decode_encode(Codec::DaslCbor, &blob), Some(dasl::drisl::to_vec(&sample()).unwrap()));
    assert_eq!(decode_encode(Codec::DagCbor, &[0xff, 0xff]), None);
}

#[test]
fn msgpack_round_trip() {
    let blob = rmp_serde::to_vec(&sample()).unwrap();
    assert_eq!(decode_encode(Codec::MsgPack, &blob), Some(blob.clone()));
    assert_eq!(decode_encode(Codec::MsgPack, &[0xc1]), None);
}

#[test]
fn bson_round_trip() {
    let doc: bson::Document = bson::serialize_to_document(&sample()).unwrap();
    let blob = bson::serialize_to_vec(&doc).unwrap();
    assert_eq!(decode_encode(Codec::Bson, &blob), Some(blob.clone()));
    assert_eq!(decode_encode(Codec::Bson, &[1, 2, 3]), None);
}

#[test]
fn ion_round_trip() {
    let element = ion_rs::Element::read_one("{a: 1, b: \"x\"}").unwrap();
    let blob = element.encode_as(ion_rs::v1_0::Binary).unwrap();
    let again = decode_encode(Codec::Ion, &blob).unwrap();
    assert_eq!(ion_rs::Element::read_one(again.as_slice()).unwrap(), element);
    assert_eq!(decode_encode(Codec::Ion, &[0xe0, 0x01]), None);
    // Text Ion is read too, and encoded as binary.
    let from_text = decode_encode(Codec::Ion, b"{a: 1, b: \"x\"}").unwrap();
    assert_eq!(&from_text[..4], &[0xE0, 0x01, 0x00, 0xEA]);
}

#[test]
fn decode_encode_all_reports_first_failure() {
    let good = serde_json::to_vec(&sample()).unwrap();
    let blobs = vec![good.clone(), b"oops".to_vec(), good.clone(), b"[".to_vec()];
    assert_eq!(decode_encode_all(Codec::CanonicalJson, &blobs, 3), Some(1));
    assert_eq!(decode_encode_all(Codec::CanonicalJson, &blobs[..1], 3), None);
    assert_eq!(decode_encode_all(Codec::CanonicalJson, &blobs, 0), None);
    assert_eq!(decode_encode_all(Codec::CanonicalJson, &[], 5), None);
}

/// A BSON document with `levels` documents nested inside it, built by hand.
fn nested_bson(levels: usize) -> Vec<u8> {
    fn close(elements: &[u8]) -> Vec<u8> {
        let mut doc = ((elements.len() + 5) as u32).to_le_bytes().to_vec();
        doc.extend_from_slice(elements);
        doc.push(0);
        doc
    }
    // Innermost: {x: 1}
    let mut doc = close(&[0x10, b'x', 0, 1, 0, 0, 0]);
    for _ in 0..levels {
        let mut elements = vec![0x03, b'd', 0];
        elements.extend_from_slice(&doc);
        doc = close(&elements);
    }
    doc
}

/// Binary Ion holding `levels` lists nested in one another, built by hand.
fn nested_ion_lists(levels: usize) -> Vec<u8> {
    let mut v: Vec<u8> = vec![0xB0];
    for _ in 1..levels {
        let n = v.len();
        let mut next = if n < 14 {
            vec![0xB0 | n as u8]
        } else if n < 128 {
            vec![0xBE, 0x80 | n as u8]
        } else {
            vec![0xBE, (n >> 7) as u8, 0x80 | (n & 0x7F) as u8]
        };
        next.extend_from_slice(&v);
        v = next;
    }
    let mut out = vec![0xE0, 0x01, 0x00, 0xEA];
    out.extend_from_slice(&v);
    out
}

#[test]
fn bson_nesting_is_bounded_by_depth_not_by_bytes() {
    // A shallow document whose text is full of bytes that could open documents.
    let mut d = bson::Document::new();
    d.insert("body", "\u{3}\u{4}\u{f}".repeat(400));
    let shallow = bson::serialize_to_vec(&d).unwrap();
    assert!(bson_nesting_bounded(&shallow));
    assert!(decode_encode(Codec::Bson, &shallow).is_some());
    assert!(bson_nesting_bounded(&nested_bson(200)));
    assert!(decode_encode(Codec::Bson, &nested_bson(20)).is_some());
    assert!(!bson_nesting_bounded(&nested_bson(300)));
    // Input that is not one framed document is held to its opening bytes.
    assert!(bson_nesting_bounded(&vec![0x03u8; 256]));
    assert!(!bson_nesting_bounded(&vec![0x04u8; 257]));
}

#[test]
fn ion_nesting_is_bounded_by_depth_not_by_bytes() {
    // A shallow event with a long non-ASCII message.
    let text = format!("{{body: \"{}\"}}", "日本語のメッセージ".repeat(200));
    let element = ion_rs::Element::read_one(text.as_bytes()).unwrap();
    let blob = element.encode_as(ion_rs::v1_0::Binary).unwrap();
    assert!(ion_nesting_bounded(&blob));
    assert!(decode_encode(Codec::Ion, &blob).is_some());
    // Deep binary Ion is refused; so is deep text Ion.
    assert!(ion_nesting_bounded(&nested_ion_lists(200)));
    assert!(decode_encode(Codec::Ion, &nested_ion_lists(50)).is_some());
    assert!(!ion_nesting_bounded(&nested_ion_lists(300)));
    let deep_text = format!("{}{}", "[".repeat(300), "]".repeat(300));
    assert!(!ion_nesting_bounded(deep_text.as_bytes()));
    // Text is held to its brackets only, so non-ASCII text passes.
    assert!(ion_nesting_bounded(text.as_bytes()));
    assert!(ion_nesting_bounded(b"{a: [1, (2 3)]}"));
    // Input that starts like binary but is not framed is held to every
    // byte that could open a value.
    assert!(!ion_nesting_bounded(&vec![0xE0u8; 257]));
}

#[test]
fn other_decoders_limit_nesting_themselves() {
    let deep_text = "[".repeat(300);
    assert!(nesting_bounded(Codec::CanonicalJson, deep_text.as_bytes()));
    assert!(nesting_bounded(Codec::MsgPack, &vec![0x91u8; 2000]));
    assert!(!nesting_bounded(Codec::Bson, &vec![0x04u8; 257]));
}

#[test]
fn json_and_cbor_round_trip_every_value_they_decode() {
    let deepish = format!("{}{}", "[".repeat(100), "]".repeat(100));
    assert_eq!(decode_encode(Codec::CanonicalJson, deepish.as_bytes()), Some(deepish.clone().into_bytes()));
    assert!(decode_encode(Codec::CanonicalJson, br#"{"b":1,"a":[-0.5,1e300,"\u00e9"]}"#).is_some());
    let blobs = vec![
        serde_ipld_dagcbor::to_vec(&sample()).unwrap(),
        serde_ipld_dagcbor::to_vec(&serde_json::Value::Null).unwrap(),
    ];
    assert_eq!(decode_encode_all(Codec::DagCbor, &blobs, 2), None);
    assert_eq!(decode_encode_all(Codec::DaslCbor, &blobs, 1), None);
    let packed = vec![rmp_serde::to_vec(&sample()).unwrap(), vec![0x90u8]];
    assert_eq!(decode_encode_all(Codec::MsgPack, &packed, 1), None);
}
