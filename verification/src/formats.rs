//! The outside libraries that decode and re-encode the formats heaps are
//! compared with. A decoded value is kept with the bytes it was decoded
//! from, and what an encoder gives is named over those bytes: the decoders
//! depend on the bytes alone.

use vstd::prelude::*;
use crate::nesting::{bson_depth_ok, ion_depth_ok, MAX_NESTING};

verus! {

#[verifier::external_type_specification]
#[verifier::external_body]
pub struct ExJsonValue(serde_json::Value);

#[verifier::external_type_specification]
#[verifier::external_body]
pub struct ExBsonDocument(bson::Document);

#[verifier::external_type_specification]
#[verifier::external_body]
pub struct ExIonElement(ion_rs::Element);

/// The outside decoders.
pub enum Decoder {
    /// `serde_json::from_slice`.
    Json,
    /// `serde_ipld_dagcbor::from_slice`.
    DagCbor,
    /// `dasl::drisl::from_slice`.
    Drisl,
    /// `rmp_serde::from_slice`.
    MsgPack,
    /// `bson::deserialize_from_slice`.
    Bson,
    /// `ion_rs::Element::read_one`.
    Ion,
}

/// A value that an outside decoder gave, with that decoder and the bytes it
/// decoded the value from. Only the decoders below build one, so the value
/// is always what that decoder gives for those bytes; its view is the
/// decoder and the bytes.
pub struct Decoded<T> {
    value: T,
    by: Ghost<Decoder>,
    source: Ghost<Seq<u8>>,
}

impl<T> View for Decoded<T> {
    type V = (Decoder, Seq<u8>);

    closed spec fn view(&self) -> (Decoder, Seq<u8>) {
        (self.by@, self.source@)
    }
}

/// The bytes an encoder gave, or `None` for its error.
pub open spec fn bytes_of(r: Option<Vec<u8>>) -> Option<Seq<u8>> {
    match r {
        Some(o) => Some(o@),
        None => None,
    }
}

/// Whether `serde_json::from_slice` accepts the bytes as a JSON document.
pub uninterp spec fn json_parses(b: Seq<u8>) -> bool;

/// Calls `serde_json::from_slice` into a `serde_json::Value`; `None` stands
/// for its error. Claimed: it succeeds exactly when `json_parses` holds of
/// the bytes, and what it gives is labelled with them. (It limits nesting to
/// 128 levels itself.)
#[verifier::external_body]
pub(crate) fn json_from_slice(b: &[u8]) -> (r: Option<Decoded<serde_json::Value>>)
    ensures
        r is Some <==> json_parses(b@),
        r matches Some(d) ==> d@ == (Decoder::Json, b@),
{
    match serde_json::from_slice(b) {
        Ok(v) => Some(Decoded { value: v, by: Ghost(Decoder::Json), source: Ghost(b@) }),
        Err(_) => None,
    }
}

/// The RFC 8785 canonical JSON that `serde_json_canonicalizer::to_vec` gives
/// for the value `serde_json::from_slice` decodes from the bytes.
pub uninterp spec fn canonical_json_of(b: Seq<u8>) -> Seq<u8>;

/// Calls `serde_json_canonicalizer::to_vec` on a decoded value; `None` stands
/// for its error. Claimed: it succeeds, with `canonical_json_of` the bytes
/// decoded. It fails only on non-finite floats, raw fragments, keys that are
/// not strings and duplicate keys, and a `serde_json::Value` holds none of
/// these. Allocation failure, which the machine decides, is not counted.
#[verifier::external_body]
pub(crate) fn canonical_json_to_vec(d: &Decoded<serde_json::Value>) -> (r: Option<Vec<u8>>)
    requires
        d@.0 == Decoder::Json,
    ensures
        bytes_of(r) == Some(canonical_json_of(d@.1)),
{
    serde_json_canonicalizer::to_vec(&d.value).ok()
}

/// Whether `serde_ipld_dagcbor::from_slice` accepts the bytes.
pub uninterp spec fn dagcbor_parses(b: Seq<u8>) -> bool;

/// Calls `serde_ipld_dagcbor::from_slice` into a `serde_json::Value`;
/// `None` stands for its error. Claimed: it succeeds exactly when
/// `dagcbor_parses` holds of the bytes, and what it gives is labelled with
/// them. (Its reader limits nesting itself.)
#[verifier::external_body]
pub(crate) fn dagcbor_from_slice(b: &[u8]) -> (r: Option<Decoded<serde_json::Value>>)
    ensures
        r is Some <==> dagcbor_parses(b@),
        r matches Some(d) ==> d@ == (Decoder::DagCbor, b@),
{
    match serde_ipld_dagcbor::from_slice(b) {
        Ok(v) => Some(Decoded { value: v, by: Ghost(Decoder::DagCbor), source: Ghost(b@) }),
        Err(_) => None,
    }
}

/// The DAG-CBOR that `serde_ipld_dagcbor::to_vec` gives for the value
/// `serde_ipld_dagcbor::from_slice` decodes from the bytes.
pub uninterp spec fn dagcbor_of(b: Seq<u8>) -> Seq<u8>;

/// Calls `serde_ipld_dagcbor::to_vec` on a decoded value; `None` stands for
/// its error. Claimed: it succeeds, with `dagcbor_of` the bytes decoded. It
/// fails only on non-finite floats, integers outside 64 bits and map keys
/// that are not strings, and a `serde_json::Value` holds none of these.
/// Allocation failure, which the machine decides, is not counted.
#[verifier::external_body]
pub(crate) fn dagcbor_to_vec(d: &Decoded<serde_json::Value>) -> (r: Option<Vec<u8>>)
    requires
        d@.0 == Decoder::DagCbor,
    ensures
        bytes_of(r) == Some(dagcbor_of(d@.1)),
{
    serde_ipld_dagcbor::to_vec(&d.value).ok()
}

/// Whether `dasl::drisl::from_slice` accepts the bytes.
pub uninterp spec fn drisl_parses(b: Seq<u8>) -> bool;

/// Calls `dasl::drisl::from_slice` into a `serde_json::Value`; `None` stands
/// for its error. Claimed: it succeeds exactly when `drisl_parses` holds of
/// the bytes, and what it gives is labelled with them.
#[verifier::external_body]
pub(crate) fn drisl_from_slice(b: &[u8]) -> (r: Option<Decoded<serde_json::Value>>)
    ensures
        r is Some <==> drisl_parses(b@),
        r matches Some(d) ==> d@ == (Decoder::Drisl, b@),
{
    match dasl::drisl::from_slice(b) {
        Ok(v) => Some(Decoded { value: v, by: Ghost(Decoder::Drisl), source: Ghost(b@) }),
        Err(_) => None,
    }
}

/// The DRISL bytes that `dasl::drisl::to_vec` gives for the value
/// `dasl::drisl::from_slice` decodes from the bytes.
pub uninterp spec fn drisl_of(b: Seq<u8>) -> Seq<u8>;

/// Calls `dasl::drisl::to_vec` on a decoded value; `None` stands for its
/// error. Claimed: it succeeds, with `drisl_of` the bytes decoded. It fails
/// only on non-finite floats and integers outside 64 bits, and a
/// `serde_json::Value` holds neither. Allocation failure, which the machine
/// decides, is not counted.
#[verifier::external_body]
pub(crate) fn drisl_to_vec(d: &Decoded<serde_json::Value>) -> (r: Option<Vec<u8>>)
    requires
        d@.0 == Decoder::Drisl,
    ensures
        bytes_of(r) == Some(drisl_of(d@.1)),
{
    dasl::drisl::to_vec(&d.value).ok()
}

/// Whether `rmp_serde::from_slice` accepts the bytes.
pub uninterp spec fn msgpack_parses(b: Seq<u8>) -> bool;

/// Calls `rmp_serde::from_slice` into a `serde_json::Value`; `None` stands
/// for its error. Claimed: it succeeds exactly when `msgpack_parses` holds of
/// the bytes, and what it gives is labelled with them. (It limits nesting to
/// 1024 levels itself.)
#[verifier::external_body]
pub(crate) fn msgpack_from_slice(b: &[u8]) -> (r: Option<Decoded<serde_json::Value>>)
    ensures
        r is Some <==> msgpack_parses(b@),
        r matches Some(d) ==> d@ == (Decoder::MsgPack, b@),
{
    match rmp_serde::from_slice(b) {
        Ok(v) => Some(Decoded { value: v, by: Ghost(Decoder::MsgPack), source: Ghost(b@) }),
        Err(_) => None,
    }
}

/// The MessagePack that `rmp_serde::to_vec` gives for the value
/// `rmp_serde::from_slice` decodes from the bytes.
pub uninterp spec fn msgpack_of(b: Seq<u8>) -> Seq<u8>;

/// Calls `rmp_serde::to_vec` on a decoded value; `None` stands for its
/// error. Claimed: it succeeds, with `msgpack_of` the bytes decoded. Writing
/// into a `Vec` cannot fail, a `serde_json::Value` gives the length of every
/// array and map it serializes, and it uses no extension types, which are
/// its other errors.
#[verifier::external_body]
pub(crate) fn msgpack_to_vec(d: &Decoded<serde_json::Value>) -> (r: Option<Vec<u8>>)
    requires
        d@.0 == Decoder::MsgPack,
    ensures
        bytes_of(r) == Some(msgpack_of(d@.1)),
{
    rmp_serde::to_vec(&d.value).ok()
}

/// Whether `bson::deserialize_from_slice` accepts the bytes as a document.
pub uninterp spec fn bson_parses(b: Seq<u8>) -> bool;

/// Calls `bson::deserialize_from_slice` into a `bson::Document`; `None`
/// stands for its error. Claimed: it succeeds exactly when `bson_parses`
/// holds of the bytes, and what it gives is labelled with them. It recurses
/// once per nested document or array with no limit of its own, so it is
/// called only on input whose nesting is bounded.
#[verifier::external_body]
pub(crate) fn bson_from_slice(b: &[u8]) -> (r: Option<Decoded<bson::Document>>)
    requires
        bson_depth_ok(b@),
    ensures
        r is Some <==> bson_parses(b@),
        r matches Some(d) ==> d@ == (Decoder::Bson, b@),
{
    match bson::deserialize_from_slice(b) {
        Ok(v) => Some(Decoded { value: v, by: Ghost(Decoder::Bson), source: Ghost(b@) }),
        Err(_) => None,
    }
}

/// What `bson::serialize_to_vec` gives for the document that
/// `bson::deserialize_from_slice` decodes from the bytes: its bytes, or
/// `None` for its error.
pub uninterp spec fn bson_encoding_of(b: Seq<u8>) -> Option<Seq<u8>>;

/// Calls `bson::serialize_to_vec` on a decoded document; `None` stands for
/// its error. Claimed: it gives `bson_encoding_of` the bytes decoded. It
/// recurses once per nested level, which the bound on those bytes keeps
/// shallow.
#[verifier::external_body]
pub(crate) fn bson_to_vec(d: &Decoded<bson::Document>) -> (r: Option<Vec<u8>>)
    requires
        d@.0 == Decoder::Bson,
        bson_depth_ok(d@.1),
    ensures
        bytes_of(r) == bson_encoding_of(d@.1),
{
    bson::serialize_to_vec(&d.value).ok()
}

/// Whether `ion_rs::Element::read_one` accepts the bytes.
pub uninterp spec fn ion_parses(b: Seq<u8>) -> bool;

/// Calls `ion_rs::Element::read_one`; `None` stands for its error. Claimed:
/// it succeeds exactly when `ion_parses` holds of the bytes, and what it
/// gives is labelled with them. It recurses once per nested container with
/// no limit of its own, so it is called only on input whose nesting is
/// bounded.
#[verifier::external_body]
pub(crate) fn ion_read_one(b: &[u8]) -> (r: Option<Decoded<ion_rs::Element>>)
    requires
        ion_depth_ok(b@),
    ensures
        r is Some <==> ion_parses(b@),
        r matches Some(d) ==> d@ == (Decoder::Ion, b@),
{
    match ion_rs::Element::read_one(b) {
        Ok(e) => Some(Decoded { value: e, by: Ghost(Decoder::Ion), source: Ghost(b@) }),
        Err(_) => None,
    }
}

/// What `ion_rs::Element::encode_as`, writing Ion 1.0 binary with nesting
/// limited to `max_depth` levels, gives for the element that
/// `ion_rs::Element::read_one` reads from the bytes: its bytes, or `None`
/// for its error.
pub uninterp spec fn ion_binary_of(b: Seq<u8>, max_depth: u16) -> Option<Seq<u8>>;

/// Calls `ion_rs::Element::encode_as` on a decoded element with Ion 1.0
/// binary, limiting nesting to `max_depth` levels (deeper values give an
/// error, not a deep recursion); `None` stands for its error. Claimed: it
/// gives `ion_binary_of` the bytes read and the limit.
#[verifier::external_body]
pub(crate) fn ion_encode_binary(d: &Decoded<ion_rs::Element>, max_depth: u16) -> (r: Option<Vec<u8>>)
    requires
        d@.0 == Decoder::Ion,
        max_depth <= MAX_NESTING,
    ensures
        bytes_of(r) == ion_binary_of(d@.1, max_depth),
{
    d.value.encode_as(ion_rs::WriteConfig::<ion_rs::v1_0::Binary>::new().with_max_depth(max_depth)).ok()
}

} // verus!
