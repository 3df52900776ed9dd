//! Decoding and re-encoding the stored events with the other formats that
//! heaps are compared against.

use vstd::prelude::*;
use crate::formats::{
    bson_encoding_of, bson_from_slice, bson_parses, bson_to_vec, bytes_of, canonical_json_of,
    canonical_json_to_vec, dagcbor_from_slice, dagcbor_of, dagcbor_parses, dagcbor_to_vec,
    drisl_from_slice, drisl_of, drisl_parses, drisl_to_vec, ion_binary_of, ion_encode_binary,
    ion_parses, ion_read_one, json_from_slice, json_parses, msgpack_from_slice, msgpack_of,
    msgpack_parses, msgpack_to_vec,
};
use crate::nesting::{bson_depth_ok, bson_nesting_bounded, ion_depth_ok, ion_nesting_bounded};

verus! {

/// The deepest nesting that Ion is encoded with: deeper values give an error
/// rather than a deep recursion.
pub const ION_WRITE_DEPTH: u16 = 256;

/// A stored format and the library that decodes and re-encodes it.
#[derive(Clone, Copy, PartialEq, Eq, Structural, Debug)]
pub enum Codec {
    /// JSON, re-encoded canonically (RFC 8785).
    CanonicalJson,
    /// DAG-CBOR through `serde_ipld_dagcbor`.
    DagCbor,
    /// DAG-CBOR through `dasl`.
    DaslCbor,
    /// MessagePack through `rmp_serde`.
    MsgPack,
    /// BSON.
    Bson,
    /// Ion binary.
    Ion,
}

/// What decoding `b` with `codec` and encoding the decoded value again
/// gives: the encoded bytes, or `None` when either step fails.
pub open spec fn reencoding(codec: Codec, b: Seq<u8>) -> Option<Seq<u8>> {
    match codec {
        Codec::CanonicalJson => if json_parses(b) { Some(canonical_json_of(b)) } else { None },
        Codec::DagCbor => if dagcbor_parses(b) { Some(dagcbor_of(b)) } else { None },
        Codec::DaslCbor => if drisl_parses(b) { Some(drisl_of(b)) } else { None },
        Codec::MsgPack => if msgpack_parses(b) { Some(msgpack_of(b)) } else { None },
        Codec::Bson => if bson_parses(b) { bson_encoding_of(b) } else { None },
        Codec::Ion => if ion_parses(b) { ion_binary_of(b, ION_WRITE_DEPTH) } else { None },
    }
}

/// Whether `b` decodes with `codec` and its value encodes again.
pub open spec fn round_trips(codec: Codec, b: Seq<u8>) -> bool {
    reencoding(codec, b) is Some
}

/// Input that a decoder accepts re-encodes to what its encoder gives for the
/// decoded value, with no further condition on the input; input it refuses
/// gives nothing. For the four formats decoded into a `serde_json::Value`,
/// whose encoders take every such value, accepted input always re-encodes.
pub proof fn lemma_reencoding(b: Seq<u8>)
    ensures
        json_parses(b) ==> reencoding(Codec::CanonicalJson, b) == Some(canonical_json_of(b)),
        dagcbor_parses(b) ==> reencoding(Codec::DagCbor, b) == Some(dagcbor_of(b)),
        drisl_parses(b) ==> reencoding(Codec::DaslCbor, b) == Some(drisl_of(b)),
        msgpack_parses(b) ==> reencoding(Codec::MsgPack, b) == Some(msgpack_of(b)),
        bson_parses(b) ==> reencoding(Codec::Bson, b) == bson_encoding_of(b),
        ion_parses(b) ==> reencoding(Codec::Ion, b) == ion_binary_of(b, ION_WRITE_DEPTH),
        !json_parses(b) ==> reencoding(Codec::CanonicalJson, b) is None,
        !dagcbor_parses(b) ==> reencoding(Codec::DagCbor, b) is None,
        !drisl_parses(b) ==> reencoding(Codec::DaslCbor, b) is None,
        !msgpack_parses(b) ==> reencoding(Codec::MsgPack, b) is None,
        !bson_parses(b) ==> reencoding(Codec::Bson, b) is None,
        !ion_parses(b) ==> reencoding(Codec::Ion, b) is None,
        json_parses(b) ==> round_trips(Codec::CanonicalJson, b),
        dagcbor_parses(b) ==> round_trips(Codec::DagCbor, b),
        drisl_parses(b) ==> round_trips(Codec::DaslCbor, b),
        msgpack_parses(b) ==> round_trips(Codec::MsgPack, b),
        forall|c: Codec| #[trigger] round_trips(c, b) <==> reencoding(c, b) is Some,
{
}

/// Whether `b` may be handed to the decoder of `codec`: BSON and Ion input
/// must not nest too deeply (see `bson_depth_ok` and `ion_depth_ok`); the
/// other decoders limit nesting themselves.
pub open spec fn nesting_ok(codec: Codec, b: Seq<u8>) -> bool {
    match codec {
        Codec::Bson => bson_depth_ok(b),
        Codec::Ion => ion_depth_ok(b),
        _ => true,
    }
}

/// Whether `blob` may be handed to the decoder of `codec` (see `nesting_ok`).
pub fn nesting_bounded(codec: Codec, blob: &[u8]) -> (r: bool)
    ensures
        r == nesting_ok(codec, blob@),
{
    match codec {
        Codec::Bson => bson_nesting_bounded(blob),
        Codec::Ion => ion_nesting_bounded(blob),
        _ => true,
    }
}

/// Decodes `blob` with `codec` and encodes the decoded value again; the
/// encoded bytes, or `None` when either step fails.
pub fn decode_encode(codec: Codec, blob: &[u8]) -> (r: Option<Vec<u8>>)
    requires
        nesting_ok(codec, blob@),
    ensures
        bytes_of(r) == reencoding(codec, blob@),
{
    match codec {
        Codec::CanonicalJson => match json_from_slice(blob) {
            Some(d) => canonical_json_to_vec(&d),
            None => None,
        },
        Codec::DagCbor => match dagcbor_from_slice(blob) {
            Some(d) => dagcbor_to_vec(&d),
            None => None,
        },
        Codec::DaslCbor => match drisl_from_slice(blob) {
            Some(d) => drisl_to_vec(&d),
            None => None,
        },
        Codec::MsgPack => match msgpack_from_slice(blob) {
            Some(d) => msgpack_to_vec(&d),
            None => None,
        },
        Codec::Bson => match bson_from_slice(blob) {
            Some(d) => bson_to_vec(&d),
            None => None,
        },
        Codec::Ion => match ion_read_one(blob) {
            Some(d) => ion_encode_binary(&d, ION_WRITE_DEPTH),
            None => None,
        },
    }
}

/// Decodes and re-encodes every blob with `codec`, `iters` times over; the
/// index of the first blob that does not round-trip, or `None` when every
/// one does (or when there is nothing to do).
pub fn decode_encode_all(codec: Codec, blobs: &[Vec<u8>], iters: usize) -> (r: Option<usize>)
    requires
        iters > 0 ==> forall|j: int| 0 <= j < blobs@.len() ==> nesting_ok(codec, #[trigger] blobs@[j]@),
    ensures
        r matches Some(i) ==> {
            &&& iters > 0
            &&& i < blobs@.len()
            &&& forall|j: int| 0 <= j < i ==> round_trips(codec, #[trigger] blobs@[j]@)
            &&& !round_trips(codec, blobs@[i as int]@)
        },
        r is None <==> (iters == 0 || forall|j: int| 0 <= j < blobs@.len() ==> round_trips(codec, #[trigger] blobs@[j]@)),
{
    let mut k: usize = 0;
    while k < iters
        invariant
            k <= iters,
            iters > 0 ==> forall|j: int| 0 <= j < blobs@.len() ==> nesting_ok(codec, #[trigger] blobs@[j]@),
            k > 0 ==> forall|j: int| 0 <= j < blobs@.len() ==> round_trips(codec, #[trigger] blobs@[j]@),
        decreases iters - k,
    {
        let mut i: usize = 0;
        while i < blobs.len()
            invariant
                i <= blobs@.len(),
                k < iters,
                forall|j: int| 0 <= j < blobs@.len() ==> nesting_ok(codec, #[trigger] blobs@[j]@),
                forall|j: int| 0 <= j < i ==> round_trips(codec, #[trigger] blobs@[j]@),
            decreases blobs@.len() - i,
        {
            assert(nesting_ok(codec, blobs@[i as int]@));
            if decode_encode(codec, blobs[i].as_slice()).is_none() {
                return Some(i);
            }
            i = i + 1;
        }
        k = k + 1;
    }
    None
}

} // verus!
