//! How deeply BSON and Ion input may nest before it is handed to their
//! decoders, which recurse once per level with no limit of their own.
//!
//! Input framed as its format says nests exactly as its framing shows, and
//! that is what is bounded. Of other input, each level of nesting needs a
//! byte of its own that could open it, so the number of such bytes is
//! bounded instead.

use vstd::prelude::*;
use crate::bson_depth::{bson_framed, bson_framed_within};
use crate::ion_depth::{ion_framed, ion_framed_within, ivm_at};

verus! {

/// The deepest nesting of documents, arrays, lists, structures or
/// annotations that BSON and Ion input may have before it is decoded.
pub const MAX_NESTING: usize = 256;

/// A byte that may open a nested BSON document or array: every nested one is
/// introduced by an element type byte 0x03 (document), 0x04 (array) or 0x0F
/// (code with scope).
pub open spec fn is_bson_opener(x: u8) -> bool {
    x == 0x03 || x == 0x04 || x == 0x0F
}

/// A byte that may open a nested Ion container or annotation: in binary Ion
/// every list, s-expression, struct and annotation wrapper starts with a type
/// byte in 0xB0..=0xEF; in text Ion every container starts with `[`, `(` or `{`.
pub open spec fn is_ion_opener(x: u8) -> bool {
    (0xB0 <= x && x <= 0xEF) || is_ion_bracket(x)
}

/// A byte that opens a container of text Ion: `[`, `(` or `{`.
pub open spec fn is_ion_bracket(x: u8) -> bool {
    x == 0x28 || x == 0x5B || x == 0x7B
}

/// The bytes that may open a nested value, for each kind of input.
pub enum Openers {
    /// Of BSON.
    Bson,
    /// Of Ion, binary or text.
    Ion,
    /// Of text Ion.
    IonText,
}

/// Whether `x` is one of the bytes `which` counts.
pub open spec fn opens(which: Openers, x: u8) -> bool {
    match which {
        Openers::Bson => is_bson_opener(x),
        Openers::Ion => is_ion_opener(x),
        Openers::IonText => is_ion_bracket(x),
    }
}

/// The number of bytes of `b` that `which` counts.
pub open spec fn openers(which: Openers, b: Seq<u8>) -> nat
    decreases b.len(),
{
    if b.len() == 0 {
        0
    } else {
        openers(which, b.drop_last()) + if opens(which, b.last()) { 1nat } else { 0nat }
    }
}

/// BSON input that its decoder can take without deep recursion: a framed
/// document nesting at most `MAX_NESTING` levels below the top, or input with
/// at most `MAX_NESTING` bytes that could open a nested document.
pub open spec fn bson_depth_ok(b: Seq<u8>) -> bool {
    bson_framed(b, MAX_NESTING as nat) || openers(Openers::Bson, b) <= MAX_NESTING
}

/// Ion input that its decoder can take without deep recursion. Input that
/// begins with the binary version marker is binary: framed and nesting at
/// most `MAX_NESTING` levels below the top, or with at most `MAX_NESTING`
/// bytes that could open a nested value. Other input that begins with 0xE0
/// is held to the second bound. Any other input is text, whose containers
/// each open with a bracket: it has at most `MAX_NESTING` of them.
pub open spec fn ion_depth_ok(b: Seq<u8>) -> bool {
    if ivm_at(b, 0) {
        ion_framed(b, MAX_NESTING as nat) || openers(Openers::Ion, b) <= MAX_NESTING
    } else if b.len() > 0 && b[0] == 0xE0 {
        openers(Openers::Ion, b) <= MAX_NESTING
    } else {
        openers(Openers::IonText, b) <= MAX_NESTING
    }
}

/// Counting opening bytes is additive: the bytes of two pieces together
/// hold the openers of both, and no more openers than bytes.
pub proof fn lemma_openers_add(which: Openers, a: Seq<u8>, b: Seq<u8>)
    ensures
        openers(which, a + b) == openers(which, a) + openers(which, b),
        openers(which, a) <= a.len(),
    decreases b.len(),
{
    lemma_openers_len(which, a);
    if b.len() == 0 {
        assert(a + b =~= a);
    } else {
        lemma_openers_add(which, a, b.drop_last());
        assert((a + b).drop_last() =~= a + b.drop_last());
    }
}

proof fn lemma_openers_len(which: Openers, a: Seq<u8>)
    ensures
        openers(which, a) <= a.len(),
    decreases a.len(),
{
    if a.len() > 0 {
        lemma_openers_len(which, a.drop_last());
    }
}

/// Every text Ion bracket is a byte that could open an Ion value.
proof fn lemma_brackets_within_openers(b: Seq<u8>)
    ensures
        openers(Openers::IonText, b) <= openers(Openers::Ion, b),
    decreases b.len(),
{
    if b.len() > 0 {
        lemma_brackets_within_openers(b.drop_last());
    }
}

/// What the nesting checks accept, whatever the input's length: a framed
/// BSON document or binary Ion stream nesting no deeper than the limit, and
/// any input with no more bytes that could open a nested value than the
/// limit.
pub proof fn lemma_depth_ok_accepts(b: Seq<u8>)
    ensures
        bson_framed(b, MAX_NESTING as nat) ==> bson_depth_ok(b),
        openers(Openers::Bson, b) <= MAX_NESTING ==> bson_depth_ok(b),
        ivm_at(b, 0) && ion_framed(b, MAX_NESTING as nat) ==> ion_depth_ok(b),
        openers(Openers::Ion, b) <= MAX_NESTING ==> ion_depth_ok(b),
        !(b.len() > 0 && b[0] == 0xE0) && openers(Openers::IonText, b) <= MAX_NESTING ==> ion_depth_ok(b),
{
    lemma_brackets_within_openers(b);
}

/// The number of bytes of `b` that `which` counts.
fn count_openers(which: Openers, b: &[u8]) -> (n: usize)
    ensures
        n == openers(which, b@),
{
    let mut count: usize = 0;
    let mut i: usize = 0;
    while i < b.len()
        invariant
            i <= b@.len(),
            count <= i,
            count == openers(which, b@.take(i as int)),
        decreases b@.len() - i,
    {
        let x = b[i];
        let hit = match which {
            Openers::Bson => x == 0x03 || x == 0x04 || x == 0x0F,
            Openers::Ion => (0xB0 <= x && x <= 0xEF) || x == 0x28 || x == 0x5B || x == 0x7B,
            Openers::IonText => x == 0x28 || x == 0x5B || x == 0x7B,
        };
        assert(b@.take(i + 1).drop_last() =~= b@.take(i as int));
        if hit {
            count = count + 1;
        }
        i = i + 1;
    }
    assert(b@.take(i as int) =~= b@);
    count
}

/// Whether BSON input may be handed to its decoder (see `bson_depth_ok`).
pub fn bson_nesting_bounded(b: &[u8]) -> (r: bool)
    ensures
        r == bson_depth_ok(b@),
{
    bson_framed_within(b, MAX_NESTING) || count_openers(Openers::Bson, b) <= MAX_NESTING
}

/// Whether Ion input may be handed to its decoder (see `ion_depth_ok`).
pub fn ion_nesting_bounded(b: &[u8]) -> (r: bool)
    ensures
        r == ion_depth_ok(b@),
{
    if b.len() >= 4 && b[0] == 0xE0 && b[1] == 0x01 && b[2] == 0x00 && b[3] == 0xEA {
        ion_framed_within(b, MAX_NESTING) || count_openers(Openers::Ion, b) <= MAX_NESTING
    } else if b.len() > 0 && b[0] == 0xE0 {
        count_openers(Openers::Ion, b) <= MAX_NESTING
    } else {
        count_openers(Openers::IonText, b) <= MAX_NESTING
    }
}

} // verus!
