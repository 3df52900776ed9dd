//! The byte layout shared by the builder and the reader.

use vstd::prelude::*;
use vstd::string::StringSliceAdditionalSpecFns;
use vstd::utf8::valid_utf8;

verus! {

/// Tag of the null value.
pub const TAG_NULL: u8 = 0x01;
/// Tag of `false`.
pub const TAG_FALSE: u8 = 0x02;
/// Tag of `true`.
pub const TAG_TRUE: u8 = 0x03;
/// Tag of a signed 64-bit integer, followed by its 8 little-endian bytes.
pub const TAG_I64: u8 = 0x04;
/// Tag of a 64-bit float, followed by the 8 little-endian bytes of its bits.
pub const TAG_F64: u8 = 0x05;
/// Tag of a string: a `u32` byte length, then the UTF-8 bytes.
pub const TAG_STRING: u8 = 0x06;
/// Tag of an array: a `u32` count, then one `u32` offset per element.
pub const TAG_ARRAY: u8 = 0x07;
/// Tag of a map: a `u32` count, then a (key offset, value offset) pair of `u32`s per entry.
pub const TAG_MAP: u8 = 0x08;

/// The four little-endian bytes of `x`.
pub open spec fn u32_le(x: u32) -> Seq<u8> {
    seq![x as u8, (x >> 8u32) as u8, (x >> 16u32) as u8, (x >> 24u32) as u8]
}

/// The `u32` whose little-endian bytes are `b0..b3`.
pub open spec fn u32_from_le(b0: u8, b1: u8, b2: u8, b3: u8) -> u32 {
    (b0 as u32) | ((b1 as u32) << 8u32) | ((b2 as u32) << 16u32) | ((b3 as u32) << 24u32)
}

/// The `u32` stored little-endian at `d[at..at + 4]`.
pub open spec fn u32_at(d: Seq<u8>, at: int) -> u32 {
    u32_from_le(d[at], d[at + 1], d[at + 2], d[at + 3])
}

/// The eight little-endian bytes of `x`.
pub open spec fn u64_le(x: u64) -> Seq<u8> {
    seq![
        x as u8,
        (x >> 8u64) as u8,
        (x >> 16u64) as u8,
        (x >> 24u64) as u8,
        (x >> 32u64) as u8,
        (x >> 40u64) as u8,
        (x >> 48u64) as u8,
        (x >> 56u64) as u8,
    ]
}

/// The `u64` whose little-endian bytes are `b0..b7`.
pub open spec fn u64_from_le(b0: u8, b1: u8, b2: u8, b3: u8, b4: u8, b5: u8, b6: u8, b7: u8) -> u64 {
    (b0 as u64) | ((b1 as u64) << 8u64) | ((b2 as u64) << 16u64) | ((b3 as u64) << 24u64)
        | ((b4 as u64) << 32u64) | ((b5 as u64) << 40u64) | ((b6 as u64) << 48u64) | ((b7
        as u64) << 56u64)
}

/// The `u64` stored little-endian at `d[at..at + 8]`.
pub open spec fn u64_at(d: Seq<u8>, at: int) -> u64 {
    u64_from_le(d[at], d[at + 1], d[at + 2], d[at + 3], d[at + 4], d[at + 5], d[at + 6], d[at + 7])
}

/// Decoding the little-endian bytes of `x` gives back `x`.
pub proof fn lemma_u32_le_roundtrip(x: u32)
    ensures
        u32_at(u32_le(x), 0) == x,
        u32_le(x).len() == 4,
{
    let b0 = x as u8;
    let b1 = (x >> 8u32) as u8;
    let b2 = (x >> 16u32) as u8;
    let b3 = (x >> 24u32) as u8;
    assert(u32_from_le(b0, b1, b2, b3) == x) by (bit_vector)
        requires
            b0 == x as u8,
            b1 == (x >> 8u32) as u8,
            b2 == (x >> 16u32) as u8,
            b3 == (x >> 24u32) as u8,
    ;
}


/// Decoding the little-endian bytes of `x` gives back `x`.
pub proof fn lemma_u64_le_roundtrip(x: u64)
    ensures
        u64_at(u64_le(x), 0) == x,
        u64_le(x).len() == 8,
{
    let b0 = x as u8;
    let b1 = (x >> 8u64) as u8;
    let b2 = (x >> 16u64) as u8;
    let b3 = (x >> 24u64) as u8;
    let b4 = (x >> 32u64) as u8;
    let b5 = (x >> 40u64) as u8;
    let b6 = (x >> 48u64) as u8;
    let b7 = (x >> 56u64) as u8;
    assert(u64_from_le(b0, b1, b2, b3, b4, b5, b6, b7) == x) by (bit_vector)
        requires
            b0 == x as u8,
            b1 == (x >> 8u64) as u8,
            b2 == (x >> 16u64) as u8,
            b3 == (x >> 24u64) as u8,
            b4 == (x >> 32u64) as u8,
            b5 == (x >> 40u64) as u8,
            b6 == (x >> 48u64) as u8,
            b7 == (x >> 56u64) as u8,
    ;
}

/// Reinterpreting an `i64` as `u64` and back is the identity.
pub proof fn lemma_i64_u64_roundtrip(v: i64)
    ensures
        (v as u64) as i64 == v,
{
    assert((v as u64) as i64 == v) by (bit_vector);
}

/// Reads the `u32` stored little-endian at `d[at..at + 4]`.
pub fn read_u32(d: &[u8], at: usize) -> (r: u32)
    requires
        at + 4 <= d@.len(),
    ensures
        r == u32_at(d@, at as int),
{
    let b0 = d[at];
    let b1 = d[at + 1];
    let b2 = d[at + 2];
    let b3 = d[at + 3];
    (b0 as u32) | ((b1 as u32) << 8u32) | ((b2 as u32) << 16u32) | ((b3 as u32) << 24u32)
}

/// Reads the `u64` stored little-endian at `d[at..at + 8]`.
pub fn read_u64(d: &[u8], at: usize) -> (r: u64)
    requires
        at + 8 <= d@.len(),
    ensures
        r == u64_at(d@, at as int),
{
    let b0 = d[at];
    let b1 = d[at + 1];
    let b2 = d[at + 2];
    let b3 = d[at + 3];
    let b4 = d[at + 4];
    let b5 = d[at + 5];
    let b6 = d[at + 6];
    let b7 = d[at + 7];
    (b0 as u64) | ((b1 as u64) << 8u64) | ((b2 as u64) << 16u64) | ((b3 as u64) << 24u64) | ((
    b4 as u64) << 32u64) | ((b5 as u64) << 40u64) | ((b6 as u64) << 48u64) | ((b7 as u64)
        << 56u64)
}

/// Appends the four little-endian bytes of `x` to `buf`.
pub fn push_u32(buf: &mut Vec<u8>, x: u32)
    ensures
        final(buf)@ == old(buf)@ + u32_le(x),
{
    buf.push(x as u8);
    buf.push((x >> 8u32) as u8);
    buf.push((x >> 16u32) as u8);
    buf.push((x >> 24u32) as u8);
    assert(buf@ =~= old(buf)@ + u32_le(x));
}

/// Appends the eight little-endian bytes of `x` to `buf`.
pub fn push_u64(buf: &mut Vec<u8>, x: u64)
    ensures
        final(buf)@ == old(buf)@ + u64_le(x),
{
    buf.push(x as u8);
    buf.push((x >> 8u64) as u8);
    buf.push((x >> 16u64) as u8);
    buf.push((x >> 24u64) as u8);
    buf.push((x >> 32u64) as u8);
    buf.push((x >> 40u64) as u8);
    buf.push((x >> 48u64) as u8);
    buf.push((x >> 56u64) as u8);
    assert(buf@ =~= old(buf)@ + u64_le(x));
}

/// The length field of the string whose tag is at `d[o]`.
pub open spec fn str_len_at(d: Seq<u8>, o: int) -> int {
    u32_at(d, o + 1) as int
}

/// The content bytes of the string whose tag is at `d[o]`.
pub open spec fn str_bytes_at(d: Seq<u8>, o: int) -> Seq<u8> {
    d.subrange(o + 5, o + 5 + str_len_at(d, o))
}

/// The length field and the content of the string at `d[o]` lie inside `d`,
/// and the content is valid UTF-8.
pub open spec fn string_body_ok(d: Seq<u8>, o: int) -> bool {
    &&& 0 <= o
    &&& o + 5 <= d.len()
    &&& o + 5 + str_len_at(d, o) <= d.len()
    &&& valid_utf8(str_bytes_at(d, o))
}

/// `a` sorts strictly before `b` in lexicographic byte order, the order of
/// `str` and `[u8]`: either `a` is a proper prefix of `b`, or at the first
/// position where they differ `a` holds the smaller byte.
pub open spec fn bytes_lt(a: Seq<u8>, b: Seq<u8>) -> bool {
    exists|k: int| #[trigger] first_difference(a, b, k) && (k == a.len() && k < b.len() || k < a.len() && k < b.len() && a[k] < b[k])
}

/// `a` and `b` agree on their first `k` bytes, and `k` is within both.
pub open spec fn first_difference(a: Seq<u8>, b: Seq<u8>, k: int) -> bool {
    &&& 0 <= k <= a.len()
    &&& k <= b.len()
    &&& forall|j: int| 0 <= j < k ==> a[j] == b[j]
}

/// The outcome of comparing two byte strings.
#[derive(Clone, Copy, PartialEq, Eq, Structural, Debug)]
pub enum ByteOrder {
    Less,
    Equal,
    Greater,
}

/// What `compare_bytes` answers for `a` and `b`.
pub open spec fn byte_order(a: Seq<u8>, b: Seq<u8>) -> ByteOrder {
    if bytes_lt(a, b) {
        ByteOrder::Less
    } else if a == b {
        ByteOrder::Equal
    } else {
        ByteOrder::Greater
    }
}

/// `compare_bytes` orders byte strings lexicographically: equal strings are
/// equal; a proper prefix comes first; otherwise the first byte at which the
/// two differ decides.
pub proof fn lemma_byte_order_lexicographic(a: Seq<u8>, b: Seq<u8>, k: int)
    ensures
        byte_order(a, a) == ByteOrder::Equal,
        a.len() < b.len() && a =~= b.take(a.len() as int) ==> byte_order(a, b) == ByteOrder::Less
            && byte_order(b, a) == ByteOrder::Greater,
        0 <= k < a.len() && k < b.len() && a.take(k) =~= b.take(k) && a[k] < b[k] ==> byte_order(a, b)
            == ByteOrder::Less && byte_order(b, a) == ByteOrder::Greater,
{
    lemma_bytes_lt_asymmetric(a, a);
    if a.len() < b.len() && a =~= b.take(a.len() as int) {
        let n = a.len() as int;
        assert forall|j: int| 0 <= j < n implies a[j] == b[j] by {
            assert(a[j] == b.take(n)[j]);
        }
        assert(first_difference(a, b, n));
        lemma_bytes_lt_asymmetric(a, b);
    }
    if 0 <= k < a.len() && k < b.len() && a.take(k) =~= b.take(k) && a[k] < b[k] {
        assert forall|j: int| 0 <= j < k implies a[j] == b[j] by {
            assert(a.take(k)[j] == b.take(k)[j]);
        }
        assert(first_difference(a, b, k));
        lemma_bytes_lt_asymmetric(a, b);
    }
}

/// At most one of `a < b`, `a == b`, `b < a` holds.
pub proof fn lemma_bytes_lt_asymmetric(a: Seq<u8>, b: Seq<u8>)
    ensures
        bytes_lt(a, b) ==> !bytes_lt(b, a) && a != b,
{
    if bytes_lt(a, b) {
        let k = choose|k: int| #[trigger] first_difference(a, b, k) && (k == a.len() && k < b.len() || k < a.len() && k < b.len() && a[k] < b[k]);
        if bytes_lt(b, a) {
            let m = choose|m: int| #[trigger] first_difference(b, a, m) && (m == b.len() && m < a.len() || m < b.len() && m < a.len() && b[m] < a[m]);
            if k < m {
                assert(a[k] == b[k]);
            } else if m < k {
                assert(a[m] == b[m]);
            }
        }
        if a == b {
            assert(a.len() == b.len());
        }
    }
}

/// If neither `a < b` nor `a == b`, then `b < a`.
pub proof fn lemma_bytes_lt_total(a: Seq<u8>, b: Seq<u8>)
    ensures
        bytes_lt(a, b) || a == b || bytes_lt(b, a),
{
    lemma_bytes_lt_total_from(a, b, 0);
}

proof fn lemma_bytes_lt_total_from(a: Seq<u8>, b: Seq<u8>, k: int)
    requires
        first_difference(a, b, k),
    ensures
        bytes_lt(a, b) || a == b || bytes_lt(b, a),
    decreases a.len() - k,
{
    assert(first_difference(b, a, k));
    if k == a.len() && k == b.len() {
        assert(a =~= b);
    } else if k < a.len() && k < b.len() && a[k] == b[k] {
        lemma_bytes_lt_total_from(a, b, k + 1);
    }
}

/// Lexicographic byte order is transitive.
pub proof fn lemma_bytes_lt_transitive(a: Seq<u8>, b: Seq<u8>, c: Seq<u8>)
    requires
        bytes_lt(a, b),
        bytes_lt(b, c),
    ensures
        bytes_lt(a, c),
{
    let k = choose|k: int| #[trigger] first_difference(a, b, k) && (k == a.len() && k < b.len() || k < a.len() && k < b.len() && a[k] < b[k]);
    let m = choose|m: int| #[trigger] first_difference(b, c, m) && (m == b.len() && m < c.len() || m < b.len() && m < c.len() && b[m] < c[m]);
    let w = if k <= m { k } else { m };
    assert(first_difference(a, c, w));
}

/// Compares `a` and `b` in lexicographic byte order.
pub fn compare_bytes(a: &[u8], b: &[u8]) -> (r: ByteOrder)
    ensures
        r == byte_order(a@, b@),
{
    let n = if a.len() <= b.len() { a.len() } else { b.len() };
    let mut i: usize = 0;
    while i < n
        invariant
            i <= n,
            n <= a@.len(),
            n <= b@.len(),
            n == a@.len() || n == b@.len(),
            forall|j: int| 0 <= j < i ==> a@[j] == b@[j],
        decreases n - i,
    {
        if a[i] != b[i] {
            assert(first_difference(a@, b@, i as int));
            assert(first_difference(b@, a@, i as int));
            proof {
                lemma_bytes_lt_asymmetric(a@, b@);
                lemma_bytes_lt_asymmetric(b@, a@);
            }
            if a[i] < b[i] {
                return ByteOrder::Less;
            } else {
                return ByteOrder::Greater;
            }
        }
        i = i + 1;
    }
    assert(first_difference(a@, b@, i as int));
    assert(first_difference(b@, a@, i as int));
    proof {
        lemma_bytes_lt_asymmetric(a@, b@);
        lemma_bytes_lt_asymmetric(b@, a@);
    }
    if a.len() < b.len() {
        ByteOrder::Less
    } else if a.len() == b.len() {
        assert(a@ =~= b@);
        ByteOrder::Equal
    } else {
        ByteOrder::Greater
    }
}

/// Calls `std::str::from_utf8` and keeps its success value. Claimed of it:
/// it succeeds exactly when the bytes are valid UTF-8 (as
/// `vstd::utf8::valid_utf8` defines validity), and the string it gives back
/// consists of exactly those bytes.
#[verifier::external_body]
pub(crate) fn str_from_utf8(bytes: &[u8]) -> (r: Option<&str>)
    ensures
        r is Some <==> valid_utf8(bytes@),
        r matches Some(s) ==> s.spec_bytes() == bytes@,
{
    std::str::from_utf8(bytes).ok()
}

/// Hands `v` to `std::hint::black_box`, so that the compiler keeps the work
/// that produced it. Nothing is claimed of it: it returns nothing.
#[verifier::external_body]
pub(crate) fn consume<T>(v: T) {
    std::hint::black_box(v);
}


/// The encoding of null.
pub open spec fn enc_null() -> Seq<u8> {
    seq![TAG_NULL]
}

/// The encoding of a boolean.
pub open spec fn enc_bool(v: bool) -> Seq<u8> {
    seq![if v { TAG_TRUE } else { TAG_FALSE }]
}

/// The encoding of a signed 64-bit integer: its two's complement bytes, little-endian.
pub open spec fn enc_i64(v: i64) -> Seq<u8> {
    seq![TAG_I64] + u64_le(v as u64)
}

/// The encoding of a 64-bit float given by its bit pattern.
pub open spec fn enc_f64_bits(bits: u64) -> Seq<u8> {
    seq![TAG_F64] + u64_le(bits)
}

/// The encoding of a string with content `s`; the length field holds
/// `s.len()` truncated to 32 bits.
pub open spec fn enc_string(s: Seq<u8>) -> Seq<u8> {
    seq![TAG_STRING] + u32_le(s.len() as u32) + s
}

/// The little-endian bytes of each `u32` of `s`, one after the other.
pub open spec fn u32s_le(s: Seq<u32>) -> Seq<u8>
    decreases s.len(),
{
    if s.len() == 0 {
        Seq::empty()
    } else {
        u32s_le(s.drop_last()) + u32_le(s.last())
    }
}

/// The little-endian bytes of each (key offset, value offset) pair of `s`, one after the other.
pub open spec fn pairs_le(s: Seq<(u32, u32)>) -> Seq<u8>
    decreases s.len(),
{
    if s.len() == 0 {
        Seq::empty()
    } else {
        pairs_le(s.drop_last()) + u32_le(s.last().0) + u32_le(s.last().1)
    }
}

/// The encoding of an array whose elements sit at `offs`; the count field
/// holds `offs.len()` truncated to 32 bits.
pub open spec fn enc_array(offs: Seq<u32>) -> Seq<u8> {
    seq![TAG_ARRAY] + u32_le(offs.len() as u32) + u32s_le(offs)
}

/// The encoding of a map with the (key offset, value offset) entries `es`,
/// in that order; the count field holds `es.len()` truncated to 32 bits.
pub open spec fn enc_map(es: Seq<(u32, u32)>) -> Seq<u8> {
    seq![TAG_MAP] + u32_le(es.len() as u32) + pairs_le(es)
}

/// `u32s_le(s)` holds `s[i]` at byte `4 * i`.
pub proof fn lemma_u32s_le(s: Seq<u32>)
    ensures
        u32s_le(s).len() == 4 * s.len(),
        forall|i: int| 0 <= i < s.len() ==> #[trigger] u32_at(u32s_le(s), 4 * i) == s[i],
    decreases s.len(),
{
    if s.len() > 0 {
        let p = s.drop_last();
        lemma_u32s_le(p);
        lemma_u32_le_roundtrip(s.last());
        let b = u32s_le(s);
        assert(b == u32s_le(p) + u32_le(s.last()));
        assert forall|i: int| 0 <= i < s.len() implies #[trigger] u32_at(u32s_le(s), 4 * i) == s[i] by {
            if i < p.len() {
                assert(u32_at(b, 4 * i) == u32_at(u32s_le(p), 4 * i));
                assert(p[i] == s[i]);
            } else {
                assert(u32_at(b, 4 * i) == u32_at(u32_le(s.last()), 0));
            }
        }
    }
}

/// `pairs_le(s)` holds `s[i].0` at byte `8 * i` and `s[i].1` at byte `8 * i + 4`.
pub proof fn lemma_pairs_le(s: Seq<(u32, u32)>)
    ensures
        pairs_le(s).len() == 8 * s.len(),
        forall|i: int|
            0 <= i < s.len() ==> #[trigger] u32_at(pairs_le(s), 8 * i) == s[i].0 && u32_at(
                pairs_le(s),
                8 * i + 4,
            ) == s[i].1,
    decreases s.len(),
{
    if s.len() > 0 {
        let p = s.drop_last();
        lemma_pairs_le(p);
        lemma_u32_le_roundtrip(s.last().0);
        lemma_u32_le_roundtrip(s.last().1);
        let b = pairs_le(s);
        let k = u32_le(s.last().0);
        let v = u32_le(s.last().1);
        assert(b == pairs_le(p) + k + v);
        assert forall|i: int| 0 <= i < s.len() implies #[trigger] u32_at(pairs_le(s), 8 * i)
            == s[i].0 && u32_at(pairs_le(s), 8 * i + 4) == s[i].1 by {
            if i < p.len() {
                assert(u32_at(b, 8 * i) == u32_at(pairs_le(p), 8 * i));
                assert(u32_at(b, 8 * i + 4) == u32_at(pairs_le(p), 8 * i + 4));
                assert(p[i] == s[i]);
            } else {
                assert(u32_at(b, 8 * i) == u32_at(k, 0));
                assert(u32_at(b, 8 * i + 4) == u32_at(v, 0));
            }
        }
    }
}

} // verus!
