//! Properties that relate the builder and the reader.

use vstd::prelude::*;
use vstd::string::StringSliceAdditionalSpecFns;
use vstd::utf8::{encode_utf8_decode_utf8, valid_utf8};
use crate::builder::{entry_key, insert_entry, key_ok, sort_entries};
use crate::format::{
    bytes_lt, enc_array, enc_bool, enc_f64_bits, enc_i64, enc_map, enc_null, enc_string,
    lemma_bytes_lt_asymmetric, lemma_bytes_lt_total, lemma_bytes_lt_transitive,
    lemma_i64_u64_roundtrip, lemma_pairs_le, lemma_u32_le_roundtrip, lemma_u32s_le,
    lemma_u64_le_roundtrip, pairs_le, str_bytes_at, string_body_ok, u32_at, u32_le, u32s_le, u64_at,
    u64_le, TAG_ARRAY, TAG_F64, TAG_I64, TAG_MAP, TAG_NULL, TAG_STRING,
};
use crate::json::{
    fields_depth, items_depth, json_depth, json_write, json_write_fields, json_write_items,
    json_heap, lemma_fields_extend, lemma_items_extend, lemma_json_write_extends, JsonValue,
};
use crate::builder::{lemma_enc_string_key, lemma_key_ok_extends, lemma_sort_entries_elems, lemma_sort_entries_len};
use crate::bulk::heap_walkable;
use crate::reader::{
    array_elem_at, array_len_at, bool_at, count_at, f64_bits_at, i64_at, in_heap, map_get_at,
    map_key_at, map_key_str, map_keys_sorted, map_len_at, map_scan, map_scan_ok, map_val_at, str_at,
    str_readable, walkable,
};

verus! {

/// The entries `s` are in non-decreasing order of the content of their key strings in `d`.
pub open spec fn entries_sorted(d: Seq<u8>, s: Seq<(u32, u32)>) -> bool {
    forall|i: int, j: int|
        0 <= i < j < s.len() ==> !bytes_lt(#[trigger] entry_key(d, s[j]), #[trigger] entry_key(d, s[i]))
}

/// The entries whose key string in `d` has content `w`.
pub open spec fn key_class(d: Seq<u8>, w: Seq<u8>) -> spec_fn((u32, u32)) -> bool {
    |e: (u32, u32)| entry_key(d, e) == w
}

/// Non-strict lexicographic order is transitive.
proof fn lemma_le_transitive(a: Seq<u8>, b: Seq<u8>, c: Seq<u8>)
    requires
        !bytes_lt(b, a),
        !bytes_lt(c, b),
    ensures
        !bytes_lt(c, a),
{
    lemma_bytes_lt_total(a, b);
    lemma_bytes_lt_total(b, c);
    if bytes_lt(c, a) {
        if bytes_lt(a, b) {
            lemma_bytes_lt_transitive(c, a, b);
        }
    }
}

/// Every entry after an insertion is the inserted one or one that was there before.
pub proof fn lemma_insert_entry_elems(d: Seq<u8>, s: Seq<(u32, u32)>, x: (u32, u32))
    ensures
        forall|i: int|
            0 <= i < insert_entry(d, s, x).len() ==> #[trigger] insert_entry(d, s, x)[i] == x
                || exists|j: int| 0 <= j < s.len() && insert_entry(d, s, x)[i] == s[j],
    decreases s.len(),
{
    crate::builder::lemma_insert_entry_len(d, s, x);
    let r = insert_entry(d, s, x);
    if s.len() == 0 || !bytes_lt(entry_key(d, x), entry_key(d, s.last())) {
        assert forall|i: int| 0 <= i < r.len() implies #[trigger] r[i] == x || exists|j: int| 0 <= j < s.len() && r[i] == s[j] by {
            if i < s.len() {
                assert(r[i] == s[i]);
            }
        }
    } else {
        let p = s.drop_last();
        lemma_insert_entry_elems(d, p, x);
        let q = insert_entry(d, p, x);
        assert forall|i: int| 0 <= i < r.len() implies #[trigger] r[i] == x || exists|j: int| 0 <= j < s.len() && r[i] == s[j] by {
            if i < q.len() {
                assert(r[i] == q[i]);
                if q[i] != x {
                    let j = choose|j: int| 0 <= j < p.len() && q[i] == p[j];
                    assert(s[j] == p[j]);
                }
            } else {
                assert(r[i] == s[s.len() - 1]);
            }
        }
    }
}

/// Inserting into sorted entries keeps them sorted.
proof fn lemma_insert_entry_sorted(d: Seq<u8>, s: Seq<(u32, u32)>, x: (u32, u32))
    requires
        entries_sorted(d, s),
    ensures
        entries_sorted(d, insert_entry(d, s, x)),
    decreases s.len(),
{
    crate::builder::lemma_insert_entry_len(d, s, x);
    let r = insert_entry(d, s, x);
    let kx = entry_key(d, x);
    if s.len() == 0 {
    } else if !bytes_lt(kx, entry_key(d, s.last())) {
        assert forall|i: int, j: int| 0 <= i < j < r.len() implies !bytes_lt(#[trigger] entry_key(d, r[j]), #[trigger] entry_key(d, r[i])) by {
            if j < s.len() {
                assert(r[i] == s[i] && r[j] == s[j]);
            } else {
                assert(r[i] == s[i]);
                assert(r[j] == x);
                if i < s.len() - 1 {
                    assert(!bytes_lt(entry_key(d, s[s.len() - 1]), entry_key(d, s[i])));
                    lemma_le_transitive(entry_key(d, s[i]), entry_key(d, s[s.len() - 1]), kx);
                }
            }
        }
    } else {
        let p = s.drop_last();
        let last = s.last();
        assert forall|i: int, j: int| 0 <= i < j < p.len() implies !bytes_lt(#[trigger] entry_key(d, p[j]), #[trigger] entry_key(d, p[i])) by {
            assert(p[i] == s[i] && p[j] == s[j]);
        }
        lemma_insert_entry_sorted(d, p, x);
        lemma_insert_entry_elems(d, p, x);
        crate::builder::lemma_insert_entry_len(d, p, x);
        let q = insert_entry(d, p, x);
        assert forall|i: int, j: int| 0 <= i < j < r.len() implies !bytes_lt(#[trigger] entry_key(d, r[j]), #[trigger] entry_key(d, r[i])) by {
            assert(r[i] == q[i]);
            if j < q.len() {
                assert(r[j] == q[j]);
            } else {
                assert(r[j] == last);
                if q[i] == x {
                    lemma_bytes_lt_asymmetric(kx, entry_key(d, last));
                } else {
                    let k = choose|k: int| 0 <= k < p.len() && q[i] == p[k];
                    assert(p[k] == s[k]);
                    assert(!bytes_lt(entry_key(d, s[s.len() - 1]), entry_key(d, s[k])));
                }
            }
        }
    }
}

/// Sorting entries orders them by the content of their key strings.
pub proof fn lemma_sort_entries_sorted(d: Seq<u8>, s: Seq<(u32, u32)>)
    ensures
        entries_sorted(d, sort_entries(d, s)),
    decreases s.len(),
{
    if s.len() > 0 {
        lemma_sort_entries_sorted(d, s.drop_last());
        lemma_insert_entry_sorted(d, sort_entries(d, s.drop_last()), s.last());
    }
}

/// Inserting `x` adds it at the end of its own key class and leaves every other class alone.
proof fn lemma_insert_entry_filter(d: Seq<u8>, s: Seq<(u32, u32)>, x: (u32, u32), w: Seq<u8>)
    ensures
        insert_entry(d, s, x).filter(key_class(d, w)) == if entry_key(d, x) == w {
            s.filter(key_class(d, w)).push(x)
        } else {
            s.filter(key_class(d, w))
        },
    decreases s.len(),
{
    reveal(Seq::filter);
    let f = key_class(d, w);
    let kx = entry_key(d, x);
    assert(f(x) == (kx == w));
    if s.len() == 0 || !bytes_lt(kx, entry_key(d, s.last())) {
        let r = s.push(x);
        assert(r.drop_last() =~= s);
        assert(r.last() == x);
        assert(r.filter(f) == if f(x) { s.filter(f).push(x) } else { s.filter(f) });
    } else {
        let p = s.drop_last();
        let last = s.last();
        lemma_insert_entry_filter(d, p, x, w);
        let q = insert_entry(d, p, x);
        let r = q.push(last);
        assert(r.drop_last() =~= q);
        assert(r.last() == last);
        assert(r.filter(f) == if f(last) { q.filter(f).push(last) } else { q.filter(f) });
        assert(s.filter(f) == if f(last) { p.filter(f).push(last) } else { p.filter(f) });
        assert(f(last) == (entry_key(d, last) == w));
        if kx == w {
            lemma_bytes_lt_asymmetric(kx, entry_key(d, last));
        }
    }
}

/// Sorting keeps, for every key, the entries with that key in the order they were given.
pub proof fn lemma_sort_entries_stable(d: Seq<u8>, s: Seq<(u32, u32)>, w: Seq<u8>)
    ensures
        sort_entries(d, s).filter(key_class(d, w)) == s.filter(key_class(d, w)),
    decreases s.len(),
{
    if s.len() > 0 {
        reveal(Seq::filter);
        let p = s.drop_last();
        let f = key_class(d, w);
        lemma_sort_entries_stable(d, p, w);
        lemma_insert_entry_filter(d, sort_entries(d, p), s.last(), w);
        assert(f(s.last()) == (entry_key(d, s.last()) == w));
        assert(s.filter(f) == if f(s.last()) { p.filter(f).push(s.last()) } else { p.filter(f) });
    }
}


/// Entries that are sorted and agree, key by key, on the entries with that
/// key (in order) are the same entries.
pub proof fn lemma_sorted_unique(d: Seq<u8>, r1: Seq<(u32, u32)>, r2: Seq<(u32, u32)>)
    requires
        entries_sorted(d, r1),
        entries_sorted(d, r2),
        forall|w: Seq<u8>| #[trigger] r1.filter(key_class(d, w)) == r2.filter(key_class(d, w)),
    ensures
        r1 == r2,
    decreases r1.len() + r2.len(),
{
    reveal(Seq::filter);
    if r1.len() == 0 && r2.len() == 0 {
        assert(r1 =~= r2);
    } else if r1.len() == 0 {
        let b = r2.last();
        let f = key_class(d, entry_key(d, b));
        assert(f(b));
        assert(r2.filter(f) == r1.filter(f));
        assert(r2.filter(f).len() > 0);
    } else if r2.len() == 0 {
        let a = r1.last();
        let f = key_class(d, entry_key(d, a));
        assert(f(a));
        assert(r1.filter(f) == r2.filter(f));
        assert(r1.filter(f).len() > 0);
    } else {
        let a = r1.last();
        let b = r2.last();
        let ka = entry_key(d, a);
        let kb = entry_key(d, b);
        let fa = key_class(d, ka);
        let fb = key_class(d, kb);
        assert(fa(a));
        assert(fb(b));
        assert(r1.filter(fa) == r1.drop_last().filter(fa).push(a));
        assert(r2.filter(fb) == r2.drop_last().filter(fb).push(b));
        assert(r1.filter(fa) == r2.filter(fa));
        assert(r1.filter(fb) == r2.filter(fb));
        // a occurs in r2, so its key is at most the last key of r2, and symmetrically.
        assert(r2.filter(fa).contains(a)) by {
            assert(r2.filter(fa)[r2.filter(fa).len() - 1] == a);
        }
        r2.lemma_filter_contains_rev(fa, a);
        let j = choose|j: int| 0 <= j < r2.len() && r2[j] == a;
        if j < r2.len() - 1 {
            assert(!bytes_lt(entry_key(d, r2[r2.len() - 1]), entry_key(d, r2[j])));
        }
        assert(r1.filter(fb).contains(b)) by {
            assert(r1.filter(fb)[r1.filter(fb).len() - 1] == b);
        }
        r1.lemma_filter_contains_rev(fb, b);
        let k = choose|k: int| 0 <= k < r1.len() && r1[k] == b;
        if k < r1.len() - 1 {
            assert(!bytes_lt(entry_key(d, r1[r1.len() - 1]), entry_key(d, r1[k])));
        }
        lemma_bytes_lt_total(ka, kb);
        assert(ka == kb);
        assert(fa == fb);
        assert(r1.filter(fa).last() == a);
        assert(r2.filter(fb).last() == b);
        assert(a == b);
        let p1 = r1.drop_last();
        let p2 = r2.drop_last();
        assert forall|i: int, j: int| 0 <= i < j < p1.len() implies !bytes_lt(#[trigger] entry_key(d, p1[j]), #[trigger] entry_key(d, p1[i])) by {
            assert(p1[i] == r1[i] && p1[j] == r1[j]);
        }
        assert forall|i: int, j: int| 0 <= i < j < p2.len() implies !bytes_lt(#[trigger] entry_key(d, p2[j]), #[trigger] entry_key(d, p2[i])) by {
            assert(p2[i] == r2[i] && p2[j] == r2[j]);
        }
        assert forall|w: Seq<u8>| #[trigger] p1.filter(key_class(d, w)) == p2.filter(key_class(d, w)) by {
            let f = key_class(d, w);
            assert(r1.filter(f) == r2.filter(f));
            assert(f(a) == (ka == w));
            if ka == w {
                assert(r1.filter(f) == p1.filter(f).push(a));
                assert(r2.filter(f) == p2.filter(f).push(b));
                assert(p1.filter(f) =~= r1.filter(f).drop_last());
                assert(p2.filter(f) =~= r2.filter(f).drop_last());
            } else {
                assert(r1.filter(f) == p1.filter(f));
                assert(r2.filter(f) == p2.filter(f));
            }
        }
        lemma_sorted_unique(d, p1, p2);
        assert(r1 =~= p1.push(a));
        assert(r2 =~= p2.push(b));
    }
}

/// Sorting gives a canonical order: entries that agree, key by key, on the
/// entries with that key (in order) sort to the same sequence. In
/// particular the order in which entries with distinct keys are given does
/// not matter.
pub proof fn lemma_sort_entries_canonical(d: Seq<u8>, s1: Seq<(u32, u32)>, s2: Seq<(u32, u32)>)
    requires
        forall|w: Seq<u8>| #[trigger] s1.filter(key_class(d, w)) == s2.filter(key_class(d, w)),
    ensures
        sort_entries(d, s1) == sort_entries(d, s2),
{
    lemma_sort_entries_sorted(d, s1);
    lemma_sort_entries_sorted(d, s2);
    assert forall|w: Seq<u8>| #[trigger] sort_entries(d, s1).filter(key_class(d, w)) == sort_entries(d, s2).filter(key_class(d, w)) by {
        lemma_sort_entries_stable(d, s1, w);
        lemma_sort_entries_stable(d, s2, w);
        assert(s1.filter(key_class(d, w)) == s2.filter(key_class(d, w)));
    }
    lemma_sorted_unique(d, sort_entries(d, s1), sort_entries(d, s2));
}

/// The bytes `e` sit in `d` at offset `o`.
pub open spec fn holds_at(d: Seq<u8>, o: int, e: Seq<u8>) -> bool {
    &&& 0 <= o
    &&& o + e.len() <= d.len()
    &&& d.subrange(o, o + e.len()) == e
}

/// A `u32` read inside a region is the `u32` read from the region itself.
proof fn lemma_u32_in(d: Seq<u8>, o: int, e: Seq<u8>, at: int)
    requires
        holds_at(d, o, e),
        0 <= at,
        at + 4 <= e.len(),
    ensures
        u32_at(d, o + at) == u32_at(e, at),
{
    assert(d[o + at] == e[at]);
    assert(d[o + at + 1] == e[at + 1]);
    assert(d[o + at + 2] == e[at + 2]);
    assert(d[o + at + 3] == e[at + 3]);
}

/// A `u64` read inside a region is the `u64` read from the region itself.
proof fn lemma_u64_in(d: Seq<u8>, o: int, e: Seq<u8>, at: int)
    requires
        holds_at(d, o, e),
        0 <= at,
        at + 8 <= e.len(),
    ensures
        u64_at(d, o + at) == u64_at(e, at),
{
    assert(d[o + at] == e[at]);
    assert(d[o + at + 1] == e[at + 1]);
    assert(d[o + at + 2] == e[at + 2]);
    assert(d[o + at + 3] == e[at + 3]);
    assert(d[o + at + 4] == e[at + 4]);
    assert(d[o + at + 5] == e[at + 5]);
    assert(d[o + at + 6] == e[at + 6]);
    assert(d[o + at + 7] == e[at + 7]);
}

/// Bytes written stay in place when more bytes are appended.
pub proof fn lemma_holds_at_extends(d: Seq<u8>, r: Seq<u8>, o: int, e: Seq<u8>)
    requires
        holds_at(d, o, e),
        d.is_prefix_of(r),
    ensures
        holds_at(r, o, e),
{
    assert(r.subrange(o, o + e.len()) =~= d.subrange(o, o + e.len()));
}

/// The heap bytes `finish` gives for the built bytes `b` and the root offset `root`.
pub open spec fn finished(b: Seq<u8>, root: u32) -> Seq<u8> {
    u32_le(root) + b.skip(4)
}

/// After `finish`, the header holds the root offset and every byte after the
/// header is the one that was built.
pub proof fn lemma_finish_root(b: Seq<u8>, root: u32)
    requires
        b.len() >= 4,
    ensures
        finished(b, root).len() == b.len(),
        u32_at(finished(b, root), 0) == root,
        forall|j: int| 4 <= j < b.len() ==> #[trigger] finished(b, root)[j] == b[j],
{
    lemma_u32_le_roundtrip(root);
    let f = finished(b, root);
    assert(f[0] == u32_le(root)[0] && f[1] == u32_le(root)[1] && f[2] == u32_le(root)[2] && f[3] == u32_le(root)[3]);
}

/// A value written after the header is still in place after `finish`.
pub proof fn lemma_finish_keeps(b: Seq<u8>, root: u32, o: int, e: Seq<u8>)
    requires
        b.len() >= 4,
        o >= 4,
        holds_at(b, o, e),
    ensures
        holds_at(finished(b, root), o, e),
{
    lemma_finish_root(b, root);
    assert(finished(b, root).subrange(o, o + e.len()) =~= b.subrange(o, o + e.len()));
}

/// Null reads back as null.
pub proof fn lemma_read_null(d: Seq<u8>, o: int)
    requires
        holds_at(d, o, enc_null()),
    ensures
        in_heap(d, o),
        d[o] == TAG_NULL,
        bool_at(d, o) is None,
        walkable(d, o, 1),
{
    assert(d[o] == enc_null()[0]);
}

/// A boolean reads back as itself.
pub proof fn lemma_read_bool(d: Seq<u8>, o: int, v: bool)
    requires
        holds_at(d, o, enc_bool(v)),
    ensures
        in_heap(d, o),
        bool_at(d, o) == Some(v),
        walkable(d, o, 1),
{
    assert(d[o] == enc_bool(v)[0]);
}

/// An integer reads back as itself.
pub proof fn lemma_read_i64(d: Seq<u8>, o: int, v: i64)
    requires
        holds_at(d, o, enc_i64(v)),
    ensures
        in_heap(d, o),
        o + 9 <= d.len(),
        i64_at(d, o) == Some(v),
        walkable(d, o, 1),
{
    let e = enc_i64(v);
    lemma_u64_le_roundtrip(v as u64);
    lemma_i64_u64_roundtrip(v);
    assert(d[o] == e[0]);
    lemma_u64_in(d, o, e, 1);
    assert(e.subrange(1, 9) =~= u64_le(v as u64));
    assert(u64_at(e, 1) == u64_at(u64_le(v as u64), 0));
}

/// Float bits read back as themselves.
pub proof fn lemma_read_f64_bits(d: Seq<u8>, o: int, bits: u64)
    requires
        holds_at(d, o, enc_f64_bits(bits)),
    ensures
        in_heap(d, o),
        o + 9 <= d.len(),
        f64_bits_at(d, o) == Some(bits),
        walkable(d, o, 1),
{
    let e = enc_f64_bits(bits);
    lemma_u64_le_roundtrip(bits);
    assert(d[o] == e[0]);
    lemma_u64_in(d, o, e, 1);
    assert(u64_at(e, 1) == u64_at(u64_le(bits), 0));
}

/// A string whose length fits 32 bits reads back with the same content; if
/// that content is valid UTF-8, the string is readable and walkable.
pub proof fn lemma_read_string(d: Seq<u8>, o: int, bytes: Seq<u8>)
    requires
        holds_at(d, o, enc_string(bytes)),
        bytes.len() <= u32::MAX,
    ensures
        in_heap(d, o),
        str_at(d, o) == Some(bytes),
        valid_utf8(bytes) ==> str_readable(d, o) && walkable(d, o, 1),
{
    let e = enc_string(bytes);
    lemma_u32_le_roundtrip(bytes.len() as u32);
    assert(d[o] == e[0]);
    lemma_u32_in(d, o, e, 1);
    assert(u32_at(e, 1) == u32_at(u32_le(bytes.len() as u32), 0));
    assert(str_bytes_at(d, o) =~= bytes) by {
        assert forall|j: int| 0 <= j < bytes.len() implies str_bytes_at(d, o)[j] == bytes[j] by {
            assert(d[o + 5 + j] == e[5 + j]);
        }
    }
}

/// Two strings with the same bytes have the same characters.
pub proof fn lemma_same_bytes_same_chars(a: &str, b: &str)
    requires
        a.spec_bytes() == b.spec_bytes(),
    ensures
        a@ == b@,
{
    vstd::utf8::encode_utf8_decode_utf8(a@);
    vstd::utf8::encode_utf8_decode_utf8(b@);
}

/// An array with fewer than 2^32 elements reads back with its count and its element offsets.
pub proof fn lemma_read_array(d: Seq<u8>, o: int, offs: Seq<u32>)
    requires
        holds_at(d, o, enc_array(offs)),
        offs.len() <= u32::MAX,
    ensures
        in_heap(d, o),
        d[o] == TAG_ARRAY,
        array_len_at(d, o) == Some(offs.len() as usize),
        count_at(d, o) == offs.len(),
        o + 5 + 4 * offs.len() <= d.len(),
        forall|i: int| 0 <= i < offs.len() ==> #[trigger] array_elem_at(d, o, i) == offs[i],
{
    let e = enc_array(offs);
    lemma_u32_le_roundtrip(offs.len() as u32);
    lemma_u32s_le(offs);
    assert(d[o] == e[0]);
    lemma_u32_in(d, o, e, 1);
    assert(u32_at(e, 1) == u32_at(u32_le(offs.len() as u32), 0));
    assert forall|i: int| 0 <= i < offs.len() implies #[trigger] array_elem_at(d, o, i) == offs[i] by {
        lemma_u32_in(d, o, e, 5 + 4 * i);
        assert(u32_at(e, 5 + 4 * i) == u32_at(u32s_le(offs), 4 * i));
    }
}

/// A map with fewer than 2^32 entries reads back with its count and its entries.
pub proof fn lemma_read_map(d: Seq<u8>, o: int, es: Seq<(u32, u32)>)
    requires
        holds_at(d, o, enc_map(es)),
        es.len() <= u32::MAX,
    ensures
        in_heap(d, o),
        d[o] == TAG_MAP,
        map_len_at(d, o) == Some(es.len() as usize),
        count_at(d, o) == es.len(),
        o + 5 + 8 * es.len() <= d.len(),
        forall|i: int| 0 <= i < es.len() ==> #[trigger] map_key_at(d, o, i) == es[i].0,
        forall|i: int| 0 <= i < es.len() ==> #[trigger] map_val_at(d, o, i) == es[i].1,
{
    let e = enc_map(es);
    lemma_u32_le_roundtrip(es.len() as u32);
    lemma_pairs_le(es);
    assert(d[o] == e[0]);
    lemma_u32_in(d, o, e, 1);
    assert(u32_at(e, 1) == u32_at(u32_le(es.len() as u32), 0));
    assert forall|i: int| 0 <= i < es.len() implies #[trigger] map_key_at(d, o, i) == es[i].0 by {
        lemma_u32_in(d, o, e, 5 + 8 * i);
        assert(u32_at(e, 5 + 8 * i) == u32_at(pairs_le(es), 8 * i));
    }
    assert forall|i: int| 0 <= i < es.len() implies #[trigger] map_val_at(d, o, i) == es[i].1 by {
        lemma_u32_in(d, o, e, 9 + 8 * i);
        assert(u32_at(pairs_le(es), 8 * i) == es[i].0);
        assert(u32_at(e, 9 + 8 * i) == u32_at(pairs_le(es), 8 * i + 4));
    }
}

/// The value offset of the first of the entries `i..` whose key string in `d` has content `key`.
pub open spec fn find_entry(d: Seq<u8>, es: Seq<(u32, u32)>, key: Seq<u8>, i: int) -> Option<int>
    decreases es.len() - i,
{
    if i < 0 || i >= es.len() {
        None
    } else if entry_key(d, es[i]) == key {
        Some(es[i].1 as int)
    } else {
        find_entry(d, es, key, i + 1)
    }
}

/// No entry from `i` on has key `key` when the key of entry `i` already sorts after it.
proof fn lemma_find_entry_past(d: Seq<u8>, es: Seq<(u32, u32)>, key: Seq<u8>, i: int, j: int)
    requires
        entries_sorted(d, es),
        0 <= i <= j,
        i < es.len(),
        bytes_lt(key, entry_key(d, es[i])),
    ensures
        find_entry(d, es, key, j) is None,
    decreases es.len() - j,
{
    if j < es.len() {
        let ki = entry_key(d, es[i]);
        let kj = entry_key(d, es[j]);
        if i < j {
            assert(!bytes_lt(kj, ki));
            lemma_bytes_lt_total(ki, kj);
            if bytes_lt(ki, kj) {
                lemma_bytes_lt_transitive(key, ki, kj);
            }
        }
        lemma_bytes_lt_asymmetric(key, kj);
        lemma_find_entry_past(d, es, key, i, j + 1);
    }
}

/// The scan from entry `i` on agrees with `find_entry` and stays inside the heap.
proof fn lemma_map_scan_from(d: Seq<u8>, o: int, es: Seq<(u32, u32)>, key: Seq<u8>, i: int)
    requires
        holds_at(d, o, enc_map(es)),
        es.len() <= u32::MAX,
        forall|k: int| 0 <= k < es.len() ==> key_ok(d, #[trigger] es[k].0),
        entries_sorted(d, es),
        0 <= i <= es.len(),
    ensures
        map_scan_ok(d, o, key, i),
        map_scan(d, o, key, i) == find_entry(d, es, key, i),
    decreases es.len() - i,
{
    lemma_read_map(d, o, es);
    if i < es.len() {
        let ko = map_key_at(d, o, i);
        assert(ko == es[i].0);
        assert(key_ok(d, es[i].0));
        assert(str_at(d, ko) == Some(entry_key(d, es[i])));
        lemma_map_scan_from(d, o, es, key, i + 1);
        if entry_key(d, es[i]) != key && bytes_lt(key, entry_key(d, es[i])) {
            lemma_find_entry_past(d, es, key, i, i);
        }
    }
}

/// Looking up a key in a map whose entries are sorted and whose keys are
/// readable strings never leaves the heap, and finds the value of the first
/// entry with that key, or nothing if no entry has it.
pub proof fn lemma_map_lookup(d: Seq<u8>, o: int, es: Seq<(u32, u32)>, key: Seq<u8>)
    requires
        holds_at(d, o, enc_map(es)),
        es.len() <= u32::MAX,
        forall|k: int| 0 <= k < es.len() ==> key_ok(d, #[trigger] es[k].0),
        entries_sorted(d, es),
    ensures
        in_heap(d, o),
        o + 5 <= d.len(),
        map_scan_ok(d, o, key, 0),
        map_get_at(d, o, key) == find_entry(d, es, key, 0),
{
    lemma_read_map(d, o, es);
    lemma_map_scan_from(d, o, es, key, 0);
}


/// A map stored with entries sorted by their key strings, each a readable
/// string, has its keys sorted as the reader sees them: so `map_get` finds
/// the first entry with the key it looks for, or nothing when none has it.
pub proof fn lemma_stored_map_sorted(d: Seq<u8>, o: int, es: Seq<(u32, u32)>)
    requires
        holds_at(d, o, enc_map(es)),
        es.len() <= u32::MAX,
        forall|k: int| 0 <= k < es.len() ==> key_ok(d, #[trigger] es[k].0),
        entries_sorted(d, es),
    ensures
        map_keys_sorted(d, o),
{
    lemma_read_map(d, o, es);
    assert forall|i: int| 0 <= i < count_at(d, o) implies (#[trigger] str_at(d, map_key_at(d, o, i))) == Some(
        entry_key(d, es[i]),
    ) by {
        assert(map_key_at(d, o, i) == es[i].0);
        assert(key_ok(d, es[i].0));
    }
    assert forall|i: int, j: int| 0 <= i < j < count_at(d, o) implies !bytes_lt(
        #[trigger] map_key_str(d, o, j),
        #[trigger] map_key_str(d, o, i),
    ) by {
        assert(str_at(d, map_key_at(d, o, i)) == Some(entry_key(d, es[i])));
        assert(str_at(d, map_key_at(d, o, j)) == Some(entry_key(d, es[j])));
    }
}

/// A walk that succeeds within `f` levels also succeeds within any larger bound.
pub proof fn lemma_walkable_mono(d: Seq<u8>, o: int, f: nat, g: nat)
    requires
        walkable(d, o, f),
        f <= g,
    ensures
        walkable(d, o, g),
    decreases f,
{
    let t = d[o];
    if t == TAG_ARRAY {
        assert forall|i: int| 0 <= i < count_at(d, o) implies walkable(d, #[trigger] array_elem_at(d, o, i), (g - 1) as nat) by {
            lemma_walkable_mono(d, array_elem_at(d, o, i), (f - 1) as nat, (g - 1) as nat);
        }
    } else if t == TAG_MAP {
        assert forall|i: int| 0 <= i < count_at(d, o) implies walkable(d, #[trigger] map_key_at(d, o, i), (g - 1) as nat)
            && walkable(d, map_val_at(d, o, i), (g - 1) as nat) by {
            lemma_walkable_mono(d, map_key_at(d, o, i), (f - 1) as nat, (g - 1) as nat);
            lemma_walkable_mono(d, map_val_at(d, o, i), (f - 1) as nat, (g - 1) as nat);
        }
    }
}


/// `d` agrees with `r` at every position from `lo` up to the end of `r`.
pub open spec fn agrees_from(d: Seq<u8>, r: Seq<u8>, lo: int) -> bool {
    &&& r.len() <= d.len()
    &&& forall|j: int| lo <= j < r.len() ==> d[j] == r[j]
}

/// Bytes appended to `b` sit in any `d` that agrees with the result from `b.len()` on.
proof fn lemma_appended_holds(d: Seq<u8>, b: Seq<u8>, e: Seq<u8>)
    requires
        agrees_from(d, b + e, b.len() as int),
    ensures
        holds_at(d, b.len() as int, e),
{
    assert forall|k: int| 0 <= k < e.len() implies d.subrange(b.len() as int, (b.len() + e.len()) as int)[k] == e[k] by {
        assert(d[b.len() + k] == (b + e)[b.len() + k]);
    }
    assert(d.subrange(b.len() as int, (b.len() + e.len()) as int) =~= e);
}

/// A JSON value written onto `b` can be walked, within its depth, in any heap
/// that agrees with the written bytes from `b.len()` on, as long as the
/// written heap stays addressable by 32-bit offsets.
#[verifier::spinoff_prover]
pub proof fn lemma_json_walkable(b: Seq<u8>, v: JsonValue, d: Seq<u8>)
    requires
        json_write(b, v).0.len() <= u32::MAX,
        agrees_from(d, json_write(b, v).0, b.len() as int),
    ensures
        walkable(d, json_write(b, v).1 as int, json_depth(v)),
    decreases v,
{
    lemma_json_write_extends(b, v);
    let o = b.len() as int;
    match v {
        JsonValue::Null => {
            lemma_appended_holds(d, b, enc_null());
            lemma_read_null(d, o);
        },
        JsonValue::Bool(x) => {
            lemma_appended_holds(d, b, enc_bool(x));
            lemma_read_bool(d, o, x);
        },
        JsonValue::Int(x) => {
            lemma_appended_holds(d, b, enc_i64(x));
            lemma_read_i64(d, o, x);
        },
        JsonValue::Float(bits) => {
            lemma_appended_holds(d, b, enc_f64_bits(bits));
            lemma_read_f64_bits(d, o, bits);
        },
        JsonValue::Str(st) => {
            let bytes = vstd::utf8::encode_utf8(st@);
            vstd::utf8::encode_utf8_valid_utf8(st@);
            lemma_appended_holds(d, b, enc_string(bytes));
            lemma_read_string(d, o, bytes);
        },
        JsonValue::Array(items) => {
            let (b1, offs) = json_write_items(b, items@);
            lemma_items_extend(b, items@);
            assert(agrees_from(d, b1, b.len() as int));
            lemma_items_walkable(b, items@, d);
            lemma_u32s_le(offs);
            lemma_appended_holds(d, b1, enc_array(offs));
            lemma_read_array(d, b1.len() as int, offs);
        },
        JsonValue::Object(fields) => {
            let (b1, es) = json_write_fields(b, fields@);
            lemma_fields_extend(b, fields@);
            assert(agrees_from(d, b1, b.len() as int));
            lemma_fields_walkable(b, fields@, d);
            let sorted = crate::builder::sort_entries(b1, es);
            lemma_sort_entries_len(b1, es);
            lemma_sort_entries_elems(b1, es);
            lemma_pairs_le(sorted);
            lemma_appended_holds(d, b1, enc_map(sorted));
            let m = b1.len() as int;
            lemma_read_map(d, m, sorted);
            let f = fields_depth(fields@);
            assert forall|i: int| 0 <= i < count_at(d, m) implies walkable(d, #[trigger] map_key_at(d, m, i), f)
                && walkable(d, map_val_at(d, m, i), f) by {
                assert(map_key_at(d, m, i) == sorted[i].0);
                assert(map_val_at(d, m, i) == sorted[i].1);
                let j = choose|j: int| 0 <= j < es.len() && sorted[i] == es[j];
                assert(walkable(d, es[j].0 as int, f));
            }
        },
    }
}

/// Every value in a run written onto `b` can be walked within the run's depth.
pub proof fn lemma_items_walkable(b: Seq<u8>, items: Seq<JsonValue>, d: Seq<u8>)
    requires
        json_write_items(b, items).0.len() <= u32::MAX,
        agrees_from(d, json_write_items(b, items).0, b.len() as int),
    ensures
        forall|i: int|
            0 <= i < items.len() ==> walkable(d, #[trigger] json_write_items(b, items).1[i] as int, items_depth(items)),
    decreases items,
{
    lemma_items_extend(b, items);
    if items.len() > 0 {
        let p = items.drop_last();
        let (b1, offs) = json_write_items(b, p);
        lemma_items_extend(b, p);
        lemma_json_write_extends(b1, items.last());
        let all = json_write_items(b, items).1;
        assert(agrees_from(d, b1, b.len() as int));
        lemma_items_walkable(b, p, d);
        lemma_json_walkable(b1, items.last(), d);
        assert forall|i: int| 0 <= i < items.len() implies walkable(d, #[trigger] all[i] as int, items_depth(items)) by {
            if i < p.len() {
                assert(all[i] == offs[i]);
                lemma_walkable_mono(d, offs[i] as int, items_depth(p), items_depth(items));
            } else {
                lemma_walkable_mono(d, all[i] as int, json_depth(items.last()), items_depth(items));
            }
        }
    }
}

/// Every key and every value of the fields written onto `b` can be walked
/// within the fields' depth, and every key is a readable string.
pub proof fn lemma_fields_walkable(b: Seq<u8>, fields: Seq<(String, JsonValue)>, d: Seq<u8>)
    requires
        json_write_fields(b, fields).0.len() <= u32::MAX,
        agrees_from(d, json_write_fields(b, fields).0, b.len() as int),
    ensures
        forall|j: int|
            0 <= j < fields.len() ==> walkable(d, #[trigger] json_write_fields(b, fields).1[j].0 as int, fields_depth(fields))
                && walkable(d, json_write_fields(b, fields).1[j].1 as int, fields_depth(fields)),
    decreases fields,
{
    lemma_fields_extend(b, fields);
    if fields.len() > 0 {
        let p = fields.drop_last();
        let last = fields.last();
        let (b1, es) = json_write_fields(b, p);
        let bytes = vstd::utf8::encode_utf8(last.0@);
        let b2 = b1 + enc_string(bytes);
        let (b3, vo) = json_write(b2, last.1);
        let all = json_write_fields(b, fields).1;
        assert(json_write_fields(b, fields).0 == b3);
        assert(all == es.push((b1.len() as u32, vo)));
        lemma_fields_extend(b, p);
        lemma_json_write_extends(b2, last.1);
        assert(b3.len() <= u32::MAX);
        assert forall|j: int| 0 <= j < b2.len() implies b3[j] == b2[j] by {
            assert(b3.subrange(0, b2.len() as int)[j] == b3[j]);
        }
        assert(agrees_from(d, b1, b.len() as int)) by {
            assert forall|j: int| b.len() <= j < b1.len() implies d[j] == b1[j] by {
                assert(b2[j] == b1[j]);
            }
        }
        lemma_fields_walkable(b, p, d);
        assert(walkable(d, b1.len() as int, 1)) by {
            vstd::utf8::encode_utf8_valid_utf8(last.0@);
            assert(agrees_from(d, b2, b1.len() as int));
            lemma_appended_holds(d, b1, enc_string(bytes));
            lemma_read_string(d, b1.len() as int, bytes);
        }
        assert(walkable(d, vo as int, json_depth(last.1))) by {
            assert(agrees_from(d, b3, b2.len() as int));
            lemma_json_walkable(b2, last.1, d);
        }
        let fd = fields_depth(fields);
        assert forall|j: int| 0 <= j < fields.len() implies walkable(d, #[trigger] all[j].0 as int, fd)
            && walkable(d, all[j].1 as int, fd) by {
            if j < p.len() {
                assert(all[j] == es[j]);
                lemma_walkable_mono(d, es[j].0 as int, fields_depth(p), fd);
                lemma_walkable_mono(d, es[j].1 as int, fields_depth(p), fd);
            } else {
                assert(all[j] == (b1.len() as u32, vo));
                lemma_walkable_mono(d, b1.len() as int, 1, fd);
                lemma_walkable_mono(d, vo as int, json_depth(last.1), fd);
            }
        }
    }
}


/// A JSON document written into a fresh heap, and finished with its offset
/// as the root, can be walked from the root to its end, and the root reads
/// back as the document.
pub proof fn lemma_document_roundtrip(v: JsonValue)
    requires
        json_write(seq![0u8, 0u8, 0u8, 0u8], v).0.len() <= u32::MAX,
    ensures
        ({
            let (r, off) = json_write(seq![0u8, 0u8, 0u8, 0u8], v);
            let f = finished(r, off);
            &&& heap_walkable(f)
            &&& u32_at(f, 0) == off
            &&& reads_as(f, off as int, v)
        }),
{
    let h = seq![0u8, 0u8, 0u8, 0u8];
    let (r, off) = json_write(h, v);
    lemma_json_write_extends(h, v);
    lemma_finish_root(r, off);
    let f = finished(r, off);
    assert(agrees_from(f, r, 4));
    lemma_json_walkable(h, v, f);
    lemma_json_reads(h, v, f);
    assert(walkable(f, u32_at(f, 0) as int, json_depth(v)));
}


/// The heap that `heap_from_json` builds for a document points, by its
/// header, at the offset where the document was written; from there it reads
/// back as the document and can be walked to its end.
pub proof fn lemma_json_heap_reads(v: JsonValue)
    requires
        json_write(seq![0u8, 0u8, 0u8, 0u8], v).0.len() <= u32::MAX,
    ensures
        json_heap(v).len() == json_write(seq![0u8, 0u8, 0u8, 0u8], v).0.len(),
        u32_at(json_heap(v), 0) == json_write(seq![0u8, 0u8, 0u8, 0u8], v).1,
        reads_as(json_heap(v), u32_at(json_heap(v), 0) as int, v),
        heap_walkable(json_heap(v)),
{
    let (r, off) = json_write(seq![0u8, 0u8, 0u8, 0u8], v);
    lemma_json_write_extends(seq![0u8, 0u8, 0u8, 0u8], v);
    lemma_finish_root(r, off);
    lemma_document_roundtrip(v);
}

/// The value offset of the first entry of `t`, if any.
pub open spec fn first_value(t: Seq<(u32, u32)>) -> Option<int> {
    if t.len() == 0 {
        None
    } else {
        Some(t[0].1 as int)
    }
}

/// Searching the entries from the front finds the last entry when no earlier one matches.
proof fn lemma_find_entry_drop_last(d: Seq<u8>, s: Seq<(u32, u32)>, key: Seq<u8>, i: int)
    requires
        s.len() > 0,
        0 <= i <= s.len() - 1,
    ensures
        find_entry(d, s, key, i) == match find_entry(d, s.drop_last(), key, i) {
            Some(v) => Some(v),
            None => if entry_key(d, s.last()) == key {
                Some(s.last().1 as int)
            } else {
                None
            },
        },
    decreases s.len() - i,
{
    if i < s.len() - 1 {
        assert(s.drop_last()[i] == s[i]);
        lemma_find_entry_drop_last(d, s, key, i + 1);
    } else {
        assert(find_entry(d, s, key, s.len() as int) is None);
        assert(find_entry(d, s.drop_last(), key, i) is None);
        assert(s[i] == s.last());
    }
}

/// Searching the entries from the front finds the first entry of the key's class.
pub proof fn lemma_find_entry_filter(d: Seq<u8>, s: Seq<(u32, u32)>, key: Seq<u8>)
    ensures
        find_entry(d, s, key, 0) == first_value(s.filter(key_class(d, key))),
    decreases s.len(),
{
    reveal(Seq::filter);
    if s.len() > 0 {
        let p = s.drop_last();
        let c = key_class(d, key);
        lemma_find_entry_filter(d, p, key);
        lemma_find_entry_drop_last(d, s, key, 0);
        assert(c(s.last()) == (entry_key(d, s.last()) == key));
        if p.filter(c).len() > 0 {
            assert(p.filter(c).push(s.last())[0] == p.filter(c)[0]);
        }
    }
}

/// Filtering with two predicates that agree on every element gives the same result.
pub proof fn lemma_filter_congruent(s: Seq<(u32, u32)>, p1: spec_fn((u32, u32)) -> bool, p2: spec_fn((u32, u32)) -> bool)
    requires
        forall|i: int| 0 <= i < s.len() ==> p1(#[trigger] s[i]) == p2(s[i]),
    ensures
        s.filter(p1) == s.filter(p2),
    decreases s.len(),
{
    reveal(Seq::filter);
    if s.len() > 0 {
        let q = s.drop_last();
        assert forall|i: int| 0 <= i < q.len() implies p1(#[trigger] q[i]) == p2(q[i]) by {
            assert(q[i] == s[i]);
        }
        lemma_filter_congruent(q, p1, p2);
        assert(p1(s[s.len() - 1]) == p2(s[s.len() - 1]));
    }
}

/// The first entry with a given key is found by the front search.
proof fn lemma_find_entry_first(d: Seq<u8>, s: Seq<(u32, u32)>, key: Seq<u8>, i: int, j: int)
    requires
        0 <= i <= j < s.len(),
        entry_key(d, s[j]) == key,
        forall|k: int| i <= k < j ==> entry_key(d, #[trigger] s[k]) != key,
    ensures
        find_entry(d, s, key, i) == Some(s[j].1 as int),
    decreases j - i,
{
    if i < j {
        lemma_find_entry_first(d, s, key, i + 1, j);
    }
}

/// The front search finds nothing when no entry has the key.
proof fn lemma_find_entry_none(d: Seq<u8>, s: Seq<(u32, u32)>, key: Seq<u8>, i: int)
    requires
        0 <= i <= s.len(),
        forall|k: int| i <= k < s.len() ==> entry_key(d, #[trigger] s[k]) != key,
    ensures
        find_entry(d, s, key, i) is None,
    decreases s.len() - i,
{
    if i < s.len() {
        lemma_find_entry_none(d, s, key, i + 1);
    }
}


/// Looking up `k` in a map written from the entries `es` (sorted by their
/// keys in `b1`) finds what a front search of `es` itself finds, provided the
/// keys read the same in `d` as in `b1`.
pub proof fn lemma_sorted_map_lookup(b1: Seq<u8>, es: Seq<(u32, u32)>, d: Seq<u8>, m: int, k: Seq<u8>)
    requires
        holds_at(d, m, enc_map(sort_entries(b1, es))),
        es.len() <= u32::MAX,
        forall|j: int| 0 <= j < es.len() ==> key_ok(d, #[trigger] es[j].0),
        forall|j: int| 0 <= j < es.len() ==> entry_key(d, #[trigger] es[j]) == entry_key(b1, es[j]),
    ensures
        in_heap(d, m),
        m + 5 <= d.len(),
        map_scan_ok(d, m, k, 0),
        map_get_at(d, m, k) == find_entry(d, es, k, 0),
{
    let sorted = sort_entries(b1, es);
    lemma_sort_entries_len(b1, es);
    lemma_sort_entries_elems(b1, es);
    lemma_sort_entries_sorted(b1, es);
    assert forall|i: int| 0 <= i < sorted.len() implies key_ok(d, #[trigger] sorted[i].0) && entry_key(d, sorted[i]) == entry_key(b1, sorted[i]) by {
        let j = choose|j: int| 0 <= j < es.len() && sorted[i] == es[j];
        assert(key_ok(d, es[j].0));
        assert(entry_key(d, es[j]) == entry_key(b1, es[j]));
    }
    assert forall|i: int, j: int| 0 <= i < j < sorted.len() implies !bytes_lt(#[trigger] entry_key(d, sorted[j]), #[trigger] entry_key(d, sorted[i])) by {
        assert(entry_key(d, sorted[i]) == entry_key(b1, sorted[i]));
        assert(entry_key(d, sorted[j]) == entry_key(b1, sorted[j]));
    }
    lemma_map_lookup(d, m, sorted, k);
    lemma_find_entry_filter(d, sorted, k);
    lemma_find_entry_filter(d, es, k);
    assert forall|i: int| 0 <= i < sorted.len() implies key_class(d, k)(#[trigger] sorted[i]) == key_class(b1, k)(sorted[i]) by {
        assert(entry_key(d, sorted[i]) == entry_key(b1, sorted[i]));
    }
    lemma_filter_congruent(sorted, key_class(d, k), key_class(b1, k));
    assert forall|i: int| 0 <= i < es.len() implies key_class(d, k)(#[trigger] es[i]) == key_class(b1, k)(es[i]) by {
        assert(entry_key(d, es[i]) == entry_key(b1, es[i]));
    }
    lemma_filter_congruent(es, key_class(d, k), key_class(b1, k));
    lemma_sort_entries_stable(b1, es, k);
}


/// The UTF-8 bytes of the key of an object field.
pub open spec fn field_key(f: (String, JsonValue)) -> Seq<u8> {
    vstd::utf8::encode_utf8(f.0@)
}

/// Field `j` is the first of `fields` with its key.
pub open spec fn first_with_key(fields: Seq<(String, JsonValue)>, j: int) -> bool {
    forall|i: int| 0 <= i < j ==> field_key(#[trigger] fields[i]) != field_key(fields[j])
}

/// The value at `o` in `d` reads back as `v` through the reader: its tag and
/// scalar match; an array has the same length and each element reads back as
/// the corresponding item; a map has one entry per field, looking up the key
/// of any field that is the first with its key finds a value that reads back
/// as that field's value, and looking up any other key finds nothing. Every
/// read this describes stays inside the heap.
#[verifier::opaque]
pub open spec fn reads_as(d: Seq<u8>, o: int, v: JsonValue) -> bool
    decreases v,
{
    &&& in_heap(d, o)
    &&& match v {
        JsonValue::Null => d[o] == TAG_NULL,
        JsonValue::Bool(x) => bool_at(d, o) == Some(x),
        JsonValue::Int(x) => o + 9 <= d.len() && i64_at(d, o) == Some(x),
        JsonValue::Float(bits) => o + 9 <= d.len() && f64_bits_at(d, o) == Some(bits),
        JsonValue::Str(st) => str_readable(d, o) && str_at(d, o) == Some(vstd::utf8::encode_utf8(st@)),
        JsonValue::Array(items) => {
            &&& array_len_at(d, o) == Some(items@.len() as usize)
            &&& o + 5 + 4 * items@.len() <= d.len()
            &&& forall|i: int| 0 <= i < items@.len() ==> reads_as(d, #[trigger] array_elem_at(d, o, i), items@[i])
        },
        JsonValue::Object(fields) => {
            &&& map_len_at(d, o) == Some(fields@.len() as usize)
            &&& o + 5 <= d.len()
            &&& forall|k: Seq<u8>| #[trigger] map_scan_ok(d, o, k, 0)
            &&& forall|j: int|
                0 <= j < fields@.len() && first_with_key(fields@, j) ==> #[trigger] map_get_at(d, o, field_key(fields@[j])) is Some
                    && reads_as(d, map_get_at(d, o, field_key(fields@[j]))->0, fields@[j].1)
            &&& forall|k: Seq<u8>|
                (forall|j: int| 0 <= j < fields@.len() ==> field_key(#[trigger] fields@[j]) != k) ==> #[trigger] map_get_at(d, o, k) is None
        },
    }
}


/// A JSON value written onto `b` reads back as itself in any heap that
/// agrees with the written bytes from `b.len()` on, as long as the written
/// heap stays addressable by 32-bit offsets.
#[verifier::spinoff_prover]
pub proof fn lemma_json_reads(b: Seq<u8>, v: JsonValue, d: Seq<u8>)
    requires
        json_write(b, v).0.len() <= u32::MAX,
        agrees_from(d, json_write(b, v).0, b.len() as int),
    ensures
        reads_as(d, json_write(b, v).1 as int, v),
    decreases v,
{
    reveal(reads_as);
    lemma_json_write_extends(b, v);
    let o = b.len() as int;
    match v {
        JsonValue::Null => {
            lemma_appended_holds(d, b, enc_null());
            lemma_read_null(d, o);
        },
        JsonValue::Bool(x) => {
            lemma_appended_holds(d, b, enc_bool(x));
            lemma_read_bool(d, o, x);
        },
        JsonValue::Int(x) => {
            lemma_appended_holds(d, b, enc_i64(x));
            lemma_read_i64(d, o, x);
        },
        JsonValue::Float(bits) => {
            lemma_appended_holds(d, b, enc_f64_bits(bits));
            lemma_read_f64_bits(d, o, bits);
        },
        JsonValue::Str(st) => {
            let bytes = vstd::utf8::encode_utf8(st@);
            vstd::utf8::encode_utf8_valid_utf8(st@);
            lemma_appended_holds(d, b, enc_string(bytes));
            lemma_read_string(d, o, bytes);
        },
        JsonValue::Array(items) => {
            let (b1, offs) = json_write_items(b, items@);
            lemma_items_extend(b, items@);
            assert(agrees_from(d, b1, b.len() as int));
            lemma_items_reads(b, items@, d);
            lemma_u32s_le(offs);
            lemma_appended_holds(d, b1, enc_array(offs));
            lemma_read_array(d, b1.len() as int, offs);
        },
        JsonValue::Object(fields) => {
            let (b1, es) = json_write_fields(b, fields@);
            lemma_fields_extend(b, fields@);
            assert(agrees_from(d, b1, b.len() as int));
            lemma_fields_reads(b, fields@, d);
            lemma_fields_keys_read(b, fields@, d);
            lemma_fields_keys_read(b, fields@, b1);
            let sorted = crate::builder::sort_entries(b1, es);
            lemma_sort_entries_len(b1, es);
            lemma_pairs_le(sorted);
            lemma_appended_holds(d, b1, enc_map(sorted));
            lemma_object_reads(b1, es, fields@, d);
        },
    }
}

/// The object case of `lemma_json_reads`: the map written after the fields.
proof fn lemma_object_reads(b1: Seq<u8>, es: Seq<(u32, u32)>, fields: Seq<(String, JsonValue)>, d: Seq<u8>)
    requires
        b1.len() + 5 + 8 * es.len() <= u32::MAX,
        es.len() == fields.len(),
        holds_at(d, b1.len() as int, enc_map(sort_entries(b1, es))),
        forall|j: int| #![trigger es[j]] 0 <= j < es.len() ==> key_ok(d, es[j].0),
        forall|j: int| #![trigger es[j]] 0 <= j < es.len() ==> entry_key(d, es[j]) == field_key(fields[j]),
        forall|j: int| #![trigger es[j]] 0 <= j < es.len() ==> entry_key(b1, es[j]) == field_key(fields[j]),
        forall|j: int| #![trigger es[j]] 0 <= j < es.len() ==> reads_as(d, es[j].1 as int, fields[j].1),
    ensures
        in_heap(d, b1.len() as int),
        map_len_at(d, b1.len() as int) == Some(fields.len() as usize),
        b1.len() + 5 <= d.len(),
        forall|k: Seq<u8>| #[trigger] map_scan_ok(d, b1.len() as int, k, 0),
        forall|j: int|
            0 <= j < fields.len() && first_with_key(fields, j) ==> #[trigger] map_get_at(d, b1.len() as int, field_key(fields[j])) is Some
                && reads_as(d, map_get_at(d, b1.len() as int, field_key(fields[j]))->0, fields[j].1),
        forall|k: Seq<u8>|
            (forall|j: int| 0 <= j < fields.len() ==> field_key(#[trigger] fields[j]) != k) ==> #[trigger] map_get_at(d, b1.len() as int, k) is None,
{
    reveal(reads_as);
    let m = b1.len() as int;
    let sorted = sort_entries(b1, es);
    lemma_sort_entries_len(b1, es);
    lemma_read_map(d, m, sorted);
    assert forall|j: int| 0 <= j < es.len() implies entry_key(d, #[trigger] es[j]) == entry_key(b1, es[j]) by {
        assert(entry_key(d, es[j]) == field_key(fields[j]));
    }
    assert forall|k: Seq<u8>| #[trigger] map_scan_ok(d, m, k, 0) by {
        lemma_sorted_map_lookup(b1, es, d, m, k);
    }
    assert forall|j: int|
        0 <= j < fields.len() && first_with_key(fields, j) implies #[trigger] map_get_at(d, m, field_key(fields[j])) is Some
            && reads_as(d, map_get_at(d, m, field_key(fields[j]))->0, fields[j].1) by {
        let key = field_key(fields[j]);
        lemma_sorted_map_lookup(b1, es, d, m, key);
        assert forall|i: int| 0 <= i < j implies entry_key(d, #[trigger] es[i]) != key by {
            assert(entry_key(d, es[i]) == field_key(fields[i]));
            assert(field_key(fields[i]) != field_key(fields[j]));
        }
        assert(entry_key(d, es[j]) == key);
        lemma_find_entry_first(d, es, key, 0, j);
        assert(reads_as(d, es[j].1 as int, fields[j].1));
    }
    assert forall|k: Seq<u8>|
        (forall|j: int| 0 <= j < fields.len() ==> field_key(#[trigger] fields[j]) != k) implies #[trigger] map_get_at(d, m, k) is None by {
        lemma_sorted_map_lookup(b1, es, d, m, k);
        assert forall|i: int| 0 <= i < es.len() implies entry_key(d, #[trigger] es[i]) != k by {
            assert(entry_key(d, es[i]) == field_key(fields[i]));
        }
        lemma_find_entry_none(d, es, k, 0);
    }
}

/// The prefix facts shared by the field lemmas: writing the last field
/// extends writing the others, and a heap agreeing with the whole agrees with
/// each part.
proof fn lemma_fields_last(b: Seq<u8>, fields: Seq<(String, JsonValue)>, d: Seq<u8>)
    requires
        fields.len() > 0,
        json_write_fields(b, fields).0.len() <= u32::MAX,
        agrees_from(d, json_write_fields(b, fields).0, b.len() as int),
    ensures
        ({
            let (b1, es) = json_write_fields(b, fields.drop_last());
            let b2 = b1 + enc_string(vstd::utf8::encode_utf8(fields.last().0@));
            let (b3, vo) = json_write(b2, fields.last().1);
            &&& json_write_fields(b, fields) == (b3, es.push((b1.len() as u32, vo)))
            &&& b3.len() <= u32::MAX
            &&& agrees_from(d, b1, b.len() as int)
            &&& agrees_from(d, b2, b1.len() as int)
            &&& agrees_from(d, b3, b2.len() as int)
            &&& json_write_fields(b, fields.drop_last()).0.len() <= u32::MAX
            &&& es.len() == fields.len() - 1
            &&& b2.len() <= b3.len()
        }),
{
    let p = fields.drop_last();
    let last = fields.last();
    let (b1, es) = json_write_fields(b, p);
    let b2 = b1 + enc_string(vstd::utf8::encode_utf8(last.0@));
    let b3 = json_write(b2, last.1).0;
    lemma_fields_extend(b, p);
    lemma_json_write_extends(b2, last.1);
    assert forall|j: int| 0 <= j < b2.len() implies b3[j] == b2[j] by {
        assert(b3.subrange(0, b2.len() as int)[j] == b3[j]);
    }
    assert forall|j: int| b.len() <= j < b1.len() implies d[j] == b1[j] by {
        assert(b2[j] == b1[j]);
    }
}

/// Every key of the fields written onto `b` is a readable string whose
/// content is the field's key.
pub proof fn lemma_fields_keys_read(b: Seq<u8>, fields: Seq<(String, JsonValue)>, d: Seq<u8>)
    requires
        json_write_fields(b, fields).0.len() <= u32::MAX,
        agrees_from(d, json_write_fields(b, fields).0, b.len() as int),
    ensures
        forall|j: int|
            #![trigger json_write_fields(b, fields).1[j]]
            0 <= j < fields.len() ==> key_ok(d, json_write_fields(b, fields).1[j].0),
        forall|j: int|
            #![trigger json_write_fields(b, fields).1[j]]
            0 <= j < fields.len() ==> entry_key(d, json_write_fields(b, fields).1[j]) == field_key(fields[j]),
    decreases fields.len(),
{
    lemma_fields_extend(b, fields);
    if fields.len() > 0 {
        let p = fields.drop_last();
        let last = fields.last();
        let (b1, es) = json_write_fields(b, p);
        let bytes = vstd::utf8::encode_utf8(last.0@);
        let all = json_write_fields(b, fields).1;
        lemma_fields_last(b, fields, d);
        lemma_fields_keys_read(b, p, d);
        vstd::utf8::encode_utf8_valid_utf8(last.0@);
        lemma_appended_holds(d, b1, enc_string(bytes));
        lemma_read_string(d, b1.len() as int, bytes);
        assert forall|j: int| #![trigger all[j]] 0 <= j < fields.len() implies key_ok(d, all[j].0) && entry_key(d, all[j]) == field_key(fields[j]) by {
            if j < p.len() {
                assert(all[j] == es[j]);
                assert(fields[j] == p[j]);
            }
        }
    }
}

/// Every value of the fields written onto `b` reads back as the field's value.
#[verifier::spinoff_prover]
pub proof fn lemma_fields_reads(b: Seq<u8>, fields: Seq<(String, JsonValue)>, d: Seq<u8>)
    requires
        json_write_fields(b, fields).0.len() <= u32::MAX,
        agrees_from(d, json_write_fields(b, fields).0, b.len() as int),
    ensures
        forall|j: int|
            #![trigger json_write_fields(b, fields).1[j]]
            0 <= j < fields.len() ==> reads_as(d, json_write_fields(b, fields).1[j].1 as int, fields[j].1),
    decreases fields,
{
    if fields.len() > 0 {
        let p = fields.drop_last();
        let last = fields.last();
        let (b1, es) = json_write_fields(b, p);
        let b2 = b1 + enc_string(vstd::utf8::encode_utf8(last.0@));
        let vo = json_write(b2, last.1).1;
        let all = json_write_fields(b, fields).1;
        lemma_fields_last(b, fields, d);
        lemma_fields_reads(b, p, d);
        lemma_json_reads(b2, last.1, d);
        assert forall|j: int| #![trigger all[j]] 0 <= j < fields.len() implies reads_as(d, all[j].1 as int, fields[j].1) by {
            if j < p.len() {
                assert(all[j] == es[j]);
                assert(fields[j] == p[j]);
            }
        }
    }
}

/// Every value of a run written onto `b` reads back as itself.
pub proof fn lemma_items_reads(b: Seq<u8>, items: Seq<JsonValue>, d: Seq<u8>)
    requires
        json_write_items(b, items).0.len() <= u32::MAX,
        agrees_from(d, json_write_items(b, items).0, b.len() as int),
    ensures
        forall|i: int| 0 <= i < items.len() ==> reads_as(d, #[trigger] json_write_items(b, items).1[i] as int, items[i]),
    decreases items,
{
    lemma_items_extend(b, items);
    if items.len() > 0 {
        let p = items.drop_last();
        let (b1, offs) = json_write_items(b, p);
        lemma_items_extend(b, p);
        lemma_json_write_extends(b1, items.last());
        let all = json_write_items(b, items).1;
        assert(agrees_from(d, b1, b.len() as int));
        lemma_items_reads(b, p, d);
        lemma_json_reads(b1, items.last(), d);
        assert forall|i: int| 0 <= i < items.len() implies reads_as(d, #[trigger] all[i] as int, items[i]) by {
            if i < p.len() {
                assert(all[i] == offs[i]);
                assert(items[i] == p[i]);
            }
        }
    }
}

} // verus!
