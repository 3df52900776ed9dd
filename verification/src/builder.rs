//! Appending values to a heap buffer.

use vstd::prelude::*;
use vstd::string::StringSliceAdditionalSpecFns;
use vstd::utf8::valid_utf8;
use crate::laws::{entries_sorted, key_class, lemma_sort_entries_sorted, lemma_sort_entries_stable};
use crate::format::{
    bytes_lt, compare_bytes, enc_array, enc_bool, enc_f64_bits, enc_i64, enc_map, enc_null,
    enc_string, lemma_u32_le_roundtrip, pairs_le, push_u32, push_u64, read_u32, str_bytes_at,
    str_from_utf8, string_body_ok, u32_at, u32_le, u32s_le, ByteOrder, TAG_F64, TAG_FALSE,
    TAG_I64, TAG_MAP, TAG_NULL, TAG_STRING, TAG_TRUE, TAG_ARRAY,
};

verus! {

/// Builds a heap by appending values to a byte buffer. The first four bytes
/// are reserved for the root offset, which `finish` fills in.
pub struct HeapBuilder {
    buf: Vec<u8>,
}

impl View for HeapBuilder {
    type V = Seq<u8>;

    /// The bytes written so far, the reserved header included.
    closed spec fn view(&self) -> Seq<u8> {
        self.buf@
    }
}

/// Appends `bytes` to `buf`.
fn push_bytes(buf: &mut Vec<u8>, bytes: &[u8])
    ensures
        final(buf)@ == old(buf)@ + bytes@,
{
    let mut i: usize = 0;
    while i < bytes.len()
        invariant
            i <= bytes@.len(),
            buf@ == old(buf)@ + bytes@.take(i as int),
        decreases bytes@.len() - i,
    {
        buf.push(bytes[i]);
        i = i + 1;
        assert(buf@ =~= old(buf)@ + bytes@.take(i as int));
    }
    assert(bytes@.take(i as int) =~= bytes@);
}

/// `d[off]` starts a string whose length field and content lie inside `d`
/// and whose content is valid UTF-8.
pub open spec fn key_ok(d: Seq<u8>, off: u32) -> bool {
    &&& (off as int) < d.len()
    &&& d[off as int] == TAG_STRING
    &&& string_body_ok(d, off as int)
}

/// The content of the key string of a map entry.
pub open spec fn entry_key(d: Seq<u8>, e: (u32, u32)) -> Seq<u8> {
    str_bytes_at(d, e.0 as int)
}

/// Inserts `x` into `s` after every entry whose key does not sort after the key of `x`,
/// scanning from the end.
pub open spec fn insert_entry(d: Seq<u8>, s: Seq<(u32, u32)>, x: (u32, u32)) -> Seq<(u32, u32)>
    decreases s.len(),
{
    if s.len() == 0 || !bytes_lt(entry_key(d, x), entry_key(d, s.last())) {
        s.push(x)
    } else {
        insert_entry(d, s.drop_last(), x).push(s.last())
    }
}

/// The entries `s` stably sorted by the content of their key strings in `d`.
pub open spec fn sort_entries(d: Seq<u8>, s: Seq<(u32, u32)>) -> Seq<(u32, u32)>
    decreases s.len(),
{
    if s.len() == 0 {
        s
    } else {
        insert_entry(d, sort_entries(d, s.drop_last()), s.last())
    }
}

/// A readable key stays readable, with the same content, once more bytes are appended.
pub proof fn lemma_key_ok_extends(b: Seq<u8>, r: Seq<u8>, off: u32)
    requires
        key_ok(b, off),
        b.is_prefix_of(r),
    ensures
        key_ok(r, off),
        str_bytes_at(r, off as int) == str_bytes_at(b, off as int),
{
    let o = off as int;
    assert(r[o] == b[o]);
    assert(r[o + 1] == b[o + 1] && r[o + 2] == b[o + 2] && r[o + 3] == b[o + 3] && r[o + 4] == b[o + 4]);
    assert(u32_at(r, o + 1) == u32_at(b, o + 1));
    assert(str_bytes_at(r, o) =~= str_bytes_at(b, o));
}

/// A string appended to a heap whose length stays within 32 bits is a readable key there.
pub proof fn lemma_enc_string_key(b: Seq<u8>, bytes: Seq<u8>)
    requires
        valid_utf8(bytes),
        b.len() + 5 + bytes.len() <= u32::MAX,
    ensures
        key_ok(b + enc_string(bytes), b.len() as u32),
        str_bytes_at(b + enc_string(bytes), b.len() as int) == bytes,
{
    let r = b + enc_string(bytes);
    let o = b.len() as int;
    let n = bytes.len() as u32;
    lemma_u32_le_roundtrip(n);
    let l = u32_le(n);
    assert(r[o] == TAG_STRING);
    assert(r[o + 1] == l[0] && r[o + 2] == l[1] && r[o + 3] == l[2] && r[o + 4] == l[3]);
    assert(u32_at(r, o + 1) == u32_at(l, 0));
    assert(str_bytes_at(r, o) =~= bytes);
}

/// Inserting adds exactly one entry.
pub proof fn lemma_insert_entry_len(d: Seq<u8>, s: Seq<(u32, u32)>, x: (u32, u32))
    ensures
        insert_entry(d, s, x).len() == s.len() + 1,
    decreases s.len(),
{
    if s.len() > 0 && bytes_lt(entry_key(d, x), entry_key(d, s.last())) {
        lemma_insert_entry_len(d, s.drop_last(), x);
    }
}

/// Sorting keeps the number of entries.
pub proof fn lemma_sort_entries_len(d: Seq<u8>, s: Seq<(u32, u32)>)
    ensures
        sort_entries(d, s).len() == s.len(),
    decreases s.len(),
{
    if s.len() > 0 {
        lemma_sort_entries_len(d, s.drop_last());
        lemma_insert_entry_len(d, sort_entries(d, s.drop_last()), s.last());
    }
}

/// Every sorted entry is one of the entries that were sorted.
pub proof fn lemma_sort_entries_elems(d: Seq<u8>, s: Seq<(u32, u32)>)
    ensures
        forall|i: int|
            0 <= i < sort_entries(d, s).len() ==> exists|j: int| 0 <= j < s.len() && #[trigger] sort_entries(d, s)[i] == s[j],
    decreases s.len(),
{
    lemma_sort_entries_len(d, s);
    if s.len() > 0 {
        let p = s.drop_last();
        lemma_sort_entries_elems(d, p);
        crate::laws::lemma_insert_entry_elems(d, sort_entries(d, p), s.last());
        let q = sort_entries(d, p);
        let r = sort_entries(d, s);
        assert forall|i: int| 0 <= i < r.len() implies exists|j: int| 0 <= j < s.len() && #[trigger] r[i] == s[j] by {
            if r[i] == s.last() {
                assert(r[i] == s[s.len() - 1]);
            } else {
                let k = choose|k: int| 0 <= k < q.len() && r[i] == q[k];
                let j = choose|j: int| 0 <= j < p.len() && q[k] == p[j];
                assert(r[i] == s[j]);
            }
        }
    }
}

/// Inserting past a tail of entries whose keys all sort after the key of `x`
/// leaves that tail in place.
proof fn lemma_insert_entry_tail(d: Seq<u8>, s: Seq<(u32, u32)>, x: (u32, u32), j: int)
    requires
        0 <= j <= s.len(),
        forall|k: int| j <= k < s.len() ==> bytes_lt(entry_key(d, x), #[trigger] entry_key(d, s[k])),
    ensures
        insert_entry(d, s, x) == insert_entry(d, s.take(j), x) + s.skip(j),
    decreases s.len() - j,
{
    if j == s.len() {
        assert(s.take(j) =~= s);
        assert(s.skip(j) =~= Seq::<(u32, u32)>::empty());
    } else {
        let p = s.drop_last();
        assert(bytes_lt(entry_key(d, x), entry_key(d, s[s.len() - 1])));
        assert forall|k: int| j <= k < p.len() implies bytes_lt(entry_key(d, x), #[trigger] entry_key(d, p[k])) by {
            assert(p[k] == s[k]);
        }
        lemma_insert_entry_tail(d, p, x, j);
        assert(p.take(j) =~= s.take(j));
        assert(p.skip(j).push(s.last()) =~= s.skip(j));
        assert(insert_entry(d, s, x) == insert_entry(d, p, x).push(s.last()));
        assert((insert_entry(d, p.take(j), x) + p.skip(j)).push(s.last()) =~= insert_entry(d, p.take(j), x) + p.skip(j).push(s.last()));
    }
}

impl HeapBuilder {
    /// An empty heap: the four zero bytes of the root offset header.
    pub fn new() -> (h: Self)
        ensures
            h@ == seq![0u8, 0u8, 0u8, 0u8],
    {
        let mut buf: Vec<u8> = Vec::with_capacity(4096);
        buf.push(0u8);
        buf.push(0u8);
        buf.push(0u8);
        buf.push(0u8);
        assert(buf@ =~= seq![0u8, 0u8, 0u8, 0u8]);
        HeapBuilder { buf }
    }

    /// The number of bytes written so far, the reserved header included.
    pub fn len(&self) -> (n: usize)
        ensures
            n == self@.len(),
    {
        self.buf.len()
    }

    /// Appends null and returns its offset.
    pub fn write_null(&mut self) -> (off: u32)
        ensures
            off == old(self)@.len() as u32,
            final(self)@ == old(self)@ + enc_null(),
    {
        let off = self.buf.len() as u32;
        self.buf.push(TAG_NULL);
        assert(self.buf@ =~= old(self)@ + enc_null());
        off
    }

    /// Appends a boolean and returns its offset.
    pub fn write_bool(&mut self, v: bool) -> (off: u32)
        ensures
            off == old(self)@.len() as u32,
            final(self)@ == old(self)@ + enc_bool(v),
    {
        let off = self.buf.len() as u32;
        self.buf.push(if v { TAG_TRUE } else { TAG_FALSE });
        assert(self.buf@ =~= old(self)@ + enc_bool(v));
        off
    }

    /// Appends a signed 64-bit integer and returns its offset.
    pub fn write_i64(&mut self, v: i64) -> (off: u32)
        ensures
            off == old(self)@.len() as u32,
            final(self)@ == old(self)@ + enc_i64(v),
    {
        let off = self.buf.len() as u32;
        self.buf.push(TAG_I64);
        push_u64(&mut self.buf, v as u64);
        assert(self.buf@ =~= old(self)@ + enc_i64(v));
        off
    }

    /// Appends a 64-bit float, given by its bit pattern, and returns its offset.
    pub fn write_f64_bits(&mut self, bits: u64) -> (off: u32)
        ensures
            off == old(self)@.len() as u32,
            final(self)@ == old(self)@ + enc_f64_bits(bits),
    {
        let off = self.buf.len() as u32;
        self.buf.push(TAG_F64);
        push_u64(&mut self.buf, bits);
        assert(self.buf@ =~= old(self)@ + enc_f64_bits(bits));
        off
    }

    /// Appends a string and returns its offset.
    pub fn write_string(&mut self, s: &str) -> (off: u32)
        ensures
            off == old(self)@.len() as u32,
            final(self)@ == old(self)@ + enc_string(s.spec_bytes()),
    {
        let off = self.buf.len() as u32;
        let bytes = s.as_bytes();
        let n = bytes.len();
        self.buf.push(TAG_STRING);
        push_u32(&mut self.buf, n as u32);
        push_bytes(&mut self.buf, bytes);
        assert(self.buf@ =~= old(self)@ + enc_string(s.spec_bytes()));
        off
    }

    /// Appends an array whose elements sit at `offsets` and returns its offset.
    pub fn write_array(&mut self, offsets: &[u32]) -> (off: u32)
        ensures
            off == old(self)@.len() as u32,
            final(self)@ == old(self)@ + enc_array(offsets@),
    {
        let off = self.buf.len() as u32;
        self.buf.push(TAG_ARRAY);
        push_u32(&mut self.buf, offsets.len() as u32);
        let ghost head = self.buf@;
        let mut i: usize = 0;
        while i < offsets.len()
            invariant
                i <= offsets@.len(),
                self.buf@ == head + u32s_le(offsets@.take(i as int)),
            decreases offsets@.len() - i,
        {
            push_u32(&mut self.buf, offsets[i]);
            assert(offsets@.take(i + 1).drop_last() =~= offsets@.take(i as int));
            i = i + 1;
            assert(self.buf@ =~= head + u32s_le(offsets@.take(i as int)));
        }
        assert(offsets@.take(i as int) =~= offsets@);
        assert(self.buf@ =~= old(self)@ + enc_array(offsets@));
        off
    }

    /// The string at `off`, which must be a well-formed string of this heap.
    fn read_string_at(&self, off: u32) -> (s: &str)
        requires
            key_ok(self@, off),
        ensures
            s.spec_bytes() == str_bytes_at(self@, off as int),
    {
        // Reading the length brings its bound, usize::MAX, into the proof.
        let _n = self.buf.len();
        let off = off as usize;
        let len = read_u32(self.buf.as_slice(), off + 1) as usize;
        let bytes = vstd::slice::slice_subrange(self.buf.as_slice(), off + 5, off + 5 + len);
        match str_from_utf8(bytes) {
            Some(s) => s,
            None => {
                proof {
                    assert(false);
                }
                ""
            },
        }
    }

    /// Sorts `entries` stably by the content of their key strings.
    fn sort_map_entries(&self, entries: &mut [(u32, u32)])
        requires
            old(entries)@.len() >= 2 ==> forall|k: int| 0 <= k < old(entries)@.len() ==> key_ok(self@, #[trigger] old(entries)@[k].0),
        ensures
            final(entries)@ == sort_entries(self@, old(entries)@),
    {
        let ghost d = self@;
        let ghost orig = entries@;
        let n = entries.len();
        let mut i: usize = 0;
        assert(orig.take(0) =~= Seq::<(u32, u32)>::empty());
        assert(entries@.take(0) =~= Seq::<(u32, u32)>::empty());
        while i < n
            invariant
                d == self@,
                i <= n,
                n == orig.len(),
                entries@.len() == n,
                entries@.take(i as int) == sort_entries(d, orig.take(i as int)),
                entries@.skip(i as int) == orig.skip(i as int),
                n >= 2 ==> forall|k: int| 0 <= k < n ==> key_ok(d, #[trigger] entries@[k].0),
            decreases n - i,
        {
            let ghost sorted = entries@.take(i as int);
            let x = entries[i];
            assert(x == entries@.skip(i as int)[0]);
            assert(x == orig[i as int]);
            assert forall|k: int| i < k < n implies entries@[k] == orig[k] by {
                assert(entries@.skip(i as int)[k - i] == entries@[k]);
                assert(orig.skip(i as int)[k - i] == orig[k]);
            }
            let mut j: usize = i;
            loop
                invariant
                    d == self@,
                    j <= i < n,
                    entries@.len() == n,
                    sorted.len() == i,
                    x == orig[i as int],
                    forall|k: int| 0 <= k < j ==> entries@[k] == sorted[k],
                    forall|k: int| j < k <= i ==> entries@[k] == sorted[k - 1],
                    forall|k: int| i < k < n ==> entries@[k] == orig[k],
                    forall|k: int| j <= k < i ==> bytes_lt(entry_key(d, x), #[trigger] entry_key(d, sorted[k])),
                    n >= 2 ==> key_ok(d, x.0),
                    n >= 2 ==> forall|k: int| 0 <= k < n ==> key_ok(d, #[trigger] entries@[k].0),
                ensures
                    j <= i,
                    entries@.len() == n,
                    forall|k: int| 0 <= k < j ==> entries@[k] == sorted[k],
                    forall|k: int| j < k <= i ==> entries@[k] == sorted[k - 1],
                    forall|k: int| i < k < n ==> entries@[k] == orig[k],
                    forall|k: int| j <= k < i ==> bytes_lt(entry_key(d, x), #[trigger] entry_key(d, sorted[k])),
                    j == 0 || !bytes_lt(entry_key(d, x), entry_key(d, sorted[j - 1])),
                    n >= 2 ==> forall|k: int| 0 <= k < n ==> key_ok(d, #[trigger] entries@[k].0),
                decreases j,
            {
                if j == 0 {
                    break;
                }
                let prev = entries[j - 1];
                assert(prev == sorted[j - 1]);
                assert(key_ok(d, prev.0));
                let kp = self.read_string_at(prev.0).as_bytes();
                let kx = self.read_string_at(x.0).as_bytes();
                let ord = compare_bytes(kp, kx);
                proof {
                    crate::format::lemma_bytes_lt_total(kp@, kx@);
                    crate::format::lemma_bytes_lt_asymmetric(kp@, kx@);
                    crate::format::lemma_bytes_lt_asymmetric(kx@, kp@);
                }
                if ord != ByteOrder::Greater {
                    break;
                }
                entries[j] = prev;
                j = j - 1;
            }
            entries[j] = x;
            proof {
                lemma_insert_entry_tail(d, sorted, x, j as int);
                assert(insert_entry(d, sorted.take(j as int), x) =~= sorted.take(j as int).push(x));
                assert(orig.take(i + 1).drop_last() =~= orig.take(i as int));
                assert(orig.take(i + 1).last() == x);
                assert(sort_entries(d, orig.take(i + 1)) == insert_entry(d, sorted, x));
                assert(entries@.take(i + 1) =~= sorted.take(j as int).push(x) + sorted.skip(j as int));
                assert(entries@.skip(i + 1) =~= orig.skip(i + 1));
            }
            i = i + 1;
        }
        assert(entries@.take(n as int) =~= entries@);
        assert(orig.take(n as int) =~= orig);
    }

    /// Writes a map. `entries` holds (key string offset, value offset) pairs;
    /// they are first sorted stably by the content of their key strings, for
    /// canonical ordering, and left in that order.
    pub fn write_map(&mut self, entries: &mut [(u32, u32)]) -> (off: u32)
        requires
            old(entries)@.len() >= 2 ==> forall|k: int| 0 <= k < old(entries)@.len() ==> key_ok(old(self)@, #[trigger] old(entries)@[k].0),
        ensures
            final(entries)@ == sort_entries(old(self)@, old(entries)@),
            entries_sorted(old(self)@, final(entries)@),
            forall|w: Seq<u8>|
                #![trigger key_class(old(self)@, w)]
                final(entries)@.filter(key_class(old(self)@, w)) == old(entries)@.filter(
                    key_class(old(self)@, w),
                ),
            off == old(self)@.len() as u32,
            final(self)@ == old(self)@ + enc_map(final(entries)@),
    {
        self.sort_map_entries(entries);
        proof {
            lemma_sort_entries_sorted(old(self)@, old(entries)@);
            assert forall|w: Seq<u8>| #![trigger key_class(old(self)@, w)]
                entries@.filter(key_class(old(self)@, w)) == old(entries)@.filter(key_class(old(self)@, w)) by {
                lemma_sort_entries_stable(old(self)@, old(entries)@, w);
            }
        }
        let off = self.buf.len() as u32;
        self.buf.push(TAG_MAP);
        push_u32(&mut self.buf, entries.len() as u32);
        let ghost head = self.buf@;
        let ghost es = entries@;
        let mut i: usize = 0;
        while i < entries.len()
            invariant
                es == entries@,
                i <= es.len(),
                self.buf@ == head + pairs_le(es.take(i as int)),
            decreases es.len() - i,
        {
            let (k, v) = entries[i];
            push_u32(&mut self.buf, k);
            push_u32(&mut self.buf, v);
            assert(es.take(i + 1).drop_last() =~= es.take(i as int));
            i = i + 1;
            assert(self.buf@ =~= head + pairs_le(es.take(i as int)));
        }
        assert(es.take(i as int) =~= es);
        assert(self.buf@ =~= old(self)@ + enc_map(es));
        off
    }

    /// Finalizes the heap: writes the root offset into the header and
    /// returns the bytes.
    pub fn finish(self, root: u32) -> (r: Vec<u8>)
        requires
            self@.len() >= 4,
        ensures
            r@ == u32_le(root) + self@.skip(4),
    {
        let mut buf = self.buf;
        buf.set(0, root as u8);
        buf.set(1, (root >> 8u32) as u8);
        buf.set(2, (root >> 16u32) as u8);
        buf.set(3, (root >> 24u32) as u8);
        assert(buf@ =~= u32_le(root) + self@.skip(4));
        buf
    }
}

} // verus!
