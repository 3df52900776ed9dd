//! Reading a heap in place, without copying.

use vstd::prelude::*;
use vstd::string::StringSliceAdditionalSpecFns;
use crate::format::{
    bytes_lt, compare_bytes, consume, read_u32, read_u64, str_bytes_at, str_from_utf8,
    string_body_ok, u32_at, u64_at, ByteOrder, TAG_ARRAY, TAG_F64, TAG_FALSE, TAG_I64, TAG_MAP,
    TAG_NULL, TAG_STRING, TAG_TRUE,
};

verus! {

/// What a reference into a heap denotes: the whole heap and a position in it.
pub struct HeapView {
    pub data: Seq<u8>,
    pub offset: int,
}

/// A zero-copy reader over the bytes of a heap.
pub struct RawHeap<'a> {
    data: &'a [u8],
    root_offset: u32,
}

/// A typed view into the heap at a given offset.
#[derive(Clone, Copy)]
pub struct HeapRef<'a> {
    data: &'a [u8],
    offset: usize,
}

impl<'a> RawHeap<'a> {
    /// The heap bytes.
    pub closed spec fn bytes(&self) -> Seq<u8> {
        self.data@
    }

    /// The root offset read from the header.
    pub closed spec fn root_at(&self) -> u32 {
        self.root_offset
    }
}

impl<'a> View for HeapRef<'a> {
    type V = HeapView;

    closed spec fn view(&self) -> HeapView {
        HeapView { data: self.data@, offset: self.offset as int }
    }
}

/// The number of elements or entries recorded at `d[o + 1..o + 5]`.
pub open spec fn count_at(d: Seq<u8>, o: int) -> int {
    u32_at(d, o + 1) as int
}

/// The offset of the `i`-th element of the array at `o`.
pub open spec fn array_elem_at(d: Seq<u8>, o: int, i: int) -> int {
    u32_at(d, o + 5 + 4 * i) as int
}

/// The offset of the key of the `i`-th entry of the map at `o`.
pub open spec fn map_key_at(d: Seq<u8>, o: int, i: int) -> int {
    u32_at(d, o + 5 + 8 * i) as int
}

/// The offset of the value of the `i`-th entry of the map at `o`.
pub open spec fn map_val_at(d: Seq<u8>, o: int, i: int) -> int {
    u32_at(d, o + 9 + 8 * i) as int
}

/// The boolean at `o`, if the tag there is a boolean one.
pub open spec fn bool_at(d: Seq<u8>, o: int) -> Option<bool> {
    if d[o] == TAG_TRUE {
        Some(true)
    } else if d[o] == TAG_FALSE {
        Some(false)
    } else {
        None
    }
}

/// The integer at `o`, if the tag there is the integer one.
pub open spec fn i64_at(d: Seq<u8>, o: int) -> Option<i64> {
    if d[o] == TAG_I64 {
        Some(u64_at(d, o + 1) as i64)
    } else {
        None
    }
}

/// The float bits at `o`, if the tag there is the float one.
pub open spec fn f64_bits_at(d: Seq<u8>, o: int) -> Option<u64> {
    if d[o] == TAG_F64 {
        Some(u64_at(d, o + 1))
    } else {
        None
    }
}

/// The content bytes of the string at `o`, if the tag there is the string one.
pub open spec fn str_at(d: Seq<u8>, o: int) -> Option<Seq<u8>> {
    if d[o] == TAG_STRING {
        Some(str_bytes_at(d, o))
    } else {
        None
    }
}

/// The element count of the array at `o`, if the tag there is the array one.
pub open spec fn array_len_at(d: Seq<u8>, o: int) -> Option<usize> {
    if d[o] == TAG_ARRAY {
        Some(count_at(d, o) as usize)
    } else {
        None
    }
}

/// The entry count of the map at `o`, if the tag there is the map one.
pub open spec fn map_len_at(d: Seq<u8>, o: int) -> Option<usize> {
    if d[o] == TAG_MAP {
        Some(count_at(d, o) as usize)
    } else {
        None
    }
}

/// `o` is a position inside `d`.
pub open spec fn in_heap(d: Seq<u8>, o: int) -> bool {
    0 <= o < d.len()
}

/// Reading the string at `o` stays inside `d` and meets valid UTF-8 (or the tag is another one).
pub open spec fn str_readable(d: Seq<u8>, o: int) -> bool {
    in_heap(d, o) && (d[o] == TAG_STRING ==> string_body_ok(d, o))
}

/// The scan of map entries `i..` for `key`, as `map_get` performs it, stays
/// inside `d` and reads only readable key strings: an entry's key offset is
/// read, then its key; a key equal to `key` has its value offset read and
/// ends the scan, a key after `key` ends it, anything else goes on.
pub open spec fn map_scan_ok(d: Seq<u8>, o: int, key: Seq<u8>, i: int) -> bool
    decreases count_at(d, o) - i,
{
    if i < 0 || i >= count_at(d, o) {
        true
    } else {
        &&& o + 5 + 8 * i + 4 <= d.len()
        &&& str_readable(d, map_key_at(d, o, i))
        &&& match str_at(d, map_key_at(d, o, i)) {
            Some(k) => if k == key {
                o + 5 + 8 * i + 8 <= d.len()
            } else if bytes_lt(key, k) {
                true
            } else {
                map_scan_ok(d, o, key, i + 1)
            },
            None => map_scan_ok(d, o, key, i + 1),
        }
    }
}

/// The value offset that the scan of map entries `i..` for `key` finds.
pub open spec fn map_scan(d: Seq<u8>, o: int, key: Seq<u8>, i: int) -> Option<int>
    decreases count_at(d, o) - i,
{
    if i < 0 || i >= count_at(d, o) {
        None
    } else {
        match str_at(d, map_key_at(d, o, i)) {
            Some(k) => if k == key {
                Some(map_val_at(d, o, i))
            } else if bytes_lt(key, k) {
                None
            } else {
                map_scan(d, o, key, i + 1)
            },
            None => map_scan(d, o, key, i + 1),
        }
    }
}

/// The content of the key string of entry `i` of the map at `o`.
pub open spec fn map_key_str(d: Seq<u8>, o: int, i: int) -> Seq<u8> {
    str_at(d, map_key_at(d, o, i))->0
}

/// The keys of the map at `o` are all strings, in non-decreasing byte order,
/// as `write_map` leaves them.
pub open spec fn map_keys_sorted(d: Seq<u8>, o: int) -> bool {
    &&& forall|i: int| 0 <= i < count_at(d, o) ==> (#[trigger] str_at(d, map_key_at(d, o, i))) is Some
    &&& forall|i: int, j: int|
        0 <= i < j < count_at(d, o) ==> !bytes_lt(#[trigger] map_key_str(d, o, j), #[trigger] map_key_str(d, o, i))
}

/// Entry `i` of the map at `o` is the first whose key is `key`.
pub open spec fn first_with_key_at(d: Seq<u8>, o: int, key: Seq<u8>, i: int) -> bool {
    &&& 0 <= i < count_at(d, o)
    &&& str_at(d, map_key_at(d, o, i)) == Some(key)
    &&& forall|j: int| 0 <= j < i ==> str_at(d, #[trigger] map_key_at(d, o, j)) != Some(key)
}

/// `r` is the value offset of the first entry from `i` on of the map at `o`
/// whose key is `key`, or `None` when no entry from `i` on has that key.
pub open spec fn first_from(d: Seq<u8>, o: int, key: Seq<u8>, i: int, r: Option<int>) -> bool {
    match r {
        Some(v) => exists|m: int|
            i <= m < count_at(d, o) && str_at(d, map_key_at(d, o, m)) == Some(key) && v == map_val_at(d, o, m)
                && forall|j: int| i <= j < m ==> str_at(d, #[trigger] map_key_at(d, o, j)) != Some(key),
        None => forall|j: int| i <= j < count_at(d, o) ==> str_at(d, #[trigger] map_key_at(d, o, j)) != Some(key),
    }
}

/// In a map with sorted keys, the scan from entry `i` finds the value of
/// the first entry from `i` on whose key is `key`, and nothing when there is
/// none.
pub proof fn lemma_scan_sorted(d: Seq<u8>, o: int, key: Seq<u8>, i: int)
    requires
        map_keys_sorted(d, o),
        0 <= i <= count_at(d, o),
    ensures
        first_from(d, o, key, i, map_scan(d, o, key, i)),
    decreases count_at(d, o) - i,
{
    if i < count_at(d, o) {
        assert(str_at(d, map_key_at(d, o, i)) is Some);
        let ki = map_key_str(d, o, i);
        lemma_scan_sorted(d, o, key, i + 1);
        if ki != key && bytes_lt(key, ki) {
            crate::format::lemma_bytes_lt_asymmetric(key, ki);
            assert forall|j: int| i <= j < count_at(d, o) implies str_at(d, #[trigger] map_key_at(d, o, j)) != Some(key) by {
                if j > i && str_at(d, map_key_at(d, o, j)) == Some(key) {
                    assert(map_key_str(d, o, j) == key);
                    assert(!bytes_lt(map_key_str(d, o, j), map_key_str(d, o, i)));
                }
            }
        }
    }
}

/// Walking the value at `o` recursively, as `visit` does, stays inside `d`,
/// meets only known tags and valid UTF-8, and nests at most `fuel` levels deep.
pub open spec fn walkable(d: Seq<u8>, o: int, fuel: nat) -> bool
    decreases fuel,
{
    if fuel == 0 || !in_heap(d, o) {
        false
    } else {
        let t = d[o];
        if t == TAG_NULL || t == TAG_TRUE || t == TAG_FALSE {
            true
        } else if t == TAG_I64 || t == TAG_F64 {
            o + 9 <= d.len()
        } else if t == TAG_STRING {
            string_body_ok(d, o)
        } else if t == TAG_ARRAY {
            &&& o + 5 <= d.len()
            &&& o + 5 + 4 * count_at(d, o) <= d.len()
            &&& forall|i: int|
                0 <= i < count_at(d, o) ==> walkable(d, #[trigger] array_elem_at(d, o, i), (fuel - 1) as nat)
        } else if t == TAG_MAP {
            &&& o + 5 <= d.len()
            &&& o + 5 + 8 * count_at(d, o) <= d.len()
            &&& forall|i: int|
                0 <= i < count_at(d, o) ==> walkable(d, #[trigger] map_key_at(d, o, i), (fuel - 1) as nat)
                    && walkable(d, map_val_at(d, o, i), (fuel - 1) as nat)
        } else {
            false
        }
    }
}

/// The value offset that `map_get` finds for `key` in the value at `o`.
pub open spec fn map_get_at(d: Seq<u8>, o: int, key: Seq<u8>) -> Option<int> {
    if d[o] == TAG_MAP {
        map_scan(d, o, key, 0)
    } else {
        None
    }
}

impl<'a> RawHeap<'a> {
    /// Wraps heap bytes, reading the root offset from the header.
    pub fn new(data: &'a [u8]) -> (h: Self)
        requires
            data@.len() >= 4,
        ensures
            h.bytes() == data@,
            h.root_at() == u32_at(data@, 0),
    {
        let root_offset = read_u32(data, 0);
        RawHeap { data, root_offset }
    }

    /// A reference to the root value.
    pub fn root(&self) -> (r: HeapRef<'a>)
        ensures
            r@ == (HeapView { data: self.bytes(), offset: self.root_at() as int }),
    {
        HeapRef { data: self.data, offset: self.root_offset as usize }
    }
}

impl<'a> HeapRef<'a> {
    /// The position of the value in the heap.
    pub fn offset(&self) -> (o: usize)
        ensures
            o == self@.offset,
    {
        self.offset
    }

    /// The length of the whole heap.
    pub fn heap_len(&self) -> (n: usize)
        ensures
            n == self@.data.len(),
    {
        self.data.len()
    }

    /// The tag byte of the value.
    pub fn tag(&self) -> (t: u8)
        requires
            in_heap(self@.data, self@.offset),
        ensures
            t == self@.data[self@.offset],
    {
        self.data[self.offset]
    }

    /// The value as a boolean, if it is one.
    pub fn as_bool(&self) -> (r: Option<bool>)
        requires
            in_heap(self@.data, self@.offset),
        ensures
            r == bool_at(self@.data, self@.offset),
    {
        let t = self.tag();
        if t == TAG_TRUE {
            Some(true)
        } else if t == TAG_FALSE {
            Some(false)
        } else {
            None
        }
    }

    /// The value as a signed 64-bit integer, if it is one.
    pub fn as_i64(&self) -> (r: Option<i64>)
        requires
            in_heap(self@.data, self@.offset),
            self@.data[self@.offset] == TAG_I64 ==> self@.offset + 9 <= self@.data.len(),
        ensures
            r == i64_at(self@.data, self@.offset),
    {
        if self.tag() != TAG_I64 {
            return None;
        }
        // Reading the length brings its bound, usize::MAX, into the proof.
        let _len = self.data.len();
        let start = self.offset + 1;
        Some(read_u64(self.data, start) as i64)
    }

    /// The bit pattern of the value as a 64-bit float, if it is one.
    pub fn as_f64_bits(&self) -> (r: Option<u64>)
        requires
            in_heap(self@.data, self@.offset),
            self@.data[self@.offset] == TAG_F64 ==> self@.offset + 9 <= self@.data.len(),
        ensures
            r == f64_bits_at(self@.data, self@.offset),
    {
        if self.tag() != TAG_F64 {
            return None;
        }
        // Reading the length brings its bound, usize::MAX, into the proof.
        let _len = self.data.len();
        let start = self.offset + 1;
        Some(read_u64(self.data, start))
    }

    /// The value as a string, if it is one.
    pub fn as_str(&self) -> (r: Option<&'a str>)
        requires
            str_readable(self@.data, self@.offset),
        ensures
            r is Some <==> str_at(self@.data, self@.offset) is Some,
            r matches Some(s) ==> Some(s.spec_bytes()) == str_at(self@.data, self@.offset),
    {
        if self.tag() != TAG_STRING {
            return None;
        }
        // Reading the length brings its bound, usize::MAX, into the proof.
        let _len = self.data.len();
        let len_start = self.offset + 1;
        let len = read_u32(self.data, len_start) as usize;
        let str_start = len_start + 4;
        let bytes = vstd::slice::slice_subrange(self.data, str_start, str_start + len);
        match str_from_utf8(bytes) {
            Some(s) => Some(s),
            None => {
                proof {
                    assert(false);
                }
                None
            },
        }
    }

    /// The element count, if the value is an array.
    pub fn array_len(&self) -> (r: Option<usize>)
        requires
            in_heap(self@.data, self@.offset),
            self@.data[self@.offset] == TAG_ARRAY ==> self@.offset + 5 <= self@.data.len(),
        ensures
            r == array_len_at(self@.data, self@.offset),
    {
        if self.tag() != TAG_ARRAY {
            return None;
        }
        // Reading the length brings its bound, usize::MAX, into the proof.
        let _len = self.data.len();
        let start = self.offset + 1;
        Some(read_u32(self.data, start) as usize)
    }

    /// The `i`-th element, if the value is an array with more than `i` elements.
    pub fn array_get(&self, i: usize) -> (r: Option<HeapRef<'a>>)
        requires
            in_heap(self@.data, self@.offset),
            self@.data[self@.offset] == TAG_ARRAY ==> self@.offset + 5 <= self@.data.len() && (i
                < count_at(self@.data, self@.offset) ==> self@.offset + 5 + 4 * i + 4
                <= self@.data.len()),
        ensures
            self@.data[self@.offset] == TAG_ARRAY && i < count_at(self@.data, self@.offset)
                ==> r is Some && r->0@ == (HeapView {
                data: self@.data,
                offset: array_elem_at(self@.data, self@.offset, i as int),
            }),
            !(self@.data[self@.offset] == TAG_ARRAY && i < count_at(self@.data, self@.offset))
                ==> r is None,
    {
        if self.tag() != TAG_ARRAY {
            return None;
        }
        // Reading the length brings its bound, usize::MAX, into the proof.
        let _len = self.data.len();
        let count_start = self.offset + 1;
        let count = read_u32(self.data, count_start) as usize;
        if i >= count {
            return None;
        }
        let off_start = count_start + 4 + i * 4;
        let child_off = read_u32(self.data, off_start) as usize;
        Some(HeapRef { data: self.data, offset: child_off })
    }

    /// The entry count, if the value is a map.
    pub fn map_len(&self) -> (r: Option<usize>)
        requires
            in_heap(self@.data, self@.offset),
            self@.data[self@.offset] == TAG_MAP ==> self@.offset + 5 <= self@.data.len(),
        ensures
            r == map_len_at(self@.data, self@.offset),
    {
        if self.tag() != TAG_MAP {
            return None;
        }
        // Reading the length brings its bound, usize::MAX, into the proof.
        let _len = self.data.len();
        let start = self.offset + 1;
        Some(read_u32(self.data, start) as usize)
    }

    /// Looks up `key` in a map by a linear scan of its sorted keys: the scan
    /// stops at the first entry whose key equals `key`, or at the first whose
    /// key sorts after it.
    pub fn map_get(&self, key: &str) -> (r: Option<HeapRef<'a>>)
        requires
            in_heap(self@.data, self@.offset),
            self@.data[self@.offset] == TAG_MAP ==> self@.offset + 5 <= self@.data.len()
                && map_scan_ok(self@.data, self@.offset, key.spec_bytes(), 0),
        ensures
            r is Some <==> map_get_at(self@.data, self@.offset, key.spec_bytes()) is Some,
            r matches Some(h) ==> h@ == (HeapView {
                data: self@.data,
                offset: map_get_at(self@.data, self@.offset, key.spec_bytes())->0,
            }),
            self@.data[self@.offset] == TAG_MAP && map_keys_sorted(self@.data, self@.offset) ==> match r {
                Some(h) => exists|i: int|
                    first_with_key_at(self@.data, self@.offset, key.spec_bytes(), i) && h@.offset == map_val_at(
                        self@.data,
                        self@.offset,
                        i,
                    ),
                None => forall|i: int|
                    0 <= i < count_at(self@.data, self@.offset) ==> str_at(
                        self@.data,
                        #[trigger] map_key_at(self@.data, self@.offset, i),
                    ) != Some(key.spec_bytes()),
            },
    {
        if self.tag() != TAG_MAP {
            return None;
        }
        let ghost d = self@.data;
        let ghost o = self@.offset;
        proof {
            if map_keys_sorted(d, o) {
                lemma_scan_sorted(d, o, key.spec_bytes(), 0);
            }
        }
        // Reading the length brings its bound, usize::MAX, into the proof.
        let _len = self.data.len();
        let count_start = self.offset + 1;
        let count = read_u32(self.data, count_start) as usize;
        let entries_start = count_start + 4;
        let kb = key.as_bytes();
        let mut i: usize = 0;
        while i < count
            invariant
                d == self@.data,
                o == self@.offset,
                d.len() == self.data@.len(),
                d.len() <= usize::MAX,
                i <= count,
                count == count_at(d, o),
                entries_start == o + 5,
                kb@ == key.spec_bytes(),
                d[o] == TAG_MAP,
                map_scan_ok(d, o, kb@, i as int),
                map_scan(d, o, kb@, 0) == map_scan(d, o, kb@, i as int),
                map_keys_sorted(d, o) ==> first_from(d, o, kb@, 0, map_scan(d, o, kb@, 0)),
            decreases count - i,
        {
            assert(o + 5 + 8 * i + 4 <= d.len());
            let entry_off = entries_start + i * 8;
            let key_off = read_u32(self.data, entry_off) as usize;
            let key_ref = HeapRef { data: self.data, offset: key_off };
            assert(key_ref@.offset == map_key_at(d, o, i as int));
            match key_ref.as_str() {
                Some(k) => {
                    let kk = k.as_bytes();
                    let ord = compare_bytes(kk, kb);
                    proof {
                        crate::format::lemma_bytes_lt_total(kk@, kb@);
                        crate::format::lemma_bytes_lt_asymmetric(kk@, kb@);
                        crate::format::lemma_bytes_lt_asymmetric(kb@, kk@);
                    }
                    if ord == ByteOrder::Equal {
                        assert(kk@ == kb@);
                        assert(str_at(d, map_key_at(d, o, i as int)) == Some(kb@));
                        assert(map_scan(d, o, kb@, i as int) == Some(map_val_at(d, o, i as int)));
                        let val_off = read_u32(self.data, entry_off + 4) as usize;
                        return Some(HeapRef { data: self.data, offset: val_off });
                    } else if ord == ByteOrder::Greater {
                        return None;
                    }
                },
                None => {},
            }
            i = i + 1;
        }
        None
    }

    /// Walks every value reachable from this one, reading each.
    pub fn visit(&self)
        requires
            exists|fuel: nat| walkable(self@.data, self@.offset, fuel),
    {
        let ghost fuel = choose|fuel: nat| walkable(self@.data, self@.offset, fuel);
        self.visit_within(Ghost(fuel));
    }

    fn visit_within(&self, Ghost(fuel): Ghost<nat>)
        requires
            walkable(self@.data, self@.offset, fuel),
        decreases fuel,
    {
        let ghost d = self@.data;
        let ghost o = self@.offset;
        // Reading the length brings its bound, usize::MAX, into the proof.
        let _len = self.data.len();
        let t = self.tag();
        if t == TAG_NULL {
            consume(());
        } else if t == TAG_TRUE || t == TAG_FALSE {
            consume(self.as_bool());
        } else if t == TAG_I64 {
            consume(self.as_i64());
        } else if t == TAG_F64 {
            consume(self.as_f64_bits());
        } else if t == TAG_STRING {
            consume(self.as_str());
        } else if t == TAG_ARRAY {
            let count = self.array_len().unwrap();
            let mut i: usize = 0;
            while i < count
                invariant
                    d == self@.data,
                    o == self@.offset,
                    fuel > 0,
                    d[o] == TAG_ARRAY,
                    count == count_at(d, o),
                    o + 5 + 4 * count_at(d, o) <= d.len(),
                    forall|j: int| 0 <= j < count_at(d, o) ==> walkable(d, #[trigger] array_elem_at(d, o, j), (fuel - 1) as nat),
                decreases count - i,
            {
                let child = self.array_get(i).unwrap();
                assert(walkable(d, array_elem_at(d, o, i as int), (fuel - 1) as nat));
                child.visit_within(Ghost((fuel - 1) as nat));
                i = i + 1;
            }
        } else if t == TAG_MAP {
            let count_start = self.offset + 1;
            let count = read_u32(self.data, count_start) as usize;
            let entries_start = count_start + 4;
            assert forall|j: int| 0 <= j < count_at(d, o) implies walkable(d, #[trigger] map_val_at(d, o, j), (fuel - 1) as nat) by {
                assert(walkable(d, map_key_at(d, o, j), (fuel - 1) as nat));
            }
            let mut i: usize = 0;
            while i < count
                invariant
                    d == self@.data,
                    o == self@.offset,
                    d.len() == self.data@.len(),
                    d.len() <= usize::MAX,
                    fuel > 0,
                    count == count_at(d, o),
                    entries_start == o + 5,
                    o + 5 + 8 * count_at(d, o) <= d.len(),
                    forall|j: int| 0 <= j < count_at(d, o) ==> walkable(d, #[trigger] map_key_at(d, o, j), (fuel - 1) as nat),
                    forall|j: int| 0 <= j < count_at(d, o) ==> walkable(d, #[trigger] map_val_at(d, o, j), (fuel - 1) as nat),
                decreases count - i,
            {
                let entry_off = entries_start + i * 8;
                let key_off = read_u32(self.data, entry_off) as usize;
                let val_off = read_u32(self.data, entry_off + 4) as usize;
                assert(key_off as int == map_key_at(d, o, i as int));
                assert(val_off as int == map_val_at(d, o, i as int));
                HeapRef { data: self.data, offset: key_off }.visit_within(Ghost((fuel - 1) as nat));
                HeapRef { data: self.data, offset: val_off }.visit_within(Ghost((fuel - 1) as nat));
                i = i + 1;
            }
        } else {
            proof {
                assert(false);
            }
        }
    }

    /// Whether `visit` can walk this value to its end within `max_depth`
    /// levels of nesting: every value reached lies inside the heap, has a
    /// known tag, and every string is valid UTF-8.
    pub fn is_walkable(&self, max_depth: usize) -> (r: bool)
        ensures
            r == walkable(self@.data, self@.offset, max_depth as nat),
        decreases max_depth,
    {
        let ghost d = self@.data;
        let ghost o = self@.offset;
        if max_depth == 0 {
            return false;
        }
        let n = self.data.len();
        if self.offset >= n {
            return false;
        }
        let t = self.data[self.offset];
        let room = n - self.offset;
        if t == TAG_NULL || t == TAG_TRUE || t == TAG_FALSE {
            true
        } else if t == TAG_I64 || t == TAG_F64 {
            room >= 9
        } else if t == TAG_STRING {
            if room < 5 {
                return false;
            }
            let len = read_u32(self.data, self.offset + 1) as usize;
            if room - 5 < len {
                return false;
            }
            let start = self.offset + 5;
            let bytes = vstd::slice::slice_subrange(self.data, start, start + len);
            str_from_utf8(bytes).is_some()
        } else if t == TAG_ARRAY {
            if room < 5 {
                return false;
            }
            let count = read_u32(self.data, self.offset + 1) as usize;
            if (room - 5) / 4 < count {
                return false;
            }
            let mut i: usize = 0;
            while i < count
                invariant
                    d == self@.data,
                    o == self@.offset,
                    n == d.len(),
                    max_depth > 0,
                    in_heap(d, o),
                    d[o] == TAG_ARRAY,
                    i <= count,
                    count == count_at(d, o),
                    o + 5 + 4 * count_at(d, o) <= d.len(),
                    forall|j: int| 0 <= j < i ==> walkable(d, #[trigger] array_elem_at(d, o, j), (max_depth - 1) as nat),
                decreases count - i,
            {
                let child = self.array_get(i).unwrap();
                if !child.is_walkable(max_depth - 1) {
                    return false;
                }
                i = i + 1;
            }
            true
        } else if t == TAG_MAP {
            if room < 5 {
                return false;
            }
            let count = read_u32(self.data, self.offset + 1) as usize;
            if (room - 5) / 8 < count {
                return false;
            }
            let entries_start = self.offset + 5;
            let mut i: usize = 0;
            while i < count
                invariant
                    d == self@.data,
                    o == self@.offset,
                    n == d.len(),
                    max_depth > 0,
                    in_heap(d, o),
                    d[o] == TAG_MAP,
                    i <= count,
                    count == count_at(d, o),
                    entries_start == o + 5,
                    o + 5 + 8 * count_at(d, o) <= d.len(),
                    forall|j: int| 0 <= j < i ==> walkable(d, #[trigger] map_key_at(d, o, j), (max_depth - 1) as nat),
                    forall|j: int| 0 <= j < i ==> walkable(d, #[trigger] map_val_at(d, o, j), (max_depth - 1) as nat),
                decreases count - i,
            {
                let entry_off = entries_start + i * 8;
                let key_off = read_u32(self.data, entry_off) as usize;
                let val_off = read_u32(self.data, entry_off + 4) as usize;
                assert(key_off as int == map_key_at(d, o, i as int));
                assert(val_off as int == map_val_at(d, o, i as int));
                if !(HeapRef { data: self.data, offset: key_off }).is_walkable(max_depth - 1) {
                    return false;
                }
                if !(HeapRef { data: self.data, offset: val_off }).is_walkable(max_depth - 1) {
                    return false;
                }
                i = i + 1;
            }
            true
        } else {
            false
        }
    }
}

} // verus!
