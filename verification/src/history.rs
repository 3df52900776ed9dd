//! What any run of builder writes leaves behind: a heap that can be walked
//! from the value of any of its writes, as long as arrays and maps refer only
//! to values written before them.

use vstd::prelude::*;
use vstd::utf8::valid_utf8;
use crate::builder::{
    entry_key, key_ok, lemma_enc_string_key, lemma_key_ok_extends, lemma_sort_entries_elems,
    lemma_sort_entries_len, sort_entries,
};
use crate::bulk::heap_walkable;
use crate::format::{
    enc_array, enc_bool, enc_f64_bits, enc_i64, enc_map, enc_null, enc_string, lemma_pairs_le,
    lemma_u32s_le, str_bytes_at, u32_at,
};
use crate::laws::{
    entries_sorted, lemma_sort_entries_sorted, lemma_stored_map_sorted, finished, holds_at, lemma_finish_keeps, lemma_finish_root, lemma_read_array, lemma_read_bool,
    lemma_read_f64_bits, lemma_read_i64, lemma_read_map, lemma_read_null, lemma_read_string,
    lemma_walkable_mono,
};
use crate::reader::{
    array_elem_at, array_len_at, bool_at, count_at, f64_bits_at, i64_at, map_key_at, map_keys_sorted,
    map_len_at, map_val_at, str_at, walkable,
};

verus! {

/// One call of a builder's write methods, with what it was handed.
pub enum HeapWrite {
    /// `write_null`.
    Null,
    /// `write_bool`.
    Bool(bool),
    /// `write_i64`.
    Int(i64),
    /// `write_f64_bits`.
    FloatBits(u64),
    /// `write_string`, with the bytes of the string.
    Text(Seq<u8>),
    /// `write_array`, with the offsets of the elements.
    List(Seq<u32>),
    /// `write_map`, with the (key, value) offset pairs as handed over.
    Object(Seq<(u32, u32)>),
}

/// The bytes that the write `w` appends to the builder bytes `b`, as the
/// write methods' contracts give them: a map's entries are first sorted by
/// the content of their keys in `b`.
pub open spec fn write_bytes(b: Seq<u8>, w: HeapWrite) -> Seq<u8> {
    match w {
        HeapWrite::Null => enc_null(),
        HeapWrite::Bool(v) => enc_bool(v),
        HeapWrite::Int(v) => enc_i64(v),
        HeapWrite::FloatBits(bits) => enc_f64_bits(bits),
        HeapWrite::Text(s) => enc_string(s),
        HeapWrite::List(offs) => enc_array(offs),
        HeapWrite::Object(es) => enc_map(sort_entries(b, es)),
    }
}

/// The bytes of a new builder after the writes `ws`.
pub open spec fn built(ws: Seq<HeapWrite>) -> Seq<u8>
    decreases ws.len(),
{
    if ws.len() == 0 {
        seq![0u8, 0u8, 0u8, 0u8]
    } else {
        let b = built(ws.drop_last());
        b + write_bytes(b, ws.last())
    }
}

/// The offset that write `k` of `ws` returned.
pub open spec fn write_offset(ws: Seq<HeapWrite>, k: int) -> int {
    built(ws.take(k)).len() as int
}

/// `o` is the offset that one of the first `k` writes of `ws` returned.
pub open spec fn earlier_offset(ws: Seq<HeapWrite>, k: int, o: int) -> bool {
    exists|j: int| 0 <= j < k && #[trigger] write_offset(ws, j) == o
}

/// Write `k` of `ws` refers only to what was written before it: a string
/// holds UTF-8, and every offset that an array or a map holds is one that an
/// earlier write returned.
pub open spec fn refers_back(ws: Seq<HeapWrite>, k: int) -> bool {
    match ws[k] {
        HeapWrite::Text(s) => valid_utf8(s),
        HeapWrite::List(offs) => forall|i: int|
            0 <= i < offs.len() ==> earlier_offset(ws, k, #[trigger] offs[i] as int),
        HeapWrite::Object(es) => forall|i: int|
            0 <= i < es.len() ==> earlier_offset(ws, k, #[trigger] es[i].0 as int) && earlier_offset(
                ws,
                k,
                es[i].1 as int,
            ),
        _ => true,
    }
}

/// The bytes of the first `n` writes begin the bytes of all of them.
proof fn lemma_built_prefix(ws: Seq<HeapWrite>, n: int)
    requires
        0 <= n <= ws.len(),
    ensures
        built(ws.take(n)).len() >= 4,
        built(ws.take(n)).is_prefix_of(built(ws)),
    decreases ws.len(),
{
    if n == ws.len() {
        assert(ws.take(n) =~= ws);
        lemma_built_len(ws);
    } else {
        let p = ws.drop_last();
        assert(p.take(n) =~= ws.take(n));
        lemma_built_prefix(p, n);
        let a = built(ws.take(n));
        let b = built(p);
        let c = built(ws);
        assert(c.subrange(0, b.len() as int) =~= b);
        assert(c.subrange(0, a.len() as int) =~= b.subrange(0, a.len() as int));
    }
}

/// A builder's bytes always hold the header.
proof fn lemma_built_len(ws: Seq<HeapWrite>)
    ensures
        built(ws).len() >= 4,
    decreases ws.len(),
{
    if ws.len() > 0 {
        lemma_built_len(ws.drop_last());
    }
}

/// Write `k` of `ws` sits, as `write_bytes` gives it, at its offset in the
/// bytes of all the writes.
proof fn lemma_write_holds(ws: Seq<HeapWrite>, k: int)
    requires
        0 <= k < ws.len(),
    ensures
        write_offset(ws, k) >= 4,
        holds_at(built(ws), write_offset(ws, k), write_bytes(built(ws.take(k)), ws[k])),
        write_offset(ws, k) + write_bytes(built(ws.take(k)), ws[k]).len() <= built(ws).len(),
{
    let t = ws.take(k + 1);
    assert(t.drop_last() =~= ws.take(k));
    let b = built(ws.take(k));
    let e = write_bytes(b, ws[k]);
    lemma_built_prefix(ws, k);
    lemma_built_prefix(ws, k + 1);
    assert(built(t) == b + e);
    let o = b.len() as int;
    assert(built(ws).subrange(o, o + e.len()) =~= built(t).subrange(o, o + e.len()));
    assert(built(t).subrange(o, o + e.len()) =~= e);
}

/// The value of write `k` can be walked within `k + 1` levels, in the heap
/// finished from all the writes, given that every earlier one can be walked
/// within its own index plus one.
proof fn lemma_write_walkable(ws: Seq<HeapWrite>, k: int, root: u32)
    requires
        0 <= k < ws.len(),
        refers_back(ws, k),
        built(ws).len() <= u32::MAX,
        forall|j: int|
            0 <= j < k ==> walkable(finished(built(ws), root), #[trigger] write_offset(ws, j), (j + 1) as nat),
    ensures
        walkable(finished(built(ws), root), write_offset(ws, k), (k + 1) as nat),
{
    let d = finished(built(ws), root);
    let b = built(ws.take(k));
    let o = write_offset(ws, k);
    let e = write_bytes(b, ws[k]);
    let f = (k + 1) as nat;
    lemma_write_holds(ws, k);
    lemma_built_len(ws);
    lemma_finish_keeps(built(ws), root, o, e);
    lemma_finish_root(built(ws), root);
    match ws[k] {
        HeapWrite::Null => {
            lemma_read_null(d, o);
            lemma_walkable_mono(d, o, 1, f);
        },
        HeapWrite::Bool(v) => {
            lemma_read_bool(d, o, v);
            lemma_walkable_mono(d, o, 1, f);
        },
        HeapWrite::Int(v) => {
            lemma_read_i64(d, o, v);
            lemma_walkable_mono(d, o, 1, f);
        },
        HeapWrite::FloatBits(bits) => {
            lemma_read_f64_bits(d, o, bits);
            lemma_walkable_mono(d, o, 1, f);
        },
        HeapWrite::Text(s) => {
            lemma_read_string(d, o, s);
            lemma_walkable_mono(d, o, 1, f);
        },
        HeapWrite::List(offs) => {
            lemma_u32s_le(offs);
            lemma_read_array(d, o, offs);
            assert forall|i: int| 0 <= i < count_at(d, o) implies walkable(d, #[trigger] array_elem_at(d, o, i), k as nat) by {
                assert(earlier_offset(ws, k, offs[i] as int));
                let j = choose|j: int| 0 <= j < k && #[trigger] write_offset(ws, j) == offs[i] as int;
                lemma_walkable_mono(d, write_offset(ws, j), (j + 1) as nat, k as nat);
            }
        },
        HeapWrite::Object(es) => {
            let sorted = sort_entries(b, es);
            lemma_sort_entries_len(b, es);
            lemma_sort_entries_elems(b, es);
            lemma_pairs_le(sorted);
            lemma_read_map(d, o, sorted);
            assert forall|i: int| 0 <= i < count_at(d, o) implies walkable(d, #[trigger] map_key_at(d, o, i), k as nat)
                && walkable(d, map_val_at(d, o, i), k as nat) by {
                let jj = choose|jj: int| 0 <= jj < es.len() && #[trigger] sorted[i] == es[jj];
                assert(earlier_offset(ws, k, es[jj].0 as int));
                assert(earlier_offset(ws, k, es[jj].1 as int));
                let j1 = choose|j: int| 0 <= j < k && #[trigger] write_offset(ws, j) == es[jj].0 as int;
                let j2 = choose|j: int| 0 <= j < k && #[trigger] write_offset(ws, j) == es[jj].1 as int;
                lemma_walkable_mono(d, write_offset(ws, j1), (j1 + 1) as nat, k as nat);
                lemma_walkable_mono(d, write_offset(ws, j2), (j2 + 1) as nat, k as nat);
            }
        },
    }
}

/// The values of the first `n` writes can each be walked within their index
/// plus one, in the heap finished from all the writes.
proof fn lemma_writes_walkable(ws: Seq<HeapWrite>, n: int, root: u32)
    requires
        0 <= n <= ws.len(),
        forall|j: int| 0 <= j < ws.len() ==> refers_back(ws, j),
        built(ws).len() <= u32::MAX,
    ensures
        forall|j: int|
            0 <= j < n ==> walkable(finished(built(ws), root), #[trigger] write_offset(ws, j), (j + 1) as nat),
    decreases n,
{
    if n > 0 {
        lemma_writes_walkable(ws, n - 1, root);
        lemma_write_walkable(ws, n - 1, root);
    }
}

/// A heap finished from any run of writes on a new builder, with the offset
/// of any of those writes as its root, can be walked from the root to its
/// end, provided every string written is UTF-8 and every array and map
/// written holds only offsets that earlier writes returned, and the heap
/// stays addressable by 32-bit offsets.
pub proof fn lemma_built_heap_walkable(ws: Seq<HeapWrite>, k: int)
    requires
        forall|j: int| 0 <= j < ws.len() ==> refers_back(ws, j),
        built(ws).len() <= u32::MAX,
        0 <= k < ws.len(),
    ensures
        heap_walkable(finished(built(ws), write_offset(ws, k) as u32)),
{
    lemma_write_holds(ws, k);
    let root = write_offset(ws, k) as u32;
    assert(root as int == write_offset(ws, k));
    lemma_built_len(ws);
    lemma_finish_root(built(ws), root);
    lemma_writes_walkable(ws, ws.len() as int, root);
    let f = finished(built(ws), root);
    assert(walkable(f, write_offset(ws, k), (k + 1) as nat));
    assert(walkable(f, u32_at(f, 0) as int, (k + 1) as nat));
}

/// A string written on a builder stays, through every later write, a
/// readable key at the offset its write returned, with the bytes it was
/// written with: what the builder reads back when it sorts map entries.
pub proof fn lemma_written_string_stays_key(ws: Seq<HeapWrite>, k: int, s: Seq<u8>)
    requires
        0 <= k < ws.len(),
        ws[k] == HeapWrite::Text(s),
        valid_utf8(s),
        built(ws).len() <= u32::MAX,
    ensures
        key_ok(built(ws), write_offset(ws, k) as u32),
        str_bytes_at(built(ws), write_offset(ws, k)) == s,
{
    let t = ws.take(k + 1);
    assert(t.drop_last() =~= ws.take(k));
    let b = built(ws.take(k));
    lemma_built_prefix(ws, k + 1);
    assert(built(t) == b + enc_string(s));
    lemma_enc_string_key(b, s);
    lemma_key_ok_extends(built(t), built(ws), b.len() as u32);
}

/// `o` is the offset that one of the first `k` writes of `ws` returned, and
/// that write was of a string holding UTF-8.
pub open spec fn string_written_before(ws: Seq<HeapWrite>, k: int, o: int) -> bool {
    exists|j: int|
        0 <= j < k && #[trigger] write_offset(ws, j) == o && (ws[j] matches HeapWrite::Text(s) && valid_utf8(s))
}

/// The string that write `j` wrote sits at its offset in the heap finished
/// from all the writes, with its bytes.
proof fn lemma_written_string_in_heap(ws: Seq<HeapWrite>, j: int, s: Seq<u8>, root: u32)
    requires
        0 <= j < ws.len(),
        ws[j] == HeapWrite::Text(s),
        valid_utf8(s),
        built(ws).len() <= u32::MAX,
    ensures
        key_ok(finished(built(ws), root), write_offset(ws, j) as u32),
        str_at(finished(built(ws), root), write_offset(ws, j)) == Some(s),
{
    let o = write_offset(ws, j);
    lemma_write_holds(ws, j);
    lemma_built_len(ws);
    lemma_finish_keeps(built(ws), root, o, enc_string(s));
    lemma_finish_root(built(ws), root);
    lemma_read_string(finished(built(ws), root), o, s);
}

/// A map written on a builder, whose keys are all strings written before
/// it, has its keys sorted as the reader sees them in every heap finished
/// after it: so `map_get` on it finds the first entry with the key it looks
/// for, or nothing when no entry has it.
pub proof fn lemma_built_map_sorted(ws: Seq<HeapWrite>, k: int, es: Seq<(u32, u32)>, root: u32)
    requires
        0 <= k < ws.len(),
        ws[k] == HeapWrite::Object(es),
        forall|i: int| 0 <= i < es.len() ==> string_written_before(ws, k, #[trigger] es[i].0 as int),
        built(ws).len() <= u32::MAX,
    ensures
        map_keys_sorted(finished(built(ws), root), write_offset(ws, k)),
{
    let d = finished(built(ws), root);
    let pre = ws.take(k);
    let b = built(pre);
    let o = write_offset(ws, k);
    let sorted = sort_entries(b, es);
    lemma_write_holds(ws, k);
    lemma_built_len(ws);
    lemma_built_prefix(ws, k);
    lemma_finish_keeps(built(ws), root, o, enc_map(sorted));
    lemma_finish_root(built(ws), root);
    lemma_sort_entries_len(b, es);
    lemma_sort_entries_elems(b, es);
    lemma_sort_entries_sorted(b, es);
    lemma_pairs_le(sorted);
    // Every key reads the same in the builder before the map and in the heap.
    assert forall|i: int| 0 <= i < sorted.len() implies key_ok(d, #[trigger] sorted[i].0)
        && entry_key(d, sorted[i]) == entry_key(b, sorted[i]) by {
        let m = choose|m: int| 0 <= m < es.len() && #[trigger] sorted[i] == es[m];
        assert(string_written_before(ws, k, es[m].0 as int));
        let j = choose|j: int|
            0 <= j < k && #[trigger] write_offset(ws, j) == es[m].0 as int && (ws[j] matches HeapWrite::Text(s)
                && valid_utf8(s));
        let s = ws[j]->Text_0;
        lemma_written_string_in_heap(ws, j, s, root);
        assert(pre.take(j) =~= ws.take(j));
        assert(pre[j] == ws[j]);
        lemma_written_string_stays_key(pre, j, s);
    }
    assert(entries_sorted(d, sorted)) by {
        assert forall|i: int, j: int| 0 <= i < j < sorted.len() implies !crate::format::bytes_lt(
            #[trigger] entry_key(d, sorted[j]),
            #[trigger] entry_key(d, sorted[i]),
        ) by {
            assert(entry_key(d, sorted[j]) == entry_key(b, sorted[j]));
            assert(entry_key(d, sorted[i]) == entry_key(b, sorted[i]));
        }
    }
    lemma_stored_map_sorted(d, o, sorted);
}

/// In a heap finished after any run of writes, the value of each write
/// reads back through the reader of its own kind as what was written, and
/// every reader of another kind finds nothing there: a boolean is no
/// integer, an integer no boolean, a map no array, and so on.
pub proof fn lemma_write_reads_as_its_kind(ws: Seq<HeapWrite>, k: int, root: u32)
    requires
        0 <= k < ws.len(),
        built(ws).len() <= u32::MAX,
    ensures
        ({
            let d = finished(built(ws), root);
            let o = write_offset(ws, k);
            &&& bool_at(d, o) == (match ws[k] {
                HeapWrite::Bool(x) => Some(x),
                _ => None,
            })
            &&& i64_at(d, o) == (match ws[k] {
                HeapWrite::Int(x) => Some(x),
                _ => None,
            })
            &&& f64_bits_at(d, o) == (match ws[k] {
                HeapWrite::FloatBits(bits) => Some(bits),
                _ => None,
            })
            &&& str_at(d, o) == (match ws[k] {
                HeapWrite::Text(s) => Some(s),
                _ => None,
            })
            &&& array_len_at(d, o) == (match ws[k] {
                HeapWrite::List(offs) => Some(offs.len() as usize),
                _ => None,
            })
            &&& map_len_at(d, o) == (match ws[k] {
                HeapWrite::Object(es) => Some(es.len() as usize),
                _ => None,
            })
            &&& (ws[k] matches HeapWrite::List(offs) ==> forall|i: int|
                0 <= i < offs.len() ==> #[trigger] array_elem_at(d, o, i) == offs[i])
        }),
{
    let d = finished(built(ws), root);
    let o = write_offset(ws, k);
    let b = built(ws.take(k));
    let e = write_bytes(b, ws[k]);
    lemma_write_holds(ws, k);
    lemma_built_len(ws);
    lemma_finish_keeps(built(ws), root, o, e);
    lemma_finish_root(built(ws), root);
    assert(d[o] == e[0]);
    match ws[k] {
        HeapWrite::Null => {},
        HeapWrite::Bool(x) => {
            lemma_read_bool(d, o, x);
        },
        HeapWrite::Int(x) => {
            lemma_read_i64(d, o, x);
        },
        HeapWrite::FloatBits(bits) => {
            lemma_read_f64_bits(d, o, bits);
        },
        HeapWrite::Text(s) => {
            lemma_read_string(d, o, s);
        },
        HeapWrite::List(offs) => {
            lemma_u32s_le(offs);
            lemma_read_array(d, o, offs);
        },
        HeapWrite::Object(es) => {
            let sorted = sort_entries(b, es);
            lemma_sort_entries_len(b, es);
            lemma_pairs_le(sorted);
            lemma_read_map(d, o, sorted);
        },
    }
}

} // verus!
