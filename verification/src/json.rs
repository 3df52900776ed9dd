//! Writing a whole JSON document into a heap.

use vstd::prelude::*;
use vstd::utf8::{encode_utf8, encode_utf8_valid_utf8};
use crate::builder::{
    key_ok, lemma_enc_string_key, lemma_key_ok_extends, lemma_sort_entries_len, sort_entries,
    HeapBuilder,
};
use crate::laws::finished;
use crate::format::{
    enc_array, enc_bool, enc_f64_bits, enc_i64, enc_map, enc_null, enc_string, str_len_at,
    string_body_ok, u32_at, u32_le, lemma_pairs_le, lemma_u32s_le,
};

verus! {

/// A JSON document. A number is either an integer that fits `i64` or the
/// bit pattern of an `f64`.
pub enum JsonValue {
    Null,
    Bool(bool),
    Int(i64),
    Float(u64),
    Str(String),
    Array(Vec<JsonValue>),
    Object(Vec<(String, JsonValue)>),
}

/// The heap bytes after writing `v` onto the heap `b`, and the offset of `v`.
/// An array's elements are written first, in order; an object's fields are
/// written in order, each as its key string followed by its value, and the
/// map's entries are then sorted stably by key content.
pub open spec fn json_write(b: Seq<u8>, v: JsonValue) -> (Seq<u8>, u32)
    decreases v,
{
    match v {
        JsonValue::Null => (b + enc_null(), b.len() as u32),
        JsonValue::Bool(x) => (b + enc_bool(x), b.len() as u32),
        JsonValue::Int(x) => (b + enc_i64(x), b.len() as u32),
        JsonValue::Float(bits) => (b + enc_f64_bits(bits), b.len() as u32),
        JsonValue::Str(s) => (b + enc_string(encode_utf8(s@)), b.len() as u32),
        JsonValue::Array(items) => {
            let (b1, offs) = json_write_items(b, items@);
            (b1 + enc_array(offs), b1.len() as u32)
        },
        JsonValue::Object(fields) => {
            let (b1, es) = json_write_fields(b, fields@);
            (b1 + enc_map(sort_entries(b1, es)), b1.len() as u32)
        },
    }
}

/// The heap after writing `items` one after the other onto `b`, and their offsets.
pub open spec fn json_write_items(b: Seq<u8>, items: Seq<JsonValue>) -> (Seq<u8>, Seq<u32>)
    decreases items,
{
    if items.len() == 0 {
        (b, Seq::empty())
    } else {
        let (b1, offs) = json_write_items(b, items.drop_last());
        let (b2, o) = json_write(b1, items.last());
        (b2, offs.push(o))
    }
}

/// The heap after writing each field of `fields` (its key string, then its
/// value) onto `b`, and the (key offset, value offset) pairs.
pub open spec fn json_write_fields(b: Seq<u8>, fields: Seq<(String, JsonValue)>) -> (Seq<u8>, Seq<(u32, u32)>)
    decreases fields,
{
    if fields.len() == 0 {
        (b, Seq::empty())
    } else {
        let (b1, es) = json_write_fields(b, fields.drop_last());
        let b2 = b1 + enc_string(encode_utf8(fields.last().0@));
        let (b3, vo) = json_write(b2, fields.last().1);
        (b3, es.push((b1.len() as u32, vo)))
    }
}


/// Writing a value only appends to the heap.
pub proof fn lemma_json_write_extends(b: Seq<u8>, v: JsonValue)
    ensures
        b.is_prefix_of(json_write(b, v).0),
        json_write(b, v).0.len() > b.len(),
    decreases v,
{
    match v {
        JsonValue::Array(items) => {
            lemma_items_extend(b, items@);
        },
        JsonValue::Object(fields) => {
            lemma_fields_extend(b, fields@);
        },
        _ => {},
    }
}

/// Writing a run of values only appends to the heap.
pub proof fn lemma_items_extend(b: Seq<u8>, items: Seq<JsonValue>)
    ensures
        b.is_prefix_of(json_write_items(b, items).0),
        json_write_items(b, items).1.len() == items.len(),
    decreases items,
{
    if items.len() > 0 {
        let b1 = json_write_items(b, items.drop_last()).0;
        lemma_items_extend(b, items.drop_last());
        lemma_json_write_extends(b1, items.last());
    }
}

/// Writing a run of object fields only appends to the heap.
pub proof fn lemma_fields_extend(b: Seq<u8>, fields: Seq<(String, JsonValue)>)
    ensures
        b.is_prefix_of(json_write_fields(b, fields).0),
        json_write_fields(b, fields).1.len() == fields.len(),
    decreases fields,
{
    if fields.len() > 0 {
        let b1 = json_write_fields(b, fields.drop_last()).0;
        let b2 = b1 + enc_string(encode_utf8(fields.last().0@));
        lemma_fields_extend(b, fields.drop_last());
        lemma_json_write_extends(b2, fields.last().1);
    }
}

/// Writing the first `i` items leaves a prefix of the heap that writing all of them leaves.
pub proof fn lemma_items_prefix(b: Seq<u8>, items: Seq<JsonValue>, i: int)
    requires
        0 <= i <= items.len(),
    ensures
        json_write_items(b, items.take(i)).0.is_prefix_of(json_write_items(b, items).0),
    decreases items.len(),
{
    if i == items.len() {
        assert(items.take(i) =~= items);
    } else {
        let p = items.drop_last();
        assert(p.take(i) =~= items.take(i));
        lemma_items_prefix(b, p, i);
        lemma_json_write_extends(json_write_items(b, p).0, items.last());
    }
}

/// Writing the first `i` fields leaves a prefix of the heap that writing all of them leaves.
pub proof fn lemma_fields_prefix(b: Seq<u8>, fields: Seq<(String, JsonValue)>, i: int)
    requires
        0 <= i <= fields.len(),
    ensures
        json_write_fields(b, fields.take(i)).0.is_prefix_of(json_write_fields(b, fields).0),
    decreases fields.len(),
{
    if i == fields.len() {
        assert(fields.take(i) =~= fields);
    } else {
        let p = fields.drop_last();
        assert(p.take(i) =~= fields.take(i));
        lemma_fields_prefix(b, p, i);
        let b1 = json_write_fields(b, p).0;
        lemma_json_write_extends(b1 + enc_string(encode_utf8(fields.last().0@)), fields.last().1);
    }
}


/// One more item: how writing the first `i + 1` items extends writing the first `i`.
proof fn lemma_items_step(b0: Seq<u8>, items: Seq<JsonValue>, i: int)
    requires
        0 <= i < items.len(),
    ensures
        json_write_items(b0, items.take(i + 1)) == ({
            let (b1, offs) = json_write_items(b0, items.take(i));
            let (b2, o) = json_write(b1, items[i]);
            (b2, offs.push(o))
        }),
        json_write_items(b0, items.take(i + 1)).0.is_prefix_of(json_write_items(b0, items).0),
{
    lemma_items_prefix(b0, items, i + 1);
    assert(items.take(i + 1).drop_last() =~= items.take(i));
    assert(items.take(i + 1).last() == items[i]);
}

/// One more field: how writing the first `i + 1` fields extends writing the first `i`.
proof fn lemma_fields_step(b0: Seq<u8>, fields: Seq<(String, JsonValue)>, i: int)
    requires
        0 <= i < fields.len(),
    ensures
        json_write_fields(b0, fields.take(i + 1)) == ({
            let (b1, es) = json_write_fields(b0, fields.take(i));
            let b2 = b1 + enc_string(encode_utf8(fields[i].0@));
            let (b3, vo) = json_write(b2, fields[i].1);
            (b3, es.push((b1.len() as u32, vo)))
        }),
        json_write_fields(b0, fields.take(i + 1)).0.is_prefix_of(json_write_fields(b0, fields).0),
        (json_write_fields(b0, fields.take(i)).0 + enc_string(encode_utf8(fields[i].0@))).is_prefix_of(
            json_write_fields(b0, fields.take(i + 1)).0,
        ),
{
    lemma_fields_prefix(b0, fields, i + 1);
    assert(fields.take(i + 1).drop_last() =~= fields.take(i));
    assert(fields.take(i + 1).last() == fields[i]);
    let b2 = json_write_fields(b0, fields.take(i)).0 + enc_string(encode_utf8(fields[i].0@));
    lemma_json_write_extends(b2, fields[i].1);
}

/// Every key that writing `fields` records is a readable string of the
/// resulting heap, as long as that heap stays addressable by 32-bit offsets.
proof fn lemma_fields_keys(b0: Seq<u8>, fields: Seq<(String, JsonValue)>)
    requires
        json_write_fields(b0, fields).0.len() <= u32::MAX,
    ensures
        forall|k: int|
            0 <= k < json_write_fields(b0, fields).1.len() ==> key_ok(
                json_write_fields(b0, fields).0,
                #[trigger] json_write_fields(b0, fields).1[k].0,
            ),
    decreases fields.len(),
{
    if fields.len() > 0 {
        let p = fields.drop_last();
        let (b1, es) = json_write_fields(b0, p);
        let b2 = b1 + enc_string(encode_utf8(fields.last().0@));
        let b3 = json_write(b2, fields.last().1).0;
        lemma_json_write_extends(b2, fields.last().1);
        lemma_fields_keys(b0, p);
        encode_utf8_valid_utf8(fields.last().0@);
        lemma_enc_string_key(b1, encode_utf8(fields.last().0@));
        lemma_key_ok_extends(b2, b3, b1.len() as u32);
        assert forall|k: int| 0 <= k < es.len() implies key_ok(b3, #[trigger] es[k].0) by {
            lemma_key_ok_extends(b1, b3, es[k].0);
        }
        let all = json_write_fields(b0, fields).1;
        assert(all == es.push((b1.len() as u32, json_write(b2, fields.last().1).1)));
        assert forall|k: int| 0 <= k < all.len() implies key_ok(b3, #[trigger] all[k].0) by {
            if k < es.len() {
                assert(all[k] == es[k]);
            }
        }
    }
}

/// The nesting depth of `v`: 1 for a scalar, one more than the deepest
/// element, key or value for an array or an object.
pub open spec fn json_depth(v: JsonValue) -> nat
    decreases v,
{
    match v {
        JsonValue::Array(items) => 1 + items_depth(items@),
        JsonValue::Object(fields) => 1 + fields_depth(fields@),
        _ => 1,
    }
}

/// The greatest depth among `items`, and at least 1.
pub open spec fn items_depth(items: Seq<JsonValue>) -> nat
    decreases items,
{
    if items.len() == 0 {
        1
    } else {
        let a = items_depth(items.drop_last());
        let b = json_depth(items.last());
        if a >= b {
            a
        } else {
            b
        }
    }
}

/// The greatest depth among the values of `fields`, and at least 1 (the depth of a key).
pub open spec fn fields_depth(fields: Seq<(String, JsonValue)>) -> nat
    decreases fields,
{
    if fields.len() == 0 {
        1
    } else {
        let a = fields_depth(fields.drop_last());
        let b = json_depth(fields.last().1);
        if a >= b {
            a
        } else {
            b
        }
    }
}

/// The number of bytes that writing `v` appends.
pub open spec fn json_size(v: JsonValue) -> nat
    decreases v,
{
    match v {
        JsonValue::Null => 1,
        JsonValue::Bool(_) => 1,
        JsonValue::Int(_) => 9,
        JsonValue::Float(_) => 9,
        JsonValue::Str(s) => 5 + encode_utf8(s@).len(),
        JsonValue::Array(items) => items_size(items@) + 5 + 4 * items@.len(),
        JsonValue::Object(fields) => fields_size(fields@) + 5 + 8 * fields@.len(),
    }
}

/// The number of bytes that writing the values `items` appends.
pub open spec fn items_size(items: Seq<JsonValue>) -> nat
    decreases items,
{
    if items.len() == 0 {
        0
    } else {
        items_size(items.drop_last()) + json_size(items.last())
    }
}

/// The number of bytes that writing the keys and values of `fields` appends.
pub open spec fn fields_size(fields: Seq<(String, JsonValue)>) -> nat
    decreases fields,
{
    if fields.len() == 0 {
        0
    } else {
        fields_size(fields.drop_last()) + 5 + encode_utf8(fields.last().0@).len() + json_size(
            fields.last().1,
        )
    }
}

/// Writing `v` appends exactly `json_size(v)` bytes.
pub proof fn lemma_json_write_len(b: Seq<u8>, v: JsonValue)
    ensures
        json_write(b, v).0.len() == b.len() + json_size(v),
    decreases v,
{
    match v {
        JsonValue::Array(items) => {
            lemma_items_len(b, items@);
            lemma_items_extend(b, items@);
            lemma_u32s_le(json_write_items(b, items@).1);
        },
        JsonValue::Object(fields) => {
            lemma_fields_len(b, fields@);
            lemma_fields_extend(b, fields@);
            let (b1, es) = json_write_fields(b, fields@);
            lemma_sort_entries_len(b1, es);
            lemma_pairs_le(sort_entries(b1, es));
        },
        _ => {},
    }
}

/// Writing the values `items` appends exactly `items_size(items)` bytes.
pub proof fn lemma_items_len(b: Seq<u8>, items: Seq<JsonValue>)
    ensures
        json_write_items(b, items).0.len() == b.len() + items_size(items),
    decreases items,
{
    if items.len() > 0 {
        lemma_items_len(b, items.drop_last());
        lemma_json_write_len(json_write_items(b, items.drop_last()).0, items.last());
    }
}

/// Writing the fields `fields` appends exactly `fields_size(fields)` bytes.
pub proof fn lemma_fields_len(b: Seq<u8>, fields: Seq<(String, JsonValue)>)
    ensures
        json_write_fields(b, fields).0.len() == b.len() + fields_size(fields),
    decreases fields,
{
    if fields.len() > 0 {
        lemma_fields_len(b, fields.drop_last());
        let b1 = json_write_fields(b, fields.drop_last()).0;
        lemma_json_write_len(b1 + enc_string(encode_utf8(fields.last().0@)), fields.last().1);
    }
}

/// The sizes of a prefix of the values sum to at most the sizes of all of them.
proof fn lemma_items_size_prefix(items: Seq<JsonValue>, i: int)
    requires
        0 <= i <= items.len(),
    ensures
        items_size(items.take(i)) <= items_size(items),
        i < items.len() ==> items_size(items.take(i + 1)) == items_size(items.take(i)) + json_size(items[i]),
    decreases items.len(),
{
    if i == items.len() {
        assert(items.take(i) =~= items);
    } else {
        assert(items.take(i + 1).drop_last() =~= items.take(i));
        if i + 1 == items.len() {
            assert(items.take(i + 1) =~= items);
        } else {
            assert(items.drop_last().take(i + 1) =~= items.take(i + 1));
            lemma_items_size_prefix(items.drop_last(), i + 1);
        }
    }
}

/// The sizes of a prefix of the fields sum to at most the sizes of all of them.
proof fn lemma_fields_size_prefix(fields: Seq<(String, JsonValue)>, i: int)
    requires
        0 <= i <= fields.len(),
    ensures
        fields_size(fields.take(i)) <= fields_size(fields),
        i < fields.len() ==> fields_size(fields.take(i + 1)) == fields_size(fields.take(i)) + 5
            + encode_utf8(fields[i].0@).len() + json_size(fields[i].1),
    decreases fields.len(),
{
    if i == fields.len() {
        assert(fields.take(i) =~= fields);
    } else {
        assert(fields.take(i + 1).drop_last() =~= fields.take(i));
        if i + 1 == fields.len() {
            assert(fields.take(i + 1) =~= fields);
        } else {
            assert(fields.drop_last().take(i + 1) =~= fields.take(i + 1));
            lemma_fields_size_prefix(fields.drop_last(), i + 1);
        }
    }
}

/// The size of `v` if it is at most `cap`.
fn json_size_upto(v: &JsonValue, cap: usize) -> (r: Option<usize>)
    ensures
        r matches Some(n) ==> n == json_size(*v) && n <= cap,
        r is None ==> json_size(*v) > cap,
    decreases v,
{
    match v {
        JsonValue::Null => {
            if cap >= 1 {
                Some(1)
            } else {
                None
            }
        },
        JsonValue::Bool(_) => {
            if cap >= 1 {
                Some(1)
            } else {
                None
            }
        },
        JsonValue::Int(_) => {
            if cap >= 9 {
                Some(9)
            } else {
                None
            }
        },
        JsonValue::Float(_) => {
            if cap >= 9 {
                Some(9)
            } else {
                None
            }
        },
        JsonValue::Str(s) => {
            let n = s.as_str().as_bytes().len();
            if cap >= 5 && n <= cap - 5 {
                Some(n + 5)
            } else {
                None
            }
        },
        JsonValue::Array(arr) => {
            let mut used: usize = 0;
            let mut i: usize = 0;
            while i < arr.len()
                invariant
                    i <= arr@.len(),
                    *v == JsonValue::Array(*arr),
                    used == items_size(arr@.take(i as int)),
                    used <= cap,
                decreases arr@.len() - i,
            {
                proof {
                    lemma_items_size_prefix(arr@, i as int);
                }
                assert(decreases_to!(*v => v->Array_0));
                assert(v->Array_0 == *arr);
                assert(decreases_to!(*arr => arr@));
                assert(decreases_to!(arr@ => arr@[i as int]));
                match json_size_upto(&arr[i], cap - used) {
                    Some(n) => {
                        used = used + n;
                    },
                    None => {
                        proof {
                            lemma_items_size_prefix(arr@, (i + 1) as int);
                        }
                        return None;
                    },
                }
                i = i + 1;
            }
            proof {
                assert(arr@.take(i as int) =~= arr@);
            }
            if cap - used < 5 {
                return None;
            }
            let room = cap - used - 5;
            if arr.len() > room / 4 {
                return None;
            }
            Some(used + 5 + 4 * arr.len())
        },
        JsonValue::Object(fields) => {
            let mut used: usize = 0;
            let mut i: usize = 0;
            while i < fields.len()
                invariant
                    i <= fields@.len(),
                    *v == JsonValue::Object(*fields),
                    used == fields_size(fields@.take(i as int)),
                    used <= cap,
                decreases fields@.len() - i,
            {
                proof {
                    lemma_fields_size_prefix(fields@, i as int);
                }
                let field = &fields[i];
                let kn = field.0.as_str().as_bytes().len();
                assert(*field == fields@[i as int]);
                assert(kn == encode_utf8(fields@[i as int].0@).len());
                if cap - used < 5 || kn > cap - used - 5 {
                    proof {
                        lemma_fields_size_prefix(fields@, (i + 1) as int);
                    }
                    return None;
                }
                let with_key = used + 5 + kn;
                assert(decreases_to!(*v => v->Object_0));
                assert(v->Object_0 == *fields);
                assert(decreases_to!(*fields => fields@));
                assert(decreases_to!(fields@ => fields@[i as int]));
                assert(decreases_to!(fields@[i as int] => fields@[i as int].1));
                match json_size_upto(&field.1, cap - with_key) {
                    Some(n) => {
                        used = with_key + n;
                    },
                    None => {
                        proof {
                            lemma_fields_size_prefix(fields@, (i + 1) as int);
                        }
                        return None;
                    },
                }
                i = i + 1;
            }
            proof {
                assert(fields@.take(i as int) =~= fields@);
            }
            if cap - used < 5 {
                return None;
            }
            let room = cap - used - 5;
            if fields.len() > room / 8 {
                return None;
            }
            Some(used + 5 + 8 * fields.len())
        },
    }
}

impl HeapBuilder {
    /// Whether writing `v` with `write_json_value` keeps the heap
    /// addressable by 32-bit offsets.
    pub fn fits_json_value(&self, v: &JsonValue) -> (r: bool)
        ensures
            r == (json_write(self@, *v).0.len() <= u32::MAX),
    {
        proof {
            lemma_json_write_len(self@, *v);
        }
        let len = self.len();
        if len > u32::MAX as usize {
            return false;
        }
        json_size_upto(v, u32::MAX as usize - len).is_some()
    }

    /// Recursively writes `v` into the heap and returns its offset. The heap
    /// must stay addressable by 32-bit offsets.
    pub fn write_json_value(&mut self, v: &JsonValue) -> (off: u32)
        requires
            json_write(old(self)@, *v).0.len() <= u32::MAX,
        ensures
            (final(self)@, off) == json_write(old(self)@, *v),
        decreases v,
    {
        match v {
            JsonValue::Null => self.write_null(),
            JsonValue::Bool(x) => self.write_bool(*x),
            JsonValue::Int(x) => self.write_i64(*x),
            JsonValue::Float(bits) => self.write_f64_bits(*bits),
            JsonValue::Str(s) => self.write_string(s.as_str()),
            JsonValue::Array(arr) => {
                let ghost b0 = self@;
                let ghost total = json_write_items(b0, arr@).0;
                proof {
                    lemma_items_extend(b0, arr@);
                    lemma_u32s_le(json_write_items(b0, arr@).1);
                    assert(arr@.take(0) =~= Seq::<JsonValue>::empty());
                }
                let mut offsets: Vec<u32> = Vec::new();
                let mut i: usize = 0;
                while i < arr.len()
                    invariant
                        i <= arr@.len(),
                        *v == JsonValue::Array(*arr),
                        total == json_write_items(b0, arr@).0,
                        total.len() + 5 + 4 * arr@.len() <= u32::MAX,
                        self@ == json_write_items(b0, arr@.take(i as int)).0,
                        offsets@ == json_write_items(b0, arr@.take(i as int)).1,
                    decreases arr@.len() - i,
                {
                    proof {
                        lemma_items_step(b0, arr@, i as int);
                    }
                    assert(decreases_to!(*v => v->Array_0));
                    assert(v->Array_0 == *arr);
                    assert(decreases_to!(*arr => arr@));
                    assert(decreases_to!(arr@ => arr@[i as int]));
                    assert(decreases_to!(*v => arr@[i as int]));
                    let o = self.write_json_value(&arr[i]);
                    offsets.push(o);
                    i = i + 1;
                }
                proof {
                    assert(arr@.take(i as int) =~= arr@);
                }
                self.write_array(offsets.as_slice())
            },
            JsonValue::Object(fields) => {
                let ghost b0 = self@;
                let ghost total = json_write_fields(b0, fields@).0;
                proof {
                    lemma_fields_extend(b0, fields@);
                    lemma_sort_entries_len(total, json_write_fields(b0, fields@).1);
                    lemma_pairs_le(sort_entries(total, json_write_fields(b0, fields@).1));
                    assert(fields@.take(0) =~= Seq::<(String, JsonValue)>::empty());
                }
                let mut entries: Vec<(u32, u32)> = Vec::new();
                let mut i: usize = 0;
                while i < fields.len()
                    invariant
                        i <= fields@.len(),
                        *v == JsonValue::Object(*fields),
                        total == json_write_fields(b0, fields@).0,
                        total.len() <= u32::MAX,
                        self@ == json_write_fields(b0, fields@.take(i as int)).0,
                        entries@ == json_write_fields(b0, fields@.take(i as int)).1,
                    decreases fields@.len() - i,
                {
                    proof {
                        lemma_fields_step(b0, fields@, i as int);
                    }
                    let field = &fields[i];
                    let ks = field.0.as_str();
                    let ko = self.write_string(ks);
                    assert(decreases_to!(*v => v->Object_0));
                    assert(v->Object_0 == *fields);
                    assert(decreases_to!(*fields => fields@));
                    assert(decreases_to!(fields@ => fields@[i as int]));
                    assert(decreases_to!(fields@[i as int] => fields@[i as int].1));
                    let vo = self.write_json_value(&field.1);
                    entries.push((ko, vo));
                    i = i + 1;
                }
                proof {
                    assert(fields@.take(i as int) =~= fields@);
                    lemma_fields_keys(b0, fields@);
                }
                self.write_map(entries.as_mut_slice())
            },
        }
    }
}

/// The model of a parsed JSON number: an integer when it fits `i64`,
/// otherwise the bit pattern of its `f64` value; `None` when it is neither.
pub open spec fn number_model(as_i64: Option<i64>, f64_bits: Option<u64>) -> Option<JsonValue> {
    match (as_i64, f64_bits) {
        (Some(i), _) => Some(JsonValue::Int(i)),
        (None, Some(bits)) => Some(JsonValue::Float(bits)),
        (None, None) => None,
    }
}

/// A number that reads as an `i64` is that integer, whatever it reads as as
/// a float; one that does not is the float with its bit pattern; one that is
/// neither has no model.
pub proof fn lemma_number_model()
    ensures
        forall|i: i64, x: Option<u64>| number_model(Some(i), x) == Some(JsonValue::Int(i)),
        forall|bits: u64| number_model(None, Some(bits)) == Some(JsonValue::Float(bits)),
        number_model(None, None) is None,
{
}

/// Chooses the model of a parsed JSON number, given what the number reads
/// as an `i64` and the bit pattern of what it reads as an `f64`.
pub fn json_number(as_i64: Option<i64>, f64_bits: Option<u64>) -> (r: Option<JsonValue>)
    ensures
        r == number_model(as_i64, f64_bits),
{
    match as_i64 {
        Some(i) => Some(JsonValue::Int(i)),
        None => match f64_bits {
            Some(bits) => Some(JsonValue::Float(bits)),
            None => None,
        },
    }
}

/// The heap bytes of the document `v`: written into a new heap, with its
/// offset as the root.
pub open spec fn json_heap(v: JsonValue) -> Seq<u8> {
    let (b, off) = json_write(seq![0u8, 0u8, 0u8, 0u8], v);
    finished(b, off)
}

/// Builds the heap of the document `v`; `None` when it would not be
/// addressable by 32-bit offsets.
pub fn heap_from_json(v: &JsonValue) -> (r: Option<Vec<u8>>)
    ensures
        r is None <==> json_write(seq![0u8, 0u8, 0u8, 0u8], *v).0.len() > u32::MAX,
        r matches Some(h) ==> h@ == json_heap(*v),
{
    let mut builder = HeapBuilder::new();
    if !builder.fits_json_value(v) {
        return None;
    }
    let root = builder.write_json_value(v);
    proof {
        lemma_json_write_len(seq![0u8, 0u8, 0u8, 0u8], *v);
    }
    Some(builder.finish(root))
}

} // verus!
