//! The framing of a BSON document: where each element ends, and how deeply
//! documents and arrays nest inside it.

use vstd::prelude::*;
use crate::format::{read_u32, u32_at};

verus! {

/// A position held in a `usize`, as an integer.
pub open spec fn pos_of(r: Option<usize>) -> Option<int> {
    match r {
        Some(k) => Some(k as int),
        None => None,
    }
}

/// The index of the zero byte that ends the C string starting at `i`, if
/// one comes before `end`.
pub open spec fn cstr_end(d: Seq<u8>, i: int, end: int) -> Option<int>
    decreases end - i,
{
    if i < 0 || i >= end || end > d.len() {
        None
    } else if d[i] == 0 {
        Some(i)
    } else {
        cstr_end(d, i + 1, end)
    }
}

/// `p + n`, when that is at most `end`.
pub open spec fn fixed_end(p: int, n: int, end: int) -> Option<int> {
    if p + n <= end {
        Some(p + n)
    } else {
        None
    }
}

/// Where the BSON string (a length that counts its closing zero byte, then
/// its bytes) starting at `p` ends, if within `end`.
pub open spec fn bson_string_end(d: Seq<u8>, p: int, end: int) -> Option<int> {
    if p + 4 <= end {
        let n = u32_at(d, p) as int;
        if 1 <= n < 0x8000_0000 && p + 4 + n <= end {
            Some(p + 4 + n)
        } else {
            None
        }
    } else {
        None
    }
}

/// Where the BSON binary value (a length, a subtype byte, then the bytes)
/// starting at `p` ends, if within `end`.
pub open spec fn bson_binary_end(d: Seq<u8>, p: int, end: int) -> Option<int> {
    if p + 5 <= end {
        let n = u32_at(d, p) as int;
        if n < 0x8000_0000 && p + 5 + n <= end {
            Some(p + 5 + n)
        } else {
            None
        }
    } else {
        None
    }
}

/// Where the BSON document starting at `p` ends, as its length says, if
/// within `end`.
pub open spec fn bson_doc_end(d: Seq<u8>, p: int, end: int) -> Option<int> {
    if p + 4 <= end {
        let n = u32_at(d, p) as int;
        if 5 <= n < 0x8000_0000 && p + n <= end {
            Some(p + n)
        } else {
            None
        }
    } else {
        None
    }
}

/// Where the BSON value of type `t`, which holds no document, starting at
/// `p` ends, if within `end`; `None` for an unknown type.
pub open spec fn bson_scalar_end(d: Seq<u8>, t: u8, p: int, end: int) -> Option<int> {
    if t == 0x01 || t == 0x09 || t == 0x11 || t == 0x12 {
        fixed_end(p, 8, end)
    } else if t == 0x02 || t == 0x0D || t == 0x0E {
        bson_string_end(d, p, end)
    } else if t == 0x05 {
        bson_binary_end(d, p, end)
    } else if t == 0x06 || t == 0x0A || t == 0x7F || t == 0xFF {
        fixed_end(p, 0, end)
    } else if t == 0x07 {
        fixed_end(p, 12, end)
    } else if t == 0x08 {
        fixed_end(p, 1, end)
    } else if t == 0x0B {
        match cstr_end(d, p, end) {
            Some(k) => match cstr_end(d, k + 1, end) {
                Some(k2) => Some(k2 + 1),
                None => None,
            },
            None => None,
        }
    } else if t == 0x0C {
        match bson_string_end(d, p, end) {
            Some(q) => fixed_end(q, 12, end),
            None => None,
        }
    } else if t == 0x10 {
        fixed_end(p, 4, end)
    } else if t == 0x13 {
        fixed_end(p, 16, end)
    } else {
        None
    }
}

/// For the code-with-scope value starting at `p` (a total length, a string,
/// then a document that fills the rest): where its document starts and
/// where the value ends, if within `end`.
pub open spec fn bson_scope(d: Seq<u8>, p: int, end: int) -> Option<(int, int)> {
    if p + 4 <= end {
        let n = u32_at(d, p) as int;
        if n < 0x8000_0000 && p + n <= end {
            match bson_string_end(d, p + 4, p + n) {
                Some(q) => if bson_doc_end(d, q, p + n) == Some(p + n) {
                    Some((q, p + n))
                } else {
                    None
                },
                None => None,
            }
        } else {
            None
        }
    } else {
        None
    }
}

/// A C string that ends does so at or after its start and before `end`.
pub proof fn lemma_cstr_end_range(d: Seq<u8>, i: int, end: int)
    ensures
        cstr_end(d, i, end) matches Some(k) ==> i <= k < end && end <= d.len(),
    decreases end - i,
{
    if 0 <= i < end && end <= d.len() && d[i] != 0 {
        lemma_cstr_end_range(d, i + 1, end);
    }
}

/// A value that ends does so at or after its start and at most at `end`.
pub proof fn lemma_scalar_end_range(d: Seq<u8>, t: u8, p: int, end: int)
    ensures
        bson_scalar_end(d, t, p, end) matches Some(j) ==> p <= j <= end,
{
    lemma_cstr_end_range(d, p, end);
    if let Some(k) = cstr_end(d, p, end) {
        lemma_cstr_end_range(d, k + 1, end);
    }
}

/// The elements of a BSON document from `i` on, closed by the document's
/// zero byte at `end - 1`, are each framed as their types say, and the
/// documents and arrays among them nest at most `budget` levels deeper.
pub open spec fn bson_elems_ok(d: Seq<u8>, i: int, end: int, budget: nat) -> bool
    decreases budget, end - i,
{
    if !(0 <= i < end && end <= d.len()) {
        false
    } else if d[i] == 0 {
        i + 1 == end
    } else {
        match cstr_end(d, i + 1, end) {
            None => false,
            Some(k) => {
                proof {
                    lemma_cstr_end_range(d, i + 1, end);
                    lemma_scalar_end_range(d, d[i], k + 1, end);
                }
                let t = d[i];
                let p = k + 1;
                if t == 0x03 || t == 0x04 {
                    match bson_doc_end(d, p, end) {
                        Some(e) => budget > 0 && bson_elems_ok(d, p + 4, e, (budget - 1) as nat)
                            && bson_elems_ok(d, e, end, budget),
                        None => false,
                    }
                } else if t == 0x0F {
                    match bson_scope(d, p, end) {
                        Some((q, e)) => budget > 0 && bson_elems_ok(d, q + 4, e, (budget - 1) as nat)
                            && bson_elems_ok(d, e, end, budget),
                        None => false,
                    }
                } else {
                    match bson_scalar_end(d, t, p, end) {
                        Some(j) => bson_elems_ok(d, j, end, budget),
                        None => false,
                    }
                }
            },
        }
    }
}

/// `d` is one BSON document, framed as its lengths and types say, whose
/// documents and arrays nest at most `budget` levels below the top.
pub open spec fn bson_framed(d: Seq<u8>, budget: nat) -> bool {
    bson_doc_end(d, 0, d.len() as int) == Some(d.len() as int) && bson_elems_ok(d, 4, d.len() as int, budget)
}

fn cstr_end_at(d: &[u8], i: usize, end: usize) -> (r: Option<usize>)
    requires
        end <= d@.len(),
    ensures
        pos_of(r) == cstr_end(d@, i as int, end as int),
{
    let mut j = i;
    while j < end
        invariant
            end <= d@.len(),
            i <= j,
            cstr_end(d@, j as int, end as int) == cstr_end(d@, i as int, end as int),
        decreases end - j,
    {
        if d[j] == 0 {
            return Some(j);
        }
        j = j + 1;
    }
    None
}

fn string_end_at(d: &[u8], p: usize, end: usize) -> (r: Option<usize>)
    requires
        end <= d@.len(),
    ensures
        pos_of(r) == bson_string_end(d@, p as int, end as int),
{
    if p > end || end - p < 4 {
        return None;
    }
    let n = read_u32(d, p) as usize;
    if 1 <= n && n < 0x8000_0000 && n <= end - p - 4 {
        Some(p + 4 + n)
    } else {
        None
    }
}

fn binary_end_at(d: &[u8], p: usize, end: usize) -> (r: Option<usize>)
    requires
        end <= d@.len(),
    ensures
        pos_of(r) == bson_binary_end(d@, p as int, end as int),
{
    if p > end || end - p < 5 {
        return None;
    }
    let n = read_u32(d, p) as usize;
    if n < 0x8000_0000 && n <= end - p - 5 {
        Some(p + 5 + n)
    } else {
        None
    }
}

fn doc_end_at(d: &[u8], p: usize, end: usize) -> (r: Option<usize>)
    requires
        end <= d@.len(),
    ensures
        pos_of(r) == bson_doc_end(d@, p as int, end as int),
{
    if p > end || end - p < 4 {
        return None;
    }
    let n = read_u32(d, p) as usize;
    if 5 <= n && n < 0x8000_0000 && n <= end - p {
        Some(p + n)
    } else {
        None
    }
}

fn fixed_end_at(p: usize, n: usize, end: usize) -> (r: Option<usize>)
    ensures
        pos_of(r) == fixed_end(p as int, n as int, end as int),
{
    if p <= end && n <= end - p {
        Some(p + n)
    } else {
        None
    }
}

fn scalar_end_at(d: &[u8], t: u8, p: usize, end: usize) -> (r: Option<usize>)
    requires
        end <= d@.len(),
    ensures
        pos_of(r) == bson_scalar_end(d@, t, p as int, end as int),
{
    if t == 0x01 || t == 0x09 || t == 0x11 || t == 0x12 {
        fixed_end_at(p, 8, end)
    } else if t == 0x02 || t == 0x0D || t == 0x0E {
        string_end_at(d, p, end)
    } else if t == 0x05 {
        binary_end_at(d, p, end)
    } else if t == 0x06 || t == 0x0A || t == 0x7F || t == 0xFF {
        fixed_end_at(p, 0, end)
    } else if t == 0x07 {
        fixed_end_at(p, 12, end)
    } else if t == 0x08 {
        fixed_end_at(p, 1, end)
    } else if t == 0x0B {
        match cstr_end_at(d, p, end) {
            Some(k) => {
                proof {
                    lemma_cstr_end_range(d@, p as int, end as int);
                }
                match cstr_end_at(d, k + 1, end) {
                    Some(k2) => {
                        proof {
                            lemma_cstr_end_range(d@, k + 1, end as int);
                        }
                        Some(k2 + 1)
                    },
                    None => None,
                }
            },
            None => None,
        }
    } else if t == 0x0C {
        match string_end_at(d, p, end) {
            Some(q) => fixed_end_at(q, 12, end),
            None => None,
        }
    } else if t == 0x10 {
        fixed_end_at(p, 4, end)
    } else if t == 0x13 {
        fixed_end_at(p, 16, end)
    } else {
        None
    }
}

fn scope_at(d: &[u8], p: usize, end: usize) -> (r: Option<(usize, usize)>)
    requires
        end <= d@.len(),
    ensures
        match r {
            Some((q, e)) => bson_scope(d@, p as int, end as int) == Some((q as int, e as int)),
            None => bson_scope(d@, p as int, end as int) is None,
        },
{
    if p > end || end - p < 4 {
        return None;
    }
    let n = read_u32(d, p) as usize;
    if !(n < 0x8000_0000 && n <= end - p) {
        return None;
    }
    match string_end_at(d, p + 4, p + n) {
        Some(q) => match doc_end_at(d, q, p + n) {
            Some(e) => if e == p + n {
                Some((q, p + n))
            } else {
                None
            },
            None => None,
        },
        None => None,
    }
}

/// Whether the elements from `i` on of a BSON document closed at `end - 1`
/// are framed and nest at most `budget` levels deeper. It recurses once per
/// level of nesting, at most `budget` times.
fn elems_within(d: &[u8], i: usize, end: usize, budget: usize) -> (r: bool)
    requires
        end <= d@.len(),
    ensures
        r == bson_elems_ok(d@, i as int, end as int, budget as nat),
    decreases budget,
{
    let mut j = i;
    loop
        invariant
            end <= d@.len(),
            bson_elems_ok(d@, j as int, end as int, budget as nat) == bson_elems_ok(
                d@,
                i as int,
                end as int,
                budget as nat,
            ),
        decreases end - j,
    {
        if j >= end {
            return false;
        }
        let t = d[j];
        if t == 0 {
            return j + 1 == end;
        }
        let k = match cstr_end_at(d, j + 1, end) {
            Some(k) => k,
            None => {
                return false;
            },
        };
        proof {
            lemma_cstr_end_range(d@, j + 1, end as int);
            lemma_scalar_end_range(d@, t, k + 1, end as int);
        }
        let p = k + 1;
        if t == 0x03 || t == 0x04 {
            let e = match doc_end_at(d, p, end) {
                Some(e) => e,
                None => {
                    return false;
                },
            };
            if budget == 0 || !elems_within(d, p + 4, e, budget - 1) {
                return false;
            }
            j = e;
        } else if t == 0x0F {
            let (q, e) = match scope_at(d, p, end) {
                Some(s) => s,
                None => {
                    return false;
                },
            };
            if budget == 0 || !elems_within(d, q + 4, e, budget - 1) {
                return false;
            }
            j = e;
        } else {
            match scalar_end_at(d, t, p, end) {
                Some(next) => {
                    j = next;
                },
                None => {
                    return false;
                },
            }
        }
    }
}

/// Whether `d` is one BSON document, framed as its lengths and types say,
/// whose documents and arrays nest at most `budget` levels below the top.
pub fn bson_framed_within(d: &[u8], budget: usize) -> (r: bool)
    ensures
        r == bson_framed(d@, budget as nat),
{
    match doc_end_at(d, 0, d.len()) {
        Some(e) => e == d.len() && elems_within(d, 4, d.len(), budget),
        None => false,
    }
}

} // verus!
