//! The framing of binary Ion 1.0: where each value ends, and how deeply
//! lists, s-expressions, structs and annotation wrappers nest.

use vstd::prelude::*;

verus! {

/// The end and the value of the VarUInt (seven bits a byte, the last byte
/// marked by its high bit) that starts at `i`, given the value `acc` of the
/// `n` bytes read before it; `None` when it does not end within `end` and
/// within four bytes in all.
pub open spec fn varuint_from(d: Seq<u8>, i: int, end: int, acc: int, n: nat) -> Option<(int, int)>
    decreases 4 - n,
{
    if n >= 4 || !(0 <= i < end && end <= d.len()) {
        None
    } else {
        let x = d[i] as int;
        let v = acc * 128 + x % 128;
        if x >= 128 {
            Some((i + 1, v))
        } else {
            varuint_from(d, i + 1, end, v, n + 1)
        }
    }
}

/// The end and the value of the VarUInt starting at `i`, if it ends within
/// `end` and within four bytes.
pub open spec fn varuint(d: Seq<u8>, i: int, end: int) -> Option<(int, int)> {
    varuint_from(d, i, end, 0, 0)
}

/// A VarUInt that ends does so after its start, at most at `end`, and holds
/// a value below 2^28.
pub proof fn lemma_varuint_from_range(d: Seq<u8>, i: int, end: int, acc: int, n: nat)
    requires
        0 <= acc,
        acc < pow128(n),
    ensures
        varuint_from(d, i, end, acc, n) matches Some((q, v)) ==> i < q <= end && 0 <= v < 0x1000_0000,
    decreases 4 - n,
{
    if n < 4 && 0 <= i < end && end <= d.len() {
        let x = d[i] as int;
        let v = acc * 128 + x % 128;
        assert(0 <= v < pow128(n + 1)) by (nonlinear_arith)
            requires
                v == acc * 128 + x % 128,
                0 <= acc < pow128(n),
                pow128(n + 1) == pow128(n) * 128,
                0 <= x % 128 < 128,
        ;
        if x < 128 {
            lemma_varuint_from_range(d, i + 1, end, v, n + 1);
        } else {
            lemma_pow128_small();
        }
    }
}

/// The powers of 128 up to the fourth.
proof fn lemma_pow128_small()
    ensures
        pow128(0) == 1,
        pow128(1) == 128,
        pow128(2) == 0x4000,
        pow128(3) == 0x20_0000,
        pow128(4) == 0x1000_0000,
{
    reveal_with_fuel(pow128, 5);
}

/// 128 to the power `n`.
pub open spec fn pow128(n: nat) -> int
    decreases n,
{
    if n == 0 {
        1
    } else {
        pow128((n - 1) as nat) * 128
    }
}

/// The body kinds of a binary Ion value: no nested values, a run of values
/// (a list, an s-expression or the value under an annotation wrapper), or a
/// run of struct fields (each a field symbol then a value).
pub open spec fn ion_header(d: Seq<u8>, p: int, end: int) -> Option<(u8, int, int)> {
    if !(0 <= p < end && end <= d.len()) {
        None
    } else {
        let x = d[p];
        let t = x / 16;
        let l = x % 16;
        if t == 15 || (t == 14 && (l == 0 || l == 15)) {
            None
        } else {
            let body: Option<(int, int)> = if l == 15 || t == 1 {
                Some((p + 1, p + 1))
            } else if l == 14 || (t == 13 && l == 1) {
                match varuint(d, p + 1, end) {
                    Some((q, n)) => Some((q, q + n)),
                    None => None,
                }
            } else {
                Some((p + 1, p + 1 + l))
            };
            match body {
                None => None,
                Some((s, e)) => if e > end {
                    None
                } else if l == 15 || t <= 10 {
                    Some((0u8, s, e))
                } else if t == 11 || t == 12 {
                    Some((1u8, s, e))
                } else if t == 13 {
                    Some((2u8, s, e))
                } else {
                    match varuint(d, s, e) {
                        Some((q, m)) => if q + m <= e {
                            Some((1u8, q + m, e))
                        } else {
                            None
                        },
                        None => None,
                    }
                },
            }
        }
    }
}

/// A framed value ends after its type byte, and its nested part lies within it.
pub proof fn lemma_header_range(d: Seq<u8>, p: int, end: int)
    ensures
        ion_header(d, p, end) matches Some((k, s, e)) ==> p < s <= e <= end && k <= 2,
{
    lemma_varuint_from_range(d, p + 1, end, 0, 0);
    if let Some((q, n)) = varuint(d, p + 1, end) {
        lemma_varuint_from_range(d, q, q + n, 0, 0);
    }
    if 0 <= p < end && end <= d.len() {
        let x = d[p];
        let t = x / 16;
        let l = x % 16;
        if !(l == 15 || t == 1) && !(l == 14 || (t == 13 && l == 1)) {
            if t == 14 {
                lemma_varuint_from_range(d, p + 1, p + 1 + l, 0, 0);
            }
        }
    }
}

/// The values (or, with `fields`, the struct fields) from `i` up to `end`
/// are each framed as their type bytes say, and nest at most `budget`
/// levels deeper.
pub open spec fn ion_seq_ok(d: Seq<u8>, i: int, end: int, fields: bool, budget: nat) -> bool
    decreases budget, end - i,
{
    if !(0 <= i <= end && end <= d.len()) {
        false
    } else if i == end {
        true
    } else {
        let p = if fields {
            match varuint(d, i, end) {
                Some((q, v)) => q,
                None => -1,
            }
        } else {
            i
        };
        proof {
            lemma_varuint_from_range(d, i, end, 0, 0);
            lemma_header_range(d, p, end);
        }
        match ion_header(d, p, end) {
            None => false,
            Some((k, s, e)) => (k == 0 || (budget > 0 && ion_seq_ok(d, s, e, k == 2, (budget - 1) as nat)))
                && ion_seq_ok(d, e, end, fields, budget),
        }
    }
}

/// The Ion 1.0 binary version marker sits at `i`.
pub open spec fn ivm_at(d: Seq<u8>, i: int) -> bool {
    &&& 0 <= i
    &&& i + 4 <= d.len()
    &&& d[i] == 0xE0
    &&& d[i + 1] == 0x01
    &&& d[i + 2] == 0x00
    &&& d[i + 3] == 0xEA
}

/// The top-level values from `i` on, with version markers between them, are
/// framed and nest at most `budget` levels deeper.
pub open spec fn ion_top_ok(d: Seq<u8>, i: int, budget: nat) -> bool
    decreases d.len() - i,
{
    if !(0 <= i <= d.len()) {
        false
    } else if i == d.len() {
        true
    } else if ivm_at(d, i) {
        ion_top_ok(d, i + 4, budget)
    } else {
        proof {
            lemma_header_range(d, i, d.len() as int);
        }
        match ion_header(d, i, d.len() as int) {
            None => false,
            Some((k, s, e)) => (k == 0 || (budget > 0 && ion_seq_ok(d, s, e, k == 2, (budget - 1) as nat)))
                && ion_top_ok(d, e, budget),
        }
    }
}

/// `d` is binary Ion 1.0, framed as its type bytes and lengths say, whose
/// containers and annotation wrappers nest at most `budget + 1` levels deep.
pub open spec fn ion_framed(d: Seq<u8>, budget: nat) -> bool {
    ivm_at(d, 0) && ion_top_ok(d, 0, budget)
}

fn varuint_at(d: &[u8], i: usize, end: usize) -> (r: Option<(usize, usize)>)
    requires
        end <= d@.len(),
    ensures
        match r {
            Some((q, v)) => varuint(d@, i as int, end as int) == Some((q as int, v as int)),
            None => varuint(d@, i as int, end as int) is None,
        },
{
    let mut acc: usize = 0;
    let mut n: usize = 0;
    let mut j = i;
    while n < 4
        invariant
            end <= d@.len(),
            n <= 4,
            j == i + n,
            0 <= acc < pow128(n as nat),
            pow128(n as nat) <= 0x1000_0000,
            varuint_from(d@, j as int, end as int, acc as int, n as nat) == varuint(d@, i as int, end as int),
        decreases 4 - n,
    {
        if j >= end {
            return None;
        }
        let x = d[j];
        proof {
            lemma_pow128_small();
        }
        assert(acc * 128 + ((x % 128) as int) < pow128((n + 1) as nat)) by (nonlinear_arith)
            requires
                0 <= acc < pow128(n as nat),
                pow128((n + 1) as nat) == pow128(n as nat) * 128,
                0 <= x % 128 < 128,
        ;
        acc = acc * 128 + (x % 128) as usize;
        if x >= 128 {
            return Some((j + 1, acc));
        }
        j = j + 1;
        n = n + 1;
        proof {
            lemma_pow128_small();
        }
    }
    None
}

fn header_at(d: &[u8], p: usize, end: usize) -> (r: Option<(u8, usize, usize)>)
    requires
        end <= d@.len(),
    ensures
        match r {
            Some((k, s, e)) => ion_header(d@, p as int, end as int) == Some((k, s as int, e as int)),
            None => ion_header(d@, p as int, end as int) is None,
        },
{
    if p >= end {
        return None;
    }
    let x = d[p];
    let t = x / 16;
    let l = x % 16;
    if t == 15 || (t == 14 && (l == 0 || l == 15)) {
        return None;
    }
    let (s, e) = if l == 15 || t == 1 {
        (p + 1, p + 1)
    } else if l == 14 || (t == 13 && l == 1) {
        match varuint_at(d, p + 1, end) {
            Some((q, n)) => {
                proof {
                    lemma_varuint_from_range(d@, p + 1, end as int, 0, 0);
                }
                if n > end - q {
                    return None;
                }
                (q, q + n)
            },
            None => {
                return None;
            },
        }
    } else {
        if l as usize > end - p - 1 {
            return None;
        }
        (p + 1, p + 1 + l as usize)
    };
    if l == 15 || t <= 10 {
        Some((0u8, s, e))
    } else if t == 11 || t == 12 {
        Some((1u8, s, e))
    } else if t == 13 {
        Some((2u8, s, e))
    } else {
        match varuint_at(d, s, e) {
            Some((q, m)) => {
                proof {
                    lemma_varuint_from_range(d@, s as int, e as int, 0, 0);
                }
                if m <= e - q {
                    Some((1u8, q + m, e))
                } else {
                    None
                }
            },
            None => None,
        }
    }
}

/// Whether the values (or struct fields) from `i` up to `end` are framed
/// and nest at most `budget` levels deeper. It recurses once per level of
/// nesting, at most `budget` times.
fn seq_within(d: &[u8], i: usize, end: usize, fields: bool, budget: usize) -> (r: bool)
    requires
        end <= d@.len(),
    ensures
        r == ion_seq_ok(d@, i as int, end as int, fields, budget as nat),
    decreases budget,
{
    if i > end {
        return false;
    }
    let mut j = i;
    loop
        invariant
            end <= d@.len(),
            i <= j <= end,
            ion_seq_ok(d@, j as int, end as int, fields, budget as nat) == ion_seq_ok(
                d@,
                i as int,
                end as int,
                fields,
                budget as nat,
            ),
        decreases end - j,
    {
        if j == end {
            return true;
        }
        let p = if fields {
            match varuint_at(d, j, end) {
                Some((q, _v)) => q,
                None => {
                    return false;
                },
            }
        } else {
            j
        };
        proof {
            lemma_varuint_from_range(d@, j as int, end as int, 0, 0);
            lemma_header_range(d@, p as int, end as int);
        }
        let (k, s, e) = match header_at(d, p, end) {
            Some(h) => h,
            None => {
                return false;
            },
        };
        if k != 0 && (budget == 0 || !seq_within(d, s, e, k == 2, budget - 1)) {
            return false;
        }
        j = e;
    }
}

/// Whether `d` is binary Ion 1.0, framed as its type bytes and lengths say,
/// whose containers and annotation wrappers nest at most `budget + 1` levels
/// deep.
pub fn ion_framed_within(d: &[u8], budget: usize) -> (r: bool)
    ensures
        r == ion_framed(d@, budget as nat),
{
    if !(d.len() >= 4 && d[0] == 0xE0 && d[1] == 0x01 && d[2] == 0x00 && d[3] == 0xEA) {
        return false;
    }
    let mut j: usize = 0;
    loop
        invariant
            j <= d@.len(),
            ivm_at(d@, 0),
            ion_top_ok(d@, j as int, budget as nat) == ion_top_ok(d@, 0, budget as nat),
        decreases d@.len() - j,
    {
        if j == d.len() {
            return true;
        }
        if d.len() - j >= 4 && d[j] == 0xE0 && d[j + 1] == 0x01 && d[j + 2] == 0x00 && d[j + 3] == 0xEA {
            j = j + 4;
        } else {
            proof {
                lemma_header_range(d@, j as int, d@.len() as int);
            }
            let (k, s, e) = match header_at(d, j, d.len()) {
                Some(h) => h,
                None => {
                    return false;
                },
            };
            if k != 0 && (budget == 0 || !seq_within(d, s, e, k == 2, budget - 1)) {
                return false;
            }
            j = e;
        }
    }
}

} // verus!
