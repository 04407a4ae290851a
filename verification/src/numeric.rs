//! Fixed-point numbers and verified ASCII numeric parsing.
//!
//! Real-valued telemetry channels are carried in millionths of a unit
//! (`Real`), so means and truncation are exact integer arithmetic. The
//! parsers accept an optional sign, an integer part and a fraction part;
//! fraction digits beyond the sixth are read but do not contribute.

use vstd::prelude::*;

use crate::bytes::find_byte;
use crate::bytes::lemma_find_byte_at;
use crate::bytes::lemma_find_byte_none;

verus! {

/// Magnitude bound (exclusive) on the millionths carried by a `Real`.
pub const MICRO_LIMIT: i64 = 1_000_000_000_000_000;

/// A real number as a count of millionths of a unit.
#[derive(Clone, Copy, Debug, PartialEq, Eq, Structural)]
pub struct Real {
    pub micros: i64,
}

impl Real {
    /// The magnitude stays small enough that a thousand summands fit in i64.
    pub open spec fn wf(&self) -> bool {
        -MICRO_LIMIT < self.micros && self.micros < MICRO_LIMIT
    }

    pub fn from_micros(micros: i64) -> (r: Real)
        ensures
            r.micros == micros,
    {
        Real { micros }
    }
}

pub open spec fn is_digit(b: u8) -> bool {
    48 <= b && b <= 57
}

pub open spec fn all_digits(s: Seq<u8>) -> bool {
    forall|i: int| 0 <= i < s.len() ==> is_digit(s[i])
}

/// The number denoted by a run of decimal digits.
pub open spec fn digits_val(s: Seq<u8>) -> int
    decreases s.len(),
{
    if s.len() == 0 {
        0
    } else {
        digits_val(s.drop_last()) * 10 + (s.last() - 48)
    }
}

pub open spec fn pow10(n: int) -> int
    decreases n,
{
    if n <= 0 {
        1
    } else {
        10 * pow10(n - 1)
    }
}

pub proof fn lemma_digits_val_bounds(s: Seq<u8>)
    requires
        all_digits(s),
    ensures
        0 <= digits_val(s) < pow10(s.len() as int),
    decreases s.len(),
{
    if s.len() > 0 {
        assert(all_digits(s.drop_last()));
        lemma_digits_val_bounds(s.drop_last());
        assert(is_digit(s.last()));
    }
}

/// The value can only grow as more digits are appended.
pub proof fn lemma_digits_prefix_le(s: Seq<u8>, k: int)
    requires
        all_digits(s),
        0 <= k <= s.len(),
    ensures
        digits_val(s.take(k)) <= digits_val(s),
    decreases s.len(),
{
    if k == s.len() {
        assert(s.take(k) =~= s);
    } else {
        assert(all_digits(s.drop_last()));
        lemma_digits_prefix_le(s.drop_last(), k);
        assert(s.drop_last().take(k) =~= s.take(k));
        lemma_digits_val_bounds(s.drop_last());
        assert(is_digit(s.last()));
    }
}

/// Reads the digits of `v[from..to]` into a value, refusing anything over
/// `cap`, a non-digit, or an empty range.
fn parse_digits_bounded(v: &Vec<u8>, from: usize, to: usize, cap: u64) -> (r: Option<u64>)
    requires
        from <= to <= v@.len(),
        cap <= 0x1000_0000_0000_0000,
    ensures
        ({
            let s = v@.subrange(from as int, to as int);
            &&& (r is Some <==> (s.len() > 0 && all_digits(s) && digits_val(s) <= cap))
            &&& (r is Some ==> r->0 == digits_val(s))
        }),
{
    let ghost s = v@.subrange(from as int, to as int);
    proof {
        assert(forall|j: int| 0 <= j < s.len() ==> s[j] == v@[from + j]);
    }
    if from == to {
        return None;
    }
    let mut acc: u64 = 0;
    let mut i: usize = from;
    while i < to
        invariant
            from <= i <= to <= v@.len(),
            s == v@.subrange(from as int, to as int),
            forall|j: int| 0 <= j < s.len() ==> s[j] == v@[from + j],
            all_digits(v@.subrange(from as int, i as int)),
            acc == digits_val(v@.subrange(from as int, i as int)),
            acc <= cap <= 0x1000_0000_0000_0000,
        decreases to - i,
    {
        let b = v[i];
        let ghost s0 = v@.subrange(from as int, i as int);
        let ghost s1 = v@.subrange(from as int, i + 1 as int);
        proof {
            assert(s1.drop_last() =~= s0);
            assert(s1.last() == v@[i as int]);
        }
        if b < 48 || b > 57 {
            proof {
                assert(s[i - from] == v@[i as int]);
                assert(!all_digits(s));
            }
            return None;
        }
        let next = acc * 10 + ((b - 48) as u64);
        assert(next == digits_val(s1));
        if next > cap {
            proof {
                if all_digits(s) {
                    lemma_digits_prefix_le(s, i + 1 - from);
                    assert(s.take(i + 1 - from) =~= s1);
                }
            }
            return None;
        }
        acc = next;
        i += 1;
    }
    assert(v@.subrange(from as int, i as int) =~= s);
    Some(acc)
}

/// An unsigned byte: optional `+`, then digits, value at most 255.
pub open spec fn parse_u8_spec(s: Seq<u8>) -> Option<u8> {
    let t = if s.len() > 0 && s[0] == 43 {
        s.drop_first()
    } else {
        s
    };
    if t.len() > 0 && all_digits(t) && digits_val(t) <= 255 {
        Some(digits_val(t) as u8)
    } else {
        None
    }
}

pub fn parse_u8_bytes(v: &Vec<u8>) -> (r: Option<u8>)
    ensures
        r == parse_u8_spec(v@),
{
    let off: usize = if v.len() > 0 && v[0] == 43 {
        1
    } else {
        0
    };
    proof {
        let t = if v@.len() > 0 && v@[0] == 43 {
            v@.drop_first()
        } else {
            v@
        };
        assert(v@.subrange(off as int, v@.len() as int) =~= t);
        if parse_u8_spec(v@) is Some {
            lemma_digits_val_bounds(t);
        }
    }
    match parse_digits_bounded(v, off, v.len(), 255) {
        Some(d) => Some(d as u8),
        None => None,
    }
}

/// A signed 32-bit integer: optional sign, then digits, within i32 range.
pub open spec fn parse_i32_spec(s: Seq<u8>) -> Option<i32> {
    let neg = s.len() > 0 && s[0] == 45;
    let t = if s.len() > 0 && (s[0] == 43 || s[0] == 45) {
        s.drop_first()
    } else {
        s
    };
    if t.len() > 0 && all_digits(t) {
        if neg && digits_val(t) <= 0x8000_0000 {
            Some((-digits_val(t)) as i32)
        } else if !neg && digits_val(t) <= 0x7fff_ffff {
            Some(digits_val(t) as i32)
        } else {
            None
        }
    } else {
        None
    }
}

pub fn parse_i32_bytes(v: &Vec<u8>) -> (r: Option<i32>)
    ensures
        r == parse_i32_spec(v@),
{
    let neg = v.len() > 0 && v[0] == 45;
    let off: usize = if v.len() > 0 && (v[0] == 43 || v[0] == 45) {
        1
    } else {
        0
    };
    proof {
        let t = if v@.len() > 0 && (v@[0] == 43 || v@[0] == 45) {
            v@.drop_first()
        } else {
            v@
        };
        assert(v@.subrange(off as int, v@.len() as int) =~= t);
    }
    match parse_digits_bounded(v, off, v.len(), 0x8000_0000) {
        Some(d) => {
            if neg {
                Some((-(d as i64)) as i32)
            } else if d <= 0x7fff_ffff {
                Some(d as i32)
            } else {
                None
            }
        },
        None => None,
    }
}

/// Scale that lifts a fraction of `len` digits to millionths.
pub open spec fn frac_scale(len: int) -> int {
    if len <= 0 {
        1000000
    } else if len == 1 {
        100000
    } else if len == 2 {
        10000
    } else if len == 3 {
        1000
    } else if len == 4 {
        100
    } else if len == 5 {
        10
    } else {
        1
    }
}

/// Millionths denoted by a fraction part; digits beyond the sixth are
/// below one millionth and do not contribute.
pub open spec fn frac_micros(f: Seq<u8>) -> int {
    if f.len() >= 6 {
        digits_val(f.take(6))
    } else {
        digits_val(f) * frac_scale(f.len() as int)
    }
}

pub proof fn lemma_pow10_small()
    ensures
        pow10(0) == 1,
        pow10(1) == 10,
        pow10(2) == 100,
        pow10(3) == 1000,
        pow10(4) == 10000,
        pow10(5) == 100000,
        pow10(6) == 1000000,
{
    assert(pow10(0) == 1);
    assert(pow10(1) == 10);
    assert(pow10(2) == 100);
    assert(pow10(3) == 1000);
    assert(pow10(4) == 10000);
    assert(pow10(5) == 100000);
    assert(pow10(6) == 1000000);
}

pub proof fn lemma_frac_micros_bound(f: Seq<u8>)
    requires
        all_digits(f),
    ensures
        0 <= frac_micros(f) < 1000000,
{
    lemma_pow10_small();
    if f.len() >= 6 {
        assert(all_digits(f.take(6))) by {
            assert(forall|i: int| 0 <= i < 6 ==> f.take(6)[i] == f[i]);
        }
        lemma_digits_val_bounds(f.take(6));
    } else {
        lemma_digits_val_bounds(f);
    }
}

/// What remains after an optional leading sign.
pub open spec fn sign_rest(s: Seq<u8>) -> Seq<u8> {
    if s.len() > 0 && (s[0] == 43 || s[0] == 45) {
        s.drop_first()
    } else {
        s
    }
}

/// A real number in millionths: optional sign, digits with at most one
/// point, at least one digit in all, integer part under a billion.
pub open spec fn parse_real_spec(s: Seq<u8>) -> Option<int> {
    let neg = s.len() > 0 && s[0] == 45;
    let t = sign_rest(s);
    let d = find_byte(t, 46);
    let ip = if d == -1 {
        t
    } else {
        t.take(d)
    };
    let fp = if d == -1 {
        Seq::<u8>::empty()
    } else {
        t.skip(d + 1)
    };
    if all_digits(ip) && all_digits(fp) && ip.len() + fp.len() > 0 && digits_val(ip)
        < 1000000000 {
        let m = digits_val(ip) * 1000000 + frac_micros(fp);
        Some(
            if neg {
                -m
            } else {
                m
            },
        )
    } else {
        None
    }
}

pub proof fn lemma_parse_real_bound(s: Seq<u8>)
    requires
        parse_real_spec(s) is Some,
    ensures
        -MICRO_LIMIT < parse_real_spec(s)->0 < MICRO_LIMIT,
{
    let t = sign_rest(s);
    let d = find_byte(t, 46);
    let ip = if d == -1 {
        t
    } else {
        t.take(d)
    };
    let fp = if d == -1 {
        Seq::<u8>::empty()
    } else {
        t.skip(d + 1)
    };
    lemma_digits_val_bounds(ip);
    lemma_frac_micros_bound(fp);
}

/// Reads `v[from..]` as a fraction part: all digits, lifted to millionths.
fn parse_fraction(v: &Vec<u8>, from: usize) -> (r: Option<u64>)
    requires
        from <= v@.len(),
    ensures
        ({
            let f = v@.skip(from as int);
            &&& (r is Some <==> all_digits(f))
            &&& (r is Some ==> r->0 == frac_micros(f) && r->0 < 1000000)
        }),
{
    let ghost f = v@.skip(from as int);
    proof {
        assert(forall|k: int| 0 <= k < f.len() ==> f[k] == v@[from + k]);
    }
    let n = v.len();
    let fp_len: usize = n - from;
    let mut j: usize = from;
    while j < n
        invariant
            from <= j <= n == v@.len(),
            f == v@.skip(from as int),
            forall|k: int| 0 <= k < f.len() ==> f[k] == v@[from + k],
            forall|k: int| from <= k < j ==> is_digit(v@[k]),
        decreases n - j,
    {
        if v[j] < 48 || v[j] > 57 {
            proof {
                assert(f[j - from] == v@[j as int]);
                assert(!all_digits(f));
            }
            return None;
        }
        j += 1;
    }
    assert(all_digits(f)) by {
        assert(forall|k: int| 0 <= k < f.len() ==> f[k] == v@[from + k]);
    }
    if fp_len == 0 {
        assert(frac_micros(f) == 0);
        return Some(0);
    }
    let stop: usize = if fp_len >= 6 {
        from + 6
    } else {
        n
    };
    let ghost head = v@.subrange(from as int, stop as int);
    proof {
        if fp_len >= 6 {
            assert(head =~= f.take(6));
        } else {
            assert(head =~= f);
        }
        assert(all_digits(head));
        lemma_digits_val_bounds(head);
        lemma_pow10_small();
        assert(pow10(head.len() as int) <= 1000000);
    }
    let digits = match parse_digits_bounded(v, from, stop, 999999) {
        Some(d) => d,
        None => {
            // unreachable: at most six digits stay under a million
            proof {
                assert(digits_val(head) <= 999999);
            }
            0
        },
    };
    let mult: u64 = if fp_len >= 6 {
        1
    } else if fp_len == 1 {
        100000
    } else if fp_len == 2 {
        10000
    } else if fp_len == 3 {
        1000
    } else if fp_len == 4 {
        100
    } else {
        10
    };
    let frac = digits * mult;
    proof {
        assert(frac == frac_micros(f)) by {
            if fp_len >= 6 {
            } else {
                assert(head == f);
                assert(mult == frac_scale(f.len() as int));
            }
        }
        lemma_frac_micros_bound(f);
    }
    Some(frac)
}

#[verifier::rlimit(50)]
pub fn parse_real_bytes(v: &Vec<u8>) -> (r: Option<i64>)
    ensures
        r is Some <==> parse_real_spec(v@) is Some,
        r is Some ==> r->0 == parse_real_spec(v@)->0,
{
    let n = v.len();
    let neg = n > 0 && v[0] == 45;
    let off: usize = if n > 0 && (v[0] == 43 || v[0] == 45) {
        1
    } else {
        0
    };
    let ghost t = sign_rest(v@);
    proof {
        assert(t =~= v@.skip(off as int));
        assert(forall|j: int| 0 <= j < t.len() ==> t[j] == v@[off + j]);
    }
    // locate the first decimal point
    let mut dot: usize = off;
    while dot < n && v[dot] != 46
        invariant
            off <= dot <= n == v@.len(),
            forall|j: int| off <= j < dot ==> v@[j] != 46,
        decreases n - dot,
    {
        dot += 1;
    }
    proof {
        if dot < n {
            lemma_find_byte_at(t, 46, dot - off);
        } else {
            lemma_find_byte_none(t, 46);
        }
    }
    let ghost dd = find_byte(t, 46);
    let ghost ip = if dd == -1 {
        t
    } else {
        t.take(dd)
    };
    let ghost fp = if dd == -1 {
        Seq::<u8>::empty()
    } else {
        t.skip(dd + 1)
    };
    proof {
        assert(ip =~= v@.subrange(off as int, dot as int));
    }
    // integer part
    let ip_val: u64 = if dot == off {
        assert(ip.len() == 0);
        0
    } else {
        match parse_digits_bounded(v, off, dot, 999999999) {
            Some(d) => d,
            None => {
                return None;
            },
        }
    };
    // fraction part
    let mut frac: u64 = 0;
    let mut fp_len: usize = 0;
    if dot < n {
        fp_len = n - (dot + 1);
        proof {
            assert(fp =~= v@.skip(dot + 1 as int));
        }
        match parse_fraction(v, dot + 1) {
            Some(d) => {
                frac = d;
                proof {
                    lemma_frac_micros_bound(fp);
                }
            },
            None => {
                return None;
            },
        }
    }
    if dot == off && fp_len == 0 {
        assert(ip.len() + fp.len() == 0);
        return None;
    }
    assert(frac == frac_micros(fp));
    assert(ip_val == digits_val(ip) && digits_val(ip) < 1000000000);
    assert(all_digits(ip) && all_digits(fp));
    let m: u64 = ip_val * 1000000 + frac;
    assert(parse_real_spec(v@) is Some);
    if neg {
        Some(-(m as i64))
    } else {
        Some(m as i64)
    }
}

} // verus!
