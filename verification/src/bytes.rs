//! Byte-sequence primitives shared by the pipeline: substring search,
//! prefix tests, whitespace trimming, splitting on a separator byte.

use vstd::prelude::*;

verus! {

/// First index of `b` in `s`, or -1 when `b` does not occur.
pub open spec fn find_byte(s: Seq<u8>, b: u8) -> int
    decreases s.len(),
{
    if s.len() == 0 {
        -1
    } else if s[0] == b {
        0
    } else if find_byte(s.drop_first(), b) == -1 {
        -1
    } else {
        find_byte(s.drop_first(), b) + 1
    }
}

pub proof fn lemma_find_byte_at(s: Seq<u8>, b: u8, j: int)
    requires
        0 <= j < s.len(),
        s[j] == b,
        forall|i: int| 0 <= i < j ==> s[i] != b,
    ensures
        find_byte(s, b) == j,
    decreases j,
{
    if j == 0 {
    } else {
        assert(forall|i: int| 0 <= i < s.drop_first().len() ==> s.drop_first()[i] == s[i + 1]);
        lemma_find_byte_at(s.drop_first(), b, j - 1);
    }
}

pub proof fn lemma_find_byte_none(s: Seq<u8>, b: u8)
    requires
        forall|i: int| 0 <= i < s.len() ==> s[i] != b,
    ensures
        find_byte(s, b) == -1,
    decreases s.len(),
{
    if s.len() > 0 {
        assert(forall|i: int| 0 <= i < s.drop_first().len() ==> s.drop_first()[i] == s[i + 1]);
        lemma_find_byte_none(s.drop_first(), b);
    }
}

/// First index where the two-byte pattern `a b` occurs in `s`, or -1.
pub open spec fn find_pair(s: Seq<u8>, a: u8, b: u8) -> int
    decreases s.len(),
{
    if s.len() < 2 {
        -1
    } else if s[0] == a && s[1] == b {
        0
    } else if find_pair(s.drop_first(), a, b) == -1 {
        -1
    } else {
        find_pair(s.drop_first(), a, b) + 1
    }
}

pub open spec fn pair_at(s: Seq<u8>, a: u8, b: u8, i: int) -> bool {
    0 <= i && i + 2 <= s.len() && s[i] == a && s[i + 1] == b
}

pub proof fn lemma_find_pair_props(s: Seq<u8>, a: u8, b: u8)
    ensures
        find_pair(s, a, b) == -1 ==> forall|i: int| !pair_at(s, a, b, i),
        find_pair(s, a, b) != -1 ==> {
            let j = find_pair(s, a, b);
            &&& pair_at(s, a, b, j)
            &&& forall|i: int| 0 <= i < j ==> !pair_at(s, a, b, i)
        },
    decreases s.len(),
{
    if s.len() < 2 {
    } else if s[0] == a && s[1] == b {
    } else {
        lemma_find_pair_props(s.drop_first(), a, b);
        assert(forall|i: int| 0 <= i < s.drop_first().len() ==> s.drop_first()[i] == s[i + 1]);
        assert forall|i: int| 0 <= i && pair_at(s, a, b, i) implies pair_at(
            s.drop_first(),
            a,
            b,
            i - 1,
        ) || i == 0 by {
        }
    }
}

pub proof fn lemma_find_pair_at(s: Seq<u8>, a: u8, b: u8, j: int)
    requires
        pair_at(s, a, b, j),
        forall|i: int| 0 <= i < j ==> !pair_at(s, a, b, i),
    ensures
        find_pair(s, a, b) == j,
    decreases j,
{
    assert(forall|i: int| 0 <= i < s.drop_first().len() ==> s.drop_first()[i] == s[i + 1]);
    if j == 0 {
    } else {
        assert(!pair_at(s, a, b, 0));
        assert forall|i: int| 0 <= i < j - 1 implies !pair_at(s.drop_first(), a, b, i) by {
            assert(!pair_at(s, a, b, i + 1));
        }
        lemma_find_pair_at(s.drop_first(), a, b, j - 1);
    }
}

pub proof fn lemma_find_pair_none(s: Seq<u8>, a: u8, b: u8)
    requires
        forall|i: int| !pair_at(s, a, b, i),
    ensures
        find_pair(s, a, b) == -1,
    decreases s.len(),
{
    if s.len() >= 2 {
        assert(!pair_at(s, a, b, 0));
        assert(forall|i: int| 0 <= i < s.drop_first().len() ==> s.drop_first()[i] == s[i + 1]);
        assert forall|i: int| !pair_at(s.drop_first(), a, b, i) by {
            if pair_at(s.drop_first(), a, b, i) {
                assert(pair_at(s, a, b, i + 1));
            }
        }
        lemma_find_pair_none(s.drop_first(), a, b);
    }
}

/// Extending a sequence on the right does not move an existing first match.
pub proof fn lemma_find_pair_extend(s: Seq<u8>, t: Seq<u8>, a: u8, b: u8)
    requires
        find_pair(s, a, b) != -1,
    ensures
        find_pair(s + t, a, b) == find_pair(s, a, b),
{
    let j = find_pair(s, a, b);
    lemma_find_pair_props(s, a, b);
    assert(pair_at(s + t, a, b, j));
    assert forall|i: int| 0 <= i < j implies !pair_at(s + t, a, b, i) by {
        if pair_at(s + t, a, b, i) {
            assert(pair_at(s, a, b, i));
        }
    }
    lemma_find_pair_at(s + t, a, b, j);
}

/// Scans `v[from..]` for the two-byte pattern `a b`, first occurrence.
pub fn find_pair_from(v: &Vec<u8>, a: u8, b: u8, from: usize) -> (r: Option<usize>)
    requires
        from <= v@.len(),
    ensures
        ({
            let t = v@.skip(from as int);
            &&& (r is None <==> find_pair(t, a, b) == -1)
            &&& (r is Some ==> from <= r->0 && r->0 + 2 <= v@.len() && r->0 - from == find_pair(
                t,
                a,
                b,
            ))
        }),
{
    let ghost t = v@.skip(from as int);
    proof {
        assert(forall|j: int| 0 <= j < t.len() ==> t[j] == v@[from + j]);
    }
    let n = v.len();
    let mut i: usize = from;
    while n - i > 1
        invariant
            from <= i <= n == v@.len(),
            t == v@.skip(from as int),
            forall|j: int| 0 <= j < t.len() ==> t[j] == v@[from + j],
            forall|j: int| 0 <= j < i - from ==> !pair_at(t, a, b, j),
        decreases n - i,
    {
        if v[i] == a && v[i + 1] == b {
            proof {
                assert(pair_at(t, a, b, i - from));
                lemma_find_pair_at(t, a, b, i - from);
            }
            return Some(i);
        }
        proof {
            assert forall|j: int| 0 <= j < i + 1 - from implies !pair_at(t, a, b, j) by {
                if j == i - from && pair_at(t, a, b, j) {
                    assert(t[j] == v@[i as int] && t[j + 1] == v@[i + 1]);
                }
            }
        }
        i += 1;
    }
    proof {
        assert forall|j: int| !pair_at(t, a, b, j) by {
            if pair_at(t, a, b, j) {
                assert(0 <= j && j + 2 <= t.len());
                assert(j + from <= n - 2);
                assert(i >= n - 1);
                assert(j < i - from);
            }
        }
        lemma_find_pair_none(t, a, b);
    }
    None
}

/// `p` is a prefix of `s`.
pub open spec fn starts_with(s: Seq<u8>, p: Seq<u8>) -> bool {
    p.len() <= s.len() && s.take(p.len() as int) == p
}

/// Byte-for-byte prefix test.
pub fn has_prefix(v: &Vec<u8>, p: &Vec<u8>) -> (r: bool)
    ensures
        r == starts_with(v@, p@),
{
    if p.len() > v.len() {
        assert(!starts_with(v@, p@));
        return false;
    }
    let mut i: usize = 0;
    while i < p.len()
        invariant
            i <= p.len() <= v.len(),
            forall|j: int| 0 <= j < i ==> v@[j] == p@[j],
        decreases p.len() - i,
    {
        if v[i] != p[i] {
            assert(v@.take(p@.len() as int)[i as int] != p@[i as int]);
            return false;
        }
        i += 1;
    }
    assert(v@.take(p@.len() as int) =~= p@);
    true
}

/// Copy of `v[from..to]`.
pub fn subvec(v: &Vec<u8>, from: usize, to: usize) -> (r: Vec<u8>)
    requires
        from <= to <= v@.len(),
    ensures
        r@ == v@.subrange(from as int, to as int),
{
    let mut r: Vec<u8> = Vec::new();
    let mut i: usize = from;
    while i < to
        invariant
            from <= i <= to <= v@.len(),
            r@ == v@.subrange(from as int, i as int),
        decreases to - i,
    {
        r.push(v[i]);
        assert(r@ =~= v@.subrange(from as int, i + 1 as int));
        i += 1;
    }
    r
}

/// Byte-for-byte copy of `v`.
pub fn copy_bytes(v: &Vec<u8>) -> (r: Vec<u8>)
    ensures
        r@ == v@,
{
    let r = subvec(v, 0, v.len());
    proof {
        assert(r@ =~= v@);
    }
    r
}

/// ASCII whitespace, the bytes the pipeline trims at field edges.
pub open spec fn is_space(b: u8) -> bool {
    b == 32 || (9 <= b && b <= 13)
}

pub open spec fn trim_start_spec(s: Seq<u8>) -> Seq<u8>
    decreases s.len(),
{
    if s.len() > 0 && is_space(s[0]) {
        trim_start_spec(s.drop_first())
    } else {
        s
    }
}

pub open spec fn trim_end_spec(s: Seq<u8>) -> Seq<u8>
    decreases s.len(),
{
    if s.len() > 0 && is_space(s.last()) {
        trim_end_spec(s.drop_last())
    } else {
        s
    }
}

/// `s` without leading and trailing ASCII whitespace.
pub open spec fn trim_spec(s: Seq<u8>) -> Seq<u8> {
    trim_end_spec(trim_start_spec(s))
}

proof fn lemma_trim_start_at(s: Seq<u8>, lo: int)
    requires
        0 <= lo <= s.len(),
        forall|j: int| 0 <= j < lo ==> is_space(s[j]),
        lo < s.len() ==> !is_space(s[lo]),
    ensures
        trim_start_spec(s) == s.skip(lo),
    decreases lo,
{
    if lo == 0 {
        assert(s.skip(0) =~= s);
    } else {
        assert(forall|i: int| 0 <= i < s.drop_first().len() ==> s.drop_first()[i] == s[i + 1]);
        lemma_trim_start_at(s.drop_first(), lo - 1);
        assert(s.drop_first().skip(lo - 1) =~= s.skip(lo));
    }
}

proof fn lemma_trim_end_at(s: Seq<u8>, hi: int)
    requires
        0 <= hi <= s.len(),
        forall|j: int| hi <= j < s.len() ==> is_space(s[j]),
        hi > 0 ==> !is_space(s[hi - 1]),
    ensures
        trim_end_spec(s) == s.take(hi),
    decreases s.len(),
{
    if hi == s.len() {
        if s.len() > 0 {
            assert(!is_space(s.last()));
        }
        assert(s.take(hi) =~= s);
    } else {
        assert(is_space(s.last()));
        lemma_trim_end_at(s.drop_last(), hi);
        assert(s.drop_last().take(hi) =~= s.take(hi));
    }
}

/// Verified ASCII trim: drops whitespace at both ends.
pub fn trim(v: &Vec<u8>) -> (r: Vec<u8>)
    ensures
        r@ == trim_spec(v@),
{
    let mut lo: usize = 0;
    while lo < v.len() && is_space_byte(v[lo])
        invariant
            lo <= v@.len(),
            forall|j: int| 0 <= j < lo ==> is_space(v@[j]),
        decreases v@.len() - lo,
    {
        lo += 1;
    }
    proof {
        lemma_trim_start_at(v@, lo as int);
    }
    let mut hi: usize = v.len();
    while hi > lo && is_space_byte(v[hi - 1])
        invariant
            lo <= hi <= v@.len(),
            forall|j: int| hi <= j < v@.len() ==> is_space(v@[j]),
        decreases hi,
    {
        hi -= 1;
    }
    proof {
        let t = v@.skip(lo as int);
        assert(forall|j: int| 0 <= j < t.len() ==> t[j] == v@[j + lo]);
        lemma_trim_end_at(t, hi - lo);
        assert(t.take(hi - lo) =~= v@.subrange(lo as int, hi as int));
    }
    subvec(v, lo, hi)
}

fn is_space_byte(b: u8) -> (r: bool)
    ensures
        r == is_space(b),
{
    b == 32 || (9 <= b && b <= 13)
}

/// `s` split on every occurrence of `b`; always at least one piece, and the
/// separators themselves are not part of any piece.
pub open spec fn split_byte(s: Seq<u8>, b: u8) -> Seq<Seq<u8>>
    decreases s.len(),
{
    if s.len() == 0 {
        seq![Seq::<u8>::empty()]
    } else if s[0] == b {
        seq![Seq::<u8>::empty()] + split_byte(s.drop_first(), b)
    } else {
        let rest = split_byte(s.drop_first(), b);
        seq![seq![s[0]] + rest[0]] + rest.drop_first()
    }
}

pub proof fn lemma_split_byte_len(s: Seq<u8>, b: u8)
    ensures
        split_byte(s, b).len() >= 1,
    decreases s.len(),
{
    if s.len() > 0 {
        lemma_split_byte_len(s.drop_first(), b);
    }
}

/// Unfolds a split at the first separator.
pub proof fn lemma_split_byte_first(s: Seq<u8>, b: u8, j: int)
    requires
        0 <= j < s.len(),
        s[j] == b,
        forall|i: int| 0 <= i < j ==> s[i] != b,
    ensures
        split_byte(s, b) == seq![s.take(j)] + split_byte(s.skip(j + 1), b),
    decreases j,
{
    assert(forall|i: int| 0 <= i < s.drop_first().len() ==> s.drop_first()[i] == s[i + 1]);
    if j == 0 {
        assert(s.drop_first() =~= s.skip(1));
        assert(s.take(0) =~= Seq::<u8>::empty());
        assert(seq![s.take(0)] + split_byte(s.skip(1), b) =~= seq![Seq::<u8>::empty()]
            + split_byte(s.drop_first(), b));
    } else {
        lemma_split_byte_first(s.drop_first(), b, j - 1);
        lemma_split_byte_len(s.skip(j + 1), b);
        let rest = split_byte(s.drop_first(), b);
        assert(rest[0] == s.drop_first().take(j - 1));
        assert(seq![s[0]] + s.drop_first().take(j - 1) =~= s.take(j));
        assert(s.drop_first().skip(j) =~= s.skip(j + 1));
        assert(rest.drop_first() =~= split_byte(s.skip(j + 1), b));
        assert(split_byte(s, b) =~= seq![s.take(j)] + split_byte(s.skip(j + 1), b));
    }
}

pub proof fn lemma_split_byte_none(s: Seq<u8>, b: u8)
    requires
        forall|i: int| 0 <= i < s.len() ==> s[i] != b,
    ensures
        split_byte(s, b) == seq![s],
    decreases s.len(),
{
    if s.len() == 0 {
        assert(s =~= Seq::<u8>::empty());
    } else {
        assert(forall|i: int| 0 <= i < s.drop_first().len() ==> s.drop_first()[i] == s[i + 1]);
        lemma_split_byte_none(s.drop_first(), b);
        let rest = split_byte(s.drop_first(), b);
        assert(rest[0] == s.drop_first());
        assert(seq![s[0]] + s.drop_first() =~= s);
        assert(rest.drop_first() =~= Seq::<Seq<u8>>::empty());
        assert(split_byte(s, b) =~= seq![s]);
    }
}

/// The views of a sequence of byte vectors.
pub open spec fn views(s: Seq<Vec<u8>>) -> Seq<Seq<u8>> {
    Seq::new(s.len(), |i: int| s[i]@)
}

pub proof fn lemma_views_push(s: Seq<Vec<u8>>, v: Vec<u8>)
    ensures
        views(s.push(v)) == views(s).push(v@),
{
    assert(views(s.push(v)) =~= views(s).push(v@));
}

/// Splits `v` on byte `b`, mirroring `split_byte`.
pub fn split_on(v: &Vec<u8>, b: u8) -> (r: Vec<Vec<u8>>)
    ensures
        views(r@) == split_byte(v@, b),
{
    let mut r: Vec<Vec<u8>> = Vec::new();
    let mut start: usize = 0;
    let mut i: usize = 0;
    proof {
        assert(views(r@) =~= Seq::<Seq<u8>>::empty());
        assert(v@.skip(0) =~= v@);
        assert(views(r@) + split_byte(v@, b) =~= split_byte(v@, b));
    }
    while i < v.len()
        invariant
            start <= i <= v@.len(),
            forall|j: int| start <= j < i ==> v@[j] != b,
            split_byte(v@, b) == views(r@) + split_byte(v@.skip(start as int), b),
        decreases v@.len() - i,
    {
        if v[i] == b {
            let piece = subvec(v, start, i);
            proof {
                let t = v@.skip(start as int);
                assert(forall|j: int| 0 <= j < t.len() ==> t[j] == v@[j + start]);
                lemma_split_byte_first(t, b, i - start);
                assert(t.take(i - start) =~= piece@);
                assert(t.skip(i - start + 1) =~= v@.skip(i + 1));
                lemma_views_push(r@, piece);
                assert(views(r@.push(piece)) + split_byte(v@.skip(i + 1), b) =~= views(r@) + (seq![
                    piece@,
                ] + split_byte(v@.skip(i + 1), b)));
            }
            r.push(piece);
            start = i + 1;
        }
        i += 1;
    }
    let piece = subvec(v, start, v.len());
    proof {
        let t = v@.skip(start as int);
        assert(forall|j: int| 0 <= j < t.len() ==> t[j] == v@[j + start]);
        lemma_split_byte_none(t, b);
        assert(t =~= piece@);
        lemma_views_push(r@, piece);
        assert(views(r@.push(piece)) =~= views(r@) + seq![piece@]);
    }
    r.push(piece);
    r
}

} // verus!
