//! Byte-string helpers shared by the scanner, resolver and renderer.
//!
//! All note text is handled as raw bytes, so that span offsets are byte
//! offsets regardless of how the text is encoded.

use vstd::prelude::*;

verus! {

/// First index `i` with `from <= i < s.len()` and `s[i] == b`, or `s.len()`.
pub open spec fn spec_find_byte(s: Seq<u8>, from: int, b: u8) -> int
    decreases s.len() - from when 0 <= from
{
    if from >= s.len() {
        s.len() as int
    } else if s[from] == b {
        from
    } else {
        spec_find_byte(s, from + 1, b)
    }
}

pub proof fn lemma_find_byte(s: Seq<u8>, from: int, b: u8)
    requires
        0 <= from <= s.len(),
    ensures
        from <= spec_find_byte(s, from, b) <= s.len(),
        forall|i: int| from <= i < spec_find_byte(s, from, b) ==> s[i] != b,
        spec_find_byte(s, from, b) < s.len() ==> s[spec_find_byte(s, from, b)] == b,
    decreases s.len() - from,
{
    if from < s.len() && s[from] != b {
        lemma_find_byte(s, from + 1, b);
    }
}

pub fn find_byte(v: &Vec<u8>, from: usize, b: u8) -> (r: usize)
    requires
        from <= v@.len(),
    ensures
        r == spec_find_byte(v@, from as int, b),
{
    let mut i: usize = from;
    while i < v.len()
        invariant
            from <= i <= v@.len(),
            spec_find_byte(v@, from as int, b) == spec_find_byte(v@, i as int, b),
        decreases v@.len() - i,
    {
        if v[i] == b {
            return i;
        }
        i = i + 1;
    }
    i
}

/// Last index `i` with `0 <= i < end` and `s[i] == b`, or `-1`.
pub open spec fn spec_rfind_byte(s: Seq<u8>, end: int, b: u8) -> int
    decreases end when end <= s.len()
{
    if end <= 0 {
        -1
    } else if s[end - 1] == b {
        end - 1
    } else {
        spec_rfind_byte(s, end - 1, b)
    }
}

pub proof fn lemma_rfind_byte(s: Seq<u8>, end: int, b: u8)
    requires
        0 <= end <= s.len(),
    ensures
        -1 <= spec_rfind_byte(s, end, b) < end,
        forall|i: int| spec_rfind_byte(s, end, b) < i < end ==> s[i] != b,
        spec_rfind_byte(s, end, b) >= 0 ==> s[spec_rfind_byte(s, end, b)] == b,
    decreases end,
{
    if end > 0 && s[end - 1] != b {
        lemma_rfind_byte(s, end - 1, b);
    }
}

pub fn rfind_byte(v: &Vec<u8>, end: usize, b: u8) -> (r: Option<usize>)
    requires
        end <= v@.len(),
    ensures
        match r {
            Some(i) => i == spec_rfind_byte(v@, end as int, b),
            None => spec_rfind_byte(v@, end as int, b) == -1,
        },
{
    let mut i: usize = end;
    while i > 0
        invariant
            0 <= i <= end <= v@.len(),
            spec_rfind_byte(v@, end as int, b) == spec_rfind_byte(v@, i as int, b),
        decreases i,
    {
        if v[i - 1] == b {
            return Some(i - 1);
        }
        i = i - 1;
    }
    None
}

/// Copy of `v[a..b]`.
pub fn subvec(v: &Vec<u8>, a: usize, b: usize) -> (r: Vec<u8>)
    requires
        a <= b <= v@.len(),
    ensures
        r@ == v@.subrange(a as int, b as int),
{
    let mut out: Vec<u8> = Vec::new();
    let mut i: usize = a;
    while i < b
        invariant
            a <= i <= b <= v@.len(),
            out@ =~= v@.subrange(a as int, i as int),
        decreases b - i,
    {
        out.push(v[i]);
        i = i + 1;
    }
    assert(out@ =~= v@.subrange(a as int, b as int));
    out
}

/// Append all of `src` to `out`.
pub fn push_all(out: &mut Vec<u8>, src: &Vec<u8>)
    ensures
        final(out)@ == old(out)@ + src@,
{
    let mut i: usize = 0;
    while i < src.len()
        invariant
            i <= src@.len(),
            out@ =~= old(out)@ + src@.subrange(0, i as int),
        decreases src@.len() - i,
    {
        out.push(src[i]);
        i = i + 1;
    }
    assert(out@ =~= old(out)@ + src@);
}

/// Exact byte equality of two vectors.
pub fn bytes_eq(a: &Vec<u8>, b: &Vec<u8>) -> (r: bool)
    ensures
        r <==> a@ == b@,
{
    if a.len() != b.len() {
        assert(a@.len() != b@.len());
        return false;
    }
    let mut i: usize = 0;
    while i < a.len()
        invariant
            i <= a@.len(),
            a@.len() == b@.len(),
            forall|j: int| 0 <= j < i ==> a@[j] == b@[j],
        decreases a@.len() - i,
    {
        if a[i] != b[i] {
            return false;
        }
        i = i + 1;
    }
    assert(a@ =~= b@);
    true
}

/// ASCII (and the low control range) whitespace, the bytes that trimming removes.
pub open spec fn is_ws(b: u8) -> bool {
    b == 32 || (9 <= b && b <= 13)
}

pub fn byte_is_ws(b: u8) -> (r: bool)
    ensures
        r == is_ws(b),
{
    b == 32 || (9 <= b && b <= 13)
}

/// First index at or after `from` holding a non-whitespace byte, or `s.len()`.
pub open spec fn spec_skip_ws(s: Seq<u8>, from: int) -> int
    decreases s.len() - from when 0 <= from
{
    if from >= s.len() {
        s.len() as int
    } else if is_ws(s[from]) {
        spec_skip_ws(s, from + 1)
    } else {
        from
    }
}

pub proof fn lemma_skip_ws(s: Seq<u8>, from: int)
    requires
        0 <= from <= s.len(),
    ensures
        from <= spec_skip_ws(s, from) <= s.len(),
        forall|i: int| from <= i < spec_skip_ws(s, from) ==> is_ws(s[i]),
        spec_skip_ws(s, from) < s.len() ==> !is_ws(s[spec_skip_ws(s, from)]),
    decreases s.len() - from,
{
    if from < s.len() && is_ws(s[from]) {
        lemma_skip_ws(s, from + 1);
    }
}

/// One past the last non-whitespace byte strictly before `end`, or `0`.
pub open spec fn spec_rskip_ws(s: Seq<u8>, end: int) -> int
    decreases end when end <= s.len()
{
    if end <= 0 {
        0
    } else if is_ws(s[end - 1]) {
        spec_rskip_ws(s, end - 1)
    } else {
        end
    }
}

pub proof fn lemma_rskip_ws(s: Seq<u8>, end: int)
    requires
        0 <= end <= s.len(),
    ensures
        0 <= spec_rskip_ws(s, end) <= end,
        forall|i: int| spec_rskip_ws(s, end) <= i < end ==> is_ws(s[i]),
        spec_rskip_ws(s, end) > 0 ==> !is_ws(s[spec_rskip_ws(s, end) - 1]),
    decreases end,
{
    if end > 0 && is_ws(s[end - 1]) {
        lemma_rskip_ws(s, end - 1);
    }
}

/// The text with leading and trailing whitespace removed.
pub open spec fn spec_trim(s: Seq<u8>) -> Seq<u8> {
    let lo = spec_skip_ws(s, 0);
    let hi = spec_rskip_ws(s, s.len() as int);
    if lo <= hi {
        s.subrange(lo, hi)
    } else {
        Seq::empty()
    }
}

pub fn trim_bytes(v: &Vec<u8>) -> (r: Vec<u8>)
    ensures
        r@ == spec_trim(v@),
{
    proof {
        lemma_skip_ws(v@, 0);
        lemma_rskip_ws(v@, v@.len() as int);
    }
    let mut lo: usize = 0;
    while lo < v.len() && byte_is_ws(v[lo])
        invariant
            lo <= v@.len(),
            spec_skip_ws(v@, 0) == spec_skip_ws(v@, lo as int),
        decreases v@.len() - lo,
    {
        lo = lo + 1;
    }
    let mut hi: usize = v.len();
    while hi > 0 && byte_is_ws(v[hi - 1])
        invariant
            hi <= v@.len(),
            spec_rskip_ws(v@, v@.len() as int) == spec_rskip_ws(v@, hi as int),
        decreases hi,
    {
        hi = hi - 1;
    }
    assert(lo == spec_skip_ws(v@, 0));
    assert(hi == spec_rskip_ws(v@, v@.len() as int));
    if lo <= hi {
        subvec(v, lo, hi)
    } else {
        let r: Vec<u8> = Vec::new();
        assert(r@ =~= spec_trim(v@));
        r
    }
}

/// The text with every occurrence of `from` replaced by `to`.
pub open spec fn spec_replace(s: Seq<u8>, from: u8, to: u8) -> Seq<u8> {
    s.map_values(|x: u8| if x == from { to } else { x })
}

pub fn replace_byte(v: &Vec<u8>, from: u8, to: u8) -> (r: Vec<u8>)
    ensures
        r@ == spec_replace(v@, from, to),
{
    let mut out: Vec<u8> = Vec::new();
    let mut i: usize = 0;
    while i < v.len()
        invariant
            i <= v@.len(),
            out@.len() == i,
            forall|j: int| 0 <= j < i ==> out@[j] == (if v@[j] == from { to } else { v@[j] }),
        decreases v@.len() - i,
    {
        if v[i] == from {
            out.push(to);
        } else {
            out.push(v[i]);
        }
        i = i + 1;
    }
    assert(out@ =~= spec_replace(v@, from, to));
    out
}

/// Whether `s` holds byte `b` anywhere.
pub open spec fn spec_contains_byte(s: Seq<u8>, b: u8) -> bool {
    exists|i: int| 0 <= i < s.len() && s[i] == b
}

pub fn contains_byte(v: &Vec<u8>, b: u8) -> (r: bool)
    ensures
        r == spec_contains_byte(v@, b),
{
    let mut i: usize = 0;
    while i < v.len()
        invariant
            i <= v@.len(),
            forall|j: int| 0 <= j < i ==> v@[j] != b,
        decreases v@.len() - i,
    {
        if v[i] == b {
            return true;
        }
        i = i + 1;
    }
    false
}

/// Whether `pat` occurs in `s` starting exactly at `at`.
pub open spec fn matches_at(s: Seq<u8>, at: int, pat: Seq<u8>) -> bool {
    0 <= at && at + pat.len() <= s.len() && s.subrange(at, at + pat.len()) == pat
}

pub fn check_match_at(v: &Vec<u8>, at: usize, pat: &Vec<u8>) -> (r: bool)
    requires
        at <= v@.len(),
    ensures
        r == matches_at(v@, at as int, pat@),
{
    if v.len() - at < pat.len() {
        return false;
    }
    let mut i: usize = 0;
    while i < pat.len()
        invariant
            i <= pat.len(),
            at + pat.len() <= v.len(),
            forall|j: int| 0 <= j < i ==> v@[at + j] == pat@[j],
        decreases pat@.len() - i,
    {
        if v[at + i] != pat[i] {
            assert(v@.subrange(at as int, at + pat@.len())[i as int] != pat@[i as int]);
            return false;
        }
        i = i + 1;
    }
    assert(v@.subrange(at as int, at + pat@.len()) =~= pat@);
    true
}

/// First position `j >= from` where `pat` occurs in `s`, or `s.len()`.
pub open spec fn spec_find_sub(s: Seq<u8>, from: int, pat: Seq<u8>) -> int
    decreases s.len() - from when 0 <= from via find_sub_dec
{
    if from + pat.len() > s.len() {
        s.len() as int
    } else if s.subrange(from, from + pat.len()) == pat {
        from
    } else {
        spec_find_sub(s, from + 1, pat)
    }
}

#[via_fn]
proof fn find_sub_dec(s: Seq<u8>, from: int, pat: Seq<u8>) {
    if 0 <= from && from + pat.len() <= s.len() && s.subrange(from, from + pat.len()) != pat {
        if pat.len() == 0 {
            assert(s.subrange(from, from + pat.len()) =~= pat);
        }
    }
}

pub proof fn lemma_find_sub(s: Seq<u8>, from: int, pat: Seq<u8>)
    requires
        0 <= from <= s.len(),
        pat.len() > 0,
    ensures
        from <= spec_find_sub(s, from, pat) <= s.len(),
        spec_find_sub(s, from, pat) < s.len() ==> matches_at(s, spec_find_sub(s, from, pat), pat),
    decreases s.len() - from,
{
    if from + pat.len() <= s.len() && s.subrange(from, from + pat.len()) != pat {
        lemma_find_sub(s, from + 1, pat);
    }
}

pub fn find_sub(v: &Vec<u8>, from: usize, pat: &Vec<u8>) -> (r: usize)
    requires
        from <= v@.len(),
        pat@.len() > 0,
    ensures
        r == spec_find_sub(v@, from as int, pat@),
{
    let mut i: usize = from;
    while v.len() - i >= pat.len()
        invariant
            from <= i <= v.len(),
            pat@.len() > 0,
            spec_find_sub(v@, from as int, pat@) == spec_find_sub(v@, i as int, pat@),
        decreases v@.len() - i,
    {
        if check_match_at(v, i, pat) {
            return i;
        }
        i = i + 1;
    }
    v.len()
}

/// Whether `s` ends with `suffix`.
pub open spec fn spec_ends_with(s: Seq<u8>, suffix: Seq<u8>) -> bool {
    s.len() >= suffix.len() && s.subrange(s.len() - suffix.len(), s.len() as int) == suffix
}

pub fn ends_with(v: &Vec<u8>, suffix: &Vec<u8>) -> (r: bool)
    ensures
        r == spec_ends_with(v@, suffix@),
{
    if v.len() < suffix.len() {
        return false;
    }
    let r = check_match_at(v, v.len() - suffix.len(), suffix);
    assert(matches_at(v@, v@.len() - suffix@.len(), suffix@) == spec_ends_with(v@, suffix@));
    r
}

/// Byte-wise lexicographic order.
pub open spec fn lex_le(a: Seq<u8>, b: Seq<u8>) -> bool
    decreases a.len(),
{
    if a.len() == 0 {
        true
    } else if b.len() == 0 {
        false
    } else if a[0] < b[0] {
        true
    } else if a[0] > b[0] {
        false
    } else {
        lex_le(a.drop_first(), b.drop_first())
    }
}

pub proof fn lemma_lex_le_total(a: Seq<u8>, b: Seq<u8>)
    ensures
        lex_le(a, b) || lex_le(b, a),
    decreases a.len(),
{
    if a.len() > 0 && b.len() > 0 && a[0] == b[0] {
        lemma_lex_le_total(a.drop_first(), b.drop_first());
    }
}

pub proof fn lemma_lex_le_trans(a: Seq<u8>, b: Seq<u8>, c: Seq<u8>)
    requires
        lex_le(a, b),
        lex_le(b, c),
    ensures
        lex_le(a, c),
    decreases a.len(),
{
    if a.len() > 0 && b.len() > 0 && c.len() > 0 && a[0] == b[0] && b[0] == c[0] {
        lemma_lex_le_trans(a.drop_first(), b.drop_first(), c.drop_first());
    }
}

pub fn lex_le_bytes(a: &Vec<u8>, b: &Vec<u8>) -> (r: bool)
    ensures
        r == lex_le(a@, b@),
{
    proof {
        assert(a@.skip(0) =~= a@);
        assert(b@.skip(0) =~= b@);
    }
    let mut i: usize = 0;
    while i < a.len() && i < b.len()
        invariant
            i <= a@.len(),
            i <= b@.len(),
            lex_le(a@, b@) == lex_le(a@.skip(i as int), b@.skip(i as int)),
        decreases a@.len() - i,
    {
        if a[i] < b[i] {
            assert(a@.skip(i as int)[0] == a@[i as int]);
            assert(b@.skip(i as int)[0] == b@[i as int]);
            return true;
        }
        if a[i] > b[i] {
            assert(a@.skip(i as int)[0] == a@[i as int]);
            assert(b@.skip(i as int)[0] == b@[i as int]);
            return false;
        }
        proof {
            assert(a@.skip(i as int)[0] == a@[i as int]);
            assert(b@.skip(i as int)[0] == b@[i as int]);
            assert(a@.skip(i as int).drop_first() =~= a@.skip(i + 1));
            assert(b@.skip(i as int).drop_first() =~= b@.skip(i + 1));
        }
        i = i + 1;
    }
    proof {
        assert(a@.skip(i as int).len() == a@.len() - i);
        assert(b@.skip(i as int).len() == b@.len() - i);
    }
    i >= a.len()
}

} // verus!
