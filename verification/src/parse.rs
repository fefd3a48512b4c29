//! Scanning note text for `[[...]]` / `![[...]]` spans, skipping fenced code
//! blocks and inline code runs.
//!
//! Offsets are byte offsets into the raw text; the scan never looks at
//! character boundaries, so multi-byte text is handled by construction.

use vstd::prelude::*;

use crate::strutil::lemma_find_byte;
use crate::strutil::spec_find_byte;
use crate::strutil::find_byte;
use crate::strutil::subvec;

verus! {

/// Backtick byte.
pub open spec fn bt() -> u8 {
    96
}

/// A fenced-code delimiter (three backticks) starts at `i`.
pub open spec fn fence_at(t: Seq<u8>, i: int) -> bool {
    &&& 0 <= i
    &&& i + 3 <= t.len()
    &&& t[i] == bt()
    &&& t[i + 1] == bt()
    &&& t[i + 2] == bt()
}

/// First position `j >= from` where a fence delimiter starts, or `t.len()`.
pub open spec fn spec_find_fence(t: Seq<u8>, from: int) -> int
    decreases t.len() - from when 0 <= from
{
    if from + 3 > t.len() {
        t.len() as int
    } else if fence_at(t, from) {
        from
    } else {
        spec_find_fence(t, from + 1)
    }
}

pub proof fn lemma_find_fence(t: Seq<u8>, from: int)
    requires
        0 <= from <= t.len(),
    ensures
        from <= spec_find_fence(t, from),
        spec_find_fence(t, from) <= t.len(),
        spec_find_fence(t, from) + 3 <= t.len() ==> fence_at(t, spec_find_fence(t, from)),
        forall|j: int| from <= j < spec_find_fence(t, from) ==> !fence_at(t, j),
    decreases t.len() - from,
{
    if from + 3 <= t.len() && !fence_at(t, from) {
        lemma_find_fence(t, from + 1);
    }
}

pub fn find_fence(v: &Vec<u8>, from: usize) -> (r: usize)
    requires
        from <= v@.len(),
    ensures
        r == spec_find_fence(v@, from as int),
{
    if v.len() < 3 {
        return v.len();
    }
    let mut i: usize = from;
    while i <= v.len() - 3
        invariant
            from <= i <= v.len(),
            v.len() >= 3,
            spec_find_fence(v@, from as int) == spec_find_fence(v@, i as int),
        decreases v@.len() - i,
    {
        if v[i] == 96 && v[i + 1] == 96 && v[i + 2] == 96 {
            return i;
        }
        i = i + 1;
    }
    v.len()
}

/// First position `j >= from` where a closing `]]` starts (with the second
/// bracket strictly inside the text), or `t.len()`.
pub open spec fn spec_find_close(t: Seq<u8>, from: int) -> int
    decreases t.len() - from when 0 <= from
{
    if from >= t.len() {
        t.len() as int
    } else if t[from] == 93 && from + 1 < t.len() && t[from + 1] == 93 {
        from
    } else {
        spec_find_close(t, from + 1)
    }
}

pub proof fn lemma_find_close(t: Seq<u8>, from: int)
    requires
        0 <= from <= t.len(),
    ensures
        from <= spec_find_close(t, from),
        spec_find_close(t, from) <= t.len(),
        spec_find_close(t, from) < t.len() ==> {
            &&& spec_find_close(t, from) + 2 <= t.len()
            &&& t[spec_find_close(t, from)] == 93
            &&& t[spec_find_close(t, from) + 1] == 93
        },
    decreases t.len() - from,
{
    if from < t.len() && !(t[from] == 93 && from + 1 < t.len() && t[from + 1] == 93) {
        lemma_find_close(t, from + 1);
    }
}

pub fn find_close(v: &Vec<u8>, from: usize) -> (r: usize)
    requires
        from <= v@.len(),
    ensures
        r == spec_find_close(v@, from as int),
{
    let mut i: usize = from;
    while i < v.len()
        invariant
            from <= i <= v.len(),
            spec_find_close(v@, from as int) == spec_find_close(v@, i as int),
        decreases v@.len() - i,
    {
        if v[i] == 93 && i + 1 < v.len() && v[i + 1] == 93 {
            return i;
        }
        i = i + 1;
    }
    v.len()
}

/// Views of a list of exec ranges.
pub open spec fn range_views(s: Seq<(usize, usize)>) -> Seq<(int, int)> {
    s.map_values(|p: (usize, usize)| (p.0 as int, p.1 as int))
}

/// The excluded ranges of the text from position `i` on: fenced code blocks
/// (a fence line to the matching fence; an unterminated fence runs to the end
/// of the text) and inline code runs (backtick to the next backtick; an
/// unterminated run excludes nothing and ends the scan).
pub open spec fn spec_skip_ranges_from(t: Seq<u8>, i: int) -> Seq<(int, int)>
    decreases t.len() - i when 0 <= i via skip_ranges_dec
{
    if i >= t.len() {
        Seq::empty()
    } else if fence_at(t, i) {
        let nl = spec_find_byte(t, i + 3, 10);
        let body = if nl < t.len() {
            nl + 1
        } else {
            nl
        };
        let close = spec_find_fence(t, body);
        if close + 3 <= t.len() {
            seq![(i, close + 3)] + spec_skip_ranges_from(t, close + 3)
        } else {
            seq![(i, t.len() as int)]
        }
    } else if t[i] == bt() {
        let close = spec_find_byte(t, i + 1, bt());
        if close < t.len() {
            seq![(i, close + 1)] + spec_skip_ranges_from(t, close + 1)
        } else {
            Seq::empty()
        }
    } else {
        spec_skip_ranges_from(t, i + 1)
    }
}

#[via_fn]
proof fn skip_ranges_dec(t: Seq<u8>, i: int) {
    if 0 <= i && i < t.len() {
        if fence_at(t, i) {
            lemma_find_byte(t, i + 3, 10);
            let nl = spec_find_byte(t, i + 3, 10);
            let body = if nl < t.len() {
                nl + 1
            } else {
                nl
            };
            lemma_find_fence(t, body);
        } else if t[i] == bt() {
            lemma_find_byte(t, i + 1, bt());
        }
    }
}

/// The complete list of excluded ranges of the text.
pub open spec fn spec_skip_ranges(t: Seq<u8>) -> Seq<(int, int)> {
    spec_skip_ranges_from(t, 0)
}

/// Inclusive byte ranges of the text that must not be scanned for `[[` or `![[`.
pub fn compute_skip_ranges(text: &Vec<u8>) -> (r: Vec<(usize, usize)>)
    ensures
        range_views(r@) == spec_skip_ranges(text@),
{
    let mut out: Vec<(usize, usize)> = Vec::new();
    let mut i: usize = 0;
    while i < text.len()
        invariant
            i <= text.len(),
            range_views(out@) + spec_skip_ranges_from(text@, i as int) == spec_skip_ranges(
                text@,
            ),
        decreases text@.len() - i,
    {
        let ghost pre = out@;
        if text.len() - i >= 3 && text[i] == 96 && text[i + 1] == 96 && text[i + 2] == 96 {
            proof {
                lemma_find_byte(text@, i + 3, 10);
            }
            let nl = find_byte(text, i + 3, 10);
            let body: usize = if nl < text.len() {
                nl + 1
            } else {
                nl
            };
            proof {
                lemma_find_fence(text@, body as int);
            }
            let close = find_fence(text, body);
            if text.len() >= 3 && close <= text.len() - 3 {
                out.push((i, close + 3));
                proof {
                    assert(range_views(out@) =~= range_views(pre) + seq![
                        (i as int, close + 3int),
                    ]);
                    assert(range_views(pre) + (seq![(i as int, close + 3int)]
                        + spec_skip_ranges_from(text@, close + 3)) =~= range_views(out@)
                        + spec_skip_ranges_from(text@, close + 3));
                }
                i = close + 3;
            } else {
                out.push((i, text.len()));
                proof {
                    assert(range_views(out@) =~= range_views(pre) + seq![
                        (i as int, text@.len() as int),
                    ]);
                    assert(spec_skip_ranges_from(text@, text@.len() as int) =~= Seq::<(
                        int,
                        int,
                    )>::empty());
                    assert(range_views(out@) + spec_skip_ranges_from(
                        text@,
                        text@.len() as int,
                    ) =~= range_views(out@));
                }
                i = text.len();
            }
        } else if text[i] == 96 {
            proof {
                lemma_find_byte(text@, i + 1, 96);
            }
            let close = find_byte(text, i + 1, 96);
            if close < text.len() {
                out.push((i, close + 1));
                proof {
                    assert(range_views(out@) =~= range_views(pre) + seq![
                        (i as int, close + 1int),
                    ]);
                    assert(range_views(pre) + (seq![(i as int, close + 1int)]
                        + spec_skip_ranges_from(text@, close + 1)) =~= range_views(out@)
                        + spec_skip_ranges_from(text@, close + 1));
                }
                i = close + 1;
            } else {
                proof {
                    assert(spec_skip_ranges_from(text@, text@.len() as int) =~= Seq::<(
                        int,
                        int,
                    )>::empty());
                }
                i = text.len();
            }
        } else {
            i = i + 1;
        }
    }
    proof {
        assert(spec_skip_ranges_from(text@, i as int) =~= Seq::<(int, int)>::empty());
        assert(range_views(out@) =~= spec_skip_ranges(text@));
    }
    out
}

/// Whether `pos` falls in one of the (inclusive) excluded ranges.
pub open spec fn in_skip(pos: int, skip: Seq<(int, int)>) -> bool {
    exists|k: int| 0 <= k < skip.len() && (#[trigger] skip[k]).0 <= pos <= skip[k].1
}

pub fn in_skip_range(pos: usize, skip: &Vec<(usize, usize)>) -> (r: bool)
    ensures
        r == in_skip(pos as int, range_views(skip@)),
{
    let mut k: usize = 0;
    while k < skip.len()
        invariant
            k <= skip.len(),
            forall|j: int|
                0 <= j < k ==> !((#[trigger] range_views(skip@)[j]).0 <= pos <= range_views(
                    skip@,
                )[j].1),
        decreases skip@.len() - k,
    {
        let (s, e) = skip[k];
        if s <= pos && pos <= e {
            assert(range_views(skip@)[k as int].0 <= pos as int <= range_views(
                skip@,
            )[k as int].1);
            return true;
        }
        k = k + 1;
    }
    false
}

/// One bracket span, as the specification sees it.
pub struct SpanV {
    pub is_embed: bool,
    pub start: int,
    pub end: int,
    pub inner: Seq<u8>,
}

/// One bracket span: a `[[...]]` occurrence, or `![[...]]` when `is_embed`.
/// `start` points at the `!` of an embed, else at the first `[`; `end` is the
/// offset just past the closing `]]`; `inner` is the text between the brackets.
pub struct RawSpan {
    pub is_embed: bool,
    pub start: usize,
    pub end: usize,
    pub inner: Vec<u8>,
}

impl View for RawSpan {
    type V = SpanV;

    open spec fn view(&self) -> SpanV {
        SpanV {
            is_embed: self.is_embed,
            start: self.start as int,
            end: self.end as int,
            inner: self.inner@,
        }
    }
}

/// Views of a list of exec spans.
pub open spec fn span_views(s: Seq<RawSpan>) -> Seq<SpanV> {
    s.map_values(|sp: RawSpan| sp@)
}

/// All bracket spans of the text from position `i` on, skipping opening
/// brackets that fall inside an excluded range.  An opening `[[` without a
/// matching `]]` yields no span and scanning resumes just past it.
pub open spec fn spec_spans_from(t: Seq<u8>, skip: Seq<(int, int)>, i: int) -> Seq<SpanV>
    decreases t.len() - i when 0 <= i via spans_dec
{
    if i + 2 > t.len() {
        Seq::empty()
    } else if t[i] == 91 && t[i + 1] == 91 {
        if in_skip(i, skip) {
            spec_spans_from(t, skip, i + 1)
        } else {
            let close = spec_find_close(t, i + 2);
            if close < t.len() {
                let emb = i > 0 && t[i - 1] == 33;
                let sp = SpanV {
                    is_embed: emb,
                    start: if emb {
                        i - 1
                    } else {
                        i
                    },
                    end: close + 2,
                    inner: t.subrange(i + 2, close),
                };
                seq![sp] + spec_spans_from(t, skip, close + 2)
            } else {
                spec_spans_from(t, skip, i + 2)
            }
        }
    } else {
        spec_spans_from(t, skip, i + 1)
    }
}

#[via_fn]
proof fn spans_dec(t: Seq<u8>, skip: Seq<(int, int)>, i: int) {
    if 0 <= i && i + 2 <= t.len() {
        lemma_find_close(t, i + 2);
    }
}

/// The complete list of bracket spans of the text, code ranges excluded.
pub open spec fn spec_spans(t: Seq<u8>) -> Seq<SpanV> {
    spec_spans_from(t, spec_skip_ranges(t), 0)
}

/// All bracket spans outside the given excluded ranges.
pub fn find_obsidian_spans_inner(text: &Vec<u8>, skip: &Vec<(usize, usize)>) -> (r: Vec<
    RawSpan,
>)
    ensures
        span_views(r@) == spec_spans_from(text@, range_views(skip@), 0),
{
    let ghost skipv = range_views(skip@);
    let mut out: Vec<RawSpan> = Vec::new();
    let mut i: usize = 0;
    while text.len() - i >= 2
        invariant
            i <= text.len(),
            span_views(out@) + spec_spans_from(text@, skipv, i as int) == spec_spans_from(
                text@,
                skipv,
                0,
            ),
            skipv == range_views(skip@),
        decreases text@.len() - i,
    {
        let ghost pre = out@;
        if text[i] == 91 && text[i + 1] == 91 {
            if in_skip_range(i, skip) {
                i = i + 1;
            } else {
                proof {
                    lemma_find_close(text@, i + 2);
                }
                let close = find_close(text, i + 2);
                if close < text.len() {
                    let emb = i > 0 && text[i - 1] == 33;
                    let start: usize = if emb {
                        i - 1
                    } else {
                        i
                    };
                    let inner = subvec(text, i + 2, close);
                    let sp = RawSpan { is_embed: emb, start, end: close + 2, inner };
                    out.push(sp);
                    proof {
                        assert(span_views(out@) =~= span_views(pre) + seq![sp@]);
                        assert(span_views(pre) + (seq![sp@] + spec_spans_from(
                            text@,
                            skipv,
                            close + 2,
                        )) =~= span_views(out@) + spec_spans_from(text@, skipv, close + 2));
                    }
                    i = close + 2;
                } else {
                    i = i + 2;
                }
            }
        } else {
            i = i + 1;
        }
    }
    proof {
        assert(spec_spans_from(text@, skipv, i as int) =~= Seq::<SpanV>::empty());
        assert(span_views(out@) =~= spec_spans_from(text@, skipv, 0));
    }
    out
}

/// Structural facts about the produced spans: every span lies inside the
/// text, its inner text is the bracketed slice, spans are ordered and do not
/// overlap, and each starts at or after the scan position (one byte earlier
/// for the `!` of an embed).
pub proof fn lemma_spans_from_wf(t: Seq<u8>, skip: Seq<(int, int)>, i: int)
    requires
        0 <= i,
    ensures
        forall|k: int|
            0 <= k < spec_spans_from(t, skip, i).len() ==> {
                let sp = #[trigger] spec_spans_from(t, skip, i)[k];
                &&& 0 <= sp.start
                &&& i - 1 <= sp.start
                &&& sp.start + 4 <= sp.end
                &&& sp.end <= t.len()
                &&& sp.inner == t.subrange(
                    sp.start + (if sp.is_embed {
                        3int
                    } else {
                        2int
                    }),
                    sp.end - 2,
                )
            },
        i >= 1 && t[i - 1] == 93 ==> forall|k: int|
            0 <= k < spec_spans_from(t, skip, i).len() ==> (#[trigger] spec_spans_from(
                t,
                skip,
                i,
            )[k]).start >= i,
        forall|k: int|
            0 <= k < spec_spans_from(t, skip, i).len() - 1 ==> (#[trigger] spec_spans_from(
                t,
                skip,
                i,
            )[k]).end <= spec_spans_from(t, skip, i)[k + 1].start,
    decreases t.len() - i,
{
    if i + 2 > t.len() {
    } else if t[i] == 91 && t[i + 1] == 91 {
        if in_skip(i, skip) {
            lemma_spans_from_wf(t, skip, i + 1);
            assert(spec_spans_from(t, skip, i) == spec_spans_from(t, skip, i + 1));
        } else {
            lemma_find_close(t, i + 2);
            let close = spec_find_close(t, i + 2);
            if close < t.len() {
                lemma_spans_from_wf(t, skip, close + 2);
                let rest = spec_spans_from(t, skip, close + 2);
                let all = spec_spans_from(t, skip, i);
                assert(t[close] == 93 && t[close + 1] == 93);
                let emb = i > 0 && t[i - 1] == 33;
                let sp0 = SpanV {
                    is_embed: emb,
                    start: if emb {
                        i - 1
                    } else {
                        i
                    },
                    end: close + 2,
                    inner: t.subrange(i + 2, close),
                };
                assert(all == seq![sp0] + rest);
                assert(all[0] == sp0);
                assert(forall|k: int| 0 <= k < rest.len() ==> all[k + 1] == #[trigger] rest[k]);
                assert(sp0.inner == t.subrange(
                    sp0.start + (if sp0.is_embed {
                        3int
                    } else {
                        2int
                    }),
                    sp0.end - 2,
                ));
                assert forall|k: int| 0 <= k < all.len() - 1 implies (#[trigger] all[k]).end
                    <= all[k + 1].start by {
                    if k == 0 {
                        assert(all[1] == rest[0]);
                        assert(rest[0].start >= close + 2);
                    } else {
                        assert(all[k] == rest[k - 1]);
                        assert(all[k + 1] == rest[k]);
                    }
                }
                assert forall|k: int| 0 <= k < all.len() implies {
                    let sp = #[trigger] all[k];
                    &&& 0 <= sp.start
                    &&& i - 1 <= sp.start
                    &&& sp.start + 4 <= sp.end
                    &&& sp.end <= t.len()
                    &&& sp.inner == t.subrange(
                        sp.start + (if sp.is_embed {
                            3int
                        } else {
                            2int
                        }),
                        sp.end - 2,
                    )
                } by {
                    if k > 0 {
                        assert(all[k] == rest[k - 1]);
                    }
                }
                if i >= 1 && t[i - 1] == 93 {
                    assert forall|k: int| 0 <= k < all.len() implies (#[trigger] all[k]).start
                        >= i by {
                        if k > 0 {
                            assert(all[k] == rest[k - 1]);
                        }
                    }
                }
            } else {
                lemma_spans_from_wf(t, skip, i + 2);
                assert(spec_spans_from(t, skip, i) == spec_spans_from(t, skip, i + 2));
            }
        }
    } else {
        lemma_spans_from_wf(t, skip, i + 1);
        assert(spec_spans_from(t, skip, i) == spec_spans_from(t, skip, i + 1));
    }
}

/// Each produced span sits on a real bracket occurrence, and its opening
/// brackets lie outside every excluded range: the scan never takes a span
/// from inside a fenced block or an inline code run.
pub proof fn lemma_spans_outside_code(t: Seq<u8>, skip: Seq<(int, int)>, i: int)
    requires
        0 <= i,
    ensures
        forall|k: int|
            0 <= k < spec_spans_from(t, skip, i).len() ==> {
                let sp = #[trigger] spec_spans_from(t, skip, i)[k];
                let open = sp.start + (if sp.is_embed {
                    1int
                } else {
                    0int
                });
                &&& !in_skip(open, skip)
                &&& t[open] == 91
                &&& t[open + 1] == 91
                &&& (sp.is_embed ==> t[sp.start] == 33)
                &&& t[sp.end - 2] == 93
                &&& t[sp.end - 1] == 93
            },
    decreases t.len() - i,
{
    if i + 2 > t.len() {
    } else if t[i] == 91 && t[i + 1] == 91 {
        if in_skip(i, skip) {
            lemma_spans_outside_code(t, skip, i + 1);
            assert(spec_spans_from(t, skip, i) == spec_spans_from(t, skip, i + 1));
        } else {
            lemma_find_close(t, i + 2);
            let close = spec_find_close(t, i + 2);
            if close < t.len() {
                lemma_spans_outside_code(t, skip, close + 2);
                let rest = spec_spans_from(t, skip, close + 2);
                let all = spec_spans_from(t, skip, i);
                assert(forall|k: int| 0 <= k < rest.len() ==> all[k + 1] == #[trigger] rest[k]);
                assert forall|k: int|
                    0 <= k < all.len() implies {
                    let sp = #[trigger] all[k];
                    let open = sp.start + (if sp.is_embed {
                        1int
                    } else {
                        0int
                    });
                    &&& !in_skip(open, skip)
                    &&& t[open] == 91
                    &&& t[open + 1] == 91
                    &&& (sp.is_embed ==> t[sp.start] == 33)
                    &&& t[sp.end - 2] == 93
                    &&& t[sp.end - 1] == 93
                } by {
                    if k > 0 {
                        assert(all[k] == rest[k - 1]);
                    }
                }
            } else {
                lemma_spans_outside_code(t, skip, i + 2);
                assert(spec_spans_from(t, skip, i) == spec_spans_from(t, skip, i + 2));
            }
        }
    } else {
        lemma_spans_outside_code(t, skip, i + 1);
        assert(spec_spans_from(t, skip, i) == spec_spans_from(t, skip, i + 1));
    }
}

/// The embed spans among a span list, in order.
pub open spec fn embeds_only(s: Seq<SpanV>) -> Seq<SpanV>
    decreases s.len(),
{
    if s.len() == 0 {
        s
    } else {
        let d = embeds_only(s.drop_last());
        if s.last().is_embed {
            d.push(s.last())
        } else {
            d
        }
    }
}

/// Every filtered span is one of the spans of the full list.
pub proof fn lemma_embeds_only_sub(s: Seq<SpanV>)
    ensures
        forall|i: int|
            0 <= i < embeds_only(s).len() ==> exists|j: int|
                0 <= j < s.len() && #[trigger] embeds_only(s)[i] == s[j],
        embeds_only(s).len() <= s.len(),
        forall|i: int| 0 <= i < embeds_only(s).len() ==> (#[trigger] embeds_only(s)[i]).is_embed,
    decreases s.len(),
{
    if s.len() > 0 {
        lemma_embeds_only_sub(s.drop_last());
        let d = embeds_only(s.drop_last());
        assert forall|i: int| 0 <= i < embeds_only(s).len() implies exists|j: int|
            0 <= j < s.len() && #[trigger] embeds_only(s)[i] == s[j] by {
            if i < d.len() {
                let j = choose|j: int|
                    0 <= j < s.drop_last().len() && d[i] == s.drop_last()[j];
                assert(embeds_only(s)[i] == s[j]);
            } else {
                assert(embeds_only(s)[i] == s[s.len() - 1]);
            }
        }
    }
}

/// Filtering keeps the spans ordered and non-overlapping.
pub proof fn lemma_embeds_only_ordered(s: Seq<SpanV>)
    requires
        forall|a: int, b: int| 0 <= a < b < s.len() ==> (#[trigger] s[a]).end <= (#[trigger] s[b]).start,
    ensures
        forall|a: int, b: int|
            0 <= a < b < embeds_only(s).len() ==> (#[trigger] embeds_only(s)[a]).end <= (
            #[trigger] embeds_only(s)[b]).start,
    decreases s.len(),
{
    if s.len() > 0 {
        lemma_embeds_only_ordered(s.drop_last());
        lemma_embeds_only_sub(s.drop_last());
        let d = embeds_only(s.drop_last());
        let f = embeds_only(s);
        assert forall|a: int, b: int| 0 <= a < b < f.len() implies (#[trigger] f[a]).end <= (
        #[trigger] f[b]).start by {
            if b < d.len() {
                assert(f[a] == d[a] && f[b] == d[b]);
            } else {
                assert(b == d.len() && s.last().is_embed && f[b] == s.last());
                assert(f[a] == d[a]);
                let j = choose|j: int|
                    0 <= j < s.drop_last().len() && d[a] == s.drop_last()[j];
                assert(s[j].end <= s[s.len() - 1].start);
            }
        }
    }
}

/// From neighbour-wise ordering to ordering of every pair.
pub proof fn lemma_spans_pairwise(s: Seq<SpanV>)
    requires
        forall|k: int| 0 <= k < s.len() - 1 ==> (#[trigger] s[k]).end <= s[k + 1].start,
        forall|k: int| 0 <= k < s.len() ==> (#[trigger] s[k]).start <= s[k].end,
    ensures
        forall|a: int, b: int| 0 <= a < b < s.len() ==> (#[trigger] s[a]).end <= (#[trigger] s[b]).start,
{
    assert forall|a: int, b: int| 0 <= a < b < s.len() implies (#[trigger] s[a]).end <= (
    #[trigger] s[b]).start by {
        lemma_spans_chain(s, a, b);
    }
}

proof fn lemma_spans_chain(s: Seq<SpanV>, a: int, b: int)
    requires
        forall|k: int| 0 <= k < s.len() - 1 ==> (#[trigger] s[k]).end <= s[k + 1].start,
        forall|k: int| 0 <= k < s.len() ==> (#[trigger] s[k]).start <= s[k].end,
        0 <= a < b < s.len(),
    ensures
        s[a].end <= s[b].start,
    decreases b - a,
{
    if a + 1 < b {
        lemma_spans_chain(s, a + 1, b);
    }
}

/// One `![[...]]` occurrence: offsets of the whole span and the text between
/// the brackets.
pub struct EmbedSpan {
    pub start: usize,
    pub end: usize,
    pub raw_inner: Vec<u8>,
}

impl View for EmbedSpan {
    type V = SpanV;

    open spec fn view(&self) -> SpanV {
        SpanV {
            is_embed: true,
            start: self.start as int,
            end: self.end as int,
            inner: self.raw_inner@,
        }
    }
}

/// Views of a list of embed spans.
pub open spec fn embed_span_views(s: Seq<EmbedSpan>) -> Seq<SpanV> {
    s.map_values(|sp: EmbedSpan| sp@)
}

/// The embed spans of the text, code ranges excluded.
pub fn parse_embed_syntax(text: &Vec<u8>) -> (r: Vec<EmbedSpan>)
    ensures
        embed_span_views(r@) == embeds_only(spec_spans(text@)),
{
    let skip = compute_skip_ranges(text);
    let spans = find_obsidian_spans_inner(text, &skip);
    let ghost all = span_views(spans@);
    let mut out: Vec<EmbedSpan> = Vec::new();
    let mut i: usize = 0;
    while i < spans.len()
        invariant
            i <= spans.len(),
            all == span_views(spans@),
            embed_span_views(out@) == embeds_only(all.take(i as int)),
        decreases spans@.len() - i,
    {
        let ghost pre = out@;
        proof {
            assert(all.take(i + 1).drop_last() =~= all.take(i as int));
            assert(all.take(i + 1).last() == spans@[i as int]@);
        }
        if spans[i].is_embed {
            let sp = EmbedSpan {
                start: spans[i].start,
                end: spans[i].end,
                raw_inner: subvec(&spans[i].inner, 0, spans[i].inner.len()),
            };
            out.push(sp);
            proof {
                assert(sp.raw_inner@ =~= spans@[i as int].inner@);
                assert(sp@ == spans@[i as int]@);
                assert(embed_span_views(out@) =~= embed_span_views(pre).push(sp@));
            }
        }
        i = i + 1;
    }
    proof {
        assert(all.take(i as int) =~= all);
    }
    out
}

/// A `#heading` or `^block` qualifier inside a reference.
pub enum HeadingOrBlock {
    Heading(Vec<u8>),
    Block(Vec<u8>),
}

/// Spec-level mirror of `HeadingOrBlock`.
pub enum HeadingOrBlockV {
    Heading(Seq<u8>),
    Block(Seq<u8>),
}

impl View for HeadingOrBlock {
    type V = HeadingOrBlockV;

    open spec fn view(&self) -> HeadingOrBlockV {
        match self {
            HeadingOrBlock::Heading(h) => HeadingOrBlockV::Heading(h@),
            HeadingOrBlock::Block(b) => HeadingOrBlockV::Block(b@),
        }
    }
}

/// One reference, split into target, optional subtarget, and optional alias.
pub struct ParsedLink {
    pub target: Vec<u8>,
    pub subtarget: Option<HeadingOrBlock>,
    pub alias: Option<Vec<u8>>,
}

/// Spec-level mirror of `ParsedLink`.
pub struct ParsedLinkV {
    pub target: Seq<u8>,
    pub subtarget: Option<HeadingOrBlockV>,
    pub alias: Option<Seq<u8>>,
}

impl View for ParsedLink {
    type V = ParsedLinkV;

    open spec fn view(&self) -> ParsedLinkV {
        ParsedLinkV {
            target: self.target@,
            subtarget: match self.subtarget {
                Some(HeadingOrBlock::Heading(ref h)) => Some(HeadingOrBlockV::Heading(h@)),
                Some(HeadingOrBlock::Block(ref b)) => Some(HeadingOrBlockV::Block(b@)),
                None => None,
            },
            alias: match self.alias {
                Some(ref a) => Some(a@),
                None => None,
            },
        }
    }
}

/// How one span's inner text splits: the part after the last `|` is the
/// alias; of the rest, the earlier of the first `#` and the first `^` starts
/// a heading or block subtarget (`#` on a tie); backslashes in the target
/// become forward slashes; every part is trimmed.
pub open spec fn spec_parse_wikilink(inner: Seq<u8>) -> ParsedLinkV {
    let s = crate::strutil::spec_trim(inner);
    let bar = crate::strutil::spec_rfind_byte(s, s.len() as int, 124);
    let alias = if bar >= 0 {
        Some(crate::strutil::spec_trim(s.subrange(bar + 1, s.len() as int)))
    } else {
        None
    };
    let before = if bar >= 0 {
        s.subrange(0, bar)
    } else {
        s
    };
    let rest = crate::strutil::spec_trim(before);
    let sharp = spec_find_byte(rest, 0, 35);
    let caret = spec_find_byte(rest, 0, 94);
    let cut = if sharp <= caret {
        sharp
    } else {
        caret
    };
    let target = crate::strutil::spec_trim(
        crate::strutil::spec_replace(rest.subrange(0, cut), 92, 47),
    );
    let subtarget = if sharp == rest.len() && caret == rest.len() {
        None
    } else if sharp <= caret {
        Some(
            HeadingOrBlockV::Heading(
                crate::strutil::spec_trim(rest.subrange(sharp + 1, rest.len() as int)),
            ),
        )
    } else {
        Some(
            HeadingOrBlockV::Block(
                crate::strutil::spec_trim(rest.subrange(caret + 1, rest.len() as int)),
            ),
        )
    };
    ParsedLinkV { target, subtarget, alias }
}

/// Split one span's inner text into target, subtarget and alias.
pub fn parse_wikilink_inner(inner: &Vec<u8>) -> (r: ParsedLink)
    ensures
        r@ == spec_parse_wikilink(inner@),
{
    let s = crate::strutil::trim_bytes(inner);
    let bar = crate::strutil::rfind_byte(&s, s.len(), 124);
    proof {
        crate::strutil::lemma_rfind_byte(s@, s@.len() as int, 124);
    }
    let (before, alias): (Vec<u8>, Option<Vec<u8>>) = match bar {
        Some(b) => {
            let tail = subvec(&s, b + 1, s.len());
            (subvec(&s, 0, b), Some(crate::strutil::trim_bytes(&tail)))
        },
        None => (s, None),
    };
    let rest = crate::strutil::trim_bytes(&before);
    proof {
        lemma_find_byte(rest@, 0, 35);
        lemma_find_byte(rest@, 0, 94);
    }
    let sharp = find_byte(&rest, 0, 35);
    let caret = find_byte(&rest, 0, 94);
    let cut: usize = if sharp <= caret {
        sharp
    } else {
        caret
    };
    let head = subvec(&rest, 0, cut);
    let replaced = crate::strutil::replace_byte(&head, 92, 47);
    let target = crate::strutil::trim_bytes(&replaced);
    let subtarget: Option<HeadingOrBlock> = if sharp == rest.len() && caret == rest.len() {
        None
    } else if sharp <= caret {
        let h = subvec(&rest, sharp + 1, rest.len());
        Some(HeadingOrBlock::Heading(crate::strutil::trim_bytes(&h)))
    } else {
        let b = subvec(&rest, caret + 1, rest.len());
        Some(HeadingOrBlock::Block(crate::strutil::trim_bytes(&b)))
    };
    ParsedLink { target, subtarget, alias }
}

/// Bytes that the link scheme escapes: the reserved set, whitespace/controls,
/// and everything outside the printable ASCII range.
pub open spec fn pct_escaped(b: u8) -> bool {
    ||| b == 37  // %
    ||| b == 63  // ?
    ||| b == 35  // #
    ||| b == 38  // &
    ||| b == 61  // =
    ||| b == 43  // +
    ||| b == 34  // "
    ||| b == 60  // <
    ||| b == 62  // >
    ||| b < 33
    ||| b > 126
}

/// Upper-case hexadecimal digit for a nibble.
pub open spec fn spec_hex_digit(n: u8) -> u8 {
    if n < 10 {
        (48 + n) as u8
    } else {
        (55 + n) as u8
    }
}

/// What one byte contributes to the encoded path.
pub open spec fn pct_byte(b: u8) -> Seq<u8> {
    if pct_escaped(b) {
        seq![37u8, spec_hex_digit(b / 16), spec_hex_digit(b % 16)]
    } else {
        seq![b]
    }
}

/// Percent-encoding of a whole path.
pub open spec fn spec_pct_encode(s: Seq<u8>) -> Seq<u8>
    decreases s.len(),
{
    if s.len() == 0 {
        Seq::empty()
    } else {
        spec_pct_encode(s.drop_last()) + pct_byte(s.last())
    }
}

fn percent_encode_path(s: &Vec<u8>) -> (r: Vec<u8>)
    ensures
        r@ == spec_pct_encode(s@),
{
    let mut out: Vec<u8> = Vec::new();
    let mut i: usize = 0;
    while i < s.len()
        invariant
            i <= s.len(),
            out@ == spec_pct_encode(s@.take(i as int)),
        decreases s@.len() - i,
    {
        let b = s[i];
        let ghost pre = out@;
        if b == 37 || b == 63 || b == 35 || b == 38 || b == 61 || b == 43 || b == 34 || b == 60
            || b == 62 || b < 33 || b > 126 {
            out.push(37u8);
            let hi = b / 16;
            let lo = b % 16;
            out.push(if hi < 10 {
                48 + hi
            } else {
                55 + hi
            });
            out.push(if lo < 10 {
                48 + lo
            } else {
                55 + lo
            });
            assert(out@ =~= pre + pct_byte(b));
        } else {
            out.push(b);
            assert(out@ =~= pre + pct_byte(b));
        }
        proof {
            assert(s@.take(i + 1).drop_last() =~= s@.take(i as int));
            assert(s@.take(i + 1).last() == b);
        }
        i = i + 1;
    }
    proof {
        assert(s@.take(s@.len() as int) =~= s@);
    }
    out
}

/// The link markup URL for a resolved path (or for none): the scheme prefix
/// followed by the percent-encoded, slash-normalized path.
pub open spec fn spec_obs_href(p: Option<Seq<u8>>) -> Seq<u8> {
    match p {
        Some(path) => crate::lit::lit_href_prefix() + spec_pct_encode(
            crate::strutil::spec_replace(path, 92, 47),
        ),
        None => crate::lit::lit_href_prefix(),
    }
}

/// The app-internal URL for a resolved target path, or the bare scheme for an
/// unresolved one.
pub fn obs_link_href(resolved_path: Option<&Vec<u8>>) -> (r: Vec<u8>)
    ensures
        r@ == spec_obs_href(
            match resolved_path {
                Some(p) => Some(p@),
                None => None,
            },
        ),
{
    let mut out: Vec<u8> = Vec::new();
    crate::lit::push_href_prefix(&mut out);
    match resolved_path {
        Some(p) => {
            let normalized = crate::strutil::replace_byte(p, 92, 47);
            let enc = percent_encode_path(&normalized);
            crate::strutil::push_all(&mut out, &enc);
            out
        },
        None => out,
    }
}

/// The target text with every trailing `.md` removed.
pub open spec fn spec_strip_md_repeat(s: Seq<u8>) -> Seq<u8>
    decreases s.len(),
{
    if crate::strutil::spec_ends_with(s, crate::lit::lit_md_suffix()) {
        spec_strip_md_repeat(s.subrange(0, s.len() - 3))
    } else {
        s
    }
}

/// The text a wikilink displays: the alias when one is given and non-empty;
/// otherwise the target's basename with trailing `.md` stripped, plus a
/// `#heading` or `^block` suffix when a subtarget is given.
pub open spec fn spec_link_display(p: ParsedLinkV) -> Seq<u8> {
    match p.alias {
        Some(a) => if a.len() > 0 {
            a
        } else {
            spec_link_display_noalias(p)
        },
        None => spec_link_display_noalias(p),
    }
}

/// The basename the display text starts from, before `.md` stripping.
pub open spec fn spec_link_base(p: ParsedLinkV) -> Seq<u8> {
    let t = crate::strutil::spec_trim(p.target);
    if crate::strutil::spec_contains_byte(t, 47) {
        t.subrange(crate::strutil::spec_rfind_byte(t, t.len() as int, 47) + 1, t.len() as int)
    } else {
        t
    }
}

/// The display text when no (non-empty) alias is given.
pub open spec fn spec_link_display_noalias(p: ParsedLinkV) -> Seq<u8> {
    let base = spec_strip_md_repeat(spec_link_base(p));
    match p.subtarget {
        None => base,
        Some(HeadingOrBlockV::Heading(h)) => base + seq![35u8] + h,
        Some(HeadingOrBlockV::Block(b)) => base + seq![94u8] + b,
    }
}

/// Compute the display text of a wikilink.
pub fn link_display_text(parsed: &ParsedLink) -> (r: Vec<u8>)
    ensures
        r@ == spec_link_display(parsed@),
{
    match parsed.alias {
        Some(ref a) => {
            if a.len() > 0 {
                let r = subvec(a, 0, a.len());
                assert(r@ =~= a@);
                return r;
            }
        },
        None => {},
    }
    let t = crate::strutil::trim_bytes(&parsed.target);
    let base0: Vec<u8> = if crate::strutil::contains_byte(&t, 47) {
        proof {
            crate::strutil::lemma_rfind_byte(t@, t@.len() as int, 47);
        }
        let slash = crate::strutil::rfind_byte(&t, t.len(), 47);
        match slash {
            Some(j) => subvec(&t, j + 1, t.len()),
            None => {
                proof {
                    assert(false);
                }
                t
            },
        }
    } else {
        t
    };
    assert(base0@ == spec_link_base(parsed@));
    let mut base = base0;
    let mut md: Vec<u8> = Vec::new();
    crate::lit::push_md_suffix(&mut md);
    assert(md@ =~= crate::lit::lit_md_suffix());
    while crate::strutil::ends_with(&base, &md)
        invariant
            md@ == crate::lit::lit_md_suffix(),
            spec_strip_md_repeat(base@) == spec_strip_md_repeat(spec_link_base(parsed@)),
        decreases base@.len(),
    {
        let ghost prev = base@;
        let n = base.len();
        base.truncate(n - 3);
        proof {
            assert(base@ =~= prev.subrange(0, prev.len() - 3));
        }
    }
    assert(base@ == spec_strip_md_repeat(spec_link_base(parsed@)));
    let ghost stripped = base@;
    match parsed.subtarget {
        None => base,
        Some(HeadingOrBlock::Heading(ref h)) => {
            base.push(35u8);
            crate::strutil::push_all(&mut base, h);
            assert(base@ =~= stripped + seq![35u8] + h@);
            base
        },
        Some(HeadingOrBlock::Block(ref b)) => {
            base.push(94u8);
            crate::strutil::push_all(&mut base, b);
            assert(base@ =~= stripped + seq![94u8] + b@);
            base
        },
    }
}

} // verus!
