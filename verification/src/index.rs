//! The vault index: lookup from normalized relative path to canonical path,
//! and from basename stem to the sorted list of canonical paths sharing it.

use vstd::prelude::*;

use crate::strutil::bytes_eq;
use crate::strutil::ends_with;
use crate::strutil::lex_le;
use crate::strutil::lex_le_bytes;
use crate::strutil::lemma_lex_le_total;
use crate::strutil::lemma_lex_le_trans;
use crate::strutil::lemma_rfind_byte;
use crate::strutil::replace_byte;
use crate::strutil::rfind_byte;
use crate::strutil::spec_ends_with;
use crate::strutil::spec_replace;
use crate::strutil::spec_rfind_byte;
use crate::strutil::subvec;
use crate::lit::lit_md_suffix;
use crate::lit::push_md_suffix;

verus! {

/// A relative-path key: separators normalized to `/`, leading and trailing
/// slashes removed.
pub open spec fn spec_normalize_rel_key(s: Seq<u8>) -> Seq<u8> {
    spec_trim_slashes(spec_replace(s, 92, 47))
}

/// The text with every leading and trailing `/` removed.
pub open spec fn spec_trim_slashes(s: Seq<u8>) -> Seq<u8> {
    let lo = spec_skip_sl(s, 0);
    let hi = spec_rskip_sl(s, s.len() as int);
    if lo <= hi {
        s.subrange(lo, hi)
    } else {
        Seq::empty()
    }
}

pub open spec fn spec_skip_sl(s: Seq<u8>, from: int) -> int
    decreases s.len() - from when 0 <= from
{
    if from >= s.len() {
        s.len() as int
    } else if s[from] == 47 {
        spec_skip_sl(s, from + 1)
    } else {
        from
    }
}

pub open spec fn spec_rskip_sl(s: Seq<u8>, end: int) -> int
    decreases end when end <= s.len()
{
    if end <= 0 {
        0
    } else if s[end - 1] == 47 {
        spec_rskip_sl(s, end - 1)
    } else {
        end
    }
}

/// Normalize a relative path into its index key.
pub fn normalize_rel_key(rel: &Vec<u8>) -> (r: Vec<u8>)
    ensures
        r@ == spec_normalize_rel_key(rel@),
{
    let v = replace_byte(rel, 92, 47);
    let mut lo: usize = 0;
    while lo < v.len() && v[lo] == 47
        invariant
            lo <= v.len(),
            spec_skip_sl(v@, 0) == spec_skip_sl(v@, lo as int),
        decreases v@.len() - lo,
    {
        lo = lo + 1;
    }
    let mut hi: usize = v.len();
    while hi > 0 && v[hi - 1] == 47
        invariant
            hi <= v.len(),
            spec_rskip_sl(v@, v@.len() as int) == spec_rskip_sl(v@, hi as int),
        decreases hi,
    {
        hi = hi - 1;
    }
    assert(lo == spec_skip_sl(v@, 0));
    assert(hi == spec_rskip_sl(v@, v@.len() as int));
    proof {
        lemma_skip_sl(v@, 0);
        lemma_rskip_sl(v@, v@.len() as int);
    }
    if lo <= hi {
        subvec(&v, lo, hi)
    } else {
        let r: Vec<u8> = Vec::new();
        assert(r@ =~= spec_trim_slashes(v@));
        r
    }
}

proof fn lemma_skip_sl(s: Seq<u8>, from: int)
    requires
        0 <= from <= s.len(),
    ensures
        from <= spec_skip_sl(s, from) <= s.len(),
    decreases s.len() - from,
{
    if from < s.len() && s[from] == 47 {
        lemma_skip_sl(s, from + 1);
    }
}

proof fn lemma_rskip_sl(s: Seq<u8>, end: int)
    requires
        0 <= end <= s.len(),
    ensures
        0 <= spec_rskip_sl(s, end) <= end,
    decreases end,
{
    if end > 0 && s[end - 1] == 47 {
        lemma_rskip_sl(s, end - 1);
    }
}

/// One file of the vault, as the directory walk reports it: its path relative
/// to the vault root, and its canonical absolute path.
pub struct VaultEntry {
    pub rel: Vec<u8>,
    pub canonical: Vec<u8>,
}

impl View for VaultEntry {
    type V = (Seq<u8>, Seq<u8>);

    open spec fn view(&self) -> (Seq<u8>, Seq<u8>) {
        (self.rel@, self.canonical@)
    }
}

pub open spec fn entry_views(s: Seq<VaultEntry>) -> Seq<(Seq<u8>, Seq<u8>)> {
    s.map_values(|e: VaultEntry| e@)
}

/// Views of a list of paths.
pub open spec fn path_views(s: Seq<Vec<u8>>) -> Seq<Seq<u8>> {
    s.map_values(|v: Vec<u8>| v@)
}

/// Spec-level content of a `VaultIndex`.
pub struct IndexView {
    pub rel: Map<Seq<u8>, Seq<u8>>,
    pub base: Map<Seq<u8>, Seq<Seq<u8>>>,
}

/// Some index of the relative-path list holding key `k`.
pub open spec fn rel_index_of(s: Seq<(Vec<u8>, Vec<u8>)>, k: Seq<u8>) -> int {
    choose|i: int| 0 <= i < s.len() && s[i].0@ == k
}

/// The relative-path list as a map (keys are unique by invariant).
pub open spec fn rel_view(s: Seq<(Vec<u8>, Vec<u8>)>) -> Map<Seq<u8>, Seq<u8>> {
    Map::new(
        |k: Seq<u8>| exists|i: int| 0 <= i < s.len() && (#[trigger] s[i]).0@ == k,
        |k: Seq<u8>| s[rel_index_of(s, k)].1@,
    )
}

/// Some index of the basename list holding key `k`.
pub open spec fn base_index_of(s: Seq<(Vec<u8>, Vec<Vec<u8>>)>, k: Seq<u8>) -> int {
    choose|i: int| 0 <= i < s.len() && s[i].0@ == k
}

/// The basename list as a map (keys are unique by invariant).
pub open spec fn base_view(s: Seq<(Vec<u8>, Vec<Vec<u8>>)>) -> Map<Seq<u8>, Seq<Seq<u8>>> {
    Map::new(
        |k: Seq<u8>| exists|i: int| 0 <= i < s.len() && (#[trigger] s[i]).0@ == k,
        |k: Seq<u8>| path_views(s[base_index_of(s, k)].1@),
    )
}

/// Lookup from normalized relative path (with and without the `.md` suffix)
/// to canonical path, and from basename stem to the sorted list of canonical
/// paths of the notes with that stem.
pub struct VaultIndex {
    by_rel_path: Vec<(Vec<u8>, Vec<u8>)>,
    by_basename: Vec<(Vec<u8>, Vec<Vec<u8>>)>,
}

impl View for VaultIndex {
    type V = IndexView;

    closed spec fn view(&self) -> IndexView {
        IndexView { rel: rel_view(self.by_rel_path@), base: base_view(self.by_basename@) }
    }
}

/// A sequence of paths in (non-strict) lexicographic order.
pub open spec fn sorted_paths(s: Seq<Seq<u8>>) -> bool {
    forall|i: int, j: int| 0 <= i < j < s.len() ==> lex_le(#[trigger] s[i], #[trigger] s[j])
}

impl VaultIndex {
    /// Keys of both lists are unique, and every basename bucket is a
    /// non-empty sorted list.
    pub closed spec fn wf(&self) -> bool {
        &&& forall|i: int, j: int|
            0 <= i < j < self.by_rel_path@.len() ==> (#[trigger] self.by_rel_path@[i]).0@ != (
            #[trigger] self.by_rel_path@[j]).0@
        &&& forall|i: int, j: int|
            0 <= i < j < self.by_basename@.len() ==> (#[trigger] self.by_basename@[i]).0@ != (
            #[trigger] self.by_basename@[j]).0@
        &&& forall|i: int|
            0 <= i < self.by_basename@.len() ==> sorted_paths(
                path_views((#[trigger] self.by_basename@[i]).1@),
            )
        &&& forall|i: int|
            0 <= i < self.by_basename@.len() ==> (#[trigger] self.by_basename@[i]).1@.len() > 0
    }

    /// Every bucket a well-formed index holds is non-empty and sorted.
    pub proof fn lemma_bucket_sorted(&self, k: Seq<u8>)
        requires
            self.wf(),
            self@.base.contains_key(k),
        ensures
            sorted_paths(self@.base[k]),
            self@.base[k].len() > 0,
    {
        let s = self.by_basename@;
        let w = choose|i: int| 0 <= i < s.len() && (#[trigger] s[i]).0@ == k;
        let c = base_index_of(s, k);
        assert(0 <= c < s.len() && s[c].0@ == k);
        assert(self@.base[k] == path_views(s[c].1@));
    }

    /// The canonical path registered under a relative-path key.
    pub fn rel_get(&self, k: &Vec<u8>) -> (r: Option<&Vec<u8>>)
        requires
            self.wf(),
        ensures
            match r {
                Some(v) => self@.rel.contains_key(k@) && v@ == self@.rel[k@],
                None => !self@.rel.contains_key(k@),
            },
    {
        let s = &self.by_rel_path;
        let mut i: usize = 0;
        while i < s.len()
            invariant
                i <= s.len(),
                forall|j: int| 0 <= j < i ==> (#[trigger] s@[j]).0@ != k@,
                self.wf(),
                s == &self.by_rel_path,
            decreases s@.len() - i,
        {
            if bytes_eq(&s[i].0, k) {
                proof {
                    let w = rel_index_of(s@, k@);
                    assert(0 <= w < s@.len() && s@[w].0@ == k@);
                    assert(w == i as int);
                }
                return Some(&s[i].1);
            }
            i = i + 1;
        }
        proof {
            if self@.rel.contains_key(k@) {
                let w = choose|j: int| 0 <= j < s@.len() && (#[trigger] s@[j]).0@ == k@;
                assert(false);
            }
        }
        None
    }

    /// The sorted bucket of canonical paths registered under a stem.
    pub fn base_get(&self, k: &Vec<u8>) -> (r: Option<&Vec<Vec<u8>>>)
        requires
            self.wf(),
        ensures
            match r {
                Some(v) => self@.base.contains_key(k@) && path_views(v@) == self@.base[k@],
                None => !self@.base.contains_key(k@),
            },
    {
        let s = &self.by_basename;
        let mut i: usize = 0;
        while i < s.len()
            invariant
                i <= s.len(),
                forall|j: int| 0 <= j < i ==> (#[trigger] s@[j]).0@ != k@,
                self.wf(),
                s == &self.by_basename,
            decreases s@.len() - i,
        {
            if bytes_eq(&s[i].0, k) {
                proof {
                    let w = base_index_of(s@, k@);
                    assert(0 <= w < s@.len() && s@[w].0@ == k@);
                    assert(w == i as int);
                }
                return Some(&s[i].1);
            }
            i = i + 1;
        }
        proof {
            if self@.base.contains_key(k@) {
                let w = choose|j: int| 0 <= j < s@.len() && (#[trigger] s@[j]).0@ == k@;
                assert(false);
            }
        }
        None
    }
}

/// The basename of a key: the text after the last `/` (the whole key when it
/// has no slash).
pub open spec fn spec_basename(s: Seq<u8>) -> Seq<u8> {
    s.subrange(spec_rfind_byte(s, s.len() as int, 47) + 1, s.len() as int)
}

/// Whether some directory component of the key (a component before the
/// basename) starts with a dot.
pub open spec fn has_hidden_dir(s: Seq<u8>) -> bool {
    exists|i: int|
        0 <= i <= spec_rfind_byte(s, s.len() as int, 47) && #[trigger] s[i] == 46 && (i == 0
            || s[i - 1] == 47)
}

/// Whether a normalized relative key is indexed: a markdown file (basename
/// `*.md` with a non-empty stem) not under a hidden directory.
pub open spec fn indexed_key(s: Seq<u8>) -> bool {
    &&& !has_hidden_dir(s)
    &&& spec_ends_with(s, lit_md_suffix())
    &&& spec_basename(s).len() > 3
}

/// The stem of an indexed key: its basename without the `.md` suffix.
pub open spec fn spec_stem(s: Seq<u8>) -> Seq<u8> {
    let b = spec_basename(s);
    b.subrange(0, b.len() - 3)
}

/// A path inserted into a sorted bucket, before the first entry it is not
/// greater than.
pub open spec fn spec_insert_sorted(bucket: Seq<Seq<u8>>, x: Seq<u8>) -> Seq<Seq<u8>>
    decreases bucket.len(),
{
    if bucket.len() == 0 {
        seq![x]
    } else if lex_le(x, bucket[0]) {
        seq![x] + bucket
    } else {
        seq![bucket[0]] + spec_insert_sorted(bucket.drop_first(), x)
    }
}

/// What one walk entry adds to the index: nothing for a non-markdown or
/// hidden-directory path; otherwise the normalized key (with and without its
/// `.md` suffix) mapped to the canonical path, and the canonical path placed,
/// in sorted position, in the stem's bucket.
pub open spec fn spec_add_entry(ix: IndexView, rel: Seq<u8>, canon: Seq<u8>) -> IndexView {
    let key = spec_normalize_rel_key(rel);
    if indexed_key(key) {
        let key2 = key.subrange(0, key.len() - 3);
        let stem = spec_stem(key);
        let bucket = if ix.base.contains_key(stem) {
            ix.base[stem]
        } else {
            Seq::empty()
        };
        IndexView {
            rel: ix.rel.insert(key, canon).insert(key2, canon),
            base: ix.base.insert(stem, spec_insert_sorted(bucket, canon)),
        }
    } else {
        ix
    }
}

/// The index with nothing in it.
pub open spec fn spec_empty_index() -> IndexView {
    IndexView { rel: Map::empty(), base: Map::empty() }
}

/// The index that a list of walk entries builds, entry by entry.
pub open spec fn spec_build_index(entries: Seq<(Seq<u8>, Seq<u8>)>) -> IndexView
    decreases entries.len(),
{
    if entries.len() == 0 {
        spec_empty_index()
    } else {
        spec_add_entry(
            spec_build_index(entries.drop_last()),
            entries.last().0,
            entries.last().1,
        )
    }
}

/// Whether the normalized form of this relative path is indexed.
pub fn is_indexed_key(key: &Vec<u8>) -> (r: bool)
    ensures
        r == indexed_key(key@),
{
    let mut md: Vec<u8> = Vec::new();
    push_md_suffix(&mut md);
    assert(md@ =~= lit_md_suffix());
    if !ends_with(key, &md) {
        return false;
    }
    proof {
        lemma_rfind_byte(key@, key@.len() as int, 47);
    }
    let sl = rfind_byte(key, key.len(), 47);
    let bstart: usize = match sl {
        Some(j) => j + 1,
        None => 0,
    };
    assert(bstart == spec_rfind_byte(key@, key@.len() as int, 47) + 1);
    if key.len() - bstart <= 3 {
        assert(spec_basename(key@).len() <= 3);
        return false;
    }
    assert(spec_basename(key@).len() > 3);
    let mut i: usize = 0;
    while i < bstart
        invariant
            i <= bstart,
            bstart == spec_rfind_byte(key@, key@.len() as int, 47) + 1,
            bstart <= key.len(),
            forall|j: int| 0 <= j < i ==> !(#[trigger] key@[j] == 46 && (j == 0 || key@[j - 1] == 47)),
        decreases bstart - i,
    {
        if key[i] == 46 && (i == 0 || key[i - 1] == 47) {
            assert(has_hidden_dir(key@));
            return false;
        }
        i = i + 1;
    }
    proof {
        if has_hidden_dir(key@) {
            let w = choose|j: int|
                0 <= j <= spec_rfind_byte(key@, key@.len() as int, 47) && #[trigger] key@[j]
                    == 46 && (j == 0 || key@[j - 1] == 47);
            assert(false);
        }
    }
    true
}

/// Insert a path into a sorted bucket, keeping it sorted.
fn insert_sorted_vec(bucket: &Vec<Vec<u8>>, x: Vec<u8>) -> (r: Vec<Vec<u8>>)
    requires
        sorted_paths(path_views(bucket@)),
    ensures
        path_views(r@) == spec_insert_sorted(path_views(bucket@), x@),
        sorted_paths(path_views(r@)),
{
    let ghost bv = path_views(bucket@);
    let mut p: usize = 0;
    while p < bucket.len()
        invariant_except_break
            p <= bucket.len(),
            forall|j: int| 0 <= j < p ==> !lex_le(x@, #[trigger] bv[j]),
            bv == path_views(bucket@),
        ensures
            p <= bucket.len(),
            forall|j: int| 0 <= j < p ==> !lex_le(x@, #[trigger] bv[j]),
            p < bucket.len() ==> lex_le(x@, bv[p as int]),
            bv == path_views(bucket@),
        decreases bucket@.len() - p,
    {
        if lex_le_bytes(&x, &bucket[p]) {
            break;
        }
        p = p + 1;
    }
    proof {
        lemma_insert_sorted_at(bv, x@, p as int);
    }
    let mut out: Vec<Vec<u8>> = Vec::new();
    let mut j: usize = 0;
    while j < p
        invariant
            j <= p <= bucket.len(),
            path_views(out@) =~= bv.take(j as int),
            bv == path_views(bucket@),
        decreases p - j,
    {
        let ghost pre = out@;
        let piece = subvec(&bucket[j], 0, bucket[j].len());
        proof {
            assert(piece@ =~= bucket@[j as int]@);
        }
        out.push(piece);
        proof {
            assert(path_views(out@) =~= path_views(pre).push(bv[j as int]));
            assert(path_views(out@) =~= bv.take(j + 1));
        }
        j = j + 1;
    }
    let ghost xx = x@;
    out.push(x);
    proof {
        assert(path_views(out@) =~= bv.take(p as int) + seq![xx]);
    }
    let mut j2: usize = p;
    while j2 < bucket.len()
        invariant
            p <= j2 <= bucket.len(),
            path_views(out@) =~= bv.take(p as int) + seq![xx] + bv.subrange(p as int, j2 as int),
            bv == path_views(bucket@),
        decreases bucket@.len() - j2,
    {
        let ghost pre = out@;
        let piece = subvec(&bucket[j2], 0, bucket[j2].len());
        proof {
            assert(piece@ =~= bucket@[j2 as int]@);
        }
        out.push(piece);
        proof {
            assert(path_views(out@) =~= path_views(pre).push(bv[j2 as int]));
            assert(path_views(out@) =~= bv.take(p as int) + seq![xx] + bv.subrange(
                p as int,
                j2 + 1,
            ));
        }
        j2 = j2 + 1;
    }
    proof {
        assert(bv.subrange(p as int, bv.len() as int) =~= bv.skip(p as int));
        assert(path_views(out@) =~= bv.take(p as int) + seq![xx] + bv.skip(p as int));
        // the result is sorted
        let rv = path_views(out@);
        assert forall|a: int, b: int| 0 <= a < b < rv.len() implies lex_le(
            #[trigger] rv[a],
            #[trigger] rv[b],
        ) by {
            if a < p && b < p {
                assert(rv[a] == bv[a] && rv[b] == bv[b]);
            } else if a < p && b == p {
                assert(rv[a] == bv[a]);
                lemma_lex_le_total(xx, bv[a]);
            } else if a < p && b > p {
                assert(rv[a] == bv[a] && rv[b] == bv[b - 1]);
            } else if a == p && b > p {
                assert(rv[b] == bv[b - 1]);
                if p as int == b - 1 {
                } else {
                    lemma_lex_le_trans(xx, bv[p as int], bv[b - 1]);
                }
            } else {
                assert(rv[a] == bv[a - 1] && rv[b] == bv[b - 1]);
            }
        }
    }
    out
}

/// `spec_insert_sorted` places the new path exactly at the first position
/// whose entry it is not greater than.
proof fn lemma_insert_sorted_at(b: Seq<Seq<u8>>, x: Seq<u8>, p: int)
    requires
        0 <= p <= b.len(),
        forall|j: int| 0 <= j < p ==> !lex_le(x, #[trigger] b[j]),
        p < b.len() ==> lex_le(x, b[p]),
    ensures
        spec_insert_sorted(b, x) == b.take(p) + seq![x] + b.skip(p),
    decreases b.len(),
{
    if b.len() == 0 {
        assert(spec_insert_sorted(b, x) =~= b.take(p) + seq![x] + b.skip(p));
    } else if lex_le(x, b[0]) {
        assert(p == 0);
        assert(spec_insert_sorted(b, x) =~= b.take(p) + seq![x] + b.skip(p));
    } else {
        assert(p >= 1);
        lemma_insert_sorted_at(b.drop_first(), x, p - 1);
        assert(b.drop_first().take(p - 1) =~= b.subrange(1, p));
        assert(b.drop_first().skip(p - 1) =~= b.skip(p));
        assert(seq![b[0]] + (b.subrange(1, p) + seq![x] + b.skip(p)) =~= b.take(p) + seq![x]
            + b.skip(p));
    }
}

impl VaultIndex {
    /// Register a canonical path under a relative-path key, replacing any
    /// earlier binding of the key.
    fn rel_insert(&mut self, k: Vec<u8>, v: Vec<u8>)
        requires
            old(self).wf(),
        ensures
            final(self).wf(),
            final(self)@.rel == old(self)@.rel.insert(k@, v@),
            final(self)@.base == old(self)@.base,
    {
        let ghost s0 = self.by_rel_path@;
        let ghost kk = k@;
        let ghost vv = v@;
        let mut i: usize = 0;
        let n = self.by_rel_path.len();
        while i < n
            invariant
                i <= n,
                n == self.by_rel_path@.len(),
                self.by_rel_path@ == s0,
                s0 == old(self).by_rel_path@,
                self.by_basename@ == old(self).by_basename@,
                old(self).wf(),
                kk == k@,
                vv == v@,
                forall|j: int| 0 <= j < i ==> (#[trigger] s0[j]).0@ != kk,
            decreases n - i,
        {
            if bytes_eq(&self.by_rel_path[i].0, &k) {
                self.by_rel_path.set(i, (k, v));
                proof {
                    let s1 = self.by_rel_path@;
                    assert(s1 == s0.update(i as int, (s1[i as int].0, s1[i as int].1)));
                    assert(s1[i as int].0@ == kk && s1[i as int].1@ == vv);
                    assert forall|a: int, b: int|
                        0 <= a < b < s1.len() implies (#[trigger] s1[a]).0@ != (
                    #[trigger] s1[b]).0@ by {
                        assert(s0[a].0@ != s0[b].0@);
                        if a != i && b != i {
                            assert(s1[a] == s0[a] && s1[b] == s0[b]);
                        }
                    }
                    lemma_alist_insert_at(s0, s1, i as int, kk, vv);
                }
                return;
            }
            i = i + 1;
        }
        self.by_rel_path.push((k, v));
        proof {
            let s1 = self.by_rel_path@;
            assert(s1 == s0.push((s1.last().0, s1.last().1)));
            assert(s1.last().0@ == kk && s1.last().1@ == vv);
            assert forall|a: int, b: int| 0 <= a < b < s1.len() implies (#[trigger] s1[a]).0@
                != (#[trigger] s1[b]).0@ by {
                if b < s1.len() - 1 {
                    assert(s1[a] == s0[a] && s1[b] == s0[b]);
                } else {
                    assert(s1[a] == s0[a]);
                }
            }
            lemma_alist_insert_at(s0, s1, s0.len() as int, kk, vv);
        }
    }

    /// Place a canonical path, in sorted position, in the stem's bucket.
    fn base_insert(&mut self, stem: Vec<u8>, canon: Vec<u8>)
        requires
            old(self).wf(),
        ensures
            final(self).wf(),
            final(self)@.rel == old(self)@.rel,
            final(self)@.base == old(self)@.base.insert(
                stem@,
                spec_insert_sorted(
                    if old(self)@.base.contains_key(stem@) {
                        old(self)@.base[stem@]
                    } else {
                        Seq::empty()
                    },
                    canon@,
                ),
            ),
    {
        let ghost s0 = self.by_basename@;
        let ghost kk = stem@;
        let ghost cc = canon@;
        let mut i: usize = 0;
        let n = self.by_basename.len();
        while i < n
            invariant
                i <= n,
                n == self.by_basename@.len(),
                self.by_basename@ == s0,
                s0 == old(self).by_basename@,
                self.by_rel_path@ == old(self).by_rel_path@,
                old(self).wf(),
                kk == stem@,
                cc == canon@,
                forall|j: int| 0 <= j < i ==> (#[trigger] s0[j]).0@ != kk,
            decreases n - i,
        {
            if bytes_eq(&self.by_basename[i].0, &stem) {
                proof {
                    // the bucket at i is the view's bucket for the stem
                    let c = base_index_of(s0, kk);
                    assert(0 <= c < s0.len() && s0[c].0@ == kk);
                    assert(c == i as int);
                    assert(old(self)@.base.contains_key(kk));
                    assert(old(self)@.base[kk] == path_views(s0[i as int].1@));
                }
                let newb = insert_sorted_vec(&self.by_basename[i].1, canon);
                let ghost nb = newb@;
                self.by_basename.set(i, (stem, newb));
                proof {
                    let s1 = self.by_basename@;
                    assert(s1 == s0.update(i as int, (s1[i as int].0, s1[i as int].1)));
                    assert(s1[i as int].0@ == kk);
                    assert(path_views(s1[i as int].1@) == spec_insert_sorted(
                        old(self)@.base[kk],
                        cc,
                    ));
                    assert forall|a: int, b: int|
                        0 <= a < b < s1.len() implies (#[trigger] s1[a]).0@ != (
                    #[trigger] s1[b]).0@ by {
                        assert(s0[a].0@ != s0[b].0@);
                        if a != i && b != i {
                            assert(s1[a] == s0[a] && s1[b] == s0[b]);
                        }
                    }
                    assert(spec_insert_sorted(old(self)@.base[kk], cc).len() > 0) by {
                        lemma_insert_sorted_len(old(self)@.base[kk], cc);
                    }
                    assert forall|j: int|
                        0 <= j < s1.len() implies sorted_paths(
                        path_views((#[trigger] s1[j]).1@),
                    ) && s1[j].1@.len() > 0 by {
                        if j != i {
                            assert(s1[j] == s0[j]);
                        } else {
                            assert(path_views(s1[j].1@).len() == s1[j].1@.len());
                        }
                    }
                    lemma_base_insert_at(s0, s1, i as int, kk);
                }
                return;
            }
            i = i + 1;
        }
        proof {
            if old(self)@.base.contains_key(kk) {
                let w = choose|j: int| 0 <= j < s0.len() && (#[trigger] s0[j]).0@ == kk;
                assert(false);
            }
        }
        let mut b: Vec<Vec<u8>> = Vec::new();
        b.push(canon);
        let ghost bb = b@;
        self.by_basename.push((stem, b));
        proof {
            let s1 = self.by_basename@;
            assert(s1 == s0.push((s1.last().0, s1.last().1)));
            assert(s1.last().0@ == kk);
            assert(path_views(s1.last().1@) =~= seq![cc]);
            assert(path_views(s1.last().1@) == spec_insert_sorted(Seq::empty(), cc));
            assert forall|a: int, b2: int| 0 <= a < b2 < s1.len() implies (#[trigger] s1[a]).0@
                != (#[trigger] s1[b2]).0@ by {
                if b2 < s1.len() - 1 {
                    assert(s1[a] == s0[a] && s1[b2] == s0[b2]);
                } else {
                    assert(s1[a] == s0[a]);
                }
            }
            assert forall|j: int|
                0 <= j < s1.len() implies sorted_paths(path_views((#[trigger] s1[j]).1@))
                && s1[j].1@.len() > 0 by {
                if j < s1.len() - 1 {
                    assert(s1[j] == s0[j]);
                } else {
                    assert(path_views(s1[j].1@) =~= seq![cc]);
                }
            }
            lemma_base_insert_at(s0, s1, s0.len() as int, kk);
        }
    }
}

impl VaultIndex {
    /// Build the index from the files a directory walk of the vault found.
    /// Every markdown file not under a hidden directory is registered under
    /// its normalized relative key, with and without the `.md` suffix, and in
    /// its basename stem's sorted bucket.
    pub fn build_index(entries: &Vec<VaultEntry>) -> (r: VaultIndex)
        ensures
            r.wf(),
            r@ == spec_build_index(entry_views(entries@)),
    {
        let ghost evs = entry_views(entries@);
        let mut ix = VaultIndex { by_rel_path: Vec::new(), by_basename: Vec::new() };
        proof {
            assert(ix@.rel =~= spec_empty_index().rel);
            assert(ix@.base =~= spec_empty_index().base);
            assert(ix@ == spec_build_index(evs.take(0)));
        }
        let mut i: usize = 0;
        while i < entries.len()
            invariant
                i <= entries.len(),
                evs == entry_views(entries@),
                ix.wf(),
                ix@ == spec_build_index(evs.take(i as int)),
            decreases entries@.len() - i,
        {
            let ghost pre = ix@;
            let key = normalize_rel_key(&entries[i].rel);
            if is_indexed_key(&key) {
                proof {
                    lemma_rfind_byte(key@, key@.len() as int, 47);
                }
                let sl = rfind_byte(&key, key.len(), 47);
                let bstart: usize = match sl {
                    Some(j) => j + 1,
                    None => 0,
                };
                assert(spec_basename(key@) == key@.subrange(bstart as int, key@.len() as int));
                let key2 = subvec(&key, 0, key.len() - 3);
                let stem = subvec(&key, bstart, key.len() - 3);
                proof {
                    assert(stem@ =~= spec_stem(key@));
                    assert(key2@ =~= key@.subrange(0, key@.len() - 3));
                }
                let canon1 = subvec(&entries[i].canonical, 0, entries[i].canonical.len());
                let canon2 = subvec(&entries[i].canonical, 0, entries[i].canonical.len());
                let canon3 = subvec(&entries[i].canonical, 0, entries[i].canonical.len());
                proof {
                    assert(canon1@ =~= entries@[i as int].canonical@);
                    assert(canon2@ =~= entries@[i as int].canonical@);
                    assert(canon3@ =~= entries@[i as int].canonical@);
                }
                ix.rel_insert(key, canon1);
                ix.rel_insert(key2, canon2);
                ix.base_insert(stem, canon3);
            }
            proof {
                assert(evs.take(i + 1).drop_last() =~= evs.take(i as int));
                assert(evs.take(i + 1).last() == entries@[i as int]@);
                assert(spec_build_index(evs.take(i + 1)) == spec_add_entry(
                    pre,
                    entries@[i as int].rel@,
                    entries@[i as int].canonical@,
                ));
                assert(ix@ == spec_add_entry(
                    pre,
                    entries@[i as int].rel@,
                    entries@[i as int].canonical@,
                ));
            }
            i = i + 1;
        }
        proof {
            assert(evs.take(entries@.len() as int) =~= evs);
        }
        ix
    }
}

/// The sorted insertion keeps at least one element.
proof fn lemma_insert_sorted_len(b: Seq<Seq<u8>>, x: Seq<u8>)
    ensures
        spec_insert_sorted(b, x).len() == b.len() + 1,
    decreases b.len(),
{
    if b.len() > 0 && !lex_le(x, b[0]) {
        lemma_insert_sorted_len(b.drop_first(), x);
    }
}

/// An association list whose entry at `at` was set to key `kk` (which no
/// other entry holds) reads as the old map with `kk` bound anew.
proof fn lemma_alist_insert_at(
    s0: Seq<(Vec<u8>, Vec<u8>)>,
    s1: Seq<(Vec<u8>, Vec<u8>)>,
    at: int,
    kk: Seq<u8>,
    vv: Seq<u8>,
)
    requires
        0 <= at <= s0.len(),
        s1.len() == if at < s0.len() {
            s0.len() as int
        } else {
            s0.len() + 1int
        },
        forall|j: int| 0 <= j < s1.len() && j != at ==> s1[j] == s0[j],
        at < s1.len(),
        s1[at].0@ == kk,
        s1[at].1@ == vv,
        forall|j: int| 0 <= j < s0.len() && j != at ==> (#[trigger] s0[j]).0@ != kk,
        at < s0.len() ==> s0[at].0@ == kk,
        forall|a: int, b: int| 0 <= a < b < s1.len() ==> (#[trigger] s1[a]).0@ != (#[trigger] s1[b]).0@,
    ensures
        rel_view(s1) == rel_view(s0).insert(kk, vv),
{
    let m0 = rel_view(s0);
    let m1 = rel_view(s1);
    assert forall|k: Seq<u8>| m1.contains_key(k) <==> m0.insert(kk, vv).contains_key(k) by {
        if k == kk {
            assert(0 <= at < s1.len() && s1[at].0@ == kk);
        } else {
            if m1.contains_key(k) {
                let w = choose|i: int| 0 <= i < s1.len() && (#[trigger] s1[i]).0@ == k;
                assert(w != at);
                assert(s0[w].0@ == k);
            }
            if m0.contains_key(k) {
                let w = choose|i: int| 0 <= i < s0.len() && (#[trigger] s0[i]).0@ == k;
                assert(w != at);
                assert(s1[w].0@ == k);
            }
        }
    }
    assert forall|k: Seq<u8>| m1.contains_key(k) implies m1[k] == m0.insert(kk, vv)[k] by {
        let w = rel_index_of(s1, k);
        assert(0 <= w < s1.len() && s1[w].0@ == k);
        if k == kk {
            assert(w == at);
        } else {
            assert(w != at);
            assert(m0.contains_key(k));
            let w0 = rel_index_of(s0, k);
            assert(0 <= w0 < s0.len() && s0[w0].0@ == k);
            assert(w0 != at);
            assert(s1[w0] == s0[w0]);
            assert(w0 == w);
        }
    }
    assert(m1 =~= m0.insert(kk, vv));
}

/// The same fact for the basename list: only the bucket of `kk` changes.
proof fn lemma_base_insert_at(
    s0: Seq<(Vec<u8>, Vec<Vec<u8>>)>,
    s1: Seq<(Vec<u8>, Vec<Vec<u8>>)>,
    at: int,
    kk: Seq<u8>,
)
    requires
        0 <= at <= s0.len(),
        s1.len() == if at < s0.len() {
            s0.len() as int
        } else {
            s0.len() + 1int
        },
        forall|j: int| 0 <= j < s1.len() && j != at ==> s1[j] == s0[j],
        at < s1.len(),
        s1[at].0@ == kk,
        forall|j: int| 0 <= j < s0.len() && j != at ==> (#[trigger] s0[j]).0@ != kk,
        at < s0.len() ==> s0[at].0@ == kk,
        forall|a: int, b: int| 0 <= a < b < s1.len() ==> (#[trigger] s1[a]).0@ != (#[trigger] s1[b]).0@,
    ensures
        base_view(s1) == base_view(s0).insert(kk, path_views(s1[at].1@)),
{
    let m0 = base_view(s0);
    let m1 = base_view(s1);
    let bb = path_views(s1[at].1@);
    assert forall|k: Seq<u8>| m1.contains_key(k) <==> m0.insert(kk, bb).contains_key(k) by {
        if k == kk {
            assert(0 <= at < s1.len() && s1[at].0@ == kk);
        } else {
            if m1.contains_key(k) {
                let w = choose|i: int| 0 <= i < s1.len() && (#[trigger] s1[i]).0@ == k;
                assert(w != at);
                assert(s0[w].0@ == k);
            }
            if m0.contains_key(k) {
                let w = choose|i: int| 0 <= i < s0.len() && (#[trigger] s0[i]).0@ == k;
                assert(w != at);
                assert(s1[w].0@ == k);
            }
        }
    }
    assert forall|k: Seq<u8>| m1.contains_key(k) implies m1[k] == m0.insert(kk, bb)[k] by {
        let w = base_index_of(s1, k);
        assert(0 <= w < s1.len() && s1[w].0@ == k);
        if k == kk {
            assert(w == at);
        } else {
            assert(w != at);
            assert(m0.contains_key(k));
            let w0 = base_index_of(s0, k);
            assert(0 <= w0 < s0.len() && s0[w0].0@ == k);
            assert(w0 != at);
            assert(s1[w0] == s0[w0]);
            assert(w0 == w);
        }
    }
    assert(m1 =~= m0.insert(kk, bb));
}

} // verus!
