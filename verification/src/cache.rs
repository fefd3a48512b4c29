//! The render cache: bounded by entry count and total markup size, evicting
//! the least recently used entry first, invalidated by an exact mtime match.

use vstd::prelude::*;

use crate::strutil::bytes_eq;
use crate::strutil::subvec;

verus! {

pub const MAX_CACHE_ENTRIES: usize = 100;

pub const MAX_CACHE_SIZE_BYTES: usize = 50 * 1024 * 1024;

/// One cached rendering: the source file's modification time, the rendered
/// markup, and its size in bytes.
pub struct CachedEntry {
    pub mtime: u64,
    pub html: Vec<u8>,
    pub size_bytes: usize,
}

/// Spec-level mirror of one cache slot.
pub struct EntryV {
    pub mtime: u64,
    pub html: Seq<u8>,
}

impl View for CachedEntry {
    type V = EntryV;

    open spec fn view(&self) -> EntryV {
        EntryV { mtime: self.mtime, html: self.html@ }
    }
}

/// Spec-level content of the cache: the entries from least to most recently
/// used, and the hit and miss counters.
pub struct CacheView {
    pub order: Seq<(Seq<u8>, EntryV)>,
    pub hits: int,
    pub misses: int,
}

/// Total markup size of the entries.
pub open spec fn sum_sizes(order: Seq<(Seq<u8>, EntryV)>) -> int
    decreases order.len(),
{
    if order.len() == 0 {
        0
    } else {
        sum_sizes(order.drop_last()) + order.last().1.html.len()
    }
}

pub proof fn lemma_sum_nonneg(order: Seq<(Seq<u8>, EntryV)>)
    ensures
        sum_sizes(order) >= 0,
    decreases order.len(),
{
    if order.len() > 0 {
        lemma_sum_nonneg(order.drop_last());
    }
}

pub proof fn lemma_sum_remove(order: Seq<(Seq<u8>, EntryV)>, i: int)
    requires
        0 <= i < order.len(),
    ensures
        sum_sizes(order.remove(i)) == sum_sizes(order) - order[i].1.html.len(),
    decreases order.len(),
{
    if i == order.len() - 1 {
        assert(order.remove(i) =~= order.drop_last());
    } else {
        lemma_sum_remove(order.drop_last(), i);
        assert(order.remove(i).drop_last() =~= order.drop_last().remove(i));
        assert(order.remove(i).last() == order.last());
    }
}

pub proof fn lemma_sum_push(order: Seq<(Seq<u8>, EntryV)>, e: (Seq<u8>, EntryV))
    ensures
        sum_sizes(order.push(e)) == sum_sizes(order) + e.1.html.len(),
{
    assert(order.push(e).drop_last() =~= order);
    assert(order.push(e).last() == e);
}

/// Whether some entry is keyed by `k`.
pub open spec fn cache_has(order: Seq<(Seq<u8>, EntryV)>, k: Seq<u8>) -> bool {
    exists|i: int| 0 <= i < order.len() && (#[trigger] order[i]).0 == k
}

/// Some index of the entry keyed by `k`.
pub open spec fn cache_index_of(order: Seq<(Seq<u8>, EntryV)>, k: Seq<u8>) -> int {
    choose|i: int| 0 <= i < order.len() && (#[trigger] order[i]).0 == k
}

/// A counter stepped by one, held at the machine limit.
pub open spec fn bump(n: int) -> int {
    if n < usize::MAX {
        n + 1
    } else {
        n
    }
}

/// Whether a probe of `(path, mtime)` hits.
pub open spec fn spec_cache_hit(c: CacheView, path: Seq<u8>, mtime: u64) -> bool {
    cache_has(c.order, path) && c.order[cache_index_of(c.order, path)].1.mtime == mtime
}

/// The markup a hit returns.
pub open spec fn spec_cache_hit_html(c: CacheView, path: Seq<u8>) -> Seq<u8> {
    c.order[cache_index_of(c.order, path)].1.html
}

/// The cache after a probe: on a hit the entry moves to the recent end and
/// the hit counter steps; on a miss only the miss counter steps.
pub open spec fn spec_cache_after_get(c: CacheView, path: Seq<u8>, mtime: u64) -> CacheView {
    if spec_cache_hit(c, path, mtime) {
        let i = cache_index_of(c.order, path);
        CacheView {
            order: c.order.remove(i).push(c.order[i]),
            hits: bump(c.hits),
            misses: c.misses,
        }
    } else {
        CacheView { order: c.order, hits: c.hits, misses: bump(c.misses) }
    }
}

/// Entries evicted from the least-recent end until the count is under the
/// cap and the new entry fits the size budget, never past the last entry.
pub open spec fn spec_evict(order: Seq<(Seq<u8>, EntryV)>, newsize: int) -> Seq<
    (Seq<u8>, EntryV),
>
    decreases order.len(),
{
    if order.len() > 0 && (order.len() >= MAX_CACHE_ENTRIES || sum_sizes(order) + newsize
        > MAX_CACHE_SIZE_BYTES) {
        spec_evict(order.drop_first(), newsize)
    } else {
        order
    }
}

/// The cache after an insert: any entry under the same path leaves first,
/// then least-recently-used entries are evicted to make room, and the new
/// entry joins at the recent end.
pub open spec fn spec_cache_after_insert(
    c: CacheView,
    path: Seq<u8>,
    mtime: u64,
    html: Seq<u8>,
) -> CacheView {
    let order1 = if cache_has(c.order, path) {
        c.order.remove(cache_index_of(c.order, path))
    } else {
        c.order
    };
    let order2 = spec_evict(order1, html.len() as int);
    CacheView {
        order: order2.push((path, EntryV { mtime, html })),
        hits: c.hits,
        misses: c.misses,
    }
}

/// Bounded store of rendered markup, keyed by canonical path.
pub struct RenderCache {
    entries: Vec<(Vec<u8>, CachedEntry)>,
    current_size_bytes: usize,
    hits: usize,
    misses: usize,
}

/// Views of the entry list.
pub open spec fn entry_list_views(s: Seq<(Vec<u8>, CachedEntry)>) -> Seq<(Seq<u8>, EntryV)> {
    s.map_values(|e: (Vec<u8>, CachedEntry)| (e.0@, e.1@))
}

impl View for RenderCache {
    type V = CacheView;

    closed spec fn view(&self) -> CacheView {
        CacheView {
            order: entry_list_views(self.entries@),
            hits: self.hits as int,
            misses: self.misses as int,
        }
    }
}

impl RenderCache {
    /// Keys are unique, the size accumulator is the real total, each entry's
    /// recorded size is its markup's length, and the bounds hold: at most the
    /// entry cap, and within the size budget unless a single oversized entry
    /// was admitted.
    pub closed spec fn wf(&self) -> bool {
        &&& forall|i: int, j: int|
            0 <= i < j < self.entries@.len() ==> (#[trigger] self.entries@[i]).0@ != (
            #[trigger] self.entries@[j]).0@
        &&& forall|i: int|
            0 <= i < self.entries@.len() ==> (#[trigger] self.entries@[i]).1.size_bytes == (
            self.entries@[i]).1.html@.len()
        &&& self.current_size_bytes as int == sum_sizes(entry_list_views(self.entries@))
        &&& self.entries@.len() <= MAX_CACHE_ENTRIES
        &&& sum_sizes(entry_list_views(self.entries@)) <= MAX_CACHE_SIZE_BYTES
            || self.entries@.len() <= 1
    }

    /// A well-formed cache never exceeds the entry cap, and never the size
    /// budget unless it holds exactly one (oversized) entry.
    pub proof fn lemma_bounds(&self)
        requires
            self.wf(),
        ensures
            self@.order.len() <= MAX_CACHE_ENTRIES,
            sum_sizes(self@.order) <= MAX_CACHE_SIZE_BYTES || self@.order.len() <= 1,
    {
    }
}

impl RenderCache {
    /// The position of the entry keyed by `path`, or the entry count.
    fn find_entry(&self, path: &Vec<u8>) -> (r: usize)
        ensures
            r <= self.entries@.len(),
            r < self.entries@.len() ==> (entry_list_views(self.entries@)[r as int]).0 == path@,
            r == self.entries@.len() ==> !cache_has(entry_list_views(self.entries@), path@),
    {
        let mut i: usize = 0;
        let n = self.entries.len();
        while i < n
            invariant
                i <= n,
                n == self.entries@.len(),
                forall|j: int|
                    0 <= j < i ==> (#[trigger] entry_list_views(self.entries@)[j]).0 != path@,
            decreases n - i,
        {
            if bytes_eq(&self.entries[i].0, path) {
                assert((entry_list_views(self.entries@)[i as int]).0 == path@);
                return i;
            }
            i = i + 1;
        }
        proof {
            if cache_has(entry_list_views(self.entries@), path@) {
                let w = choose|j: int|
                    0 <= j < entry_list_views(self.entries@).len() && (#[trigger] entry_list_views(
                        self.entries@,
                    )[j]).0 == path@;
                assert(false);
            }
        }
        n
    }
}

proof fn lemma_views_remove(s: Seq<(Vec<u8>, CachedEntry)>, i: int)
    requires
        0 <= i < s.len(),
    ensures
        entry_list_views(s.remove(i)) == entry_list_views(s).remove(i),
{
    assert(entry_list_views(s.remove(i)) =~= entry_list_views(s).remove(i));
}

proof fn lemma_views_push(s: Seq<(Vec<u8>, CachedEntry)>, e: (Vec<u8>, CachedEntry))
    ensures
        entry_list_views(s.push(e)) == entry_list_views(s).push((e.0@, e.1@)),
{
    assert(entry_list_views(s.push(e)) =~= entry_list_views(s).push((e.0@, e.1@)));
}

impl Default for RenderCache {
    /// The empty cache.
    fn default() -> (r: RenderCache)
        ensures
            r.wf(),
            r@.order == Seq::<(Seq<u8>, EntryV)>::empty(),
            r@.hits == 0,
            r@.misses == 0,
    {
        let r = RenderCache {
            entries: Vec::new(),
            current_size_bytes: 0,
            hits: 0,
            misses: 0,
        };
        proof {
            assert(entry_list_views(r.entries@) =~= Seq::<(Seq<u8>, EntryV)>::empty());
        }
        r
    }
}

impl RenderCache {
    /// Probe the cache: cached markup comes back only when the stored entry's
    /// mtime equals the probe's exactly; a hit refreshes the entry's recency.
    pub fn get(&mut self, path: &Vec<u8>, mtime: u64) -> (r: Option<Vec<u8>>)
        requires
            old(self).wf(),
        ensures
            final(self).wf(),
            final(self)@ == spec_cache_after_get(old(self)@, path@, mtime),
            match r {
                Some(h) => spec_cache_hit(old(self)@, path@, mtime) && h@
                    == spec_cache_hit_html(old(self)@, path@),
                None => !spec_cache_hit(old(self)@, path@, mtime),
            },
    {
        let ghost c0 = self@;
        let n = self.entries.len();
        let mut i: usize = 0;
        while i < n
            invariant
                i <= n,
                n == self.entries@.len(),
                self.entries@ == old(self).entries@,
                self.current_size_bytes == old(self).current_size_bytes,
                self.hits == old(self).hits,
                self.misses == old(self).misses,
                old(self).wf(),
                c0 == old(self)@,
                forall|j: int| 0 <= j < i ==> (#[trigger] entry_list_views(self.entries@)[j]).0 != path@,
            decreases n - i,
        {
            if bytes_eq(&self.entries[i].0, path) {
                proof {
                    assert((entry_list_views(self.entries@)[i as int]).0 == path@);
                    let w = cache_index_of(c0.order, path@);
                    assert(0 <= w < c0.order.len() && c0.order[w].0 == path@);
                    assert(w == i as int);
                }
                if self.entries[i].1.mtime == mtime {
                    let ghost s0 = self.entries@;
                    let e = self.entries.remove(i);
                    let html = subvec(&e.1.html, 0, e.1.html.len());
                    assert(html@ =~= e.1.html@);
                    self.entries.push(e);
                    if self.hits < usize::MAX {
                        self.hits = self.hits + 1;
                    }
                    proof {
                        lemma_views_remove(s0, i as int);
                        lemma_views_push(s0.remove(i as int), (e.0, e.1));
                        let v0 = entry_list_views(s0);
                        let v1 = entry_list_views(self.entries@);
                        assert(v1 == v0.remove(i as int).push(v0[i as int]));
                        assert(self@.order == spec_cache_after_get(c0, path@, mtime).order);
                        // the permutation keeps the size total and the bounds
                        lemma_sum_remove(v0, i as int);
                        lemma_sum_push(v0.remove(i as int), v0[i as int]);
                        assert(sum_sizes(v1) == sum_sizes(v0));
                        // keys stay pairwise distinct
                        assert forall|a: int, b: int|
                            0 <= a < b < v1.len() implies (#[trigger] v1[a]).0 != (
                        #[trigger] v1[b]).0 by {
                            let ia: int = if a < i {
                                a
                            } else {
                                a + 1
                            };
                            if b == v1.len() - 1 {
                                assert(v1[b] == v0[i as int]);
                                assert(v1[a] == v0[ia] && ia != i);
                            } else {
                                let ib: int = if b < i {
                                    b
                                } else {
                                    b + 1
                                };
                                assert(v1[a] == v0[ia] && v1[b] == v0[ib]);
                            }
                        }
                        assert forall|j: int|
                            0 <= j < self.entries@.len() implies (#[trigger] self.entries@[j]).1.size_bytes
                            == self.entries@[j].1.html@.len() by {
                            if j < self.entries@.len() - 1 {
                                assert(self.entries@[j] == if j < i {
                                    s0[j]
                                } else {
                                    s0[j + 1]
                                });
                            } else {
                                assert(self.entries@[j] == s0[i as int]);
                            }
                        }
                    }
                    return Some(html);
                } else {
                    if self.misses < usize::MAX {
                        self.misses = self.misses + 1;
                    }
                    proof {
                        assert(!spec_cache_hit(c0, path@, mtime));
                    }
                    return None;
                }
            }
            i = i + 1;
        }
        proof {
            if cache_has(c0.order, path@) {
                let w = choose|j: int| 0 <= j < c0.order.len() && (#[trigger] c0.order[j]).0 == path@;
                assert(false);
            }
        }
        if self.misses < usize::MAX {
            self.misses = self.misses + 1;
        }
        None
    }

    /// Store rendered markup under a canonical path: any earlier entry for
    /// the path leaves, least-recently-used entries are evicted until the
    /// count cap and the size budget hold (but never below one remaining
    /// slot), and the new entry becomes the most recent.
    pub fn insert(&mut self, path: Vec<u8>, mtime: u64, html: Vec<u8>)
        requires
            old(self).wf(),
        ensures
            final(self).wf(),
            final(self)@ == spec_cache_after_insert(old(self)@, path@, mtime, html@),
    {
        let ghost c0 = self@;
        let size_bytes = html.len();
        // drop any earlier entry under the same path
        let n = self.entries.len();
        let found = self.find_entry(&path);
        proof {
            if found < n {
                let w = cache_index_of(c0.order, path@);
                assert(0 <= w < c0.order.len() && c0.order[w].0 == path@);
                assert(w == found as int);
            }
        }
        let ghost order1 = if cache_has(c0.order, path@) {
            c0.order.remove(cache_index_of(c0.order, path@))
        } else {
            c0.order
        };
        if found < n {
            let ghost s0 = self.entries@;
            let e = self.entries.remove(found);
            proof {
                lemma_views_remove(s0, found as int);
                lemma_sum_remove(entry_list_views(s0), found as int);
                lemma_sum_nonneg(entry_list_views(self.entries@));
                assert(e.1.size_bytes == e.1.html@.len());
            }
            self.current_size_bytes = self.current_size_bytes - e.1.size_bytes;
            proof {
                assert(entry_list_views(self.entries@) == order1);
                assert forall|a: int, b: int|
                    0 <= a < b < self.entries@.len() implies (#[trigger] self.entries@[a]).0@
                    != (#[trigger] self.entries@[b]).0@ by {
                    let ia: int = if a < found {
                        a
                    } else {
                        a + 1
                    };
                    let ib: int = if b < found {
                        b
                    } else {
                        b + 1
                    };
                    assert(self.entries@[a] == s0[ia] && self.entries@[b] == s0[ib]);
                }
                assert forall|j: int|
                    0 <= j < self.entries@.len() implies (#[trigger] self.entries@[j]).1.size_bytes
                    == self.entries@[j].1.html@.len() by {
                    assert(self.entries@[j] == if j < found {
                        s0[j]
                    } else {
                        s0[j + 1]
                    });
                }
            }
        } else {
            proof {
                if cache_has(c0.order, path@) {
                    let w = choose|j: int|
                        0 <= j < c0.order.len() && (#[trigger] c0.order[j]).0 == path@;
                    assert(false);
                }
                assert(entry_list_views(self.entries@) == order1);
            }
        }
        // uniqueness, the size total, and the absence of the path carry over
        assert(self.current_size_bytes as int == sum_sizes(entry_list_views(self.entries@)));
        assert(forall|j: int|
            0 <= j < self.entries@.len() ==> (#[trigger] entry_list_views(self.entries@)[j]).0
                != path@);
        // evict until the new entry fits
        while self.entries.len() > 0 && (self.entries.len() >= MAX_CACHE_ENTRIES
            || size_bytes > MAX_CACHE_SIZE_BYTES || self.current_size_bytes
            > MAX_CACHE_SIZE_BYTES - size_bytes)
            invariant
                self.current_size_bytes as int == sum_sizes(entry_list_views(self.entries@)),
                spec_evict(entry_list_views(self.entries@), size_bytes as int) == spec_evict(
                    order1,
                    size_bytes as int,
                ),
                forall|a: int, b: int|
                    0 <= a < b < self.entries@.len() ==> (#[trigger] self.entries@[a]).0@ != (
                    #[trigger] self.entries@[b]).0@,
                forall|j: int|
                    0 <= j < self.entries@.len() ==> (#[trigger] self.entries@[j]).1.size_bytes
                        == self.entries@[j].1.html@.len(),
                forall|j: int|
                    0 <= j < self.entries@.len() ==> (#[trigger] entry_list_views(
                        self.entries@,
                    )[j]).0 != path@,
                self.hits == old(self).hits,
                self.misses == old(self).misses,
            decreases self.entries@.len(),
        {
            let ghost s0 = self.entries@;
            proof {
                assert(sum_sizes(entry_list_views(s0)) + size_bytes > MAX_CACHE_SIZE_BYTES
                    || s0.len() >= MAX_CACHE_ENTRIES);
            }
            let e = self.entries.remove(0);
            proof {
                lemma_views_remove(s0, 0);
                lemma_sum_remove(entry_list_views(s0), 0);
                lemma_sum_nonneg(entry_list_views(self.entries@));
                assert(entry_list_views(s0).remove(0) =~= entry_list_views(s0).drop_first());
                assert forall|a: int, b: int|
                    0 <= a < b < self.entries@.len() implies (#[trigger] self.entries@[a]).0@
                    != (#[trigger] self.entries@[b]).0@ by {
                    assert(self.entries@[a] == s0[a + 1] && self.entries@[b] == s0[b + 1]);
                }
                assert forall|j: int|
                    0 <= j < self.entries@.len() implies (#[trigger] self.entries@[j]).1.size_bytes
                    == self.entries@[j].1.html@.len() by {
                    assert(self.entries@[j] == s0[j + 1]);
                }
                assert forall|j: int|
                    0 <= j < self.entries@.len() implies (#[trigger] entry_list_views(
                    self.entries@,
                )[j]).0 != path@ by {
                    assert(entry_list_views(self.entries@)[j] == entry_list_views(s0)[j + 1]);
                }
            }
            self.current_size_bytes = self.current_size_bytes - e.1.size_bytes;
        }
        let ghost order2 = entry_list_views(self.entries@);
        proof {
            assert(spec_evict(order2, size_bytes as int) == order2);
            assert(order2 == spec_evict(order1, size_bytes as int));
            lemma_sum_nonneg(order2);
        }
        let ghost s1 = self.entries@;
        let entry = CachedEntry { mtime, html, size_bytes };
        self.current_size_bytes = self.current_size_bytes + size_bytes;
        self.entries.push((path, entry));
        proof {
            lemma_views_push(s1, (self.entries@.last().0, self.entries@.last().1));
            lemma_sum_push(order2, (self.entries@.last().0@, self.entries@.last().1@));
            let v1 = entry_list_views(self.entries@);
            assert(v1 == order2.push((self.entries@.last().0@, self.entries@.last().1@)));
            assert(self@.order == spec_cache_after_insert(c0, path@, mtime, entry.html@).order);
            assert forall|a: int, b: int|
                0 <= a < b < self.entries@.len() implies (#[trigger] self.entries@[a]).0@ != (
            #[trigger] self.entries@[b]).0@ by {
                if b == self.entries@.len() - 1 {
                    assert(self.entries@[a] == s1[a]);
                    assert((entry_list_views(s1)[a]).0 != self.entries@[b].0@);
                } else {
                    assert(self.entries@[a] == s1[a] && self.entries@[b] == s1[b]);
                }
            }
            assert forall|j: int|
                0 <= j < self.entries@.len() implies (#[trigger] self.entries@[j]).1.size_bytes
                == self.entries@[j].1.html@.len() by {
                if j < self.entries@.len() - 1 {
                    assert(self.entries@[j] == s1[j]);
                }
            }
        }
    }

    /// The cache's entry count, total markup bytes, hits and misses.
    pub fn get_stats(&self) -> (r: (usize, usize, usize, usize))
        requires
            self.wf(),
        ensures
            r.0 == self@.order.len(),
            r.1 == sum_sizes(self@.order),
            r.2 == self@.hits,
            r.3 == self@.misses,
    {
        (self.entries.len(), self.current_size_bytes, self.hits, self.misses)
    }

    /// Forget everything, the counters included.
    pub fn clear(&mut self)
        ensures
            final(self).wf(),
            final(self)@.order == Seq::<(Seq<u8>, EntryV)>::empty(),
            final(self)@.hits == 0,
            final(self)@.misses == 0,
    {
        self.entries.clear();
        self.current_size_bytes = 0;
        self.hits = 0;
        self.misses = 0;
        proof {
            assert(entry_list_views(self.entries@) =~= Seq::<(Seq<u8>, EntryV)>::empty());
        }
    }
}

/// Pairwise-distinct cache keys.
pub open spec fn cache_keys_unique(order: Seq<(Seq<u8>, EntryV)>) -> bool {
    forall|i: int, j: int|
        0 <= i < j < order.len() ==> (#[trigger] order[i]).0 != (#[trigger] order[j]).0
}

impl RenderCache {
    /// A well-formed cache's keys are pairwise distinct.
    pub proof fn lemma_wf_unique(&self)
        requires
            self.wf(),
        ensures
            cache_keys_unique(self@.order),
    {
        let s = self.entries@;
        assert forall|i: int, j: int|
            0 <= i < j < self@.order.len() implies (#[trigger] self@.order[i]).0 != (
        #[trigger] self@.order[j]).0 by {
            assert(s[i].0@ != s[j].0@);
        }
    }
}

/// Eviction keeps a suffix of the recency order.
pub proof fn lemma_evict_is_suffix(order: Seq<(Seq<u8>, EntryV)>, newsize: int)
    ensures
        exists|m: int|
            0 <= m <= order.len() && spec_evict(order, newsize) == #[trigger] order.skip(m),
    decreases order.len(),
{
    if order.len() > 0 && (order.len() >= MAX_CACHE_ENTRIES || sum_sizes(order) + newsize
        > MAX_CACHE_SIZE_BYTES) {
        lemma_evict_is_suffix(order.drop_first(), newsize);
        let m = choose|m: int|
            0 <= m <= order.drop_first().len() && spec_evict(order.drop_first(), newsize) == (
            #[trigger] order.drop_first().skip(m));
        assert(order.drop_first().skip(m) =~= order.skip(m + 1));
        assert(spec_evict(order, newsize) == order.skip(m + 1));
    } else {
        assert(order.skip(0) =~= order);
        assert(spec_evict(order, newsize) == order.skip(0));
    }
}

/// After a hit is probed, the cache still hits on the same entry, with the
/// same markup, and the keys stay distinct.
pub proof fn lemma_after_get_hit(c: CacheView, path: Seq<u8>, mtime: u64)
    requires
        cache_keys_unique(c.order),
        spec_cache_hit(c, path, mtime),
    ensures
        ({
            let c1 = spec_cache_after_get(c, path, mtime);
            &&& cache_keys_unique(c1.order)
            &&& spec_cache_hit(c1, path, mtime)
            &&& spec_cache_hit_html(c1, path) == spec_cache_hit_html(c, path)
            &&& c1.hits == bump(c.hits)
        }),
{
    let i = cache_index_of(c.order, path);
    assert(0 <= i < c.order.len() && c.order[i].0 == path);
    let c1 = spec_cache_after_get(c, path, mtime);
    let o1 = c1.order;
    assert(o1 == c.order.remove(i).push(c.order[i]));
    assert forall|a: int, b: int| 0 <= a < b < o1.len() implies (#[trigger] o1[a]).0 != (
    #[trigger] o1[b]).0 by {
        let ia: int = if a < i {
            a
        } else {
            a + 1
        };
        if b == o1.len() - 1 {
            assert(o1[b] == c.order[i]);
            assert(o1[a] == c.order[ia] && ia != i);
        } else {
            let ib: int = if b < i {
                b
            } else {
                b + 1
            };
            assert(o1[a] == c.order[ia] && o1[b] == c.order[ib]);
        }
    }
    assert(o1[o1.len() - 1] == c.order[i]);
    assert(cache_has(o1, path));
    let w = cache_index_of(o1, path);
    assert(0 <= w < o1.len() && o1[w].0 == path);
    assert(w == o1.len() - 1) by {
        if w < o1.len() - 1 {
            let iw: int = if w < i {
                w
            } else {
                w + 1
            };
            assert(o1[w] == c.order[iw] && iw != i);
            assert(c.order[iw].0 == path && c.order[i].0 == path);
        }
    }
}

/// After an insert, the cache hits on the inserted entry with exactly the
/// inserted markup, and the keys stay distinct.
pub proof fn lemma_after_insert_hit(c: CacheView, path: Seq<u8>, mtime: u64, html: Seq<u8>)
    requires
        cache_keys_unique(c.order),
    ensures
        ({
            let c1 = spec_cache_after_insert(c, path, mtime, html);
            &&& cache_keys_unique(c1.order)
            &&& spec_cache_hit(c1, path, mtime)
            &&& spec_cache_hit_html(c1, path) == html
            &&& c1.hits == c.hits
            &&& c1.misses == c.misses
        }),
{
    let order1 = if cache_has(c.order, path) {
        c.order.remove(cache_index_of(c.order, path))
    } else {
        c.order
    };
    assert(cache_keys_unique(order1) && forall|j: int|
        0 <= j < order1.len() ==> (#[trigger] order1[j]).0 != path) by {
        if cache_has(c.order, path) {
            let i = cache_index_of(c.order, path);
            assert(0 <= i < c.order.len() && c.order[i].0 == path);
            assert forall|a: int, b: int|
                0 <= a < b < order1.len() implies (#[trigger] order1[a]).0 != (
            #[trigger] order1[b]).0 by {
                let ia: int = if a < i {
                    a
                } else {
                    a + 1
                };
                let ib: int = if b < i {
                    b
                } else {
                    b + 1
                };
                assert(order1[a] == c.order[ia] && order1[b] == c.order[ib]);
            }
            assert forall|j: int|
                0 <= j < order1.len() implies (#[trigger] order1[j]).0 != path by {
                let ij: int = if j < i {
                    j
                } else {
                    j + 1
                };
                assert(order1[j] == c.order[ij] && ij != i);
            }
        } else {
            assert forall|j: int|
                0 <= j < order1.len() implies (#[trigger] order1[j]).0 != path by {
                if order1[j].0 == path {
                    assert(cache_has(c.order, path));
                }
            }
        }
    }
    let order2 = spec_evict(order1, html.len() as int);
    lemma_evict_is_suffix(order1, html.len() as int);
    let m = choose|m: int| 0 <= m <= order1.len() && order2 == #[trigger] order1.skip(m);
    assert forall|j: int| 0 <= j < order2.len() implies (#[trigger] order2[j]).0 != path by {
        assert(order2[j] == order1[j + m]);
    }
    assert forall|a: int, b: int| 0 <= a < b < order2.len() implies (#[trigger] order2[a]).0
        != (#[trigger] order2[b]).0 by {
        assert(order2[a] == order1[a + m] && order2[b] == order1[b + m]);
    }
    let c1 = spec_cache_after_insert(c, path, mtime, html);
    let o1 = c1.order;
    assert(o1 == order2.push((path, EntryV { mtime, html })));
    assert(o1[o1.len() - 1].0 == path);
    assert(cache_has(o1, path));
    assert forall|a: int, b: int| 0 <= a < b < o1.len() implies (#[trigger] o1[a]).0 != (
    #[trigger] o1[b]).0 by {
        if b == o1.len() - 1 {
            assert(o1[a] == order2[a]);
        } else {
            assert(o1[a] == order2[a] && o1[b] == order2[b]);
        }
    }
    let w = cache_index_of(o1, path);
    assert(0 <= w < o1.len() && o1[w].0 == path);
    assert(w == o1.len() - 1) by {
        if w < o1.len() - 1 {
            assert(o1[w] == order2[w]);
        }
    }
}

/// Eviction only ever removes from the least-recent end: whatever survives
/// ends with the most recent entry.
pub proof fn lemma_evict_last(order: Seq<(Seq<u8>, EntryV)>, newsize: int)
    ensures
        spec_evict(order, newsize).len() > 0 ==> order.len() > 0 && spec_evict(
            order,
            newsize,
        ).last() == order.last(),
    decreases order.len(),
{
    if order.len() > 0 && (order.len() >= MAX_CACHE_ENTRIES || sum_sizes(order) + newsize
        > MAX_CACHE_SIZE_BYTES) {
        lemma_evict_last(order.drop_first(), newsize);
        if order.len() >= 2 {
            assert(order.drop_first().last() == order.last());
        }
    }
}

/// A freshly re-accessed entry survives the next insert of a different path,
/// as long as that insert leaves any older entry at all: eviction starts at
/// the least recently used end, and the probe moved the entry away from it.
pub proof fn lemma_lru_protects_recent(
    c: CacheView,
    k: Seq<u8>,
    mtime: u64,
    path: Seq<u8>,
    mtime2: u64,
    html: Seq<u8>,
)
    requires
        spec_cache_hit(c, k, mtime),
        path != k,
    ensures
        ({
            let c1 = spec_cache_after_get(c, k, mtime);
            let c2 = spec_cache_after_insert(c1, path, mtime2, html);
            c2.order.len() > 1 ==> cache_has(c2.order, k)
        }),
{
    let c1 = spec_cache_after_get(c, k, mtime);
    let i = cache_index_of(c.order, k);
    assert(0 <= i < c.order.len() && c.order[i].0 == k);
    assert(c1.order.last() == c.order[i]);
    assert(c1.order.len() > 0);
    let order1 = if cache_has(c1.order, path) {
        c1.order.remove(cache_index_of(c1.order, path))
    } else {
        c1.order
    };
    if cache_has(c1.order, path) {
        let j = cache_index_of(c1.order, path);
        assert(0 <= j < c1.order.len() && c1.order[j].0 == path);
        assert(j != c1.order.len() - 1);
        assert(order1.last() == c1.order.last());
    }
    assert(order1.len() > 0 && order1.last() == c.order[i]);
    let order2 = spec_evict(order1, html.len() as int);
    lemma_evict_last(order1, html.len() as int);
    let c2 = spec_cache_after_insert(c1, path, mtime2, html);
    if c2.order.len() > 1 {
        assert(order2.len() > 0);
        assert(order2.last() == c.order[i]);
        assert(c2.order[order2.len() - 1] == c.order[i]);
        assert(cache_has(c2.order, k));
    }
}

} // verus!
