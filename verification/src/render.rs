//! The expansion engine: rewriting every bracket span of a note, splicing in
//! recursively expanded embeds, guarded against cycles and runaway depth; the
//! cached, postprocessed rendering of a note.

use vstd::prelude::*;

use crate::cache::RenderCache;
use crate::index::IndexView;
use crate::index::VaultIndex;
use crate::index::spec_basename;
use crate::lit::lit_ambiguous_suffix;
use crate::lit::lit_asset_mid;
use crate::lit::lit_asset_name;
use crate::lit::lit_asset_prefix;
use crate::lit::lit_cycle_suffix;
use crate::lit::lit_depth_suffix;
use crate::lit::lit_embed_prefix;
use crate::lit::lit_invalid_path_marker;
use crate::lit::lit_not_found_suffix;
use crate::lit::lit_question_name;
use crate::lit::lit_read_error_marker;
use crate::lit::push_ambiguous_suffix;
use crate::lit::push_asset_mid;
use crate::lit::push_asset_name;
use crate::lit::push_asset_prefix;
use crate::lit::push_cycle_suffix;
use crate::lit::push_depth_suffix;
use crate::lit::push_embed_prefix;
use crate::lit::push_invalid_path_marker;
use crate::lit::push_not_found_suffix;
use crate::lit::push_question_name;
use crate::lit::push_read_error_marker;
use crate::markdown::html_of;
use crate::markdown::render_markdown_safe;
use crate::parse::RawSpan;
use crate::parse::SpanV;
use crate::parse::compute_skip_ranges;
use crate::parse::find_obsidian_spans_inner;
use crate::parse::lemma_spans_from_wf;
use crate::parse::lemma_spans_pairwise;
use crate::parse::link_display_text;
use crate::parse::obs_link_href;
use crate::parse::parse_wikilink_inner;
use crate::parse::range_views;
use crate::parse::span_views;
use crate::parse::spec_link_display;
use crate::parse::spec_obs_href;
use crate::parse::spec_parse_wikilink;
use crate::parse::spec_spans;
use crate::resolve::ResolveResult;
use crate::resolve::ResolveResultV;
use crate::resolve::resolve_target;
use crate::resolve::spec_resolve_target;
use crate::store::NoteStore;
use crate::store::NoteV;
use crate::strutil::lemma_rfind_byte;
use crate::strutil::push_all;
use crate::strutil::rfind_byte;
use crate::strutil::spec_replace;
use crate::strutil::spec_rfind_byte;
use crate::strutil::replace_byte;
use crate::strutil::subvec;

verus! {

/// The display name of a path: its basename, or a question mark where the
/// basename is empty.
pub open spec fn spec_file_name(p: Seq<u8>) -> Seq<u8> {
    let b = spec_basename(p);
    if b.len() == 0 {
        lit_question_name()
    } else {
        b
    }
}

/// The asset display name of a path: its basename, or a fixed word where the
/// basename is empty.
pub open spec fn spec_asset_name(p: Seq<u8>) -> Seq<u8> {
    let b = spec_basename(p);
    if b.len() == 0 {
        lit_asset_name()
    } else {
        b
    }
}

/// `*[Embed: <name> (cycle)]*`
pub open spec fn marker_cycle(name: Seq<u8>) -> Seq<u8> {
    lit_embed_prefix() + name + lit_cycle_suffix()
}

/// `*[Embed: <name> (depth limit)]*`
pub open spec fn marker_depth(name: Seq<u8>) -> Seq<u8> {
    lit_embed_prefix() + name + lit_depth_suffix()
}

/// `*[Embed: <target> (not found)]*`
pub open spec fn marker_not_found(target: Seq<u8>) -> Seq<u8> {
    lit_embed_prefix() + target + lit_not_found_suffix()
}

/// `*[Embed: <target> (ambiguous)]*`
pub open spec fn marker_ambiguous(target: Seq<u8>) -> Seq<u8> {
    lit_embed_prefix() + target + lit_ambiguous_suffix()
}

/// `[Asset: <name>](file:///<slash-normalized path>)`
pub open spec fn marker_asset(p: Seq<u8>) -> Seq<u8> {
    lit_asset_prefix() + spec_asset_name(p) + lit_asset_mid() + spec_replace(p, 92, 47) + seq![
        41u8,
    ]
}

/// `[<display>](<href>)`
pub open spec fn wikilink_md(display: Seq<u8>, href: Seq<u8>) -> Seq<u8> {
    seq![91u8] + display + seq![93u8, 40u8] + href + seq![41u8]
}

/// The set of paths a visited list holds.
pub open spec fn visited_set(v: Seq<Vec<u8>>) -> Set<Seq<u8>> {
    Set::new(|p: Seq<u8>| exists|i: int| 0 <= i < v.len() && (#[trigger] v[i])@ == p)
}

/// Spec-level mirror of a render context.
pub struct CtxV {
    pub vault_root: Seq<u8>,
    pub visited: Set<Seq<u8>>,
    pub depth: int,
    pub max_depth: int,
}

/// The state one top-level render call threads through the expansion: the
/// vault root, the paths currently being expanded (the recursion guard), the
/// current depth and its ceiling.
pub struct RenderContext {
    pub vault_root: Vec<u8>,
    pub visited: Vec<Vec<u8>>,
    pub depth: u32,
    pub max_depth: u32,
}

impl View for RenderContext {
    type V = CtxV;

    open spec fn view(&self) -> CtxV {
        CtxV {
            vault_root: self.vault_root@,
            visited: visited_set(self.visited@),
            depth: self.depth as int,
            max_depth: self.max_depth as int,
        }
    }
}

impl RenderContext {
    /// The visited list holds no duplicates, the depth never runs more than
    /// one past its ceiling, and the ceiling leaves room to count one past it.
    pub open spec fn wf(&self) -> bool {
        &&& forall|i: int, j: int|
            0 <= i < j < self.visited@.len() ==> (#[trigger] self.visited@[i])@ != (
            #[trigger] self.visited@[j])@
        &&& self.depth <= self.max_depth + 1
        &&& self.max_depth < u32::MAX
    }

    /// A context at the start of a top-level render call.
    pub fn new(vault_root: Vec<u8>, max_depth: u32) -> (r: RenderContext)
        requires
            max_depth < u32::MAX,
        ensures
            r.wf(),
            r@.vault_root == vault_root@,
            r@.visited == Set::<Seq<u8>>::empty(),
            r.visited@.len() == 0,
            r.depth == 0,
            r@.depth == 0,
            r@.max_depth == max_depth as int,
    {
        let r = RenderContext { vault_root, visited: Vec::new(), depth: 0, max_depth };
        proof {
            assert(r@.visited =~= Set::<Seq<u8>>::empty());
        }
        r
    }

    /// Whether a path is on the current expansion stack.
    fn visited_contains(&self, p: &Vec<u8>) -> (r: bool)
        ensures
            r == self@.visited.contains(p@),
    {
        let mut i: usize = 0;
        while i < self.visited.len()
            invariant
                i <= self.visited@.len(),
                forall|j: int| 0 <= j < i ==> (#[trigger] self.visited@[j])@ != p@,
            decreases self.visited@.len() - i,
        {
            if crate::strutil::bytes_eq(&self.visited[i], p) {
                assert(self@.visited.contains(p@));
                return true;
            }
            i = i + 1;
        }
        proof {
            if self@.visited.contains(p@) {
                let w = choose|j: int|
                    0 <= j < self.visited@.len() && (#[trigger] self.visited@[j])@ == p@;
                assert(false);
            }
        }
        false
    }

    /// Mark a path as being expanded.
    fn visited_insert(&mut self, p: Vec<u8>)
        requires
            old(self).wf(),
            !old(self)@.visited.contains(p@),
        ensures
            final(self).wf(),
            final(self)@.visited == old(self)@.visited.insert(p@),
            final(self).vault_root == old(self).vault_root,
            final(self).depth == old(self).depth,
            final(self).max_depth == old(self).max_depth,
    {
        let ghost v0 = self.visited@;
        let ghost pp = p@;
        self.visited.push(p);
        proof {
            let v1 = self.visited@;
            assert forall|a: int, b: int| 0 <= a < b < v1.len() implies (#[trigger] v1[a])@ != (
            #[trigger] v1[b])@ by {
                if b < v1.len() - 1 {
                    assert(v1[a] == v0[a] && v1[b] == v0[b]);
                } else {
                    assert(v1[a] == v0[a]);
                    assert(visited_set(v0).contains(v0[a]@));
                }
            }
            assert forall|q: Seq<u8>|
                visited_set(v1).contains(q) <==> visited_set(v0).insert(pp).contains(q) by {
                if q == pp {
                    assert((v1[v1.len() - 1])@ == pp);
                } else {
                    if visited_set(v1).contains(q) {
                        let w = choose|i: int| 0 <= i < v1.len() && (#[trigger] v1[i])@ == q;
                        assert(v0[w]@ == q);
                    }
                    if visited_set(v0).contains(q) {
                        let w = choose|i: int| 0 <= i < v0.len() && (#[trigger] v0[i])@ == q;
                        assert(v1[w]@ == q);
                    }
                }
            }
            assert(visited_set(v1) =~= visited_set(v0).insert(pp));
        }
    }

    /// Unmark a path once its subtree has been expanded.
    fn visited_remove(&mut self, p: &Vec<u8>)
        requires
            old(self).wf(),
            old(self)@.visited.contains(p@),
        ensures
            final(self).wf(),
            final(self)@.visited == old(self)@.visited.remove(p@),
            final(self).vault_root == old(self).vault_root,
            final(self).depth == old(self).depth,
            final(self).max_depth == old(self).max_depth,
    {
        let ghost v0 = self.visited@;
        let ghost pp = p@;
        let mut i: usize = 0;
        let n = self.visited.len();
        while i < n
            invariant
                i <= n,
                n == self.visited@.len(),
                self.visited@ == v0,
                old(self).wf(),
                self.depth == old(self).depth,
                self.max_depth == old(self).max_depth,
                self.vault_root == old(self).vault_root,
                v0 == old(self).visited@,
                pp == p@,
                forall|j: int| 0 <= j < i ==> (#[trigger] v0[j])@ != pp,
            decreases n - i,
        {
            if crate::strutil::bytes_eq(&self.visited[i], p) {
                self.visited.remove(i);
                proof {
                    let v1 = self.visited@;
                    assert(v1 == v0.remove(i as int));
                    assert forall|a: int, b: int|
                        0 <= a < b < v1.len() implies (#[trigger] v1[a])@ != (
                    #[trigger] v1[b])@ by {
                        let ia: int = if a < i {
                            a
                        } else {
                            a + 1
                        };
                        let ib: int = if b < i {
                            b
                        } else {
                            b + 1
                        };
                        assert(v1[a] == v0[ia] && v1[b] == v0[ib]);
                    }
                    assert forall|q: Seq<u8>|
                        visited_set(v1).contains(q) <==> visited_set(v0).remove(pp).contains(
                        q,
                    ) by {
                        if visited_set(v1).contains(q) {
                            let w = choose|j: int|
                                0 <= j < v1.len() && (#[trigger] v1[j])@ == q;
                            let iw: int = if w < i {
                                w
                            } else {
                                w + 1
                            };
                            assert(v0[iw]@ == q);
                            assert(iw != i ==> q != pp) by {
                                if iw != i && q == pp {
                                    assert(v0[iw]@ == pp && v0[i as int]@ == pp);
                                }
                            }
                        }
                        if visited_set(v0).remove(pp).contains(q) {
                            let w = choose|j: int|
                                0 <= j < v0.len() && (#[trigger] v0[j])@ == q;
                            assert(w != i);
                            let nw: int = if w < i {
                                w
                            } else {
                                w - 1
                            };
                            assert(v1[nw]@ == q);
                        }
                    }
                    assert(visited_set(v1) =~= visited_set(v0).remove(pp));
                }
                return;
            }
            i = i + 1;
        }
        proof {
            let w = choose|j: int| 0 <= j < v0.len() && (#[trigger] v0[j])@ == pp;
            assert(false);
        }
    }
}

/// How much deeper the expansion may still go (clamped, for termination).
pub open spec fn depth_fuel(depth: int, max_depth: int) -> int {
    if depth <= max_depth + 1 {
        max_depth + 2 - depth
    } else {
        0
    }
}

/// What one note expands to: a placeholder when the note is unknown, already
/// on the expansion stack, past the depth ceiling, or unreadable; otherwise
/// its content with every bracket span rewritten, one level deeper, with the
/// note on the stack for the duration.
pub open spec fn spec_expand_note(
    store: Map<Seq<u8>, NoteV>,
    ix: IndexView,
    path: Seq<u8>,
    visited: Set<Seq<u8>>,
    depth: int,
    max_depth: int,
) -> Seq<u8>
    decreases depth_fuel(depth, max_depth), 0int, 0int,
{
    if !store.contains_key(path) {
        lit_invalid_path_marker()
    } else if visited.contains(path) {
        marker_cycle(spec_file_name(path))
    } else if depth > max_depth {
        marker_depth(spec_file_name(path))
    } else {
        match store[path].content {
            Option::None => lit_read_error_marker(),
            Option::Some(content) => spec_expand_text(
                store,
                ix,
                content,
                visited.insert(path),
                depth + 1,
                max_depth,
            ),
        }
    }
}

/// What a text expands to: every bracket span outside code replaced.
pub open spec fn spec_expand_text(
    store: Map<Seq<u8>, NoteV>,
    ix: IndexView,
    md: Seq<u8>,
    visited: Set<Seq<u8>>,
    depth: int,
    max_depth: int,
) -> Seq<u8>
    decreases depth_fuel(depth, max_depth), 3int, 0int,
{
    spec_rewrite(store, ix, md, spec_spans(md), 0, 0, visited, depth, max_depth)
}

/// The text from `cur` on, with the spans from `k` on replaced in place.
pub open spec fn spec_rewrite(
    store: Map<Seq<u8>, NoteV>,
    ix: IndexView,
    md: Seq<u8>,
    spans: Seq<SpanV>,
    k: int,
    cur: int,
    visited: Set<Seq<u8>>,
    depth: int,
    max_depth: int,
) -> Seq<u8>
    decreases depth_fuel(depth, max_depth), 2int, spans.len() - k,
{
    if k >= spans.len() {
        md.subrange(cur, md.len() as int)
    } else {
        md.subrange(cur, spans[k].start) + spec_replacement(
            store,
            ix,
            spans[k],
            visited,
            depth,
            max_depth,
        ) + spec_rewrite(store, ix, md, spans, k + 1, spans[k].end, visited, depth, max_depth)
    }
}

/// What replaces one span.  An embed of a resolved note is that note,
/// recursively expanded; a resolved wikilink becomes markdown link syntax
/// around the app-internal URL; failures become their placeholders.
pub open spec fn spec_replacement(
    store: Map<Seq<u8>, NoteV>,
    ix: IndexView,
    span: SpanV,
    visited: Set<Seq<u8>>,
    depth: int,
    max_depth: int,
) -> Seq<u8>
    decreases depth_fuel(depth, max_depth), 1int, 0int,
{
    let parsed = spec_parse_wikilink(span.inner);
    let res = spec_resolve_target(parsed, ix);
    if span.is_embed {
        match res {
            ResolveResultV::Resolved(p) => spec_expand_note(
                store,
                ix,
                p,
                visited,
                depth,
                max_depth,
            ),
            ResolveResultV::Placeholder(p) => marker_asset(p),
            ResolveResultV::NotFound => marker_not_found(parsed.target),
            ResolveResultV::Ambiguous(ps) => marker_ambiguous(parsed.target),
        }
    } else {
        let href = spec_obs_href(
            match res {
                ResolveResultV::Resolved(p) => Some(p),
                ResolveResultV::Placeholder(p) => Some(p),
                ResolveResultV::NotFound => None,
                ResolveResultV::Ambiguous(ps) => None,
            },
        );
        wikilink_md(spec_link_display(parsed), href)
    }
}

/// The display name of a path, for placeholder markers.
fn file_name_of(p: &Vec<u8>) -> (r: Vec<u8>)
    ensures
        r@ == spec_file_name(p@),
{
    proof {
        lemma_rfind_byte(p@, p@.len() as int, 47);
    }
    let sl = rfind_byte(p, p.len(), 47);
    let bstart: usize = match sl {
        Some(j) => j + 1,
        None => 0,
    };
    let b = subvec(p, bstart, p.len());
    assert(b@ =~= spec_basename(p@));
    if b.len() == 0 {
        let mut r: Vec<u8> = Vec::new();
        push_question_name(&mut r);
        assert(r@ =~= lit_question_name());
        r
    } else {
        b
    }
}

/// The asset display name of a path.
fn asset_name_of(p: &Vec<u8>) -> (r: Vec<u8>)
    ensures
        r@ == spec_asset_name(p@),
{
    proof {
        lemma_rfind_byte(p@, p@.len() as int, 47);
    }
    let sl = rfind_byte(p, p.len(), 47);
    let bstart: usize = match sl {
        Some(j) => j + 1,
        None => 0,
    };
    let b = subvec(p, bstart, p.len());
    assert(b@ =~= spec_basename(p@));
    if b.len() == 0 {
        let mut r: Vec<u8> = Vec::new();
        push_asset_name(&mut r);
        assert(r@ =~= lit_asset_name());
        r
    } else {
        b
    }
}

/// Expand one note for splicing into its embedding note; the context is
/// restored before returning.
fn get_expanded_markdown(
    path: &Vec<u8>,
    store: &NoteStore,
    index: &VaultIndex,
    ctx: &mut RenderContext,
) -> (r: Vec<u8>)
    requires
        store.wf(),
        index.wf(),
        old(ctx).wf(),
    ensures
        final(ctx).wf(),
        final(ctx)@ == old(ctx)@,
        r@ == spec_expand_note(
            store@,
            index@,
            path@,
            old(ctx)@.visited,
            old(ctx)@.depth,
            old(ctx)@.max_depth,
        ),
    decreases depth_fuel(old(ctx)@.depth, old(ctx)@.max_depth), 0int, 0int,
{
    match store.lookup(path) {
        None => {
            let mut r: Vec<u8> = Vec::new();
            push_invalid_path_marker(&mut r);
            assert(r@ =~= lit_invalid_path_marker());
            r
        },
        Some(note) => {
            if ctx.visited_contains(path) {
                let name = file_name_of(path);
                let mut r: Vec<u8> = Vec::new();
                push_embed_prefix(&mut r);
                push_all(&mut r, &name);
                push_cycle_suffix(&mut r);
                assert(r@ =~= marker_cycle(spec_file_name(path@)));
                r
            } else if ctx.depth > ctx.max_depth {
                let name = file_name_of(path);
                let mut r: Vec<u8> = Vec::new();
                push_embed_prefix(&mut r);
                push_all(&mut r, &name);
                push_depth_suffix(&mut r);
                assert(r@ =~= marker_depth(spec_file_name(path@)));
                r
            } else {
                match &note.content {
                    None => {
                        let mut r: Vec<u8> = Vec::new();
                        push_read_error_marker(&mut r);
                        assert(r@ =~= lit_read_error_marker());
                        r
                    },
                    Some(content) => {
                        let own_path = subvec(path, 0, path.len());
                        assert(own_path@ =~= path@);
                        ctx.visited_insert(own_path);
                        ctx.depth = ctx.depth + 1;
                        let out = preprocess_obsidian_links(content, store, index, ctx);
                        ctx.visited_remove(path);
                        ctx.depth = ctx.depth - 1;
                        proof {
                            assert(ctx@.visited =~= old(ctx)@.visited);
                            assert(ctx@ == old(ctx)@);
                        }
                        out
                    },
                }
            }
        },
    }
}

/// Rewrite every bracket span of a text: embeds are spliced in recursively
/// expanded, wikilinks become app-internal links, failures become inline
/// placeholders.  The context is restored before returning.
pub fn preprocess_obsidian_links(
    markdown: &Vec<u8>,
    store: &NoteStore,
    index: &VaultIndex,
    ctx: &mut RenderContext,
) -> (r: Vec<u8>)
    requires
        store.wf(),
        index.wf(),
        old(ctx).wf(),
    ensures
        final(ctx).wf(),
        final(ctx)@ == old(ctx)@,
        r@ == spec_expand_text(
            store@,
            index@,
            markdown@,
            old(ctx)@.visited,
            old(ctx)@.depth,
            old(ctx)@.max_depth,
        ),
    decreases depth_fuel(old(ctx)@.depth, old(ctx)@.max_depth), 3int, 0int,
{
    let skip = compute_skip_ranges(markdown);
    let spans = find_obsidian_spans_inner(markdown, &skip);
    proof {
        lemma_spans_from_wf(markdown@, range_views(skip@), 0);
        assert(span_views(spans@) == spec_spans(markdown@));
    }
    rewrite_spans(markdown, &spans, 0, 0, store, index, ctx)
}

/// Splice the replacements of the spans from `k` on into the text from `cur`
/// on.
fn rewrite_spans(
    md: &Vec<u8>,
    spans: &Vec<RawSpan>,
    k: usize,
    cur: usize,
    store: &NoteStore,
    index: &VaultIndex,
    ctx: &mut RenderContext,
) -> (r: Vec<u8>)
    requires
        store.wf(),
        index.wf(),
        old(ctx).wf(),
        k <= spans@.len(),
        cur <= md@.len(),
        forall|j: int|
            0 <= j < spans@.len() ==> {
                let sp = #[trigger] span_views(spans@)[j];
                0 <= sp.start && sp.start + 4 <= sp.end && sp.end <= md@.len()
            },
        forall|j: int|
            0 <= j < spans@.len() - 1 ==> (#[trigger] span_views(spans@)[j]).end <= span_views(
                spans@,
            )[j + 1].start,
        k < spans@.len() ==> cur <= span_views(spans@)[k as int].start,
    ensures
        final(ctx).wf(),
        final(ctx)@ == old(ctx)@,
        r@ == spec_rewrite(
            store@,
            index@,
            md@,
            span_views(spans@),
            k as int,
            cur as int,
            old(ctx)@.visited,
            old(ctx)@.depth,
            old(ctx)@.max_depth,
        ),
    decreases depth_fuel(old(ctx)@.depth, old(ctx)@.max_depth), 2int, spans@.len() - k,
{
    if k == spans.len() {
        subvec(md, cur, md.len())
    } else {
        let start = spans[k].start;
        let end = spans[k].end;
        let mut out = subvec(md, cur, start);
        let repl = span_replacement(&spans[k], store, index, ctx);
        push_all(&mut out, &repl);
        let rest = rewrite_spans(md, spans, k + 1, end, store, index, ctx);
        push_all(&mut out, &rest);
        out
    }
}

/// What one span is replaced with.  The context is restored before returning.
fn span_replacement(
    span: &RawSpan,
    store: &NoteStore,
    index: &VaultIndex,
    ctx: &mut RenderContext,
) -> (r: Vec<u8>)
    requires
        store.wf(),
        index.wf(),
        old(ctx).wf(),
    ensures
        final(ctx).wf(),
        final(ctx)@ == old(ctx)@,
        r@ == spec_replacement(
            store@,
            index@,
            span@,
            old(ctx)@.visited,
            old(ctx)@.depth,
            old(ctx)@.max_depth,
        ),
    decreases depth_fuel(old(ctx)@.depth, old(ctx)@.max_depth), 1int, 0int,
{
    let parsed = parse_wikilink_inner(&span.inner);
    let resolved = resolve_target(&parsed, index, &ctx.vault_root);
    if span.is_embed {
        match resolved {
            ResolveResult::Resolved(p) => get_expanded_markdown(&p, store, index, ctx),
            ResolveResult::Placeholder(p) => {
                let name = asset_name_of(&p);
                let normalized = replace_byte(&p, 92, 47);
                let mut r: Vec<u8> = Vec::new();
                push_asset_prefix(&mut r);
                push_all(&mut r, &name);
                push_asset_mid(&mut r);
                push_all(&mut r, &normalized);
                r.push(41u8);
                assert(r@ =~= marker_asset(p@));
                r
            },
            ResolveResult::NotFound => {
                let mut r: Vec<u8> = Vec::new();
                push_embed_prefix(&mut r);
                push_all(&mut r, &parsed.target);
                push_not_found_suffix(&mut r);
                assert(r@ =~= marker_not_found(parsed@.target));
                r
            },
            ResolveResult::Ambiguous(_) => {
                let mut r: Vec<u8> = Vec::new();
                push_embed_prefix(&mut r);
                push_all(&mut r, &parsed.target);
                push_ambiguous_suffix(&mut r);
                assert(r@ =~= marker_ambiguous(parsed@.target));
                r
            },
        }
    } else {
        let path_opt: Option<&Vec<u8>> = match &resolved {
            ResolveResult::Resolved(p) => Some(p),
            ResolveResult::Placeholder(p) => Some(p),
            ResolveResult::NotFound => None,
            ResolveResult::Ambiguous(_) => None,
        };
        let display = link_display_text(&parsed);
        let href = obs_link_href(path_opt);
        let mut r: Vec<u8> = Vec::new();
        r.push(91u8);
        push_all(&mut r, &display);
        r.push(93u8);
        r.push(40u8);
        push_all(&mut r, &href);
        r.push(41u8);
        assert(r@ =~= wikilink_md(display@, href@));
        r
    }
}

/// What one byte of link text or of an attribute value escapes to.
pub open spec fn esc_byte(b: u8) -> Seq<u8> {
    if b == 38 {
        crate::lit::lit_amp_ent()
    } else if b == 60 {
        crate::lit::lit_lt_ent()
    } else if b == 62 {
        crate::lit::lit_gt_ent()
    } else if b == 34 {
        crate::lit::lit_quot_ent()
    } else {
        seq![b]
    }
}

/// A text with `& < > "` escaped as entities.
pub open spec fn spec_escape(s: Seq<u8>) -> Seq<u8>
    decreases s.len(),
{
    if s.len() == 0 {
        Seq::empty()
    } else {
        spec_escape(s.drop_last()) + esc_byte(s.last())
    }
}

fn push_escaped(out: &mut Vec<u8>, s: &Vec<u8>)
    ensures
        final(out)@ == old(out)@ + spec_escape(s@),
{
    let mut i: usize = 0;
    while i < s.len()
        invariant
            i <= s.len(),
            out@ == old(out)@ + spec_escape(s@.take(i as int)),
        decreases s@.len() - i,
    {
        let ghost pre = out@;
        let b = s[i];
        if b == 38 {
            crate::lit::push_amp_ent(out);
        } else if b == 60 {
            crate::lit::push_lt_ent(out);
        } else if b == 62 {
            crate::lit::push_gt_ent(out);
        } else if b == 34 {
            crate::lit::push_quot_ent(out);
        } else {
            out.push(b);
            assert(out@ =~= pre + esc_byte(b));
        }
        proof {
            assert(s@.take(i + 1).drop_last() =~= s@.take(i as int));
            assert(s@.take(i + 1).last() == b);
        }
        i = i + 1;
    }
    proof {
        assert(s@.take(s@.len() as int) =~= s@);
    }
}

/// Escape link text for safe inclusion in markup.
fn escape_html_text(s: &Vec<u8>) -> (r: Vec<u8>)
    ensures
        r@ == spec_escape(s@),
{
    let mut out: Vec<u8> = Vec::new();
    push_escaped(&mut out, s);
    out
}

/// Escape an attribute value.
fn escape_attr(s: &Vec<u8>) -> (r: Vec<u8>)
    ensures
        r@ == spec_escape(s@),
{
    let mut out: Vec<u8> = Vec::new();
    push_escaped(&mut out, s);
    out
}

/// What replaces one recognized anchor: a broken-link span when the path
/// token is empty, else the anchor with the styling class and path attribute
/// injected.
pub open spec fn spec_anchor_piece(h: Seq<u8>, ts: int, inner_start: int, close: int, path: Seq<u8>) -> Seq<u8> {
    let inner = h.subrange(inner_start, close);
    if path.len() == 0 {
        crate::lit::lit_span_open() + spec_escape(inner) + crate::lit::lit_span_close()
    } else {
        let a_tag = h.subrange(ts, inner_start);
        let bg = spec_rfind_byte(a_tag, a_tag.len() as int, 62);
        let before_gt = if bg >= 0 {
            bg
        } else {
            a_tag.len() as int
        };
        let frag = a_tag.subrange(0, before_gt);
        let cpos = crate::strutil::spec_find_sub(frag, 0, crate::lit::lit_class_pat());
        let rebuilt = if cpos < frag.len() {
            frag.subrange(0, cpos + 7) + crate::lit::lit_obs_link_sp() + frag.subrange(
                cpos + 7,
                frag.len() as int,
            ) + crate::lit::lit_data_obs_attr() + spec_escape(path) + seq![34u8]
        } else {
            frag + crate::lit::lit_class_full_attr() + spec_escape(path) + seq![34u8]
        };
        rebuilt + a_tag.subrange(before_gt, a_tag.len() as int) + inner + crate::lit::lit_a_close()
    }
}

/// The rewritten markup from scan position `i` on, with `cur` the first
/// position not yet copied out.  Anchors whose `href` carries the app scheme
/// are rewritten; a prefix occurrence without a closing quote or without a
/// closing anchor tag ends the scan with the rest untouched.
pub open spec fn spec_post_from(h: Seq<u8>, cur: int, i: int) -> Seq<u8>
    decreases h.len() - i when 0 <= i via post_from_dec
{
    let plen = crate::lit::lit_post_prefix().len() as int;
    if i + plen > h.len() {
        h.subrange(cur, h.len() as int)
    } else if h.subrange(i, i + plen) != crate::lit::lit_post_prefix() {
        spec_post_from(h, cur, i + 1)
    } else {
        let ts0 = spec_rfind_byte(h, i, 60);
        let ts1 = if ts0 >= 0 {
            ts0
        } else {
            i
        };
        let ts = if ts1 < cur {
            cur
        } else {
            ts1
        };
        let qpos = crate::strutil::spec_find_byte(h, i + plen, 34);
        if qpos >= h.len() {
            h.subrange(cur, h.len() as int)
        } else {
            let path = h.subrange(i + plen, qpos);
            let gt = crate::strutil::spec_find_byte(h, qpos + 1, 62);
            let inner_start = if gt < h.len() {
                gt + 1
            } else {
                qpos + 1
            };
            let close = crate::strutil::spec_find_sub(h, inner_start, crate::lit::lit_a_close());
            if close >= h.len() {
                h.subrange(cur, h.len() as int)
            } else {
                h.subrange(cur, ts) + spec_anchor_piece(h, ts, inner_start, close, path)
                    + spec_post_from(h, close + 4, close + 4)
            }
        }
    }
}

#[via_fn]
proof fn post_from_dec(h: Seq<u8>, cur: int, i: int) {
    let plen = crate::lit::lit_post_prefix().len() as int;
    if 0 <= i && i + plen <= h.len() && h.subrange(i, i + plen) == crate::lit::lit_post_prefix() {
        crate::strutil::lemma_find_byte(h, i + plen, 34);
        let qpos = crate::strutil::spec_find_byte(h, i + plen, 34);
        if qpos < h.len() {
            crate::strutil::lemma_find_byte(h, qpos + 1, 62);
            let gt = crate::strutil::spec_find_byte(h, qpos + 1, 62);
            let inner_start = if gt < h.len() {
                gt + 1
            } else {
                qpos + 1
            };
            crate::strutil::lemma_find_sub(h, inner_start, crate::lit::lit_a_close());
        }
    }
}

/// The rendered markup with every app-scheme anchor decorated (a styling
/// class and a path attribute), and every app-scheme anchor whose path token
/// is empty replaced by a broken-link span around its escaped text.
pub open spec fn spec_post_html(h: Seq<u8>) -> Seq<u8> {
    spec_post_from(h, 0, 0)
}

/// Append the rewritten anchor to the output.
#[verifier::rlimit(100)]
fn emit_anchor_piece(
    out: &mut Vec<u8>,
    html: &Vec<u8>,
    ts: usize,
    inner_start: usize,
    close: usize,
    path: &Vec<u8>,
    classpat: &Vec<u8>,
)
    requires
        ts <= inner_start <= close <= html@.len(),
        path@.len() > 0 ==> path@.len() > 0,
        classpat@ == crate::lit::lit_class_pat(),
    ensures
        final(out)@ == old(out)@ + spec_anchor_piece(
            html@,
            ts as int,
            inner_start as int,
            close as int,
            path@,
        ),
{
    let ghost pre = out@;
    let inner = subvec(html, inner_start, close);
    if path.len() == 0 {
        crate::lit::push_span_open(out);
        push_escaped(out, &inner);
        crate::lit::push_span_close(out);
        proof {
            assert(out@ =~= pre + spec_anchor_piece(
                html@,
                ts as int,
                inner_start as int,
                close as int,
                path@,
            ));
        }
    } else {
        let a_tag = subvec(html, ts, inner_start);
        proof {
            crate::strutil::lemma_rfind_byte(a_tag@, a_tag@.len() as int, 62);
        }
        let bg = crate::strutil::rfind_byte(&a_tag, a_tag.len(), 62);
        let before_gt: usize = match bg {
            Some(b) => b,
            None => a_tag.len(),
        };
        let frag = subvec(&a_tag, 0, before_gt);
        proof {
            assert(frag@ =~= a_tag@.subrange(0, before_gt as int));
            crate::strutil::lemma_find_sub(frag@, 0, crate::lit::lit_class_pat());
        }
        let cpos = crate::strutil::find_sub(&frag, 0, classpat);
        if cpos < frag.len() {
            let head = subvec(&frag, 0, cpos + 7);
            let tail = subvec(&frag, cpos + 7, frag.len());
            push_all(out, &head);
            crate::lit::push_obs_link_sp(out);
            push_all(out, &tail);
            crate::lit::push_data_obs_attr(out);
            push_escaped(out, path);
            out.push(34u8);
        } else {
            push_all(out, &frag);
            crate::lit::push_class_full_attr(out);
            push_escaped(out, path);
            out.push(34u8);
        }
        let gtpart = subvec(&a_tag, before_gt, a_tag.len());
        push_all(out, &gtpart);
        push_all(out, &inner);
        crate::lit::push_a_close(out);
        proof {
            assert(gtpart@ =~= a_tag@.subrange(before_gt as int, a_tag@.len() as int));
            assert(out@ =~= pre + spec_anchor_piece(
                html@,
                ts as int,
                inner_start as int,
                close as int,
                path@,
            ));
        }
    }
}

/// Rewrite the externally rendered markup: decorate resolved app-scheme
/// links, and mark unresolved ones (an empty path token) as broken.
#[verifier::rlimit(100)]
pub fn postprocess_obsidian_html(html: &Vec<u8>) -> (r: Vec<u8>)
    ensures
        r@ == spec_post_html(html@),
{
    let mut prefix: Vec<u8> = Vec::new();
    crate::lit::push_post_prefix(&mut prefix);
    assert(prefix@ =~= crate::lit::lit_post_prefix());
    let plen = prefix.len();
    let mut aclose: Vec<u8> = Vec::new();
    crate::lit::push_a_close(&mut aclose);
    assert(aclose@ =~= crate::lit::lit_a_close());
    let mut classpat: Vec<u8> = Vec::new();
    crate::lit::push_class_pat(&mut classpat);
    assert(classpat@ =~= crate::lit::lit_class_pat());
    let mut out: Vec<u8> = Vec::new();
    let mut cur: usize = 0;
    let mut i: usize = 0;
    while html.len() - i >= plen
        invariant
            cur <= html.len(),
            i <= html.len(),
            cur <= i,
            plen == crate::lit::lit_post_prefix().len(),
            prefix@ == crate::lit::lit_post_prefix(),
            aclose@ == crate::lit::lit_a_close(),
            classpat@ == crate::lit::lit_class_pat(),
            out@ + spec_post_from(html@, cur as int, i as int) == spec_post_html(html@),
        decreases html@.len() - i,
    {
        if !crate::strutil::check_match_at(html, i, &prefix) {
            proof {
                assert(html@.subrange(i as int, i + plen) != crate::lit::lit_post_prefix());
            }
            i = i + 1;
        } else {
            proof {
                assert(html@.subrange(i as int, i + plen) == crate::lit::lit_post_prefix());
                crate::strutil::lemma_rfind_byte(html@, i as int, 60);
                crate::strutil::lemma_find_byte(html@, i + plen, 34);
            }
            let ts0 = crate::strutil::rfind_byte(html, i, 60);
            let ts1: usize = match ts0 {
                Some(t) => t,
                None => i,
            };
            let ts: usize = if ts1 < cur {
                cur
            } else {
                ts1
            };
            let qpos = crate::strutil::find_byte(html, i + plen, 34);
            if qpos >= html.len() {
                i = html.len();
            } else {
                let path = subvec(html, i + plen, qpos);
                proof {
                    crate::strutil::lemma_find_byte(html@, qpos + 1, 62);
                }
                let gt = crate::strutil::find_byte(html, qpos + 1, 62);
                let inner_start: usize = if gt < html.len() {
                    gt + 1
                } else {
                    qpos + 1
                };
                proof {
                    crate::strutil::lemma_find_sub(html@, inner_start as int, crate::lit::lit_a_close());
                }
                let close = crate::strutil::find_sub(html, inner_start, &aclose);
                if close >= html.len() {
                    i = html.len();
                } else {
                    let ghost pre = out@;
                    // copy out the untouched text before the anchor
                    let before = subvec(html, cur, ts);
                    push_all(&mut out, &before);
                    emit_anchor_piece(&mut out, html, ts, inner_start, close, &path, &classpat);
                    proof {
                        assert(out@ =~= pre + html@.subrange(cur as int, ts as int)
                            + spec_anchor_piece(
                            html@,
                            ts as int,
                            inner_start as int,
                            close as int,
                            path@,
                        ));
                    }
                    cur = close + 4;
                    i = close + 4;
                }
            }
        }
    }
    let rest = subvec(html, cur, html.len());
    push_all(&mut out, &rest);
    proof {
        assert(spec_post_from(html@, cur as int, i as int) == html@.subrange(
            cur as int,
            html@.len() as int,
        ));
        assert(out@ =~= spec_post_html(html@));
    }
    out
}

/// A note already on the expansion stack never expands again: it becomes the
/// cycle placeholder, whatever its content, so mutual embeds cannot recurse.
pub proof fn lemma_cycle_guard(
    store: Map<Seq<u8>, NoteV>,
    ix: IndexView,
    path: Seq<u8>,
    visited: Set<Seq<u8>>,
    depth: int,
    max_depth: int,
)
    requires
        store.contains_key(path),
        visited.contains(path),
    ensures
        spec_expand_note(store, ix, path, visited, depth, max_depth) == marker_cycle(
            spec_file_name(path),
        ),
{
}

/// Past the depth ceiling, a note off the stack becomes the depth-limit
/// placeholder: the ceiling bounds the work even on an acyclic chain.
pub proof fn lemma_depth_guard(
    store: Map<Seq<u8>, NoteV>,
    ix: IndexView,
    path: Seq<u8>,
    visited: Set<Seq<u8>>,
    depth: int,
    max_depth: int,
)
    requires
        store.contains_key(path),
        !visited.contains(path),
        depth > max_depth,
    ensures
        spec_expand_note(store, ix, path, visited, depth, max_depth) == marker_depth(
            spec_file_name(path),
        ),
{
}

/// What a text expands to when only its embed spans are rewritten and plain
/// wikilinks are left alone.
pub open spec fn spec_expand_embeds(
    store: Map<Seq<u8>, NoteV>,
    ix: IndexView,
    md: Seq<u8>,
    visited: Set<Seq<u8>>,
    depth: int,
    max_depth: int,
) -> Seq<u8> {
    spec_rewrite(
        store,
        ix,
        md,
        crate::parse::embeds_only(spec_spans(md)),
        0,
        0,
        visited,
        depth,
        max_depth,
    )
}

/// Rewrite only the embed spans of a text, leaving plain wikilinks as they
/// stand.  The context is restored before returning.
pub fn expand_embeds(
    markdown: &Vec<u8>,
    store: &NoteStore,
    index: &VaultIndex,
    ctx: &mut RenderContext,
) -> (r: Vec<u8>)
    requires
        store.wf(),
        index.wf(),
        old(ctx).wf(),
    ensures
        final(ctx).wf(),
        final(ctx)@ == old(ctx)@,
        r@ == spec_expand_embeds(
            store@,
            index@,
            markdown@,
            old(ctx)@.visited,
            old(ctx)@.depth,
            old(ctx)@.max_depth,
        ),
{
    let skip = compute_skip_ranges(markdown);
    let spans = find_obsidian_spans_inner(markdown, &skip);
    let ghost all = span_views(spans@);
    proof {
        lemma_spans_from_wf(markdown@, range_views(skip@), 0);
        assert(all == spec_spans(markdown@));
    }
    let mut emb: Vec<RawSpan> = Vec::new();
    let mut i: usize = 0;
    while i < spans.len()
        invariant
            i <= spans.len(),
            all == span_views(spans@),
            span_views(emb@) == crate::parse::embeds_only(all.take(i as int)),
        decreases spans@.len() - i,
    {
        let ghost pre = emb@;
        proof {
            assert(all.take(i + 1).drop_last() =~= all.take(i as int));
            assert(all.take(i + 1).last() == spans@[i as int]@);
        }
        if spans[i].is_embed {
            let sp = RawSpan {
                is_embed: true,
                start: spans[i].start,
                end: spans[i].end,
                inner: subvec(&spans[i].inner, 0, spans[i].inner.len()),
            };
            emb.push(sp);
            proof {
                assert(sp.inner@ =~= spans@[i as int].inner@);
                assert(sp@ == spans@[i as int]@);
                assert(span_views(emb@) =~= span_views(pre).push(sp@));
            }
        }
        i = i + 1;
    }
    proof {
        assert(all.take(i as int) =~= all);
        let f = span_views(emb@);
        crate::parse::lemma_spans_pairwise(all);
        crate::parse::lemma_embeds_only_sub(all);
        crate::parse::lemma_embeds_only_ordered(all);
        assert forall|j: int|
            0 <= j < f.len() implies {
            let sp = #[trigger] f[j];
            0 <= sp.start && sp.start + 4 <= sp.end && sp.end <= markdown@.len()
        } by {
            let w = choose|w: int| 0 <= w < all.len() && f[j] == #[trigger] all[w];
        }
    }
    rewrite_spans(markdown, &emb, 0, 0, store, index, ctx)
}

/// The markup one top-level render produces: the recursively expanded note
/// (starting with an empty stack at depth zero) rendered by the external
/// renderer and postprocessed; for an unknown path, the rendered invalid-path
/// placeholder, not postprocessed.
pub open spec fn spec_render_markup(
    store: Map<Seq<u8>, NoteV>,
    ix: IndexView,
    path: Seq<u8>,
    max_depth: int,
) -> Seq<u8> {
    if !store.contains_key(path) {
        html_of(lit_invalid_path_marker())
    } else {
        spec_post_html(
            html_of(
                spec_expand_note(store, ix, path, Set::<Seq<u8>>::empty(), 0, max_depth),
            ),
        )
    }
}

/// One render call as a transition on the cache: an unknown path renders a
/// placeholder and leaves the cache alone; a known path is probed under its
/// current mtime, a hit returning the cached markup, a miss rendering anew
/// and storing the result.
pub open spec fn spec_render_step(
    c: crate::cache::CacheView,
    store: Map<Seq<u8>, NoteV>,
    ix: IndexView,
    path: Seq<u8>,
    max_depth: int,
) -> (Seq<u8>, crate::cache::CacheView) {
    if !store.contains_key(path) {
        (html_of(lit_invalid_path_marker()), c)
    } else {
        let mt = store[path].mtime;
        if crate::cache::spec_cache_hit(c, path, mt) {
            (
                crate::cache::spec_cache_hit_html(c, path),
                crate::cache::spec_cache_after_get(c, path, mt),
            )
        } else {
            let html = spec_render_markup(store, ix, path, max_depth);
            (
                html,
                crate::cache::spec_cache_after_insert(
                    crate::cache::spec_cache_after_get(c, path, mt),
                    path,
                    mt,
                    html,
                ),
            )
        }
    }
}

/// Render one note to final markup: expand its references recursively, run
/// the external renderer once, decorate the anchors, and serve repeats of an
/// unchanged file from the cache.
pub fn render_markdown_with_embeds(
    path: &Vec<u8>,
    store: &NoteStore,
    index: &VaultIndex,
    cache: &mut RenderCache,
    ctx: &mut RenderContext,
) -> (r: Vec<u8>)
    requires
        store.wf(),
        index.wf(),
        old(cache).wf(),
        old(ctx).wf(),
        old(ctx).depth == 0,
        old(ctx).visited@.len() == 0,
    ensures
        final(cache).wf(),
        final(ctx).wf(),
        final(ctx)@ == old(ctx)@,
        final(ctx).visited@.len() == 0,
        final(ctx).depth == old(ctx).depth,
        r@ == spec_render_step(old(cache)@, store@, index@, path@, old(ctx)@.max_depth).0,
        final(cache)@ == spec_render_step(
            old(cache)@,
            store@,
            index@,
            path@,
            old(ctx)@.max_depth,
        ).1,
{
    proof {
        assert(old(ctx)@.visited =~= Set::<Seq<u8>>::empty());
    }
    let mtime: u64;
    match store.lookup(path) {
        None => {
            let mut m: Vec<u8> = Vec::new();
            push_invalid_path_marker(&mut m);
            assert(m@ =~= lit_invalid_path_marker());
            return render_markdown_safe(&m);
        },
        Some(note) => {
            mtime = note.mtime;
        },
    }
    match cache.get(path, mtime) {
        Some(html) => html,
        None => {
            let expanded = get_expanded_markdown(path, store, index, ctx);
            proof {
                if ctx.visited@.len() > 0 {
                    assert((ctx.visited@[0])@ == (ctx.visited@[0])@);
                    assert(ctx@.visited.contains(ctx.visited@[0]@));
                    assert(false);
                }
            }
            let raw = render_markdown_safe(&expanded);
            let html = postprocess_obsidian_html(&raw);
            let key = subvec(path, 0, path.len());
            let stored = subvec(&html, 0, html.len());
            proof {
                assert(key@ =~= path@);
                assert(stored@ =~= html@);
            }
            cache.insert(key, mtime, stored);
            html
        },
    }
}

/// Rendering the same unchanged note twice yields byte-identical markup, and
/// the second call is served from the cache: it hits (stepping the hit
/// counter) and returns exactly what the first call produced.
pub proof fn lemma_render_unchanged_twice(
    c0: crate::cache::CacheView,
    store: Map<Seq<u8>, NoteV>,
    ix: IndexView,
    path: Seq<u8>,
    max_depth: int,
)
    requires
        crate::cache::cache_keys_unique(c0.order),
        store.contains_key(path),
    ensures
        ({
            let (h1, c1) = spec_render_step(c0, store, ix, path, max_depth);
            let (h2, c2) = spec_render_step(c1, store, ix, path, max_depth);
            &&& h2 == h1
            &&& crate::cache::spec_cache_hit(c1, path, store[path].mtime)
            &&& c2.hits == crate::cache::bump(c1.hits)
            &&& crate::cache::cache_keys_unique(c2.order)
        }),
{
    let mt = store[path].mtime;
    let (h1, c1) = spec_render_step(c0, store, ix, path, max_depth);
    if crate::cache::spec_cache_hit(c0, path, mt) {
        crate::cache::lemma_after_get_hit(c0, path, mt);
    } else {
        let cg = crate::cache::spec_cache_after_get(c0, path, mt);
        assert(cg.order == c0.order);
        crate::cache::lemma_after_insert_hit(cg, path, mt, h1);
    }
    assert(crate::cache::spec_cache_hit(c1, path, mt));
    assert(crate::cache::spec_cache_hit_html(c1, path) == h1);
    crate::cache::lemma_after_get_hit(c1, path, mt);
}

/// When the cache holds nothing current for the note, the rendered markup is
/// a function of the vault's content and index alone: any two render calls
/// that miss produce the same bytes, whatever each cache held.
pub proof fn lemma_render_miss_deterministic(
    ca: crate::cache::CacheView,
    cb: crate::cache::CacheView,
    store: Map<Seq<u8>, NoteV>,
    ix: IndexView,
    path: Seq<u8>,
    max_depth: int,
)
    requires
        store.contains_key(path),
        !crate::cache::spec_cache_hit(ca, path, store[path].mtime),
        !crate::cache::spec_cache_hit(cb, path, store[path].mtime),
    ensures
        spec_render_step(ca, store, ix, path, max_depth).0 == spec_render_step(
            cb,
            store,
            ix,
            path,
            max_depth,
        ).0,
{
}

} // verus!
