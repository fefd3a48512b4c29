//! End-to-end tests of resolution, expansion, rendering and postprocessing
//! over an in-memory vault.

use obsidian_embed::cache::RenderCache;
use obsidian_embed::index::VaultEntry;
use obsidian_embed::index::VaultIndex;
use obsidian_embed::parse::obs_link_href;
use obsidian_embed::parse::parse_embed_syntax;
use obsidian_embed::parse::parse_wikilink_inner;
use obsidian_embed::render::RenderContext;
use obsidian_embed::render::postprocess_obsidian_html;
use obsidian_embed::render::render_markdown_with_embeds;
use obsidian_embed::resolve::ResolveResult;
use obsidian_embed::resolve::resolve_target;
use obsidian_embed::store::NoteStore;

/// Build an index and a note store for a vault of (relative path, content)
/// pairs, every file carrying the same mtime.
fn vault(files: &[(&str, &str)]) -> (VaultIndex, NoteStore, Vec<u8>) {
    let root = b"/vault".to_vec();
    let mut entries: Vec<VaultEntry> = Vec::new();
    let mut store = NoteStore::new();
    for (rel, content) in files {
        let canonical = format!("/vault/{}", rel).into_bytes();
        entries.push(VaultEntry { rel: rel.as_bytes().to_vec(), canonical: canonical.clone() });
        store.add(canonical, 1, Some(content.as_bytes().to_vec()));
    }
    (VaultIndex::build_index(&entries), store, root)
}

fn render(path: &str, index: &VaultIndex, store: &NoteStore, cache: &mut RenderCache) -> String {
    let mut ctx = RenderContext::new(b"/vault".to_vec(), 5);
    let html = render_markdown_with_embeds(
        &path.as_bytes().to_vec(),
        store,
        index,
        cache,
        &mut ctx,
    );
    String::from_utf8(html).unwrap()
}

#[test]
fn mod_resolve_rel_path_and_basename() {
    let (index, _store, root) = vault(&[("a.md", "# A"), ("sub/b.md", "# B")]);

    let p_a = parse_wikilink_inner(&b"a".to_vec());
    let res_a = resolve_target(&p_a, &index, &root);
    assert!(matches!(&res_a, ResolveResult::Resolved(p) if p == &b"/vault/a.md".to_vec()));

    let p_sub_b = parse_wikilink_inner(&b"sub/b".to_vec());
    let res_b = resolve_target(&p_sub_b, &index, &root);
    assert!(matches!(&res_b, ResolveResult::Resolved(p) if p == &b"/vault/sub/b.md".to_vec()));

    let p_basename_b = parse_wikilink_inner(&b"b".to_vec());
    let res_b2 = resolve_target(&p_basename_b, &index, &root);
    assert!(matches!(&res_b2, ResolveResult::Resolved(p) if p == &b"/vault/sub/b.md".to_vec()));
}

#[test]
fn mod_resolve_deterministic_when_duplicate_basename() {
    let (index, _store, root) = vault(&[
        ("a.md", "# A1"),
        ("foo/a.md", "# A2"),
        ("foo/bar/a.md", "# A3"),
    ]);
    let p = parse_wikilink_inner(&b"a".to_vec());
    let res = resolve_target(&p, &index, &root);
    let path = match &res {
        ResolveResult::Resolved(p) => p.clone(),
        _ => panic!("expected Resolved"),
    };
    // deterministic: the lexicographically first canonical path wins
    assert_eq!(path, b"/vault/a.md".to_vec());
    let res2 = resolve_target(&p, &index, &root);
    assert!(matches!(&res2, ResolveResult::Resolved(p2) if *p2 == path));
}

#[test]
fn mod_resolve_not_found() {
    let entries: Vec<VaultEntry> = Vec::new();
    let index = VaultIndex::build_index(&entries);
    let root = b"/vault".to_vec();
    let p = parse_wikilink_inner(&b"Nonexistent".to_vec());
    let res = resolve_target(&p, &index, &root);
    assert!(matches!(res, ResolveResult::NotFound));
}

#[test]
fn obsidian_embed_resolve_not_found() {
    let entries: Vec<VaultEntry> = Vec::new();
    let index = VaultIndex::build_index(&entries);
    let root = b"/vault".to_vec();
    let p = parse_wikilink_inner(&b"Nonexistent".to_vec());
    let res = resolve_target(&p, &index, &root);
    assert!(matches!(res, ResolveResult::NotFound));
}

#[test]
fn mod_expand_single_embed() {
    let (index, store, _root) = vault(&[
        ("A.md", "Before\n\n![[B]]\n\nAfter"),
        ("B.md", "# B"),
    ]);
    let mut cache = RenderCache::default();
    let html = render("/vault/A.md", &index, &store, &mut cache);
    assert!(html.contains("<h1>"), "expected h1 in {}", html);
    assert!(html.contains("B"), "expected B content in {}", html);
    assert!(html.contains("Before"), "expected Before in {}", html);
    assert!(html.contains("After"), "expected After in {}", html);
}

#[test]
fn mod_expand_nested_embed() {
    let (index, store, _root) = vault(&[
        ("A.md", "A ![[B]]"),
        ("B.md", "B ![[C]]"),
        ("C.md", "# C"),
    ]);
    let mut cache = RenderCache::default();
    let html = render("/vault/A.md", &index, &store, &mut cache);
    assert!(html.contains("A "), "{}", html);
    assert!(html.contains("B "), "{}", html);
    assert!(html.contains("C"), "{}", html);
}

#[test]
fn mod_expand_cycle_detection() {
    let (index, store, _root) = vault(&[("A.md", "A ![[B]]"), ("B.md", "B ![[A]]")]);
    let mut cache = RenderCache::default();
    let html = render("/vault/A.md", &index, &store, &mut cache);
    assert!(html.contains("A "), "{}", html);
    assert!(html.contains("B "), "{}", html);
    assert!(html.contains("cycle"), "expected cycle placeholder in {}", html);
}

#[test]
fn mod_expand_depth_limit() {
    let (index, store, _root) = vault(&[
        ("0.md", "0 ![[1]]"),
        ("1.md", "1 ![[2]]"),
        ("2.md", "2 ![[3]]"),
        ("3.md", "3 ![[4]]"),
        ("4.md", "4 ![[5]]"),
        ("5.md", "# Five"),
    ]);
    let mut cache = RenderCache::default();
    let mut ctx = RenderContext::new(b"/vault".to_vec(), 3);
    let html = render_markdown_with_embeds(
        &b"/vault/0.md".to_vec(),
        &store,
        &index,
        &mut cache,
        &mut ctx,
    );
    let html = String::from_utf8(html).unwrap();
    assert!(html.contains("depth limit"), "expected depth limit placeholder in {}", html);
}

#[test]
fn mod_wikilink_renders_as_link_no_raw_brackets() {
    let (index, store, _root) = vault(&[("Note.md", "# Note"), ("A.md", "See [[Note]] here")]);
    let mut cache = RenderCache::default();
    let html = render("/vault/A.md", &index, &store, &mut cache);
    assert!(!html.contains("[[Note]]"), "wikilink should be replaced, no raw [[Note]] in {}", html);
    assert!(html.contains("app://open?path="), "expected app link in {}", html);
    assert!(html.contains("obs-link") || html.contains("href="), "expected link styling or href");
}

#[test]
fn mod_wikilink_broken_renders_as_broken_or_empty_path() {
    let (index, store, _root) = vault(&[("A.md", "See [[Missing]] here")]);
    let mut cache = RenderCache::default();
    let html = render("/vault/A.md", &index, &store, &mut cache);
    assert!(!html.contains("[[Missing]]"), "broken wikilink should be replaced");
    let has_broken = html.contains("obs-link broken") || html.contains("app://open?path=\"\"")
        || (html.contains("app://open?path=") && html.contains("Missing"));
    assert!(has_broken, "expected broken link marker in {}", html);
}

#[test]
fn mod_embed_no_literal_in_html() {
    let (index, store, _root) = vault(&[("B.md", "# B"), ("A.md", "Before ![[B]] After")]);
    let mut cache = RenderCache::default();
    let html = render("/vault/A.md", &index, &store, &mut cache);
    assert!(!html.contains("![["), "embed syntax must not appear in output HTML");
}

#[test]
fn mod_normal_markdown_link_unchanged() {
    let (index, store, _root) = vault(&[("A.md", "Link: [text](https://x.com)")]);
    let mut cache = RenderCache::default();
    let html = render("/vault/A.md", &index, &store, &mut cache);
    assert!(html.contains("https://x.com"), "normal markdown link href should be preserved: {}", html);
}

#[test]
fn mod_wikilink_inside_inline_code_not_replaced() {
    let (index, store, _root) = vault(&[("Note.md", "# Note"), ("A.md", "Code: `[[Link]]` end")]);
    let mut cache = RenderCache::default();
    let html = render("/vault/A.md", &index, &store, &mut cache);
    assert!(html.contains("[[Link]]"), "[[Link]] inside inline code should remain literal: {}", html);
}

#[test]
fn mod_cache_hit_when_mtime_unchanged() {
    let (index, store, _root) = vault(&[("x.md", "# X")]);
    let mut cache = RenderCache::default();
    let html1 = render("/vault/x.md", &index, &store, &mut cache);
    let html2 = render("/vault/x.md", &index, &store, &mut cache);
    assert_eq!(html1, html2);
    assert!(html1.contains("X"));
    let (_, _, hits, misses) = cache.get_stats();
    assert_eq!(hits, 1, "second render must be served from the cache");
    assert_eq!(misses, 1);
}

#[test]
fn mod_cache_invalidates_when_mtime_changes() {
    let (index, mut store, _root) = vault(&[("y.md", "# Y1")]);
    let mut cache = RenderCache::default();
    let html1 = render("/vault/y.md", &index, &store, &mut cache);
    assert!(html1.contains("Y1"));

    store.add(b"/vault/y.md".to_vec(), 2, Some(b"# Y2".to_vec()));

    let html2 = render("/vault/y.md", &index, &store, &mut cache);
    assert!(html2.contains("Y2"));
    assert!(!html2.contains("Y1"));
}

#[test]
fn embed_not_found_placeholder_text() {
    let (index, store, _root) = vault(&[("A.md", "x ![[Missing]] y")]);
    let mut cache = RenderCache::default();
    let html = render("/vault/A.md", &index, &store, &mut cache);
    assert!(html.contains("[Embed: Missing (not found)]"), "expected exact marker in {}", html);
}

#[test]
fn unreadable_note_gives_read_error_placeholder() {
    let root = b"/vault".to_vec();
    let entries = vec![
        VaultEntry { rel: b"A.md".to_vec(), canonical: b"/vault/A.md".to_vec() },
        VaultEntry { rel: b"B.md".to_vec(), canonical: b"/vault/B.md".to_vec() },
    ];
    let index = VaultIndex::build_index(&entries);
    let mut store = NoteStore::new();
    store.add(b"/vault/A.md".to_vec(), 1, Some(b"a ![[B]] z".to_vec()));
    store.add(b"/vault/B.md".to_vec(), 1, None);
    let mut cache = RenderCache::default();
    let mut ctx = RenderContext::new(root, 5);
    let html = render_markdown_with_embeds(
        &b"/vault/A.md".to_vec(),
        &store,
        &index,
        &mut cache,
        &mut ctx,
    );
    let html = String::from_utf8(html).unwrap();
    assert!(html.contains("[Embed: read error]"), "{}", html);
}

#[test]
fn unknown_top_level_path_gives_invalid_path_placeholder() {
    let (index, store, _root) = vault(&[("A.md", "# A")]);
    let mut cache = RenderCache::default();
    let html = render("/vault/absent.md", &index, &store, &mut cache);
    assert!(html.contains("[Embed: invalid path]"), "{}", html);
    let (count, _, _, _) = cache.get_stats();
    assert_eq!(count, 0, "a failed render is not cached");
}

#[test]
fn multibyte_text_keeps_byte_offsets() {
    // a two-byte character before the span shifts all offsets by one byte
    let spans = parse_embed_syntax(&"é ![[N]]".as_bytes().to_vec());
    assert_eq!(spans.len(), 1);
    assert_eq!(spans[0].start, 3);
    assert_eq!(spans[0].end, 9);
    assert_eq!(spans[0].raw_inner, b"N".to_vec());
}

#[test]
fn percent_encoding_exact() {
    let h = obs_link_href(Some(&b"/v/My Note#1.md".to_vec()));
    assert_eq!(
        String::from_utf8(h).unwrap(),
        "app://open?path=/v/My%20Note%231.md"
    );
}

#[test]
fn postprocess_decorates_resolved_anchor() {
    let input = br#"<p><a href="app://open?path=/v/a.md">a</a></p>"#.to_vec();
    let out = String::from_utf8(postprocess_obsidian_html(&input)).unwrap();
    assert_eq!(
        out,
        r#"<p><a href="app://open?path=/v/a.md" class="obs-link" data-obs-path="/v/a.md">a</a></p>"#
    );
}

#[test]
fn postprocess_merges_existing_class() {
    let input = br#"<a class="x" href="app://open?path=/v/a.md">a</a>"#.to_vec();
    let out = String::from_utf8(postprocess_obsidian_html(&input)).unwrap();
    assert_eq!(
        out,
        r#"<a class="obs-link x" href="app://open?path=/v/a.md" data-obs-path="/v/a.md">a</a>"#
    );
}

#[test]
fn postprocess_marks_unresolved_anchor_broken() {
    let input = br#"<p><a href="app://open?path=">Missing</a></p>"#.to_vec();
    let out = String::from_utf8(postprocess_obsidian_html(&input)).unwrap();
    assert_eq!(out, r#"<p><span class="obs-link broken">Missing</span></p>"#);
}

#[test]
fn postprocess_escapes_attribute_value() {
    let input = br#"<a href="app://open?path=/v/a&b.md">t</a>"#.to_vec();
    let out = String::from_utf8(postprocess_obsidian_html(&input)).unwrap();
    assert!(out.contains(r#"data-obs-path="/v/a&amp;b.md""#), "{}", out);
}

#[test]
fn pipeline_idempotent_on_unchanged_vault() {
    let (index, store, _root) = vault(&[("A.md", "A ![[B]] [[C]]"), ("B.md", "# B"), ("C.md", "# C")]);
    let mut cache1 = RenderCache::default();
    let first = render("/vault/A.md", &index, &store, &mut cache1);
    let mut cache2 = RenderCache::default();
    let second = render("/vault/A.md", &index, &store, &mut cache2);
    assert_eq!(first, second, "the pipeline is deterministic over an unchanged vault");
}

#[test]
fn sibling_embeds_of_same_note_both_expand() {
    let (index, store, _root) = vault(&[("A.md", "![[B]] mid ![[B]]"), ("B.md", "bee")]);
    let mut cache = RenderCache::default();
    let html = render("/vault/A.md", &index, &store, &mut cache);
    assert!(!html.contains("cycle"), "siblings are not a cycle: {}", html);
    assert_eq!(html.matches("bee").count(), 2, "{}", html);
}
