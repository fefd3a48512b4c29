//! Tests of the span scanner, the reference splitter, and link text
//! rendering, on byte-level inputs.

use obsidian_embed::parse::HeadingOrBlock;
use obsidian_embed::parse::ParsedLink;
use obsidian_embed::parse::link_display_text;
use obsidian_embed::parse::obs_link_href;
use obsidian_embed::parse::parse_embed_syntax;
use obsidian_embed::parse::parse_wikilink_inner;

#[test]
fn mod_parse_embed_syntax_simple() {
    let spans = parse_embed_syntax(&b"![[Note]]".to_vec());
    assert_eq!(spans.len(), 1);
    assert_eq!(spans[0].start, 0);
    assert_eq!(spans[0].end, 9);
    assert_eq!(spans[0].raw_inner, b"Note".to_vec());
}

#[test]
fn mod_parse_embed_syntax_path() {
    let spans = parse_embed_syntax(&b"![[path/to/Note]]".to_vec());
    assert_eq!(spans.len(), 1);
    assert_eq!(spans[0].raw_inner, b"path/to/Note".to_vec());
}

#[test]
fn mod_parse_embed_syntax_heading() {
    let spans = parse_embed_syntax(&b"![[Note#H]]".to_vec());
    assert_eq!(spans.len(), 1);
    assert_eq!(spans[0].raw_inner, b"Note#H".to_vec());
}

#[test]
fn mod_parse_embed_syntax_block() {
    let spans = parse_embed_syntax(&b"![[Note^abc]]".to_vec());
    assert_eq!(spans.len(), 1);
    assert_eq!(spans[0].raw_inner, b"Note^abc".to_vec());
}

#[test]
fn mod_parse_embed_syntax_alias() {
    let spans = parse_embed_syntax(&b"![[Note|Alias]]".to_vec());
    assert_eq!(spans.len(), 1);
    assert_eq!(spans[0].raw_inner, b"Note|Alias".to_vec());
}

#[test]
fn mod_parse_embed_syntax_multiple() {
    let spans = parse_embed_syntax(&b"a ![[A]] b ![[B]] c".to_vec());
    assert_eq!(spans.len(), 2);
    assert_eq!(spans[0].raw_inner, b"A".to_vec());
    assert_eq!(spans[1].raw_inner, b"B".to_vec());
}

#[test]
fn mod_parse_embed_syntax_no_trailing_ignored() {
    let spans = parse_embed_syntax(&b"![[Note".to_vec());
    assert_eq!(spans.len(), 0);
}

#[test]
fn mod_parse_embed_syntax_skipped_inside_code_block() {
    let md = b"```\n![[Link]]\n```".to_vec();
    let spans = parse_embed_syntax(&md);
    assert_eq!(spans.len(), 0, "![[Link]] inside fenced code block should be skipped");
}

#[test]
fn mod_parse_embed_syntax_skipped_inside_inline_code() {
    let spans = parse_embed_syntax(&b"text `![[x]]` more".to_vec());
    assert_eq!(spans.len(), 0, "![[x]] inside inline code should be skipped");
}

#[test]
fn mod_link_display_text_alias() {
    let p = ParsedLink {
        target: b"path/to/Note".to_vec(),
        subtarget: None,
        alias: Some(b"My Alias".to_vec()),
    };
    assert_eq!(link_display_text(&p), b"My Alias".to_vec());
}

#[test]
fn mod_link_display_text_basename() {
    let p = ParsedLink {
        target: b"path/to/Note".to_vec(),
        subtarget: None,
        alias: None,
    };
    assert_eq!(link_display_text(&p), b"Note".to_vec());
}

#[test]
fn mod_link_display_text_heading() {
    let p = ParsedLink {
        target: b"Note".to_vec(),
        subtarget: Some(HeadingOrBlock::Heading(b"H".to_vec())),
        alias: None,
    };
    assert_eq!(link_display_text(&p), b"Note#H".to_vec());
}

#[test]
fn mod_obs_link_href_resolved() {
    let p = b"/vault/Note.md".to_vec();
    let h = String::from_utf8(obs_link_href(Some(&p))).unwrap();
    assert!(h.starts_with("app://open?path="));
    assert!(h.contains("Note"));
}

#[test]
fn mod_obs_link_href_empty() {
    assert_eq!(obs_link_href(None), b"app://open?path=".to_vec());
}

#[test]
fn mod_parse_wikilink_inner_note() {
    let p = parse_wikilink_inner(&b"Note".to_vec());
    assert_eq!(p.target, b"Note".to_vec());
    assert!(p.subtarget.is_none());
    assert!(p.alias.is_none());
}

#[test]
fn mod_parse_wikilink_inner_path() {
    let p = parse_wikilink_inner(&b"path/to/Note".to_vec());
    assert_eq!(p.target, b"path/to/Note".to_vec());
    assert!(p.subtarget.is_none());
    assert!(p.alias.is_none());
}

#[test]
fn mod_parse_wikilink_inner_heading() {
    let p = parse_wikilink_inner(&b"Note#H".to_vec());
    assert_eq!(p.target, b"Note".to_vec());
    assert!(matches!(&p.subtarget, Some(HeadingOrBlock::Heading(h)) if *h == b"H".to_vec()));
    assert!(p.alias.is_none());
}

#[test]
fn mod_parse_wikilink_inner_block() {
    let p = parse_wikilink_inner(&b"Note^abc".to_vec());
    assert_eq!(p.target, b"Note".to_vec());
    assert!(matches!(&p.subtarget, Some(HeadingOrBlock::Block(b)) if *b == b"abc".to_vec()));
    assert!(p.alias.is_none());
}

#[test]
fn mod_parse_wikilink_inner_alias() {
    let p = parse_wikilink_inner(&b"Note|Alias".to_vec());
    assert_eq!(p.target, b"Note".to_vec());
    assert!(p.subtarget.is_none());
    assert_eq!(p.alias, Some(b"Alias".to_vec()));
}

#[test]
fn mod_parse_wikilink_inner_heading_and_alias() {
    let p = parse_wikilink_inner(&b"Note#H|Alias".to_vec());
    assert_eq!(p.target, b"Note".to_vec());
    assert!(matches!(&p.subtarget, Some(HeadingOrBlock::Heading(h)) if *h == b"H".to_vec()));
    assert_eq!(p.alias, Some(b"Alias".to_vec()));
}
