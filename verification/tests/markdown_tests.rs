//! Tests that run the external markdown renderer through the library.

use obsidian_embed::markdown::render_markdown_safe;
use obsidian_embed::wiki::pick_initial_note;
use obsidian_embed::wiki::tree_order_le;

fn rendered(md: &str) -> String {
    String::from_utf8(render_markdown_safe(&md.as_bytes().to_vec())).unwrap()
}

#[test]
fn heading_becomes_h1() {
    let html = rendered("# Hi");
    assert!(html.contains("<h1>"), "expected h1 in {}", html);
    assert!(html.contains("Hi"), "expected content in {}", html);
}

#[test]
fn link_has_href() {
    let html = rendered("[text](https://example.com)");
    assert!(html.contains("href"), "expected href in {}", html);
    assert!(html.contains("https://example.com"), "expected url in {}", html);
}

#[test]
fn image_has_src() {
    let html = rendered("![alt](img.png)");
    assert!(html.contains("<img"), "expected img in {}", html);
    assert!(html.contains("src"), "expected src in {}", html);
    assert!(html.contains("img.png"), "expected path in {}", html);
}

#[test]
fn code_inline_wrapped_in_code() {
    let html = rendered("use `foo` here");
    assert!(html.contains("<code>"), "expected code in {}", html);
    assert!(html.contains("foo"), "expected content in {}", html);
}

#[test]
fn code_block_has_pre() {
    let html = rendered("```\nfn main() {}\n```");
    assert!(html.contains("<pre>"), "expected pre in {}", html);
    assert!(html.contains("<code>"), "expected code in {}", html);
}

#[test]
fn unsafe_html_escaped() {
    let html = rendered("<script>alert(1)</script>");
    assert!(!html.contains("<script>"), "raw script must not appear: {}", html);
}

#[test]
fn initial_note_prefers_index_name() {
    let names = vec![b"b.md".to_vec(), b"index.md".to_vec(), b"a.md".to_vec()];
    assert_eq!(pick_initial_note(&names), Some(1));
}

#[test]
fn initial_note_first_by_name_without_index() {
    let names = vec![b"z.md".to_vec(), b"a.md".to_vec()];
    assert_eq!(pick_initial_note(&names), Some(1));
}

#[test]
fn initial_note_none_when_empty() {
    let names: Vec<Vec<u8>> = Vec::new();
    assert_eq!(pick_initial_note(&names), None);
}

#[test]
fn tree_order_directories_first() {
    assert!(tree_order_le(true, &b"zzz".to_vec(), false, &b"aaa.md".to_vec()));
    assert!(!tree_order_le(false, &b"aaa.md".to_vec(), true, &b"zzz".to_vec()));
}

#[test]
fn tree_order_readme_first_among_files() {
    assert!(tree_order_le(false, &b"README.md".to_vec(), false, &b"aaa.md".to_vec()));
    assert!(!tree_order_le(false, &b"aaa.md".to_vec(), false, &b"ReadMe.md".to_vec()));
}

#[test]
fn tree_order_case_insensitive_names() {
    assert!(tree_order_le(false, &b"Alpha.md".to_vec(), false, &b"beta.md".to_vec()));
    assert!(tree_order_le(true, &b"Beta".to_vec(), true, &b"gamma".to_vec()));
}
