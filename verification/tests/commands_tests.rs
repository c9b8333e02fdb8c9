use obsidian_tag_replacer::boundary::is_tag_boundary;
use obsidian_tag_replacer::code_blocks::{find_code_blocks, inside_code_block};
use obsidian_tag_replacer::frontmatter::extract_frontmatter;
use obsidian_tag_replacer::inline::{count_inline_tags, replace_inline_tags};
use obsidian_tag_replacer::yaml::{count_yaml_tags, replace_yaml_tags};

// ── frontmatter extraction ──

#[test]
fn test_extract_frontmatter_present() {
    let content = "---\ntags:\n  - foo\n---\n\n# Body text\n";
    let (start, end) = extract_frontmatter(content).unwrap();
    assert_eq!(start, 0);
    let fm = &content[start..end];
    assert!(fm.starts_with("---\n"));
    assert!(fm.ends_with("\n---\n") || fm.ends_with("\n---"));
}

#[test]
fn test_extract_frontmatter_empty() {
    let content = "---\n---\n\nBody\n";
    let result = extract_frontmatter(content);
    assert!(result.is_some());
}

#[test]
fn test_extract_frontmatter_absent() {
    let content = "# Just a heading\n\nBody text\n";
    assert!(extract_frontmatter(content).is_none());
}

// ── YAML tag counting ──

#[test]
fn test_count_yaml_exact_match() {
    let fm = "tags:\n  - foo\n  - bar\n  - foo-extra\n";
    assert_eq!(count_yaml_tags(fm, "foo"), 1);
}

#[test]
fn test_count_yaml_quoted() {
    let fm = "tags:\n  - \"foo\"\n  - 'foo'\n  - foo\n";
    assert_eq!(count_yaml_tags(fm, "foo"), 3);
}

#[test]
fn test_count_yaml_japanese_tag() {
    let fm = "tags:\n  - ▲〇原稿・ブログ\n  - メモ\n";
    assert_eq!(count_yaml_tags(fm, "▲〇原稿・ブログ"), 1);
}

// ── YAML tag replacement ──

#[test]
fn test_replace_yaml_preserves_quotes() {
    let fm = "tags:\n  - \"foo\"\n  - 'foo'\n";
    let (new_fm, count) = replace_yaml_tags(fm, "foo", "bar");
    assert_eq!(count, 2);
    assert!(new_fm.contains("\"bar\""));
    assert!(new_fm.contains("'bar'"));
}

#[test]
fn test_replace_yaml_not_partial() {
    let fm = "tags:\n  - foo\n  - foo-extra\n";
    let (new_fm, count) = replace_yaml_tags(fm, "foo", "bar");
    assert_eq!(count, 1);
    assert!(new_fm.contains("  - bar\n"));
    assert!(new_fm.contains("  - foo-extra\n"));
}

// ── Inline tag detection ──

#[test]
fn test_inline_basic() {
    let body = "Here is a #test-tag in text.\n";
    assert_eq!(count_inline_tags(body, "test-tag"), 1);
}

#[test]
fn test_inline_japanese_tag() {
    let body = "これは #▲〇原稿・ブログ です。\n";
    assert_eq!(count_inline_tags(body, "▲〇原稿・ブログ"), 1);
}

#[test]
fn test_inline_japanese_period_end() {
    let body = "#▲〇原稿・ブログ。\n";
    assert_eq!(count_inline_tags(body, "▲〇原稿・ブログ"), 1);
}

#[test]
fn test_inline_fullwidth_space_end() {
    let body = "#▲〇原稿・ブログ　続き\n";
    assert_eq!(count_inline_tags(body, "▲〇原稿・ブログ"), 1);
}

#[test]
fn test_inline_url_excluded() {
    let body = "https://example.com/#test-tag\n";
    assert_eq!(count_inline_tags(body, "test-tag"), 0);
}

#[test]
fn test_inline_url_excluded_japanese() {
    let body = "https://example.com/#▲〇原稿・ブログ\n";
    assert_eq!(count_inline_tags(body, "▲〇原稿・ブログ"), 0);
}

#[test]
fn test_inline_code_block_excluded() {
    let body = "```\n#test-tag\n```\nOutside #test-tag.\n";
    assert_eq!(count_inline_tags(body, "test-tag"), 1); // only outside
}

#[test]
fn test_inline_multiple_occurrences() {
    let body = "#test-tag and #test-tag again.\n";
    assert_eq!(count_inline_tags(body, "test-tag"), 2);
}

#[test]
fn test_inline_tag_at_end_of_string() {
    let body = "Tag: #test-tag";
    assert_eq!(count_inline_tags(body, "test-tag"), 1);
}

#[test]
fn test_inline_tag_with_close_paren() {
    let body = "(#test-tag)";
    assert_eq!(count_inline_tags(body, "test-tag"), 1);
}

// ── Inline tag replacement ──

#[test]
fn test_replace_inline_basic() {
    let body = "See #foo and #foo.\n";
    let (new_body, count) = replace_inline_tags(body, "foo", "bar");
    assert_eq!(count, 2);
    assert!(!new_body.contains("#foo"));
    assert!(new_body.contains("#bar"));
}

#[test]
fn test_replace_inline_skips_url() {
    let body = "https://x.com/#foo still #foo.\n";
    let (new_body, count) = replace_inline_tags(body, "foo", "bar");
    assert_eq!(count, 1);
    assert!(new_body.contains("https://x.com/#foo")); // unchanged
}

// ── Code block detection ──

#[test]
fn test_find_code_blocks_single() {
    let content = "```\ncode here\n```\n";
    let blocks = find_code_blocks(content);
    assert_eq!(blocks.len(), 1);
}

#[test]
fn test_inside_code_block() {
    let blocks = vec![(4, 19)];
    assert!(inside_code_block(10, &blocks));
    assert!(!inside_code_block(0, &blocks));
    assert!(!inside_code_block(20, &blocks));
}

// ── is_tag_boundary ──

#[test]
fn test_boundary_chars() {
    assert!(is_tag_boundary(' '));
    assert!(is_tag_boundary('\0'));
    assert!(is_tag_boundary('。'));
    assert!(is_tag_boundary('、'));
    assert!(is_tag_boundary('）'));
    assert!(is_tag_boundary('\n'));
    assert!(!is_tag_boundary('a'));
    assert!(!is_tag_boundary('▲'));
}
