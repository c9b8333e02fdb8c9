use obsidian_tag_replacer::boundary::{after_match_char, preceded_by_slash};
use obsidian_tag_replacer::code_blocks::find_code_blocks;
use obsidian_tag_replacer::frontmatter::{extract_frontmatter, frontmatter_inner};
use obsidian_tag_replacer::inline::{count_inline_tags, diff_inline_tags, inline_tag_starts, replace_inline_tags};
use obsidian_tag_replacer::model::{FileMatch, ReplaceResult};
use obsidian_tag_replacer::note::{count_tags_in_file, file_match, preview_file, replace_in_file};
use obsidian_tag_replacer::paths::{make_relative, relative_or_full, should_skip_dir};
use obsidian_tag_replacer::run::{note_step, NoteAction, NoteEvent, NoteRun};
use obsidian_tag_replacer::search::sort_by_path;
use obsidian_tag_replacer::yaml::{count_yaml_tags, diff_yaml_tags, replace_yaml_tags};

// ── frontmatter ──

#[test]
fn frontmatter_exact_ranges() {
    assert_eq!(extract_frontmatter("---\ntags:\n  - foo\n---\n\n# Body text\n"), Some((0, 22)));
    assert_eq!(extract_frontmatter("---\n---\n\nBody\n"), Some((0, 8)));
    assert_eq!(extract_frontmatter("---\n---\r\nBody\n"), Some((0, 9)));
    assert_eq!(extract_frontmatter("---\n---"), Some((0, 7)));
    assert_eq!(extract_frontmatter("---\ntags:\r\n  - foo\r\n---\r\nbody"), Some((0, 25)));
    assert_eq!(extract_frontmatter("---\r\ntags: x\r\n---\r\n"), Some((0, 19)));
    assert_eq!(extract_frontmatter("---\r\n---\r\nBody"), Some((0, 10)));
    assert_eq!(extract_frontmatter("---\nno closing line\n"), None);
    assert_eq!(extract_frontmatter(""), None);
}

#[test]
fn frontmatter_inner_ranges() {
    // "---\n" + "tags: x" + "\n---\n"
    assert_eq!(frontmatter_inner("---\ntags: x\n---\n"), Some((4, 11)));
    assert_eq!(frontmatter_inner("---\r\ntags: x\r\n---\r\nbody"), Some((5, 13)));
    assert_eq!(frontmatter_inner("---\n---\n"), Some((4, 4)));
    assert_eq!(frontmatter_inner("---\ntags: x\n---"), None);
    assert_eq!(frontmatter_inner("no frontmatter"), None);
}

// ── boundaries ──

#[test]
fn slash_and_following_char() {
    let text = "a/#b。";
    assert!(!preceded_by_slash(text, 0));
    assert!(preceded_by_slash(text, 2));
    assert!(!preceded_by_slash(text, 1));
    assert_eq!(after_match_char(text, 3), 'b');
    assert_eq!(after_match_char(text, 4), '。');
    assert_eq!(after_match_char(text, text.len()), '\0');
    assert_eq!(after_match_char(text, text.len() + 5), '\0');
}

// ── code blocks ──

#[test]
fn code_blocks_pair_fences_at_line_starts() {
    let content = "a\n```\nx\n```\nb\n```\nunclosed";
    assert_eq!(find_code_blocks(content), vec![(2, 11)]);
    assert_eq!(find_code_blocks("x```\n```"), Vec::<(usize, usize)>::new());
    assert_eq!(find_code_blocks("```\n```\n```\n```"), vec![(0, 7), (8, 15)]);
}

// ── inline tags ──

#[test]
fn inline_needs_a_boundary_after_the_tag() {
    assert_eq!(count_inline_tags("#foo-bar #foo", "foo"), 1);
    assert_eq!(count_inline_tags("#foo#foo", "foo"), 1);
    assert_eq!(count_inline_tags("#foobar", "foo"), 0);
    assert_eq!(count_inline_tags("text/#foo", "foo"), 0);
    assert_eq!(count_inline_tags("```\n#foo\n", "foo"), 1);
    assert_eq!(inline_tag_starts("#foo-bar #foo", "foo"), vec![9]);
}

#[test]
fn inline_replacement_exact_text() {
    let body = "See #foo, (#foo) and #foo-x and a/#foo.\n```\n#foo\n```\n#foo";
    let (new_body, count) = replace_inline_tags(body, "foo", "原稿");
    assert_eq!(count, 3);
    assert_eq!(new_body, "See #原稿, (#原稿) and #foo-x and a/#foo.\n```\n#foo\n```\n#原稿");
}

#[test]
fn inline_diff_lines_and_numbers() {
    let body = "line one\nsee #foo and #foo\n";
    let diffs = diff_inline_tags(body, "foo", "bar", 4);
    assert_eq!(diffs.len(), 2);
    for d in &diffs {
        assert_eq!(d.line_number, 6);
        assert_eq!(d.tag_type, "inline");
        assert_eq!(d.old_line, "see #foo and #foo");
    }
    // each entry shows the line as the replacement writes it
    assert_eq!(diffs[0].new_line, "see #bar and #bar");
    assert_eq!(diffs[1].new_line, "see #bar and #bar");
    let d = diff_inline_tags("#foo #foo\n", "foo", "bar", 0);
    assert_eq!(d.len(), 2);
    assert_eq!(d[1].new_line, "#bar #bar");
    // a URL anchor before the counted tag stays as it is
    let d = diff_inline_tags("https://x.com/#foo still #foo.\n", "foo", "bar", 0);
    assert_eq!(d.len(), 1);
    assert_eq!(d[0].line_number, 1);
    assert_eq!(d[0].old_line, "https://x.com/#foo still #foo.");
    assert_eq!(d[0].new_line, "https://x.com/#foo still #bar.");
}

#[test]
fn inline_replacement_length() {
    let body = "a #foo b #foo. #foobar\n";
    let (new_body, count) = replace_inline_tags(body, "foo", "longer");
    assert_eq!(count, 2);
    assert_eq!(new_body.len(), body.len() + 2 * ("longer".len() - "foo".len()));
    let (same, none) = replace_inline_tags("no tags", "foo", "bar");
    assert_eq!((same.as_str(), none), ("no tags", 0));
}

#[test]
fn inline_replace_same_tag_keeps_text() {
    let body = "a #foo b #foo. ```\n#foo\n```\n";
    let (new_body, count) = replace_inline_tags(body, "foo", "foo");
    assert_eq!(count, 3);
    assert_eq!(new_body, body);
}

// ── YAML list items ──

#[test]
fn yaml_whitespace_variants() {
    assert_eq!(count_yaml_tags("tags:\n  -\u{3000}foo\u{3000}", "foo"), 1);
    assert_eq!(count_yaml_tags("tags:\n\u{a0}- foo", "foo"), 1);
    assert_eq!(count_yaml_tags("tags:\n-foo", "foo"), 0);
    assert_eq!(count_yaml_tags("tags:\n - foo # note", "foo"), 0);
    assert_eq!(count_yaml_tags("tags:  \n- \"foo\" ", "foo"), 1);
    assert_eq!(count_yaml_tags("tags:\n\t- 'foo'", "foo"), 1);
    assert_eq!(count_yaml_tags("tags:\n- \"foo'", "foo"), 0);
    assert_eq!(count_yaml_tags("", "foo"), 0);
}

#[test]
fn yaml_only_the_tags_list_counts() {
    assert_eq!(count_yaml_tags("aliases:\n  - foo\ntags:\n  - bar\n", "foo"), 0);
    assert_eq!(count_yaml_tags("  - foo", "foo"), 0);
    assert_eq!(count_yaml_tags("tags:\n  - bar\n  - foo\nother: x\n  - foo\n", "foo"), 1);
    assert_eq!(count_yaml_tags("tags: [foo]\n  - foo\n", "foo"), 0);
    assert_eq!(
        replace_yaml_tags("aliases:\n  - foo\ntags:\n  - foo\n", "foo", "bar"),
        ("aliases:\n  - foo\ntags:\n  - bar\n".to_string(), 1)
    );
}

#[test]
fn yaml_replace_exact_text() {
    let (out, count) = replace_yaml_tags("tags:\n  - foo   \n  - 'foo'\n  - other", "foo", "bar");
    assert_eq!(count, 2);
    assert_eq!(out, "tags:\n  - bar\n  - 'bar'\n  - other");
    let (out, count) = replace_yaml_tags("tags:\r\n  - foo\r\n", "foo", "bar");
    assert_eq!(count, 1);
    assert_eq!(out, "tags:\n  - bar\n");
}

#[test]
fn yaml_diff_entries() {
    let diffs = diff_yaml_tags("tags:\n  - foo\n  - x\n  - \"foo\"\n", "foo", "bar", 1);
    assert_eq!(diffs.len(), 2);
    assert_eq!(diffs[0].line_number, 3);
    assert_eq!(diffs[0].tag_type, "yaml");
    assert_eq!(diffs[0].old_line, "  - foo");
    assert_eq!(diffs[0].new_line, "  - bar");
    assert_eq!(diffs[1].line_number, 5);
    assert_eq!(diffs[1].new_line, "  - \"bar\"");
}

#[test]
fn yaml_rewritten_items_hold_the_new_tag_in_the_same_quotes() {
    let fm = "tags:\n\t-  \"foo\"\n  - 'foo'  \n  -\u{3000}foo\n";
    let (out, count) = replace_yaml_tags(fm, "foo", "new tag");
    assert_eq!(count, 3);
    assert_eq!(out, "tags:\n\t-  \"new tag\"\n  - 'new tag'\n  -\u{3000}new tag\n");
    assert_eq!(count_yaml_tags(&out, "new tag"), 3);
    assert_eq!(count_yaml_tags(&out, "foo"), 0);
}

// ── whole notes ──

const NOTE: &str = "---\ntags:\n  - foo\n  - \"foo\"\n---\nSee #foo.\n```\n#foo\n```\nhttps://e.com/#foo and #foo\n";

#[test]
fn note_counts() {
    assert_eq!(count_tags_in_file(NOTE, "foo"), (2, 2));
    assert_eq!(count_tags_in_file("no tags here", "foo"), (0, 0));
    assert_eq!(count_tags_in_file("#foo", "foo"), (0, 1));
}

#[test]
fn note_preview() {
    let diffs = preview_file(NOTE, "foo", "bar");
    let numbers: Vec<usize> = diffs.iter().map(|d| d.line_number).collect();
    assert_eq!(numbers, vec![3, 4, 6, 10]);
    let lines: Vec<&str> = NOTE.lines().collect();
    for d in &diffs {
        assert_eq!(lines[d.line_number - 1], d.old_line);
    }
    let kinds: Vec<&str> = diffs.iter().map(|d| d.tag_type.as_str()).collect();
    assert_eq!(kinds, vec!["yaml", "yaml", "inline", "inline"]);
    assert_eq!(diffs[1].new_line, "  - \"bar\"");
    assert_eq!(diffs[3].old_line, "https://e.com/#foo and #foo");
}

#[test]
fn note_replace() {
    let (text, yaml, inline) = replace_in_file(NOTE, "foo", "bar").unwrap();
    assert_eq!((yaml, inline), (2, 2));
    assert_eq!(
        text,
        "---\ntags:\n  - bar\n  - \"bar\"\n---\nSee #bar.\n```\n#foo\n```\nhttps://e.com/#foo and #bar\n"
    );
    assert!(replace_in_file("nothing", "foo", "bar").is_none());
}

#[test]
fn note_steps_agree() {
    let notes = [
        NOTE,
        "---\ntags:\n  - foo\n---\n",
        "---\n---\n#foo",
        "plain #foo #foo. text",
        "---\ntags: []\n---\nbody #foo\n",
        "---\r\ntags:\r\n  - foo\r\n---\r\n#foo\r\n",
        "---\naliases:\n  - foo\ntags:\n  - foo\n---\n#foo",
    ];
    for note in notes.iter() {
        let (y, i) = count_tags_in_file(note, "foo");
        assert_eq!(preview_file(note, "foo", "bar").len(), y + i);
        match replace_in_file(note, "foo", "bar") {
            Some((_, ry, ri)) => assert_eq!((ry, ri), (y, i)),
            None => assert_eq!((y, i), (0, 0)),
        }
    }
}

#[test]
fn note_replace_is_whole_frontmatter_then_body() {
    let notes = [
        NOTE,
        "---\naliases:\n  - foo\ntags:\n  - 'foo'\n\n---\n#foo, x\n",
        "---\n---\n#foo",
        "no frontmatter #foo.",
    ];
    for note in notes.iter() {
        let e = extract_frontmatter(note).map_or(0, |(_, e)| e);
        let (head, _) = replace_yaml_tags(&note[..e], "foo", "bar");
        let (body, _) = replace_inline_tags(&note[e..], "foo", "bar");
        match replace_in_file(note, "foo", "bar") {
            Some((text, _, _)) => assert_eq!(text, head + &body),
            None => assert_eq!(head + &body, note.to_string()),
        }
    }
}

#[test]
fn inline_replacement_written_back() {
    let body = "a #foo b (#foo) #foobar a/#foo #foo.";
    let (r, c) = replace_inline_tags(body, "foo", "ba");
    assert_eq!(c, 3);
    let (back, c2) = replace_inline_tags(&r, "ba", "foo");
    assert_eq!((back.as_str(), c2), (body, 3));
}

#[test]
fn inline_round_trip_with_code_and_wide_chars() {
    let body = "x #foo\n```\n#foo\n```\n日本 #foo。 #foo/x end #foo";
    let (r, c) = replace_inline_tags(body, "foo", "bär");
    assert_eq!(c, 3);
    assert_eq!(r, "x #bär\n```\n#foo\n```\n日本 #bär。 #foo/x end #bär");
    let (back, c2) = replace_inline_tags(&r, "bär", "foo");
    assert_eq!((back.as_str(), c2), (body, c));
}

#[test]
fn note_with_crlf_frontmatter() {
    let note = "---\ntags:\r\n  - x\r\n---\nbody #foo\n";
    let (text, yaml, inline) = replace_in_file(note, "foo", "bar").unwrap();
    assert_eq!((yaml, inline), (0, 1));
    assert_eq!(text, "---\ntags:\r\n  - x\r\n---\nbody #bar\n");
}

#[test]
fn crlf_frontmatter_with_items_steps_agree() {
    let note = "---\ntags:\r\n  - foo\r\n  - 'foo'\r\n---\nbody #foo\n";
    assert_eq!(count_tags_in_file(note, "foo"), (2, 1));
    assert_eq!(preview_file(note, "foo", "bar").len(), 3);
    let (text, yaml, inline) = replace_in_file(note, "foo", "bar").unwrap();
    assert_eq!((yaml, inline), (2, 1));
    assert_eq!(text, "---\ntags:\n  - bar\n  - 'bar'\n---\nbody #bar\n");
}

#[test]
fn crlf_frontmatter_without_items_is_left_alone() {
    let note = format!("---\n{}x #foo \r\n---\nbody\n", "a\r\n".repeat(10));
    assert_eq!(count_tags_in_file(&note, "foo"), (0, 0));
    assert!(replace_in_file(&note, "foo", "bar").is_none());
}

#[test]
fn crlf_opening_line_starts_a_frontmatter() {
    let note = "---\r\ntags:\r\n  - foo\r\n---\r\nBody #foo.\r\n";
    let (start, end) = extract_frontmatter(note).unwrap();
    assert_eq!(start, 0);
    assert_eq!(note[..end].trim_end_matches(['\r', '\n']), "---\r\ntags:\r\n  - foo\r\n---");
    assert_eq!(count_tags_in_file(note, "foo"), (1, 1));
    let diffs = preview_file(note, "foo", "bar");
    let numbers: Vec<usize> = diffs.iter().map(|d| d.line_number).collect();
    assert_eq!(numbers, vec![3, 5]);
    let (text, yaml, inline) = replace_in_file(note, "foo", "bar").unwrap();
    assert_eq!((yaml, inline), (1, 1));
    assert_eq!(text, "---\r\ntags:\n  - bar\n---\r\nBody #bar.\r\n");
}

#[test]
fn search_result_for_a_note() {
    let m = file_match("a.md".to_string(), NOTE, "foo").unwrap();
    assert_eq!(m.relative_path, "a.md");
    assert_eq!((m.yaml_tag_count, m.inline_tag_count), (2, 2));
    assert!(file_match("b.md".to_string(), "nothing", "foo").is_none());
}

#[test]
fn search_results_sorted_by_path() {
    let mk = |p: &str| FileMatch { relative_path: p.to_string(), yaml_tag_count: 1, inline_tag_count: 0 };
    let mut v = vec![mk("b.md"), mk("a/z.md"), mk("a.md"), mk("B.md")];
    sort_by_path(&mut v);
    let paths: Vec<&str> = v.iter().map(|m| m.relative_path.as_str()).collect();
    assert_eq!(paths, vec!["B.md", "a.md", "a/z.md", "b.md"]);
}

#[test]
fn search_results_with_equal_paths_keep_their_order() {
    let mk = |p: &str, n: usize| FileMatch { relative_path: p.to_string(), yaml_tag_count: n, inline_tag_count: 0 };
    let mut v = vec![mk("b.md", 1), mk("a.md", 2), mk("b.md", 3), mk("a.md", 4), mk("b.md", 5)];
    sort_by_path(&mut v);
    let got: Vec<(&str, usize)> = v.iter().map(|m| (m.relative_path.as_str(), m.yaml_tag_count)).collect();
    assert_eq!(got, vec![("a.md", 2), ("a.md", 4), ("b.md", 1), ("b.md", 3), ("b.md", 5)]);
}

// ── vault walk and paths ──

#[test]
fn skipped_directories() {
    assert!(should_skip_dir(true, Some(".obsidian")));
    assert!(should_skip_dir(true, Some(".trash")));
    assert!(should_skip_dir(true, Some(".git")));
    assert!(should_skip_dir(true, Some("node_modules")));
    assert!(should_skip_dir(true, Some(".tag-replace-backup")));
    assert!(should_skip_dir(true, Some(".tag-replace-backup-old")));
    assert!(!should_skip_dir(false, Some(".git")));
    assert!(!should_skip_dir(true, Some("notes")));
    assert!(!should_skip_dir(true, Some(".gitignore")));
    assert!(!should_skip_dir(true, None));
}

#[test]
fn relative_paths() {
    assert_eq!(make_relative("/vault", "/vault/sub/note.md"), "sub/note.md");
    assert_eq!(make_relative("/vault", "/other/x.md"), "/other/x.md");
    assert_eq!(make_relative("/vault", "/vault"), "");
    assert_eq!(make_relative("/vault", "/vaultx/a.md"), "/vaultx/a.md");
    assert_eq!(make_relative("notes/vault", "notes/vault/a/b.md"), "a/b.md");
    assert_eq!(relative_or_full("/a/b", None), "/a/b");
    assert_eq!(relative_or_full("/a/b", Some("b".to_string())), "b");
}

// ── replacement report ──

#[test]
fn replace_report() {
    let mut r = ReplaceResult::new("/vault/.tag-replace-backup/2024-01-01-1200".to_string());
    assert_eq!(r.files_modified, 0);
    r.record_file(2, 3);
    r.record_file(0, 1);
    r.record_error("Cannot read x.md".to_string());
    assert_eq!(r.files_modified, 2);
    assert_eq!(r.total_yaml_replacements, 2);
    assert_eq!(r.total_inline_replacements, 4);
    assert_eq!(r.errors, vec!["Cannot read x.md".to_string()]);
    assert_eq!(r.backup_path, "/vault/.tag-replace-backup/2024-01-01-1200");
}

// ── per-note steps of a replacement run ──

#[test]
fn run_step_backs_up_then_writes_then_counts() {
    let mut result = ReplaceResult::new("/v/.bak".to_string());
    let note = "---\ntags:\n  - foo\n---\nbody #foo\n".to_string();
    let run = NoteRun::new("a.md".to_string(), true);
    let (run, action) = note_step(run, &mut result, NoteEvent::Read(note), "foo", "bar");
    assert!(matches!(action, NoteAction::Backup));
    let (run, action) = note_step(run, &mut result, NoteEvent::BackedUp, "foo", "bar");
    match action {
        NoteAction::Write(text) => assert_eq!(text, "---\ntags:\n  - bar\n---\nbody #bar\n"),
        _ => panic!("expected a write"),
    }
    assert_eq!(result.files_modified, 0);
    let (run, action) = note_step(run, &mut result, NoteEvent::Written, "foo", "bar");
    assert!(matches!(action, NoteAction::Next));
    assert!(run.rewrite.is_none());
    assert_eq!(
        (result.files_modified, result.total_yaml_replacements, result.total_inline_replacements),
        (1, 1, 1)
    );
    assert!(result.errors.is_empty());
}

#[test]
fn run_step_writes_at_once_without_backup() {
    let mut result = ReplaceResult::new(String::new());
    let run = NoteRun::new("b.md".to_string(), false);
    let (run, action) = note_step(run, &mut result, NoteEvent::Read("x #foo y".to_string()), "foo", "q");
    match action {
        NoteAction::Write(text) => assert_eq!(text, "x #q y"),
        _ => panic!("expected a write"),
    }
    let (_, action) = note_step(run, &mut result, NoteEvent::Written, "foo", "q");
    assert!(matches!(action, NoteAction::Next));
    assert_eq!((result.files_modified, result.total_inline_replacements), (1, 1));
}

#[test]
fn run_step_leaves_note_without_tag() {
    let mut result = ReplaceResult::new(String::new());
    let run = NoteRun::new("c.md".to_string(), true);
    let (run, action) = note_step(run, &mut result, NoteEvent::Read("nothing #foobar".to_string()), "foo", "q");
    assert!(matches!(action, NoteAction::Next));
    assert!(run.rewrite.is_none());
    assert_eq!(result.files_modified, 0);
    assert!(result.errors.is_empty());
}

#[test]
fn run_step_records_failures() {
    let mut result = ReplaceResult::new(String::new());
    let run = NoteRun::new("d.md".to_string(), true);
    let (_, action) = note_step(run, &mut result, NoteEvent::ReadFailed("gone".to_string()), "foo", "q");
    assert!(matches!(action, NoteAction::Next));
    let run = NoteRun::new("e.md".to_string(), true);
    let (run, _) = note_step(run, &mut result, NoteEvent::Read("#foo".to_string()), "foo", "q");
    let (_, action) = note_step(run, &mut result, NoteEvent::BackupFailed("full".to_string()), "foo", "q");
    assert!(matches!(action, NoteAction::Next));
    let run = NoteRun::new("f.md".to_string(), true);
    let (run, _) = note_step(run, &mut result, NoteEvent::Read("#foo".to_string()), "foo", "q");
    let (_, _) = note_step(run, &mut result, NoteEvent::BackupDirFailed("denied".to_string()), "foo", "q");
    let run = NoteRun::new("g.md".to_string(), false);
    let (run, _) = note_step(run, &mut result, NoteEvent::Read("#foo".to_string()), "foo", "q");
    let (_, _) = note_step(run, &mut result, NoteEvent::WriteFailed("locked".to_string()), "foo", "q");
    assert_eq!(
        result.errors,
        vec![
            "Cannot read d.md: gone".to_string(),
            "Backup failed for e.md: full".to_string(),
            "Cannot create backup dir for f.md: denied".to_string(),
            "Write failed for g.md: locked".to_string(),
        ]
    );
    assert_eq!(result.files_modified, 0);
}
