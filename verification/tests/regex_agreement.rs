//! The tag grammar agrees with the regular expressions that describe it
//! (for items of a `tags:` list).

use obsidian_tag_replacer::inline::count_inline_tags;
use obsidian_tag_replacer::yaml::{count_yaml_tags, replace_yaml_tags};
use regex::Regex;

fn yaml_patterns(tag: &str, new: &str) -> Vec<(Regex, String)> {
    let escaped = regex::escape(tag);
    vec![
        (Regex::new(&format!(r"^(\s*-\s+){}\s*$", escaped)).unwrap(), format!("${{1}}{}", new)),
        (Regex::new(&format!(r#"^(\s*-\s+)"{}"\s*$"#, escaped)).unwrap(), format!("${{1}}\"{}\"", new)),
        (Regex::new(&format!(r"^(\s*-\s+)'{}'\s*$", escaped)).unwrap(), format!("${{1}}'{}'", new)),
    ]
}

fn regex_yaml_replace(fm: &str, tag: &str, new: &str) -> (String, usize) {
    let pats = yaml_patterns(tag, new);
    let mut count = 0;
    let out: Vec<String> = fm
        .lines()
        .map(|line| {
            for (re, rep) in &pats {
                if re.is_match(line) {
                    count += 1;
                    return re.replace(line, rep.as_str()).to_string();
                }
            }
            line.to_string()
        })
        .collect();
    let mut joined = out.join("\n");
    if fm.ends_with('\n') {
        joined.push('\n');
    }
    (joined, count)
}

fn regex_inline_count(body: &str, tag: &str) -> usize {
    let fence = Regex::new(r"(?m)^```").unwrap();
    let mut blocks = Vec::new();
    let mut open = None;
    for m in fence.find_iter(body) {
        match open {
            None => open = Some(m.start()),
            Some(s) => {
                blocks.push((s, m.end()));
                open = None;
            }
        }
    }
    let re = Regex::new(&format!("#{}", regex::escape(tag))).unwrap();
    let ends = [
        '\0', ' ', '\t', '\n', '\u{3000}', '.', ',', '。', '、', ';', '；', ':', '：', '!', '！', '?', '？',
        ')', '）', ']', '】', '」', '』',
    ];
    re.find_iter(body)
        .filter(|m| {
            let slash = m.start() > 0 && body.as_bytes()[m.start() - 1] == b'/';
            let inside = blocks.iter().any(|&(s, e)| m.start() >= s && m.start() < e);
            let next = body[m.end()..].chars().next().unwrap_or('\0');
            !slash && !inside && ends.contains(&next)
        })
        .count()
}

const YAML_LINES: &[&str] = &[
    "  - foo",
    "- foo",
    "-foo",
    "  -  foo  ",
    "\t-\tfoo\t",
    "  -\u{3000}foo\u{3000}",
    "\u{a0}-\u{2003}foo",
    "\u{85}- foo\u{202f}",
    "  - \"foo\"",
    "  - 'foo' ",
    "  - \"foo'",
    "  - foo-extra",
    "  - foofoo",
    " - foo # c",
    "  - ",
    "- \u{1680}foo",
    "- \u{200b}foo",
    "tags:",
    "---",
    "",
];

const TAGS: &[&str] = &["foo", " foo", "foo ", "", "▲〇原稿・ブログ", "a.b", "\"foo\""];

#[test]
fn yaml_items_agree_with_regex() {
    for line in YAML_LINES {
        for tag in TAGS {
            for fm in [format!("tags:\n{}\r\n", line), format!("tags:\r\n{}", line)].iter() {
                assert_eq!(count_yaml_tags(fm, tag), regex_yaml_replace(fm, tag, "new").1, "{:?} {:?}", line, tag);
                assert_eq!(replace_yaml_tags(fm, tag, "new"), regex_yaml_replace(fm, tag, "new"), "{:?} {:?}", line, tag);
            }
        }
    }
}

#[test]
fn inline_tags_agree_with_regex() {
    let bodies = [
        "#foo #foo. #foo-bar (#foo) a/#foo",
        "```\n#foo\n```\n#foo\n``` unclosed\n#foo",
        "x```\n#foo\n```\n#foo",
        "#foo#foo#foo",
        "これは #foo。#foo、#foo」 #foo』",
        "#a.b #a.b. #a.b.c",
    ];
    for body in bodies.iter() {
        for tag in ["foo", "a.b", "foo#"].iter() {
            assert_eq!(count_inline_tags(body, tag), regex_inline_count(body, tag), "{:?} {:?}", body, tag);
        }
    }
}
