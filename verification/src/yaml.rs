//! Tags in the `tags:` list of a YAML frontmatter: an item line `- tag`,
//! `- "tag"` or `- 'tag'` of that list, indented and padded with any
//! whitespace, matches the whole tag exactly. List items under other keys
//! are left alone.

use vstd::prelude::*;
use vstd::string::*;
use vstd::utf8::*;
use crate::text::{
    occurs_at, has_prefix, line_ranges_from, line_ranges, lines_of, text_of, occurs_at_exec, push_all,
    line_end_exec, copy_range, string_of, lemma_str_bytes_valid, lemma_ascii_byte_valid,
    lemma_boundary_at, lemma_boundary_after_ascii, lemma_valid_between, lemma_line_end_bounds,
    lemma_line_count_bound,
};
use crate::model::SingleDiff;

verus! {

/// The byte width of the whitespace character at byte `i` of `b`, or 0 when
/// none starts there. Whitespace is Unicode's `White_Space`: U+0009 to
/// U+000D, U+0020, U+0085, U+00A0, U+1680, U+2000 to U+200A, U+2028,
/// U+2029, U+202F, U+205F and U+3000, in their UTF-8 encodings.
pub open spec fn space_width(b: Seq<u8>, i: int) -> int {
    if i < 0 || i >= b.len() {
        0
    } else if (0x09 <= b[i] <= 0x0d) || b[i] == 0x20 {
        1
    } else if b[i] == 0xc2 && i + 1 < b.len() && (b[i + 1] == 0x85 || b[i + 1] == 0xa0) {
        2
    } else if i + 2 < b.len() && ((b[i] == 0xe1 && b[i + 1] == 0x9a && b[i + 2] == 0x80) || (
    b[i] == 0xe2 && b[i + 1] == 0x80 && ((0x80 <= b[i + 2] <= 0x8a) || b[i + 2] == 0xa8 || b[i
        + 2] == 0xa9 || b[i + 2] == 0xaf)) || (b[i] == 0xe2 && b[i + 1] == 0x81 && b[i + 2]
        == 0x9f) || (b[i] == 0xe3 && b[i + 1] == 0x80 && b[i + 2] == 0x80)) {
        3
    } else {
        0
    }
}

/// The end of the run of whitespace that starts at byte `i`.
pub open spec fn space_run_end(b: Seq<u8>, i: int) -> int
    decreases b.len() - i,
{
    if 0 <= i < b.len() && space_width(b, i) > 0 {
        space_run_end(b, i + space_width(b, i))
    } else {
        i
    }
}

/// The positions from `i` on that a run of whitespace can stop at, one per
/// whole character, up to the end of the run.
pub open spec fn space_stops(b: Seq<u8>, i: int) -> Seq<int>
    decreases b.len() - i,
{
    if 0 <= i < b.len() && space_width(b, i) > 0 {
        seq![i] + space_stops(b, i + space_width(b, i))
    } else {
        seq![i]
    }
}

/// From byte `j` on, `line` is exactly `tag` followed by whitespace only.
pub open spec fn bare_tail_ok(line: Seq<u8>, tag: Seq<u8>, j: int) -> bool {
    &&& occurs_at(line, tag, j)
    &&& space_run_end(line, j + tag.len()) == line.len()
}

/// The last stop in `stops` after which `line` is the bare tag.
pub open spec fn last_bare_stop(line: Seq<u8>, tag: Seq<u8>, stops: Seq<int>) -> Option<int>
    decreases stops.len(),
{
    if stops.len() == 0 {
        None
    } else if bare_tail_ok(line, tag, stops.last()) {
        Some(stops.last())
    } else {
        last_bare_stop(line, tag, stops.drop_last())
    }
}

/// From byte `e` on, `line` is `tag` between two `q` quotes, then
/// whitespace only.
pub open spec fn quoted_ok(line: Seq<u8>, tag: Seq<u8>, e: int, q: u8) -> bool {
    &&& 0 <= e < line.len()
    &&& line[e] == q
    &&& occurs_at(line, tag, e + 1)
    &&& e + 1 + tag.len() < line.len()
    &&& line[e + 1 + tag.len()] == q
    &&& space_run_end(line, e + 2 + tag.len()) == line.len()
}

/// `line` is a list item that holds exactly `tag`: optional whitespace, a
/// `-`, at least one whitespace character, the tag (bare, in `"` or in `'`;
/// tried in that order) and optional whitespace. The result is where the
/// kept prefix `<whitespace>-<whitespace>` ends (for a bare tag the longest
/// prefix that still lets the rest match) and the quote byte, 0 for none.
pub open spec fn yaml_item_match(line: Seq<u8>, tag: Seq<u8>) -> Option<(int, u8)> {
    let a = space_run_end(line, 0);
    if !(a < line.len() && line[a] == 0x2d) {
        None
    } else {
        let e = space_run_end(line, a + 1);
        if e == a + 1 {
            None
        } else {
            match last_bare_stop(line, tag, space_stops(line, a + 1).drop_first()) {
                Some(j) => Some((j, 0u8)),
                None => if quoted_ok(line, tag, e, 0x22) {
                    Some((e, 0x22u8))
                } else if quoted_ok(line, tag, e, 0x27) {
                    Some((e, 0x27u8))
                } else {
                    None
                },
            }
        }
    }
}

/// The matched line `line` with its tag replaced by `new`: the kept prefix,
/// then `new` in the same quotes as before.
pub open spec fn yaml_item_replaced(line: Seq<u8>, m: (int, u8), new: Seq<u8>) -> Seq<u8> {
    if m.1 == 0 {
        line.subrange(0, m.0) + new
    } else {
        line.subrange(0, m.0) + seq![m.1] + new + seq![m.1]
    }
}

/// A line after the replacement of `tag` by `new`.
pub open spec fn yaml_line_rewritten(line: Seq<u8>, tag: Seq<u8>, new: Seq<u8>) -> Seq<u8> {
    match yaml_item_match(line, tag) {
        Some(m) => yaml_item_replaced(line, m, new),
        None => line,
    }
}

/// `tags:`
pub open spec fn tags_key() -> Seq<u8> {
    seq![0x74u8, 0x61, 0x67, 0x73, 0x3a]
}

/// `line` is the key line of the tag list: `tags:` with nothing after the
/// colon but whitespace.
pub open spec fn tags_key_line(line: Seq<u8>) -> bool {
    has_prefix(line, tags_key()) && space_run_end(line, 5) == line.len()
}

/// `line` is a list item line: optional whitespace, then `-`.
pub open spec fn dash_line(line: Seq<u8>) -> bool {
    let a = space_run_end(line, 0);
    a < line.len() && line[a] == 0x2d
}

/// Line `k` of `ls` lies in the `tags:` list: it follows a `tags:` key line
/// with only list item lines in between.
pub open spec fn in_tags_list(ls: Seq<Seq<u8>>, k: int) -> bool
    decreases k,
{
    if k <= 0 || k > ls.len() {
        false
    } else {
        tags_key_line(ls[k - 1]) || (dash_line(ls[k - 1]) && in_tags_list(ls, k - 1))
    }
}

/// How line `k` of `b` matches `tag` as an item of the `tags:` list, if it
/// does (see [`yaml_item_match`]).
pub open spec fn tag_item(b: Seq<u8>, tag: Seq<u8>, k: int) -> Option<(int, u8)> {
    if in_tags_list(lines_of(b), k) {
        yaml_item_match(lines_of(b)[k], tag)
    } else {
        None
    }
}

/// Line `k` of `b` after the items of the `tags:` list holding `tag` were
/// changed to hold `new`.
pub open spec fn rewritten_line(b: Seq<u8>, tag: Seq<u8>, new: Seq<u8>, k: int) -> Seq<u8> {
    match tag_item(b, tag, k) {
        Some(m) => yaml_item_replaced(lines_of(b)[k], m, new),
        None => lines_of(b)[k],
    }
}

/// All lines of `b` after the replacement.
pub open spec fn rewritten_lines(b: Seq<u8>, tag: Seq<u8>, new: Seq<u8>) -> Seq<Seq<u8>> {
    Seq::new(lines_of(b).len(), |k: int| rewritten_line(b, tag, new, k))
}

/// The indices of the lines of `b` that are items of the `tags:` list
/// holding `tag`.
pub open spec fn yaml_hits(b: Seq<u8>, tag: Seq<u8>) -> Seq<int> {
    Seq::new(lines_of(b).len(), |k: int| k).filter(yaml_hit_pred(b, tag))
}

/// Line `k` of `b` is an item of the `tags:` list holding `tag`.
pub open spec fn yaml_hit_pred(b: Seq<u8>, tag: Seq<u8>) -> spec_fn(int) -> bool {
    |k: int| tag_item(b, tag, k) is Some
}

/// Lines joined by `\n`.
pub open spec fn join_lines(ls: Seq<Seq<u8>>) -> Seq<u8>
    decreases ls.len(),
{
    if ls.len() == 0 {
        Seq::empty()
    } else if ls.len() == 1 {
        ls[0]
    } else {
        join_lines(ls.drop_last()) + seq![0x0au8] + ls.last()
    }
}

/// `b` ends with a newline.
pub open spec fn ends_with_newline(b: Seq<u8>) -> bool {
    b.len() > 0 && b.last() == 0x0a
}

/// The frontmatter text `b` with every item of its `tags:` list holding
/// `tag` changed to hold `new`: the lines joined by `\n`, with a final `\n`
/// when `b` had one.
pub open spec fn yaml_replaced(b: Seq<u8>, tag: Seq<u8>, new: Seq<u8>) -> Seq<u8> {
    join_lines(rewritten_lines(b, tag, new)) + if ends_with_newline(b) {
        seq![0x0au8]
    } else {
        Seq::empty()
    }
}

/// `d` previews the item of the `tags:` list on line `k` (0-based) of `b`.
pub open spec fn is_yaml_diff(
    d: SingleDiff,
    b: Seq<u8>,
    tag: Seq<u8>,
    new: Seq<u8>,
    offset: int,
    k: int,
) -> bool {
    let line = lines_of(b)[k];
    &&& d.line_number == offset + k + 1
    &&& d.tag_type@ == "yaml"@
    &&& d.old_line@ == text_of(line)
    &&& d.new_line@ == text_of(rewritten_line(b, tag, new, k))
}

// ---------------------------------------------------------------------
// Executable matching of one line
// ---------------------------------------------------------------------

/// The width of the whitespace character at byte `i` of `b`, or 0.
fn space_width_exec(b: &[u8], i: usize) -> (w: usize)
    ensures
        w as int == space_width(b@, i as int),
        w <= 3,
        w > 0 ==> i + w <= b@.len(),
{
    let n = b.len();
    if i >= n {
        return 0;
    }
    let c = b[i];
    if (0x09 <= c && c <= 0x0d) || c == 0x20 {
        return 1;
    }
    if c == 0xc2 && i + 1 < n && (b[i + 1] == 0x85 || b[i + 1] == 0xa0) {
        return 2;
    }
    if n - i > 2 {
        let c1 = b[i + 1];
        let c2 = b[i + 2];
        if (c == 0xe1 && c1 == 0x9a && c2 == 0x80) || (c == 0xe2 && c1 == 0x80 && ((0x80 <= c2
            && c2 <= 0x8a) || c2 == 0xa8 || c2 == 0xa9 || c2 == 0xaf)) || (c == 0xe2 && c1 == 0x81
            && c2 == 0x9f) || (c == 0xe3 && c1 == 0x80 && c2 == 0x80) {
            return 3;
        }
    }
    0
}

/// The end of the run of whitespace that starts at byte `i`.
fn space_run_end_exec(b: &[u8], i: usize) -> (r: usize)
    requires
        i <= b@.len(),
    ensures
        r as int == space_run_end(b@, i as int),
        i <= r <= b@.len(),
{
    let n = b.len();
    let mut j = i;
    loop
        invariant
            n == b@.len(),
            i <= j <= b@.len(),
            space_run_end(b@, i as int) == space_run_end(b@, j as int),
        decreases b@.len() - j,
    {
        let w = space_width_exec(b, j);
        if w == 0 {
            return j;
        }
        j = j + w;
    }
}

/// Whether `line` from byte `j` on is `tag` then whitespace only.
fn bare_tail_ok_exec(line: &[u8], tag: &[u8], j: usize) -> (r: bool)
    requires
        j <= line@.len(),
    ensures
        r == bare_tail_ok(line@, tag@, j as int),
{
    let n = line.len();
    if !occurs_at_exec(line, tag, j) {
        return false;
    }
    space_run_end_exec(line, j + tag.len()) == n
}

/// Whether `line` from byte `e` on is `tag` in `q` quotes, then whitespace.
fn quoted_ok_exec(line: &[u8], tag: &[u8], e: usize, q: u8) -> (r: bool)
    ensures
        r == quoted_ok(line@, tag@, e as int, q),
{
    let n = line.len();
    if e >= n || line[e] != q {
        return false;
    }
    if !occurs_at_exec(line, tag, e + 1) {
        return false;
    }
    let close = e + 1 + tag.len();
    if close >= n || line[close] != q {
        return false;
    }
    space_run_end_exec(line, close + 1) == n
}

/// Matches one line against the list-item grammar (see [`yaml_item_match`]).
fn match_item(line: &[u8], tag: &[u8]) -> (r: Option<(usize, u8)>)
    ensures
        match yaml_item_match(line@, tag@) {
            Some(m) => r matches Some(x) && x.0 as int == m.0 && x.1 == m.1,
            None => r is None,
        },
        r matches Some(x) ==> x.0 <= line@.len(),
{
    let ghost l = line@;
    let n = line.len();
    let a = space_run_end_exec(line, 0);
    if !(a < n && line[a] == 0x2d) {
        return None;
    }
    let e = space_run_end_exec(line, a + 1);
    if e == a + 1 {
        return None;
    }
    let mut p = a + 1;
    let mut best: Option<usize> = None;
    let ghost mut visited: Seq<int> = Seq::empty();
    assert(space_stops(l, a + 1) == seq![(a + 1) as int] + space_stops(l, a + 1 + space_width(l, a + 1)));
    loop
        invariant
            l == line@,
            a + 1 <= p <= n,
            n == l.len(),
            space_stops(l, a + 1).drop_first() == visited + space_stops(l, p as int).drop_first(),
            match last_bare_stop(l, tag@, visited) {
                Some(j) => best matches Some(x) && x as int == j,
                None => best is None,
            },
            best matches Some(x) ==> x <= n,
        ensures
            space_stops(l, a + 1).drop_first() == visited,
            match last_bare_stop(l, tag@, visited) {
                Some(j) => best matches Some(x) && x as int == j,
                None => best is None,
            },
            best matches Some(x) ==> x <= n,
        decreases n - p,
    {
        let w = space_width_exec(line, p);
        if w == 0 {
            assert(space_stops(l, p as int) =~= seq![p as int]);
            assert(visited + seq![p as int].drop_first() =~= visited);
            break;
        }
        let ghost rest = space_stops(l, p + w);
        assert(space_stops(l, p as int) == seq![p as int] + rest);
        assert(rest == seq![(p + w) as int] + rest.drop_first()) by {
            if 0 <= p + w < l.len() && space_width(l, p + w) > 0 {
            } else {
            }
        }
        proof {
            let old_visited = visited;
            visited = visited.push(p + w);
            assert(old_visited + rest =~= visited + rest.drop_first());
            assert(visited.drop_last() =~= old_visited);
        }
        p = p + w;
        if bare_tail_ok_exec(line, tag, p) {
            best = Some(p);
        }
    }
    assert(space_stops(l, a + 1).drop_first() == visited);
    match best {
        Some(j) => Some((j, 0u8)),
        None => {
            if quoted_ok_exec(line, tag, e, 0x22) {
                Some((e, 0x22u8))
            } else if quoted_ok_exec(line, tag, e, 0x27) {
                Some((e, 0x27u8))
            } else {
                None
            }
        },
    }
}

// ---------------------------------------------------------------------
// Facts about matches
// ---------------------------------------------------------------------

/// The stop that `last_bare_stop` picks is one of the stops and lets the
/// rest of the line match.
proof fn lemma_last_bare_stop(line: Seq<u8>, tag: Seq<u8>, stops: Seq<int>)
    requires
        last_bare_stop(line, tag, stops) is Some,
    ensures
        bare_tail_ok(line, tag, last_bare_stop(line, tag, stops)->0),
    decreases stops.len(),
{
    if !bare_tail_ok(line, tag, stops.last()) {
        lemma_last_bare_stop(line, tag, stops.drop_last());
    }
}

/// The kept prefix of a matched line ends on a character boundary.
proof fn lemma_item_prefix_boundary(line: Seq<u8>, tag: Seq<u8>)
    requires
        valid_utf8(line),
        valid_utf8(tag),
        yaml_item_match(line, tag) is Some,
    ensures
        yaml_item_match(line, tag) matches Some(m) && 0 <= m.0 <= line.len() && is_char_boundary(
            line,
            m.0,
        ) && (m.1 == 0 || m.1 == 0x22 || m.1 == 0x27),
{
    let a = space_run_end(line, 0);
    let m = yaml_item_match(line, tag)->0;
    let stops = space_stops(line, a + 1).drop_first();
    if last_bare_stop(line, tag, stops) is Some {
        lemma_last_bare_stop(line, tag, stops);
        let j = m.0;
        if j < line.len() {
            if tag.len() > 0 {
                assert(line.subrange(j, j + tag.len())[0] == line[j]);
                crate::text::lemma_valid_starts_with_leading(tag);
            } else {
                assert(line.subrange(j, j) =~= tag);
                assert(space_width(line, j) > 0);
            }
        }
        lemma_boundary_at(line, j);
    } else {
        lemma_boundary_at(line, m.0);
    }
}

/// A rewritten line is valid UTF-8.
proof fn lemma_rewritten_valid(line: Seq<u8>, tag: Seq<u8>, new: Seq<u8>)
    requires
        valid_utf8(line),
        valid_utf8(tag),
        valid_utf8(new),
    ensures
        valid_utf8(yaml_line_rewritten(line, tag, new)),
{
    if yaml_item_match(line, tag) is Some {
        let m = yaml_item_match(line, tag)->0;
        lemma_item_prefix_boundary(line, tag);
        is_char_boundary_start_end_of_seq(line);
        lemma_valid_between(line, 0, m.0);
        let pre = line.subrange(0, m.0);
        if m.1 == 0 {
            valid_utf8_concat(pre, new);
        } else {
            lemma_ascii_byte_valid(m.1);
            valid_utf8_concat(pre, seq![m.1]);
            valid_utf8_concat(pre + seq![m.1], new);
            valid_utf8_concat(pre + seq![m.1] + new, seq![m.1]);
        }
    }
}

/// Whether `line` is the `tags:` key line (see [`tags_key_line`]).
fn tags_key_exec(line: &[u8]) -> (r: bool)
    ensures
        r == tags_key_line(line@),
{
    let key: [u8; 5] = [0x74, 0x61, 0x67, 0x73, 0x3a];
    assert(key@ =~= tags_key());
    if !occurs_at_exec(line, &key, 0) {
        return false;
    }
    space_run_end_exec(line, 5) == line.len()
}

/// Whether `line` is a list item line (see [`dash_line`]).
fn dash_line_exec(line: &[u8]) -> (r: bool)
    ensures
        r == dash_line(line@),
{
    let a = space_run_end_exec(line, 0);
    a < line.len() && line[a] == 0x2d
}

// ---------------------------------------------------------------------
// Scanning the lines of a frontmatter
// ---------------------------------------------------------------------

/// `entry` describes line `k` of `b`: its byte range and its match as an
/// item of the `tags:` list.
pub open spec fn scan_entry_ok(
    b: Seq<u8>,
    tag: Seq<u8>,
    k: int,
    entry: (usize, usize, Option<(usize, u8)>),
) -> bool {
    &&& entry.0 as int == line_ranges(b)[k].0
    &&& entry.1 as int == line_ranges(b)[k].1
    &&& entry.0 <= entry.1 <= b.len()
    &&& is_char_boundary(b, entry.0 as int)
    &&& is_char_boundary(b, entry.1 as int)
    &&& lines_of(b)[k] == b.subrange(entry.0 as int, entry.1 as int)
    &&& match tag_item(b, tag, k) {
        Some(m) => entry.2 matches Some(x) && x.0 as int == m.0 && x.1 == m.1,
        None => entry.2 is None,
    }
    &&& entry.2 matches Some(x) ==> x.0 <= entry.1 - entry.0
}

/// Each line of `fm`, with its byte range and how it matches `tag` as an
/// item of the `tags:` list.
fn scan_lines(fm: &str, tag: &[u8]) -> (r: Vec<(usize, usize, Option<(usize, u8)>)>)
    ensures
        r@.len() == lines_of(fm.spec_bytes()).len(),
        r@.len() <= fm.spec_bytes().len(),
        forall|k: int| 0 <= k < r@.len() ==> scan_entry_ok(fm.spec_bytes(), tag@, k, #[trigger] r@[k]),
{
    let b = fm.as_bytes();
    let ghost bs = b@;
    let ghost all = line_ranges(bs);
    proof {
        lemma_str_bytes_valid(fm);
        lemma_line_count_bound(bs, 0);
    }
    let mut out: Vec<(usize, usize, Option<(usize, u8)>)> = Vec::new();
    let mut i: usize = 0;
    let mut idx: usize = 0;
    let mut in_list = false;
    assert(all.subrange(0, all.len() as int) =~= all);
    while i < b.len()
        invariant
            bs == b@,
            bs == fm.spec_bytes(),
            all == line_ranges(bs),
            valid_utf8(bs),
            all.len() <= bs.len(),
            i <= b.len(),
            0 < i < b.len() ==> bs[i - 1] == 0x0a,
            idx <= all.len(),
            out@.len() == idx,
            in_list == in_tags_list(lines_of(bs), idx as int),
            line_ranges_from(bs, i as int) == all.subrange(idx as int, all.len() as int),
            forall|k: int| 0 <= k < idx ==> scan_entry_ok(bs, tag@, k, #[trigger] out@[k]),
        decreases b.len() - i,
    {
        let e = line_end_exec(b, i);
        let c = if e < b.len() && e > i && b[e - 1] == 0x0d {
            e - 1
        } else {
            e
        };
        proof {
            lemma_line_end_bounds(bs, i as int);
            assert(line_ranges_from(bs, i as int) == seq![(i as int, c as int)] + line_ranges_from(bs, e + 1));
            assert(all.subrange(idx as int, all.len() as int)[0] == all[idx as int]);
            if i > 0 {
                lemma_boundary_after_ascii(bs, i - 1);
            } else {
                is_char_boundary_start_end_of_seq(bs);
            }
            lemma_boundary_at(bs, c as int);
        }
        let line = &b[i..c];
        let m = if in_list {
            match_item(line, tag)
        } else {
            None
        };
        out.push((i, c, m));
        in_list = tags_key_exec(line) || (dash_line_exec(line) && in_list);
        proof {
            assert(lines_of(bs)[idx as int] == bs.subrange(i as int, c as int));
            assert(line@ == bs.subrange(i as int, c as int));
            assert(scan_entry_ok(bs, tag@, idx as int, out@[idx as int]));
            let tail = all.subrange(idx as int, all.len() as int);
            assert(tail.subrange(1, tail.len() as int) =~= all.subrange(idx + 1, all.len() as int));
        }
        idx = idx + 1;
        if e < b.len() {
            i = e + 1;
        } else {
            assert(line_ranges_from(bs, e + 1) =~= Seq::<(int, int)>::empty());
            i = b.len();
            assert(line_ranges_from(bs, i as int) =~= Seq::<(int, int)>::empty());
        }
    }
    assert(line_ranges_from(bs, i as int) =~= Seq::<(int, int)>::empty());
    out
}

/// How many lines of `frontmatter` are items of its `tags:` list holding
/// `old_tag`.
pub fn count_yaml_tags(frontmatter: &str, old_tag: &str) -> (r: usize)
    ensures
        r == yaml_hits(frontmatter.spec_bytes(), old_tag.spec_bytes()).len(),
{
    let ghost bs = frontmatter.spec_bytes();
    let ghost t = old_tag.spec_bytes();
    let scans = scan_lines(frontmatter, old_tag.as_bytes());
    let mut count: usize = 0;
    let mut k: usize = 0;
    reveal(Seq::filter);
    assert(Seq::new(0, |x: int| x).filter(yaml_hit_pred(bs, t)) =~= Seq::<int>::empty());
    while k < scans.len()
        invariant
            bs == frontmatter.spec_bytes(),
            t == old_tag.spec_bytes(),
            scans@.len() == lines_of(bs).len(),
            forall|j: int| 0 <= j < scans@.len() ==> scan_entry_ok(bs, t, j, #[trigger] scans@[j]),
            k <= scans.len(),
            count <= k,
            count == Seq::new(k as nat, |x: int| x).filter(yaml_hit_pred(bs, t)).len(),
        decreases scans.len() - k,
    {
        proof {
            assert(scan_entry_ok(bs, t, k as int, scans@[k as int]));
            assert(Seq::new((k + 1) as nat, |x: int| x) =~= Seq::new(k as nat, |x: int| x).push(k as int));
            (Seq::new(k as nat, |x: int| x)).lemma_filter_push(k as int, yaml_hit_pred(bs, t));
        }
        if scans[k].2.is_some() {
            count = count + 1;
        }
        k = k + 1;
    }
    count
}

/// The bytes of a matched line after its tag is replaced by `new`.
fn rewrite_line(line: &[u8], m: (usize, u8), new: &[u8]) -> (r: Vec<u8>)
    requires
        m.0 <= line@.len(),
    ensures
        r@ == yaml_item_replaced(line@, (m.0 as int, m.1), new@),
{
    let mut out = copy_range(line, 0, m.0);
    if m.1 == 0 {
        push_all(&mut out, new);
    } else {
        out.push(m.1);
        push_all(&mut out, new);
        out.push(m.1);
    }
    assert(out@ =~= yaml_item_replaced(line@, (m.0 as int, m.1), new@));
    out
}

/// Previews the replacement of `old_tag` by `new_tag` in the `tags:` list of
/// `frontmatter`: one entry per matching item line, numbered from
/// `line_offset`.
pub fn diff_yaml_tags(frontmatter: &str, old_tag: &str, new_tag: &str, line_offset: usize) -> (r: Vec<
    SingleDiff,
>)
    requires
        forall|k: int|
            0 <= k < lines_of(frontmatter.spec_bytes()).len() && #[trigger] tag_item(
                frontmatter.spec_bytes(),
                old_tag.spec_bytes(),
                k,
            ) is Some ==> line_offset + k + 1 <= usize::MAX,
    ensures
        r@.len() == yaml_hits(frontmatter.spec_bytes(), old_tag.spec_bytes()).len(),
        forall|j: int|
            0 <= j < r@.len() ==> is_yaml_diff(
                #[trigger] r@[j],
                frontmatter.spec_bytes(),
                old_tag.spec_bytes(),
                new_tag.spec_bytes(),
                line_offset as int,
                yaml_hits(frontmatter.spec_bytes(), old_tag.spec_bytes())[j],
            ),
{
    let ghost bs = frontmatter.spec_bytes();
    let ghost t = old_tag.spec_bytes();
    let ghost nt = new_tag.spec_bytes();
    let b = frontmatter.as_bytes();
    let scans = scan_lines(frontmatter, old_tag.as_bytes());
    proof {
        lemma_str_bytes_valid(frontmatter);
        lemma_str_bytes_valid(old_tag);
        lemma_str_bytes_valid(new_tag);
    }
    let mut diffs: Vec<SingleDiff> = Vec::new();
    let mut k: usize = 0;
    reveal(Seq::filter);
    assert(Seq::new(0, |x: int| x).filter(yaml_hit_pred(bs, t)) =~= Seq::<int>::empty());
    while k < scans.len()
        invariant
            bs == frontmatter.spec_bytes(),
            bs == b@,
            t == old_tag.spec_bytes(),
            nt == new_tag.spec_bytes(),
            valid_utf8(bs),
            valid_utf8(t),
            valid_utf8(nt),
            scans@.len() == lines_of(bs).len(),
            forall|j: int| 0 <= j < scans@.len() ==> scan_entry_ok(bs, t, j, #[trigger] scans@[j]),
            forall|j: int|
                0 <= j < lines_of(bs).len() && #[trigger] tag_item(bs, t, j) is Some ==> line_offset
                    + j + 1 <= usize::MAX,
            k <= scans.len(),
            diffs@.len() == Seq::new(k as nat, |x: int| x).filter(yaml_hit_pred(bs, t)).len(),
            forall|j: int|
                0 <= j < diffs@.len() ==> is_yaml_diff(
                    #[trigger] diffs@[j],
                    bs,
                    t,
                    nt,
                    line_offset as int,
                    Seq::new(k as nat, |x: int| x).filter(yaml_hit_pred(bs, t))[j],
                ),
        decreases scans.len() - k,
    {
        let ghost before = Seq::new(k as nat, |x: int| x).filter(yaml_hit_pred(bs, t));
        proof {
            assert(scan_entry_ok(bs, t, k as int, scans@[k as int]));
            assert(Seq::new((k + 1) as nat, |x: int| x) =~= Seq::new(k as nat, |x: int| x).push(k as int));
            (Seq::new(k as nat, |x: int| x)).lemma_filter_push(k as int, yaml_hit_pred(bs, t));
        }
        let (s, e, m) = scans[k];
        match m {
            Some(mm) => {
                let ghost line = bs.subrange(s as int, e as int);
                proof {
                    lemma_valid_between(bs, s as int, e as int);
                    lemma_rewritten_valid(line, t, nt);
                }
                let old_bytes = copy_range(b, s, e);
                let new_bytes = rewrite_line(&b[s..e], mm, new_tag.as_bytes());
                let d = SingleDiff {
                    line_number: line_offset + k + 1,
                    tag_type: String::from_str("yaml"),
                    old_line: string_of(old_bytes),
                    new_line: string_of(new_bytes),
                };
                let ghost old_diffs = diffs@;
                diffs.push(d);
                proof {
                    let after = before.push(k as int);
                    assert forall|j: int| 0 <= j < diffs@.len() implies is_yaml_diff(
                        #[trigger] diffs@[j],
                        bs,
                        t,
                        nt,
                        line_offset as int,
                        after[j],
                    ) by {
                        if j < old_diffs.len() {
                            assert(diffs@[j] == old_diffs[j]);
                        }
                    }
                }
            },
            None => {},
        }
        k = k + 1;
    }
    diffs
}

/// Replaces `old_tag` by `new_tag` in every item of the `tags:` list of
/// `frontmatter`;
/// returns the new text (lines joined by `\n`, with a final `\n` when the
/// input had one) and the number of replaced lines.
pub fn replace_yaml_tags(frontmatter: &str, old_tag: &str, new_tag: &str) -> (r: (String, usize))
    ensures
        r.0@ == text_of(yaml_replaced(frontmatter.spec_bytes(), old_tag.spec_bytes(), new_tag.spec_bytes())),
        valid_utf8(yaml_replaced(frontmatter.spec_bytes(), old_tag.spec_bytes(), new_tag.spec_bytes())),
        r.1 == yaml_hits(frontmatter.spec_bytes(), old_tag.spec_bytes()).len(),
{
    let ghost bs = frontmatter.spec_bytes();
    let ghost t = old_tag.spec_bytes();
    let ghost nt = new_tag.spec_bytes();
    let ghost rewritten = rewritten_lines(bs, t, nt);
    let b = frontmatter.as_bytes();
    let scans = scan_lines(frontmatter, old_tag.as_bytes());
    proof {
        lemma_str_bytes_valid(frontmatter);
        lemma_str_bytes_valid(old_tag);
        lemma_str_bytes_valid(new_tag);
    }
    let mut out: Vec<u8> = Vec::new();
    let mut count: usize = 0;
    let mut k: usize = 0;
    reveal(Seq::filter);
    assert(Seq::new(0, |x: int| x).filter(yaml_hit_pred(bs, t)) =~= Seq::<int>::empty());
    assert(rewritten.subrange(0, 0) =~= Seq::<Seq<u8>>::empty());
    assert(valid_utf8(out@)) by {
        assert(out@ =~= Seq::<u8>::empty());
    }
    while k < scans.len()
        invariant
            bs == frontmatter.spec_bytes(),
            bs == b@,
            t == old_tag.spec_bytes(),
            nt == new_tag.spec_bytes(),
            rewritten == rewritten_lines(bs, t, nt),
            valid_utf8(bs),
            valid_utf8(t),
            valid_utf8(nt),
            scans@.len() == lines_of(bs).len(),
            forall|j: int| 0 <= j < scans@.len() ==> scan_entry_ok(bs, t, j, #[trigger] scans@[j]),
            k <= scans.len(),
            count <= k,
            count == Seq::new(k as nat, |x: int| x).filter(yaml_hit_pred(bs, t)).len(),
            out@ == join_lines(rewritten.subrange(0, k as int)),
            valid_utf8(out@),
        decreases scans.len() - k,
    {
        proof {
            assert(scan_entry_ok(bs, t, k as int, scans@[k as int]));
            assert(Seq::new((k + 1) as nat, |x: int| x) =~= Seq::new(k as nat, |x: int| x).push(k as int));
            (Seq::new(k as nat, |x: int| x)).lemma_filter_push(k as int, yaml_hit_pred(bs, t));
        }
        let (s, e, m) = scans[k];
        let ghost line = bs.subrange(s as int, e as int);
        proof {
            lemma_valid_between(bs, s as int, e as int);
            lemma_rewritten_valid(line, t, nt);
        }
        let piece = match m {
            Some(mm) => {
                count = count + 1;
                rewrite_line(&b[s..e], mm, new_tag.as_bytes())
            },
            None => copy_range(b, s, e),
        };
        assert(piece@ == rewritten[k as int]);
        let ghost old_out = out@;
        if k > 0 {
            proof {
                lemma_ascii_byte_valid(0x0a);
                valid_utf8_concat(old_out, seq![0x0au8]);
                valid_utf8_concat(old_out + seq![0x0au8], piece@);
            }
            out.push(0x0a);
            push_all(&mut out, piece.as_slice());
        } else {
            push_all(&mut out, piece.as_slice());
        }
        proof {
            let q = rewritten.subrange(0, k + 1);
            assert(q.drop_last() =~= rewritten.subrange(0, k as int));
            assert(out@ =~= join_lines(q));
        }
        k = k + 1;
    }
    assert(rewritten.subrange(0, k as int) =~= rewritten);
    if b.len() > 0 && b[b.len() - 1] == 0x0a {
        proof {
            lemma_ascii_byte_valid(0x0a);
            valid_utf8_concat(out@, seq![0x0au8]);
        }
        out.push(0x0a);
        assert(ends_with_newline(bs));
    } else {
        assert(!ends_with_newline(bs));
        assert(out@ + Seq::<u8>::empty() =~= out@);
    }
    assert(out@ == yaml_replaced(bs, t, nt));
    (string_of(out), count)
}

} // verus!
