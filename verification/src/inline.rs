//! Inline `#tag`s in body text: which occurrences count, how they are shown
//! in a preview, and how they are replaced.

use vstd::prelude::*;
use vstd::string::*;
use vstd::utf8::*;
use crate::text::{
    occurs_at, matches_from, line_end, line_start_before, count_newlines, text_of,
    occurs_at_exec, push_all, line_end_exec, copy_range, string_of,
    lemma_str_bytes_valid, lemma_ascii_byte_valid, lemma_boundary_at, lemma_boundary_after_valid,
    lemma_valid_between, lemma_boundary_after_ascii, lemma_line_end_bounds,
};
use crate::boundary::{
    tag_boundary_char, slash_before, char_at_byte, is_tag_boundary, preceded_by_slash,
    after_match_char,
};
use crate::code_blocks::{code_blocks, in_ranges, ranges_view, find_code_blocks, inside_code_block};
use crate::model::SingleDiff;

verus! {

/// The start of the line that holds byte `s` comes at or before `s`, with
/// no newline in between.
pub proof fn lemma_line_start_before(b: Seq<u8>, s: int)
    requires
        0 <= s <= b.len(),
    ensures
        0 <= line_start_before(b, s) <= s,
        forall|t: int| line_start_before(b, s) <= t < s ==> b[t] != 0x0a,
    decreases s,
{
    if s > 0 && b[s - 1] != 0x0a {
        lemma_line_start_before(b, s - 1);
    }
}

/// A line that has no newline up to byte `s` ends at or after `s`.
pub proof fn lemma_line_end_past(b: Seq<u8>, i: int, s: int)
    requires
        0 <= i <= s <= b.len(),
        forall|t: int| i <= t < s ==> b[t] != 0x0a,
    ensures
        s <= line_end(b, i),
    decreases s - i,
{
    lemma_line_end_bounds(b, i);
    if i < s {
        lemma_line_end_past(b, i + 1, s);
    }
}

/// `#` followed by the tag.
pub open spec fn inline_pattern(tag: Seq<u8>) -> Seq<u8> {
    seq![0x23u8] + tag
}

/// The occurrence of `#tag` at byte `s` of `b` is an inline tag: it does not
/// follow a `/`, does not start inside a fenced code block, and the character
/// after it ends a tag.
pub open spec fn is_inline_tag_at(b: Seq<u8>, tag: Seq<u8>, s: int) -> bool {
    &&& !slash_before(b, s)
    &&& !in_ranges(s, code_blocks(b))
    &&& tag_boundary_char(char_at_byte(b, s + 1 + tag.len()))
}

/// [`is_inline_tag_at`] as a predicate on positions.
pub open spec fn inline_pred(b: Seq<u8>, tag: Seq<u8>) -> spec_fn(int) -> bool {
    |s: int| is_inline_tag_at(b, tag, s)
}

/// The starts of the inline tags `#tag` in `b`, in order: of the leftmost
/// non-overlapping occurrences of `#tag`, those that count.
pub open spec fn inline_tag_positions(b: Seq<u8>, tag: Seq<u8>) -> Seq<int> {
    matches_from(b, inline_pattern(tag), 0).filter(inline_pred(b, tag))
}

/// The 1-based number of the line that holds byte `s`.
pub open spec fn line_number_at(b: Seq<u8>, s: int) -> int {
    1 + count_newlines(b.subrange(0, s))
}

/// The line (without its newline) that holds byte `s`.
pub open spec fn line_around(b: Seq<u8>, s: int) -> Seq<u8> {
    b.subrange(line_start_before(b, s), line_end(b, line_start_before(b, s)))
}

/// The position `p` starts an occurrence of length `n` that lies within
/// the line `ls..le`.
pub open spec fn in_line(ls: int, le: int, n: int) -> spec_fn(int) -> bool {
    |p: int| ls <= p && p + n <= le
}

/// The positions of `ps` whose occurrence (of length `n`) lies within the
/// line `ls..le`, counted from the line's start.
pub open spec fn line_offsets(ps: Seq<int>, ls: int, le: int, n: int) -> Seq<int> {
    ps.filter(in_line(ls, le, n)).map_values(|p: int| p - ls)
}

/// The line that holds byte `s` of `b` as the replacement writes it: every
/// inline tag `#tag` that lies within the line replaced by `#new`.
pub open spec fn line_with_tags_replaced(b: Seq<u8>, tag: Seq<u8>, new: Seq<u8>, s: int) -> Seq<u8> {
    let ls = line_start_before(b, s);
    let le = line_end(b, ls);
    let n = 1 + tag.len() as int;
    replace_all_at(
        b.subrange(ls, le),
        line_offsets(inline_tag_positions(b, tag), ls, le, n),
        n,
        inline_pattern(new),
    )
}

/// `d` previews the inline tag at byte `s` of `b`: it carries the line's
/// number (counted from `offset`), the kind `"inline"`, and the line before
/// and after the replacement (every inline tag of the line replaced).
pub open spec fn is_inline_diff(
    d: SingleDiff,
    b: Seq<u8>,
    tag: Seq<u8>,
    new: Seq<u8>,
    offset: int,
    s: int,
) -> bool {
    let line = line_around(b, s);
    &&& d.line_number == offset + line_number_at(b, s)
    &&& d.tag_type@ == "inline"@
    &&& d.old_line@ == text_of(line)
    &&& d.new_line@ == text_of(line_with_tags_replaced(b, tag, new, s))
}

/// The bytes up to the end of the last replaced occurrence in `ps`.
pub open spec fn end_of(ps: Seq<int>, n: int) -> int {
    if ps.len() == 0 {
        0
    } else {
        ps.last() + n
    }
}

/// `b` up to the end of the last occurrence in `ps`, with each occurrence
/// (of length `n`) replaced by `rep`.
pub open spec fn splice_prefix(b: Seq<u8>, ps: Seq<int>, n: int, rep: Seq<u8>) -> Seq<u8>
    decreases ps.len(),
{
    if ps.len() == 0 {
        Seq::empty()
    } else {
        splice_prefix(b, ps.drop_last(), n, rep) + b.subrange(end_of(ps.drop_last(), n), ps.last())
            + rep
    }
}

/// `b` with each occurrence in `ps` (of length `n`) replaced by `rep`.
pub open spec fn replace_all_at(b: Seq<u8>, ps: Seq<int>, n: int, rep: Seq<u8>) -> Seq<u8> {
    splice_prefix(b, ps, n, rep) + b.subrange(end_of(ps, n), b.len() as int)
}

/// `b` with every inline tag `#tag` replaced by `#new`.
pub open spec fn inline_replaced(b: Seq<u8>, tag: Seq<u8>, new: Seq<u8>) -> Seq<u8> {
    replace_all_at(b, inline_tag_positions(b, tag), 1 + tag.len() as int, inline_pattern(new))
}

/// Positions as integers.
pub open spec fn as_ints(v: Seq<usize>) -> Seq<int> {
    v.map_values(|x: usize| x as int)
}

/// An occurrence of `#tag` starts and ends on character boundaries.
pub proof fn lemma_pattern_cuts(b: Seq<u8>, tag: Seq<u8>, s: int)
    requires
        valid_utf8(b),
        valid_utf8(tag),
        occurs_at(b, inline_pattern(tag), s),
    ensures
        valid_utf8(inline_pattern(tag)),
        is_char_boundary(b, s),
        is_char_boundary(b, s + 1 + tag.len()),
{
    lemma_ascii_byte_valid(0x23);
    valid_utf8_concat(seq![0x23u8], tag);
    assert(b.subrange(s, s + 1 + tag.len())[0] == b[s]);
    assert(inline_pattern(tag)[0] == 0x23);
    lemma_boundary_at(b, s);
    lemma_boundary_after_valid(b, s, s + 1 + tag.len());
}

/// Every element of `matches_from` is an occurrence at or after `from`.
pub proof fn lemma_matches_occur(hay: Seq<u8>, pat: Seq<u8>, from: int, k: int)
    requires
        0 <= k < matches_from(hay, pat, from).len(),
    ensures
        occurs_at(hay, pat, matches_from(hay, pat, from)[k]),
        from <= matches_from(hay, pat, from)[k],
    decreases hay.len() - from,
{
    if !(pat.len() == 0 || from < 0 || from + pat.len() > hay.len()) {
        if occurs_at(hay, pat, from) {
            if k > 0 {
                lemma_matches_occur(hay, pat, from + pat.len(), k - 1);
            }
        } else {
            lemma_matches_occur(hay, pat, from + 1, k);
        }
    }
}

/// Every inline tag lies within the text.
pub proof fn lemma_inline_positions_within(b: Seq<u8>, tag: Seq<u8>, k: int)
    requires
        0 <= k < inline_tag_positions(b, tag).len(),
    ensures
        0 <= inline_tag_positions(b, tag)[k],
        inline_tag_positions(b, tag)[k] + 1 + tag.len() <= b.len(),
        occurs_at(b, inline_pattern(tag), inline_tag_positions(b, tag)[k]),
{
    let ms = matches_from(b, inline_pattern(tag), 0);
    let ps = ms.filter(inline_pred(b, tag));
    assert(ps.contains(ps[k]));
    ms.lemma_filter_contains_rev(inline_pred(b, tag), ps[k]);
    let j = choose|j: int| 0 <= j < ms.len() && ms[j] == ps[k];
    lemma_matches_occur(b, inline_pattern(tag), 0, j);
}

/// `#tag` as bytes.
fn make_pattern(tag: &str) -> (p: Vec<u8>)
    requires
        tag.spec_bytes().len() < usize::MAX,
    ensures
        p@ == inline_pattern(tag.spec_bytes()),
{
    let mut p: Vec<u8> = Vec::new();
    p.push(0x23);
    push_all(&mut p, tag.as_bytes());
    assert(p@ =~= inline_pattern(tag.spec_bytes()));
    p
}

/// The byte offsets of the inline tags `#tag` in `body`, in order.
pub fn inline_tag_starts(body: &str, tag: &str) -> (r: Vec<usize>)
    requires
        tag.spec_bytes().len() < usize::MAX,
    ensures
        as_ints(r@) == inline_tag_positions(body.spec_bytes(), tag.spec_bytes()),
        forall|k: int|
            0 <= k < r@.len() ==> occurs_at(
                body.spec_bytes(),
                inline_pattern(tag.spec_bytes()),
                #[trigger] r@[k] as int,
            ),
        forall|k: int, l: int|
            0 <= k < l < r@.len() ==> #[trigger] r@[k] + 1 + tag.spec_bytes().len() <= #[trigger] r@[l],
{
    let b = body.as_bytes();
    let ghost bs = b@;
    let ghost ts = tag.spec_bytes();
    proof {
        lemma_str_bytes_valid(body);
        lemma_str_bytes_valid(tag);
    }
    let pat = make_pattern(tag);
    let n = pat.len();
    let blocks = find_code_blocks(body);
    let mut out: Vec<usize> = Vec::new();
    let ghost mut done: Seq<int> = Seq::empty();
    if n > b.len() {
        assert(matches_from(bs, pat@, 0) =~= Seq::<int>::empty());
        reveal(Seq::filter);
        assert(as_ints(out@) =~= Seq::<int>::empty());
        return out;
    }
    let mut i: usize = 0;
    assert(matches_from(bs, pat@, 0) =~= done + matches_from(bs, pat@, 0));
    reveal(Seq::filter);
    assert(as_ints(out@) =~= done.filter(inline_pred(bs, ts)));
    while i <= b.len() - n
        invariant
            bs == b@,
            ts == tag.spec_bytes(),
            bs == body.spec_bytes(),
            pat@ == inline_pattern(ts),
            n == pat@.len(),
            1 <= n <= b.len(),
            ranges_view(blocks@) == code_blocks(bs),
            valid_utf8(bs),
            valid_utf8(ts),
            i <= b.len(),
            matches_from(bs, pat@, 0) == done + matches_from(bs, pat@, i as int),
            as_ints(out@) == done.filter(inline_pred(bs, ts)),
            forall|k: int| 0 <= k < out@.len() ==> occurs_at(bs, pat@, #[trigger] out@[k] as int),
            forall|k: int, l: int| 0 <= k < l < out@.len() ==> #[trigger] out@[k] + n <= #[trigger] out@[l],
            forall|k: int| 0 <= k < out@.len() ==> #[trigger] out@[k] + n <= i,
        decreases b.len() - i,
    {
        if occurs_at_exec(b, pat.as_slice(), i) {
            proof {
                lemma_pattern_cuts(bs, ts, i as int);
                assert(matches_from(bs, pat@, i as int) == seq![i as int] + matches_from(bs, pat@, i + n));
                done.lemma_filter_push(i as int, inline_pred(bs, ts));
            }
            let ghost old_done = done;
            proof {
                done = done.push(i as int);
                assert(old_done + matches_from(bs, pat@, i as int) =~= done + matches_from(bs, pat@, i + n));
            }
            let keep = !preceded_by_slash(body, i) && !inside_code_block(i, blocks.as_slice())
                && is_tag_boundary(after_match_char(body, i + n));
            assert(keep == inline_pred(bs, ts)(i as int));
            if keep {
                let ghost old_out = out@;
                out.push(i);
                assert(as_ints(out@) =~= as_ints(old_out).push(i as int));
            }
            i = i + n;
        } else {
            assert(matches_from(bs, pat@, i as int) == matches_from(bs, pat@, i + 1));
            i = i + 1;
        }
    }
    assert(matches_from(bs, pat@, i as int) =~= Seq::<int>::empty());
    assert(done + Seq::<int>::empty() =~= done);
    out
}

/// How many inline `#old_tag`s `body` holds.
pub fn count_inline_tags(body: &str, old_tag: &str) -> (r: usize)
    requires
        old_tag.spec_bytes().len() < usize::MAX,
    ensures
        r == inline_tag_positions(body.spec_bytes(), old_tag.spec_bytes()).len(),
{
    let starts = inline_tag_starts(body, old_tag);
    starts.len()
}

/// Replaces every inline `#old_tag` of `body` by `#new_tag`; returns the new
/// body and the number of replacements.
pub fn replace_inline_tags(body: &str, old_tag: &str, new_tag: &str) -> (r: (String, usize))
    requires
        old_tag.spec_bytes().len() < usize::MAX,
        new_tag.spec_bytes().len() < usize::MAX,
    ensures
        r.0@ == text_of(inline_replaced(body.spec_bytes(), old_tag.spec_bytes(), new_tag.spec_bytes())),
        valid_utf8(inline_replaced(body.spec_bytes(), old_tag.spec_bytes(), new_tag.spec_bytes())),
        r.1 == inline_tag_positions(body.spec_bytes(), old_tag.spec_bytes()).len(),
{
    let ghost bs = body.spec_bytes();
    let ghost ts = old_tag.spec_bytes();
    let starts = inline_tag_starts(body, old_tag);
    let ghost ps = as_ints(starts@);
    let rep = make_pattern(new_tag);
    let b = body.as_bytes();
    let n = old_tag.len() + 1;
    proof {
        lemma_str_bytes_valid(body);
        lemma_str_bytes_valid(old_tag);
        lemma_str_bytes_valid(new_tag);
        lemma_ascii_byte_valid(0x23);
        valid_utf8_concat(seq![0x23u8], new_tag.spec_bytes());
        vstd::utf8::is_char_boundary_start_end_of_seq(bs);
    }
    let mut out: Vec<u8> = Vec::new();
    let mut last: usize = 0;
    let mut k: usize = 0;
    assert(ps.subrange(0, 0) =~= Seq::<int>::empty());
    assert(valid_utf8(out@)) by {
        assert(out@ =~= Seq::<u8>::empty());
    }
    while k < starts.len()
        invariant
            bs == b@,
            ps == as_ints(starts@),
            bs == body.spec_bytes(),
            ts == old_tag.spec_bytes(),
            n == 1 + ts.len(),
            valid_utf8(bs),
            valid_utf8(ts),
            valid_utf8(rep@),
            rep@ == inline_pattern(new_tag.spec_bytes()),
            forall|j: int| 0 <= j < starts@.len() ==> occurs_at(bs, inline_pattern(ts), #[trigger] starts@[j] as int),
            forall|j: int, l: int| 0 <= j < l < starts@.len() ==> #[trigger] starts@[j] + n <= #[trigger] starts@[l],
            k <= starts.len(),
            last as int == end_of(ps.subrange(0, k as int), n as int),
            last <= b.len(),
            is_char_boundary(bs, last as int),
            k < starts.len() ==> last <= starts@[k as int],
            out@ == splice_prefix(bs, ps.subrange(0, k as int), n as int, rep@),
            valid_utf8(out@),
        decreases starts.len() - k,
    {
        let s = starts[k];
        proof {
            lemma_pattern_cuts(bs, ts, s as int);
            lemma_valid_between(bs, last as int, s as int);
            valid_utf8_concat(out@, bs.subrange(last as int, s as int));
            valid_utf8_concat(out@ + bs.subrange(last as int, s as int), rep@);
        }
        let ghost old_out = out@;
        push_all(&mut out, &b[last..s]);
        push_all(&mut out, rep.as_slice());
        proof {
            let q = ps.subrange(0, k + 1);
            assert(q.drop_last() =~= ps.subrange(0, k as int));
            assert(q.last() == s as int);
            assert(out@ =~= splice_prefix(bs, q, n as int, rep@));
        }
        last = s + n;
        k = k + 1;
    }
    assert(ps.subrange(0, k as int) =~= ps);
    proof {
        lemma_valid_between(bs, last as int, bs.len() as int);
        valid_utf8_concat(out@, bs.subrange(last as int, bs.len() as int));
    }
    push_all(&mut out, &b[last..b.len()]);
    assert(out@ == inline_replaced(bs, ts, new_tag.spec_bytes()));
    (string_of(out), starts.len())
}

/// The line `ls..le` of `b` with each occurrence (of length `n`) starting
/// at one of `starts` that lies within it replaced by `rep`.
fn replace_tags_in_line(
    b: &[u8],
    starts: &Vec<usize>,
    n: usize,
    rep: &Vec<u8>,
    ls: usize,
    le: usize,
) -> (r: Vec<u8>)
    requires
        ls <= le <= b@.len(),
        valid_utf8(b@),
        valid_utf8(rep@),
        is_char_boundary(b@, ls as int),
        is_char_boundary(b@, le as int),
        forall|j: int|
            0 <= j < starts@.len() ==> {
                &&& is_char_boundary(b@, #[trigger] starts@[j] as int)
                &&& starts@[j] + n <= b@.len()
                &&& is_char_boundary(b@, starts@[j] + n)
            },
        forall|j: int, l: int|
            0 <= j < l < starts@.len() ==> #[trigger] starts@[j] + n <= #[trigger] starts@[l],
    ensures
        r@ == replace_all_at(
            b@.subrange(ls as int, le as int),
            line_offsets(as_ints(starts@), ls as int, le as int, n as int),
            n as int,
            rep@,
        ),
        valid_utf8(r@),
{
    let ghost line = b@.subrange(ls as int, le as int);
    let ghost ps = as_ints(starts@);
    let ghost pred = in_line(ls as int, le as int, n as int);
    let blen = b.len();
    let mut out: Vec<u8> = Vec::new();
    let mut last = ls;
    let mut j: usize = 0;
    proof {
        reveal(Seq::filter);
        assert(ps.subrange(0, 0).filter(pred) =~= Seq::<int>::empty());
        assert(line_offsets(ps.subrange(0, 0), ls as int, le as int, n as int) =~= Seq::<int>::empty());
        assert(out@ =~= Seq::<u8>::empty());
    }
    while j < starts.len()
        invariant
            ls <= le <= b@.len(),
            blen == b@.len(),
            line == b@.subrange(ls as int, le as int),
            ps == as_ints(starts@),
            pred == in_line(ls as int, le as int, n as int),
            valid_utf8(b@),
            valid_utf8(rep@),
            forall|i: int|
                0 <= i < starts@.len() ==> {
                    &&& is_char_boundary(b@, #[trigger] starts@[i] as int)
                    &&& starts@[i] + n <= b@.len()
                    &&& is_char_boundary(b@, starts@[i] + n)
                },
            forall|i: int, l: int|
                0 <= i < l < starts@.len() ==> #[trigger] starts@[i] + n <= #[trigger] starts@[l],
            j <= starts.len(),
            ls <= last <= le,
            is_char_boundary(b@, last as int),
            last as int == ls + end_of(line_offsets(ps.subrange(0, j as int), ls as int, le as int, n as int), n as int),
            out@ == splice_prefix(
                line,
                line_offsets(ps.subrange(0, j as int), ls as int, le as int, n as int),
                n as int,
                rep@,
            ),
            valid_utf8(out@),
            forall|i: int|
                j <= i < starts@.len() && ls <= #[trigger] starts@[i] && starts@[i] + n <= le
                    ==> last <= starts@[i],
        decreases starts.len() - j,
    {
        let p = starts[j];
        assert(is_char_boundary(b@, starts@[j as int] as int));
        let ghost q = ps.subrange(0, j as int);
        let ghost offs = line_offsets(q, ls as int, le as int, n as int);
        assert(ps.subrange(0, j + 1) =~= q.push(p as int));
        proof {
            q.lemma_filter_push(p as int, pred);
        }
        if ls <= p && p + n <= le {
            proof {
                lemma_valid_between(b@, last as int, p as int);
                valid_utf8_concat(out@, b@.subrange(last as int, p as int));
                valid_utf8_concat(out@ + b@.subrange(last as int, p as int), rep@);
            }
            let ghost old_out = out@;
            push_all(&mut out, &b[last..p]);
            push_all(&mut out, rep.as_slice());
            proof {
                let offs2 = line_offsets(q.push(p as int), ls as int, le as int, n as int);
                assert(offs2 =~= offs.push(p - ls));
                assert(offs2.drop_last() =~= offs);
                assert(line.subrange(last - ls, p - ls) =~= b@.subrange(last as int, p as int));
                assert(out@ =~= splice_prefix(line, offs2, n as int, rep@));
            }
            last = p + n;
        } else {
            proof {
                assert(line_offsets(q.push(p as int), ls as int, le as int, n as int) =~= offs);
            }
        }
        j = j + 1;
    }
    assert(ps.subrange(0, j as int) =~= ps);
    proof {
        lemma_valid_between(b@, last as int, le as int);
        valid_utf8_concat(out@, b@.subrange(last as int, le as int));
    }
    push_all(&mut out, &b[last..le]);
    assert(line.subrange(last - ls, line.len() as int) =~= b@.subrange(last as int, le as int));
    out
}

/// Previews the replacement of every inline `#old_tag` of `body` by
/// `#new_tag`: one entry per tag, numbered from `line_offset` on, holding
/// the line around the tag before and after the replacement.
pub fn diff_inline_tags(body: &str, old_tag: &str, new_tag: &str, line_offset: usize) -> (r: Vec<
    SingleDiff,
>)
    requires
        old_tag.spec_bytes().len() < usize::MAX,
        new_tag.spec_bytes().len() < usize::MAX,
        forall|k: int|
            0 <= k < inline_tag_positions(body.spec_bytes(), old_tag.spec_bytes()).len()
                ==> line_offset + line_number_at(
                body.spec_bytes(),
                #[trigger] inline_tag_positions(body.spec_bytes(), old_tag.spec_bytes())[k],
            ) <= usize::MAX,
    ensures
        r@.len() == inline_tag_positions(body.spec_bytes(), old_tag.spec_bytes()).len(),
        forall|k: int|
            0 <= k < r@.len() ==> is_inline_diff(
                #[trigger] r@[k],
                body.spec_bytes(),
                old_tag.spec_bytes(),
                new_tag.spec_bytes(),
                line_offset as int,
                inline_tag_positions(body.spec_bytes(), old_tag.spec_bytes())[k],
            ),
{
    let ghost bs = body.spec_bytes();
    let ghost ts = old_tag.spec_bytes();
    let starts = inline_tag_starts(body, old_tag);
    let ghost ps = as_ints(starts@);
    let pat = make_pattern(old_tag);
    let rep = make_pattern(new_tag);
    let b = body.as_bytes();
    proof {
        lemma_str_bytes_valid(body);
        lemma_str_bytes_valid(old_tag);
        lemma_str_bytes_valid(new_tag);
        lemma_ascii_byte_valid(0x23);
        valid_utf8_concat(seq![0x23u8], new_tag.spec_bytes());
        valid_utf8_concat(seq![0x23u8], old_tag.spec_bytes());
        vstd::utf8::is_char_boundary_start_end_of_seq(bs);
        assert(bs.subrange(0, 0) =~= Seq::<u8>::empty());
    }
    let mut diffs: Vec<SingleDiff> = Vec::new();
    let mut scan: usize = 0;
    let mut nl: usize = 0;
    let mut ls: usize = 0;
    let mut k: usize = 0;
    while k < starts.len()
        invariant
            bs == b@,
            ps == as_ints(starts@),
            ps == inline_tag_positions(bs, ts),
            bs == body.spec_bytes(),
            ts == old_tag.spec_bytes(),
            valid_utf8(bs),
            valid_utf8(ts),
            valid_utf8(pat@),
            valid_utf8(rep@),
            pat@ == inline_pattern(ts),
            rep@ == inline_pattern(new_tag.spec_bytes()),
            forall|j: int| 0 <= j < starts@.len() ==> occurs_at(bs, pat@, #[trigger] starts@[j] as int),
            forall|j: int, l: int| 0 <= j < l < starts@.len() ==> #[trigger] starts@[j] + pat@.len() <= #[trigger] starts@[l],
            forall|j: int|
                0 <= j < ps.len() ==> line_offset + line_number_at(bs, #[trigger] ps[j]) <= usize::MAX,
            k <= starts.len(),
            scan <= b.len(),
            k < starts.len() ==> scan <= starts@[k as int],
            nl == count_newlines(bs.subrange(0, scan as int)),
            nl <= scan,
            ls as int == line_start_before(bs, scan as int),
            ls <= scan,
            is_char_boundary(bs, ls as int),
            diffs@.len() == k,
            forall|j: int|
                0 <= j < k ==> is_inline_diff(
                    #[trigger] diffs@[j],
                    bs,
                    ts,
                    new_tag.spec_bytes(),
                    line_offset as int,
                    ps[j],
                ),
        decreases starts.len() - k,
    {
        let s = starts[k];
        while scan < s
            invariant
                scan <= s,
                s <= b.len(),
                bs == b@,
                valid_utf8(bs),
                nl == count_newlines(bs.subrange(0, scan as int)),
                nl <= scan,
                ls as int == line_start_before(bs, scan as int),
                ls <= scan,
                is_char_boundary(bs, ls as int),
            decreases s - scan,
        {
            assert(bs.subrange(0, scan + 1).drop_last() =~= bs.subrange(0, scan as int));
            if b[scan] == 0x0a {
                proof {
                    lemma_boundary_after_ascii(bs, scan as int);
                }
                nl = nl + 1;
                ls = scan + 1;
            }
            scan = scan + 1;
        }
        proof {
            lemma_pattern_cuts(bs, ts, s as int);
        }
        let le = line_end_exec(b, ls);
        proof {
            lemma_boundary_at(bs, le as int);
            lemma_valid_between(bs, ls as int, le as int);
        }
        proof {
            lemma_line_start_before(bs, s as int);
            lemma_line_end_past(bs, ls as int, s as int);
        }
        let line_bytes = copy_range(b, ls, le);
        proof {
            assert forall|j: int| 0 <= j < starts@.len() implies {
                &&& is_char_boundary(bs, #[trigger] starts@[j] as int)
                &&& starts@[j] + pat@.len() <= bs.len()
                &&& is_char_boundary(bs, starts@[j] + pat@.len())
            } by {
                lemma_pattern_cuts(bs, ts, starts@[j] as int);
            }
        }
        let new_line_bytes = replace_tags_in_line(b, &starts, pat.len(), &rep, ls, le);
        let old_line = string_of(line_bytes);
        let new_line = string_of(new_line_bytes);
        assert(ps[k as int] == s as int);
        let d = SingleDiff {
            line_number: line_offset + nl + 1,
            tag_type: String::from_str("inline"),
            old_line,
            new_line,
        };
        diffs.push(d);
        k = k + 1;
    }
    diffs
}

} // verus!
