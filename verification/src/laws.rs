//! Properties of the library as a whole: what holds across the search,
//! preview and replace steps.

use vstd::prelude::*;
use vstd::string::*;
use vstd::utf8::*;
use crate::text::{
    occurs_at, has_prefix, find_from, matches_from, line_end, line_ranges_from, lines_from,
    lines_of, count_newlines, line_start_before, lemma_line_end_bounds,
    lemma_count_newlines_bound, lemma_find_from_found, lemma_valid_between, lemma_boundary_at,
    lemma_boundary_not_continuation, lemma_ascii_byte_valid,
};
use crate::yaml::{
    yaml_item_match, yaml_item_replaced, yaml_replaced, rewritten_lines, tag_item, yaml_hits,
    yaml_hit_pred, join_lines, ends_with_newline, space_width, space_run_end, space_stops,
    last_bare_stop, bare_tail_ok, yaml_line_rewritten, in_tags_list, tags_key_line, tags_key, dash_line,
};
use crate::frontmatter::{
    open_len, frontmatter_parts, dashes, dashes_lf, dashes_crlf, close_lf, close_crlf,
};
use crate::note::{
    body_start, search_text, note_body, note_yaml_count, note_inline_count, replaced_note, replaced_head, is_note_preview,
};
use crate::inline::{
    line_around, lemma_line_start_before, lemma_line_end_past, inline_pattern, replace_all_at, inline_pred, inline_tag_positions, inline_replaced, splice_prefix, end_of,
    lemma_matches_occur, lemma_inline_positions_within, lemma_pattern_cuts, is_inline_tag_at,
    line_with_tags_replaced, line_offsets, in_line,
};
use crate::code_blocks::{code_blocks, in_ranges, fence, fence_at, fences_from, pair_fences};
use crate::boundary::{slash_before, tag_boundary_char, char_at_byte};
use crate::model::SingleDiff;
use crate::search::lemma_filter_none;

verus! {

/// The leftmost non-overlapping occurrences come in order, each ending
/// before the next starts.
proof fn lemma_matches_ordered(hay: Seq<u8>, pat: Seq<u8>, from: int, k: int, l: int)
    requires
        0 <= k < l < matches_from(hay, pat, from).len(),
    ensures
        matches_from(hay, pat, from)[k] + pat.len() <= matches_from(hay, pat, from)[l],
    decreases hay.len() - from,
{
    if !(pat.len() == 0 || from < 0 || from + pat.len() > hay.len()) {
        if occurs_at(hay, pat, from) {
            if k > 0 {
                lemma_matches_ordered(hay, pat, from + pat.len(), k - 1, l - 1);
            } else {
                lemma_matches_occur(hay, pat, from + pat.len(), l - 1);
            }
        } else {
            lemma_matches_ordered(hay, pat, from + 1, k, l);
        }
    }
}

/// Keeping some elements of a sequence keeps them in order with their gaps.
proof fn lemma_filter_ordered(s: Seq<int>, p: spec_fn(int) -> bool, n: int)
    requires
        forall|k: int, l: int| 0 <= k < l < s.len() ==> #[trigger] s[k] + n <= #[trigger] s[l],
    ensures
        forall|k: int, l: int|
            0 <= k < l < s.filter(p).len() ==> #[trigger] s.filter(p)[k] + n <= #[trigger] s.filter(p)[l],
    decreases s.len(),
{
    reveal(Seq::filter);
    if s.len() > 0 {
        let d = s.drop_last();
        lemma_filter_ordered(d, p, n);
        let f = s.filter(p);
        let fd = d.filter(p);
        if p(s.last()) {
            assert forall|k: int, l: int| 0 <= k < l < f.len() implies #[trigger] f[k] + n <= #[trigger] f[l] by {
                if l < f.len() - 1 {
                    assert(f[k] == fd[k] && f[l] == fd[l]);
                } else {
                    assert(f[k] == fd[k]);
                    assert(fd.contains(fd[k]));
                    d.lemma_filter_contains_rev(p, fd[k]);
                    let j = choose|j: int| 0 <= j < d.len() && d[j] == fd[k];
                    assert(s[j] == d[j]);
                    assert(s[j] + n <= s[s.len() - 1]);
                }
            }
        }
    }
}

/// The inline tags of a text come in order, each ending before the next.
pub proof fn lemma_inline_positions_ordered(b: Seq<u8>, tag: Seq<u8>)
    ensures
        forall|k: int, l: int|
            0 <= k < l < inline_tag_positions(b, tag).len() ==> #[trigger] inline_tag_positions(b, tag)[k]
                + 1 + tag.len() <= #[trigger] inline_tag_positions(b, tag)[l],
{
    let ms = matches_from(b, inline_pattern(tag), 0);
    assert forall|k: int, l: int| 0 <= k < l < ms.len() implies #[trigger] ms[k] + (1 + tag.len()) <= #[trigger] ms[l] by {
        lemma_matches_ordered(b, inline_pattern(tag), 0, k, l);
    }
    lemma_filter_ordered(ms, inline_pred(b, tag), 1 + tag.len() as int);
}

/// Splicing the pattern back in where it stood rebuilds the text up to the
/// last occurrence.
proof fn lemma_splice_same(b: Seq<u8>, ps: Seq<int>, pat: Seq<u8>)
    requires
        forall|k: int| 0 <= k < ps.len() ==> occurs_at(b, pat, #[trigger] ps[k]),
        forall|k: int| 0 < k < ps.len() ==> ps[k - 1] + pat.len() <= #[trigger] ps[k],
    ensures
        splice_prefix(b, ps, pat.len() as int, pat) == b.subrange(0, end_of(ps, pat.len() as int)),
        0 <= end_of(ps, pat.len() as int) <= b.len(),
    decreases ps.len(),
{
    if ps.len() > 0 {
        let d = ps.drop_last();
        lemma_splice_same(b, d, pat);
        let last = ps.last();
        assert(occurs_at(b, pat, ps[ps.len() - 1]));
        if d.len() > 0 {
            assert(d.last() == ps[ps.len() - 2]);
        }
        assert(b.subrange(0, end_of(d, pat.len() as int)) + b.subrange(end_of(d, pat.len() as int), last)
            + pat =~= b.subrange(0, last + pat.len()));
    }
}

/// Replacing an inline tag by itself leaves the text as it was.
pub proof fn law_inline_replace_same_tag_is_identity(b: Seq<u8>, tag: Seq<u8>)
    ensures
        inline_replaced(b, tag, tag) == b,
{
    let ps = inline_tag_positions(b, tag);
    let pat = inline_pattern(tag);
    assert forall|k: int| 0 <= k < ps.len() implies occurs_at(b, pat, #[trigger] ps[k]) by {
        lemma_inline_positions_within(b, tag, k);
    }
    lemma_inline_positions_ordered(b, tag);
    assert forall|k: int| 0 < k < ps.len() implies ps[k - 1] + pat.len() <= #[trigger] ps[k] by {
        assert(ps[k - 1] + 1 + tag.len() <= ps[k]);
    }
    lemma_splice_same(b, ps, pat);
    assert(b.subrange(0, end_of(ps, pat.len() as int)) + b.subrange(end_of(ps, pat.len() as int), b.len() as int) =~= b);
}

/// The length of the text rebuilt up to the last occurrence: every
/// occurrence of length `n` replaced by `rep`.
proof fn lemma_splice_len(b: Seq<u8>, ps: Seq<int>, n: int, rep: Seq<u8>)
    requires
        n >= 0,
        forall|k: int| 0 <= k < ps.len() ==> 0 <= #[trigger] ps[k] && ps[k] + n <= b.len(),
        forall|k: int| 0 < k < ps.len() ==> ps[k - 1] + n <= #[trigger] ps[k],
    ensures
        splice_prefix(b, ps, n, rep).len() == end_of(ps, n) + ps.len() * (rep.len() - n),
        0 <= end_of(ps, n) <= b.len(),
    decreases ps.len(),
{
    if ps.len() > 0 {
        let d = ps.drop_last();
        assert forall|k: int| 0 < k < d.len() implies d[k - 1] + n <= #[trigger] d[k] by {
            assert(d[k] == ps[k] && d[k - 1] == ps[k - 1]);
        }
        assert forall|k: int| 0 <= k < d.len() implies 0 <= #[trigger] d[k] && d[k] + n <= b.len() by {
            assert(d[k] == ps[k]);
        }
        lemma_splice_len(b, d, n, rep);
        let last = ps[ps.len() - 1];
        assert(0 <= last && last + n <= b.len());
        if d.len() > 0 {
            assert(d.last() == ps[ps.len() - 2]);
        }
        let m = d.len() as int;
        let x = rep.len() - n;
        assert((m + 1) * x == m * x + x) by (nonlinear_arith);
    }
}

/// Replacing the inline tags changes the length of the text by the length
/// difference of the two tags once per counted tag, and leaves a text
/// without counted tags as it was.
pub proof fn law_inline_replace_length(b: Seq<u8>, tag: Seq<u8>, new: Seq<u8>)
    ensures
        inline_replaced(b, tag, new).len() == b.len() + inline_tag_positions(b, tag).len() * (
        new.len() - tag.len()),
        inline_tag_positions(b, tag).len() == 0 ==> inline_replaced(b, tag, new) == b,
{
    let ps = inline_tag_positions(b, tag);
    let n: int = 1 + tag.len() as int;
    assert forall|k: int| 0 <= k < ps.len() implies 0 <= #[trigger] ps[k] && ps[k] + n <= b.len() by {
        lemma_inline_positions_within(b, tag, k);
    }
    lemma_inline_positions_ordered(b, tag);
    assert forall|k: int| 0 < k < ps.len() implies ps[k - 1] + n <= #[trigger] ps[k] by {
        assert(ps[k - 1] + 1 + tag.len() <= ps[k]);
    }
    lemma_splice_len(b, ps, n, inline_pattern(new));
    assert(inline_pattern(new).len() == 1 + new.len());
    if ps.len() == 0 {
        assert(inline_replaced(b, tag, new) =~= b);
    }
}

/// The pieces of `b` from byte `i` on between newlines, the way
/// `str::split('\n')` cuts them: the last piece runs to the end and may be
/// empty.
pub open spec fn split_pieces(b: Seq<u8>, i: int) -> Seq<Seq<u8>>
    decreases b.len() + 1 - i,
{
    if i < 0 || i > b.len() {
        Seq::empty()
    } else {
        let e = line_end(b, i);
        proof {
            lemma_line_end_bounds(b, i);
        }
        if e >= b.len() {
            seq![b.subrange(i, b.len() as int)]
        } else {
            seq![b.subrange(i, e)] + split_pieces(b, e + 1)
        }
    }
}

/// Newlines of two joined pieces add up.
proof fn lemma_count_newlines_concat(x: Seq<u8>, y: Seq<u8>)
    ensures
        count_newlines(x + y) == count_newlines(x) + count_newlines(y),
    decreases y.len(),
{
    if y.len() == 0 {
        assert(x + y =~= x);
    } else {
        assert((x + y).drop_last() =~= x + y.drop_last());
        assert((x + y).last() == y.last());
        lemma_count_newlines_concat(x, y.drop_last());
    }
}

/// A piece without newline holds none.
proof fn lemma_count_newlines_none(x: Seq<u8>)
    requires
        forall|t: int| 0 <= t < x.len() ==> x[t] != 0x0a,
    ensures
        count_newlines(x) == 0,
    decreases x.len(),
{
    if x.len() > 0 {
        lemma_count_newlines_none(x.drop_last());
    }
}

/// From a line start `i`, the start of the line holding `s` is `i` when no
/// newline lies in between.
proof fn lemma_line_start_same(b: Seq<u8>, i: int, s: int)
    requires
        0 <= i <= s <= b.len(),
        i == 0 || b[i - 1] == 0x0a,
        forall|t: int| i <= t < s ==> b[t] != 0x0a,
    ensures
        line_start_before(b, s) == i,
    decreases s - i,
{
    if s > i {
        lemma_line_start_same(b, i, s - 1);
    }
}

/// The line that holds byte `s`, counted from the line start `i`, is the
/// piece numbered by the newlines in between.
proof fn lemma_piece_at(b: Seq<u8>, i: int, s: int)
    requires
        0 <= i <= s <= b.len(),
        i == 0 || b[i - 1] == 0x0a,
    ensures
        count_newlines(b.subrange(i, s)) < split_pieces(b, i).len(),
        split_pieces(b, i)[count_newlines(b.subrange(i, s))] == b.subrange(
            line_start_before(b, s),
            line_end(b, line_start_before(b, s)),
        ),
    decreases s - i,
{
    lemma_line_end_bounds(b, i);
    let e = line_end(b, i);
    if s <= e {
        assert forall|t: int| 0 <= t < b.subrange(i, s).len() implies b.subrange(i, s)[t] != 0x0a by {
            assert(b.subrange(i, s)[t] == b[i + t]);
        }
        lemma_count_newlines_none(b.subrange(i, s));
        lemma_line_start_same(b, i, s);
        assert(count_newlines(b.subrange(i, s)) == 0);
        assert(line_end(b, line_start_before(b, s)) == e);
        if e < b.len() {
            assert(split_pieces(b, i) == seq![b.subrange(i, e)] + split_pieces(b, e + 1));
        } else {
            assert(split_pieces(b, i) == seq![b.subrange(i, b.len() as int)]);
        }
    } else {
        assert(e < b.len() && b[e] == 0x0a);
        assert(b.subrange(i, s) =~= b.subrange(i, e + 1) + b.subrange(e + 1, s));
        lemma_count_newlines_concat(b.subrange(i, e + 1), b.subrange(e + 1, s));
        assert(b.subrange(i, e + 1).drop_last() =~= b.subrange(i, e));
        assert forall|t: int| 0 <= t < b.subrange(i, e).len() implies b.subrange(i, e)[t] != 0x0a by {
            assert(b.subrange(i, e)[t] == b[i + t]);
        }
        lemma_count_newlines_none(b.subrange(i, e));
        lemma_piece_at(b, e + 1, s);
        assert(split_pieces(b, i) == seq![b.subrange(i, e)] + split_pieces(b, e + 1));
        assert(b.subrange(i, e + 1).last() == b[e]);
        assert(count_newlines(b.subrange(i, e + 1)) == 1);
        let c = count_newlines(b.subrange(e + 1, s));
        lemma_count_newlines_bound(b.subrange(e + 1, s));
        assert(count_newlines(b.subrange(i, s)) == 1 + c);
        assert(split_pieces(b, i)[1 + c] == split_pieces(b, e + 1)[c]);
    }
}

/// The preview's inline entries show the lines of the text as
/// `split('\n')` cuts it: the entry for each counted tag shows the piece
/// whose number is the count of newlines before the tag, those numbers never
/// go down from one entry to the next, and the line shown holds the
/// counted `#tag` when the tag holds no newline.
pub proof fn law_inline_preview_lines(b: Seq<u8>, tag: Seq<u8>)
    ensures
        forall|k: int|
            0 <= k < inline_tag_positions(b, tag).len() ==> {
                let s = #[trigger] inline_tag_positions(b, tag)[k];
                let n = count_newlines(b.subrange(0, s));
                &&& n < split_pieces(b, 0).len()
                &&& split_pieces(b, 0)[n] == line_around(b, s)
                &&& (forall|t: int| 0 <= t < tag.len() ==> tag[t] != 0x0a) ==> occurs_at(
                    line_around(b, s),
                    inline_pattern(tag),
                    s - line_start_before(b, s),
                )
            },
        forall|k: int, l: int|
            0 <= k < l < inline_tag_positions(b, tag).len() ==> count_newlines(
                b.subrange(0, #[trigger] inline_tag_positions(b, tag)[k]),
            ) <= count_newlines(b.subrange(0, #[trigger] inline_tag_positions(b, tag)[l])),
{
    let ps = inline_tag_positions(b, tag);
    lemma_inline_positions_ordered(b, tag);
    assert forall|k: int| 0 <= k < ps.len() implies {
        let s = #[trigger] ps[k];
        let n = count_newlines(b.subrange(0, s));
        &&& n < split_pieces(b, 0).len()
        &&& split_pieces(b, 0)[n] == line_around(b, s)
        &&& (forall|t: int| 0 <= t < tag.len() ==> tag[t] != 0x0a) ==> occurs_at(
            line_around(b, s),
            inline_pattern(tag),
            s - line_start_before(b, s),
        )
    } by {
        let s = ps[k];
        lemma_inline_positions_within(b, tag, k);
        lemma_piece_at(b, 0, s);
        assert(b.subrange(0, s) =~= b.subrange(0, s));
        let ls = line_start_before(b, s);
        lemma_line_start_before(b, s);
        if forall|t: int| 0 <= t < tag.len() ==> tag[t] != 0x0a {
            let pat = inline_pattern(tag);
            let e = s + pat.len();
            assert forall|t: int| ls <= t < e implies b[t] != 0x0a by {
                if t >= s {
                    assert(b.subrange(s, e)[t - s] == b[t]);
                    assert(pat[t - s] == b[t]);
                    if t > s {
                        assert(pat[t - s] == tag[t - s - 1]);
                    }
                }
            }
            lemma_line_end_past(b, ls, e);
            lemma_line_end_bounds(b, ls);
            let line = line_around(b, s);
            assert(line.subrange(s - ls, s - ls + pat.len()) =~= b.subrange(s, e));
        }
    }
    assert forall|k: int, l: int| 0 <= k < l < ps.len() implies count_newlines(
        b.subrange(0, #[trigger] ps[k]),
    ) <= count_newlines(b.subrange(0, #[trigger] ps[l])) by {
        lemma_inline_positions_within(b, tag, l);
        lemma_inline_positions_within(b, tag, k);
        assert(b.subrange(0, ps[l]) =~= b.subrange(0, ps[k]) + b.subrange(ps[k], ps[l]));
        lemma_count_newlines_concat(b.subrange(0, ps[k]), b.subrange(ps[k], ps[l]));
        lemma_count_newlines_bound(b.subrange(ps[k], ps[l]));
    }
}

/// The text rebuilt up to the `k`-th occurrence is the start of the text
/// rebuilt up to the last one.
proof fn lemma_splice_take_prefix(b: Seq<u8>, ps: Seq<int>, n: int, rep: Seq<u8>, k: int)
    requires
        0 <= k <= ps.len(),
    ensures
        splice_prefix(b, ps.take(k), n, rep).len() <= splice_prefix(b, ps, n, rep).len(),
        splice_prefix(b, ps, n, rep).subrange(0, splice_prefix(b, ps.take(k), n, rep).len() as int)
            == splice_prefix(b, ps.take(k), n, rep),
    decreases ps.len(),
{
    if k == ps.len() {
        assert(ps.take(k) =~= ps);
        assert(splice_prefix(b, ps, n, rep).subrange(0, splice_prefix(b, ps, n, rep).len() as int)
            =~= splice_prefix(b, ps, n, rep));
    } else {
        let d = ps.drop_last();
        assert(d.take(k) =~= ps.take(k));
        lemma_splice_take_prefix(b, d, n, rep, k);
        let x = splice_prefix(b, d, n, rep);
        let full = splice_prefix(b, ps, n, rep);
        let m = splice_prefix(b, ps.take(k), n, rep).len() as int;
        assert(full == x + b.subrange(end_of(d, n), ps.last()) + rep);
        assert(full.subrange(0, m) =~= x.subrange(0, m));
    }
}

/// The positions `ps` moved by `d` once per earlier position: where
/// replacements that each change the length by `d` leave them.
pub open spec fn shifted_positions(ps: Seq<int>, d: int) -> Seq<int> {
    Seq::new(ps.len(), |j: int| ps[j] + j * d)
}

/// Reading back the pieces of a text that starts with `a + gap + p`.
proof fn lemma_read_back(r: Seq<u8>, a: Seq<u8>, gap: Seq<u8>, p: Seq<u8>, ak: Seq<u8>)
    requires
        ak == a + gap + p,
        ak.len() <= r.len(),
        r.subrange(0, ak.len() as int) == ak,
    ensures
        r.subrange(a.len() as int, (a.len() + gap.len()) as int) == gap,
        r.subrange((a.len() + gap.len()) as int, ak.len() as int) == p,
{
    let g = r.subrange(a.len() as int, (a.len() + gap.len()) as int);
    assert forall|i: int| 0 <= i < gap.len() implies #[trigger] g[i] == gap[i] by {
        assert(g[i] == r[a.len() + i]);
        assert(r.subrange(0, ak.len() as int)[a.len() + i] == r[a.len() + i]);
        assert(ak[a.len() + i] == gap[i]);
    }
    assert(g =~= gap);
    let q = r.subrange((a.len() + gap.len()) as int, ak.len() as int);
    assert forall|i: int| 0 <= i < p.len() implies #[trigger] q[i] == p[i] by {
        assert(q[i] == r[a.len() + gap.len() + i]);
        assert(r.subrange(0, ak.len() as int)[a.len() + gap.len() + i] == r[a.len() + gap.len() + i]);
        assert(ak[a.len() + gap.len() + i] == p[i]);
    }
    assert(q =~= p);
}

/// Writing the pattern back over the replacements, at the places where
/// they were written, rebuilds the text.
#[verifier::spinoff_prover]
#[verifier::rlimit(50)]
proof fn lemma_undo_prefix(b: Seq<u8>, ps: Seq<int>, p1: Seq<u8>, p2: Seq<u8>, k: int)
    requires
        forall|j: int| 0 <= j < ps.len() ==> occurs_at(b, p1, #[trigger] ps[j]),
        forall|j: int| 0 < j < ps.len() ==> ps[j - 1] + p1.len() <= #[trigger] ps[j],
        0 <= k <= ps.len(),
    ensures
        ({
            let r = replace_all_at(b, ps, p1.len() as int, p2);
            let qs = shifted_positions(ps, p2.len() - p1.len());
            &&& splice_prefix(r, qs.take(k), p2.len() as int, p1) == b.subrange(
                0,
                end_of(ps.take(k), p1.len() as int),
            )
            &&& end_of(qs.take(k), p2.len() as int) == splice_prefix(b, ps.take(k), p1.len() as int, p2).len()
            &&& forall|j: int| 0 <= j < k ==> occurs_at(r, p2, #[trigger] qs[j])
        }),
    decreases k,
{
    let n1 = p1.len() as int;
    let n2 = p2.len() as int;
    let dd = n2 - n1;
    let r = replace_all_at(b, ps, n1, p2);
    let qs = shifted_positions(ps, dd);
    let full = splice_prefix(b, ps, n1, p2);
    assert forall|j: int| 0 <= j < ps.len() implies 0 <= #[trigger] ps[j] && ps[j] + n1 <= b.len() by {
        assert(occurs_at(b, p1, ps[j]));
    }
    lemma_splice_len(b, ps, n1, p2);
    if k == 0 {
        assert(qs.take(0) =~= Seq::<int>::empty());
        assert(ps.take(0) =~= Seq::<int>::empty());
        assert(b.subrange(0, 0) =~= Seq::<u8>::empty());
    } else {
        let j = k - 1;
        lemma_undo_prefix(b, ps, p1, p2, j);
        let tj = ps.take(j);
        let tk = ps.take(k);
        assert(tk.drop_last() =~= tj);
        assert(tk.last() == ps[j]);
        assert forall|i: int| 0 <= i < tj.len() implies 0 <= #[trigger] tj[i] && tj[i] + n1 <= b.len() by {
            assert(tj[i] == ps[i]);
        }
        assert forall|i: int| 0 < i < tj.len() implies tj[i - 1] + n1 <= #[trigger] tj[i] by {
            assert(tj[i] == ps[i] && tj[i - 1] == ps[i - 1]);
        }
        lemma_splice_len(b, tj, n1, p2);
        let aj = splice_prefix(b, tj, n1, p2);
        let ak = splice_prefix(b, tk, n1, p2);
        let ej = end_of(tj, n1);
        assert(ak == aj + b.subrange(ej, ps[j]) + p2);
        if j > 0 {
            assert(tj.last() == ps[j - 1]);
            assert(ej == ps[j - 1] + n1);
        }
        assert(ej <= ps[j]);
        lemma_splice_take_prefix(b, ps, n1, p2, k);
        assert(r == full + b.subrange(end_of(ps, n1), b.len() as int));
        assert(r.subrange(0, ak.len() as int) =~= ak);
        let qj = qs.take(j);
        let qk = qs.take(k);
        assert(qk.drop_last() =~= qj);
        assert(qk.last() == qs[j]);
        assert(aj.len() == ej + j * dd);
        assert(qs[j] == ps[j] + j * dd);
        assert(qs[j] == aj.len() + (ps[j] - ej));
        assert(ak.len() == aj.len() + (ps[j] - ej) + n2);
        assert(ak.len() <= r.len());
        // the gap before the replacement and the replacement itself
        lemma_read_back(r, aj, b.subrange(ej, ps[j]), p2, ak);
        assert(b.subrange(ps[j], ps[j] + n1) == p1);
        assert(b.subrange(0, ej) + b.subrange(ej, ps[j]) + p1 =~= b.subrange(0, ps[j] + n1));
        assert(end_of(tk, n1) == ps[j] + n1);
        assert(end_of(qk, n2) == qs[j] + n2);
        assert(j * dd + dd == k * dd) by (nonlinear_arith)
            requires
                k == j + 1,
        ;
        assert(ak.len() == ej + (ps[j] - ej) + n2 + j * dd);
    }
}

/// Writing `#tag` back over each `#new` that the replacement wrote, at the
/// place it wrote it (the counted positions, moved by the length difference
/// of the tags once per earlier replacement), gives the text back. That the
/// replacement of `#new` by `#tag` counts exactly these places is not
/// stated here.
#[verifier::spinoff_prover]
pub proof fn law_inline_replace_undone(b: Seq<u8>, tag: Seq<u8>, new: Seq<u8>)
    ensures
        ({
            let ps = inline_tag_positions(b, tag);
            let r = inline_replaced(b, tag, new);
            let qs = shifted_positions(ps, new.len() - tag.len());
            &&& forall|j: int| 0 <= j < qs.len() ==> occurs_at(r, inline_pattern(new), #[trigger] qs[j])
            &&& replace_all_at(r, qs, 1 + new.len() as int, inline_pattern(tag)) == b
        }),
{
    let ps = inline_tag_positions(b, tag);
    let p1 = inline_pattern(tag);
    let p2 = inline_pattern(new);
    let n1 = p1.len() as int;
    let n2 = p2.len() as int;
    assert forall|k: int| 0 <= k < ps.len() implies occurs_at(b, p1, #[trigger] ps[k]) by {
        lemma_inline_positions_within(b, tag, k);
    }
    lemma_inline_positions_ordered(b, tag);
    assert forall|k: int| 0 < k < ps.len() implies ps[k - 1] + n1 <= #[trigger] ps[k] by {
        assert(ps[k - 1] + 1 + tag.len() <= ps[k]);
    }
    let c = ps.len() as int;
    lemma_undo_prefix(b, ps, p1, p2, c);
    let r = replace_all_at(b, ps, n1, p2);
    let qs = shifted_positions(ps, n2 - n1);
    assert(ps.take(c) =~= ps);
    assert(qs.take(c) =~= qs);
    assert forall|k: int| 0 <= k < ps.len() implies 0 <= #[trigger] ps[k] && ps[k] + n1 <= b.len() by {
        assert(occurs_at(b, p1, ps[k]));
    }
    lemma_splice_len(b, ps, n1, p2);
    let full = splice_prefix(b, ps, n1, p2);
    assert(r.subrange(full.len() as int, r.len() as int) =~= b.subrange(end_of(ps, n1), b.len() as int));
    assert(b.subrange(0, end_of(ps, n1)) + b.subrange(end_of(ps, n1), b.len() as int) =~= b);
    assert(n2 - n1 == new.len() - tag.len());
}

// ---------------------------------------------------------------------
// Replacing back
// ---------------------------------------------------------------------

/// The `j`-th stretch of text between replacements: it starts where the
/// rebuilt text up to the `j`-th occurrence ends, and reads as in the
/// original text; the `j`-th replacement follows it.
#[verifier::spinoff_prover]
#[verifier::rlimit(50)]
proof fn lemma_segment(b: Seq<u8>, ps: Seq<int>, p1: Seq<u8>, p2: Seq<u8>, j: int)
    requires
        forall|i: int| 0 <= i < ps.len() ==> occurs_at(b, p1, #[trigger] ps[i]),
        forall|i: int| 0 < i < ps.len() ==> ps[i - 1] + p1.len() <= #[trigger] ps[i],
        0 <= j <= ps.len(),
    ensures
        ({
            let n1 = p1.len() as int;
            let n2 = p2.len() as int;
            let d = n2 - n1;
            let r = replace_all_at(b, ps, n1, p2);
            let ej = end_of(ps.take(j), n1);
            let sj = ej + j * d;
            &&& 0 <= ej
            &&& sj == splice_prefix(b, ps.take(j), n1, p2).len()
            &&& r.len() == b.len() + ps.len() * d
            &&& j < ps.len() ==> {
                &&& ej <= ps[j]
                &&& ps[j] + j * d + n2 <= r.len()
                &&& r.subrange(sj, ps[j] + j * d) == b.subrange(ej, ps[j])
                &&& r.subrange(ps[j] + j * d, ps[j] + j * d + n2) == p2
                &&& end_of(ps.take(j + 1), n1) == ps[j] + n1
                &&& ps[j] + n1 + (j + 1) * d == ps[j] + j * d + n2
            }
            &&& j == ps.len() ==> {
                &&& ej <= b.len()
                &&& r.subrange(sj, r.len() as int) == b.subrange(ej, b.len() as int)
            }
        }),
{
    let n1 = p1.len() as int;
    let n2 = p2.len() as int;
    let dd = n2 - n1;
    let r = replace_all_at(b, ps, n1, p2);
    let full = splice_prefix(b, ps, n1, p2);
    assert forall|i: int| 0 <= i < ps.len() implies 0 <= #[trigger] ps[i] && ps[i] + n1 <= b.len() by {
        assert(occurs_at(b, p1, ps[i]));
    }
    lemma_splice_len(b, ps, n1, p2);
    let tj = ps.take(j);
    assert forall|i: int| 0 <= i < tj.len() implies 0 <= #[trigger] tj[i] && tj[i] + n1 <= b.len() by {
        assert(tj[i] == ps[i]);
    }
    assert forall|i: int| 0 < i < tj.len() implies tj[i - 1] + n1 <= #[trigger] tj[i] by {
        assert(tj[i] == ps[i] && tj[i - 1] == ps[i - 1]);
    }
    lemma_splice_len(b, tj, n1, p2);
    let aj = splice_prefix(b, tj, n1, p2);
    let ej = end_of(tj, n1);
    assert(r == full + b.subrange(end_of(ps, n1), b.len() as int));
    assert(r.len() == b.len() + ps.len() * dd) by {
        assert(full.len() == end_of(ps, n1) + ps.len() * dd);
    }
    if j < ps.len() {
        let k = j + 1;
        let tk = ps.take(k);
        assert(tk.drop_last() =~= tj);
        assert(tk.last() == ps[j]);
        let ak = splice_prefix(b, tk, n1, p2);
        assert(ak == aj + b.subrange(ej, ps[j]) + p2);
        if j > 0 {
            assert(tj.last() == ps[j - 1]);
            assert(ej == ps[j - 1] + n1);
        }
        assert(ej <= ps[j]);
        lemma_splice_take_prefix(b, ps, n1, p2, k);
        assert(r.subrange(0, ak.len() as int) =~= ak);
        assert(ak.len() == aj.len() + (ps[j] - ej) + n2);
        assert(ak.len() <= r.len());
        lemma_read_back(r, aj, b.subrange(ej, ps[j]), p2, ak);
        assert(j * dd + dd == k * dd) by (nonlinear_arith)
            requires
                k == j + 1,
        ;
    } else {
        assert(tj =~= ps);
        assert(r.subrange(full.len() as int, r.len() as int) =~= b.subrange(ej, b.len() as int));
    }
}

/// An occurrence inside a stretch that reads as a piece of the original
/// text is an occurrence in the original text.
proof fn lemma_occurrence_in_stretch(r: Seq<u8>, b: Seq<u8>, p: Seq<u8>, s: int, t: int, e: int, from: int)
    requires
        0 <= s <= t <= r.len(),
        0 <= e,
        e + (t - s) <= b.len(),
        r.subrange(s, t) == b.subrange(e, e + (t - s)),
        s <= from,
        from + p.len() <= t,
        occurs_at(r, p, from),
    ensures
        occurs_at(b, p, from - s + e),
{
    let fb = from - s + e;
    assert forall|i: int| 0 <= i < p.len() implies #[trigger] b.subrange(fb, fb + p.len())[i] == p[i] by {
        assert(r.subrange(s, t)[from - s + i] == r[from + i]);
        assert(b.subrange(e, e + (t - s))[from - s + i] == b[fb + i]);
        assert(r.subrange(from, from + p.len())[i] == r[from + i]);
    }
    assert(b.subrange(fb, fb + p.len()) =~= p);
}

/// An occurrence of a pattern with `#` only in front reaches over no later
/// `#`.
proof fn lemma_no_straddle(r: Seq<u8>, p: Seq<u8>, from: int, t: int)
    requires
        occurs_at(r, p, from),
        from < t < from + p.len(),
        forall|i: int| 1 <= i < p.len() ==> #[trigger] p[i] != 0x23,
    ensures
        r[t] != 0x23,
{
    assert(r.subrange(from, from + p.len())[t - from] == r[t]);
    assert(p[t - from] != 0x23);
}

/// The leftmost non-overlapping occurrences of the replacement pattern in
/// the replaced text, from a place in the `j`-th stretch on, are the
/// replacements from the `j`-th on, when the pattern has `#` only in front
/// and never occurred in the original text.
#[verifier::spinoff_prover]
#[verifier::rlimit(50)]
proof fn lemma_matches_shifted(b: Seq<u8>, ps: Seq<int>, p1: Seq<u8>, p2: Seq<u8>, j: int, from: int)
    requires
        forall|i: int| 0 <= i < ps.len() ==> occurs_at(b, p1, #[trigger] ps[i]),
        forall|i: int| 0 < i < ps.len() ==> ps[i - 1] + p1.len() <= #[trigger] ps[i],
        p2.len() >= 1,
        p2[0] == 0x23,
        forall|i: int| 1 <= i < p2.len() ==> #[trigger] p2[i] != 0x23,
        forall|t: int| !occurs_at(b, p2, t),
        0 <= j <= ps.len(),
        end_of(ps.take(j), p1.len() as int) + j * (p2.len() - p1.len()) <= from,
        from <= if j < ps.len() {
            ps[j] + j * (p2.len() - p1.len())
        } else {
            b.len() + ps.len() * (p2.len() - p1.len())
        },
    ensures
        matches_from(replace_all_at(b, ps, p1.len() as int, p2), p2, from) == shifted_positions(
            ps,
            p2.len() - p1.len(),
        ).subrange(j, ps.len() as int),
    decreases b.len() + ps.len() * (p2.len() - p1.len()) - from,
{
    let n1 = p1.len() as int;
    let n2 = p2.len() as int;
    let d = n2 - n1;
    let r = replace_all_at(b, ps, n1, p2);
    let qs = shifted_positions(ps, d);
    let c = ps.len() as int;
    lemma_segment(b, ps, p1, p2, j);
    let ej = end_of(ps.take(j), n1);
    let sj = ej + j * d;
    let tj = if j < c {
        ps[j] + j * d
    } else {
        r.len() as int
    };
    if from + n2 > r.len() {
        assert(j == c);
        assert(qs.subrange(j, c) =~= Seq::<int>::empty());
    } else if occurs_at(r, p2, from) {
        if j < c && from == tj {
            lemma_segment(b, ps, p1, p2, j + 1);
            lemma_matches_shifted(b, ps, p1, p2, j + 1, from + n2);
            assert(qs[j] == ps[j] + j * d);
            assert(qs.subrange(j, c) =~= seq![qs[j]] + qs.subrange(j + 1, c));
        } else {
            assert(from < tj);
            if from + n2 <= tj {
                if j < c {
                    lemma_occurrence_in_stretch(r, b, p2, sj, tj, ej, from);
                } else {
                    lemma_occurrence_in_stretch(r, b, p2, sj, tj, ej, from);
                }
            } else {
                assert(r.subrange(tj, tj + n2)[0] == r[tj]);
                lemma_no_straddle(r, p2, from, tj);
            }
        }
    } else {
        if j < c {
            assert(from != tj);
        }
        lemma_matches_shifted(b, ps, p1, p2, j, from + 1);
    }
}

/// Occurrences `ps` of `p1` in `b`, in order without overlap, to be
/// replaced by `p2`: both patterns start with `#`, hold no backtick and do
/// not end with a newline.
pub open spec fn replacement_setting(b: Seq<u8>, ps: Seq<int>, p1: Seq<u8>, p2: Seq<u8>) -> bool {
    &&& forall|i: int| 0 <= i < ps.len() ==> occurs_at(b, p1, #[trigger] ps[i])
    &&& forall|i: int| 0 < i < ps.len() ==> ps[i - 1] + p1.len() <= #[trigger] ps[i]
    &&& p1.len() >= 2 && p2.len() >= 2
    &&& p1[0] == 0x23 && p2[0] == 0x23
    &&& forall|i: int| 0 <= i < p1.len() ==> #[trigger] p1[i] != 0x60
    &&& forall|i: int| 0 <= i < p2.len() ==> #[trigger] p2[i] != 0x60
    &&& p1[p1.len() - 1] != 0x0a && p2[p2.len() - 1] != 0x0a
}

/// Where the `j`-th stretch between occurrences starts in the original text.
pub open spec fn seg_start(ps: Seq<int>, n1: int, j: int) -> int {
    end_of(ps.take(j), n1)
}

/// Where the `j`-th stretch between occurrences ends in the original text.
pub open spec fn seg_stop(len: int, ps: Seq<int>, j: int) -> int {
    if j < ps.len() {
        ps[j]
    } else {
        len
    }
}

/// The stretches come in order, in the original text and in the replaced
/// one alike.
proof fn lemma_chain(b: Seq<u8>, ps: Seq<int>, p1: Seq<u8>, p2: Seq<u8>, j: int, k: int)
    requires
        replacement_setting(b, ps, p1, p2),
        0 <= j <= k <= ps.len(),
    ensures
        ({
            let n1 = p1.len() as int;
            let n2 = p2.len() as int;
            let d = n2 - n1;
            &&& seg_start(ps, n1, j) <= seg_stop(b.len() as int, ps, j)
            &&& seg_stop(b.len() as int, ps, j) <= seg_stop(b.len() as int, ps, k)
            &&& seg_stop(b.len() as int, ps, j) + j * d <= seg_stop(b.len() as int, ps, k) + k * d
            &&& j < k ==> seg_stop(b.len() as int, ps, j) + n1 <= seg_start(ps, n1, k)
            &&& j < k ==> seg_stop(b.len() as int, ps, j) + j * d + n2 <= seg_start(ps, n1, k) + k * d
        }),
    decreases k - j,
{
    let n1 = p1.len() as int;
    let n2 = p2.len() as int;
    let d = n2 - n1;
    lemma_segment(b, ps, p1, p2, j);
    lemma_segment(b, ps, p1, p2, k);
    if j < k {
        lemma_chain(b, ps, p1, p2, j, k - 1);
        lemma_segment(b, ps, p1, p2, k - 1);
        assert(ps.take(k - 1 + 1) =~= ps.take(k));
        assert((k - 1) * d + d == k * d) by (nonlinear_arith);
    }
}

/// No fence starts anywhere in `i..i2`: the fences from `i` on are those
/// from `i2` on.
proof fn lemma_fences_skip(b: Seq<u8>, i: int, i2: int)
    requires
        0 <= i <= i2,
        forall|t: int| i <= t < i2 ==> !#[trigger] fence_at(b, t),
    ensures
        fences_from(b, i) == fences_from(b, i2),
    decreases i2 - i,
{
    if i < i2 && i + 3 <= b.len() {
        assert(!fence_at(b, i));
        lemma_fences_skip(b, i + 1, i2);
    }
}

/// Three backticks stand at byte `x` of the `j`-th stretch of the original
/// text exactly when they stand at the same place of the replaced text.
#[verifier::spinoff_prover]
#[verifier::rlimit(50)]
proof fn lemma_fence_bytes_same(b: Seq<u8>, ps: Seq<int>, p1: Seq<u8>, p2: Seq<u8>, j: int, x: int)
    requires
        replacement_setting(b, ps, p1, p2),
        0 <= j <= ps.len(),
        seg_start(ps, p1.len() as int, j) <= x <= seg_stop(b.len() as int, ps, j),
    ensures
        occurs_at(replace_all_at(b, ps, p1.len() as int, p2), fence(), x + j * (p2.len() - p1.len()))
            == occurs_at(b, fence(), x),
{
    let n1 = p1.len() as int;
    let n2 = p2.len() as int;
    let d = n2 - n1;
    let r = replace_all_at(b, ps, n1, p2);
    let c = ps.len() as int;
    lemma_segment(b, ps, p1, p2, j);
    let e = seg_start(ps, n1, j);
    let t = seg_stop(b.len() as int, ps, j);
    let xr = x + j * d;
    let sr = e + j * d;
    let tr = t + j * d;
    assert(fence().len() == 3);
    if x + 3 <= t {
        let rs = if j < c {
            r.subrange(sr, tr)
        } else {
            r.subrange(sr, r.len() as int)
        };
        assert(rs == b.subrange(e, t));
        lemma_stretch_occurs_iff(r, b, fence(), sr, tr, e, xr);
    } else if j < c {
        assert(occurs_at(b, p1, ps[j]));
        assert(b.subrange(ps[j], ps[j] + n1)[0] == b[t]);
        assert(r.subrange(tr, tr + n2)[0] == r[tr]);
        lemma_fence_not_over_hash(b, x, t);
        lemma_fence_not_over_hash(r, xr, tr);
    }
}

/// Three backticks do not reach over a `#`.
proof fn lemma_fence_not_over_hash(r: Seq<u8>, x: int, t: int)
    requires
        x <= t < x + 3,
        0 <= t < r.len(),
        r[t] == 0x23,
    ensures
        !occurs_at(r, fence(), x),
{
    if occurs_at(r, fence(), x) {
        assert(r.subrange(x, x + 3)[t - x] == r[t]);
    }
}

/// Inside a stretch that reads as a piece of another text, a pattern occurs
/// exactly where it occurs in that piece.
proof fn lemma_stretch_occurs_iff(r: Seq<u8>, b: Seq<u8>, p: Seq<u8>, s: int, t: int, e: int, x: int)
    requires
        0 <= s <= t <= r.len(),
        0 <= e,
        e + (t - s) <= b.len(),
        r.subrange(s, t) == b.subrange(e, e + (t - s)),
        s <= x,
        x + p.len() <= t,
    ensures
        occurs_at(r, p, x) == occurs_at(b, p, x - s + e),
{
    let xb = x - s + e;
    let u = r.subrange(x, x + p.len());
    let v = b.subrange(xb, xb + p.len());
    assert forall|i: int| 0 <= i < p.len() implies #[trigger] u[i] == v[i] by {
        assert(u[i] == r[x + i]);
        assert(v[i] == b[xb + i]);
        assert(r.subrange(s, t)[x - s + i] == r[x + i]);
        assert(b.subrange(e, e + (t - s))[x - s + i] == b[xb + i]);
    }
    assert(u =~= v);
}

/// Byte `x` of the `j`-th stretch of the original text starts a line
/// exactly when the same place of the replaced text does.
#[verifier::spinoff_prover]
#[verifier::rlimit(50)]
proof fn lemma_line_start_same_place(b: Seq<u8>, ps: Seq<int>, p1: Seq<u8>, p2: Seq<u8>, j: int, x: int)
    requires
        replacement_setting(b, ps, p1, p2),
        0 <= j <= ps.len(),
        seg_start(ps, p1.len() as int, j) <= x <= seg_stop(b.len() as int, ps, j),
    ensures
        ({
            let r = replace_all_at(b, ps, p1.len() as int, p2);
            let xr = x + j * (p2.len() - p1.len());
            (xr == 0 || r[xr - 1] == 0x0a) == (x == 0 || b[x - 1] == 0x0a)
        }),
{
    let n1 = p1.len() as int;
    let n2 = p2.len() as int;
    let d = n2 - n1;
    let r = replace_all_at(b, ps, n1, p2);
    let c = ps.len() as int;
    lemma_segment(b, ps, p1, p2, j);
    let e = seg_start(ps, n1, j);
    let t = seg_stop(b.len() as int, ps, j);
    let xr = x + j * d;
    let sr = e + j * d;
    let tr = t + j * d;
    if x > e {
        let rs = if j < c {
            r.subrange(sr, tr)
        } else {
            r.subrange(sr, r.len() as int)
        };
        assert(rs == b.subrange(e, t));
        assert(rs[x - 1 - e] == r[xr - 1]);
        assert(b.subrange(e, t)[x - 1 - e] == b[x - 1]);
        assert(xr > 0);
    } else if j > 0 {
        lemma_segment(b, ps, p1, p2, j - 1);
        assert(ps.take(j - 1 + 1) =~= ps.take(j));
        assert((j - 1) * d + d == j * d) by (nonlinear_arith);
        let q = ps[j - 1];
        assert(occurs_at(b, p1, q));
        assert(b.subrange(q, q + n1)[n1 - 1] == b[x - 1]);
        assert(r.subrange(q + (j - 1) * d, q + (j - 1) * d + n2)[n2 - 1] == r[xr - 1]);
        assert(x > 0 && xr > 0);
    } else {
        assert(ps.take(0) =~= Seq::<int>::empty());
        assert(x == 0 && xr == 0);
    }
}

/// `fr` lists the fences `fb` moved: each fence `fb[i]` lies within stretch
/// `ws[i]` (from stretch `j` on) and moves by that many length changes `d`.
#[verifier::opaque]
pub open spec fn fences_match(
    blen: int,
    ps: Seq<int>,
    n1: int,
    d: int,
    j: int,
    fb: Seq<int>,
    fr: Seq<int>,
    ws: Seq<int>,
) -> bool {
    &&& fb.len() == ws.len() && fr.len() == ws.len()
    &&& forall|i: int|
        0 <= i < ws.len() ==> {
            &&& j <= #[trigger] ws[i] <= ps.len()
            &&& seg_start(ps, n1, ws[i]) <= fb[i]
            &&& fb[i] + 3 <= seg_stop(blen, ps, ws[i])
            &&& fr[i] == fb[i] + ws[i] * d
        }
}

/// No fences: nothing to match.
proof fn lemma_fences_match_empty(blen: int, ps: Seq<int>, n1: int, d: int, j: int)
    ensures
        fences_match(blen, ps, n1, d, j, Seq::empty(), Seq::empty(), Seq::empty()),
{
    reveal(fences_match);
}

/// A matched list from a later stretch on is matched from an earlier one.
proof fn lemma_fences_match_earlier(
    blen: int,
    ps: Seq<int>,
    n1: int,
    d: int,
    j: int,
    fb: Seq<int>,
    fr: Seq<int>,
    ws: Seq<int>,
)
    requires
        fences_match(blen, ps, n1, d, j + 1, fb, fr, ws),
    ensures
        fences_match(blen, ps, n1, d, j, fb, fr, ws),
{
    reveal(fences_match);
}

/// A fence in stretch `j`, moved by `j` length changes, in front of matched
/// lists.
proof fn lemma_fences_match_prepend(
    blen: int,
    ps: Seq<int>,
    n1: int,
    d: int,
    j: int,
    x: int,
    fb: Seq<int>,
    fr: Seq<int>,
    ws: Seq<int>,
)
    requires
        fences_match(blen, ps, n1, d, j, fb, fr, ws),
        0 <= j <= ps.len(),
        seg_start(ps, n1, j) <= x,
        x + 3 <= seg_stop(blen, ps, j),
    ensures
        fences_match(blen, ps, n1, d, j, seq![x] + fb, seq![x + j * d] + fr, seq![j] + ws),
{
    reveal(fences_match);
    let fb2 = seq![x] + fb;
    let fr2 = seq![x + j * d] + fr;
    let ws2 = seq![j] + ws;
    assert forall|i: int| 0 <= i < ws2.len() implies {
        &&& j <= #[trigger] ws2[i] <= ps.len()
        &&& seg_start(ps, n1, ws2[i]) <= fb2[i]
        &&& fb2[i] + 3 <= seg_stop(blen, ps, ws2[i])
        &&& fr2[i] == fb2[i] + ws2[i] * d
    } by {
        if i > 0 {
            assert(ws2[i] == ws[i - 1]);
            assert(fb2[i] == fb[i - 1]);
            assert(fr2[i] == fr[i - 1]);
        }
    }
}

/// No fence starts inside an occurrence of a pattern without backticks.
proof fn lemma_no_fence_within(x: Seq<u8>, p: Seq<u8>, t: int)
    requires
        occurs_at(x, p, t),
        forall|i: int| 0 <= i < p.len() ==> #[trigger] p[i] != 0x60,
    ensures
        forall|u: int| t <= u < t + p.len() ==> !#[trigger] fence_at(x, u),
{
    assert(fence().len() == 3);
    assert forall|u: int| t <= u < t + p.len() implies !#[trigger] fence_at(x, u) by {
        assert(x.subrange(t, t + p.len())[u - t] == x[u]);
        assert(p[u - t] != 0x60);
        if occurs_at(x, fence(), u) {
            assert(x.subrange(u, u + 3)[0] == x[u]);
        }
    }
}

/// No fence starts inside the `j`-th occurrence or its replacement.
#[verifier::spinoff_prover]
#[verifier::rlimit(50)]
proof fn lemma_fences_skip_region(b: Seq<u8>, ps: Seq<int>, p1: Seq<u8>, p2: Seq<u8>, j: int)
    requires
        replacement_setting(b, ps, p1, p2),
        0 <= j < ps.len(),
    ensures
        ({
            let n1 = p1.len() as int;
            let n2 = p2.len() as int;
            let d = n2 - n1;
            let r = replace_all_at(b, ps, n1, p2);
            &&& fences_from(b, ps[j]) == fences_from(b, seg_start(ps, n1, j + 1))
            &&& fences_from(r, ps[j] + j * d) == fences_from(r, seg_start(ps, n1, j + 1) + (j + 1) * d)
            &&& seg_start(ps, n1, j + 1) <= seg_stop(b.len() as int, ps, j + 1)
        }),
{
    let n1 = p1.len() as int;
    let n2 = p2.len() as int;
    let d = n2 - n1;
    let r = replace_all_at(b, ps, n1, p2);
    lemma_segment(b, ps, p1, p2, j);
    lemma_segment(b, ps, p1, p2, j + 1);
    let t = ps[j];
    let tr = t + j * d;
    assert(occurs_at(b, p1, ps[j]));
    lemma_no_fence_within(b, p1, t);
    lemma_no_fence_within(r, p2, tr);
    lemma_fences_skip(b, t, t + n1);
    lemma_fences_skip(r, tr, tr + n2);
}

/// The fences of the replaced text from the place of byte `x` of the
/// `j`-th stretch on are those of the original text from `x` on, each moved
/// by the length change of the replacements before its stretch; the result
/// gives the stretch of each fence.
#[verifier::spinoff_prover]
#[verifier::rlimit(50)]
proof fn lemma_fences_corr(b: Seq<u8>, ps: Seq<int>, p1: Seq<u8>, p2: Seq<u8>, j: int, x: int) -> (ws: Seq<int>)
    requires
        replacement_setting(b, ps, p1, p2),
        0 <= j <= ps.len(),
        seg_start(ps, p1.len() as int, j) <= x <= seg_stop(b.len() as int, ps, j),
    ensures
        fences_match(
            b.len() as int,
            ps,
            p1.len() as int,
            p2.len() - p1.len(),
            j,
            fences_from(b, x),
            fences_from(replace_all_at(b, ps, p1.len() as int, p2), x + j * (p2.len() - p1.len())),
            ws,
        ),
    decreases b.len() - x,
{
    let n1 = p1.len() as int;
    let n2 = p2.len() as int;
    let d = n2 - n1;
    let r = replace_all_at(b, ps, n1, p2);
    let c = ps.len() as int;
    let bl = b.len() as int;
    lemma_segment(b, ps, p1, p2, j);
    let t = seg_stop(bl, ps, j);
    let xr = x + j * d;
    if j < c && x == t {
        lemma_fences_skip_region(b, ps, p1, p2, j);
        let ws = lemma_fences_corr(b, ps, p1, p2, j + 1, seg_start(ps, n1, j + 1));
        lemma_fences_match_earlier(bl, ps, n1, d, j, fences_from(b, x), fences_from(r, xr), ws);
        ws
    } else if x + 3 > b.len() {
        if j < c {
            assert(occurs_at(b, p1, ps[j]));
        }
        assert(fences_from(b, x) =~= Seq::<int>::empty());
        assert(fences_from(r, xr) =~= Seq::<int>::empty());
        lemma_fences_match_empty(bl, ps, n1, d, j);
        Seq::empty()
    } else {
        lemma_fence_bytes_same(b, ps, p1, p2, j, x);
        lemma_line_start_same_place(b, ps, p1, p2, j, x);
        if j < c {
            assert(occurs_at(b, p1, ps[j]));
            assert(xr + 3 <= r.len());
        }
        if fence_at(b, x) {
            if j < c && t < x + 3 {
                assert(b.subrange(ps[j], ps[j] + n1)[0] == b[t]);
                lemma_fence_not_over_hash(b, x, t);
            }
            assert(x + 3 <= t);
            let rest = lemma_fences_corr(b, ps, p1, p2, j, x + 3);
            assert(fences_from(b, x) == seq![x] + fences_from(b, x + 3));
            assert(fences_from(r, xr) == seq![xr] + fences_from(r, xr + 3));
            assert(xr + 3 == (x + 3) + j * d);
            lemma_fences_match_prepend(bl, ps, n1, d, j, x, fences_from(b, x + 3), fences_from(r, xr + 3), rest);
            seq![j] + rest
        } else {
            assert(fences_from(b, x) == fences_from(b, x + 1));
            assert(fences_from(r, xr) == fences_from(r, xr + 1));
            assert(xr + 1 == (x + 1) + j * d);
            lemma_fences_corr(b, ps, p1, p2, j, x + 1)
        }
    }
}

/// The blocks that pairing the fences gives: the `m`-th runs from fence
/// `2m` to the end of fence `2m + 1`.
proof fn lemma_pair_index(fs: Seq<int>)
    ensures
        pair_fences(fs).len() == fs.len() / 2,
        forall|m: int|
            0 <= m < pair_fences(fs).len() ==> #[trigger] pair_fences(fs)[m] == (fs[2 * m], fs[2 * m
                + 1] + 3),
    decreases fs.len(),
{
    if fs.len() >= 2 {
        let rest = fs.subrange(2, fs.len() as int);
        lemma_pair_index(rest);
        let pf = pair_fences(fs);
        assert(pf == seq![(fs[0], fs[1] + 3)] + pair_fences(rest));
        assert forall|m: int| 0 <= m < pf.len() implies #[trigger] pf[m] == (fs[2 * m], fs[2 * m
            + 1] + 3) by {
            if m > 0 {
                assert(pf[m] == pair_fences(rest)[m - 1]);
                assert(rest[2 * (m - 1)] == fs[2 * m]);
                assert(rest[2 * (m - 1) + 1] == fs[2 * m + 1]);
            }
        }
    }
}

/// A counted tag lies inside a code block of the replaced text exactly when
/// it lies inside one of the original text.
#[verifier::spinoff_prover]
#[verifier::rlimit(50)]
proof fn lemma_code_block_same(b: Seq<u8>, ps: Seq<int>, p1: Seq<u8>, p2: Seq<u8>, k: int)
    requires
        replacement_setting(b, ps, p1, p2),
        0 <= k < ps.len(),
    ensures
        in_ranges(
            shifted_positions(ps, p2.len() - p1.len())[k],
            code_blocks(replace_all_at(b, ps, p1.len() as int, p2)),
        ) == in_ranges(ps[k], code_blocks(b)),
{
    let n1 = p1.len() as int;
    let n2 = p2.len() as int;
    let d = n2 - n1;
    let r = replace_all_at(b, ps, n1, p2);
    let bl = b.len() as int;
    let c = ps.len() as int;
    assert(ps.take(0) =~= Seq::<int>::empty());
    lemma_segment(b, ps, p1, p2, 0);
    let ws = lemma_fences_corr(b, ps, p1, p2, 0, 0);
    assert(0 + 0 * d == 0);
    let fb = fences_from(b, 0);
    let fr = fences_from(r, 0);
    reveal(fences_match);
    let pos = ps[k];
    let qpos = ps[k] + k * d;
    assert(shifted_positions(ps, d)[k] == qpos);
    assert(seg_stop(bl, ps, k) == pos);
    assert forall|i: int| 0 <= i < ws.len() implies {
        &&& (#[trigger] fb[i] <= pos) == (fr[i] <= qpos)
        &&& (pos < fb[i] + 3) == (qpos < fr[i] + 3)
    } by {
        let w = ws[i];
        if w <= k {
            lemma_chain(b, ps, p1, p2, w, k);
        } else {
            lemma_chain(b, ps, p1, p2, k, w);
        }
    }
    lemma_pair_index(fb);
    lemma_pair_index(fr);
    let cb = pair_fences(fb);
    let cr = pair_fences(fr);
    assert(code_blocks(b) == cb);
    assert(code_blocks(r) == cr);
    if in_ranges(pos, cb) {
        let m = choose|m: int| 0 <= m < cb.len() && #[trigger] cb[m].0 <= pos && pos < cb[m].1;
        assert(cb[m] == (fb[2 * m], fb[2 * m + 1] + 3));
        assert(cr[m] == (fr[2 * m], fr[2 * m + 1] + 3));
        assert(fb[2 * m] <= pos);
        assert(pos < fb[2 * m + 1] + 3);
        assert(cr[m].0 <= qpos && qpos < cr[m].1);
    }
    if in_ranges(qpos, cr) {
        let m = choose|m: int| 0 <= m < cr.len() && #[trigger] cr[m].0 <= qpos && qpos < cr[m].1;
        assert(cb[m] == (fb[2 * m], fb[2 * m + 1] + 3));
        assert(cr[m] == (fr[2 * m], fr[2 * m + 1] + 3));
        assert(fr[2 * m] <= qpos);
        assert(qpos < fr[2 * m + 1] + 3);
        assert(cb[m].0 <= pos && pos < cb[m].1);
    }
}

/// Every inline tag that is counted, previewed and replaced is an
/// occurrence of `#tag` that does not start inside a fenced code block, does
/// not follow a `/` (as in a URL anchor), and is followed by a character that
/// ends a tag.
pub proof fn law_inline_tags_skip_code_and_links(b: Seq<u8>, tag: Seq<u8>)
    ensures
        forall|k: int|
            0 <= k < inline_tag_positions(b, tag).len() ==> {
                let s = #[trigger] inline_tag_positions(b, tag)[k];
                &&& occurs_at(b, inline_pattern(tag), s)
                &&& !in_ranges(s, code_blocks(b))
                &&& !slash_before(b, s)
                &&& tag_boundary_char(char_at_byte(b, s + 1 + tag.len()))
            },
{
    let ms = matches_from(b, inline_pattern(tag), 0);
    let ps = inline_tag_positions(b, tag);
    assert forall|k: int| 0 <= k < ps.len() implies {
        let s = #[trigger] ps[k];
        &&& occurs_at(b, inline_pattern(tag), s)
        &&& !in_ranges(s, code_blocks(b))
        &&& !slash_before(b, s)
        &&& tag_boundary_char(char_at_byte(b, s + 1 + tag.len()))
    } by {
        lemma_inline_positions_within(b, tag, k);
        assert(ps.contains(ps[k]));
        ms.lemma_filter_contains_rev(inline_pred(b, tag), ps[k]);
    }
}

/// Keeping the elements that satisfy `p` keeps all of them when all do.
proof fn lemma_filter_all(s: Seq<int>, p: spec_fn(int) -> bool)
    requires
        forall|i: int| 0 <= i < s.len() ==> p(#[trigger] s[i]),
    ensures
        s.filter(p) == s,
    decreases s.len(),
{
    reveal(Seq::filter);
    if s.len() > 0 {
        assert forall|i: int| 0 <= i < s.drop_last().len() implies p(#[trigger] s.drop_last()[i]) by {
            assert(s.drop_last()[i] == s[i]);
        }
        lemma_filter_all(s.drop_last(), p);
        assert(p(s[s.len() - 1]));
        assert(s.drop_last().push(s.last()) =~= s);
    }
}

/// The first character of valid UTF-8 is the one its first scalar encodes.
proof fn lemma_first_char(u: Seq<u8>)
    requires
        valid_utf8(u),
        u.len() > 0,
    ensures
        valid_first_scalar(u),
        decode_utf8(u)[0] == decode_first_scalar(u) as char,
{
}

/// Valid UTF-8 that starts with the byte `#` starts with the character `#`.
proof fn lemma_first_char_hash(u: Seq<u8>)
    requires
        valid_utf8(u),
        u.len() > 0,
        u[0] == 0x23,
    ensures
        decode_utf8(u)[0] == '#',
{
    lemma_first_char(u);
    assert((0x23u8 & 0x7Fu8) == 0x23u8) by (bit_vector);
    assert(decode_first_scalar(u) == 0x23u32);
    char_u32_cast('#', 0x23u32);
}

/// Two pieces of valid UTF-8 that agree on their first `m` bytes, where
/// neither continues a character past byte `m`, start with the same
/// character.
proof fn lemma_same_first_char(u: Seq<u8>, w: Seq<u8>, m: int)
    requires
        valid_utf8(u),
        valid_utf8(w),
        1 <= m <= u.len(),
        m <= w.len(),
        u.subrange(0, m) == w.subrange(0, m),
        m == u.len() || !is_continuation_byte(u[m]),
        m == w.len() || !is_continuation_byte(w[m]),
    ensures
        decode_utf8(u)[0] == decode_utf8(w)[0],
{
    lemma_first_char(u);
    lemma_first_char(w);
    assert forall|i: int| 0 <= i < m implies u[i] == w[i] by {
        assert(u.subrange(0, m)[i] == u[i]);
        assert(w.subrange(0, m)[i] == w[i]);
    }
    assert(length_of_first_codepoint(u) <= m);
    assert(length_of_first_codepoint(w) <= m);
    if is_leading_byte_width_1(u[0]) {
    } else if is_leading_byte_width_2(u[0]) {
        assert(u[1] == w[1]);
    } else if is_leading_byte_width_3(u[0]) {
        assert(u[1] == w[1] && u[2] == w[2]);
    } else {
        assert(u[1] == w[1] && u[2] == w[2] && u[3] == w[3]);
    }
}

/// Replacing, at places that start and end on character boundaries, by
/// valid UTF-8 keeps a text valid UTF-8.
proof fn lemma_splice_valid(b: Seq<u8>, ps: Seq<int>, n1: int, p2: Seq<u8>)
    requires
        valid_utf8(b),
        valid_utf8(p2),
        n1 >= 0,
        forall|i: int|
            0 <= i < ps.len() ==> {
                &&& 0 <= #[trigger] ps[i]
                &&& ps[i] + n1 <= b.len()
                &&& is_char_boundary(b, ps[i])
                &&& is_char_boundary(b, ps[i] + n1)
            },
        forall|i: int| 0 < i < ps.len() ==> ps[i - 1] + n1 <= #[trigger] ps[i],
    ensures
        valid_utf8(splice_prefix(b, ps, n1, p2)),
        valid_utf8(replace_all_at(b, ps, n1, p2)),
        0 <= end_of(ps, n1) <= b.len(),
        is_char_boundary(b, end_of(ps, n1)),
    decreases ps.len(),
{
    is_char_boundary_start_end_of_seq(b);
    if ps.len() > 0 {
        let d = ps.drop_last();
        assert forall|i: int| 0 <= i < d.len() implies {
            &&& 0 <= #[trigger] d[i]
            &&& d[i] + n1 <= b.len()
            &&& is_char_boundary(b, d[i])
            &&& is_char_boundary(b, d[i] + n1)
        } by {
            assert(d[i] == ps[i]);
        }
        assert forall|i: int| 0 < i < d.len() implies d[i - 1] + n1 <= #[trigger] d[i] by {
            assert(d[i] == ps[i] && d[i - 1] == ps[i - 1]);
        }
        lemma_splice_valid(b, d, n1, p2);
        let e = end_of(d, n1);
        let last = ps[ps.len() - 1];
        if d.len() > 0 {
            assert(d.last() == ps[ps.len() - 2]);
        }
        assert(e <= last);
        lemma_valid_between(b, e, last);
        let front = splice_prefix(b, d, n1, p2);
        valid_utf8_concat(front, b.subrange(e, last));
        valid_utf8_concat(front + b.subrange(e, last), p2);
        assert(splice_prefix(b, ps, n1, p2) == front + b.subrange(e, last) + p2);
    }
    let f = end_of(ps, n1);
    lemma_valid_between(b, f, b.len() as int);
    valid_utf8_concat(splice_prefix(b, ps, n1, p2), b.subrange(f, b.len() as int));
}

/// The byte before the `k`-th replacement is the byte before the `k`-th
/// occurrence, when no occurrence directly follows another.
#[verifier::spinoff_prover]
#[verifier::rlimit(50)]
proof fn lemma_slash_same(b: Seq<u8>, ps: Seq<int>, p1: Seq<u8>, p2: Seq<u8>, k: int)
    requires
        replacement_setting(b, ps, p1, p2),
        forall|i: int| 0 < i < ps.len() ==> ps[i - 1] + p1.len() < #[trigger] ps[i],
        0 <= k < ps.len(),
    ensures
        slash_before(
            replace_all_at(b, ps, p1.len() as int, p2),
            shifted_positions(ps, p2.len() - p1.len())[k],
        ) == slash_before(b, ps[k]),
{
    let n1 = p1.len() as int;
    let n2 = p2.len() as int;
    let d = n2 - n1;
    let r = replace_all_at(b, ps, n1, p2);
    lemma_segment(b, ps, p1, p2, k);
    let e = seg_start(ps, n1, k);
    let x = ps[k];
    let xr = x + k * d;
    let sr = e + k * d;
    assert(shifted_positions(ps, d)[k] == xr);
    if k == 0 {
        assert(ps.take(0) =~= Seq::<int>::empty());
    } else {
        assert(ps.take(k).last() == ps[k - 1]);
    }
    if x > e {
        assert(r.subrange(sr, xr)[x - 1 - e] == r[xr - 1]);
        assert(b.subrange(e, x)[x - 1 - e] == b[x - 1]);
        assert(xr > 0);
    } else {
        assert(k == 0);
        assert(x == 0 && xr == 0);
    }
}

/// The character at byte `x` of valid UTF-8 `b` is the one at byte `xr` of
/// valid UTF-8 `r` when both start the same stretch of bytes, `x` is a
/// boundary, and after the stretch both texts end or both go on with `#`.
proof fn lemma_char_after_stretch(b: Seq<u8>, r: Seq<u8>, x: int, t: int, xr: int, tr: int)
    requires
        valid_utf8(b),
        valid_utf8(r),
        0 <= x <= t <= b.len(),
        0 <= xr <= tr <= r.len(),
        tr - xr == t - x,
        r.subrange(xr, tr) == b.subrange(x, t),
        is_char_boundary(b, x),
        (t == b.len() && tr == r.len()) || (t < b.len() && tr < r.len() && b[t] == 0x23 && r[tr]
            == 0x23),
    ensures
        char_at_byte(r, xr) == char_at_byte(b, x),
{
    let bl = b.len() as int;
    let rl = r.len() as int;
    if x < bl {
        let u = b.subrange(x, bl);
        let w = r.subrange(xr, rl);
        valid_utf8_split(b, x);
        lemma_boundary_not_continuation(b, x);
        if x < t {
            assert(b.subrange(x, t)[0] == b[x]);
            assert(r.subrange(xr, tr)[0] == r[xr]);
        }
        lemma_boundary_at(r, xr);
        valid_utf8_split(r, xr);
        if x < t {
            let m = t - x;
            assert(u.subrange(0, m) =~= b.subrange(x, t));
            assert(w.subrange(0, m) =~= r.subrange(xr, tr));
            if t < bl {
                assert(u[m] == b[t]);
                assert(w[m] == r[tr]);
            }
            lemma_same_first_char(u, w, m);
        } else {
            assert(u[0] == b[x]);
            assert(w[0] == r[xr]);
            lemma_first_char_hash(u);
            lemma_first_char_hash(w);
        }
    }
}

/// The character after the `k`-th replacement is the character after the
/// `k`-th occurrence, in valid UTF-8 where the occurrences end on character
/// boundaries and the replaced text is valid UTF-8.
#[verifier::spinoff_prover]
proof fn lemma_after_char_same(b: Seq<u8>, ps: Seq<int>, p1: Seq<u8>, p2: Seq<u8>, k: int)
    requires
        replacement_setting(b, ps, p1, p2),
        valid_utf8(b),
        valid_utf8(replace_all_at(b, ps, p1.len() as int, p2)),
        is_char_boundary(b, ps[k] + p1.len()),
        0 <= k < ps.len(),
    ensures
        char_at_byte(
            replace_all_at(b, ps, p1.len() as int, p2),
            shifted_positions(ps, p2.len() - p1.len())[k] + p2.len(),
        ) == char_at_byte(b, ps[k] + p1.len()),
{
    let n1 = p1.len() as int;
    let n2 = p2.len() as int;
    let d = n2 - n1;
    let r = replace_all_at(b, ps, n1, p2);
    let c = ps.len() as int;
    let bl = b.len() as int;
    lemma_segment(b, ps, p1, p2, k);
    lemma_segment(b, ps, p1, p2, k + 1);
    let x = ps[k] + n1;
    let xr = ps[k] + k * d + n2;
    assert(shifted_positions(ps, d)[k] + n2 == xr);
    assert(x == seg_start(ps, n1, k + 1));
    assert(xr == x + (k + 1) * d);
    let t = seg_stop(bl, ps, k + 1);
    let tr = t + (k + 1) * d;
    if k + 1 < c {
        assert(occurs_at(b, p1, ps[k + 1]));
        assert(b.subrange(ps[k + 1], ps[k + 1] + n1)[0] == b[t]);
        assert(r.subrange(tr, tr + n2)[0] == r[tr]);
        assert(r.subrange(xr, tr) == b.subrange(x, t));
    } else {
        assert(r.subrange(xr, r.len() as int) == b.subrange(x, bl));
    }
    lemma_char_after_stretch(b, r, x, t, xr, tr);
}

/// The counted inline tags `#tag` of valid UTF-8 `b`, to be replaced by
/// `#new`: they are in the setting of the lemmas above, start and end on
/// character boundaries, never follow one another directly, and the
/// replaced text is valid UTF-8.
#[verifier::spinoff_prover]
#[verifier::rlimit(50)]
proof fn lemma_counted_setting(b: Seq<u8>, tag: Seq<u8>, new: Seq<u8>)
    requires
        valid_utf8(b),
        valid_utf8(tag),
        valid_utf8(new),
        tag.len() > 0,
        new.len() > 0,
        forall|i: int| 0 <= i < tag.len() ==> #[trigger] tag[i] != 0x60 && tag[i] != 0x0a,
        forall|i: int| 0 <= i < new.len() ==> #[trigger] new[i] != 0x60 && new[i] != 0x0a,
    ensures
        ({
            let ps = inline_tag_positions(b, tag);
            let p1 = inline_pattern(tag);
            let p2 = inline_pattern(new);
            &&& replacement_setting(b, ps, p1, p2)
            &&& valid_utf8(replace_all_at(b, ps, p1.len() as int, p2))
            &&& forall|i: int|
                0 <= i < ps.len() ==> is_char_boundary(b, #[trigger] ps[i] + p1.len())
            &&& forall|i: int| 0 < i < ps.len() ==> ps[i - 1] + p1.len() < #[trigger] ps[i]
        }),
{
    let ps = inline_tag_positions(b, tag);
    let p1 = inline_pattern(tag);
    let p2 = inline_pattern(new);
    let n1 = p1.len() as int;
    let n2 = p2.len() as int;
    let c = ps.len() as int;
    assert(replacement_setting(b, ps, p1, p2)) by {
        lemma_inline_positions_ordered(b, tag);
        assert forall|i: int| 0 <= i < c implies occurs_at(b, p1, #[trigger] ps[i]) by {
            lemma_inline_positions_within(b, tag, i);
        }
        assert forall|i: int| 0 < i < c implies ps[i - 1] + n1 <= #[trigger] ps[i] by {
            assert(ps[i - 1] + 1 + tag.len() <= ps[i]);
        }
        assert forall|i: int| 0 <= i < n1 implies #[trigger] p1[i] != 0x60 by {
            if i > 0 {
                assert(p1[i] == tag[i - 1]);
            }
        }
        assert forall|i: int| 0 <= i < n2 implies #[trigger] p2[i] != 0x60 by {
            if i > 0 {
                assert(p2[i] == new[i - 1]);
            }
        }
        assert(p1[n1 - 1] == tag[tag.len() - 1]);
        assert(p2[n2 - 1] == new[new.len() - 1]);
    }
    assert(valid_utf8(replace_all_at(b, ps, n1, p2))) by {
        lemma_counted_cuts(b, tag);
        lemma_inline_positions_ordered(b, tag);
        assert forall|i: int| 0 < i < c implies ps[i - 1] + n1 <= #[trigger] ps[i] by {
            assert(ps[i - 1] + 1 + tag.len() <= ps[i]);
        }
        lemma_ascii_byte_valid(0x23);
        valid_utf8_concat(seq![0x23u8], new);
        lemma_splice_valid(b, ps, n1, p2);
    }
    lemma_counted_cuts(b, tag);
    lemma_counted_apart(b, tag);
}

/// The counted inline tags of valid UTF-8 start and end on character
/// boundaries.
proof fn lemma_counted_cuts(b: Seq<u8>, tag: Seq<u8>)
    requires
        valid_utf8(b),
        valid_utf8(tag),
    ensures
        forall|i: int|
            0 <= i < inline_tag_positions(b, tag).len() ==> {
                &&& 0 <= #[trigger] inline_tag_positions(b, tag)[i]
                &&& inline_tag_positions(b, tag)[i] + (1 + tag.len()) <= b.len()
                &&& is_char_boundary(b, inline_tag_positions(b, tag)[i])
                &&& is_char_boundary(b, inline_tag_positions(b, tag)[i] + (1 + tag.len()))
            },
{
    let ps = inline_tag_positions(b, tag);
    assert forall|i: int| 0 <= i < ps.len() implies {
        &&& 0 <= #[trigger] ps[i]
        &&& ps[i] + (1 + tag.len()) <= b.len()
        &&& is_char_boundary(b, ps[i])
        &&& is_char_boundary(b, ps[i] + (1 + tag.len()))
    } by {
        lemma_inline_positions_within(b, tag, i);
        lemma_pattern_cuts(b, tag, ps[i]);
    }
}

/// In valid UTF-8 no counted inline tag directly follows another: a tag is
/// ended by a character that `#` is not.
proof fn lemma_counted_apart(b: Seq<u8>, tag: Seq<u8>)
    requires
        valid_utf8(b),
        valid_utf8(tag),
    ensures
        forall|i: int|
            0 < i < inline_tag_positions(b, tag).len() ==> inline_tag_positions(b, tag)[i - 1] + (1
                + tag.len()) < #[trigger] inline_tag_positions(b, tag)[i],
{
    let ps = inline_tag_positions(b, tag);
    law_inline_tags_skip_code_and_links(b, tag);
    lemma_inline_positions_ordered(b, tag);
    lemma_counted_cuts(b, tag);
    assert forall|i: int| 0 < i < ps.len() implies ps[i - 1] + (1 + tag.len()) < #[trigger] ps[i] by {
        assert(ps[i - 1] + 1 + tag.len() <= ps[i]);
        if ps[i - 1] + (1 + tag.len()) == ps[i] {
            let x = ps[i];
            assert(occurs_at(b, inline_pattern(tag), x));
            valid_utf8_split(b, x);
            assert(b.subrange(x, x + 1 + tag.len())[0] == b[x]);
            assert(b.subrange(x, b.len() as int)[0] == b[x]);
            lemma_first_char_hash(b.subrange(x, b.len() as int));
            assert(tag_boundary_char(char_at_byte(b, ps[i - 1] + 1 + tag.len())));
        }
    }
}

/// Each replacement `#new` of a counted tag counts as an inline tag of the
/// replaced text.
#[verifier::spinoff_prover]
proof fn lemma_replacement_counts(b: Seq<u8>, tag: Seq<u8>, new: Seq<u8>, k: int)
    requires
        valid_utf8(b),
        replacement_setting(b, inline_tag_positions(b, tag), inline_pattern(tag), inline_pattern(new)),
        valid_utf8(
            replace_all_at(b, inline_tag_positions(b, tag), 1 + tag.len() as int, inline_pattern(new)),
        ),
        is_char_boundary(b, inline_tag_positions(b, tag)[k] + 1 + tag.len()),
        forall|i: int|
            0 < i < inline_tag_positions(b, tag).len() ==> inline_tag_positions(b, tag)[i - 1] + 1
                + tag.len() < #[trigger] inline_tag_positions(b, tag)[i],
        0 <= k < inline_tag_positions(b, tag).len(),
    ensures
        is_inline_tag_at(
            inline_replaced(b, tag, new),
            new,
            shifted_positions(inline_tag_positions(b, tag), new.len() - tag.len())[k],
        ),
{
    let ps = inline_tag_positions(b, tag);
    let p1 = inline_pattern(tag);
    let p2 = inline_pattern(new);
    law_inline_tags_skip_code_and_links(b, tag);
    assert(ps[k] == ps[k]);
    lemma_code_block_same(b, ps, p1, p2, k);
    lemma_slash_same(b, ps, p1, p2, k);
    lemma_after_char_same(b, ps, p1, p2, k);
}

/// Replacing the inline tags `#tag` by `#new` and then the inline tags
/// `#new` of the result back by `#tag` gives the text back, and both
/// replacements count the same tags, at the same places once moved by the
/// length difference of the tags. This holds when neither tag is empty or
/// holds `#`, a backtick or a newline, and `#new` does not occur in the text
/// before the first replacement.
#[verifier::spinoff_prover]
pub proof fn law_inline_replace_round_trip(b: Seq<u8>, tag: Seq<u8>, new: Seq<u8>)
    requires
        valid_utf8(b),
        valid_utf8(tag),
        valid_utf8(new),
        tag.len() > 0,
        new.len() > 0,
        forall|i: int|
            0 <= i < tag.len() ==> #[trigger] tag[i] != 0x23 && tag[i] != 0x60 && tag[i] != 0x0a,
        forall|i: int|
            0 <= i < new.len() ==> #[trigger] new[i] != 0x23 && new[i] != 0x60 && new[i] != 0x0a,
        forall|t: int| !occurs_at(b, inline_pattern(new), t),
    ensures
        ({
            let r = inline_replaced(b, tag, new);
            let ps = inline_tag_positions(b, tag);
            &&& inline_tag_positions(r, new) == shifted_positions(ps, new.len() - tag.len())
            &&& inline_tag_positions(r, new).len() == ps.len()
            &&& inline_replaced(r, new, tag) == b
        }),
{
    let ps = inline_tag_positions(b, tag);
    let p1 = inline_pattern(tag);
    let p2 = inline_pattern(new);
    let n1 = p1.len() as int;
    let n2 = p2.len() as int;
    let d = n2 - n1;
    let c = ps.len() as int;
    let r = replace_all_at(b, ps, n1, p2);
    let qs = shifted_positions(ps, d);
    lemma_counted_setting(b, tag, new);
    assert(r == inline_replaced(b, tag, new));
    // the leftmost occurrences of `#new` in the result are the replacements
    assert(ps.take(0) =~= Seq::<int>::empty());
    assert forall|i: int| 1 <= i < n2 implies #[trigger] p2[i] != 0x23 by {
        assert(p2[i] == new[i - 1]);
    }
    if c > 0 {
        assert(occurs_at(b, p1, ps[0]));
    }
    lemma_matches_shifted(b, ps, p1, p2, 0, 0);
    assert(qs.subrange(0, c) =~= qs);
    // and each of them counts
    assert forall|k: int| 0 <= k < qs.len() implies #[trigger] inline_pred(r, new)(qs[k]) by {
        assert(is_char_boundary(b, ps[k] + n1));
        lemma_replacement_counts(b, tag, new, k);
    }
    lemma_filter_all(qs, inline_pred(r, new));
    law_inline_replace_undone(b, tag, new);
}

/// Line `k` lies in the `tags:` list exactly when some earlier line is the
/// `tags:` key line and every line between them is a list item line, however
/// many items come before it.
pub proof fn law_tags_list_extent(ls: Seq<Seq<u8>>, k: int)
    requires
        0 <= k <= ls.len(),
    ensures
        in_tags_list(ls, k) <==> exists|j: int|
            0 <= j < k && #[trigger] tags_key_line(ls[j]) && (forall|i: int|
                j < i < k ==> dash_line(#[trigger] ls[i])),
    decreases k,
{
    if k > 0 {
        law_tags_list_extent(ls, k - 1);
        if in_tags_list(ls, k) {
            if tags_key_line(ls[k - 1]) {
                assert(tags_key_line(ls[k - 1]) && (forall|i: int| k - 1 < i < k ==> dash_line(#[trigger] ls[i])));
            } else {
                let j = choose|j: int|
                    0 <= j < k - 1 && #[trigger] tags_key_line(ls[j]) && (forall|i: int|
                        j < i < k - 1 ==> dash_line(#[trigger] ls[i]));
                assert(forall|i: int| j < i < k ==> dash_line(#[trigger] ls[i]));
            }
        }
        if exists|j: int|
            0 <= j < k && #[trigger] tags_key_line(ls[j]) && (forall|i: int|
                j < i < k ==> dash_line(#[trigger] ls[i])) {
            let j = choose|j: int|
                0 <= j < k && #[trigger] tags_key_line(ls[j]) && (forall|i: int|
                    j < i < k ==> dash_line(#[trigger] ls[i]));
            if j < k - 1 {
                assert(dash_line(ls[k - 1]));
                assert(forall|i: int| j < i < k - 1 ==> dash_line(#[trigger] ls[i]));
            }
        }
    }
}

/// The frontmatter lines that are counted and rewritten for `tag` are
/// exactly the lines that match `tag` as a list item and follow a `tags:`
/// key line with only list item lines in between; so a list of any length
/// has each matching item counted.
pub proof fn law_yaml_hits_are_list_items(b: Seq<u8>, tag: Seq<u8>)
    ensures
        forall|k: int|
            0 <= k < lines_of(b).len() ==> (yaml_hits(b, tag).contains(k) <==> {
                &&& yaml_item_match(lines_of(b)[k], tag) is Some
                &&& exists|j: int|
                    0 <= j < k && #[trigger] tags_key_line(lines_of(b)[j]) && (forall|i: int|
                        j < i < k ==> dash_line(#[trigger] lines_of(b)[i]))
            }),
{
    let ls = lines_of(b);
    let all = Seq::new(ls.len(), |k: int| k);
    let pred = yaml_hit_pred(b, tag);
    assert forall|k: int| 0 <= k < ls.len() implies (yaml_hits(b, tag).contains(k) <==> {
        &&& yaml_item_match(ls[k], tag) is Some
        &&& exists|j: int|
            0 <= j < k && #[trigger] tags_key_line(ls[j]) && (forall|i: int|
                j < i < k ==> dash_line(#[trigger] ls[i]))
    }) by {
        law_tags_list_extent(ls, k);
        if yaml_hits(b, tag).contains(k) {
            all.lemma_filter_contains_rev(pred, k);
        }
        if pred(k) {
            assert(all[k] == k);
            all.lemma_filter_contains(pred, k);
        }
    }
}

// ---------------------------------------------------------------------
// Lines of the replaced text
// ---------------------------------------------------------------------

/// The positions `ps` moved by `m`.
pub open spec fn moved_by(ps: Seq<int>, m: int) -> Seq<int> {
    ps.map_values(|p: int| p + m)
}

/// The occurrences `ps`, each `n` bytes long, lie within `0..len` in order,
/// each ending before the next starts.
pub open spec fn spread_within(len: int, ps: Seq<int>, n: int) -> bool {
    &&& forall|i: int| 0 <= i < ps.len() ==> 0 <= #[trigger] ps[i] && ps[i] + n <= len
    &&& forall|i: int, j: int| 0 <= i < j < ps.len() ==> #[trigger] ps[i] + n <= #[trigger] ps[j]
}

/// Splicing depends only on the text up to the last occurrence.
proof fn lemma_splice_extend(x: Seq<u8>, y: Seq<u8>, ps: Seq<int>, n: int, rep: Seq<u8>)
    requires
        n >= 0,
        spread_within(x.len() as int, ps, n),
    ensures
        splice_prefix(x + y, ps, n, rep) == splice_prefix(x, ps, n, rep),
        0 <= end_of(ps, n) <= x.len(),
    decreases ps.len(),
{
    if ps.len() > 0 {
        let d = ps.drop_last();
        assert(spread_within(x.len() as int, d, n)) by {
            assert forall|i: int| 0 <= i < d.len() implies 0 <= #[trigger] d[i] && d[i] + n <= x.len() by {
                assert(d[i] == ps[i]);
            }
            assert forall|i: int, j: int| 0 <= i < j < d.len() implies #[trigger] d[i] + n <= #[trigger] d[j] by {
                assert(d[i] == ps[i] && d[j] == ps[j]);
            }
        }
        lemma_splice_extend(x, y, d, n, rep);
        let last = ps[ps.len() - 1];
        assert(0 <= last && last + n <= x.len());
        if d.len() > 0 {
            assert(d.last() == ps[ps.len() - 2]);
            assert(ps[ps.len() - 2] + n <= last);
        }
        assert((x + y).subrange(end_of(d, n), last) =~= x.subrange(end_of(d, n), last));
    }
}

/// Occurrences after a cut, moved by its place, splice onto the text before
/// the cut replaced.
proof fn lemma_splice_concat(x: Seq<u8>, y: Seq<u8>, ps: Seq<int>, qs: Seq<int>, n: int, rep: Seq<u8>)
    requires
        n >= 0,
        spread_within(x.len() as int, ps, n),
        spread_within(y.len() as int, qs, n),
        qs.len() > 0,
    ensures
        splice_prefix(x + y, ps + moved_by(qs, x.len() as int), n, rep) == replace_all_at(x, ps, n, rep)
            + splice_prefix(y, qs, n, rep),
    decreases qs.len(),
{
    let z = x + y;
    let m = x.len() as int;
    let cs = ps + moved_by(qs, m);
    let q = qs[qs.len() - 1];
    assert(cs.last() == q + m);
    lemma_splice_extend(x, y, ps, n, rep);
    if qs.len() == 1 {
        assert(cs.drop_last() =~= ps);
        assert(qs.drop_last() =~= Seq::<int>::empty());
        assert(0 <= q && q + n <= y.len());
        assert(z.subrange(end_of(ps, n), q + m) =~= x.subrange(end_of(ps, n), m) + y.subrange(0, q));
        assert(splice_prefix(y, qs.drop_last(), n, rep) =~= Seq::<u8>::empty());
        assert(end_of(qs.drop_last(), n) == 0);
        assert(splice_prefix(y, qs, n, rep) == splice_prefix(y, qs.drop_last(), n, rep) + y.subrange(0, q)
            + rep);
        assert(splice_prefix(y, qs, n, rep) =~= y.subrange(0, q) + rep);
    } else {
        let qd = qs.drop_last();
        assert(spread_within(y.len() as int, qd, n)) by {
            assert forall|i: int| 0 <= i < qd.len() implies 0 <= #[trigger] qd[i] && qd[i] + n <= y.len() by {
                assert(qd[i] == qs[i]);
            }
            assert forall|i: int, j: int| 0 <= i < j < qd.len() implies #[trigger] qd[i] + n <= #[trigger] qd[j] by {
                assert(qd[i] == qs[i] && qd[j] == qs[j]);
            }
        }
        lemma_splice_concat(x, y, ps, qd, n, rep);
        assert(cs.drop_last() =~= ps + moved_by(qd, m));
        let pe = qd[qd.len() - 1];
        assert(pe == qs[qs.len() - 2]);
        assert(pe + n <= q);
        assert(moved_by(qd, m).last() == pe + m);
        assert(end_of(cs.drop_last(), n) == pe + n + m);
        assert(z.subrange(pe + n + m, q + m) =~= y.subrange(pe + n, q));
    }
}

/// Replacing in two joined pieces, with no occurrence across the join, is
/// replacing in each.
proof fn lemma_replace_concat(x: Seq<u8>, y: Seq<u8>, ps: Seq<int>, qs: Seq<int>, n: int, rep: Seq<u8>)
    requires
        n >= 0,
        spread_within(x.len() as int, ps, n),
        spread_within(y.len() as int, qs, n),
    ensures
        replace_all_at(x + y, ps + moved_by(qs, x.len() as int), n, rep) == replace_all_at(x, ps, n, rep)
            + replace_all_at(y, qs, n, rep),
{
    let z = x + y;
    let m = x.len() as int;
    let cs = ps + moved_by(qs, m);
    lemma_splice_extend(x, y, ps, n, rep);
    if qs.len() == 0 {
        assert(cs =~= ps);
        assert(z.subrange(end_of(ps, n), z.len() as int) =~= x.subrange(end_of(ps, n), m) + y);
        assert(y.subrange(0, y.len() as int) =~= y);
    } else {
        lemma_splice_concat(x, y, ps, qs, n, rep);
        let q = qs[qs.len() - 1];
        assert(cs.last() == q + m);
        assert(z.subrange(q + n + m, z.len() as int) =~= y.subrange(q + n, y.len() as int));
    }
}

/// Where sorted occurrences are cut by `m`: those before index `i` end by
/// `m`, the others start at or after it.
proof fn lemma_cut_index(ps: Seq<int>, n: int, m: int) -> (i: int)
    requires
        n >= 1,
        forall|k: int, l: int| 0 <= k < l < ps.len() ==> #[trigger] ps[k] + n <= #[trigger] ps[l],
        forall|k: int| 0 <= k < ps.len() ==> #[trigger] ps[k] + n <= m || ps[k] >= m,
    ensures
        0 <= i <= ps.len(),
        forall|k: int| 0 <= k < i ==> #[trigger] ps[k] + n <= m,
        forall|k: int| i <= k < ps.len() ==> #[trigger] ps[k] >= m,
    decreases ps.len(),
{
    if ps.len() == 0 {
        0
    } else {
        let d = ps.drop_last();
        assert forall|k: int, l: int| 0 <= k < l < d.len() implies #[trigger] d[k] + n <= #[trigger] d[l] by {
            assert(d[k] == ps[k] && d[l] == ps[l]);
        }
        assert forall|k: int| 0 <= k < d.len() implies #[trigger] d[k] + n <= m || d[k] >= m by {
            assert(d[k] == ps[k]);
        }
        let i0 = lemma_cut_index(d, n, m);
        let last = ps.len() - 1;
        assert forall|k: int| 0 <= k < i0 implies #[trigger] ps[k] + n <= m by {
            assert(d[k] == ps[k]);
        }
        if i0 < d.len() {
            assert(d[i0] == ps[i0]);
            assert(ps[i0] + n <= ps[last]);
            assert forall|k: int| i0 <= k < ps.len() implies #[trigger] ps[k] >= m by {
                if k < last {
                    assert(d[k] == ps[k]);
                } else {
                    assert(ps[i0] + n <= ps[k]);
                }
            }
            i0
        } else if ps[last] + n <= m {
            ps.len() as int
        } else {
            i0
        }
    }
}

/// The text before the last occurrence's end, replaced, holds as many
/// newlines as the original, when neither the occurrences nor the
/// replacement hold one.
proof fn lemma_splice_newlines(x: Seq<u8>, ps: Seq<int>, n: int, rep: Seq<u8>)
    requires
        n >= 0,
        spread_within(x.len() as int, ps, n),
        forall|i: int, t: int|
            #![trigger ps[i], x[t]]
            0 <= i < ps.len() && ps[i] <= t < ps[i] + n ==> x[t] != 0x0a,
        forall|t: int| 0 <= t < rep.len() ==> rep[t] != 0x0a,
    ensures
        count_newlines(splice_prefix(x, ps, n, rep)) == count_newlines(x.subrange(0, end_of(ps, n))),
    decreases ps.len(),
{
    lemma_count_newlines_none(rep);
    if ps.len() == 0 {
        assert(x.subrange(0, 0) =~= Seq::<u8>::empty());
    } else {
        let d = ps.drop_last();
        assert(spread_within(x.len() as int, d, n)) by {
            assert forall|i: int| 0 <= i < d.len() implies 0 <= #[trigger] d[i] && d[i] + n <= x.len() by {
                assert(d[i] == ps[i]);
            }
            assert forall|i: int, j: int| 0 <= i < j < d.len() implies #[trigger] d[i] + n <= #[trigger] d[j] by {
                assert(d[i] == ps[i] && d[j] == ps[j]);
            }
        }
        assert forall|i: int, t: int|
            #![trigger d[i], x[t]]
            0 <= i < d.len() && d[i] <= t < d[i] + n implies x[t] != 0x0a by {
            assert(d[i] == ps[i]);
        }
        lemma_splice_newlines(x, d, n, rep);
        let last = ps[ps.len() - 1];
        let e = end_of(d, n);
        if d.len() > 0 {
            assert(d.last() == ps[ps.len() - 2]);
            assert(ps[ps.len() - 2] + n <= last);
        }
        let front = splice_prefix(x, d, n, rep);
        lemma_count_newlines_concat(front, x.subrange(e, last));
        lemma_count_newlines_concat(front + x.subrange(e, last), rep);
        let seg = x.subrange(last, last + n);
        assert forall|t: int| 0 <= t < seg.len() implies #[trigger] seg[t] != 0x0a by {
            assert(seg[t] == x[last + t]);
        }
        lemma_count_newlines_none(seg);
        assert(x.subrange(0, last + n) =~= x.subrange(0, e) + x.subrange(e, last) + x.subrange(last, last + n));
        lemma_count_newlines_concat(x.subrange(0, e), x.subrange(e, last));
        lemma_count_newlines_concat(x.subrange(0, e) + x.subrange(e, last), x.subrange(last, last + n));
    }
}

/// A piece without newlines counted holds no newline byte.
proof fn lemma_no_newline_counted(x: Seq<u8>)
    requires
        count_newlines(x) == 0,
    ensures
        forall|t: int| 0 <= t < x.len() ==> x[t] != 0x0a,
    decreases x.len(),
{
    if x.len() > 0 {
        lemma_count_newlines_bound(x.drop_last());
        lemma_no_newline_counted(x.drop_last());
        assert forall|t: int| 0 <= t < x.len() implies x[t] != 0x0a by {
            if t < x.len() - 1 {
                assert(x.drop_last()[t] == x[t]);
            }
        }
    }
}

/// The line from `i` ends at `e` when no newline comes before it and a
/// newline or the end comes at it.
proof fn lemma_line_end_exact(b: Seq<u8>, i: int, e: int)
    requires
        0 <= i <= e <= b.len(),
        forall|t: int| i <= t < e ==> b[t] != 0x0a,
        e == b.len() || b[e] == 0x0a,
    ensures
        line_end(b, i) == e,
    decreases e - i,
{
    if i < e {
        lemma_line_end_exact(b, i + 1, e);
    }
}

/// A line starts at the text's start or just after a newline.
proof fn lemma_line_start_shape(b: Seq<u8>, s: int)
    requires
        0 <= s <= b.len(),
    ensures
        line_start_before(b, s) == 0 || b[line_start_before(b, s) - 1] == 0x0a,
    decreases s,
{
    if s > 0 && b[s - 1] != 0x0a {
        lemma_line_start_shape(b, s - 1);
    }
}

/// Replacing occurrences that hold no newline by a replacement that holds
/// none keeps the number of newlines, a newline at the end and a newline at
/// the start.
#[verifier::spinoff_prover]
proof fn lemma_replaced_newlines(x: Seq<u8>, ps: Seq<int>, n: int, rep: Seq<u8>)
    requires
        n >= 1,
        spread_within(x.len() as int, ps, n),
        forall|i: int, t: int|
            #![trigger ps[i], x[t]]
            0 <= i < ps.len() && ps[i] <= t < ps[i] + n ==> x[t] != 0x0a,
        forall|t: int| 0 <= t < rep.len() ==> rep[t] != 0x0a,
    ensures
        count_newlines(replace_all_at(x, ps, n, rep)) == count_newlines(x),
        x.len() > 0 && x.last() == 0x0a ==> replace_all_at(x, ps, n, rep).len() > 0 && replace_all_at(
            x,
            ps,
            n,
            rep,
        ).last() == 0x0a,
        x.len() > 0 && x[0] == 0x0a ==> replace_all_at(x, ps, n, rep).len() > 0 && replace_all_at(
            x,
            ps,
            n,
            rep,
        )[0] == 0x0a,
{
    let xl = x.len() as int;
    let r = replace_all_at(x, ps, n, rep);
    lemma_splice_newlines(x, ps, n, rep);
    lemma_splice_extend(x, Seq::<u8>::empty(), ps, n, rep);
    let e = end_of(ps, n);
    let sp = splice_prefix(x, ps, n, rep);
    assert(x =~= x.subrange(0, e) + x.subrange(e, xl));
    lemma_count_newlines_concat(x.subrange(0, e), x.subrange(e, xl));
    lemma_count_newlines_concat(sp, x.subrange(e, xl));
    if x.len() > 0 && x.last() == 0x0a {
        if e == xl {
            let lp = ps[ps.len() - 1];
            assert(lp <= xl - 1 < lp + n);
            assert(x[xl - 1] != 0x0a);
        }
        assert(r.last() == x[xl - 1]);
    }
    if x.len() > 0 && x[0] == 0x0a {
        if ps.len() > 0 {
            if ps[0] == 0 {
                assert(x[0] != 0x0a);
            }
            lemma_splice_take_prefix(x, ps, n, rep, 1);
            assert(ps.take(1).drop_last() =~= Seq::<int>::empty());
            assert(ps.take(1).last() == ps[0]);
            assert(splice_prefix(x, ps.take(1).drop_last(), n, rep) =~= Seq::<u8>::empty());
            let one = splice_prefix(x, ps.take(1), n, rep);
            assert(one == splice_prefix(x, ps.take(1).drop_last(), n, rep) + x.subrange(0, ps[0]) + rep);
            assert(one =~= x.subrange(0, ps[0]) + rep);
            assert(one[0] == x[0]);
            assert(sp[0] == one[0]);
        } else {
            assert(r =~= x);
        }
    }
}

/// The three parts that two cuts make of sorted occurrences lie within
/// their pieces, and so do the last two together.
#[verifier::spinoff_prover]
proof fn lemma_spread_parts(bl: int, ps: Seq<int>, n: int, m1: int, m2: int, i1: int, i2: int)
    requires
        n >= 1,
        spread_within(bl, ps, n),
        0 <= m1 <= m2 <= bl,
        0 <= i1 <= i2 <= ps.len(),
        forall|k: int| 0 <= k < i1 ==> #[trigger] ps[k] + n <= m1,
        forall|k: int| i1 <= k < ps.len() ==> #[trigger] ps[k] >= m1,
        forall|k: int| 0 <= k < i2 ==> #[trigger] ps[k] + n <= m2,
        forall|k: int| i2 <= k < ps.len() ==> #[trigger] ps[k] >= m2,
    ensures
        spread_within(m1, ps.take(i1), n),
        spread_within(m2 - m1, moved_by(ps.subrange(i1, i2), -m1), n),
        spread_within(bl - m2, moved_by(ps.skip(i2), -m2), n),
        spread_within(
            bl - m1,
            moved_by(ps.subrange(i1, i2), -m1) + moved_by(moved_by(ps.skip(i2), -m2), m2 - m1),
            n,
        ),
{
    let pa = ps.take(i1);
    let pb = moved_by(ps.subrange(i1, i2), -m1);
    let pc = moved_by(ps.skip(i2), -m2);
    let q = pb + moved_by(pc, m2 - m1);
    assert(spread_within(m1, pa, n)) by {
        assert forall|i: int| 0 <= i < pa.len() implies 0 <= #[trigger] pa[i] && pa[i] + n <= m1 by {
            assert(pa[i] == ps[i]);
        }
        assert forall|i: int, j: int| 0 <= i < j < pa.len() implies #[trigger] pa[i] + n <= #[trigger] pa[j] by {
            assert(pa[i] == ps[i] && pa[j] == ps[j]);
        }
    }
    assert(spread_within(m2 - m1, pb, n)) by {
        assert forall|i: int| 0 <= i < pb.len() implies 0 <= #[trigger] pb[i] && pb[i] + n <= m2 - m1 by {
            assert(pb[i] == ps[i1 + i] - m1);
        }
        assert forall|i: int, j: int| 0 <= i < j < pb.len() implies #[trigger] pb[i] + n <= #[trigger] pb[j] by {
            assert(pb[i] == ps[i1 + i] - m1 && pb[j] == ps[i1 + j] - m1);
        }
    }
    assert(spread_within(bl - m2, pc, n)) by {
        assert forall|i: int| 0 <= i < pc.len() implies 0 <= #[trigger] pc[i] && pc[i] + n <= bl - m2 by {
            assert(pc[i] == ps[i2 + i] - m2);
        }
        assert forall|i: int, j: int| 0 <= i < j < pc.len() implies #[trigger] pc[i] + n <= #[trigger] pc[j] by {
            assert(pc[i] == ps[i2 + i] - m2 && pc[j] == ps[i2 + j] - m2);
        }
    }
    assert(spread_within(bl - m1, q, n)) by {
        assert forall|i: int| 0 <= i < q.len() implies 0 <= #[trigger] q[i] && q[i] + n <= bl - m1 by {
            assert(q[i] == ps[i1 + i] - m1);
        }
        assert forall|i: int, j: int| 0 <= i < j < q.len() implies #[trigger] q[i] + n <= #[trigger] q[j] by {
            assert(q[i] == ps[i1 + i] - m1 && q[j] == ps[i1 + j] - m1);
        }
    }
}

/// Cutting sorted occurrences at two places that no occurrence crosses
/// splits the replacement into three.
#[verifier::spinoff_prover]
#[verifier::rlimit(40)]
proof fn lemma_replace_three(
    b: Seq<u8>,
    ps: Seq<int>,
    n: int,
    rep: Seq<u8>,
    m1: int,
    m2: int,
    i1: int,
    i2: int,
)
    requires
        n >= 1,
        spread_within(b.len() as int, ps, n),
        0 <= m1 <= m2 <= b.len(),
        0 <= i1 <= i2 <= ps.len(),
        forall|k: int| 0 <= k < i1 ==> #[trigger] ps[k] + n <= m1,
        forall|k: int| i1 <= k < ps.len() ==> #[trigger] ps[k] >= m1,
        forall|k: int| 0 <= k < i2 ==> #[trigger] ps[k] + n <= m2,
        forall|k: int| i2 <= k < ps.len() ==> #[trigger] ps[k] >= m2,
    ensures
        spread_within(m1, ps.take(i1), n),
        spread_within(m2 - m1, moved_by(ps.subrange(i1, i2), -m1), n),
        spread_within(b.len() - m2, moved_by(ps.skip(i2), -m2), n),
        replace_all_at(b, ps, n, rep) == replace_all_at(b.subrange(0, m1), ps.take(i1), n, rep)
            + replace_all_at(b.subrange(m1, m2), moved_by(ps.subrange(i1, i2), -m1), n, rep)
            + replace_all_at(b.subrange(m2, b.len() as int), moved_by(ps.skip(i2), -m2), n, rep),
{
    let bl = b.len() as int;
    let pa = ps.take(i1);
    let pb = moved_by(ps.subrange(i1, i2), -m1);
    let pc = moved_by(ps.skip(i2), -m2);
    let q = pb + moved_by(pc, m2 - m1);
    lemma_spread_parts(bl, ps, n, m1, m2, i1, i2);
    let bb = b.subrange(m1, m2);
    let c = b.subrange(m2, bl);
    lemma_replace_concat(bb, c, pb, pc, n, rep);
    assert(bb + c =~= b.subrange(m1, bl));
    lemma_replace_concat(b.subrange(0, m1), bb + c, pa, q, n, rep);
    assert(b.subrange(0, m1) + (bb + c) =~= b);
    assert(pa + moved_by(q, m1) =~= ps);
}

/// The occurrences that lie within `m1..m2`, counted from `m1`, are the
/// middle ones, moved.
proof fn lemma_offsets_middle(ps: Seq<int>, n: int, m1: int, m2: int, i1: int, i2: int)
    requires
        n >= 1,
        0 <= i1 <= i2 <= ps.len(),
        forall|k: int| 0 <= k < i1 ==> #[trigger] ps[k] + n <= m1,
        forall|k: int| i1 <= k < ps.len() ==> #[trigger] ps[k] >= m1,
        forall|k: int| 0 <= k < i2 ==> #[trigger] ps[k] + n <= m2,
        forall|k: int| i2 <= k < ps.len() ==> #[trigger] ps[k] >= m2,
    ensures
        line_offsets(ps, m1, m2, n) == moved_by(ps.subrange(i1, i2), -m1),
{
    let pred = in_line(m1, m2, n);
    let mid = ps.subrange(i1, i2);
    assert(ps =~= ps.take(i1) + mid + ps.skip(i2));
    assert forall|i: int| 0 <= i < ps.take(i1).len() implies !pred(#[trigger] ps.take(i1)[i]) by {
        assert(ps.take(i1)[i] == ps[i]);
    }
    assert forall|i: int| 0 <= i < ps.skip(i2).len() implies !pred(#[trigger] ps.skip(i2)[i]) by {
        assert(ps.skip(i2)[i] == ps[i2 + i]);
    }
    assert forall|i: int| 0 <= i < mid.len() implies pred(#[trigger] mid[i]) by {
        assert(mid[i] == ps[i1 + i]);
    }
    lemma_filter_none(ps.take(i1), pred);
    lemma_filter_none(ps.skip(i2), pred);
    lemma_filter_all(mid, pred);
    Seq::<int>::filter_distributes_over_add(ps.take(i1), mid, pred);
    Seq::<int>::filter_distributes_over_add(ps.take(i1) + mid, ps.skip(i2), pred);
    assert(ps.filter(pred) =~= mid);
    assert(line_offsets(ps, m1, m2, n) =~= moved_by(mid, -m1));
}

/// The counted inline tags lie within the text in order, and when the tag
/// holds no newline none of them does.
#[verifier::spinoff_prover]
proof fn lemma_counted_spread(b: Seq<u8>, tag: Seq<u8>)
    requires
        forall|t: int| 0 <= t < tag.len() ==> tag[t] != 0x0a,
    ensures
        spread_within(b.len() as int, inline_tag_positions(b, tag), 1 + tag.len() as int),
        forall|i: int, t: int|
            #![trigger inline_tag_positions(b, tag)[i], b[t]]
            0 <= i < inline_tag_positions(b, tag).len() && inline_tag_positions(b, tag)[i] <= t
                < inline_tag_positions(b, tag)[i] + (1 + tag.len()) ==> b[t] != 0x0a,
{
    let ps = inline_tag_positions(b, tag);
    let n1 = 1 + tag.len() as int;
    let p1 = inline_pattern(tag);
    let bl = b.len() as int;
    lemma_inline_positions_ordered(b, tag);
    assert forall|i: int| 0 <= i < ps.len() implies 0 <= #[trigger] ps[i] && ps[i] + n1 <= bl by {
        lemma_inline_positions_within(b, tag, i);
    }
    assert forall|i: int, j: int| 0 <= i < j < ps.len() implies #[trigger] ps[i] + n1 <= #[trigger] ps[j] by {
        assert(ps[i] + 1 + tag.len() <= ps[j]);
    }
    assert(spread_within(bl, ps, n1));
    assert forall|i: int, t: int|
        #![trigger ps[i], b[t]]
        0 <= i < ps.len() && ps[i] <= t < ps[i] + n1 implies b[t] != 0x0a by {
        lemma_inline_positions_within(b, tag, i);
        assert(b.subrange(ps[i], ps[i] + n1)[t - ps[i]] == b[t]);
        if t > ps[i] {
            assert(p1[t - ps[i]] == tag[t - ps[i] - 1]);
        }
    }
}

/// The replaced text is the replaced text before the line of the `k`-th
/// counted tag, the replaced line, and the replaced rest; the replaced line
/// holds the counted tags of the line replaced.
#[verifier::spinoff_prover]
#[verifier::rlimit(60)]
proof fn lemma_replaced_around_line(b: Seq<u8>, tag: Seq<u8>, new: Seq<u8>, k: int) -> (parts: (
    Seq<u8>,
    Seq<u8>,
    Seq<u8>,
))
    requires
        forall|t: int| 0 <= t < tag.len() ==> tag[t] != 0x0a,
        forall|t: int| 0 <= t < new.len() ==> new[t] != 0x0a,
        0 <= k < inline_tag_positions(b, tag).len(),
    ensures
        ({
            let ps = inline_tag_positions(b, tag);
            let s = ps[k];
            &&& inline_replaced(b, tag, new) == parts.0 + parts.1 + parts.2
            &&& parts.1 == line_with_tags_replaced(b, tag, new, s)
            &&& count_newlines(parts.0) == count_newlines(b.subrange(0, s))
            &&& parts.0.len() > 0 ==> parts.0.last() == 0x0a
            &&& forall|t: int| 0 <= t < parts.1.len() ==> parts.1[t] != 0x0a
            &&& parts.2.len() > 0 ==> parts.2[0] == 0x0a
        }),
{
    let ps = inline_tag_positions(b, tag);
    let n1 = 1 + tag.len() as int;
    let p1 = inline_pattern(tag);
    let p2 = inline_pattern(new);
    let bl = b.len() as int;
    let s = ps[k];
    lemma_counted_spread(b, tag);
    assert forall|t: int| 0 <= t < p2.len() implies p2[t] != 0x0a by {
        if t > 0 {
            assert(p2[t] == new[t - 1]);
        }
    }
    // the line that holds the tag, and where it cuts the counted tags
    lemma_line_start_before(b, s);
    lemma_line_start_shape(b, s);
    let ls = line_start_before(b, s);
    lemma_line_end_bounds(b, ls);
    lemma_line_end_past(b, ls, s);
    let le = line_end(b, ls);
    assert forall|i: int| 0 <= i < ps.len() implies #[trigger] ps[i] + n1 <= ls || ps[i] >= ls by {
        if ps[i] < ls && ls < ps[i] + n1 {
            assert(b[ls - 1] != 0x0a);
        }
    }
    assert forall|i: int| 0 <= i < ps.len() implies #[trigger] ps[i] + n1 <= le || ps[i] >= le by {
        if ps[i] < le && le < ps[i] + n1 {
            assert(b[le] != 0x0a);
        }
    }
    let i1 = lemma_cut_index(ps, n1, ls);
    let i2 = lemma_cut_index(ps, n1, le);
    if i2 < i1 {
        assert(ps[i2] + n1 <= ls);
    }
    lemma_replace_three(b, ps, n1, p2, ls, le, i1, i2);
    lemma_offsets_middle(ps, n1, ls, le, i1, i2);
    let a = b.subrange(0, ls);
    let bb = b.subrange(ls, le);
    let c = b.subrange(le, bl);
    let pa = ps.take(i1);
    let pb = moved_by(ps.subrange(i1, i2), -ls);
    let pc = moved_by(ps.skip(i2), -le);
    let ra = replace_all_at(a, pa, n1, p2);
    let rb = replace_all_at(bb, pb, n1, p2);
    let rc = replace_all_at(c, pc, n1, p2);
    // newlines of the three parts
    assert forall|i: int, t: int|
        #![trigger pa[i], a[t]]
        0 <= i < pa.len() && pa[i] <= t < pa[i] + n1 implies a[t] != 0x0a by {
        assert(pa[i] == ps[i]);
        assert(a[t] == b[t]);
    }
    assert forall|i: int, t: int|
        #![trigger pb[i], bb[t]]
        0 <= i < pb.len() && pb[i] <= t < pb[i] + n1 implies bb[t] != 0x0a by {
        assert(pb[i] == ps[i1 + i] - ls);
        assert(bb[t] == b[ls + t]);
    }
    assert forall|i: int, t: int|
        #![trigger pc[i], c[t]]
        0 <= i < pc.len() && pc[i] <= t < pc[i] + n1 implies c[t] != 0x0a by {
        assert(pc[i] == ps[i2 + i] - le);
        assert(c[t] == b[le + t]);
    }
    lemma_replaced_newlines(a, pa, n1, p2);
    lemma_replaced_newlines(bb, pb, n1, p2);
    lemma_replaced_newlines(c, pc, n1, p2);
    assert(b.subrange(0, s) =~= a + b.subrange(ls, s));
    lemma_count_newlines_concat(a, b.subrange(ls, s));
    assert forall|t: int| 0 <= t < b.subrange(ls, s).len() implies #[trigger] b.subrange(ls, s)[t] != 0x0a by {
        assert(b.subrange(ls, s)[t] == b[ls + t]);
    }
    lemma_count_newlines_none(b.subrange(ls, s));
    assert forall|t: int| 0 <= t < bb.len() implies #[trigger] bb[t] != 0x0a by {
        assert(bb[t] == b[ls + t]);
    }
    lemma_count_newlines_none(bb);
    lemma_no_newline_counted(rb);
    if ls > 0 {
        assert(a.last() == b[ls - 1]);
    }
    if c.len() > 0 {
        assert(c[0] == b[le]);
    }
    (ra, rb, rc)
}

/// Each inline preview entry's new line is the line of the replaced text
/// that stands where the entry's old line stood: the piece of the replaced
/// text, as `split('\n')` cuts it, numbered by the newlines before the
/// entry's tag (the same number as its old line), when neither tag holds a
/// newline.
pub proof fn law_inline_preview_new_lines(b: Seq<u8>, tag: Seq<u8>, new: Seq<u8>)
    requires
        forall|t: int| 0 <= t < tag.len() ==> tag[t] != 0x0a,
        forall|t: int| 0 <= t < new.len() ==> new[t] != 0x0a,
    ensures
        forall|k: int|
            0 <= k < inline_tag_positions(b, tag).len() ==> {
                let s = #[trigger] inline_tag_positions(b, tag)[k];
                let n = count_newlines(b.subrange(0, s));
                let r = inline_replaced(b, tag, new);
                &&& n < split_pieces(r, 0).len()
                &&& split_pieces(r, 0)[n] == line_with_tags_replaced(b, tag, new, s)
            },
{
    let ps = inline_tag_positions(b, tag);
    assert forall|k: int| 0 <= k < ps.len() implies {
        let s = #[trigger] ps[k];
        let n = count_newlines(b.subrange(0, s));
        let r = inline_replaced(b, tag, new);
        &&& n < split_pieces(r, 0).len()
        &&& split_pieces(r, 0)[n] == line_with_tags_replaced(b, tag, new, s)
    } by {
        let s = ps[k];
        let (ra, rb, rc) = lemma_replaced_around_line(b, tag, new, k);
        let r = inline_replaced(b, tag, new);
        let m = ra.len() as int;
        let e = m + rb.len();
        assert(r.subrange(0, m) =~= ra);
        assert(r.subrange(m, e) =~= rb);
        lemma_piece_at(r, 0, m);
        if m > 0 {
            assert(r[m - 1] == ra.last());
        }
        assert(line_start_before(r, m) == m);
        assert forall|t: int| m <= t < e implies r[t] != 0x0a by {
            assert(r[t] == rb[t - m]);
        }
        if e < r.len() {
            assert(r[e] == rc[0]);
        }
        lemma_line_end_exact(r, m, e);
    }
}

// ---------------------------------------------------------------------
// Lines of joined text
// ---------------------------------------------------------------------

/// No `\r\n` line ending occurs in `x`.
pub open spec fn no_crlf(x: Seq<u8>) -> bool {
    forall|i: int| 0 <= i < x.len() - 1 ==> !(#[trigger] x[i] == 0x0d && x[i + 1] == 0x0a)
}

/// `x` holds no newline.
pub open spec fn no_newline(x: Seq<u8>) -> bool {
    forall|i: int| 0 <= i < x.len() ==> #[trigger] x[i] != 0x0a
}

/// `x` holds no carriage return.
pub open spec fn no_cr(x: Seq<u8>) -> bool {
    forall|i: int| 0 <= i < x.len() ==> #[trigger] x[i] != 0x0d
}

/// A line without the `\r` that ends it, if any.
pub open spec fn strip_cr(p: Seq<u8>) -> Seq<u8> {
    if p.len() > 0 && p.last() == 0x0d {
        p.drop_last()
    } else {
        p
    }
}

proof fn lemma_line_end_shift(a: Seq<u8>, c: Seq<u8>, i: int)
    requires
        0 <= i <= c.len(),
    ensures
        line_end(a + c, a.len() + i) == a.len() + line_end(c, i),
    decreases c.len() - i,
{
    if i < c.len() {
        assert((a + c)[a.len() + i] == c[i]);
        if c[i] != 0x0a {
            lemma_line_end_shift(a, c, i + 1);
        }
    }
}

/// The lines of `a + c` that start inside `c` are the lines of `c`.
proof fn lemma_lines_shift(a: Seq<u8>, c: Seq<u8>, i: int)
    requires
        0 <= i,
    ensures
        lines_from(a + c, a.len() + i) == lines_from(c, i),
    decreases c.len() + 1 - i,
{
    let x = a + c;
    if i >= c.len() {
        assert(lines_from(x, a.len() + i) =~= Seq::<Seq<u8>>::empty());
        assert(lines_from(c, i) =~= Seq::<Seq<u8>>::empty());
    } else {
        lemma_line_end_shift(a, c, i);
        lemma_line_end_bounds(c, i);
        let e = line_end(c, i);
        lemma_lines_shift(a, c, e + 1);
        let cc = if e < c.len() && e > i && c[e - 1] == 0x0d {
            e - 1
        } else {
            e
        };
        if e > i {
            assert(x[a.len() + e - 1] == c[e - 1]);
        }
        let rx = line_ranges_from(x, a.len() + i);
        let rc = line_ranges_from(c, i);
        assert(rx == seq![(a.len() + i, a.len() + cc)] + line_ranges_from(x, a.len() + e + 1));
        assert(rc == seq![(i, cc)] + line_ranges_from(c, e + 1));
        assert(x.subrange(a.len() + i, a.len() + cc) =~= c.subrange(i, cc));
        assert(lines_from(x, a.len() + i) =~= seq![c.subrange(i, cc)] + lines_from(x, a.len() + e + 1));
        assert(lines_from(c, i) =~= seq![c.subrange(i, cc)] + lines_from(c, e + 1));
    }
}

proof fn lemma_line_end_before_newline(p: Seq<u8>, q: Seq<u8>, j: int)
    requires
        no_newline(p),
        0 <= j <= p.len(),
    ensures
        line_end(p + seq![0x0au8] + q, j) == p.len(),
    decreases p.len() - j,
{
    let x = p + seq![0x0au8] + q;
    if j < p.len() {
        assert(x[j] == p[j]);
        lemma_line_end_before_newline(p, q, j + 1);
    } else {
        assert(x[j] == 0x0a);
    }
}

/// The lines of `p`, a newline and `q`: the first line `p`, then the lines
/// of `q`.
proof fn lemma_lines_split(p: Seq<u8>, q: Seq<u8>)
    requires
        no_newline(p),
    ensures
        lines_of(p + seq![0x0au8] + q) == seq![strip_cr(p)] + lines_of(q),
{
    let x = p + seq![0x0au8] + q;
    lemma_line_end_before_newline(p, q, 0);
    let head = p + seq![0x0au8];
    assert(x =~= head + q);
    lemma_lines_shift(head, q, 0);
    let c = if p.len() > 0 && p.last() == 0x0d {
        p.len() - 1
    } else {
        p.len() as int
    };
    if p.len() > 0 {
        assert(x[p.len() - 1] == p.last());
    }
    assert(line_ranges_from(x, 0) == seq![(0int, c)] + line_ranges_from(x, p.len() + 1int));
    assert(x.subrange(0, c) =~= strip_cr(p));
    assert(lines_from(x, 0) =~= seq![x.subrange(0, c)] + lines_from(x, p.len() + 1int));
}

/// A text without newline is one line, or none when empty.
proof fn lemma_lines_single(p: Seq<u8>)
    requires
        no_newline(p),
    ensures
        lines_of(p) == if p.len() == 0 {
            Seq::<Seq<u8>>::empty()
        } else {
            seq![p]
        },
{
    if p.len() == 0 {
        assert(lines_of(p) =~= Seq::<Seq<u8>>::empty());
    } else {
        lemma_line_end_before_newline(p, Seq::empty(), 0);
        assert(p + seq![0x0au8] + Seq::<u8>::empty() =~= p.push(0x0a));
        lemma_line_end_bounds(p, 0);
        assert forall|t: int| 0 <= t < p.len() implies p[t] != 0x0a by {}
        lemma_line_end_all(p, 0);
        assert(line_ranges_from(p, p.len() + 1int) =~= Seq::<(int, int)>::empty());
        assert(line_ranges_from(p, 0) == seq![(0int, p.len() as int)] + line_ranges_from(p, p.len() + 1int));
        assert(line_ranges_from(p, 0) =~= seq![(0int, p.len() as int)]);
        assert(p.subrange(0, p.len() as int) =~= p);
        assert(lines_of(p) =~= seq![p]);
    }
}

proof fn lemma_line_end_all(p: Seq<u8>, j: int)
    requires
        no_newline(p),
        0 <= j <= p.len(),
    ensures
        line_end(p, j) == p.len(),
    decreases p.len() - j,
{
    if j < p.len() {
        lemma_line_end_all(p, j + 1);
    }
}

// ---------------------------------------------------------------------
// Joining lines back
// ---------------------------------------------------------------------

proof fn lemma_join_prepend(x: Seq<u8>, ls: Seq<Seq<u8>>)
    requires
        ls.len() >= 1,
    ensures
        join_lines(seq![x] + ls) == x + seq![0x0au8] + join_lines(ls),
    decreases ls.len(),
{
    let xs = seq![x] + ls;
    assert(xs.drop_last() =~= seq![x] + ls.drop_last());
    if ls.len() == 1 {
        assert(seq![x] + ls.drop_last() =~= seq![x]);
        assert(join_lines(seq![x]) == x);
    } else {
        lemma_join_prepend(x, ls.drop_last());
    }
}

/// Joining the lines of a text without `\r\n` by `\n`, with a final `\n`
/// when it had one, gives the text back.
#[verifier::spinoff_prover]
#[verifier::rlimit(30)]
proof fn lemma_lines_roundtrip(b: Seq<u8>)
    requires
        no_crlf(b),
    ensures
        join_lines(lines_of(b)) + (if ends_with_newline(b) {
            seq![0x0au8]
        } else {
            Seq::<u8>::empty()
        }) == b,
    decreases b.len(),
{
    lemma_line_end_bounds(b, 0);
    let j = line_end(b, 0);
    if j == b.len() {
        assert(no_newline(b));
        lemma_lines_single(b);
        if b.len() == 0 {
            assert(join_lines(lines_of(b)) + Seq::<u8>::empty() =~= b);
        } else {
            assert(join_lines(seq![b]) == b);
            assert(b + Seq::<u8>::empty() =~= b);
        }
    } else {
        let p = b.subrange(0, j);
        let q = b.subrange(j + 1, b.len() as int);
        assert(b =~= p + seq![0x0au8] + q);
        assert(no_newline(p));
        lemma_lines_split(p, q);
        if p.len() > 0 {
            assert(b[j - 1] == p.last());
            assert(strip_cr(p) == p);
        }
        if q.len() == 0 {
            lemma_lines_single(q);
            assert(seq![p] + Seq::<Seq<u8>>::empty() =~= seq![p]);
            assert(join_lines(seq![p]) == p);
            assert(ends_with_newline(b));
        } else {
            assert forall|t: int| 0 <= t < q.len() - 1 implies !(#[trigger] q[t] == 0x0d && q[t + 1]
                == 0x0a) by {
                assert(q[t] == b[j + 1 + t]);
                assert(q[t + 1] == b[j + 2 + t]);
            }
            lemma_lines_roundtrip(q);
            assert(lines_of(q).len() > 0) by {
                lemma_line_end_bounds(q, 0);
            }
            lemma_join_prepend(p, lines_of(q));
            assert(ends_with_newline(b) == ends_with_newline(q)) by {
                assert(b.last() == q.last());
            }
        }
    }
}

/// Rewriting a frontmatter without `\r\n` in which no list item holds the
/// tag gives it back unchanged.
/// The tail added after joined lines: a final `\n`, or nothing.
spec fn newline_if(e: bool) -> Seq<u8> {
    if e {
        seq![0x0au8]
    } else {
        Seq::empty()
    }
}

/// Lines that split back as they were: none holds a newline, none ends in
/// `\r` where a newline follows it, the last is not empty when no final
/// newline follows, and there is a line when one does.
spec fn splits_back(ls: Seq<Seq<u8>>, nl: bool) -> bool {
    &&& forall|k: int| 0 <= k < ls.len() ==> no_newline(#[trigger] ls[k])
    &&& forall|k: int|
        0 <= k < ls.len() && (k < ls.len() - 1 || nl) ==> strip_cr(#[trigger] ls[k]) == ls[k]
    &&& !nl && ls.len() > 0 ==> ls.last().len() > 0
    &&& nl ==> ls.len() > 0
}

/// Joining such lines by `\n` (with the final newline, if any) and
/// splitting the result gives the lines back.
proof fn lemma_join_splits_back(ls: Seq<Seq<u8>>, nl: bool)
    requires
        splits_back(ls, nl),
    ensures
        lines_of(join_lines(ls) + newline_if(nl)) == ls,
        ends_with_newline(join_lines(ls) + newline_if(nl)) == nl,
    decreases ls.len(),
{
    if ls.len() == 0 {
        assert(join_lines(ls) + newline_if(nl) =~= Seq::<u8>::empty());
        lemma_lines_single(Seq::<u8>::empty());
        assert(ls =~= Seq::<Seq<u8>>::empty());
    } else if ls.len() == 1 {
        let x = ls[0];
        assert(join_lines(ls) == x);
        if nl {
            assert(x + newline_if(nl) =~= x + seq![0x0au8] + Seq::<u8>::empty());
            lemma_lines_split(x, Seq::<u8>::empty());
            lemma_lines_single(Seq::<u8>::empty());
            assert(seq![strip_cr(x)] + Seq::<Seq<u8>>::empty() =~= ls);
        } else {
            assert(x + newline_if(nl) =~= x);
            lemma_lines_single(x);
            assert(seq![x] =~= ls);
            assert(x.last() == ls.last().last());
            assert(x[x.len() - 1] != 0x0a);
        }
    } else {
        let x = ls[0];
        let rest = ls.subrange(1, ls.len() as int);
        assert(ls =~= seq![x] + rest);
        assert(splits_back(rest, nl)) by {
            assert forall|k: int| 0 <= k < rest.len() implies no_newline(#[trigger] rest[k]) by {
                assert(rest[k] == ls[k + 1]);
            }
            assert forall|k: int|
                0 <= k < rest.len() && (k < rest.len() - 1 || nl) implies strip_cr(#[trigger] rest[k])
                == rest[k] by {
                assert(rest[k] == ls[k + 1]);
            }
            assert(rest.last() == ls.last());
        }
        lemma_join_splits_back(rest, nl);
        lemma_join_prepend(x, rest);
        assert(join_lines(ls) + newline_if(nl) =~= x + seq![0x0au8] + (join_lines(rest) + newline_if(
            nl,
        )));
        lemma_lines_split(x, join_lines(rest) + newline_if(nl));
        assert(strip_cr(ls[0]) == ls[0]);
        let whole = join_lines(ls) + newline_if(nl);
        let tail = join_lines(rest) + newline_if(nl);
        if tail.len() > 0 {
            assert(whole.last() == tail.last());
        }
    }
}

/// The lines of a frontmatter without `\r\n` and, after the replacement by
/// a tag without newline or carriage return (not empty, or else in a
/// frontmatter without carriage returns), split back as they were.
proof fn lemma_rewritten_split_back(b: Seq<u8>, tag: Seq<u8>, new: Seq<u8>)
    requires
        no_crlf(b),
        new.len() > 0 || no_cr(b),
        no_newline(new),
        forall|i: int| 0 <= i < new.len() ==> #[trigger] new[i] != 0x0d,
    ensures
        splits_back(lines_of(b), ends_with_newline(b)),
        splits_back(rewritten_lines(b, tag, new), ends_with_newline(b)),
{
    let ls = lines_of(b);
    let rs = line_ranges_from(b, 0);
    let nl = ends_with_newline(b);
    assert forall|k: int| 0 <= k < ls.len() implies {
        &&& no_newline(#[trigger] ls[k])
        &&& (k < ls.len() - 1 || nl) ==> strip_cr(ls[k]) == ls[k]
        &&& ls[k].len() > 0 || k < ls.len() - 1 || nl
    } by {
        lemma_line_range_shape(b, 0, k);
    }
    if nl {
        assert(b.len() > 0);
        lemma_line_end_bounds(b, 0);
        assert(rs.len() > 0);
    }
    let rl = rewritten_lines(b, tag, new);
    assert forall|k: int| 0 <= k < rl.len() implies {
        &&& no_newline(#[trigger] rl[k])
        &&& (k < rl.len() - 1 || nl) ==> strip_cr(rl[k]) == rl[k]
        &&& rl[k].len() > 0 || k < rl.len() - 1 || nl
    } by {
        let line = ls[k];
        assert(no_newline(line));
        match tag_item(b, tag, k) {
            Some(m) => {
                lemma_item_prefix_shape(line, tag);
                let r = yaml_item_replaced(line, m, new);
                assert forall|i: int| 0 <= i < r.len() implies r[i] != 0x0a by {
                    if i < m.0 {
                        assert(r[i] == line[i]);
                    } else if m.1 == 0 {
                        assert(r[i] == new[i - m.0]);
                    } else if i == m.0 || i == r.len() - 1 {
                    } else {
                        assert(r[i] == new[i - m.0 - 1]);
                    }
                }
                if m.1 == 0 {
                    if new.len() > 0 {
                        assert(r.last() == new[new.len() - 1]);
                    } else {
                        lemma_line_range_shape(b, 0, k);
                        assert(r.last() == line[m.0 - 1]);
                    }
                } else {
                    assert(r.last() == m.1);
                }
                assert(strip_cr(r) == r);
            },
            None => {},
        }
    }
    if rl.len() > 0 {
        assert(rl.last() == rl[rl.len() - 1]);
    }
    if ls.len() > 0 {
        assert(ls.last() == ls[ls.len() - 1]);
    }
}

/// The kept prefix of a matched line lies within it, and the quote is `"`,
/// `'` or none.
proof fn lemma_item_prefix_shape(line: Seq<u8>, tag: Seq<u8>)
    requires
        yaml_item_match(line, tag) is Some,
    ensures
        yaml_item_match(line, tag) matches Some(m) && 1 <= m.0 <= line.len() && (m.1 == 0 || m.1
            == 0x22 || m.1 == 0x27),
{
    let a = space_run_end(line, 0);
    lemma_run_bounds(line, 0);
    lemma_run_bounds(line, a + 1);
    lemma_stops_shape(line, a + 1);
    let sl = space_stops(line, a + 1);
    if last_bare_stop(line, tag, sl.drop_first()) is Some {
        let idx = lemma_last_bare_stop_index(line, tag, sl.drop_first());
        assert(sl.drop_first()[idx] == sl[idx + 1]);
    }
}

/// Each line of a text without `\r\n` holds no newline and ends before a
/// newline or at the end of the text, and is not empty when it is the last
/// one and the text does not end with a newline.
proof fn lemma_line_range_shape(b: Seq<u8>, i: int, k: int)
    requires
        no_crlf(b),
        0 <= i,
        0 <= k < line_ranges_from(b, i).len(),
    ensures
        no_newline(lines_from(b, i)[k]),
        (k < line_ranges_from(b, i).len() - 1 || ends_with_newline(b)) ==> strip_cr(
            lines_from(b, i)[k],
        ) == lines_from(b, i)[k],
        lines_from(b, i)[k].len() > 0 || k < line_ranges_from(b, i).len() - 1 || ends_with_newline(b),
        no_cr(b) ==> no_cr(lines_from(b, i)[k]),
    decreases b.len() + 1 - i,
{
    lemma_line_end_bounds(b, i);
    let e = line_end(b, i);
    let rest = line_ranges_from(b, e + 1);
    assert(line_ranges_from(b, i) == seq![(i, e)] + rest) by {
        if e < b.len() && e > i && b[e - 1] == 0x0d {
            assert(!(b[e - 1] == 0x0d && b[e] == 0x0a));
        }
    }
    if k == 0 {
        let line = b.subrange(i, e);
        assert(lines_from(b, i)[0] == line);
        assert forall|t: int| 0 <= t < line.len() implies line[t] != 0x0a by {
            assert(line[t] == b[i + t]);
        }
        if no_cr(b) {
            assert forall|t: int| 0 <= t < line.len() implies #[trigger] line[t] != 0x0d by {
                assert(line[t] == b[i + t]);
            }
        }
        if line.len() > 0 && line.last() == 0x0d {
            assert(line.last() == b[e - 1]);
            if e < b.len() {
                assert(!(b[e - 1] == 0x0d && b[e] == 0x0a));
            } else {
                assert(rest.len() == 0);
                assert(b.last() == 0x0d);
            }
        }
        if line.len() == 0 && e == b.len() {
            assert(i < b.len());
        }
        if e < b.len() && rest.len() == 0 {
            lemma_line_end_bounds(b, e + 1);
            assert(e + 1 >= b.len());
            assert(b.last() == b[e]);
        }
    } else {
        lemma_line_range_shape(b, e + 1, k - 1);
        assert(lines_from(b, i)[k] == lines_from(b, e + 1)[k - 1]);
    }
}

/// Rewriting the `tags:` list of a frontmatter without `\r\n`, with a new
/// tag that holds no newline or carriage return (and, when it is empty, a
/// frontmatter without carriage returns), keeps its lines: line `k` of the
/// result is line `k` of the frontmatter, rewritten when it is a counted item (see [`law_yaml_rewrite_keeps_item_and_quotes`]
/// for its shape) and as it was otherwise; the result ends with a newline
/// exactly when the frontmatter does; and a frontmatter without counted
/// items comes back unchanged. So each preview entry's new line is the
/// corresponding line of the replaced frontmatter.
pub proof fn law_yaml_replace_keeps_lines(b: Seq<u8>, tag: Seq<u8>, new: Seq<u8>)
    requires
        no_crlf(b),
        new.len() > 0 || no_cr(b),
        no_newline(new),
        forall|i: int| 0 <= i < new.len() ==> #[trigger] new[i] != 0x0d,
    ensures
        lines_of(yaml_replaced(b, tag, new)) == rewritten_lines(b, tag, new),
        lines_of(yaml_replaced(b, tag, new)).len() == lines_of(b).len(),
        forall|k: int|
            0 <= k < lines_of(b).len() ==> #[trigger] lines_of(yaml_replaced(b, tag, new))[k] == if tag_item(b, tag, k) is Some {
                yaml_line_rewritten(lines_of(b)[k], tag, new)
            } else {
                lines_of(b)[k]
            },
        ends_with_newline(yaml_replaced(b, tag, new)) == ends_with_newline(b),
        yaml_hits(b, tag).len() == 0 ==> yaml_replaced(b, tag, new) == b,
{
    lemma_rewritten_split_back(b, tag, new);
    let nl = ends_with_newline(b);
    let rl = rewritten_lines(b, tag, new);
    assert(yaml_replaced(b, tag, new) == join_lines(rl) + newline_if(nl));
    lemma_join_splits_back(rl, nl);
    if yaml_hits(b, tag).len() == 0 {
        let ls = lines_of(b);
        assert forall|k: int| 0 <= k < ls.len() implies tag_item(b, tag, k) is None by {
            let ids = Seq::new(ls.len(), |x: int| x);
            if tag_item(b, tag, k) is Some {
                assert(yaml_hit_pred(b, tag)(ids[k]));
                ids.lemma_filter_contains(yaml_hit_pred(b, tag), k);
            }
        }
        assert(rl =~= ls);
        lemma_lines_roundtrip(b);
    }
}

// ---------------------------------------------------------------------
// The replacement as the frontmatter rewritten whole
// ---------------------------------------------------------------------

/// Joining two non-empty lists of lines puts a newline between them.
proof fn lemma_join_concat(x: Seq<Seq<u8>>, y: Seq<Seq<u8>>)
    requires
        x.len() >= 1,
        y.len() >= 1,
    ensures
        join_lines(x + y) == join_lines(x) + seq![0x0au8] + join_lines(y),
    decreases y.len(),
{
    assert((x + y).drop_last() =~= x + y.drop_last());
    assert((x + y).last() == y.last());
    if y.len() == 1 {
        assert(x + y.drop_last() =~= x);
        assert(join_lines(y) == y[0]);
    } else {
        lemma_join_concat(x, y.drop_last());
    }
}

/// A text that ends with a newline splits into its own lines, then those
/// of what follows it.
proof fn lemma_lines_after_newline(u: Seq<u8>, v: Seq<u8>)
    requires
        ends_with_newline(u),
    ensures
        lines_of(u + v) == lines_of(u) + lines_of(v),
    decreases u.len(),
{
    lemma_line_end_bounds(u, 0);
    let j = line_end(u, 0);
    if j == u.len() {
        assert(u[u.len() - 1] != 0x0a);
    }
    let p = u.subrange(0, j);
    let q = u.subrange(j + 1, u.len() as int);
    assert(u =~= p + seq![0x0au8] + q);
    assert(u + v =~= p + seq![0x0au8] + (q + v));
    assert(no_newline(p));
    lemma_lines_split(p, q + v);
    lemma_lines_split(p, q);
    if q.len() == 0 {
        lemma_lines_single(q);
        assert(q + v =~= v);
        assert(seq![strip_cr(p)] + Seq::<Seq<u8>>::empty() =~= seq![strip_cr(p)]);
    } else {
        assert(q.last() == u.last());
        lemma_lines_after_newline(q, v);
        assert(seq![strip_cr(p)] + (lines_of(q) + lines_of(v)) =~= seq![strip_cr(p)] + lines_of(q)
            + lines_of(v));
    }
}

/// A text without carriage returns that does not end with a newline has the
/// same lines with a newline added.
proof fn lemma_lines_add_newline(z: Seq<u8>)
    requires
        z.len() > 0,
        !ends_with_newline(z),
        no_cr(z),
    ensures
        lines_of(z + seq![0x0au8]) == lines_of(z),
    decreases z.len(),
{
    lemma_line_end_bounds(z, 0);
    let j = line_end(z, 0);
    if j == z.len() {
        assert(no_newline(z));
        assert(z + seq![0x0au8] =~= z + seq![0x0au8] + Seq::<u8>::empty());
        lemma_lines_split(z, Seq::<u8>::empty());
        lemma_lines_single(Seq::<u8>::empty());
        lemma_lines_single(z);
        assert(z[z.len() - 1] != 0x0d);
        assert(strip_cr(z) == z);
        assert(seq![z] + Seq::<Seq<u8>>::empty() =~= seq![z]);
    } else {
        let p = z.subrange(0, j);
        let q = z.subrange(j + 1, z.len() as int);
        assert(z =~= p + seq![0x0au8] + q);
        assert(z + seq![0x0au8] =~= p + seq![0x0au8] + (q + seq![0x0au8]));
        assert(no_newline(p));
        lemma_lines_split(p, q);
        lemma_lines_split(p, q + seq![0x0au8]);
        assert(q.len() > 0) by {
            if q.len() == 0 {
                assert(z.last() == z[j]);
            }
        }
        assert(q.last() == z.last());
        assert forall|i: int| 0 <= i < q.len() implies #[trigger] q[i] != 0x0d by {
            assert(q[i] == z[j + 1 + i]);
        }
        lemma_lines_add_newline(q);
    }
}

/// Whether a line lies in the `tags:` list depends only on the lines before
/// it.
proof fn lemma_in_tags_prefix(x: Seq<Seq<u8>>, y: Seq<Seq<u8>>, k: int)
    requires
        0 <= k <= x.len(),
    ensures
        in_tags_list(x + y, k) == in_tags_list(x, k),
    decreases k,
{
    if k > 0 {
        assert((x + y)[k - 1] == x[k - 1]);
        lemma_in_tags_prefix(x, y, k - 1);
    }
}

/// A `---` line in front changes no line's place in the `tags:` list.
proof fn lemma_in_tags_after_dashes(l: Seq<Seq<u8>>, k: int)
    requires
        0 <= k <= l.len(),
    ensures
        in_tags_list(seq![dashes()] + l, k + 1) == in_tags_list(l, k),
    decreases k,
{
    let x = seq![dashes()] + l;
    assert(x.len() == l.len() + 1);
    if k == 0 {
        assert(x[0] == dashes());
        assert(tags_key().len() == 5);
        assert(!tags_key_line(dashes()));
        assert(!in_tags_list(x, 0));
        assert(!in_tags_list(l, 0));
    } else {
        assert(x[k] == l[k - 1]);
        lemma_in_tags_after_dashes(l, k - 1);
    }
}

/// A `---` line and an empty line are no list items.
proof fn lemma_delimiter_no_item(tag: Seq<u8>)
    ensures
        yaml_item_match(dashes(), tag) is None,
        yaml_item_match(Seq::empty(), tag) is None,
{
    let d = dashes();
    assert(space_width(d, 0) == 0);
    assert(space_run_end(d, 0) == 0);
    assert(space_width(d, 1) == 0);
    assert(space_run_end(d, 1) == 1);
    assert(space_run_end(Seq::<u8>::empty(), 0) == 0);
}

/// Rewriting a text without carriage returns with a newline added gives
/// the rewritten text with a newline added.
proof fn lemma_replaced_add_newline(z: Seq<u8>, tag: Seq<u8>, new: Seq<u8>)
    requires
        no_cr(z),
    ensures
        yaml_replaced(z + seq![0x0au8], tag, new) == yaml_replaced(z, tag, new) + seq![0x0au8],
{
    let zn = z + seq![0x0au8];
    let lz = lines_of(z);
    let rz = rewritten_lines(z, tag, new);
    let rn = rewritten_lines(zn, tag, new);
    assert(ends_with_newline(zn)) by {
        assert(zn.last() == 0x0a);
    }
    lemma_delimiter_no_item(tag);
    if z.len() > 0 && !ends_with_newline(z) {
        lemma_lines_add_newline(z);
        assert(rn =~= rz);
    } else {
        if z.len() == 0 {
            assert(zn =~= Seq::<u8>::empty() + seq![0x0au8] + Seq::<u8>::empty());
            lemma_lines_split(Seq::<u8>::empty(), Seq::<u8>::empty());
            lemma_lines_single(Seq::<u8>::empty());
            assert(strip_cr(Seq::<u8>::empty()) == Seq::<u8>::empty());
            assert(lines_of(zn) =~= seq![Seq::<u8>::empty()]);
            assert(lines_of(z) =~= Seq::<Seq<u8>>::empty()) by {
                lemma_lines_single(z);
            }
        } else {
            lemma_lines_after_newline(z, seq![0x0au8]);
            assert(seq![0x0au8] =~= Seq::<u8>::empty() + seq![0x0au8] + Seq::<u8>::empty());
            lemma_lines_split(Seq::<u8>::empty(), Seq::<u8>::empty());
            lemma_lines_single(Seq::<u8>::empty());
            assert(lines_of(seq![0x0au8]) =~= seq![Seq::<u8>::empty()]);
        }
        assert(lines_of(zn) =~= lz + seq![Seq::<u8>::empty()]);
        assert forall|k: int| 0 <= k < lz.len() implies #[trigger] rn[k] == rz[k] by {
            lemma_in_tags_prefix(lz, seq![Seq::<u8>::empty()], k);
            assert(lines_of(zn)[k] == lz[k]);
        }
        assert(rn[lz.len() as int] == Seq::<u8>::empty()) by {
            assert(lines_of(zn)[lz.len() as int] == Seq::<u8>::empty());
        }
        assert(rn =~= rz + seq![Seq::<u8>::empty()]);
        if rz.len() == 0 {
            assert(join_lines(rn) == Seq::<u8>::empty()) by {
                assert(rn =~= seq![Seq::<u8>::empty()]);
            }
            assert(yaml_replaced(z, tag, new) =~= Seq::<u8>::empty());
            assert(yaml_replaced(zn, tag, new) =~= seq![0x0au8]);
        } else {
            lemma_join_concat(rz, seq![Seq::<u8>::empty()]);
            assert(join_lines(seq![Seq::<u8>::empty()]) == Seq::<u8>::empty());
            assert(ends_with_newline(z));
            assert(yaml_replaced(zn, tag, new) =~= join_lines(rz) + seq![0x0au8] + seq![0x0au8]);
        }
    }
}

/// Rewriting a frontmatter `---\n` + `z` + `\n---\n` without carriage returns
/// as a whole rewrites just `z`.
proof fn lemma_replaced_framed(z: Seq<u8>, tag: Seq<u8>, new: Seq<u8>)
    requires
        no_cr(z),
    ensures
        yaml_replaced(dashes_lf() + z + close_lf(), tag, new) == dashes_lf() + yaml_replaced(
            z,
            tag,
            new,
        ) + close_lf(),
{
    let f = dashes_lf() + z + close_lf();
    let zn = z + seq![0x0au8];
    let lz = lines_of(zn);
    let d = dashes();
    assert(no_newline(d));
    assert(strip_cr(d) == d);
    assert(f =~= d + seq![0x0au8] + (zn + (d + seq![0x0au8])));
    lemma_lines_split(d, zn + (d + seq![0x0au8]));
    assert(ends_with_newline(zn)) by {
        assert(zn.last() == 0x0a);
    }
    lemma_lines_after_newline(zn, d + seq![0x0au8]);
    assert(d + seq![0x0au8] =~= d + seq![0x0au8] + Seq::<u8>::empty());
    lemma_lines_split(d, Seq::<u8>::empty());
    lemma_lines_single(Seq::<u8>::empty());
    assert(lines_of(d + seq![0x0au8]) =~= seq![d]);
    let lf = lines_of(f);
    assert(lf =~= seq![d] + (lz + seq![d]));
    lemma_delimiter_no_item(tag);
    let rf = rewritten_lines(f, tag, new);
    let rn = rewritten_lines(zn, tag, new);
    assert(rf[0] == d) by {
        assert(lf[0] == d);
    }
    assert forall|i: int| 1 <= i <= lz.len() implies #[trigger] rf[i] == rn[i - 1] by {
        lemma_in_tags_after_dashes(lz + seq![d], i - 1);
        lemma_in_tags_prefix(lz, seq![d], i - 1);
        assert(lf[i] == lz[i - 1]);
    }
    assert(rf[lz.len() + 1int] == d) by {
        assert(lf[lz.len() + 1int] == d);
    }
    assert(rf.len() == lz.len() + 2);
    assert forall|i: int| 0 <= i < rf.len() implies #[trigger] rf[i] == (seq![d] + rn + seq![d])[i] by {
        if 1 <= i <= lz.len() {
            assert(rf[i] == rn[i - 1]);
        }
    }
    assert(rf =~= seq![d] + rn + seq![d]);
    lemma_line_end_bounds(zn, 0);
    assert(lz.len() > 0);
    assert(rn.len() == lz.len());
    lemma_join_concat(seq![d], rn);
    lemma_join_concat(seq![d] + rn, seq![d]);
    assert(join_lines(seq![d]) == d);
    assert(ends_with_newline(f)) by {
        assert(f.last() == 0x0a);
    }
    lemma_replaced_add_newline(z, tag, new);
    assert(yaml_replaced(zn, tag, new) == join_lines(rn) + seq![0x0au8]);
    assert(yaml_replaced(f, tag, new) =~= d + seq![0x0au8] + join_lines(rn) + seq![0x0au8] + d
        + seq![0x0au8]);
    let a = join_lines(rn);
    let bz = yaml_replaced(z, tag, new);
    assert(a + seq![0x0au8] == bz + seq![0x0au8]);
    assert(a =~= bz) by {
        assert((a + seq![0x0au8]).subrange(0, a.len() as int) =~= a);
        assert((bz + seq![0x0au8]).subrange(0, bz.len() as int) =~= bz);
    }
    assert(d + seq![0x0au8] + a + seq![0x0au8] + d + seq![0x0au8] =~= dashes_lf() + bz
        + close_lf());
}

/// Rewriting a frontmatter made of two `---` lines changes nothing.
proof fn lemma_replaced_bare_delimiters(f: Seq<u8>, tag: Seq<u8>, new: Seq<u8>)
    requires
        f == dashes_lf() + dashes_lf() || f == dashes_lf() + dashes(),
    ensures
        yaml_replaced(f, tag, new) == f,
{
    let d = dashes();
    let rest = if f == dashes_lf() + dashes_lf() {
        dashes_lf()
    } else {
        d
    };
    assert(f =~= d + seq![0x0au8] + rest);
    assert(no_newline(d));
    lemma_lines_split(d, rest);
    if rest == dashes_lf() {
        assert(rest =~= d + seq![0x0au8] + Seq::<u8>::empty());
        lemma_lines_split(d, Seq::<u8>::empty());
        lemma_lines_single(Seq::<u8>::empty());
    } else {
        lemma_lines_single(d);
    }
    assert(strip_cr(d) == d);
    let lf = lines_of(f);
    assert(lf =~= seq![d, d]);
    lemma_in_tags_after_dashes(seq![d], 0);
    assert(rewritten_lines(f, tag, new) =~= lf);
    assert forall|i: int| 0 <= i < f.len() - 1 implies !(#[trigger] f[i] == 0x0d && f[i + 1]
        == 0x0a) by {}
    lemma_lines_roundtrip(f);
}

/// Rewriting a text whose `tags:` list holds no item with the tag, and that
/// has no carriage return, changes nothing.
proof fn lemma_no_hits_unchanged(b: Seq<u8>, tag: Seq<u8>, new: Seq<u8>)
    requires
        no_cr(b),
        yaml_hits(b, tag).len() == 0,
    ensures
        yaml_replaced(b, tag, new) == b,
{
    let ls = lines_of(b);
    assert forall|k: int| 0 <= k < ls.len() implies tag_item(b, tag, k) is None by {
        let ids = Seq::new(ls.len(), |x: int| x);
        if tag_item(b, tag, k) is Some {
            assert(yaml_hit_pred(b, tag)(ids[k]));
            ids.lemma_filter_contains(yaml_hit_pred(b, tag), k);
        }
    }
    assert(rewritten_lines(b, tag, new) =~= ls);
    lemma_lines_roundtrip(b);
}

/// The offsets of a frontmatter lie in order within the note, its end at
/// least 7 bytes in.
proof fn lemma_parts_bounds(b: Seq<u8>)
    requires
        frontmatter_parts(b) is Some,
    ensures
        frontmatter_parts(b) matches Some(p) && 4 <= p.0 <= p.1 <= p.2 <= b.len() && p.2 >= 7,
{
    let o = open_len(b);
    let rest = b.subrange(o, b.len() as int);
    assert(o == 4 || o == 5);
    if o == 4 {
        assert(b.subrange(0, 4).len() == 4);
    } else {
        assert(b.subrange(0, 5).len() == 5);
    }
    if has_prefix(rest, dashes_lf()) || has_prefix(rest, dashes_crlf()) {
    } else if rest == dashes() {
    } else if find_from(rest, close_lf(), 0) is Some {
        lemma_find_from_found(rest, close_lf(), 0);
    } else {
        lemma_find_from_found(rest, close_crlf(), 0);
    }
}

/// On a note whose frontmatter holds no carriage return, the replacement
/// is the frontmatter rewritten as a whole (delimiter lines included),
/// followed by the body with its inline tags replaced: what rewriting the
/// text up to the body's start and the body apart gives.
pub proof fn law_note_replace_is_frontmatter_then_body(b: Seq<u8>, tag: Seq<u8>, new: Seq<u8>)
    requires
        no_cr(b.subrange(0, body_start(b))),
    ensures
        replaced_note(b, tag, new).0 == yaml_replaced(b.subrange(0, body_start(b)), tag, new)
            + inline_replaced(note_body(b), tag, new),
{
    law_inline_replace_length(note_body(b), tag, new);
    let e = body_start(b);
    let f = b.subrange(0, e);
    match frontmatter_parts(b) {
        None => {
            assert(f =~= Seq::<u8>::empty());
            lemma_lines_single(f);
            assert(rewritten_lines(f, tag, new) =~= Seq::<Seq<u8>>::empty());
            assert(yaml_replaced(f, tag, new) =~= Seq::<u8>::empty());
            assert(replaced_head(b, tag, new) =~= Seq::<u8>::empty());
        },
        Some(p) => {
            lemma_parts_bounds(b);
            assert(has_prefix(b, dashes_lf())) by {
                if !has_prefix(b, dashes_lf()) {
                    assert(b.subrange(0, 5)[3] == b[3]);
                    assert(f[3] == b[3]);
                }
            }
            assert(b.subrange(0, 4) == dashes_lf());
            let rest = b.subrange(4, b.len() as int);
            if has_prefix(rest, dashes_lf()) {
                assert(f =~= dashes_lf() + dashes_lf()) by {
                    assert(rest.subrange(0, 4) == dashes_lf());
                }
                lemma_replaced_bare_delimiters(f, tag, new);
                assert(search_text(b) =~= Seq::<u8>::empty());
                lemma_lines_single(search_text(b));
            } else if has_prefix(rest, dashes_crlf()) {
                assert(rest.subrange(0, 5)[3] == f[7]);
            } else if rest == dashes() {
                assert(f =~= dashes_lf() + dashes());
                lemma_replaced_bare_delimiters(f, tag, new);
                assert(search_text(b) =~= Seq::<u8>::empty());
                lemma_lines_single(search_text(b));
            } else if find_from(rest, close_lf(), 0) is Some {
                let k = find_from(rest, close_lf(), 0)->0;
                lemma_find_from_found(rest, close_lf(), 0);
                let z = rest.subrange(0, k);
                assert(z == search_text(b));
                assert(f =~= dashes_lf() + z + close_lf()) by {
                    assert(rest.subrange(k, k + 5) == close_lf());
                }
                assert forall|i: int| 0 <= i < z.len() implies #[trigger] z[i] != 0x0d by {
                    assert(z[i] == f[4 + i]);
                }
                lemma_replaced_framed(z, tag, new);
                if note_yaml_count(b, tag) == 0 {
                    lemma_no_hits_unchanged(z, tag, new);
                }
                assert(replaced_head(b, tag, new) =~= dashes_lf() + (if note_yaml_count(b, tag) > 0 {
                    yaml_replaced(z, tag, new)
                } else {
                    z
                }) + close_lf()) by {
                    assert(b.subrange(p.1, p.2) == close_lf()) by {
                        assert(rest.subrange(k, k + 5) == close_lf());
                    }
                }
            } else {
                let k = find_from(rest, close_crlf(), 0)->0;
                lemma_find_from_found(rest, close_crlf(), 0);
                assert(rest.subrange(k, k + 6)[4] == f[4 + k + 4]);
            }
        },
    }
}

// ---------------------------------------------------------------------
// Search, preview and replace agree
// ---------------------------------------------------------------------

/// Search, preview and replace agree on every note: the replacement makes
/// as many frontmatter and inline replacements as the search counts, the
/// preview lists one entry per counted tag, and the replaced note is the
/// rewritten frontmatter followed by the body with exactly its counted
/// inline tags replaced.
pub proof fn law_search_preview_replace_agree(b: Seq<u8>, tag: Seq<u8>, new: Seq<u8>)
    ensures
        replaced_note(b, tag, new).1 == note_yaml_count(b, tag),
        replaced_note(b, tag, new).2 == note_inline_count(b, tag),
        replaced_note(b, tag, new).0 == replaced_head(b, tag, new) + inline_replaced(
            note_body(b),
            tag,
            new,
        ),
        forall|r: Seq<SingleDiff>|
            #[trigger] is_note_preview(r, b, tag, new) ==> r.len() == note_yaml_count(b, tag)
                + note_inline_count(b, tag),
{
    let body = note_body(b);
    if inline_tag_positions(body, tag).len() == 0 {
        assert(inline_replaced(body, tag, new) =~= body);
    }
}

// ---------------------------------------------------------------------
// A rewritten list item
// ---------------------------------------------------------------------

/// `b1` and `b2` hold the same first `k` bytes.
spec fn same_head(b1: Seq<u8>, b2: Seq<u8>, k: int) -> bool {
    &&& 0 <= k <= b1.len()
    &&& k <= b2.len()
    &&& forall|t: int| 0 <= t < k ==> b1[t] == b2[t]
}

/// A whitespace character inside a shared head has the same width in both.
proof fn lemma_width_in_head(b1: Seq<u8>, b2: Seq<u8>, k: int, i: int)
    requires
        same_head(b1, b2, k),
        0 <= i,
        space_width(b1, i) > 0,
        i + space_width(b1, i) <= k,
    ensures
        space_width(b2, i) == space_width(b1, i),
{
    assert(b1[i] == b2[i]);
    if i + 1 < k {
        assert(b1[i + 1] == b2[i + 1]);
    }
    if i + 2 < k {
        assert(b1[i + 2] == b2[i + 2]);
    }
}

/// A run of whitespace goes forward and stays within the sequence.
proof fn lemma_run_bounds(b: Seq<u8>, i: int)
    requires
        0 <= i,
    ensures
        i <= space_run_end(b, i),
        i <= b.len() ==> space_run_end(b, i) <= b.len(),
    decreases b.len() - i,
{
    if 0 <= i < b.len() && space_width(b, i) > 0 {
        lemma_run_bounds(b, i + space_width(b, i));
    }
}

/// A run that ends inside a shared head, where the second sequence has no
/// whitespace either, ends at the same byte in both.
proof fn lemma_run_in_head(b1: Seq<u8>, b2: Seq<u8>, k: int, i: int)
    requires
        same_head(b1, b2, k),
        0 <= i,
        space_run_end(b1, i) <= k,
        space_width(b2, space_run_end(b1, i)) == 0,
    ensures
        space_run_end(b2, i) == space_run_end(b1, i),
    decreases b1.len() - i,
{
    if 0 <= i < b1.len() && space_width(b1, i) > 0 {
        let w = space_width(b1, i);
        lemma_run_bounds(b1, i + w);
        lemma_width_in_head(b1, b2, k, i);
        lemma_run_in_head(b1, b2, k, i + w);
    }
}

/// The stops of a run rise strictly from `i` to the end of the run.
proof fn lemma_stops_shape(b: Seq<u8>, i: int)
    requires
        0 <= i,
    ensures
        space_stops(b, i).len() >= 1,
        space_stops(b, i)[0] == i,
        forall|x: int, y: int|
            0 <= x < y < space_stops(b, i).len() ==> #[trigger] space_stops(b, i)[x]
                < #[trigger] space_stops(b, i)[y],
        forall|x: int|
            0 <= x < space_stops(b, i).len() ==> i <= #[trigger] space_stops(b, i)[x]
                <= space_run_end(b, i),
    decreases b.len() - i,
{
    if 0 <= i < b.len() && space_width(b, i) > 0 {
        let w = space_width(b, i);
        let s = space_stops(b, i);
        let rest = space_stops(b, i + w);
        lemma_stops_shape(b, i + w);
        assert(s == seq![i] + rest);
        assert forall|x: int, y: int| 0 <= x < y < s.len() implies #[trigger] s[x] < #[trigger] s[y] by {
            if x > 0 {
                assert(s[x] == rest[x - 1]);
            }
            assert(s[y] == rest[y - 1]);
        }
        assert forall|x: int| 0 <= x < s.len() implies i <= #[trigger] s[x] <= space_run_end(b, i) by {
            if x > 0 {
                assert(s[x] == rest[x - 1]);
            }
        }
    } else {
        assert(space_stops(b, i) == seq![i]);
    }
}

/// The stops of a run inside a shared head are the same in both sequences.
proof fn lemma_stops_in_head(b1: Seq<u8>, b2: Seq<u8>, k: int, i: int, idx: int)
    requires
        same_head(b1, b2, k),
        0 <= i,
        0 <= idx < space_stops(b1, i).len(),
        space_stops(b1, i)[idx] <= k,
    ensures
        idx < space_stops(b2, i).len(),
        space_stops(b2, i)[idx] == space_stops(b1, i)[idx],
    decreases idx,
{
    lemma_stops_shape(b2, i);
    if idx > 0 {
        let w = space_width(b1, i);
        let rest = space_stops(b1, i + w);
        assert(0 <= i < b1.len() && w > 0);
        assert(space_stops(b1, i)[idx] == rest[idx - 1]);
        lemma_stops_shape(b1, i + w);
        lemma_width_in_head(b1, b2, k, i);
        lemma_stops_in_head(b1, b2, k, i + w, idx - 1);
        assert(space_stops(b2, i) == seq![i] + space_stops(b2, i + w));
    }
}

/// A non-empty run of whitespace that reaches the end leaves no quote as
/// the last byte.
proof fn lemma_run_to_end_last(b: Seq<u8>, i: int)
    requires
        0 <= i < b.len(),
        space_run_end(b, i) == b.len(),
    ensures
        b.last() != 0x22 && b.last() != 0x27,
    decreases b.len() - i,
{
    let w = space_width(b, i);
    if i + w < b.len() {
        lemma_run_to_end_last(b, i + w);
    }
}

/// The position of the stop that `last_bare_stop` picks.
proof fn lemma_last_bare_stop_index(line: Seq<u8>, tag: Seq<u8>, stops: Seq<int>) -> (idx: int)
    requires
        last_bare_stop(line, tag, stops) is Some,
    ensures
        0 <= idx < stops.len(),
        stops[idx] == last_bare_stop(line, tag, stops)->0,
    decreases stops.len(),
{
    if bare_tail_ok(line, tag, stops.last()) {
        stops.len() - 1
    } else {
        lemma_last_bare_stop_index(line, tag, stops.drop_last())
    }
}

/// `last_bare_stop` finds nothing when no stop lets the tail match.
proof fn lemma_no_bare_stop(line: Seq<u8>, tag: Seq<u8>, stops: Seq<int>)
    requires
        forall|x: int| 0 <= x < stops.len() ==> !bare_tail_ok(line, tag, #[trigger] stops[x]),
    ensures
        last_bare_stop(line, tag, stops) is None,
    decreases stops.len(),
{
    if stops.len() > 0 {
        assert(!bare_tail_ok(line, tag, stops[stops.len() - 1]));
        assert forall|x: int| 0 <= x < stops.drop_last().len() implies !bare_tail_ok(
            line,
            tag,
            #[trigger] stops.drop_last()[x],
        ) by {
            assert(stops.drop_last()[x] == stops[x]);
        }
        lemma_no_bare_stop(line, tag, stops.drop_last());
    }
}

/// `last_bare_stop` picks the stop at `idx` when the tail matches there and
/// after no later stop.
proof fn lemma_bare_stop_at(line: Seq<u8>, tag: Seq<u8>, stops: Seq<int>, idx: int)
    requires
        0 <= idx < stops.len(),
        bare_tail_ok(line, tag, stops[idx]),
        forall|x: int| idx < x < stops.len() ==> !bare_tail_ok(line, tag, #[trigger] stops[x]),
    ensures
        last_bare_stop(line, tag, stops) == Some(stops[idx]),
    decreases stops.len(),
{
    if idx < stops.len() - 1 {
        assert(!bare_tail_ok(line, tag, stops[stops.len() - 1]));
        assert forall|x: int| idx < x < stops.drop_last().len() implies !bare_tail_ok(
            line,
            tag,
            #[trigger] stops.drop_last()[x],
        ) by {
            assert(stops.drop_last()[x] == stops[x]);
        }
        lemma_bare_stop_at(line, tag, stops.drop_last(), idx);
    }
}

/// A frontmatter list item that holds `tag`, once rewritten to hold `new`,
/// is a list item that holds `new`: with the same indentation, dash and
/// spacing before the tag, and in the same quotes as before (or none).
pub proof fn law_yaml_rewrite_keeps_item_and_quotes(line: Seq<u8>, tag: Seq<u8>, new: Seq<u8>)
    requires
        yaml_item_match(line, tag) is Some,
    ensures
        yaml_item_match(yaml_line_rewritten(line, tag, new), new) == yaml_item_match(line, tag),
        yaml_item_match(line, tag) matches Some(m) && yaml_line_rewritten(line, tag, new).subrange(
            0,
            m.0,
        ) == line.subrange(0, m.0),
{
    let a = space_run_end(line, 0);
    let e = space_run_end(line, a + 1);
    let m = yaml_item_match(line, tag)->0;
    let p = m.0;
    let q = m.1;
    let r = yaml_line_rewritten(line, tag, new);
    let sl = space_stops(line, a + 1);
    lemma_run_bounds(line, 0);
    lemma_run_bounds(line, a + 1);
    lemma_stops_shape(line, a + 1);
    assert(line[a] == 0x2d);
    if last_bare_stop(line, tag, sl.drop_first()) is Some {
        let idx = lemma_last_bare_stop_index(line, tag, sl.drop_first());
        assert(p == sl[idx + 1]);
        assert(r == line.subrange(0, p) + new);
        assert(same_head(line, r, p));
        assert(r[a] == line[a]);
        lemma_run_in_head(line, r, p, 0);
        let sr = space_stops(r, a + 1);
        lemma_stops_in_head(line, r, p, a + 1, idx + 1);
        lemma_stops_shape(r, a + 1);
        assert(sr[idx + 1] == p);
        assert(r.subrange(p, p + new.len()) =~= new);
        assert(bare_tail_ok(r, new, sr.drop_first()[idx]));
        assert forall|x: int| idx < x < sr.drop_first().len() implies !bare_tail_ok(
            r,
            new,
            #[trigger] sr.drop_first()[x],
        ) by {
            assert(sr.drop_first()[x] == sr[x + 1]);
            assert(sr[idx + 1] < sr[x + 1]);
        }
        lemma_bare_stop_at(r, new, sr.drop_first(), idx);
        assert(space_run_end(r, a + 1) != a + 1);
    } else {
        assert(p == e && (q == 0x22 || q == 0x27));
        assert(line[e] == q);
        let tail = seq![q] + new + seq![q];
        assert(r == line.subrange(0, e) + tail);
        assert(r.len() == e + new.len() + 2);
        assert(same_head(line, r, e + 1));
        assert(r[a] == line[a]);
        assert(r[e] == q);
        lemma_run_in_head(line, r, e + 1, 0);
        lemma_run_in_head(line, r, e + 1, a + 1);
        let sr = space_stops(r, a + 1);
        lemma_stops_shape(r, a + 1);
        assert(r.last() == q);
        assert forall|x: int| 0 <= x < sr.drop_first().len() implies !bare_tail_ok(
            r,
            new,
            #[trigger] sr.drop_first()[x],
        ) by {
            let s = sr.drop_first()[x];
            assert(s == sr[x + 1]);
            if bare_tail_ok(r, new, s) {
                lemma_run_to_end_last(r, s + new.len());
            }
        }
        lemma_no_bare_stop(r, new, sr.drop_first());
        assert(r.subrange(e + 1, e + 1 + new.len()) =~= new);
        assert(r[e + 1 + new.len()] == q);
    }
    assert(r.subrange(0, p) =~= line.subrange(0, p));
}

} // verus!
