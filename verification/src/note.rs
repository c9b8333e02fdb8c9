//! The per-note computations behind the three steps: counting the tag for
//! the search, listing the changed lines for the preview, and rewriting the
//! note for the replacement.

use vstd::prelude::*;
use vstd::string::*;
use vstd::utf8::*;
use crate::text::{
    lines_of, text_of, substr, line_count, copy_range, push_all, string_of, lemma_str_bytes_valid,
    lemma_valid_between, lemma_line_count_bound, lemma_count_newlines_bound,
};
use crate::frontmatter::{frontmatter_parts, extract_frontmatter, frontmatter_inner};
use crate::yaml::{
    yaml_hits, yaml_replaced, is_yaml_diff, count_yaml_tags, diff_yaml_tags, replace_yaml_tags,
    tag_item,
};
use crate::inline::{
    inline_tag_positions, inline_replaced, is_inline_diff, line_number_at, count_inline_tags,
    diff_inline_tags, replace_inline_tags, lemma_inline_positions_within,
};
use crate::model::{FileMatch, FileDiff, SingleDiff};

verus! {

/// The text between the delimiter lines of the frontmatter of the note `b`,
/// which search and preview read; empty when the note has no frontmatter.
pub open spec fn search_text(b: Seq<u8>) -> Seq<u8> {
    match frontmatter_parts(b) {
        Some(p) => b.subrange(p.0, p.1),
        None => Seq::empty(),
    }
}

/// Where the body of the note `b` starts: after its frontmatter, or at 0.
pub open spec fn body_start(b: Seq<u8>) -> int {
    match frontmatter_parts(b) {
        Some(p) => p.2,
        None => 0,
    }
}

/// The body of the note `b`.
pub open spec fn note_body(b: Seq<u8>) -> Seq<u8> {
    b.subrange(body_start(b), b.len() as int)
}

/// How many items of the frontmatter's `tags:` list of the note `b` hold
/// `tag`.
pub open spec fn note_yaml_count(b: Seq<u8>, tag: Seq<u8>) -> int {
    yaml_hits(search_text(b), tag).len() as int
}

/// How many inline tags `#tag` the body of the note `b` holds.
pub open spec fn note_inline_count(b: Seq<u8>, tag: Seq<u8>) -> int {
    inline_tag_positions(note_body(b), tag).len() as int
}

/// The part of `content` that search reads in its frontmatter, and where
/// its body starts.
fn note_parts(content: &str) -> (r: (&str, usize))
    ensures
        r.0.spec_bytes() == search_text(content.spec_bytes()),
        r.0.spec_bytes().len() <= content.spec_bytes().len(),
        r.1 as int == body_start(content.spec_bytes()),
        r.1 <= content.spec_bytes().len(),
        is_char_boundary(content.spec_bytes(), r.1 as int),
{
    let ghost b = content.spec_bytes();
    proof {
        lemma_str_bytes_valid(content);
        is_char_boundary_start_end_of_seq(b);
    }
    let start = match extract_frontmatter(content) {
        Some((_, e)) => e,
        None => 0,
    };
    let inner = match frontmatter_inner(content) {
        Some((x, y)) => substr(content, x, y),
        None => {
            let t = substr(content, 0, 0);
            assert(t.spec_bytes() =~= Seq::<u8>::empty());
            t
        },
    };
    (inner, start)
}

/// Counts the tag in a note: items of the frontmatter's `tags:` list and
/// inline tags of the body.
pub fn count_tags_in_file(content: &str, old_tag: &str) -> (r: (usize, usize))
    requires
        old_tag.spec_bytes().len() < usize::MAX,
    ensures
        r.0 == note_yaml_count(content.spec_bytes(), old_tag.spec_bytes()),
        r.1 == note_inline_count(content.spec_bytes(), old_tag.spec_bytes()),
{
    let n = content.as_bytes().len();
    let (inner, start) = note_parts(content);
    proof {
        lemma_str_bytes_valid(content);
        is_char_boundary_start_end_of_seq(content.spec_bytes());
    }
    let yaml_count = count_yaml_tags(inner, old_tag);
    let body = substr(content, start, n);
    let inline_count = count_inline_tags(body, old_tag);
    (yaml_count, inline_count)
}

/// The search result for one note: `Some` exactly when the note holds the
/// tag somewhere, with both counts.
pub fn file_match(relative_path: String, content: &str, old_tag: &str) -> (r: Option<FileMatch>)
    requires
        old_tag.spec_bytes().len() < usize::MAX,
    ensures
        r is Some <==> note_yaml_count(content.spec_bytes(), old_tag.spec_bytes()) > 0
            || note_inline_count(content.spec_bytes(), old_tag.spec_bytes()) > 0,
        r matches Some(m) ==> {
            &&& m.relative_path == relative_path
            &&& m.yaml_tag_count == note_yaml_count(content.spec_bytes(), old_tag.spec_bytes())
            &&& m.inline_tag_count == note_inline_count(content.spec_bytes(), old_tag.spec_bytes())
        },
{
    let (yaml_count, inline_count) = count_tags_in_file(content, old_tag);
    if yaml_count > 0 || inline_count > 0 {
        Some(FileMatch { relative_path, yaml_tag_count: yaml_count, inline_tag_count: inline_count })
    } else {
        None
    }
}

/// The number of lines before the body: the lines of the frontmatter.
pub open spec fn body_line_offset(b: Seq<u8>) -> int {
    lines_of(b.subrange(0, body_start(b))).len() as int
}

/// `r` is the preview of replacing `tag` by `new` in the note `b`: first one
/// entry per matching item of the frontmatter's `tags:` list (numbered as
/// lines of the note, the opening `---` being line 1), then one per inline
/// tag of the body (numbered as lines of the note too).
pub open spec fn is_note_preview(r: Seq<SingleDiff>, b: Seq<u8>, tag: Seq<u8>, new: Seq<u8>) -> bool {
    let ny = note_yaml_count(b, tag);
    let body = note_body(b);
    let ps = inline_tag_positions(body, tag);
    &&& r.len() == ny + ps.len()
    &&& forall|j: int|
        0 <= j < ny ==> is_yaml_diff(
            #[trigger] r[j],
            search_text(b),
            tag,
            new,
            1,
            yaml_hits(search_text(b), tag)[j],
        )
    &&& forall|j: int|
        0 <= j < ps.len() ==> is_inline_diff(
            #[trigger] r[ny + j],
            body,
            tag,
            new,
            body_line_offset(b),
            ps[j],
        )
}

/// The preview of replacing `old_tag` by `new_tag` in one note.
pub fn preview_file(content: &str, old_tag: &str, new_tag: &str) -> (r: Vec<SingleDiff>)
    requires
        content.spec_bytes().len() <= isize::MAX,
        old_tag.spec_bytes().len() < usize::MAX,
        new_tag.spec_bytes().len() < usize::MAX,
    ensures
        is_note_preview(r@, content.spec_bytes(), old_tag.spec_bytes(), new_tag.spec_bytes()),
{
    let ghost b = content.spec_bytes();
    let ghost t = old_tag.spec_bytes();
    proof {
        lemma_str_bytes_valid(content);
        is_char_boundary_start_end_of_seq(b);
    }
    let n = content.as_bytes().len();
    let (inner, start) = note_parts(content);
    proof {
        lemma_line_count_bound(inner.spec_bytes(), 0);
        assert forall|k: int|
            0 <= k < lines_of(inner.spec_bytes()).len() && #[trigger] tag_item(
                inner.spec_bytes(),
                t,
                k,
            ) is Some implies 1 + k + 1 <= usize::MAX by {}
    }
    let mut diffs = diff_yaml_tags(inner, old_tag, new_tag, 1);
    let ghost ny = diffs@.len();
    let head = substr(content, 0, start);
    let offset = line_count(head);
    let body = substr(content, start, n);
    proof {
        assert forall|k: int|
            0 <= k < inline_tag_positions(body.spec_bytes(), t).len() implies offset + line_number_at(
            body.spec_bytes(),
            #[trigger] inline_tag_positions(body.spec_bytes(), t)[k],
        ) <= usize::MAX by {
            let s = inline_tag_positions(body.spec_bytes(), t)[k];
            lemma_inline_positions_within(body.spec_bytes(), t, k);
            lemma_count_newlines_bound(body.spec_bytes().subrange(0, s));
        }
    }
    let mut inline_diffs = diff_inline_tags(body, old_tag, new_tag, offset);
    let ghost yd = diffs@;
    let ghost id = inline_diffs@;
    diffs.append(&mut inline_diffs);
    proof {
        assert(diffs@ =~= yd + id);
        assert forall|j: int| 0 <= j < id.len() implies #[trigger] diffs@[ny + j] == id[j] by {}
    }
    diffs
}

/// The frontmatter of the note `b`, delimiter lines included, after the
/// items of its `tags:` list holding `tag` were changed to hold `new`; as it
/// was when none holds the tag, and empty when the note has no frontmatter.
pub open spec fn replaced_head(b: Seq<u8>, tag: Seq<u8>, new: Seq<u8>) -> Seq<u8> {
    match frontmatter_parts(b) {
        Some(p) => if note_yaml_count(b, tag) > 0 {
            b.subrange(0, p.0) + yaml_replaced(search_text(b), tag, new) + b.subrange(p.1, p.2)
        } else {
            b.subrange(0, p.2)
        },
        None => Seq::empty(),
    }
}

/// The note `b` after the replacement of `tag` by `new`, with the numbers of
/// frontmatter and inline replacements: the rewritten frontmatter, then the
/// body with its inline tags replaced.
pub open spec fn replaced_note(b: Seq<u8>, tag: Seq<u8>, new: Seq<u8>) -> (Seq<u8>, int, int) {
    let body = note_body(b);
    let count = inline_tag_positions(body, tag).len() as int;
    let new_body = if count > 0 {
        inline_replaced(body, tag, new)
    } else {
        body
    };
    (replaced_head(b, tag, new) + new_body, note_yaml_count(b, tag), count)
}

/// Rewrites a note: `None` when it holds the tag nowhere, else the new text
/// with the numbers of frontmatter and inline replacements.
pub fn replace_in_file(original: &str, old_tag: &str, new_tag: &str) -> (r: Option<
    (String, usize, usize),
>)
    requires
        old_tag.spec_bytes().len() < usize::MAX,
        new_tag.spec_bytes().len() < usize::MAX,
    ensures
        ({
            let res = replaced_note(original.spec_bytes(), old_tag.spec_bytes(), new_tag.spec_bytes());
            &&& r is None <==> (res.1 == 0 && res.2 == 0)
            &&& r matches Some(x) ==> x.0@ == text_of(res.0) && x.1 == res.1 && x.2 == res.2
        }),
{
    let ghost b = original.spec_bytes();
    let ghost t = old_tag.spec_bytes();
    let ghost nt = new_tag.spec_bytes();
    let bytes = original.as_bytes();
    let n = bytes.len();
    proof {
        lemma_str_bytes_valid(original);
        is_char_boundary_start_end_of_seq(b);
    }
    let (mut out, yaml_count) = match frontmatter_inner(original) {
        Some((x, y)) => {
            let e = match extract_frontmatter(original) {
                Some((_, e)) => e,
                None => n,
            };
            let inner = substr(original, x, y);
            let (new_inner, count) = replace_yaml_tags(inner, old_tag, new_tag);
            proof {
                lemma_valid_between(b, 0, x as int);
                lemma_valid_between(b, y as int, e as int);
                lemma_valid_between(b, 0, e as int);
            }
            if count > 0 {
                let ns = new_inner.as_str();
                let nf = ns.as_bytes();
                proof {
                    lemma_str_bytes_valid(ns);
                    vstd::utf8::decode_utf8_encode_utf8(yaml_replaced(inner.spec_bytes(), t, nt));
                    assert(nf@ == yaml_replaced(search_text(b), t, nt));
                }
                let mut v = copy_range(bytes, 0, x);
                push_all(&mut v, nf);
                push_all(&mut v, &bytes[y..e]);
                proof {
                    assert(v@ =~= b.subrange(0, x as int) + nf@ + b.subrange(y as int, e as int));
                    valid_utf8_concat(b.subrange(0, x as int), nf@);
                    valid_utf8_concat(b.subrange(0, x as int) + nf@, b.subrange(y as int, e as int));
                }
                (v, count)
            } else {
                (copy_range(bytes, 0, e), count)
            }
        },
        None => {
            let v: Vec<u8> = Vec::new();
            proof {
                assert(v@ =~= Seq::<u8>::empty());
                assert(valid_utf8(v@)) by {
                    assert(v@ =~= Seq::<u8>::empty());
                }
            }
            (v, 0)
        },
    };
    let (_, start) = note_parts(original);
    proof {
        assert(out@ == replaced_head(b, t, nt));
        assert(valid_utf8(out@));
    }
    let body = substr(original, start, n);
    proof {
        lemma_valid_between(b, start as int, n as int);
    }
    let (new_body, inline_count) = replace_inline_tags(body, old_tag, new_tag);
    let ghost nbody = inline_replaced(body.spec_bytes(), t, nt);
    let ghost head = out@;
    if inline_count > 0 {
        let nbs = new_body.as_str();
        proof {
            lemma_str_bytes_valid(nbs);
            vstd::utf8::decode_utf8_encode_utf8(nbody);
        }
        push_all(&mut out, nbs.as_bytes());
        proof {
            valid_utf8_concat(head, nbody);
        }
    } else {
        push_all(&mut out, body.as_bytes());
        proof {
            valid_utf8_concat(head, body.spec_bytes());
        }
    }
    assert(out@ == replaced_note(b, t, nt).0);
    if yaml_count == 0 && inline_count == 0 {
        None
    } else {
        Some((string_of(out), yaml_count, inline_count))
    }
}

/// The preview entry for one note: `Some` exactly when the preview lists a
/// change, holding all of them.
pub fn file_diff(relative_path: String, content: &str, old_tag: &str, new_tag: &str) -> (r: Option<
    FileDiff,
>)
    requires
        content.spec_bytes().len() <= isize::MAX,
        old_tag.spec_bytes().len() < usize::MAX,
        new_tag.spec_bytes().len() < usize::MAX,
    ensures
        match r {
            Some(d) => d.relative_path == relative_path && d.diffs@.len() > 0 && is_note_preview(
                d.diffs@,
                content.spec_bytes(),
                old_tag.spec_bytes(),
                new_tag.spec_bytes(),
            ),
            None => forall|v: Seq<SingleDiff>|
                #[trigger] is_note_preview(v, content.spec_bytes(), old_tag.spec_bytes(), new_tag.spec_bytes())
                    ==> v.len() == 0,
        },
{
    let diffs = preview_file(content, old_tag, new_tag);
    if diffs.len() == 0 {
        None
    } else {
        Some(FileDiff { relative_path, diffs })
    }
}

} // verus!
