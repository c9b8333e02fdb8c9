//! YAML frontmatter: a `---` line at the very start of a note, up to the
//! next `---` line.

use vstd::prelude::*;
use vstd::string::*;
use vstd::utf8::*;
use crate::text::{
    occurs_at, has_prefix, find_from, find_from_exec, occurs_at_exec, lemma_str_bytes_valid, lemma_boundary_at,
    lemma_boundary_after_ascii, lemma_find_from_found,
};

verus! {

/// `---`
pub open spec fn dashes() -> Seq<u8> {
    seq![0x2du8, 0x2d, 0x2d]
}

/// `---\n`
pub open spec fn dashes_lf() -> Seq<u8> {
    seq![0x2du8, 0x2d, 0x2d, 0x0a]
}

/// `---\r\n`
pub open spec fn dashes_crlf() -> Seq<u8> {
    seq![0x2du8, 0x2d, 0x2d, 0x0d, 0x0a]
}

/// `\n---\n`
pub open spec fn close_lf() -> Seq<u8> {
    seq![0x0au8, 0x2d, 0x2d, 0x2d, 0x0a]
}

/// `\n---\r\n`
pub open spec fn close_crlf() -> Seq<u8> {
    seq![0x0au8, 0x2d, 0x2d, 0x2d, 0x0d, 0x0a]
}

/// The length of the opening line of a note's frontmatter: 4 for `---\n`,
/// 5 for `---\r\n`, 0 when the note opens with neither.
pub open spec fn open_len(b: Seq<u8>) -> int {
    if has_prefix(b, dashes_lf()) {
        4
    } else if has_prefix(b, dashes_crlf()) {
        5
    } else {
        0
    }
}

/// The frontmatter of a note, as three byte offsets: where the text between
/// the delimiter lines starts, where it ends, and where the frontmatter
/// ends, just past the newline of its closing `---` line.
///
/// A note has frontmatter when it opens with a `---` line (`---\n` or
/// `---\r\n`). The closing line is: a `---` line right after the opening
/// one; else a `---` right after the opening line that ends the note; else
/// the first `\n---\n` after the opening line; else the first `\n---\r\n`.
/// With none of these there is no frontmatter.
pub open spec fn frontmatter_parts(b: Seq<u8>) -> Option<(int, int, int)> {
    let o = open_len(b);
    if o == 0 {
        None
    } else {
        let rest = b.subrange(o, b.len() as int);
        if has_prefix(rest, dashes_lf()) {
            Some((o, o, o + 4))
        } else if has_prefix(rest, dashes_crlf()) {
            Some((o, o, o + 5))
        } else if rest == dashes() {
            Some((o, o, b.len() as int))
        } else {
            match find_from(rest, close_lf(), 0) {
                Some(k) => Some((o, o + k, o + k + 5)),
                None => match find_from(rest, close_crlf(), 0) {
                    Some(k) => Some((o, o + k, o + k + 6)),
                    None => None,
                },
            }
        }
    }
}

/// The byte range of the frontmatter of a note, delimiter lines included.
pub open spec fn frontmatter_range(b: Seq<u8>) -> Option<(int, int)> {
    match frontmatter_parts(b) {
        Some(p) => Some((0, p.2)),
        None => None,
    }
}

/// The frontmatter of `content`, delimiters included, as byte offsets
/// `(inner start, inner end, end)` that all lie on character boundaries.
fn frontmatter_parts_exec(content: &str) -> (r: Option<(usize, usize, usize)>)
    ensures
        match frontmatter_parts(content.spec_bytes()) {
            Some(p) => r matches Some(x) && x.0 as int == p.0 && x.1 as int == p.1 && x.2 as int
                == p.2,
            None => r is None,
        },
        r matches Some(x) ==> {
            &&& 4 <= x.0 <= x.1 <= x.2 <= content.spec_bytes().len()
            &&& x.2 >= 7
            &&& is_char_boundary(content.spec_bytes(), x.0 as int)
            &&& is_char_boundary(content.spec_bytes(), x.1 as int)
            &&& is_char_boundary(content.spec_bytes(), x.2 as int)
        },
{
    let b = content.as_bytes();
    let ghost bs = b@;
    proof {
        lemma_str_bytes_valid(content);
    }
    let open_lf: [u8; 4] = [0x2d, 0x2d, 0x2d, 0x0a];
    let open_crlf: [u8; 5] = [0x2d, 0x2d, 0x2d, 0x0d, 0x0a];
    let end_lf: [u8; 5] = [0x0a, 0x2d, 0x2d, 0x2d, 0x0a];
    let end_crlf: [u8; 6] = [0x0a, 0x2d, 0x2d, 0x2d, 0x0d, 0x0a];
    assert(open_lf@ =~= dashes_lf());
    assert(open_crlf@ =~= dashes_crlf());
    assert(end_lf@ =~= close_lf());
    assert(end_crlf@ =~= close_crlf());
    let o: usize = if occurs_at_exec(b, &open_lf, 0) {
        4
    } else if occurs_at_exec(b, &open_crlf, 0) {
        5
    } else {
        return None;
    };
    proof {
        if o == 4 {
            assert(bs.subrange(0, 4)[3] == bs[3]);
        } else {
            assert(bs.subrange(0, 5)[4] == bs[4]);
        }
        lemma_boundary_after_ascii(bs, o - 1);
    }
    let n = b.len();
    let rest = slice_from(b, o);
    let ghost rs = rest@;
    assert(rs =~= bs.subrange(o as int, bs.len() as int));
    if occurs_at_exec(rest, &open_lf, 0) {
        proof {
            assert(rs.subrange(0, 4)[3] == bs[o + 3]);
            lemma_boundary_after_ascii(bs, o + 3);
        }
        return Some((o, o, o + 4));
    }
    if occurs_at_exec(rest, &open_crlf, 0) {
        proof {
            assert(rs.subrange(0, 5)[4] == bs[o + 4]);
            lemma_boundary_after_ascii(bs, o + 4);
        }
        return Some((o, o, o + 5));
    }
    if rest.len() == 3 && rest[0] == 0x2d && rest[1] == 0x2d && rest[2] == 0x2d {
        assert(rs =~= dashes());
        proof {
            lemma_boundary_at(bs, bs.len() as int);
        }
        return Some((o, o, b.len()));
    }
    assert(rs != dashes());
    match find_from_exec(rest, &end_lf, 0) {
        Some(k) => {
            proof {
                lemma_find_from_found(rs, close_lf(), 0);
                assert(close_lf().len() == 5);
                assert(find_from(rs, close_lf(), 0) == Some(k as int));
                assert(occurs_at(rs, close_lf(), k as int));
                assert(k + 5 <= rs.len());
                assert(rs.len() == n - o);
                assert(rs.subrange(k as int, k + 5)[0] == bs[o + k]);
                assert(rs.subrange(k as int, k + 5)[4] == bs[o + k + 4]);
                lemma_boundary_at(bs, o + k);
                lemma_boundary_after_ascii(bs, o + k + 4);
            }
            Some((o, o + k, o + k + 5))
        },
        None => match find_from_exec(rest, &end_crlf, 0) {
            Some(k) => {
                proof {
                    lemma_find_from_found(rs, close_crlf(), 0);
                    assert(close_crlf().len() == 6);
                    assert(find_from(rs, close_crlf(), 0) == Some(k as int));
                    assert(occurs_at(rs, close_crlf(), k as int));
                    assert(k + 6 <= rs.len());
                    assert(rs.len() == n - o);
                    assert(rs.subrange(k as int, k + 6)[0] == bs[o + k]);
                    assert(rs.subrange(k as int, k + 6)[5] == bs[o + k + 5]);
                    lemma_boundary_at(bs, o + k);
                    lemma_boundary_after_ascii(bs, o + k + 5);
                }
                Some((o, o + k, o + k + 6))
            },
            None => None,
        },
    }
}

/// Returns the byte range `(start, end)` of the frontmatter of `content`,
/// delimiter lines included, or `None` when the note has none.
pub fn extract_frontmatter(content: &str) -> (r: Option<(usize, usize)>)
    ensures
        match r {
            Some((s, e)) => frontmatter_range(content.spec_bytes()) == Some((s as int, e as int)),
            None => frontmatter_range(content.spec_bytes()) is None,
        },
        r matches Some((s, e)) ==> {
            &&& s == 0
            &&& 7 <= e <= content.spec_bytes().len()
            &&& is_char_boundary(content.spec_bytes(), e as int)
        },
{
    match frontmatter_parts_exec(content) {
        Some((_, _, e)) => Some((0, e)),
        None => None,
    }
}

/// The byte range of the text between the delimiter lines of the
/// frontmatter of `content` (the part that the tag search reads), or `None`
/// when the note has no frontmatter.
pub fn frontmatter_inner(content: &str) -> (r: Option<(usize, usize)>)
    ensures
        match frontmatter_parts(content.spec_bytes()) {
            Some(p) => r matches Some(x) && x.0 as int == p.0 && x.1 as int == p.1,
            None => r is None,
        },
        r matches Some(x) ==> {
            &&& x.0 <= x.1 <= content.spec_bytes().len()
            &&& is_char_boundary(content.spec_bytes(), x.0 as int)
            &&& is_char_boundary(content.spec_bytes(), x.1 as int)
        },
{
    match frontmatter_parts_exec(content) {
        Some((x, y, _)) => Some((x, y)),
        None => None,
    }
}

/// `b[from..]`.
fn slice_from(b: &[u8], from: usize) -> (r: &[u8])
    requires
        from <= b@.len(),
    ensures
        r@ == b@.subrange(from as int, b@.len() as int),
{
    &b[from..b.len()]
}

} // verus!
