//! Where an inline `#tag` may end and where it may not start.

use vstd::prelude::*;
use vstd::string::*;
use vstd::utf8::*;
use crate::text::lemma_str_bytes_valid;

verus! {

broadcast use vstd::string::group_string_axioms;

/// The characters that can terminate an inline `#tag` in body text; `'\0'`
/// stands for the end of the text.
pub open spec fn tag_boundary_char(c: char) -> bool {
    ||| c == '\0'
    ||| c == ' '
    ||| c == '\t'
    ||| c == '\n'
    ||| c == '\u{3000}'
    ||| c == '.'
    ||| c == ','
    ||| c == '。'
    ||| c == '、'
    ||| c == ';'
    ||| c == '；'
    ||| c == ':'
    ||| c == '：'
    ||| c == '!'
    ||| c == '！'
    ||| c == '?'
    ||| c == '？'
    ||| c == ')'
    ||| c == '）'
    ||| c == ']'
    ||| c == '】'
    ||| c == '」'
    ||| c == '』'
}

/// Whether `ch` can terminate an inline tag.
pub fn is_tag_boundary(ch: char) -> (r: bool)
    ensures
        r == tag_boundary_char(ch),
{
    ch == '\0' || ch == ' ' || ch == '\t' || ch == '\n' || ch == '\u{3000}' || ch == '.' || ch
        == ',' || ch == '。' || ch == '、' || ch == ';' || ch == '；' || ch == ':' || ch == '：'
        || ch == '!' || ch == '！' || ch == '?' || ch == '？' || ch == ')' || ch == '）' || ch
        == ']' || ch == '】' || ch == '」' || ch == '』'
}

/// The byte just before position `i` is `/` (a URL anchor such as `/#tag`).
pub open spec fn slash_before(b: Seq<u8>, i: int) -> bool {
    i > 0 && b[i - 1] == 0x2f
}

/// Whether the byte just before `match_start` is `/`.
pub fn preceded_by_slash(text: &str, match_start: usize) -> (r: bool)
    requires
        match_start <= text.spec_bytes().len(),
    ensures
        r == slash_before(text.spec_bytes(), match_start as int),
{
    if match_start == 0 {
        return false;
    }
    text.as_bytes()[match_start - 1] == 0x2f
}

/// The character that starts at byte `pos` of `b`, or `'\0'` at the end.
pub open spec fn char_at_byte(b: Seq<u8>, pos: int) -> char {
    if pos >= b.len() {
        '\0'
    } else {
        decode_utf8(b.subrange(pos, b.len() as int))[0]
    }
}

/// The character at byte `pos` of `text`, or `'\0'` when `pos` is at or
/// past the end.
pub fn after_match_char(text: &str, pos: usize) -> (c: char)
    requires
        pos < text.spec_bytes().len() ==> is_char_boundary(text.spec_bytes(), pos as int),
    ensures
        c == char_at_byte(text.spec_bytes(), pos as int),
{
    proof {
        lemma_str_bytes_valid(text);
    }
    if pos >= text.as_bytes().len() {
        return '\0';
    }
    let (_, rest) = text.split_at(pos);
    proof {
        lemma_str_bytes_valid(rest);
        assert(rest.spec_bytes() =~= text.spec_bytes().subrange(pos as int, text.spec_bytes().len() as int));
        if rest@.len() > 0 {
            assert(rest.spec_bytes().len() > 0);
        }
    }
    let mut it = rest.chars();
    match it.next() {
        Some(c) => c,
        None => '\0',
    }
}

} // verus!
