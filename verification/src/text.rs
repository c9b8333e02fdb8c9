//! Byte-level text model shared by the rest of the crate: occurrences of a
//! pattern, UTF-8 facts about cut points, and building `String`s from bytes.

use vstd::prelude::*;
use vstd::string::*;
use vstd::utf8::*;

verus! {

/// `pat` occurs in `hay` starting at byte `i`.
pub open spec fn occurs_at(hay: Seq<u8>, pat: Seq<u8>, i: int) -> bool {
    &&& 0 <= i
    &&& i + pat.len() <= hay.len()
    &&& hay.subrange(i, i + pat.len()) == pat
}

/// `hay` starts with `pat`.
pub open spec fn has_prefix(hay: Seq<u8>, pat: Seq<u8>) -> bool {
    occurs_at(hay, pat, 0)
}

/// The first occurrence of `pat` in `hay` at or after byte `from`.
pub open spec fn find_from(hay: Seq<u8>, pat: Seq<u8>, from: int) -> Option<int>
    decreases hay.len() + 1 - from,
{
    if from < 0 || from + pat.len() > hay.len() {
        None
    } else if occurs_at(hay, pat, from) {
        Some(from)
    } else {
        find_from(hay, pat, from + 1)
    }
}

/// The starts of the leftmost, non-overlapping occurrences of a non-empty
/// `pat` in `hay`, scanning from byte `from`.
pub open spec fn matches_from(hay: Seq<u8>, pat: Seq<u8>, from: int) -> Seq<int>
    decreases hay.len() - from,
{
    if pat.len() == 0 || from < 0 || from + pat.len() > hay.len() {
        Seq::empty()
    } else if occurs_at(hay, pat, from) {
        seq![from] + matches_from(hay, pat, from + pat.len())
    } else {
        matches_from(hay, pat, from + 1)
    }
}

/// The text that a valid UTF-8 byte sequence encodes.
pub open spec fn text_of(b: Seq<u8>) -> Seq<char> {
    decode_utf8(b)
}

/// The first newline at or after byte `i`, or the end of `b`.
pub open spec fn line_end(b: Seq<u8>, i: int) -> int
    decreases b.len() - i,
{
    if i < 0 || i >= b.len() {
        b.len() as int
    } else if b[i] == 0x0a {
        i
    } else {
        line_end(b, i + 1)
    }
}

/// `line_end` lies between `i` and the end, on a newline unless at the end.
pub proof fn lemma_line_end_bounds(b: Seq<u8>, i: int)
    requires
        0 <= i <= b.len(),
    ensures
        i <= line_end(b, i) <= b.len(),
        line_end(b, i) < b.len() ==> b[line_end(b, i)] == 0x0a,
        forall|t: int| i <= t < line_end(b, i) ==> b[t] != 0x0a,
    decreases b.len() - i,
{
    if i < b.len() && b[i] != 0x0a {
        lemma_line_end_bounds(b, i + 1);
    }
}

/// The lines of `b` from byte `i` on, as byte ranges, the way `str::lines`
/// splits them: at each `\n`, dropping a `\r` just before it, with no empty
/// line after a final newline.
pub open spec fn line_ranges_from(b: Seq<u8>, i: int) -> Seq<(int, int)>
    decreases b.len() + 1 - i,
{
    if i < 0 || i >= b.len() {
        Seq::empty()
    } else {
        let e = line_end(b, i);
        let c = if e < b.len() && e > i && b[e - 1] == 0x0d {
            e - 1
        } else {
            e
        };
        proof {
            lemma_line_end_bounds(b, i);
        }
        seq![(i, c)] + line_ranges_from(b, e + 1)
    }
}

/// The lines of `b` as byte ranges (see [`line_ranges_from`]).
pub open spec fn line_ranges(b: Seq<u8>) -> Seq<(int, int)> {
    line_ranges_from(b, 0)
}

/// The lines of `b` from byte `i` on, without their line endings.
pub open spec fn lines_from(b: Seq<u8>, i: int) -> Seq<Seq<u8>> {
    line_ranges_from(b, i).map_values(|r: (int, int)| b.subrange(r.0, r.1))
}

/// The lines of `b`, without their line endings.
pub open spec fn lines_of(b: Seq<u8>) -> Seq<Seq<u8>> {
    lines_from(b, 0)
}

/// There are no more lines from `i` on than bytes.
pub proof fn lemma_line_count_bound(b: Seq<u8>, i: int)
    requires
        0 <= i,
    ensures
        line_ranges_from(b, i).len() <= if i <= b.len() {
            b.len() - i
        } else {
            0
        },
    decreases b.len() + 1 - i,
{
    if i < b.len() {
        lemma_line_end_bounds(b, i);
        lemma_line_count_bound(b, line_end(b, i) + 1);
    }
}

/// Each line range from `i` on lies within `b`, in order.
pub proof fn lemma_line_ranges_within(b: Seq<u8>, i: int, k: int)
    requires
        0 <= i,
        0 <= k < line_ranges_from(b, i).len(),
    ensures
        i <= line_ranges_from(b, i)[k].0 <= line_ranges_from(b, i)[k].1 <= b.len(),
    decreases b.len() + 1 - i,
{
    if i < b.len() {
        lemma_line_end_bounds(b, i);
        if k > 0 {
            lemma_line_ranges_within(b, line_end(b, i) + 1, k - 1);
        }
    }
}

/// The start of the line that holds byte `s`: just after the last newline
/// before `s`, or 0.
pub open spec fn line_start_before(b: Seq<u8>, s: int) -> int
    decreases s,
{
    if s <= 0 {
        0
    } else if b[s - 1] == 0x0a {
        s
    } else {
        line_start_before(b, s - 1)
    }
}

/// The number of newline bytes in `b`.
pub open spec fn count_newlines(b: Seq<u8>) -> int
    decreases b.len(),
{
    if b.len() == 0 {
        0
    } else {
        count_newlines(b.drop_last()) + if b.last() == 0x0a {
            1int
        } else {
            0int
        }
    }
}

/// There are no more newlines than bytes.
pub proof fn lemma_count_newlines_bound(b: Seq<u8>)
    ensures
        0 <= count_newlines(b) <= b.len(),
    decreases b.len(),
{
    if b.len() > 0 {
        lemma_count_newlines_bound(b.drop_last());
    }
}

// ---------------------------------------------------------------------
// UTF-8 facts about cut points
// ---------------------------------------------------------------------

/// A non-empty valid UTF-8 sequence starts with a leading byte.
pub proof fn lemma_valid_starts_with_leading(s: Seq<u8>)
    requires
        valid_utf8(s),
        s.len() > 0,
    ensures
        !is_continuation_byte(s[0]),
{
}

/// The string view and byte view of a `str` agree.
pub proof fn lemma_str_bytes_valid(s: &str)
    ensures
        valid_utf8(s.spec_bytes()),
        decode_utf8(s.spec_bytes()) == s@,
{
    encode_utf8_valid_utf8(s@);
    encode_utf8_decode_utf8(s@);
}

/// In valid UTF-8, the end and every position that does not hold a
/// continuation byte is a character boundary.
pub proof fn lemma_boundary_at(b: Seq<u8>, i: int)
    requires
        valid_utf8(b),
        0 <= i <= b.len(),
        i == b.len() || !is_continuation_byte(b[i]),
    ensures
        is_char_boundary(b, i),
{
    if i == b.len() {
        is_char_boundary_start_end_of_seq(b);
    } else {
        is_char_boundary_iff_not_is_continuation_byte(b, i);
    }
}

/// In valid UTF-8, a boundary that is not the end holds no continuation byte.
pub proof fn lemma_boundary_not_continuation(b: Seq<u8>, i: int)
    requires
        valid_utf8(b),
        0 <= i < b.len(),
        is_char_boundary(b, i),
    ensures
        !is_continuation_byte(b[i]),
{
    is_char_boundary_iff_not_is_continuation_byte(b, i);
}

/// The piece between two boundaries of valid UTF-8 is valid UTF-8.
pub proof fn lemma_valid_between(b: Seq<u8>, i: int, j: int)
    requires
        valid_utf8(b),
        0 <= i <= j <= b.len(),
        is_char_boundary(b, i),
        is_char_boundary(b, j),
    ensures
        valid_utf8(b.subrange(i, j)),
{
    valid_utf8_split(b, j);
    let t = b.subrange(0, j);
    if i == j {
        assert(b.subrange(i, j) =~= Seq::<u8>::empty());
    } else {
        lemma_boundary_not_continuation(b, i);
        assert(t[i] == b[i]);
        lemma_boundary_at(t, i);
        valid_utf8_split(t, i);
        assert(t.subrange(i, t.len() as int) =~= b.subrange(i, j));
    }
}

/// If the piece of valid UTF-8 that starts at a boundary `s` and ends at `e`
/// is itself valid UTF-8, then `e` is a boundary too.
pub proof fn lemma_boundary_after_valid(b: Seq<u8>, s: int, e: int)
    requires
        valid_utf8(b),
        0 <= s <= e <= b.len(),
        is_char_boundary(b, s),
        valid_utf8(b.subrange(s, e)),
    ensures
        is_char_boundary(b, e),
{
    valid_utf8_split(b, s);
    let t = b.subrange(s, b.len() as int);
    let k = e - s;
    assert(t.subrange(0, k) =~= b.subrange(s, e));
    if !valid_utf8(t.subrange(k, t.len() as int)) {
        partial_valid_partial_invalid_utf8(t, k);
    }
    assert(t.subrange(k, t.len() as int) =~= b.subrange(e, b.len() as int));
    if e < b.len() {
        lemma_valid_starts_with_leading(b.subrange(e, b.len() as int));
    }
    lemma_boundary_at(b, e);
}

/// A one-byte ASCII sequence is valid UTF-8.
pub proof fn lemma_ascii_byte_valid(c: u8)
    requires
        c < 0x80,
    ensures
        valid_utf8(seq![c]),
{
    let s = seq![c];
    assert(s[0] == c);
    assert(((c & 0x7F) as u32) <= 0x7f) by (bit_vector);
    assert(is_leading_byte_width_1(s[0]));
    assert(length_of_first_scalar(s) == 1);
    assert(decode_first_codepoint(s) <= 0x7f);
    assert(valid_first_scalar(s));
    assert(pop_first_scalar(s) =~= Seq::<u8>::empty());
    assert(valid_utf8(Seq::<u8>::empty()));
}

/// The position right after an ASCII byte of valid UTF-8 is a boundary.
pub proof fn lemma_boundary_after_ascii(b: Seq<u8>, i: int)
    requires
        valid_utf8(b),
        0 <= i < b.len(),
        b[i] < 0x80,
    ensures
        is_char_boundary(b, i),
        is_char_boundary(b, i + 1),
{
    lemma_boundary_at(b, i);
    lemma_ascii_byte_valid(b[i]);
    assert(b.subrange(i, i + 1) =~= seq![b[i]]);
    lemma_boundary_after_valid(b, i, i + 1);
}

/// Boundaries of a valid sequence carry over to its suffix from a boundary.
pub proof fn lemma_boundary_in_suffix(b: Seq<u8>, s: int, e: int)
    requires
        valid_utf8(b),
        0 <= s <= e <= b.len(),
        is_char_boundary(b, s),
        is_char_boundary(b, e),
    ensures
        valid_utf8(b.subrange(s, b.len() as int)),
        is_char_boundary(b.subrange(s, b.len() as int), e - s),
{
    valid_utf8_split(b, s);
    let t = b.subrange(s, b.len() as int);
    if e < b.len() {
        lemma_boundary_not_continuation(b, e);
        assert(t[e - s] == b[e]);
    }
    lemma_boundary_at(t, e - s);
}

// ---------------------------------------------------------------------
// Executable helpers
// ---------------------------------------------------------------------

/// Whether `pat` occurs in `hay` at byte `i`.
pub fn occurs_at_exec(hay: &[u8], pat: &[u8], i: usize) -> (r: bool)
    ensures
        r == occurs_at(hay@, pat@, i as int),
{
    if pat.len() > hay.len() || i > hay.len() - pat.len() {
        return false;
    }
    let mut k: usize = 0;
    while k < pat.len()
        invariant
            i + pat.len() <= hay.len(),
            k <= pat.len(),
            forall|t: int| 0 <= t < k ==> hay@[i + t] == pat@[t],
        decreases pat.len() - k,
    {
        if hay[i + k] != pat[k] {
            assert(hay@.subrange(i as int, i + pat.len())[k as int] != pat@[k as int]);
            return false;
        }
        k = k + 1;
    }
    assert(hay@.subrange(i as int, i + pat.len()) =~= pat@);
    true
}

/// The first occurrence of `pat` in `hay` at or after byte `from`.
pub fn find_from_exec(hay: &[u8], pat: &[u8], from: usize) -> (r: Option<usize>)
    ensures
        match find_from(hay@, pat@, from as int) {
            Some(i) => r == Some(i as usize),
            None => r.is_none(),
        },
{
    if pat.len() > hay.len() || from > hay.len() - pat.len() {
        return None;
    }
    let mut i = from;
    loop
        invariant
            pat.len() <= hay.len(),
            from <= i <= hay.len() - pat.len(),
            find_from(hay@, pat@, from as int) == find_from(hay@, pat@, i as int),
        decreases hay.len() - pat.len() - i,
    {
        if occurs_at_exec(hay, pat, i) {
            return Some(i);
        }
        if i == hay.len() - pat.len() {
            assert(find_from(hay@, pat@, i as int + 1) is None);
            return None;
        }
        i = i + 1;
    }
}

/// Appends all of `src` to `out`.
pub fn push_all(out: &mut Vec<u8>, src: &[u8])
    ensures
        final(out)@ == old(out)@ + src@,
{
    let mut k: usize = 0;
    while k < src.len()
        invariant
            k <= src.len(),
            out@ == old(out)@ + src@.subrange(0, k as int),
        decreases src.len() - k,
    {
        out.push(src[k]);
        k = k + 1;
        assert(src@.subrange(0, k as int) =~= src@.subrange(0, k - 1) + seq![src@[k - 1]]);
    }
    assert(src@.subrange(0, src.len() as int) =~= src@);
}

/// The bytes of `s[start..end]`, where both ends are character boundaries.
pub fn substr(s: &str, start: usize, end: usize) -> (r: &str)
    requires
        start <= end <= s.spec_bytes().len(),
        is_char_boundary(s.spec_bytes(), start as int),
        is_char_boundary(s.spec_bytes(), end as int),
    ensures
        r.spec_bytes() == s.spec_bytes().subrange(start as int, end as int),
{
    proof {
        lemma_str_bytes_valid(s);
    }
    let (_, tail) = s.split_at(start);
    proof {
        lemma_boundary_in_suffix(s.spec_bytes(), start as int, end as int);
    }
    let (mid, _) = tail.split_at(end - start);
    assert(mid.spec_bytes() =~= s.spec_bytes().subrange(start as int, end as int));
    mid
}

/// The first newline at or after byte `i`, or the end of `b`.
pub fn line_end_exec(b: &[u8], i: usize) -> (r: usize)
    requires
        i <= b@.len(),
    ensures
        r as int == line_end(b@, i as int),
        i <= r <= b@.len(),
        r < b@.len() ==> b@[r as int] == 0x0a,
{
    let mut j = i;
    while j < b.len() && b[j] != 0x0a
        invariant
            i <= j <= b@.len(),
            line_end(b@, i as int) == line_end(b@, j as int),
        decreases b.len() - j,
    {
        j = j + 1;
    }
    j
}

/// The number of lines of `s` (see [`line_ranges_from`]).
pub fn line_count(s: &str) -> (r: usize)
    ensures
        r == lines_of(s.spec_bytes()).len(),
        r <= s.spec_bytes().len(),
{
    let b = s.as_bytes();
    let ghost bs = b@;
    let ghost all = line_ranges(bs);
    proof {
        lemma_line_count_bound(bs, 0);
    }
    let mut i: usize = 0;
    let mut idx: usize = 0;
    assert(all.subrange(0, all.len() as int) =~= all);
    while i < b.len()
        invariant
            bs == b@,
            all == line_ranges(bs),
            all.len() <= bs.len(),
            i <= b.len(),
            idx <= all.len(),
            line_ranges_from(bs, i as int) == all.subrange(idx as int, all.len() as int),
        decreases b.len() - i,
    {
        let e = line_end_exec(b, i);
        proof {
            lemma_line_end_bounds(bs, i as int);
            let c = if e < bs.len() && e > i && bs[e - 1] == 0x0d { e - 1 } else { e as int };
            assert(line_ranges_from(bs, i as int) == seq![(i as int, c)] + line_ranges_from(bs, e + 1));
            let tail = all.subrange(idx as int, all.len() as int);
            assert(tail.subrange(1, tail.len() as int) =~= all.subrange(idx + 1, all.len() as int));
        }
        idx = idx + 1;
        if e < b.len() {
            i = e + 1;
        } else {
            assert(line_ranges_from(bs, e + 1) =~= Seq::<(int, int)>::empty());
            i = b.len();
        }
    }
    assert(line_ranges_from(bs, i as int) =~= Seq::<(int, int)>::empty());
    idx
}

/// `b[from..to]` as a fresh vector.
pub fn copy_range(b: &[u8], from: usize, to: usize) -> (r: Vec<u8>)
    requires
        from <= to <= b@.len(),
    ensures
        r@ == b@.subrange(from as int, to as int),
{
    let mut out: Vec<u8> = Vec::new();
    push_all(&mut out, &b[from..to]);
    assert(out@ =~= b@.subrange(from as int, to as int));
    out
}

/// `find_from` lands on an occurrence at or after `from`.
pub proof fn lemma_find_from_found(hay: Seq<u8>, pat: Seq<u8>, from: int)
    requires
        find_from(hay, pat, from) is Some,
    ensures
        from <= find_from(hay, pat, from)->0,
        occurs_at(hay, pat, find_from(hay, pat, from)->0),
    decreases hay.len() + 1 - from,
{
    if !(from < 0 || from + pat.len() > hay.len()) && !occurs_at(hay, pat, from) {
        lemma_find_from_found(hay, pat, from + 1);
    }
}

/// Turns bytes into a `String` (`String::from_utf8`): `Some` exactly when
/// the bytes are valid UTF-8, holding the text they encode.
#[verifier::external_body]
fn string_from_utf8(bytes: Vec<u8>) -> (r: Option<String>)
    ensures
        r is Some <==> valid_utf8(bytes@),
        r matches Some(s) ==> s@ == decode_utf8(bytes@),
{
    match String::from_utf8(bytes) {
        Ok(s) => Some(s),
        Err(_) => None,
    }
}

/// The `String` that valid UTF-8 bytes encode.
pub fn string_of(bytes: Vec<u8>) -> (r: String)
    requires
        valid_utf8(bytes@),
    ensures
        r@ == text_of(bytes@),
{
    match string_from_utf8(bytes) {
        Some(s) => s,
        None => String::new(),
    }
}

} // verus!
