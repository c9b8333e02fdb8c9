//! Fenced code blocks: a line that starts with three backticks opens a block
//! and the next such line closes it. Tags inside blocks are left alone.

use vstd::prelude::*;
use vstd::string::*;
use crate::text::{occurs_at, occurs_at_exec};

verus! {

/// The fence marker: three backticks.
pub open spec fn fence() -> Seq<u8> {
    seq![0x60u8, 0x60, 0x60]
}

/// A fence marker stands at the start of a line at byte `i`.
pub open spec fn fence_at(b: Seq<u8>, i: int) -> bool {
    &&& occurs_at(b, fence(), i)
    &&& (i == 0 || b[i - 1] == 0x0a)
}

/// The fence markers from byte `i` on, found left to right without overlap.
pub open spec fn fences_from(b: Seq<u8>, i: int) -> Seq<int>
    decreases b.len() - i,
{
    if i < 0 || i + 3 > b.len() {
        Seq::empty()
    } else if fence_at(b, i) {
        seq![i] + fences_from(b, i + 3)
    } else {
        fences_from(b, i + 1)
    }
}

/// Pairs consecutive fence markers into blocks that run from the start of the
/// opening marker to the end of the closing one; an unpaired last marker
/// opens no block.
pub open spec fn pair_fences(fs: Seq<int>) -> Seq<(int, int)>
    decreases fs.len(),
{
    if fs.len() < 2 {
        Seq::empty()
    } else {
        seq![(fs[0], fs[1] + 3)] + pair_fences(fs.subrange(2, fs.len() as int))
    }
}

/// The fenced code blocks of `b`, as byte ranges.
pub open spec fn code_blocks(b: Seq<u8>) -> Seq<(int, int)> {
    pair_fences(fences_from(b, 0))
}

/// Byte ranges stored as `usize` pairs, read as integers.
pub open spec fn ranges_view(v: Seq<(usize, usize)>) -> Seq<(int, int)> {
    v.map_values(|p: (usize, usize)| (p.0 as int, p.1 as int))
}

/// `pos` lies in one of the ranges.
pub open spec fn in_ranges(pos: int, rs: Seq<(int, int)>) -> bool {
    exists|k: int| 0 <= k < rs.len() && #[trigger] rs[k].0 <= pos && pos < rs[k].1
}

/// The marker that is still waiting for its closing partner.
pub open spec fn pending(open: Option<usize>) -> Seq<int> {
    match open {
        Some(s) => seq![s as int],
        None => Seq::empty(),
    }
}

/// The byte ranges of the fenced code blocks of `content`.
pub fn find_code_blocks(content: &str) -> (r: Vec<(usize, usize)>)
    ensures
        ranges_view(r@) == code_blocks(content.spec_bytes()),
{
    let b = content.as_bytes();
    let ghost bs = b@;
    let fence_bytes: [u8; 3] = [0x60, 0x60, 0x60];
    assert(fence_bytes@ =~= fence());
    let mut ranges: Vec<(usize, usize)> = Vec::new();
    let mut open: Option<usize> = None;
    let mut i: usize = 0;
    while i < b.len() && b.len() - i >= 3
        invariant
            bs == b@,
            fence_bytes@ == fence(),
            i <= b.len(),
            code_blocks(bs) == ranges_view(ranges@) + pair_fences(pending(open) + fences_from(bs, i as int)),
        decreases b.len() - i,
    {
        let at_line_start = i == 0 || b[i - 1] == 0x0a;
        if at_line_start && occurs_at_exec(b, &fence_bytes, i) {
            let ghost rest = fences_from(bs, i + 3);
            assert(fences_from(bs, i as int) == seq![i as int] + rest);
            match open {
                None => {
                    assert(pending(open) + fences_from(bs, i as int) =~= pending(Some(i)) + rest);
                    open = Some(i);
                },
                Some(s) => {
                    let ghost old_ranges = ranges@;
                    let ghost fs = pending(open) + fences_from(bs, i as int);
                    assert(fs =~= seq![s as int, i as int] + rest);
                    assert(fs.subrange(2, fs.len() as int) =~= rest);
                    assert(pair_fences(fs) == seq![(s as int, i + 3)] + pair_fences(rest));
                    ranges.push((s, i + 3));
                    assert(ranges_view(ranges@) =~= ranges_view(old_ranges) + seq![(s as int, i + 3)]);
                    open = None;
                    assert(pending(open) + rest =~= rest);
                },
            }
            i = i + 3;
        } else {
            assert(fences_from(bs, i as int) == fences_from(bs, i + 1));
            i = i + 1;
        }
    }
    assert(fences_from(bs, i as int) =~= Seq::<int>::empty());
    assert(pair_fences(pending(open)) =~= Seq::<(int, int)>::empty());
    assert(ranges_view(ranges@) + Seq::<(int, int)>::empty() =~= ranges_view(ranges@));
    ranges
}

/// Whether `pos` falls inside one of `code_blocks`.
pub fn inside_code_block(pos: usize, code_blocks: &[(usize, usize)]) -> (r: bool)
    ensures
        r == in_ranges(pos as int, ranges_view(code_blocks@)),
{
    let mut k: usize = 0;
    while k < code_blocks.len()
        invariant
            k <= code_blocks.len(),
            forall|t: int|
                0 <= t < k ==> !(code_blocks@[t].0 <= pos && pos < code_blocks@[t].1),
        decreases code_blocks.len() - k,
    {
        let (start, end) = code_blocks[k];
        if pos >= start && pos < end {
            assert(ranges_view(code_blocks@)[k as int] == (start as int, end as int));
            return true;
        }
        k = k + 1;
    }
    assert forall|t: int| 0 <= t < ranges_view(code_blocks@).len() implies !(
    #[trigger] ranges_view(code_blocks@)[t].0 <= pos && pos < ranges_view(code_blocks@)[t].1) by {
        assert(ranges_view(code_blocks@)[t] == (code_blocks@[t].0 as int, code_blocks@[t].1 as int));
    }
    false
}

} // verus!
