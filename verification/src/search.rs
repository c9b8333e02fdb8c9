//! The order of search results: by relative path, byte by byte, as `str`
//! orders text.

use vstd::prelude::*;
use vstd::string::*;
use vstd::utf8::*;
use vstd::multiset::*;
use crate::model::FileMatch;

verus! {

/// `a` comes before or equals `b` in lexicographic byte order.
pub open spec fn bytes_le(a: Seq<u8>, b: Seq<u8>) -> bool
    decreases a.len(),
{
    if a.len() == 0 {
        true
    } else if b.len() == 0 {
        false
    } else if a[0] != b[0] {
        a[0] < b[0]
    } else {
        bytes_le(a.drop_first(), b.drop_first())
    }
}

/// Any two byte strings are ordered one way or the other.
pub proof fn lemma_bytes_le_total(a: Seq<u8>, b: Seq<u8>)
    ensures
        bytes_le(a, b) || bytes_le(b, a),
    decreases a.len(),
{
    if a.len() > 0 && b.len() > 0 && a[0] == b[0] {
        lemma_bytes_le_total(a.drop_first(), b.drop_first());
    }
}

/// The byte order is transitive.
pub proof fn lemma_bytes_le_trans(a: Seq<u8>, b: Seq<u8>, c: Seq<u8>)
    requires
        bytes_le(a, b),
        bytes_le(b, c),
    ensures
        bytes_le(a, c),
    decreases a.len(),
{
    if a.len() > 0 && b.len() > 0 && c.len() > 0 && a[0] == b[0] && b[0] == c[0] {
        lemma_bytes_le_trans(a.drop_first(), b.drop_first(), c.drop_first());
    }
}

/// The relative path of a match, as bytes.
pub open spec fn path_of(m: FileMatch) -> Seq<u8> {
    encode_utf8(m.relative_path@)
}

/// The matches are in order of their relative paths.
pub open spec fn sorted_by_path(s: Seq<FileMatch>) -> bool {
    forall|i: int, j: int| 0 <= i < j < s.len() ==> bytes_le(path_of(#[trigger] s[i]), path_of(#[trigger] s[j]))
}

/// Every byte string comes before or equals itself.
pub proof fn lemma_bytes_le_refl(a: Seq<u8>)
    ensures
        bytes_le(a, a),
    decreases a.len(),
{
    if a.len() > 0 {
        lemma_bytes_le_refl(a.drop_first());
    }
}

/// The matches whose relative path is `p`.
pub open spec fn has_path(p: Seq<u8>) -> spec_fn(FileMatch) -> bool {
    |m: FileMatch| path_of(m) == p
}

/// `a` and `b` list the matches of each relative path in the same order.
pub open spec fn same_order_per_path(a: Seq<FileMatch>, b: Seq<FileMatch>) -> bool {
    forall|p: Seq<u8>| #[trigger] a.filter(has_path(p)) == b.filter(has_path(p))
}

/// Keeping the elements that satisfy `p` keeps none when none does.
pub proof fn lemma_filter_none<A>(s: Seq<A>, p: spec_fn(A) -> bool)
    requires
        forall|i: int| 0 <= i < s.len() ==> !p(#[trigger] s[i]),
    ensures
        s.filter(p) == Seq::<A>::empty(),
    decreases s.len(),
{
    reveal(Seq::filter);
    if s.len() > 0 {
        assert forall|i: int| 0 <= i < s.drop_last().len() implies !p(#[trigger] s.drop_last()[i]) by {
            assert(s.drop_last()[i] == s[i]);
        }
        lemma_filter_none(s.drop_last(), p);
        assert(!p(s[s.len() - 1]));
    }
}

/// Whether `a` comes before or equals `b` in byte order.
fn bytes_le_exec(a: &[u8], b: &[u8]) -> (r: bool)
    ensures
        r == bytes_le(a@, b@),
{
    let mut i: usize = 0;
    assert(a@.subrange(0, a@.len() as int) =~= a@);
    assert(b@.subrange(0, b@.len() as int) =~= b@);
    while i < a.len() && i < b.len() && a[i] == b[i]
        invariant
            i <= a@.len(),
            i <= b@.len(),
            bytes_le(a@, b@) == bytes_le(
                a@.subrange(i as int, a@.len() as int),
                b@.subrange(i as int, b@.len() as int),
            ),
        decreases a.len() - i,
    {
        assert(a@.subrange(i as int, a@.len() as int).drop_first() =~= a@.subrange(i + 1, a@.len() as int));
        assert(b@.subrange(i as int, b@.len() as int).drop_first() =~= b@.subrange(i + 1, b@.len() as int));
        i = i + 1;
    }
    if i == a.len() {
        true
    } else if i == b.len() {
        false
    } else {
        a[i] < b[i]
    }
}

/// Whether match `a`'s path comes before or equals match `b`'s.
fn path_le(a: &FileMatch, b: &FileMatch) -> (r: bool)
    ensures
        r == bytes_le(path_of(*a), path_of(*b)),
{
    let sa = a.relative_path.as_str();
    let sb = b.relative_path.as_str();
    bytes_le_exec(sa.as_bytes(), sb.as_bytes())
}

/// Sorts search results by relative path, stably: matches with the same
/// path keep their order.
pub fn sort_by_path(matches: &mut Vec<FileMatch>)
    ensures
        sorted_by_path(final(matches)@),
        same_order_per_path(final(matches)@, old(matches)@),
        final(matches)@.to_multiset() == old(matches)@.to_multiset(),
        final(matches)@.len() == old(matches)@.len(),
{
    broadcast use vstd::seq_lib::group_to_multiset_ensures, vstd::seq_lib::to_multiset_insert;
    let n = matches.len();
    let ghost orig = matches@;
    if n < 2 {
        return;
    }
    let mut k: usize = 1;
    assert(matches@.subrange(1, n as int) =~= orig.subrange(1, n as int));
    assert(matches@.subrange(0, 1) =~= orig.subrange(0, 1));
    while k < n
        invariant
            n == matches@.len(),
            orig == old(matches)@,
            orig.len() == n,
            1 <= k <= n,
            sorted_by_path(matches@.subrange(0, k as int)),
            same_order_per_path(matches@.subrange(0, k as int), orig.subrange(0, k as int)),
            matches@.subrange(k as int, n as int) == orig.subrange(k as int, n as int),
            matches@.to_multiset() == orig.to_multiset(),
        decreases n - k,
    {
        let ghost s = matches@;
        let x = matches.remove(k);
        let ghost r = matches@;
        assert(r =~= s.remove(k as int));
        let mut p = k;
        while p > 0 && !path_le(&matches[p - 1], &x)
            invariant
                matches@ == r,
                r.len() == n - 1,
                p <= k,
                k < n,
                forall|q: int| p <= q < k ==> !bytes_le(path_of(#[trigger] r[q]), path_of(x)),
            decreases p,
        {
            p = p - 1;
        }
        matches.insert(p, x);
        proof {
            let t = matches@;
            assert(t == r.insert(p as int, x));
            assert(r.subrange(0, k as int) =~= s.subrange(0, k as int));
            assert(s[k as int] == orig[k as int]) by {
                assert(s.subrange(k as int, n as int)[0] == orig.subrange(k as int, n as int)[0]);
            }
            assert forall|i: int, j: int| 0 <= i < j < k + 1 implies bytes_le(
                path_of(#[trigger] t.subrange(0, k + 1)[i]),
                path_of(#[trigger] t.subrange(0, k + 1)[j]),
            ) by {
                let u = t.subrange(0, k + 1);
                let w = s.subrange(0, k as int);
                if j < p {
                    assert(u[i] == w[i] && u[j] == w[j]);
                } else if j == p {
                    assert(u[j] == x);
                    assert(u[i] == w[i]);
                    assert(bytes_le(path_of(r[p - 1]), path_of(x)));
                    if i < p - 1 {
                        assert(w[p - 1] == r[p - 1]);
                        lemma_bytes_le_trans(path_of(w[i]), path_of(w[p - 1]), path_of(x));
                    }
                } else if i < p {
                    assert(u[i] == w[i] && u[j] == w[j - 1]);
                } else if i == p {
                    assert(u[i] == x && u[j] == r[j - 1]);
                    lemma_bytes_le_total(path_of(r[j - 1]), path_of(x));
                } else {
                    assert(u[i] == w[i - 1] && u[j] == w[j - 1]);
                }
            }
            // The matches with the path of `x` that the new prefix holds are
            // those of the old prefix, then `x`.
            let pre = s.subrange(0, p as int);
            let mid = s.subrange(p as int, k as int);
            assert(t.subrange(0, k + 1) =~= pre + seq![x] + mid);
            assert(s.subrange(0, k as int) =~= pre + mid);
            assert(orig.subrange(0, k + 1) =~= orig.subrange(0, k as int).push(x));
            assert forall|v: Seq<u8>| #[trigger] t.subrange(0, k + 1).filter(has_path(v))
                == orig.subrange(0, k + 1).filter(has_path(v)) by {
                let hp = has_path(v);
                Seq::filter_distributes_over_add(pre + seq![x], mid, hp);
                Seq::filter_distributes_over_add(pre, seq![x], hp);
                Seq::filter_distributes_over_add(pre, mid, hp);
                orig.subrange(0, k as int).lemma_filter_push(x, hp);
                assert(s.subrange(0, k as int).filter(hp) == orig.subrange(0, k as int).filter(hp));
                (Seq::<FileMatch>::empty()).lemma_filter_push(x, hp);
                assert(seq![x] =~= Seq::<FileMatch>::empty().push(x));
                reveal(Seq::filter);
                assert(Seq::<FileMatch>::empty().filter(hp) =~= Seq::<FileMatch>::empty());
                if hp(x) {
                    assert forall|q: int| 0 <= q < mid.len() implies !hp(#[trigger] mid[q]) by {
                        assert(mid[q] == r[p + q]);
                        lemma_bytes_le_refl(path_of(x));
                    }
                    lemma_filter_none(mid, hp);
                    assert(pre.filter(hp) + seq![x] + Seq::<FileMatch>::empty() =~= pre.filter(
                        hp,
                    ) + Seq::<FileMatch>::empty() + seq![x]);
                    assert(pre.filter(hp).push(x) =~= pre.filter(hp) + seq![x]);
                } else {
                    assert(pre.filter(hp) + Seq::<FileMatch>::empty() =~= pre.filter(hp));
                }
            }
            assert(t.subrange(k + 1, n as int) =~= s.subrange(k + 1, n as int));
            assert(s.subrange(k + 1, n as int) =~= s.subrange(k as int, n as int).subrange(1, n - k));
            assert(orig.subrange(k + 1, n as int) =~= orig.subrange(k as int, n as int).subrange(1, n - k));
            vstd::seq_lib::to_multiset_insert(r, p as int, x);
            vstd::seq_lib::to_multiset_remove(s, k as int);
            vstd::seq_lib::to_multiset_contains(s, x);
            assert(s.contains(x)) by {
                assert(s[k as int] == x);
            }
            assert(s.to_multiset().count(x) > 0);
            broadcast use vstd::multiset::group_multiset_axioms;
            assert(t.to_multiset() =~= s.to_multiset());
        }
        k = k + 1;
    }
    assert(matches@.subrange(0, n as int) =~= matches@);
    assert(orig.subrange(0, n as int) =~= orig);
}

} // verus!
