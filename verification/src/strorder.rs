//! Byte-wise lexicographic order of strings (the order of `str`'s `Ord`), and sorting by it.
use vstd::prelude::*;
use vstd::utf8::*;
use crate::text::owned;

verus! {

/// `a` sorts strictly before `b`, byte by byte; a proper prefix sorts first.
pub open spec fn lex_lt(a: Seq<u8>, b: Seq<u8>) -> bool
    decreases a.len(),
{
    if a.len() == 0 {
        b.len() > 0
    } else if b.len() == 0 {
        false
    } else if a[0] != b[0] {
        a[0] < b[0]
    } else {
        lex_lt(a.drop_first(), b.drop_first())
    }
}

/// The order is a strict total order on byte sequences.
pub proof fn lemma_lex_order(a: Seq<u8>, b: Seq<u8>, c: Seq<u8>)
    ensures
        !lex_lt(a, a),
        lex_lt(a, b) ==> !lex_lt(b, a),
        a != b ==> lex_lt(a, b) || lex_lt(b, a),
        lex_lt(a, b) && lex_lt(b, c) ==> lex_lt(a, c),
    decreases a.len() + b.len() + c.len(),
{
    if a.len() > 0 && b.len() > 0 && c.len() > 0 {
        lemma_lex_order(a.drop_first(), b.drop_first(), c.drop_first());
    } else if a.len() > 0 && b.len() > 0 {
        lemma_lex_order(a.drop_first(), b.drop_first(), c);
    } else if a.len() > 0 {
        lemma_lex_order(a.drop_first(), b, c);
    }
    if a != b && a.len() > 0 && b.len() > 0 && a[0] == b[0] {
        assert(a.drop_first() != b.drop_first()) by {
            if a.drop_first() == b.drop_first() {
                assert(a =~= seq![a[0]] + a.drop_first());
                assert(b =~= seq![b[0]] + b.drop_first());
            }
        }
    }
    if a != b && a.len() == 0 && b.len() == 0 {
        assert(a =~= b);
    }
}

/// Whether `a` sorts strictly before `b` as `str` values do.
pub fn str_lt(a: &str, b: &str) -> (r: bool)
    ensures
        r == lex_lt(encode_utf8(a@), encode_utf8(b@)),
{
    let x = a.as_bytes();
    let y = b.as_bytes();
    let mut i: usize = 0;
    assert(x@.subrange(0, x@.len() as int) =~= x@);
    assert(y@.subrange(0, y@.len() as int) =~= y@);
    while i < x.len() && i < y.len() && x[i] == y[i]
        invariant
            i <= x@.len(),
            i <= y@.len(),
            x@ == encode_utf8(a@),
            y@ == encode_utf8(b@),
            lex_lt(x@, y@) == lex_lt(x@.subrange(i as int, x@.len() as int), y@.subrange(i as int, y@.len() as int)),
        decreases x@.len() - i,
    {
        proof {
            let xs = x@.subrange(i as int, x@.len() as int);
            let ys = y@.subrange(i as int, y@.len() as int);
            assert(xs.drop_first() =~= x@.subrange(i + 1, x@.len() as int));
            assert(ys.drop_first() =~= y@.subrange(i + 1, y@.len() as int));
        }
        i = i + 1;
    }
    if i < x.len() && i < y.len() {
        x[i] < y[i]
    } else {
        i == x.len() && i < y.len()
    }
}

/// Strings sorted by their bytes: no later string sorts strictly before an earlier one.
pub open spec fn lex_sorted(s: Seq<Seq<char>>) -> bool {
    forall|i: int, j: int| 0 <= i < j < s.len() ==> !lex_lt(encode_utf8(s[j]), encode_utf8(s[i]))
}

/// The characters of each string.
pub open spec fn string_views(s: Seq<String>) -> Seq<Seq<char>> {
    s.map_values(|x: String| x@)
}

/// Sorts strings by their bytes; the result holds the same strings.
pub fn sort_strings(v: Vec<String>) -> (r: Vec<String>)
    ensures
        lex_sorted(string_views(r@)),
        string_views(r@).to_multiset() == string_views(v@).to_multiset(),
{
    broadcast use vstd::seq_lib::to_multiset_insert;
    let ghost all = string_views(v@);
    let mut rest = v;
    let mut out: Vec<String> = Vec::new();
    let mut k: usize = 0;
    let n = rest.len();
    assert(string_views(out@) =~= Seq::<Seq<char>>::empty());
    assert(all.subrange(0, 0) =~= Seq::<Seq<char>>::empty());
    assert(all.subrange(0, all.len() as int) =~= all);
    while rest.len() > 0
        invariant
            n == all.len(),
            k + rest@.len() == all.len(),
            string_views(rest@) == all.subrange(k as int, all.len() as int),
            lex_sorted(string_views(out@)),
            string_views(out@).to_multiset() == all.subrange(0, k as int).to_multiset(),
        decreases rest@.len(),
    {
        let ghost before_rest = rest@;
        let x = rest.remove(0);
        assert(x@ == all[k as int]) by {
            assert(string_views(before_rest)[0] == x@);
        }
        assert(string_views(rest@) =~= all.subrange(k + 1, all.len() as int)) by {
            assert forall|i: int| 0 <= i < rest@.len() implies string_views(rest@)[i] == all[k + 1 + i] by {
                assert(rest@[i] == before_rest[i + 1]);
                assert(string_views(before_rest)[i + 1] == all[k + 1 + i]);
            }
        }
        let mut p = out.len();
        while p > 0 && str_lt(x.as_str(), out[p - 1].as_str())
            invariant
                p <= out@.len(),
                forall|j: int| p <= j < out@.len() ==> lex_lt(encode_utf8(x@), encode_utf8(#[trigger] out@[j]@)),
            decreases p,
        {
            p = p - 1;
        }
        let ghost before = out@;
        out.insert(p, x);
        proof {
            let bv = string_views(before);
            let ov = string_views(out@);
            assert(ov =~= bv.insert(p as int, x@));
            assert forall|i: int, j: int| 0 <= i < j < ov.len() implies !lex_lt(encode_utf8(ov[j]), encode_utf8(ov[i])) by {
                if i < p && j < p {
                    assert(ov[i] == bv[i] && ov[j] == bv[j]);
                } else if i < p && j == p {
                    assert(ov[i] == bv[i]);
                    if p > 0 {
                        assert(!lex_lt(encode_utf8(x@), encode_utf8(before[p - 1]@)));
                        lemma_lex_order(encode_utf8(bv[i]), encode_utf8(bv[p - 1]), encode_utf8(x@));
                        lemma_lex_order(encode_utf8(x@), encode_utf8(bv[p - 1]), encode_utf8(bv[i]));
                        lemma_lex_order(encode_utf8(x@), encode_utf8(bv[i]), encode_utf8(bv[p - 1]));
                    }
                } else if i < p {
                    assert(ov[i] == bv[i] && ov[j] == bv[j - 1]);
                } else if i == p {
                    assert(ov[j] == bv[j - 1]);
                    assert(lex_lt(encode_utf8(x@), encode_utf8(before[j - 1]@)));
                    lemma_lex_order(encode_utf8(x@), encode_utf8(bv[j - 1]), encode_utf8(x@));
                } else {
                    assert(ov[i] == bv[i - 1] && ov[j] == bv[j - 1]);
                }
            }
            vstd::seq_lib::to_multiset_insert(bv, p as int, x@);
            assert(all.subrange(0, k + 1) =~= all.subrange(0, k as int).push(x@));
            vstd::seq_lib::to_multiset_insert(all.subrange(0, k as int), k as int, x@);
            assert(all.subrange(0, k as int).insert(k as int, x@) =~= all.subrange(0, k as int).push(x@));
        }
        k = k + 1;
    }
    assert(all.subrange(0, k as int) =~= all);
    out
}

} // verus!
