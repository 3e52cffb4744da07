//! Verified sorting helpers: sorted unique timestamps and value-ordered index entries.
use vstd::prelude::*;

verus! {

/// Strictly increasing.
pub open spec fn strictly_increasing(s: Seq<i64>) -> bool {
    forall|i: int, j: int| 0 <= i < j < s.len() ==> s[i] < s[j]
}

/// Sorts and removes duplicates: the result is strictly increasing and holds exactly the
/// values of `v`.
pub fn sort_dedup_i64(v: &Vec<i64>) -> (r: Vec<i64>)
    ensures
        strictly_increasing(r@),
        forall|x: i64| r@.contains(x) <==> v@.contains(x),
{
    let mut out: Vec<i64> = Vec::new();
    let mut k: usize = 0;
    while k < v.len()
        invariant
            k <= v@.len(),
            strictly_increasing(out@),
            forall|x: i64| out@.contains(x) <==> v@.subrange(0, k as int).contains(x),
        decreases v@.len() - k,
    {
        let x = v[k];
        let mut pos: usize = 0;
        while pos < out.len() && out[pos] < x
            invariant
                pos <= out@.len(),
                forall|i: int| 0 <= i < pos ==> out@[i] < x,
            decreases out@.len() - pos,
        {
            pos = pos + 1;
        }
        let ghost before = out@;
        assert(forall|y: i64| before.contains(y) <==> v@.subrange(0, k as int).contains(y));
        if pos < out.len() && out[pos] == x {
        } else {
            out.insert(pos, x);
            assert forall|i: int, j: int| 0 <= i < j < out@.len() implies out@[i] < out@[j] by {
                if j < pos {
                } else if i > pos {
                    assert(out@[i] == before[i - 1] && out@[j] == before[j - 1]);
                } else if i == pos {
                    assert(out@[j] == before[j - 1]);
                } else {
                    if j == pos {
                    } else {
                        assert(out@[j] == before[j - 1]);
                    }
                }
            }
        }
        proof {
            let p = v@.subrange(0, k as int);
            let q = v@.subrange(0, k + 1);
            assert(q =~= p.push(x));
            assert forall|y: i64| out@.contains(y) <==> q.contains(y) by {
                if out@.contains(y) {
                    let i = choose|i: int| 0 <= i < out@.len() && out@[i] == y;
                    if y != x {
                        if i < pos {
                            assert(before[i] == y);
                        } else if out@.len() == before.len() {
                            assert(before[i] == y);
                        } else {
                            assert(before[i - 1] == y);
                        }
                        assert(before.contains(y));
                        assert(p.contains(y));
                        let j = choose|j: int| 0 <= j < p.len() && p[j] == y;
                        assert(q[j] == y);
                    } else {
                        assert(q[q.len() - 1] == y);
                    }
                }
                if q.contains(y) {
                    let j = choose|j: int| 0 <= j < q.len() && q[j] == y;
                    if j < p.len() {
                        assert(p[j] == y);
                        assert(before.contains(y));
                        let i = choose|i: int| 0 <= i < before.len() && before[i] == y;
                        if out@.len() == before.len() {
                            assert(out@[i] == y);
                        } else if i < pos {
                            assert(out@[i] == y);
                        } else {
                            assert(out@[i + 1] == y);
                        }
                    } else {
                        assert(y == x);
                        assert(out@[pos as int] == x);
                    }
                }
            }
        }
        k = k + 1;
    }
    assert(v@.subrange(0, k as int) =~= v@);
    out
}

} // verus!
