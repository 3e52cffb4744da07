//! Overlap sets among chunk files and the choice of the chunks a rebuilt manifest keeps.
use vstd::prelude::*;
use crate::error::{FastKError, Result, invalid_data};
use crate::manifest::{sort_by_start, sort_chunks_by_start};
use crate::meta::ChunkMeta;
use crate::recovery::{choose_surviving_chunk_for_overlap, covers_window, is_overlap_winner, max_end, min_start};
use crate::strorder::{lex_sorted, sort_strings, string_views};
use crate::text::str_eq;

verus! {

/// The sequences held by a list of vectors.
pub open spec fn seqs_of(v: Seq<Vec<ChunkMeta>>) -> Seq<Seq<ChunkMeta>> {
    v.map_values(|x: Vec<ChunkMeta>| x@)
}

/// Runs of the list, in order: a chunk joins the current run when it starts no later than
/// the latest end in the run, else it opens a new run. On a list sorted by start, the runs
/// are the sets of chunks connected by overlap.
pub open spec fn clusters(s: Seq<ChunkMeta>) -> Seq<Seq<ChunkMeta>>
    decreases s.len(),
{
    if s.len() == 0 {
        Seq::empty()
    } else {
        let c = clusters(s.drop_last());
        let x = s.last();
        if c.len() > 0 && x.start_ts <= max_end(c.last()) {
            c.update(c.len() - 1, c.last().push(x))
        } else {
            c.push(seq![x])
        }
    }
}

/// A run of more than one chunk.
pub open spec fn is_group() -> spec_fn(Seq<ChunkMeta>) -> bool {
    |g: Seq<ChunkMeta>| g.len() > 1
}

/// The overlap sets of `s`: the runs of more than one chunk of `s` sorted by start.
pub open spec fn overlap_sets(s: Seq<ChunkMeta>) -> Seq<Seq<ChunkMeta>> {
    clusters(sort_by_start(s)).filter(is_group())
}

/// Cuts a list into its runs, moving the entries.
fn cluster_chunks(sorted: Vec<ChunkMeta>) -> (r: Vec<Vec<ChunkMeta>>)
    ensures
        seqs_of(r@) == clusters(sorted@),
{
    let total = sorted.len();
    let ghost s = sorted@;
    let mut rest = sorted;
    let mut done: Vec<Vec<ChunkMeta>> = Vec::new();
    let mut cur: Vec<ChunkMeta> = Vec::new();
    let mut cur_end: i64 = 0;
    let mut k: usize = 0;
    while rest.len() > 0
        invariant
            s.len() == total,
            k + rest@.len() == s.len(),
            rest@ == s.subrange(k as int, s.len() as int),
            k == 0 ==> cur@.len() == 0 && done@.len() == 0,
            k > 0 ==> cur@.len() > 0 && cur_end == max_end(cur@)
                && clusters(s.subrange(0, k as int)) == seqs_of(done@).push(cur@),
        decreases rest@.len(),
    {
        let x = rest.remove(0);
        let ghost pre = s.subrange(0, k as int);
        let ghost next = s.subrange(0, k + 1);
        proof {
            assert(next.drop_last() =~= pre);
            assert(next.last() == x);
        }
        if k > 0 && x.start_ts <= cur_end {
            if x.end_ts > cur_end {
                cur_end = x.end_ts;
            }
            let ghost old_cur = cur@;
            cur.push(x);
            proof {
                assert(cur@.drop_last() =~= old_cur);
                assert(clusters(next) =~= seqs_of(done@).push(cur@));
            }
        } else {
            let ghost old_done = done@;
            let ghost old_cur = cur@;
            if k > 0 {
                let mut fresh: Vec<ChunkMeta> = Vec::new();
                std::mem::swap(&mut fresh, &mut cur);
                done.push(fresh);
                proof {
                    assert(done@.last()@ == old_cur);
                    assert(seqs_of(done@) =~= seqs_of(old_done).push(old_cur));
                    assert(clusters(pre).last() == old_cur);
                }
            }
            cur_end = x.end_ts;
            cur = Vec::new();
            cur.push(x);
            proof {
                assert(cur@ =~= seq![x]);
                let c = clusters(pre);
                if k == 0 {
                    assert(pre =~= Seq::<ChunkMeta>::empty());
                    assert(c =~= Seq::<Seq<ChunkMeta>>::empty());
                    assert(seqs_of(done@) =~= Seq::<Seq<ChunkMeta>>::empty());
                    assert(clusters(next) == c.push(seq![x]));
                } else {
                    assert(c.last() == old_cur);
                    assert(!(x.start_ts <= max_end(c.last())));
                    assert(clusters(next) == c.push(seq![x]));
                    assert(c == seqs_of(done@));
                }
                assert(clusters(next) =~= seqs_of(done@).push(cur@));
            }
        }
        k = k + 1;
        proof {
            assert(rest@ =~= s.subrange(k as int, s.len() as int));
        }
    }
    assert(s.subrange(0, k as int) =~= s);
    if k > 0 {
        let ghost old_done = done@;
        done.push(cur);
        proof {
            assert(seqs_of(done@) =~= seqs_of(old_done).push(done@.last()@));
        }
    } else {
        proof {
            assert(s =~= Seq::<ChunkMeta>::empty());
            assert(seqs_of(done@) =~= Seq::<Seq<ChunkMeta>>::empty());
        }
    }
    done
}

/// The sets of chunks connected by overlap, each of more than one chunk, in start order;
/// within a set, chunks keep start order.
pub fn overlap_groups(chunks: Vec<ChunkMeta>) -> (r: Vec<Vec<ChunkMeta>>)
    ensures
        seqs_of(r@) == overlap_sets(chunks@),
{
    let all = cluster_chunks(sort_chunks_by_start(chunks));
    let ghost cs = seqs_of(all@);
    let mut rest = all;
    let mut out: Vec<Vec<ChunkMeta>> = Vec::new();
    let mut k: usize = 0;
    let n = rest.len();
    while rest.len() > 0
        invariant
            n == cs.len(),
            k + rest@.len() == n,
            seqs_of(rest@) == cs.subrange(k as int, n as int),
            seqs_of(out@) == cs.subrange(0, k as int).filter(is_group()),
        decreases rest@.len(),
    {
        let ghost before_rest = rest@;
        let g = rest.remove(0);
        proof {
            reveal(Seq::filter);
            assert(cs.subrange(0, k + 1).drop_last() =~= cs.subrange(0, k as int));
            assert(seqs_of(before_rest)[0] == g@);
            assert(cs.subrange(0, k + 1).last() == g@);
            assert(seqs_of(rest@) =~= cs.subrange(k + 1, n as int)) by {
                assert forall|q: int| 0 <= q < rest@.len() implies seqs_of(rest@)[q] == cs.subrange(k + 1, n as int)[q] by {
                    assert(rest@[q] == before_rest[q + 1]);
                    assert(seqs_of(before_rest)[q + 1] == cs.subrange(k as int, n as int)[q + 1]);
                }
            }
        }
        if g.len() > 1 {
            let ghost old_out = out@;
            out.push(g);
            proof {
                assert(seqs_of(out@) =~= seqs_of(old_out).push(out@.last()@));
            }
        }
        k = k + 1;
    }
    assert(cs.subrange(0, k as int) =~= cs);
    out
}

/// The path of the winner of the overlap set `g` (meaningful when some chunk of `g`
/// covers the whole window).
pub open spec fn winner_path(g: Seq<ChunkMeta>) -> Seq<char> {
    g[choose|w: int| is_overlap_winner(g, w)].relative_path@
}

/// Chunks whose path is `p`.
pub open spec fn has_path(p: Seq<char>) -> spec_fn(ChunkMeta) -> bool {
    |c: ChunkMeta| c.relative_path@ == p
}

/// A run can be settled: it is one chunk, or one of its chunks covers its whole window.
pub open spec fn run_resolvable(g: Seq<ChunkMeta>) -> bool {
    g.len() <= 1 || exists|j: int| 0 <= j < g.len() && covers_window(#[trigger] g[j], min_start(g), max_end(g))
}

/// What a run keeps: a lone chunk stays; of an overlap set, the chunks with the winner's
/// path.
pub open spec fn run_survivors(g: Seq<ChunkMeta>) -> Seq<ChunkMeta> {
    if g.len() <= 1 { g } else { g.filter(has_path(winner_path(g))) }
}

/// The survivors of each run, one run after another.
pub open spec fn survivors(cs: Seq<Seq<ChunkMeta>>) -> Seq<ChunkMeta>
    decreases cs.len(),
{
    if cs.len() == 0 {
        Seq::empty()
    } else {
        survivors(cs.drop_last()) + run_survivors(cs.last())
    }
}

/// The chunks of one run that it keeps, moved out of `g`; `None` when the run is an
/// overlap set that no chunk covers.
fn settle_run(g: Vec<ChunkMeta>) -> (r: Option<Vec<ChunkMeta>>)
    ensures
        r is Some <==> run_resolvable(g@),
        r matches Some(v) ==> v@ == run_survivors(g@),
{
    if g.len() <= 1 {
        return Some(g);
    }
    let res = choose_surviving_chunk_for_overlap(g.as_slice());
    let winner = match res.winner_relative_path {
        Some(p) => p,
        None => {
            return None;
        },
    };
    let ghost s = g@;
    proof {
        let w = choose|w: int| is_overlap_winner(s, w) && winner@ == s[w].relative_path@;
        let v = choose|v: int| is_overlap_winner(s, v);
        crate::repair::lemma_winner_unique(s, v, w);
        assert(winner_path(s) == winner@);
    }
    let ghost p = has_path(winner@);
    let mut rest = g;
    let mut kept: Vec<ChunkMeta> = Vec::new();
    let mut k: usize = 0;
    while rest.len() > 0
        invariant
            s.len() <= usize::MAX,
            k + rest@.len() == s.len(),
            rest@ == s.subrange(k as int, s.len() as int),
            kept@ == s.subrange(0, k as int).filter(p),
            p == has_path(winner@),
        decreases rest@.len(),
    {
        let c = rest.remove(0);
        proof {
            reveal(Seq::filter);
            assert(s.subrange(0, k + 1).drop_last() =~= s.subrange(0, k as int));
            assert(s.subrange(0, k + 1).last() == c);
        }
        if str_eq(c.relative_path.as_str(), winner.as_str()) {
            kept.push(c);
        }
        k = k + 1;
        proof {
            assert(rest@ =~= s.subrange(k as int, s.len() as int));
        }
    }
    assert(s.subrange(0, k as int) =~= s);
    Some(kept)
}

/// The chunks a rebuilt manifest keeps, in start order: every chunk that overlaps no other,
/// and of each overlap set the chunks with its winner's path. `InvalidData` when some
/// overlap set has no chunk covering its whole window.
pub fn select_non_overlapping_chunks(chunks: Vec<ChunkMeta>) -> (r: Result<Vec<ChunkMeta>>)
    ensures
        r is Ok <==> forall|i: int| 0 <= i < clusters(sort_by_start(chunks@)).len()
            ==> run_resolvable(#[trigger] clusters(sort_by_start(chunks@))[i]),
        r is Err ==> r matches Err(FastKError::InvalidData(_)),
        r matches Ok(v) ==> v@ == survivors(clusters(sort_by_start(chunks@))),
{
    let all = cluster_chunks(sort_chunks_by_start(chunks));
    let ghost cs = seqs_of(all@);
    let mut rest = all;
    let mut out: Vec<ChunkMeta> = Vec::new();
    let mut k: usize = 0;
    let n = rest.len();
    while rest.len() > 0
        invariant
            n == cs.len(),
            k + rest@.len() == n,
            seqs_of(rest@) == cs.subrange(k as int, n as int),
            out@ == survivors(cs.subrange(0, k as int)),
            cs == clusters(sort_by_start(chunks@)),
            forall|i: int| 0 <= i < k ==> run_resolvable(#[trigger] cs[i]),
        decreases rest@.len(),
    {
        let ghost before_rest = rest@;
        let g = rest.remove(0);
        proof {
            assert(cs.subrange(0, k + 1).drop_last() =~= cs.subrange(0, k as int));
            assert(seqs_of(before_rest)[0] == g@);
            assert(cs.subrange(0, k + 1).last() == g@);
            assert(cs[k as int] == g@);
            assert(seqs_of(rest@) =~= cs.subrange(k + 1, n as int)) by {
                assert forall|q: int| 0 <= q < rest@.len() implies seqs_of(rest@)[q] == cs.subrange(k + 1, n as int)[q] by {
                    assert(rest@[q] == before_rest[q + 1]);
                    assert(seqs_of(before_rest)[q + 1] == cs.subrange(k as int, n as int)[q + 1]);
                }
            }
        }
        match settle_run(g) {
            Some(mut kept) => {
                let ghost old_out = out@;
                out.append(&mut kept);
                proof {
                    assert(cs.subrange(0, k + 1).drop_last() =~= cs.subrange(0, k as int));
                    assert(out@ == survivors(cs.subrange(0, k + 1)));
                }
            },
            None => {
                return Err(invalid_data("cannot rebuild manifest because an overlap is ambiguous"));
            },
        }
        k = k + 1;
    }
    assert(cs.subrange(0, k as int) =~= cs);
    Ok(out)
}

/// The paths of each overlap set, sorted within the set.
pub fn overlap_groups_as_strings(chunks: Vec<ChunkMeta>) -> (r: Vec<Vec<String>>)
    ensures
        r@.len() == overlap_sets(chunks@).len(),
        forall|i: int| 0 <= i < r@.len() ==> lex_sorted(string_views(#[trigger] r@[i]@))
            && string_views(r@[i]@).to_multiset() == crate::recovery::chunk_paths(overlap_sets(chunks@)[i]).to_multiset(),
{
    let groups = overlap_groups(chunks);
    let ghost gs = seqs_of(groups@);
    let mut out: Vec<Vec<String>> = Vec::new();
    let mut k: usize = 0;
    while k < groups.len()
        invariant
            k <= groups@.len(),
            gs == seqs_of(groups@),
            gs == overlap_sets(chunks@),
            out@.len() == k,
            forall|i: int| 0 <= i < k ==> lex_sorted(string_views(#[trigger] out@[i]@))
                && string_views(out@[i]@).to_multiset() == crate::recovery::chunk_paths(gs[i]).to_multiset(),
        decreases groups@.len() - k,
    {
        let g = &groups[k];
        let mut paths: Vec<String> = Vec::new();
        let mut j: usize = 0;
        while j < g.len()
            invariant
                j <= g@.len(),
                paths@.len() == j,
                string_views(paths@) == crate::recovery::chunk_paths(g@).subrange(0, j as int),
            decreases g@.len() - j,
        {
            let ghost before = paths@;
            paths.push(crate::text::owned(g[j].relative_path.as_str()));
            proof {
                assert(string_views(paths@) =~= crate::recovery::chunk_paths(g@).subrange(0, j + 1)) by {
                    assert forall|q: int| 0 <= q < j + 1 implies string_views(paths@)[q] == crate::recovery::chunk_paths(g@).subrange(0, j + 1)[q] by {
                        if q < j {
                            assert(paths@[q] == before[q]);
                            assert(string_views(before)[q] == crate::recovery::chunk_paths(g@).subrange(0, j as int)[q]);
                        }
                    }
                }
            }
            j = j + 1;
        }
        assert(crate::recovery::chunk_paths(g@).subrange(0, j as int) =~= crate::recovery::chunk_paths(g@));
        let sorted = sort_strings(paths);
        proof {
            assert(seqs_of(groups@)[k as int] == g@);
        }
        out.push(sorted);
        k = k + 1;
    }
    out
}

} // verus!
