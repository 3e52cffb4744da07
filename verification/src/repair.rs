//! Manifest repair after an interrupted write: merges left dangling, and chunk files found
//! on disk that the manifest does not list.
use vstd::prelude::*;
use crate::meta::{ChunkMeta, ChunkState, ChunkView, PartitionPolicy, PartitionUnit, RecordType, SeriesMeta, SeriesView, chunk_views, chunks_ordered};
use crate::recovery::{
    OverlapResolution, choose_surviving_chunk_for_overlap, covers_window, is_overlap_winner, max_end,
    min_start, outranks, overlapping, ranges_overlap, span_of,
};
use crate::catalog::{Catalog, series_id};
use crate::clock::now_timestamp_ms;
use crate::error::{FastKError, Result, invalid_data};
use crate::header::ChunkHeader;
use crate::predicate::ScalarSeriesKey;
use crate::records::{BboRecord, BookDeltaRecord, TradeRecord, KLINE_SCHEMA_ID, SCALAR_SCHEMA_ID, TRADE_SCHEMA_ID, BBO_SCHEMA_ID, BOOK_DELTA_SCHEMA_ID};
use crate::text::{is_blank_chars, owned};
use crate::manifest::{find_last_active_id, last_active_id, next_manifest_seq, sort_by_start, sort_chunks_by_start};
use crate::recovery::{chunk_paths, RecoveryReport, SeriesOverlapExplanation};
use crate::strorder::string_views;
use crate::text::str_eq;

verus! {

/// Two chunk lists with equal views, entry by entry.
pub open spec fn same_views(g1: Seq<ChunkMeta>, g2: Seq<ChunkMeta>) -> bool {
    g1.len() == g2.len() && forall|j: int| 0 <= j < g1.len() ==> (#[trigger] g1[j])@ == g2[j]@
}

/// The window of chunk lists with equal views is the same.
proof fn lemma_window_by_views(g1: Seq<ChunkMeta>, g2: Seq<ChunkMeta>)
    requires
        same_views(g1, g2),
    ensures
        g1.len() > 0 ==> min_start(g1) == min_start(g2) && max_end(g1) == max_end(g2),
    decreases g1.len(),
{
    if g1.len() > 1 {
        assert(same_views(g1.drop_last(), g2.drop_last())) by {
            assert forall|j: int| 0 <= j < g1.len() - 1 implies (#[trigger] g1.drop_last()[j])@ == g2.drop_last()[j]@ by {
                assert(g1[j]@ == g2[j]@);
            }
        }
        lemma_window_by_views(g1.drop_last(), g2.drop_last());
        assert(g1[g1.len() - 1]@ == g2[g1.len() - 1]@);
    } else if g1.len() == 1 {
        assert(g1[0]@ == g2[0]@);
    }
}

/// Overlap winners, and whether any chunk covers the window, agree for chunk lists with the
/// same views.
proof fn lemma_winner_by_views(g1: Seq<ChunkMeta>, g2: Seq<ChunkMeta>)
    requires
        same_views(g1, g2),
        g1.len() > 0,
    ensures
        forall|w: int| 0 <= w < g1.len() ==> (#[trigger] g1[w]).relative_path@ == g2[w].relative_path@,
        forall|w: int| is_overlap_winner(g1, w) == #[trigger] is_overlap_winner(g2, w),
        (exists|j: int| 0 <= j < g1.len() && covers_window(#[trigger] g1[j], min_start(g1), max_end(g1)))
            == (exists|j: int| 0 <= j < g2.len() && covers_window(#[trigger] g2[j], min_start(g2), max_end(g2))),
{
    lemma_window_by_views(g1, g2);
    assert forall|w: int| is_overlap_winner(g1, w) implies #[trigger] is_overlap_winner(g2, w) by {
        assert(g1[w]@ == g2[w]@);
        assert forall|j: int| 0 <= j < g2.len() && covers_window(#[trigger] g2[j], min_start(g2), max_end(g2))
            implies !outranks(g2[j], g2[w]) && (j < w ==> outranks(g2[w], g2[j])) by {
            assert(g1[j]@ == g2[j]@);
            assert(covers_window(g1[j], min_start(g1), max_end(g1)));
        }
    }
    assert forall|w: int| is_overlap_winner(g2, w) implies #[trigger] is_overlap_winner(g1, w) by {
        assert(g1[w]@ == g2[w]@);
        assert forall|j: int| 0 <= j < g1.len() && covers_window(#[trigger] g1[j], min_start(g1), max_end(g1))
            implies !outranks(g1[j], g1[w]) && (j < w ==> outranks(g1[w], g1[j])) by {
            assert(g1[j]@ == g2[j]@);
            assert(covers_window(g2[j], min_start(g2), max_end(g2)));
        }
    }
    if exists|j: int| 0 <= j < g1.len() && covers_window(#[trigger] g1[j], min_start(g1), max_end(g1)) {
        let j = choose|j: int| 0 <= j < g1.len() && covers_window(#[trigger] g1[j], min_start(g1), max_end(g1));
        assert(g1[j]@ == g2[j]@);
        assert(covers_window(g2[j], min_start(g2), max_end(g2)));
    }
    if exists|j: int| 0 <= j < g2.len() && covers_window(#[trigger] g2[j], min_start(g2), max_end(g2)) {
        let j = choose|j: int| 0 <= j < g2.len() && covers_window(#[trigger] g2[j], min_start(g2), max_end(g2));
        assert(g1[j]@ == g2[j]@);
        assert(covers_window(g1[j], min_start(g1), max_end(g1)));
    }
}

/// An overlap set has at most one winner.
pub proof fn lemma_winner_unique(g: Seq<ChunkMeta>, w1: int, w2: int)
    requires
        is_overlap_winner(g, w1),
        is_overlap_winner(g, w2),
    ensures
        w1 == w2,
{
    if w1 < w2 {
        assert(covers_window(g[w1], min_start(g), max_end(g)));
        assert(outranks(g[w2], g[w1]));
    } else if w2 < w1 {
        assert(covers_window(g[w2], min_start(g), max_end(g)));
        assert(outranks(g[w1], g[w2]));
    }
}

/// The chunk at the end of `g` survives its overlap set: no chunk covers the whole window,
/// or the winner has its path.
pub open spec fn last_survives(g: Seq<ChunkMeta>) -> bool {
    ||| !(exists|j: int| 0 <= j < g.len() && covers_window(#[trigger] g[j], min_start(g), max_end(g)))
    ||| exists|w: int| is_overlap_winner(g, w) && g[w].relative_path@ == g.last().relative_path@
}

/// Whether the resolution of the overlap set `g` keeps its last chunk, whose path is `path`.
fn resolution_keeps(g: &Vec<ChunkMeta>, path: &str) -> (r: bool)
    requires
        g@.len() > 0,
        g@.last().relative_path@ == path@,
    ensures
        r == last_survives(g@),
{
    let res = choose_surviving_chunk_for_overlap(g.as_slice());
    match res.winner_relative_path {
        None => {
            proof {
                if exists|j: int| 0 <= j < g@.len() && covers_window(#[trigger] g@[j], min_start(g@), max_end(g@)) {
                    assert(false);
                }
            }
            true
        },
        Some(p) => {
            let r = str_eq(p.as_str(), path);
            proof {
                let w = choose|w: int| is_overlap_winner(g@, w) && p@ == g@[w].relative_path@;
                if exists|v: int| is_overlap_winner(g@, v) && g@[v].relative_path@ == g@.last().relative_path@ {
                    let v = choose|v: int| is_overlap_winner(g@, v) && g@[v].relative_path@ == g@.last().relative_path@;
                    lemma_winner_unique(g@, v, w);
                }
            }
            r
        },
    }
}

/// `x` may take the place of `c`: another path, a higher generation and an overlapping span.
pub open spec fn rival_of(c: ChunkMeta) -> spec_fn(ChunkMeta) -> bool {
    |x: ChunkMeta| x.relative_path@ != c.relative_path@ && x.generation > c.generation
        && overlapping(x.start_ts, x.end_ts, c.start_ts, c.end_ts)
}

/// The overlap set a merging chunk is judged in: its rivals among `s`, in order, then itself.
pub open spec fn rival_group(s: Seq<ChunkMeta>, i: int) -> Seq<ChunkMeta> {
    s.filter(rival_of(s[i])).push(s[i])
}

/// The state a chunk takes when it is kept: `Active` when it is the manifest's active
/// chunk, else `Sealed`.
pub open spec fn settled_state(active_chunk_id: Option<u64>, c: ChunkMeta) -> ChunkState {
    if active_chunk_id == Some(c.chunk_id) { ChunkState::Active } else { ChunkState::Sealed }
}

/// The merging chunk at `i` was left by an unfinished merge: no rival output took its place.
pub open spec fn dangling_merge(s: Seq<ChunkMeta>, i: int) -> bool {
    s[i].state is Merging && last_survives(rival_group(s, i))
}

/// The entry at `i` after repair: a dangling merging chunk is settled, all else is kept.
pub open spec fn repaired_chunk(s: Seq<ChunkMeta>, active_chunk_id: Option<u64>, i: int) -> ChunkView {
    if dangling_merge(s, i) {
        ChunkView { state: settled_state(active_chunk_id, s[i]), ..s[i]@ }
    } else {
        s[i]@
    }
}

/// Copies of the rivals of `all[i]` among `all`, then of `all[i]` itself.
fn rival_group_of(all: &Vec<ChunkMeta>, i: usize) -> (r: Vec<ChunkMeta>)
    requires
        i < all@.len(),
    ensures
        same_views(r@, rival_group(all@, i as int)),
{
    let c = &all[i];
    let ghost p = rival_of(all@[i as int]);
    let mut g: Vec<ChunkMeta> = Vec::new();
    let mut k: usize = 0;
    while k < all.len()
        invariant
            k <= all@.len(),
            i < all@.len(),
            *c == all@[i as int],
            p == rival_of(all@[i as int]),
            same_views(g@, all@.subrange(0, k as int).filter(p)),
        decreases all@.len() - k,
    {
        let x = &all[k];
        let ghost pre = all@.subrange(0, k as int);
        let ghost next = all@.subrange(0, k + 1);
        proof {
            reveal(Seq::filter);
            assert(next.drop_last() =~= pre);
            assert(next.last() == all@[k as int]);
        }
        if !str_eq(x.relative_path.as_str(), c.relative_path.as_str()) && x.generation > c.generation
            && ranges_overlap(x.start_ts, x.end_ts, c.start_ts, c.end_ts) {
            let ghost before = g@;
            g.push(x.duplicate());
            proof {
                assert(p(all@[k as int]));
                assert(next.filter(p) == pre.filter(p).push(all@[k as int]));
                assert forall|q: int| 0 <= q < g@.len() implies (#[trigger] g@[q])@ == next.filter(p)[q]@ by {
                    if q < before.len() {
                        assert(g@[q] == before[q]);
                    }
                }
            }
        } else {
            proof {
                assert(!p(all@[k as int]));
                assert(next.filter(p) == pre.filter(p));
            }
        }
        k = k + 1;
    }
    assert(all@.subrange(0, k as int) =~= all@);
    let ghost before = g@;
    g.push(c.duplicate());
    proof {
        let f = all@.filter(p);
        assert forall|q: int| 0 <= q < g@.len() implies (#[trigger] g@[q])@ == f.push(all@[i as int])[q]@ by {
            if q < before.len() {
                assert(g@[q] == before[q]);
            }
        }
    }
    g
}

/// Settles merging chunks left by an interrupted merge: a merging chunk that no higher
/// generation chunk covering its overlap set replaces goes back to `Active` when it is the
/// manifest's active chunk, else to `Sealed`. Returns whether any chunk changed.
pub fn normalize_dangling_merging_states(meta: &mut SeriesMeta) -> (changed: bool)
    ensures
        final(meta).chunks@.len() == old(meta).chunks@.len(),
        forall|i: int| 0 <= i < old(meta).chunks@.len() ==> (#[trigger] final(meta).chunks@[i])@
            == repaired_chunk(old(meta).chunks@, old(meta).active_chunk_id, i),
        final(meta)@ == (SeriesView { chunks: final(meta)@.chunks, ..old(meta)@ }),
        changed == exists|i: int| 0 <= i < old(meta).chunks@.len() && #[trigger] dangling_merge(old(meta).chunks@, i),
{
    let mut all: Vec<ChunkMeta> = Vec::new();
    std::mem::swap(&mut all, &mut meta.chunks);
    let n = all.len();
    let mut out: Vec<ChunkMeta> = Vec::new();
    let mut changed = false;
    let mut i: usize = 0;
    while i < n
        invariant
            n == all@.len(),
            all@ == old(meta).chunks@,
            i <= n,
            out@.len() == i,
            meta.active_chunk_id == old(meta).active_chunk_id,
            forall|j: int| 0 <= j < i ==> (#[trigger] out@[j])@ == repaired_chunk(all@, old(meta).active_chunk_id, j),
            changed == exists|j: int| 0 <= j < i && #[trigger] dangling_merge(all@, j),
        decreases n - i,
    {
        let c = &all[i];
        let mut keep = false;
        match c.state {
            ChunkState::Merging => {
                let g = rival_group_of(&all, i);
                proof {
                    lemma_winner_by_views(g@, rival_group(all@, i as int));
                    assert(g@.last().relative_path@ == all@[i as int].relative_path@) by {
                        assert(g@[g@.len() - 1]@ == rival_group(all@, i as int)[g@.len() - 1]@);
                    }
                    assert(last_survives(g@) == last_survives(rival_group(all@, i as int))) by {
                        let r = rival_group(all@, i as int);
                        assert(g@.last().relative_path@ == r.last().relative_path@);
                        if exists|w: int| is_overlap_winner(g@, w) && g@[w].relative_path@ == g@.last().relative_path@ {
                            let w = choose|w: int| is_overlap_winner(g@, w) && g@[w].relative_path@ == g@.last().relative_path@;
                            assert(is_overlap_winner(r, w));
                            assert(g@[w].relative_path@ == r[w].relative_path@);
                        }
                        if exists|w: int| is_overlap_winner(r, w) && r[w].relative_path@ == r.last().relative_path@ {
                            let w = choose|w: int| is_overlap_winner(r, w) && r[w].relative_path@ == r.last().relative_path@;
                            assert(is_overlap_winner(g@, w));
                            assert(g@[w].relative_path@ == r[w].relative_path@);
                        }
                    }
                }
                keep = resolution_keeps(&g, c.relative_path.as_str());
            },
            _ => {},
        }
        let mut d = c.duplicate();
        if keep {
            d.state = match meta.active_chunk_id {
                Some(id) => if id == c.chunk_id { ChunkState::Active } else { ChunkState::Sealed },
                None => ChunkState::Sealed,
            };
            changed = true;
        }
        let ghost before = out@;
        out.push(d);
        proof {
            assert(keep == dangling_merge(all@, i as int));
            assert forall|j: int| 0 <= j < i + 1 implies (#[trigger] out@[j])@ == repaired_chunk(all@, old(meta).active_chunk_id, j) by {
                if j < i {
                    assert(out@[j] == before[j]);
                }
            }
        }
        i = i + 1;
    }
    meta.chunks = out;
    proof {
        assert(meta@.chunks =~= chunk_views(meta.chunks@));
    }
    changed
}

} // verus!

verus! {

/// `x` shares at least one instant with `c`.
pub open spec fn overlaps_chunk(c: ChunkMeta) -> spec_fn(ChunkMeta) -> bool {
    |x: ChunkMeta| overlapping(x.start_ts, x.end_ts, c.start_ts, c.end_ts)
}

/// `x` shares no instant with `c`.
pub open spec fn clear_of(c: ChunkMeta) -> spec_fn(ChunkMeta) -> bool {
    |x: ChunkMeta| !overlapping(x.start_ts, x.end_ts, c.start_ts, c.end_ts)
}

/// Some entry of `s` has the path of `c`.
pub open spec fn path_listed(s: Seq<ChunkMeta>, c: ChunkMeta) -> bool {
    exists|i: int| 0 <= i < s.len() && (#[trigger] s[i]).relative_path@ == c.relative_path@
}

/// The last chunk of the overlap set `g` is its winner.
pub open spec fn last_wins(g: Seq<ChunkMeta>) -> bool {
    exists|w: int| is_overlap_winner(g, w) && g[w].relative_path@ == g.last().relative_path@
}

/// What became of a chunk file found on disk.
#[derive(Debug, Clone, PartialEq, Eq)]
pub enum Adoption {
    /// The manifest already lists its path; nothing changed.
    AlreadyListed,
    /// It overlaps no listed chunk and was appended.
    Adopted,
    /// It won the overlap with the listed chunks it meets, which it replaced.
    Replaced(OverlapResolution),
    /// It lost the overlap with the listed chunks it meets; nothing changed.
    Rejected(OverlapResolution),
}

/// Adopts a chunk file found on disk into the manifest's list (order is restored by
/// `finish_recovered_meta`): a listed path is left alone, a chunk that overlaps nothing is
/// appended, and one that overlaps listed chunks replaces them only when it wins the
/// overlap set made of them, in list order, and itself.
pub fn adopt_candidate(meta: &mut SeriesMeta, candidate: ChunkMeta) -> (r: Adoption)
    ensures
        ({
            let s = old(meta).chunks@;
            let ov = s.filter(overlaps_chunk(candidate));
            &&& path_listed(s, candidate) ==> r is AlreadyListed && final(meta).chunks@ == s
            &&& !path_listed(s, candidate) && ov.len() == 0 ==> r is Adopted && final(meta).chunks@ == s.push(candidate)
            &&& !path_listed(s, candidate) && ov.len() > 0 && last_wins(ov.push(candidate)) ==> (r matches Adoption::Replaced(res)
                && final(meta).chunks@ == s.filter(clear_of(candidate)).push(candidate)
                && (res.winner_relative_path matches Some(p) && p@ == candidate.relative_path@))
            &&& !path_listed(s, candidate) && ov.len() > 0 && !last_wins(ov.push(candidate)) ==> (r matches Adoption::Rejected(res)
                && final(meta).chunks@ == s
                && !(res.winner_relative_path matches Some(p) && p@ == candidate.relative_path@))
            &&& r matches Adoption::Replaced(res) ==> string_views(res.participants@).to_multiset()
                == chunk_paths(ov.push(candidate)).to_multiset()
            &&& r matches Adoption::Rejected(res) ==> string_views(res.participants@).to_multiset()
                == chunk_paths(ov.push(candidate)).to_multiset()
        }),
        final(meta)@ == (SeriesView { chunks: final(meta)@.chunks, ..old(meta)@ }),
{
    let ghost s = meta.chunks@;
    let ghost p = overlaps_chunk(candidate);
    let mut k: usize = 0;
    while k < meta.chunks.len()
        invariant
            k <= meta.chunks@.len(),
            meta.chunks@ == s,
            forall|j: int| 0 <= j < k ==> (#[trigger] s[j]).relative_path@ != candidate.relative_path@,
        decreases meta.chunks@.len() - k,
    {
        if str_eq(meta.chunks[k].relative_path.as_str(), candidate.relative_path.as_str()) {
            return Adoption::AlreadyListed;
        }
        k = k + 1;
    }
    assert(!path_listed(s, candidate));
    let mut g: Vec<ChunkMeta> = Vec::new();
    let mut k: usize = 0;
    while k < meta.chunks.len()
        invariant
            k <= meta.chunks@.len(),
            meta.chunks@ == s,
            p == overlaps_chunk(candidate),
            same_views(g@, s.subrange(0, k as int).filter(p)),
        decreases meta.chunks@.len() - k,
    {
        let x = &meta.chunks[k];
        let ghost pre = s.subrange(0, k as int);
        let ghost next = s.subrange(0, k + 1);
        proof {
            reveal(Seq::filter);
            assert(next.drop_last() =~= pre);
            assert(next.last() == s[k as int]);
        }
        if ranges_overlap(x.start_ts, x.end_ts, candidate.start_ts, candidate.end_ts) {
            let ghost before = g@;
            g.push(x.duplicate());
            proof {
                assert(p(s[k as int]));
                assert(next.filter(p) == pre.filter(p).push(s[k as int]));
                assert forall|q: int| 0 <= q < g@.len() implies (#[trigger] g@[q])@ == next.filter(p)[q]@ by {
                    if q < before.len() {
                        assert(g@[q] == before[q]);
                    }
                }
            }
        } else {
            proof {
                assert(next.filter(p) == pre.filter(p));
            }
        }
        k = k + 1;
    }
    assert(s.subrange(0, k as int) =~= s);
    let ghost ov = s.filter(p);
    if g.len() == 0 {
        meta.chunks.push(candidate);
        proof {
            assert(meta@.chunks =~= chunk_views(meta.chunks@));
        }
        return Adoption::Adopted;
    }
    let ghost before = g@;
    g.push(candidate.duplicate());
    let ghost full = ov.push(candidate);
    proof {
        assert forall|q: int| 0 <= q < g@.len() implies (#[trigger] g@[q])@ == full[q]@ by {
            if q < before.len() {
                assert(g@[q] == before[q]);
            }
        }
        assert(same_views(g@, full));
        lemma_winner_by_views(g@, full);
        assert(chunk_paths(g@) =~= chunk_paths(full)) by {
            assert forall|q: int| 0 <= q < g@.len() implies chunk_paths(g@)[q] == chunk_paths(full)[q] by {
                assert(g@[q]@ == full[q]@);
            }
        }
    }
    let res = choose_surviving_chunk_for_overlap(g.as_slice());
    let wins = match &res.winner_relative_path {
        Some(w) => str_eq(w.as_str(), candidate.relative_path.as_str()),
        None => false,
    };
    proof {
        if wins {
            let w = choose|w: int| is_overlap_winner(g@, w) && (res.winner_relative_path matches Some(q) && q@ == g@[w].relative_path@);
            assert(is_overlap_winner(full, w));
            assert(last_wins(full));
        }
        if last_wins(full) {
            let v = choose|v: int| is_overlap_winner(full, v) && full[v].relative_path@ == full.last().relative_path@;
            assert(is_overlap_winner(g@, v));
            assert(exists|j: int| 0 <= j < g@.len() && covers_window(#[trigger] g@[j], min_start(g@), max_end(g@)));
            let w = choose|w: int| is_overlap_winner(g@, w) && (res.winner_relative_path matches Some(q) && q@ == g@[w].relative_path@);
            lemma_winner_unique(g@, v, w);
        }
    }
    if !wins {
        return Adoption::Rejected(res);
    }
    let mut rest: Vec<ChunkMeta> = Vec::new();
    std::mem::swap(&mut rest, &mut meta.chunks);
    let ghost q = clear_of(candidate);
    let mut kept: Vec<ChunkMeta> = Vec::new();
    let mut k: usize = 0;
    let n = rest.len();
    while rest.len() > 0
        invariant
            n == s.len(),
            k + rest@.len() == s.len(),
            rest@ == s.subrange(k as int, s.len() as int),
            kept@ == s.subrange(0, k as int).filter(q),
            q == clear_of(candidate),
        decreases rest@.len(),
    {
        let c = rest.remove(0);
        proof {
            reveal(Seq::filter);
            assert(s.subrange(0, k + 1).drop_last() =~= s.subrange(0, k as int));
            assert(s.subrange(0, k + 1).last() == c);
        }
        if !ranges_overlap(c.start_ts, c.end_ts, candidate.start_ts, candidate.end_ts) {
            kept.push(c);
        }
        k = k + 1;
        proof {
            assert(rest@ =~= s.subrange(k as int, s.len() as int));
        }
    }
    assert(s.subrange(0, k as int) =~= s);
    kept.push(candidate);
    meta.chunks = kept;
    proof {
        assert(meta@.chunks =~= chunk_views(meta.chunks@));
    }
    Adoption::Replaced(res)
}

/// Puts a repaired manifest in order: chunks sorted by start (entries with equal starts
/// keep their order), the last `Active` chunk made the active one, the sequence bumped
/// and the update time stamped.
pub fn finish_recovered_meta(meta: &mut SeriesMeta)
    ensures
        final(meta).chunks@ == sort_by_start(old(meta).chunks@),
        final(meta).active_chunk_id == last_active_id(final(meta).chunks@),
        final(meta).manifest_seq == next_manifest_seq(old(meta).manifest_seq),
        final(meta)@ == (SeriesView {
            chunks: final(meta)@.chunks,
            active_chunk_id: final(meta).active_chunk_id,
            manifest_seq: final(meta).manifest_seq,
            updated_at: final(meta).updated_at,
            ..old(meta)@
        }),
{
    let mut chunks: Vec<ChunkMeta> = Vec::new();
    std::mem::swap(&mut chunks, &mut meta.chunks);
    meta.chunks = sort_chunks_by_start(chunks);
    meta.active_chunk_id = find_last_active_id(&meta.chunks);
    meta.manifest_seq = meta.manifest_seq.saturating_add(1);
    meta.updated_at = now_timestamp_ms();
}

} // verus!

verus! {

/// The record type a chunk header's schema id names.
pub open spec fn record_type_for_schema(schema_id: u32) -> Option<RecordType> {
    if schema_id == KLINE_SCHEMA_ID {
        Some(RecordType::Kline)
    } else if schema_id == SCALAR_SCHEMA_ID {
        Some(RecordType::Scalar)
    } else if schema_id == TRADE_SCHEMA_ID {
        Some(RecordType::Trade)
    } else if schema_id == BBO_SCHEMA_ID {
        Some(RecordType::Bbo)
    } else if schema_id == BOOK_DELTA_SCHEMA_ID {
        Some(RecordType::BookDelta)
    } else {
        None
    }
}

/// The partition unit a rebuilt series of record type `t` gets: months for klines and
/// scalars, days for quotes, hours for trades and book deltas.
pub open spec fn rebuilt_unit(t: RecordType) -> PartitionUnit {
    match t {
        RecordType::Kline => PartitionUnit::Month,
        RecordType::Scalar => PartitionUnit::Month,
        RecordType::Bbo => PartitionUnit::Day,
        _ => PartitionUnit::Hour,
    }
}

/// The larger of two identifiers.
pub open spec fn max_u64(a: u64, b: u64) -> u64 {
    if a >= b { a } else { b }
}

/// The manifest rebuilt, at time `t`, for series `(symbol, category, name)` from the header
/// of its first chunk file and the chunk entries kept: identity from the directory, record
/// layout from the header, unit scales, sequence 1.
pub open spec fn rebuilt_series(symbol: Seq<char>, category: Seq<char>, name: Seq<char>, h: ChunkHeader, chunks: Seq<ChunkMeta>, t: i64) -> SeriesView {
    let rt = record_type_for_schema(h.schema_id)->Some_0;
    SeriesView {
        symbol,
        category,
        name,
        timeframe_ms: h.timeframe_ms,
        record_type: rt,
        record_size: h.record_size,
        schema_id: h.schema_id,
        price_scale: 1,
        volume_scale: 1,
        chunk_unit: rebuilt_unit(rt).name(),
        series_id: max_u64(h.series_id, series_id(symbol, category, name)),
        manifest_seq: 1,
        created_at: t,
        updated_at: t,
        flags: 0,
        active_chunk_id: last_active_id(chunks),
        chunks: chunk_views(chunks),
    }
}

/// The conditions under which the rebuilt manifest validates.
pub open spec fn rebuild_valid(symbol: Seq<char>, category: Seq<char>, name: Seq<char>, h: ChunkHeader, chunks: Seq<ChunkMeta>) -> bool {
    &&& !is_blank_chars(symbol)
    &&& !is_blank_chars(category)
    &&& !is_blank_chars(name)
    &&& h.record_size > 0
    &&& forall|i: int| 0 <= i < chunks.len() ==> #[trigger] chunks[i].valid()
    &&& chunks_ordered(chunks)
}

/// Rebuilds a series manifest from the chunk files that survive: `InvalidData` for a schema
/// id that names no record type, or when the result does not validate.
pub fn rebuild_series_meta(symbol: &str, category: &str, name: &str, header: &ChunkHeader, chunks: Vec<ChunkMeta>) -> (r: Result<SeriesMeta>)
    ensures
        r is Ok <==> record_type_for_schema(header.schema_id) is Some
            && rebuild_valid(symbol@, category@, name@, *header, chunks@),
        r is Err ==> r matches Err(FastKError::InvalidData(_)),
        r matches Ok(m) ==> m@ == rebuilt_series(symbol@, category@, name@, *header, chunks@, m.created_at) && m.valid(),
{
    let mut meta = if header.schema_id == KLINE_SCHEMA_ID {
        Catalog::build_kline_meta(symbol, name, header.timeframe_ms, 1, 1)
    } else if header.schema_id == SCALAR_SCHEMA_ID {
        let key = ScalarSeriesKey { symbol: owned(symbol), category: owned(category), name: owned(name) };
        Catalog::build_scalar_meta(&key, header.timeframe_ms)
    } else if header.schema_id == TRADE_SCHEMA_ID {
        Catalog::build_fixed_meta::<TradeRecord>(symbol, category, name, header.timeframe_ms, &PartitionPolicy::hour())
    } else if header.schema_id == BBO_SCHEMA_ID {
        Catalog::build_fixed_meta::<BboRecord>(symbol, category, name, header.timeframe_ms, &PartitionPolicy::day())
    } else if header.schema_id == BOOK_DELTA_SCHEMA_ID {
        Catalog::build_fixed_meta::<BookDeltaRecord>(symbol, category, name, header.timeframe_ms, &PartitionPolicy::hour())
    } else {
        return Err(invalid_data("unsupported schema_id during recovery"));
    };
    meta.category = owned(category);
    meta.record_size = header.record_size;
    meta.schema_id = header.schema_id;
    let derived_id = Catalog::series_id_for(symbol, category, name);
    meta.series_id = if header.series_id >= derived_id { header.series_id } else { derived_id };
    meta.chunks = chunks;
    meta.active_chunk_id = find_last_active_id(&meta.chunks);
    meta.manifest_seq = 1;
    meta.updated_at = now_timestamp_ms();
    meta.created_at = meta.updated_at;
    proof {
        assert(meta@ == rebuilt_series(symbol@, category@, name@, *header, chunks@, meta.created_at));
        assert(meta.valid() <==> rebuild_valid(symbol@, category@, name@, *header, chunks@)) by {
            reveal_strlit("month");
            reveal_strlit("day");
            reveal_strlit("hour");
        }
    }
    meta.validate()?;
    Ok(meta)
}

/// The report with its fields other than the adoption counters and lists unchanged.
pub open spec fn same_report_rest(a: RecoveryReport, b: RecoveryReport) -> bool {
    &&& a.removed_temp_files == b.removed_temp_files
    &&& a.rebuilt_manifests == b.rebuilt_manifests
    &&& a.dry_run == b.dry_run
    &&& a.removed_temp_paths == b.removed_temp_paths
    &&& a.rebuilt_manifest_paths == b.rebuilt_manifest_paths
}

/// Records in `report` what adopting a chunk file of series `series_dir` did: an appended or
/// winning chunk counts as adopted, a winner's path `adopted_path` is listed, and each
/// overlap decision is kept with its series. Returns whether the manifest changed.
pub fn note_adoption(report: &mut RecoveryReport, series_dir: &str, adopted_path: &str, adoption: Adoption) -> (r: bool)
    requires
        (adoption is Adopted || adoption is Replaced) ==> old(report).adopted_chunks < usize::MAX,
    ensures
        r == (adoption is Adopted || adoption is Replaced),
        final(report).adopted_chunks == old(report).adopted_chunks + (if r { 1int } else { 0int }),
        same_report_rest(*final(report), *old(report)),
        !(adoption is Replaced) ==> final(report).adopted_chunk_paths@ == old(report).adopted_chunk_paths@,
        adoption is Replaced ==> final(report).adopted_chunk_paths@.len() == old(report).adopted_chunk_paths@.len() + 1
            && final(report).adopted_chunk_paths@.drop_last() == old(report).adopted_chunk_paths@
            && final(report).adopted_chunk_paths@.last()@ == adopted_path@,
        (adoption is AlreadyListed || adoption is Adopted) ==> final(report).overlap_resolutions@ == old(report).overlap_resolutions@,
        adoption matches Adoption::Replaced(res) ==> (final(report).overlap_resolutions@ == old(report).overlap_resolutions@.push(
            SeriesOverlapExplanation { series_dir: final(report).overlap_resolutions@.last().series_dir, resolution: res },
        ) && final(report).overlap_resolutions@.last().series_dir@ == series_dir@),
        adoption matches Adoption::Rejected(res) ==> (final(report).overlap_resolutions@ == old(report).overlap_resolutions@.push(
            SeriesOverlapExplanation { series_dir: final(report).overlap_resolutions@.last().series_dir, resolution: res },
        ) && final(report).overlap_resolutions@.last().series_dir@ == series_dir@),
{
    match adoption {
        Adoption::AlreadyListed => false,
        Adoption::Adopted => {
            report.adopted_chunks = report.adopted_chunks + 1;
            true
        },
        Adoption::Replaced(resolution) => {
            report.adopted_chunks = report.adopted_chunks + 1;
            report.adopted_chunk_paths.push(owned(adopted_path));
            report.overlap_resolutions.push(SeriesOverlapExplanation { series_dir: owned(series_dir), resolution });
            true
        },
        Adoption::Rejected(resolution) => {
            report.overlap_resolutions.push(SeriesOverlapExplanation { series_dir: owned(series_dir), resolution });
            false
        },
    }
}

/// Records in `report` that the manifest of series `series_dir` was rebuilt.
pub fn note_rebuilt_manifest(report: &mut RecoveryReport, series_dir: &str)
    requires
        old(report).rebuilt_manifests < usize::MAX,
    ensures
        final(report).rebuilt_manifests == old(report).rebuilt_manifests + 1,
        final(report).rebuilt_manifest_paths@.drop_last() == old(report).rebuilt_manifest_paths@,
        final(report).rebuilt_manifest_paths@.len() == old(report).rebuilt_manifest_paths@.len() + 1,
        final(report).rebuilt_manifest_paths@.last()@ == series_dir@,
        final(report).removed_temp_files == old(report).removed_temp_files,
        final(report).adopted_chunks == old(report).adopted_chunks,
        final(report).dry_run == old(report).dry_run,
        final(report).removed_temp_paths == old(report).removed_temp_paths,
        final(report).adopted_chunk_paths == old(report).adopted_chunk_paths,
        final(report).overlap_resolutions == old(report).overlap_resolutions,
{
    report.rebuilt_manifests = report.rebuilt_manifests + 1;
    report.rebuilt_manifest_paths.push(owned(series_dir));
}

} // verus!
