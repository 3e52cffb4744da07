//! Per-chunk steps of scalar predicate and timestamp queries. Loading sidecars and reading
//! rows is the caller's part; these steps decide what to read, count the work, and pick the
//! matches out of what was read.
use vstd::prelude::*;
use crate::error::{FastKError, Result, invalid_data};
use crate::meta::ChunkMeta;
use crate::predicate::{
    ScalarIndexKind, ScalarPredicate, ScalarPredicateMatch, ScalarPredicateQuery, ScalarPredicateQueryResult,
    ScalarPredicateQueryStats,
};
use crate::records::ScalarRecord;
use crate::store::{
    range_end, range_start, chunk_has_kind, combined_index, has_sidecar_kind, mark_index_used, merge_row_ranges, merge_sorted_ranges,
    range_pairs, sort_pairs,
};
use crate::vix::{ValueIndexEntry, covered, matching_slices_for_expr, must_visit, values_sorted, vix_plan};
use crate::zmap::{ZoneMapEntry, candidate_row_ranges, candidate_row_ranges_for_expr, candidates, candidates_for_expr};

verus! {

/// Number of zone-map blocks whose time span meets `[start_ts, end_ts]`.
pub open spec fn blocks_in_window(entries: Seq<ZoneMapEntry>, start_ts: i64, end_ts: i64) -> nat
    decreases entries.len(),
{
    if entries.len() == 0 {
        0
    } else {
        blocks_in_window(entries.drop_last(), start_ts, end_ts) + if crate::zmap::in_window(entries.last(), start_ts, end_ts) {
            1nat
        } else {
            0nat
        }
    }
}

/// The row ranges `(start_row, end_row)` of zone-map blocks.
pub open spec fn block_rows(blocks: Seq<ZoneMapEntry>) -> Seq<(u32, u32)> {
    blocks.map_values(|e: ZoneMapEntry| (e.start_row, e.end_row))
}

/// The counters after the zone-map step on a chunk whose window meets `considered` blocks,
/// of which `kept` may match, read as `scanned` merged ranges.
pub open spec fn after_zmap_step(s: ScalarPredicateQueryStats, considered: u64, kept: u64, scanned: u64) -> ScalarPredicateQueryStats {
    ScalarPredicateQueryStats {
        index_used: s.index_used,
        chunks_considered: s.chunks_considered,
        chunks_pruned: if kept == 0 { s.chunks_pruned.saturating_add(1) } else { s.chunks_pruned },
        chunks_scanned: if kept == 0 { s.chunks_scanned } else { s.chunks_scanned.saturating_add(1) },
        blocks_considered: s.blocks_considered.saturating_add(considered),
        blocks_pruned: s.blocks_pruned.saturating_add(considered.saturating_sub(kept)),
        blocks_scanned: if kept == 0 { s.blocks_scanned } else { s.blocks_scanned.saturating_add(scanned) },
        rows_checked: s.rows_checked,
        rows_matched: s.rows_matched,
        fallback_scan: s.fallback_scan,
    }
}

/// The counters with `n` more rows checked.
pub open spec fn rows_checked_plus(s: ScalarPredicateQueryStats, n: u64) -> ScalarPredicateQueryStats {
    ScalarPredicateQueryStats { rows_checked: s.rows_checked.saturating_add(n), ..s }
}

/// The match a query reports for record `(ts, value)`.
pub open spec fn match_of(ts: i64, value: i64, return_values: bool) -> ScalarPredicateMatch {
    ScalarPredicateMatch { ts, value: if return_values { Some(value) } else { None } }
}

/// A record within the query's window whose value satisfies its predicate.
pub open spec fn query_hit(q: ScalarPredicateQuery, ts: i64, value: i64) -> bool {
    q.start_ts <= ts && ts <= q.end_ts && q.predicate.holds(value)
}

/// The matches of `records` for query `q`, in the records' order; `windowed` says whether
/// the window is checked here or was applied by the read.
pub open spec fn record_matches(records: Seq<ScalarRecord>, q: ScalarPredicateQuery, windowed: bool) -> Seq<ScalarPredicateMatch>
    decreases records.len(),
{
    if records.len() == 0 {
        Seq::empty()
    } else {
        let rest = record_matches(records.drop_last(), q, windowed);
        let x = records.last();
        if (if windowed { query_hit(q, x.ts, x.value) } else { q.predicate.holds(x.value) }) {
            rest.push(match_of(x.ts, x.value, q.return_values))
        } else {
            rest
        }
    }
}

/// Counts the zone-map blocks whose time span meets `[start_ts, end_ts]`.
fn count_blocks_in_window(entries: &[ZoneMapEntry], start_ts: i64, end_ts: i64) -> (r: u64)
    ensures
        r == blocks_in_window(entries@, start_ts, end_ts),
{
    let mut n: usize = 0;
    let mut k: usize = 0;
    while k < entries.len()
        invariant
            k <= entries@.len(),
            n <= k,
            n == blocks_in_window(entries@.subrange(0, k as int), start_ts, end_ts),
        decreases entries@.len() - k,
    {
        proof {
            assert(entries@.subrange(0, k + 1).drop_last() =~= entries@.subrange(0, k as int));
        }
        if entries[k].end_ts >= start_ts && entries[k].start_ts <= end_ts {
            n = n + 1;
        }
        k = k + 1;
    }
    assert(entries@.subrange(0, k as int) =~= entries@);
    n as u64
}

/// Zone-map step of a predicate query on one chunk: counts the blocks the query window
/// meets, prunes those the predicate rules out, and returns the merged row ranges left to
/// read, none when the chunk is pruned.
pub fn plan_zmap_predicate_scan(entries: &[ZoneMapEntry], query: &ScalarPredicateQuery, stats: &mut ScalarPredicateQueryStats) -> (r: Result<Vec<core::ops::RangeInclusive<u32>>>)
    ensures
        !query.predicate.well_formed() ==> (r matches Err(FastKError::InvalidInput(_))) && *final(stats) == (ScalarPredicateQueryStats {
            blocks_considered: old(stats).blocks_considered.saturating_add(blocks_in_window(entries@, query.start_ts, query.end_ts) as u64),
            ..*old(stats)
        }),
        query.predicate.well_formed() ==> (r matches Ok(v) && {
            let kept = candidates_for_expr(entries@, query.predicate, query.start_ts, query.end_ts);
            &&& kept.len() == 0 ==> v@.len() == 0
            &&& kept.len() > 0 ==> range_pairs(v@) == merge_sorted_ranges(sort_pairs(block_rows(kept)))
            &&& forall|k: int| 0 <= k < v@.len() ==> !(#[trigger] v@[k])@.exhausted
            &&& *final(stats) == after_zmap_step(
                *old(stats),
                blocks_in_window(entries@, query.start_ts, query.end_ts) as u64,
                kept.len() as u64,
                v@.len() as u64,
            )
        }),
{
    let considered = count_blocks_in_window(entries, query.start_ts, query.end_ts);
    stats.blocks_considered = stats.blocks_considered.saturating_add(considered);
    let row_ranges = candidate_row_ranges_for_expr(entries, &query.predicate, query.start_ts, query.end_ts)?;
    let kept = row_ranges.len() as u64;
    stats.blocks_pruned = stats.blocks_pruned.saturating_add(considered.saturating_sub(kept));
    if row_ranges.len() == 0 {
        stats.chunks_pruned = stats.chunks_pruned.saturating_add(1);
        return Ok(Vec::new());
    }
    let merged = merge_row_ranges(row_ranges.as_slice());
    proof {
        let cands = candidates_for_expr(entries@, query.predicate, query.start_ts, query.end_ts);
        assert(range_pairs(row_ranges@) =~= block_rows(cands));
    }
    stats.blocks_scanned = stats.blocks_scanned.saturating_add(merged.len() as u64);
    stats.chunks_scanned = stats.chunks_scanned.saturating_add(1);
    Ok(merged)
}

/// Picks the matches out of rows read for a chunk: records within the query window whose
/// value satisfies the predicate, in order, each counted as checked.
pub fn collect_window_matches(records: &[ScalarRecord], query: &ScalarPredicateQuery, matches: &mut Vec<ScalarPredicateMatch>, stats: &mut ScalarPredicateQueryStats)
    ensures
        final(matches)@ == old(matches)@ + record_matches(records@, *query, true),
        *final(stats) == rows_checked_plus(*old(stats), records@.len() as u64),
{
    stats.rows_checked = stats.rows_checked.saturating_add(records.len() as u64);
    let ghost start = matches@;
    let mut k: usize = 0;
    while k < records.len()
        invariant
            k <= records@.len(),
            matches@ == start + record_matches(records@.subrange(0, k as int), *query, true),
        decreases records@.len() - k,
    {
        proof {
            assert(records@.subrange(0, k + 1).drop_last() =~= records@.subrange(0, k as int));
            assert(records@.subrange(0, k + 1).last() == records@[k as int]);
        }
        let x = records[k];
        if x.ts >= query.start_ts && x.ts <= query.end_ts && query.predicate.matches(x.value) {
            matches.push(ScalarPredicateMatch { ts: x.ts, value: if query.return_values { Some(x.value) } else { None } });
        }
        k = k + 1;
    }
    assert(records@.subrange(0, k as int) =~= records@);
}

/// Full-scan step on the rows of a chunk already cut to the query window: nothing for no
/// rows; else the chunk counts as scanned, every row as checked, and the rows whose value
/// satisfies the predicate match.
pub fn collect_raw_scan_matches(records: &[ScalarRecord], query: &ScalarPredicateQuery, matches: &mut Vec<ScalarPredicateMatch>, stats: &mut ScalarPredicateQueryStats)
    ensures
        records@.len() == 0 ==> final(matches)@ == old(matches)@ && *final(stats) == *old(stats),
        records@.len() > 0 ==> final(matches)@ == old(matches)@ + record_matches(records@, *query, false)
            && *final(stats) == (ScalarPredicateQueryStats {
                chunks_scanned: old(stats).chunks_scanned.saturating_add(1),
                rows_checked: old(stats).rows_checked.saturating_add(records@.len() as u64),
                ..*old(stats)
            }),
{
    if records.len() == 0 {
        return;
    }
    stats.chunks_scanned = stats.chunks_scanned.saturating_add(1);
    stats.rows_checked = stats.rows_checked.saturating_add(records.len() as u64);
    let ghost start = matches@;
    let mut k: usize = 0;
    while k < records.len()
        invariant
            k <= records@.len(),
            matches@ == start + record_matches(records@.subrange(0, k as int), *query, false),
        decreases records@.len() - k,
    {
        proof {
            assert(records@.subrange(0, k + 1).drop_last() =~= records@.subrange(0, k as int));
            assert(records@.subrange(0, k + 1).last() == records@[k as int]);
        }
        let x = records[k];
        if query.predicate.matches(x.value) {
            matches.push(ScalarPredicateMatch { ts: x.ts, value: if query.return_values { Some(x.value) } else { None } });
        }
        k = k + 1;
    }
    assert(records@.subrange(0, k as int) =~= records@);
}

/// The index a predicate query uses on a chunk: the value index for equality-like
/// predicates when the chunk has one, the zone map for range-like predicates when it has
/// one, else a full scan.
pub open spec fn chunk_index_choice(q: ScalarPredicateQuery, chunk: ChunkMeta) -> ScalarIndexKind {
    if q.predicate.discrete() && chunk_has_kind(chunk, seq!['v', 'i', 'x']) {
        ScalarIndexKind::ValueIndex
    } else if q.predicate.continuous() && chunk_has_kind(chunk, seq!['z', 'm', 'a', 'p']) {
        ScalarIndexKind::ZoneMap
    } else {
        ScalarIndexKind::FullScan
    }
}

/// Starts a predicate query's work on one chunk: counts the chunk, picks the index to use,
/// records it, and flags a fallback scan; returns the index picked.
pub fn begin_chunk_predicate_scan(query: &ScalarPredicateQuery, chunk: &ChunkMeta, stats: &mut ScalarPredicateQueryStats) -> (r: ScalarIndexKind)
    ensures
        r == chunk_index_choice(*query, *chunk),
        *final(stats) == (ScalarPredicateQueryStats {
            chunks_considered: old(stats).chunks_considered.saturating_add(1),
            index_used: Some(combined_index(old(stats).index_used, r)),
            fallback_scan: if r is FullScan { true } else { old(stats).fallback_scan },
            ..*old(stats)
        }),
{
    proof {
        reveal_strlit("vix");
        reveal_strlit("zmap");
        assert("vix"@ =~= seq!['v', 'i', 'x']);
        assert("zmap"@ =~= seq!['z', 'm', 'a', 'p']);
    }
    stats.chunks_considered = stats.chunks_considered.saturating_add(1);
    let kind = if query.predicate.is_discrete_lookup_like() && has_sidecar_kind(chunk, "vix") {
        ScalarIndexKind::ValueIndex
    } else if query.predicate.is_continuous_range_like() && has_sidecar_kind(chunk, "zmap") {
        ScalarIndexKind::ZoneMap
    } else {
        ScalarIndexKind::FullScan
    };
    mark_index_used(stats, kind);
    if kind == ScalarIndexKind::FullScan {
        stats.fallback_scan = true;
    }
    kind
}

/// `a + n`, saturating at `u64::MAX`.
pub open spec fn sat_u64_add(a: u64, n: nat) -> u64 {
    if a + n > u64::MAX { u64::MAX } else { (a + n) as u64 }
}

/// The matches among value-index entries: entries within the query window whose value
/// satisfies its predicate, in entry order.
pub open spec fn entry_matches(entries: Seq<ValueIndexEntry>, q: ScalarPredicateQuery) -> Seq<ScalarPredicateMatch>
    decreases entries.len(),
{
    if entries.len() == 0 {
        Seq::empty()
    } else {
        let rest = entry_matches(entries.drop_last(), q);
        let e = entries.last();
        if query_hit(q, e.ts, e.value) {
            rest.push(match_of(e.ts, e.value, q.return_values))
        } else {
            rest
        }
    }
}

/// Number of entries a value-index scan visits for the query's predicate.
pub open spec fn visited_entries(entries: Seq<ValueIndexEntry>, q: ScalarPredicateQuery) -> nat
    decreases entries.len(),
{
    if entries.len() == 0 {
        0
    } else {
        visited_entries(entries.drop_last(), q) + if must_visit(q.predicate, entries.last().value) { 1nat } else { 0nat }
    }
}

/// The matches a value-index scan finds visiting `slices` in order: the matches of each
/// slice's entries, slice after slice.
pub open spec fn slices_matches(entries: Seq<ValueIndexEntry>, slices: Seq<core::ops::Range<usize>>, q: ScalarPredicateQuery) -> Seq<ScalarPredicateMatch>
    decreases slices.len(),
{
    if slices.len() == 0 {
        Seq::empty()
    } else {
        let r = slices.last();
        slices_matches(entries, slices.drop_last(), q) + entry_matches(entries.subrange(r.start as int, r.end as int), q)
    }
}

/// The number of entries in `slices`, counted once per slice.
pub open spec fn slices_span(slices: Seq<core::ops::Range<usize>>) -> nat
    decreases slices.len(),
{
    if slices.len() == 0 {
        0
    } else {
        slices_span(slices.drop_last()) + (slices.last().end - slices.last().start) as nat
    }
}

proof fn lemma_sat_add_twice(a: u64, x: nat, y: nat)
    ensures
        sat_u64_add(sat_u64_add(a, x), y) == sat_u64_add(a, x + y),
{
}

/// Entries the scan does not visit add no match and no visit.
proof fn lemma_skip_unvisited(entries: Seq<ValueIndexEntry>, q: ScalarPredicateQuery, a: int, b: int)
    requires
        0 <= a <= b <= entries.len(),
        forall|j: int| a <= j < b ==> !must_visit(q.predicate, #[trigger] entries[j].value),
    ensures
        entry_matches(entries.subrange(0, b), q) == entry_matches(entries.subrange(0, a), q),
        visited_entries(entries.subrange(0, b), q) == visited_entries(entries.subrange(0, a), q),
    decreases b - a,
{
    if b > a {
        lemma_skip_unvisited(entries, q, a, b - 1);
        let sb = entries.subrange(0, b);
        assert(sb.drop_last() =~= entries.subrange(0, b - 1));
        assert(sb.last() == entries[b - 1]);
        assert(!must_visit(q.predicate, entries[b - 1].value));
    }
}

/// Entries the scan visits each add one visit.
proof fn lemma_visit_all(entries: Seq<ValueIndexEntry>, q: ScalarPredicateQuery, a: int, b: int)
    requires
        0 <= a <= b <= entries.len(),
        forall|j: int| a <= j < b ==> must_visit(q.predicate, #[trigger] entries[j].value),
    ensures
        visited_entries(entries.subrange(0, b), q) == visited_entries(entries.subrange(0, a), q) + (b - a),
    decreases b - a,
{
    if b > a {
        lemma_visit_all(entries, q, a, b - 1);
        let sb = entries.subrange(0, b);
        assert(sb.drop_last() =~= entries.subrange(0, b - 1));
        assert(sb.last() == entries[b - 1]);
        assert(must_visit(q.predicate, entries[b - 1].value));
    }
}

/// Value-index step of a predicate query on one chunk: the slices of value-sorted entries
/// the predicate may match are scanned, each visited entry counted as checked, and the
/// entries within the window whose value satisfies the predicate match; a chunk with no
/// slice to visit counts as pruned.
///
/// What is found is that of the slices of `vix_plan` whatever the order of the entries; for
/// entries out of value order (a damaged sidecar) those slices need not hold every match, and
/// every match reported is still an entry within the window that satisfies the predicate.
pub fn collect_vix_predicate_matches(
    entries: &[ValueIndexEntry],
    query: &ScalarPredicateQuery,
    matches: &mut Vec<ScalarPredicateMatch>,
    stats: &mut ScalarPredicateQueryStats,
) -> (r: Result<()>)
    ensures
        !query.predicate.well_formed() ==> (r matches Err(FastKError::InvalidInput(_))) && final(matches)@ == old(matches)@
            && *final(stats) == *old(stats),
        query.predicate.well_formed() ==> r is Ok && final(matches)@.subrange(0, old(matches)@.len() as int) == old(matches)@
            && (forall|j: int| old(matches)@.len() <= j < final(matches)@.len() ==> exists|i: int| 0 <= i < entries@.len()
                && query_hit(*query, entries@[i].ts, entries@[i].value)
                && #[trigger] final(matches)@[j] == match_of(entries@[i].ts, entries@[i].value, query.return_values))
            && *final(stats) == (ScalarPredicateQueryStats {
                chunks_pruned: final(stats).chunks_pruned,
                chunks_scanned: final(stats).chunks_scanned,
                rows_checked: final(stats).rows_checked,
                ..*old(stats)
            }),
        query.predicate.well_formed() ==> exists|slices: Seq<core::ops::Range<usize>>| #[trigger] vix_plan(entries@, query.predicate, slices)
            && final(matches)@ == old(matches)@ + slices_matches(entries@, slices, *query)
            && (slices.len() == 0 ==> *final(stats) == (ScalarPredicateQueryStats {
                chunks_pruned: old(stats).chunks_pruned.saturating_add(1),
                ..*old(stats)
            }))
            && (slices.len() > 0 ==> *final(stats) == (ScalarPredicateQueryStats {
                chunks_scanned: old(stats).chunks_scanned.saturating_add(1),
                rows_checked: sat_u64_add(old(stats).rows_checked, slices_span(slices)),
                ..*old(stats)
            })),
        query.predicate.well_formed() && values_sorted(entries@) ==> final(matches)@ == old(matches)@ + entry_matches(entries@, *query) && {
            let n = visited_entries(entries@, *query);
            &&& n == 0 ==> *final(stats) == (ScalarPredicateQueryStats {
                chunks_pruned: old(stats).chunks_pruned.saturating_add(1),
                ..*old(stats)
            })
            &&& n > 0 ==> *final(stats) == (ScalarPredicateQueryStats {
                chunks_scanned: old(stats).chunks_scanned.saturating_add(1),
                rows_checked: sat_u64_add(old(stats).rows_checked, n),
                ..*old(stats)
            })
        },
{
    let slices = matching_slices_for_expr(entries, &query.predicate)?;
    let ghost all = entries@;
    let ghost q = *query;
    let ghost start = matches@;
    let ghost rows0 = stats.rows_checked;
    let ghost sorted = values_sorted(entries@);
    if slices.len() == 0 {
        proof {
            assert(matches@.subrange(0, start.len() as int) =~= start);
            assert(start + slices_matches(all, slices@, q) =~= start);
            if sorted {
                assert forall|j: int| 0 <= j < all.len() implies !must_visit(q.predicate, #[trigger] all[j].value) by {
                    if must_visit(q.predicate, all[j].value) {
                        assert(covered(slices@, j));
                    }
                }
                lemma_skip_unvisited(all, q, 0, all.len() as int);
                assert(all.subrange(0, all.len() as int) =~= all);
                assert(all.subrange(0, 0) =~= Seq::<ValueIndexEntry>::empty());
                assert(start + entry_matches(all, q) =~= start);
            }
        }
        stats.chunks_pruned = stats.chunks_pruned.saturating_add(1);
        return Ok(());
    }
    stats.chunks_scanned = stats.chunks_scanned.saturating_add(1);
    let ghost stats1 = *stats;
    let mut pos: usize = 0;
    let mut k: usize = 0;
    proof {
        assert(all.subrange(0, 0) =~= Seq::<ValueIndexEntry>::empty());
        assert(start + entry_matches(all.subrange(0, 0), q) =~= start);
        assert(matches@.subrange(0, start.len() as int) =~= start);
        assert(slices@.subrange(0, 0) =~= Seq::<core::ops::Range<usize>>::empty());
        assert(start + slices_matches(all, slices@.subrange(0, 0), q) =~= start);
    }
    while k < slices.len()
        invariant
            matches@ == start + slices_matches(all, slices@.subrange(0, k as int), q),
            stats.rows_checked == sat_u64_add(rows0, slices_span(slices@.subrange(0, k as int))),
            all == entries@,
            q == *query,
            q.predicate.well_formed(),
            sorted == values_sorted(all),
            forall|m: int| 0 <= m < slices@.len() ==> #[trigger] slices@[m].start < slices@[m].end <= all.len(),
            sorted ==> crate::vix::ranges_well_placed(slices@, all.len()),
            sorted ==> forall|i: int| 0 <= i < all.len() ==> (covered(slices@, i) <==> must_visit(q.predicate, #[trigger] all[i].value)),
            k <= slices@.len(),
            pos <= all.len(),
            k == 0 ==> pos == 0,
            k > 0 ==> pos == slices@[k - 1].end,
            sorted ==> matches@ == start + entry_matches(all.subrange(0, pos as int), q),
            sorted ==> stats.rows_checked == sat_u64_add(rows0, visited_entries(all.subrange(0, pos as int), q)),
            *stats == (ScalarPredicateQueryStats { rows_checked: stats.rows_checked, ..stats1 }),
            stats1.rows_checked == rows0,
            start.len() <= matches@.len(),
            matches@.subrange(0, start.len() as int) == start,
            forall|j: int| start.len() <= j < matches@.len() ==> exists|i: int| 0 <= i < all.len()
                && query_hit(q, all[i].ts, all[i].value) && #[trigger] matches@[j] == match_of(all[i].ts, all[i].value, q.return_values),
        decreases slices@.len() - k,
    {
        let a = slices[k].start;
        let b = slices[k].end;
        proof {
            assert(slices@[k as int].start < slices@[k as int].end <= all.len());
            if sorted {
                assert forall|j: int| pos <= j < a implies !must_visit(q.predicate, #[trigger] all[j].value) by {
                    if covered(slices@, j) {
                        let m = choose|m: int| 0 <= m < slices@.len() && #[trigger] slices@[m].start <= j < slices@[m].end;
                        if m < k {
                            if m < k - 1 {
                                assert(slices@[m].end <= slices@[k - 1].start);
                            }
                        } else if m > k {
                            assert(slices@[k as int].end <= slices@[m].start);
                        }
                    }
                }
                if k > 0 {
                    assert(slices@[k - 1].end <= slices@[k as int].start);
                }
                lemma_skip_unvisited(all, q, pos as int, a as int);
                assert forall|j: int| a <= j < b implies must_visit(q.predicate, #[trigger] all[j].value) by {
                    assert(covered(slices@, j)) by {
                        assert(slices@[k as int].start <= j < slices@[k as int].end);
                    }
                }
                lemma_visit_all(all, q, a as int, b as int);
                lemma_sat_add_twice(rows0, visited_entries(all.subrange(0, a as int), q), (b - a) as nat);
            }
        }
        let ghost rows_before = stats.rows_checked;
        stats.rows_checked = stats.rows_checked.saturating_add((b - a) as u64);
        proof {
            lemma_sat_add_twice(rows0, slices_span(slices@.subrange(0, k as int)), (b - a) as nat);
            let pre = slices@.subrange(0, k + 1);
            assert(pre.drop_last() =~= slices@.subrange(0, k as int));
            assert(pre.last() == slices@[k as int]);
        }
        let ghost m0 = matches@;
        proof {
            assert(all.subrange(a as int, a as int) =~= Seq::<ValueIndexEntry>::empty());
            assert(m0 + entry_matches(all.subrange(a as int, a as int), q) =~= m0);
        }
        let mut i: usize = a;
        while i < b
            invariant
                matches@ == m0 + entry_matches(all.subrange(a as int, i as int), q),
                all == entries@,
                q == *query,
                sorted == values_sorted(all),
                a <= i <= b <= all.len(),
                sorted ==> forall|j: int| a <= j < b ==> must_visit(q.predicate, #[trigger] all[j].value),
                sorted ==> matches@ == start + entry_matches(all.subrange(0, i as int), q),
                start.len() <= matches@.len(),
                matches@.subrange(0, start.len() as int) == start,
                forall|j: int| start.len() <= j < matches@.len() ==> exists|i: int| 0 <= i < all.len()
                    && query_hit(q, all[i].ts, all[i].value) && #[trigger] matches@[j] == match_of(all[i].ts, all[i].value, q.return_values),
            decreases b - i,
        {
            proof {
                assert(all.subrange(0, i + 1).drop_last() =~= all.subrange(0, i as int));
                assert(all.subrange(0, i + 1).last() == all[i as int]);
                assert(all.subrange(a as int, i + 1).drop_last() =~= all.subrange(a as int, i as int));
                assert(all.subrange(a as int, i + 1).last() == all[i as int]);
            }
            let e = entries[i];
            if e.ts >= query.start_ts && e.ts <= query.end_ts && query.predicate.matches(e.value) {
                let ghost before = matches@;
                matches.push(ScalarPredicateMatch { ts: e.ts, value: if query.return_values { Some(e.value) } else { None } });
                proof {
                    assert(matches@ =~= m0 + entry_matches(all.subrange(a as int, i + 1), q));
                    assert(matches@.subrange(0, start.len() as int) =~= before.subrange(0, start.len() as int));
                    assert forall|j: int| start.len() <= j < matches@.len() implies exists|i2: int| 0 <= i2 < all.len()
                        && query_hit(q, all[i2].ts, all[i2].value) && #[trigger] matches@[j] == match_of(all[i2].ts, all[i2].value, q.return_values) by {
                        if j < before.len() {
                            assert(matches@[j] == before[j]);
                        } else {
                            assert(matches@[j] == match_of(all[i as int].ts, all[i as int].value, q.return_values));
                        }
                    }
                }
            }
            i = i + 1;
        }
        proof {
            let pre = slices@.subrange(0, k + 1);
            assert(pre.drop_last() =~= slices@.subrange(0, k as int));
            assert(matches@ =~= start + slices_matches(all, pre, q));
        }
        pos = b;
        k = k + 1;
    }
    proof {
        assert(slices@.subrange(0, k as int) =~= slices@);
    }
    proof {
        if sorted {
            assert forall|j: int| pos <= j < all.len() implies !must_visit(q.predicate, #[trigger] all[j].value) by {
                if covered(slices@, j) {
                    let m = choose|m: int| 0 <= m < slices@.len() && #[trigger] slices@[m].start <= j < slices@[m].end;
                    if m < k - 1 {
                        assert(slices@[m].end <= slices@[k - 1].start);
                    }
                }
            }
            lemma_skip_unvisited(all, q, pos as int, all.len() as int);
            assert(all.subrange(0, all.len() as int) =~= all);
            assert(visited_entries(all, q) > 0) by {
                let s0 = slices@[0].start as int;
                assert(covered(slices@, s0)) by {
                    assert(slices@[0].start <= s0 < slices@[0].end);
                }
                assert(must_visit(q.predicate, all[s0].value));
                lemma_visit_count_positive(all, q, s0);
            }
        }
    }
    Ok(())
}

proof fn lemma_visit_count_positive(entries: Seq<ValueIndexEntry>, q: ScalarPredicateQuery, j: int)
    requires
        0 <= j < entries.len(),
        must_visit(q.predicate, entries[j].value),
    ensures
        visited_entries(entries, q) > 0,
    decreases entries.len(),
{
    if j < entries.len() - 1 {
        let init = entries.drop_last();
        assert(init[j] == entries[j]);
        lemma_visit_count_positive(init, q, j);
    }
}

} // verus!

verus! {

/// Where a match at `ts` goes in matches sorted by time: after every match at or before
/// `ts`.
pub open spec fn match_insert_pos(s: Seq<ScalarPredicateMatch>, ts: i64) -> int
    decreases s.len(),
{
    if s.len() == 0 || s.last().ts <= ts {
        s.len() as int
    } else {
        match_insert_pos(s.drop_last(), ts)
    }
}

/// Stable sort of matches by timestamp: matches at equal times keep their order.
pub open spec fn sorted_matches(s: Seq<ScalarPredicateMatch>) -> Seq<ScalarPredicateMatch>
    decreases s.len(),
{
    if s.len() == 0 {
        s
    } else {
        let r = sorted_matches(s.drop_last());
        r.insert(match_insert_pos(r, s.last().ts), s.last())
    }
}

/// Timestamps never decrease along the matches.
pub open spec fn matches_in_time_order(s: Seq<ScalarPredicateMatch>) -> bool {
    forall|i: int, j: int| 0 <= i <= j < s.len() ==> s[i].ts <= s[j].ts
}

proof fn lemma_match_insert_pos_bounds(s: Seq<ScalarPredicateMatch>, ts: i64)
    ensures
        0 <= match_insert_pos(s, ts) <= s.len(),
        forall|j: int| match_insert_pos(s, ts) <= j < s.len() ==> #[trigger] s[j].ts > ts,
        matches_in_time_order(s) ==> forall|j: int| 0 <= j < match_insert_pos(s, ts) ==> #[trigger] s[j].ts <= ts,
    decreases s.len(),
{
    if s.len() > 0 && s.last().ts > ts {
        let pre = s.drop_last();
        lemma_match_insert_pos_bounds(pre, ts);
        assert forall|j: int| match_insert_pos(s, ts) <= j < s.len() implies #[trigger] s[j].ts > ts by {
            if j < pre.len() {
                assert(s[j] == pre[j]);
            }
        }
        if matches_in_time_order(s) {
            assert(matches_in_time_order(pre)) by {
                assert forall|i: int, j: int| 0 <= i <= j < pre.len() implies pre[i].ts <= pre[j].ts by {
                    assert(pre[i] == s[i] && pre[j] == s[j]);
                }
            }
            assert forall|j: int| 0 <= j < match_insert_pos(s, ts) implies #[trigger] s[j].ts <= ts by {
                assert(s[j] == pre[j]);
            }
        }
    } else if s.len() > 0 {
        if matches_in_time_order(s) {
            assert forall|j: int| 0 <= j < match_insert_pos(s, ts) implies #[trigger] s[j].ts <= ts by {
                assert(s[j].ts <= s[s.len() - 1].ts);
            }
        }
    }
}

/// The stable sort puts matches in time order and keeps exactly the same matches.
pub proof fn sorted_matches_are_ordered_permutation(s: Seq<ScalarPredicateMatch>)
    ensures
        matches_in_time_order(sorted_matches(s)),
        sorted_matches(s).to_multiset() == s.to_multiset(),
        sorted_matches(s).len() == s.len(),
    decreases s.len(),
{
    broadcast use vstd::seq_lib::to_multiset_insert;
    if s.len() > 0 {
        let pre = s.drop_last();
        sorted_matches_are_ordered_permutation(pre);
        let r = sorted_matches(pre);
        let x = s.last();
        let p = match_insert_pos(r, x.ts);
        lemma_match_insert_pos_bounds(r, x.ts);
        let q = r.insert(p, x);
        assert forall|i: int, j: int| 0 <= i <= j < q.len() implies q[i].ts <= q[j].ts by {
            if i < p && j < p {
                assert(q[i] == r[i] && q[j] == r[j]);
            } else if i < p && j == p {
                assert(q[i] == r[i]);
            } else if i < p {
                assert(q[i] == r[i] && q[j] == r[j - 1]);
            } else if i == p && j > p {
                assert(q[j] == r[j - 1]);
            } else if i > p {
                assert(q[i] == r[i - 1] && q[j] == r[j - 1]);
            }
        }
        assert(s =~= pre.push(x));
        assert(pre.push(x).to_multiset() == pre.to_multiset().insert(x)) by {
            broadcast use vstd::multiset::group_multiset_axioms;
            vstd::seq_lib::to_multiset_insert(pre, pre.len() as int, x);
            assert(pre.insert(pre.len() as int, x) =~= pre.push(x));
        }
    }
}

/// Sorts matches by timestamp, keeping the order of matches at equal times.
pub fn sort_matches_by_ts(matches: Vec<ScalarPredicateMatch>) -> (r: Vec<ScalarPredicateMatch>)
    ensures
        r@ == sorted_matches(matches@),
{
    let ghost all = matches@;
    let mut rest = matches;
    let mut out: Vec<ScalarPredicateMatch> = Vec::new();
    let mut k: usize = 0;
    let n = rest.len();
    while rest.len() > 0
        invariant
            k + rest@.len() == all.len(),
            n == all.len(),
            rest@ == all.subrange(k as int, all.len() as int),
            out@ == sorted_matches(all.subrange(0, k as int)),
        decreases rest@.len(),
    {
        let x = rest.remove(0);
        let ghost sorted = out@;
        let mut p = out.len();
        assert(sorted.subrange(0, p as int) =~= sorted);
        while p > 0 && out[p - 1].ts > x.ts
            invariant
                p <= out@.len(),
                out@ == sorted,
                match_insert_pos(sorted, x.ts) == match_insert_pos(sorted.subrange(0, p as int), x.ts),
            decreases p,
        {
            proof {
                assert(sorted.subrange(0, p as int).drop_last() =~= sorted.subrange(0, p - 1));
            }
            p = p - 1;
        }
        proof {
            lemma_match_insert_pos_bounds(sorted.subrange(0, p as int), x.ts);
            assert(all.subrange(0, k + 1).drop_last() =~= all.subrange(0, k as int));
            assert(all.subrange(0, k + 1).last() == x);
        }
        out.insert(p, x);
        k = k + 1;
        proof {
            assert(rest@ =~= all.subrange(k as int, all.len() as int));
        }
    }
    assert(all.subrange(0, k as int) =~= all);
    out
}

/// Ends a predicate query: the matches of all chunks in time order (stable), and the
/// counters with the number of matches.
pub fn finish_predicate_query(matches: Vec<ScalarPredicateMatch>, stats: ScalarPredicateQueryStats) -> (r: ScalarPredicateQueryResult)
    ensures
        r.matches@ == sorted_matches(matches@),
        r.stats == (ScalarPredicateQueryStats { rows_matched: matches@.len() as u64, ..stats }),
{
    let n = matches.len();
    let sorted = sort_matches_by_ts(matches);
    let mut out_stats = stats;
    out_stats.rows_matched = n as u64;
    ScalarPredicateQueryResult { matches: sorted, stats: out_stats }
}

/// Timestamps of `records` within `[start_ts, end_ts]` whose value satisfies `p`, in the
/// records' order.
pub open spec fn timestamp_hits(records: Seq<ScalarRecord>, p: ScalarPredicate, start_ts: i64, end_ts: i64) -> Seq<i64>
    decreases records.len(),
{
    if records.len() == 0 {
        Seq::empty()
    } else {
        let rest = timestamp_hits(records.drop_last(), p, start_ts, end_ts);
        let x = records.last();
        if start_ts <= x.ts && x.ts <= end_ts && p.holds(x.value) {
            rest.push(x.ts)
        } else {
            rest
        }
    }
}

/// Some record lies within `[start_ts, end_ts]`.
pub open spec fn any_record_in_window(records: Seq<ScalarRecord>, start_ts: i64, end_ts: i64) -> bool {
    exists|i: int| 0 <= i < records.len() && start_ts <= #[trigger] records[i].ts && records[i].ts <= end_ts
}

/// Timestamps of rows read for a chunk that lie in the window and satisfy the predicate, in
/// row order. The predicate is checked (and refused when malformed) only for rows in the
/// window.
pub fn matching_timestamps(records: &[ScalarRecord], predicate: &ScalarPredicate, start_ts: i64, end_ts: i64) -> (r: Result<Vec<i64>>)
    ensures
        predicate.well_formed() || !any_record_in_window(records@, start_ts, end_ts) ==> (r matches Ok(v) && v@
            == timestamp_hits(records@, *predicate, start_ts, end_ts)),
        !predicate.well_formed() && any_record_in_window(records@, start_ts, end_ts) ==> r matches Err(FastKError::InvalidInput(_)),
{
    let mut out: Vec<i64> = Vec::new();
    let mut k: usize = 0;
    while k < records.len()
        invariant
            k <= records@.len(),
            out@ == timestamp_hits(records@.subrange(0, k as int), *predicate, start_ts, end_ts),
            !predicate.well_formed() ==> !any_record_in_window(records@.subrange(0, k as int), start_ts, end_ts),
        decreases records@.len() - k,
    {
        proof {
            assert(records@.subrange(0, k + 1).drop_last() =~= records@.subrange(0, k as int));
            assert(records@.subrange(0, k + 1).last() == records@[k as int]);
        }
        let x = records[k];
        if x.ts >= start_ts && x.ts <= end_ts {
            let hit = predicate.matches(x.value);
            match hit {
                Ok(true) => {
                    out.push(x.ts);
                },
                Ok(false) => {},
                Err(e) => {
                    proof {
                        assert(records@[k as int].ts == x.ts);
                    }
                    return Err(e);
                },
            }
        }
        proof {
            if !predicate.well_formed() {
                assert forall|i: int| 0 <= i < k + 1 implies !(start_ts <= #[trigger] records@.subrange(0, k + 1)[i].ts
                    && records@.subrange(0, k + 1)[i].ts <= end_ts) by {
                    if i < k {
                        assert(records@.subrange(0, k + 1)[i] == records@.subrange(0, k as int)[i]);
                    }
                }
            }
        }
        k = k + 1;
    }
    assert(records@.subrange(0, k as int) =~= records@);
    Ok(out)
}

/// Zone-map step of a timestamp query on one chunk: the merged row ranges of the blocks in
/// the window that may match, none when no block may. A malformed predicate is refused
/// when some block lies in the window.
pub fn zmap_timestamp_scan_ranges(entries: &[ZoneMapEntry], predicate: &ScalarPredicate, start_ts: i64, end_ts: i64) -> (r: Result<Vec<core::ops::RangeInclusive<u32>>>)
    ensures
        predicate.well_formed() || !crate::zmap::any_in_window(entries@, start_ts, end_ts) ==> (r matches Ok(v) && {
            let kept = candidates(entries@, *predicate, start_ts, end_ts);
            &&& kept.len() == 0 ==> v@.len() == 0
            &&& kept.len() > 0 ==> range_pairs(v@) == merge_sorted_ranges(sort_pairs(block_rows(kept)))
        }),
        !predicate.well_formed() && crate::zmap::any_in_window(entries@, start_ts, end_ts) ==> r matches Err(FastKError::InvalidInput(_)),
{
    let row_ranges = candidate_row_ranges(entries, predicate, start_ts, end_ts)?;
    if row_ranges.len() == 0 {
        return Ok(Vec::new());
    }
    proof {
        let cands = candidates(entries@, *predicate, start_ts, end_ts);
        assert(range_pairs(row_ranges@) =~= block_rows(cands));
    }
    Ok(merge_row_ranges(row_ranges.as_slice()))
}

/// The rows a scan of row ranges `(start, end)` reads from `records`: rows `start..=end` of
/// each range, in order.
pub open spec fn rows_of_pairs(records: Seq<ScalarRecord>, pairs: Seq<(u32, u32)>) -> Seq<ScalarRecord>
    decreases pairs.len(),
{
    if pairs.len() == 0 {
        Seq::empty()
    } else {
        let p = pairs.last();
        rows_of_pairs(records, pairs.drop_last()) + if p.0 <= p.1 {
            records.subrange(p.0 as int, p.1 + 1)
        } else {
            Seq::empty()
        }
    }
}

/// Gathers the rows of the row ranges a zone-map step left to read, in order;
/// `InvalidData` when a range reaches past the chunk's rows.
pub fn rows_in_ranges(records: &[ScalarRecord], ranges: &[core::ops::RangeInclusive<u32>]) -> (r: Result<Vec<ScalarRecord>>)
    requires
        forall|k: int| 0 <= k < ranges@.len() ==> !(#[trigger] ranges@[k])@.exhausted,
    ensures
        (exists|k: int| 0 <= k < ranges@.len() && (#[trigger] ranges@[k])@.end >= records@.len()) ==> r matches Err(FastKError::InvalidData(_)),
        !(exists|k: int| 0 <= k < ranges@.len() && (#[trigger] ranges@[k])@.end >= records@.len()) ==> (r matches Ok(v)
            && v@ == rows_of_pairs(records@, range_pairs(ranges@))),
{
    let mut out: Vec<ScalarRecord> = Vec::new();
    let mut k: usize = 0;
    while k < ranges.len()
        invariant
            k <= ranges@.len(),
            forall|j: int| 0 <= j < ranges@.len() ==> !(#[trigger] ranges@[j])@.exhausted,
            forall|j: int| 0 <= j < k ==> (#[trigger] ranges@[j])@.end < records@.len(),
            out@ == rows_of_pairs(records@, range_pairs(ranges@.subrange(0, k as int))),
        decreases ranges@.len() - k,
    {
        let start = range_start(&ranges[k]);
        let end = range_end(&ranges[k]);
        if end as usize >= records.len() {
            return Err(invalid_data("zone-map row range exceeds chunk rows"));
        }
        let ghost before = out@;
        if start <= end {
            let mut i: usize = start as usize;
            while i <= end as usize
                invariant
                    start <= i <= end as usize + 1,
                    end < records@.len(),
                    out@ == before + records@.subrange(start as int, i as int),
                decreases end as usize + 1 - i,
            {
                out.push(records[i]);
                proof {
                    assert(records@.subrange(start as int, i + 1) =~= records@.subrange(start as int, i as int).push(records@[i as int]));
                }
                i = i + 1;
            }
        }
        proof {
            let pk = range_pairs(ranges@.subrange(0, k + 1));
            assert(pk.drop_last() =~= range_pairs(ranges@.subrange(0, k as int)));
            assert(pk.last() == (start, end));
            if start > end {
                assert(out@ =~= before + Seq::<ScalarRecord>::empty());
            }
        }
        k = k + 1;
    }
    assert(ranges@.subrange(0, k as int) =~= ranges@);
    Ok(out)
}

} // verus!
