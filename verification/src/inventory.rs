//! Store-wide inventory: per-series summaries, store totals, health counts and indicator
//! listings, computed from manifests and validation reports the caller has loaded.
use vstd::prelude::*;
use crate::derived::{INDICATOR_CATEGORY, decode_scoped_scalar_name, split_scoped};
use crate::meta::{ChunkMeta, SeriesMeta};
use crate::path::KLINE_CATEGORY;
use crate::recovery::ManifestValidation;
use crate::store::{IndicatorInventoryEntry, SeriesInventoryEntry, StoreHealthSummary, StoreStats, total_sidecars};
use crate::strorder::{lex_lt, lex_sorted, lemma_lex_order, sort_strings, str_lt, string_views};
use crate::text::{owned, str_eq};

verus! {

/// Rows held by the chunks.
pub open spec fn total_rows(s: Seq<ChunkMeta>) -> nat
    decreases s.len(),
{
    if s.len() == 0 { 0 } else { total_rows(s.drop_last()) + s.last().count as nat }
}

/// Number of active chunks.
pub open spec fn active_chunks(s: Seq<ChunkMeta>) -> nat
    decreases s.len(),
{
    if s.len() == 0 { 0 } else { active_chunks(s.drop_last()) + if s.last().state is Active { 1nat } else { 0nat } }
}

proof fn lemma_active_le(s: Seq<ChunkMeta>)
    ensures
        active_chunks(s) <= s.len(),
    decreases s.len(),
{
    if s.len() > 0 {
        lemma_active_le(s.drop_last());
    }
}

/// The inventory entry of a series: identity, record type, timeframe and totals of its
/// chunks.
pub fn series_inventory_entry(meta: &SeriesMeta) -> (r: SeriesInventoryEntry)
    requires
        total_rows(meta.chunks@) <= u64::MAX,
        total_sidecars(meta.chunks@) <= usize::MAX,
    ensures
        r.symbol@ == meta.symbol@,
        r.category@ == meta.category@,
        r.name@ == meta.name@,
        r.record_type == meta.record_type,
        r.timeframe_ms == meta.timeframe_ms,
        r.chunk_count == meta.chunks@.len(),
        r.record_count == total_rows(meta.chunks@),
        r.sidecar_count == total_sidecars(meta.chunks@),
        r.active_delta_count == active_chunks(meta.chunks@),
{
    let mut rows: u64 = 0;
    let mut sidecars: usize = 0;
    let mut active: usize = 0;
    let mut i: usize = 0;
    while i < meta.chunks.len()
        invariant
            i <= meta.chunks@.len(),
            total_rows(meta.chunks@) <= u64::MAX,
            total_sidecars(meta.chunks@) <= usize::MAX,
            rows == total_rows(meta.chunks@.subrange(0, i as int)),
            sidecars == total_sidecars(meta.chunks@.subrange(0, i as int)),
            active == active_chunks(meta.chunks@.subrange(0, i as int)),
            active <= i,
        decreases meta.chunks@.len() - i,
    {
        let ghost pre = meta.chunks@.subrange(0, i as int);
        let ghost next = meta.chunks@.subrange(0, i + 1);
        proof {
            assert(next.drop_last() =~= pre);
            lemma_prefix_totals(meta.chunks@, i + 1);
        }
        let c = &meta.chunks[i];
        rows = rows + c.count;
        sidecars = sidecars + c.sidecars.len();
        match c.state {
            crate::meta::ChunkState::Active => {
                active = active + 1;
            },
            _ => {},
        }
        i = i + 1;
    }
    proof {
        assert(meta.chunks@.subrange(0, i as int) =~= meta.chunks@);
    }
    SeriesInventoryEntry {
        symbol: owned(meta.symbol.as_str()),
        category: owned(meta.category.as_str()),
        name: owned(meta.name.as_str()),
        record_type: meta.record_type,
        timeframe_ms: meta.timeframe_ms,
        chunk_count: meta.chunks.len(),
        record_count: rows,
        sidecar_count: sidecars,
        active_delta_count: active,
    }
}

/// Totals over a prefix never exceed those over the whole list.
proof fn lemma_prefix_totals(s: Seq<ChunkMeta>, k: int)
    requires
        0 <= k <= s.len(),
    ensures
        total_rows(s.subrange(0, k)) <= total_rows(s),
        total_sidecars(s.subrange(0, k)) <= total_sidecars(s),
    decreases s.len() - k,
{
    if k < s.len() {
        lemma_prefix_totals(s, k + 1);
        assert(s.subrange(0, k + 1).drop_last() =~= s.subrange(0, k));
    } else {
        assert(s.subrange(0, k) =~= s);
    }
}

/// A report has no finding of any kind.
pub open spec fn report_clean(v: ManifestValidation) -> bool {
    v.manifest_exists && v.missing_chunks@.len() == 0 && v.missing_sidecars@.len() == 0
        && v.checksum_mismatches@.len() == 0 && v.chunk_metadata_mismatches@.len() == 0
        && v.sidecar_consistency_issues@.len() == 0 && v.untracked_chunks@.len() == 0
        && v.untracked_sidecars@.len() == 0 && v.overlap_groups@.len() == 0
}

/// Number of clean reports.
pub open spec fn clean_reports(s: Seq<ManifestValidation>) -> nat
    decreases s.len(),
{
    if s.len() == 0 { 0 } else { clean_reports(s.drop_last()) + if report_clean(s.last()) { 1nat } else { 0nat } }
}

/// Overlap sets over all reports.
pub open spec fn overlap_sets_reported(s: Seq<ManifestValidation>) -> nat
    decreases s.len(),
{
    if s.len() == 0 { 0 } else { overlap_sets_reported(s.drop_last()) + s.last().overlap_groups@.len() }
}

proof fn lemma_reports_prefix(s: Seq<ManifestValidation>, k: int)
    requires
        0 <= k <= s.len(),
    ensures
        overlap_sets_reported(s.subrange(0, k)) <= overlap_sets_reported(s),
    decreases s.len() - k,
{
    if k < s.len() {
        lemma_reports_prefix(s, k + 1);
        assert(s.subrange(0, k + 1).drop_last() =~= s.subrange(0, k));
    } else {
        assert(s.subrange(0, k) =~= s);
    }
}

/// The health summary of a store from the validation report of each series, the number of
/// orphan files and whether recovery is pending; `fsync_guarantee` names what the platform
/// guarantees of directory syncs.
pub fn health_summary_from(validations: &Vec<ManifestValidation>, orphan_count: usize, pending_recovery: bool, fsync_guarantee: &'static str) -> (r: StoreHealthSummary)
    requires
        overlap_sets_reported(validations@) <= usize::MAX,
    ensures
        r.series_count == validations@.len(),
        r.clean_series_count == clean_reports(validations@),
        r.issue_series_count == validations@.len() - clean_reports(validations@),
        r.orphan_count == orphan_count,
        r.overlap_group_count == overlap_sets_reported(validations@),
        r.pending_recovery == pending_recovery,
        r.platform_fsync_guarantee == fsync_guarantee,
{
    let mut clean: usize = 0;
    let mut overlaps: usize = 0;
    let mut i: usize = 0;
    while i < validations.len()
        invariant
            i <= validations@.len(),
            overlap_sets_reported(validations@) <= usize::MAX,
            clean == clean_reports(validations@.subrange(0, i as int)),
            overlaps == overlap_sets_reported(validations@.subrange(0, i as int)),
            clean <= i,
        decreases validations@.len() - i,
    {
        proof {
            assert(validations@.subrange(0, i + 1).drop_last() =~= validations@.subrange(0, i as int));
            lemma_reports_prefix(validations@, i + 1);
        }
        let v = &validations[i];
        if v.is_clean() {
            clean = clean + 1;
        }
        overlaps = overlaps + v.overlap_groups.len();
        i = i + 1;
    }
    proof {
        assert(validations@.subrange(0, i as int) =~= validations@);
    }
    StoreHealthSummary {
        series_count: validations.len(),
        clean_series_count: clean,
        issue_series_count: validations.len() - clean,
        orphan_count,
        overlap_group_count: overlaps,
        pending_recovery,
        platform_fsync_guarantee: fsync_guarantee,
    }
}

/// Entries of kline series.
pub open spec fn kline_entries(s: Seq<SeriesInventoryEntry>) -> nat
    decreases s.len(),
{
    if s.len() == 0 { 0 } else { kline_entries(s.drop_last()) + if s.last().category@ == KLINE_CATEGORY@ { 1nat } else { 0nat } }
}

/// Sum of one count over the entries.
pub open spec fn entry_sum(s: Seq<SeriesInventoryEntry>, f: spec_fn(SeriesInventoryEntry) -> nat) -> nat
    decreases s.len(),
{
    if s.len() == 0 { 0 } else { entry_sum(s.drop_last(), f) + f(s.last()) }
}

/// Chunks of an entry.
pub open spec fn chunks_of() -> spec_fn(SeriesInventoryEntry) -> nat {
    |e: SeriesInventoryEntry| e.chunk_count as nat
}

/// Sidecars of an entry.
pub open spec fn sidecars_of() -> spec_fn(SeriesInventoryEntry) -> nat {
    |e: SeriesInventoryEntry| e.sidecar_count as nat
}

/// Active deltas of an entry.
pub open spec fn deltas_of() -> spec_fn(SeriesInventoryEntry) -> nat {
    |e: SeriesInventoryEntry| e.active_delta_count as nat
}

/// Rows over the entries, added with saturation at the `u64` maximum.
pub open spec fn rows_saturating(s: Seq<SeriesInventoryEntry>) -> u64
    decreases s.len(),
{
    if s.len() == 0 {
        0
    } else {
        let a = rows_saturating(s.drop_last());
        if a + s.last().record_count > u64::MAX { u64::MAX } else { (a + s.last().record_count) as u64 }
    }
}

proof fn lemma_entry_sums_prefix(s: Seq<SeriesInventoryEntry>, k: int, f: spec_fn(SeriesInventoryEntry) -> nat)
    requires
        0 <= k <= s.len(),
    ensures
        entry_sum(s.subrange(0, k), f) <= entry_sum(s, f),
    decreases s.len() - k,
{
    if k < s.len() {
        lemma_entry_sums_prefix(s, k + 1, f);
        assert(s.subrange(0, k + 1).drop_last() =~= s.subrange(0, k));
    } else {
        assert(s.subrange(0, k) =~= s);
    }
}

/// Store-wide totals over the series inventory: kline and other series counted apart,
/// rows added with saturation.
pub fn store_stats(entries: &Vec<SeriesInventoryEntry>) -> (r: StoreStats)
    requires
        entry_sum(entries@, chunks_of()) <= usize::MAX,
        entry_sum(entries@, sidecars_of()) <= usize::MAX,
        entry_sum(entries@, deltas_of()) <= usize::MAX,
    ensures
        r.series_count == entries@.len(),
        r.kline_series_count == kline_entries(entries@),
        r.scalar_series_count == entries@.len() - kline_entries(entries@),
        r.chunk_count == entry_sum(entries@, chunks_of()),
        r.record_count == rows_saturating(entries@),
        r.sidecar_count == entry_sum(entries@, sidecars_of()),
        r.active_delta_count == entry_sum(entries@, deltas_of()),
{
    let mut kline: usize = 0;
    let mut chunks: usize = 0;
    let mut rows: u64 = 0;
    let mut sidecars: usize = 0;
    let mut deltas: usize = 0;
    let mut i: usize = 0;
    while i < entries.len()
        invariant
            i <= entries@.len(),
            entry_sum(entries@, chunks_of()) <= usize::MAX,
            entry_sum(entries@, sidecars_of()) <= usize::MAX,
            entry_sum(entries@, deltas_of()) <= usize::MAX,
            kline == kline_entries(entries@.subrange(0, i as int)),
            kline <= i,
            chunks == entry_sum(entries@.subrange(0, i as int), chunks_of()),
            sidecars == entry_sum(entries@.subrange(0, i as int), sidecars_of()),
            deltas == entry_sum(entries@.subrange(0, i as int), deltas_of()),
            rows == rows_saturating(entries@.subrange(0, i as int)),
        decreases entries@.len() - i,
    {
        proof {
            assert(entries@.subrange(0, i + 1).drop_last() =~= entries@.subrange(0, i as int));
            lemma_entry_sums_prefix(entries@, i + 1, chunks_of());
            lemma_entry_sums_prefix(entries@, i + 1, sidecars_of());
            lemma_entry_sums_prefix(entries@, i + 1, deltas_of());
        }
        let e = &entries[i];
        if str_eq(e.category.as_str(), KLINE_CATEGORY) {
            kline = kline + 1;
        }
        chunks = chunks + e.chunk_count;
        rows = rows.saturating_add(e.record_count);
        sidecars = sidecars + e.sidecar_count;
        deltas = deltas + e.active_delta_count;
        i = i + 1;
    }
    proof {
        assert(entries@.subrange(0, i as int) =~= entries@);
    }
    StoreStats {
        series_count: entries.len(),
        kline_series_count: kline,
        scalar_series_count: entries.len() - kline,
        chunk_count: chunks,
        record_count: rows,
        sidecar_count: sidecars,
        active_delta_count: deltas,
    }
}

} // verus!

verus! {

/// An entry of an indicator series of `symbol` whose persisted name scopes it to
/// `timeframe`.
pub open spec fn indicator_of(symbol: Seq<char>, timeframe: Seq<char>) -> spec_fn(SeriesInventoryEntry) -> bool {
    |e: SeriesInventoryEntry| e.symbol@ == symbol && e.category@ == INDICATOR_CATEGORY@
        && (split_scoped(e.name@) matches Some((t, n)) && t == timeframe)
}

/// The abstract value of an indicator inventory entry.
pub open spec fn indicator_view(x: IndicatorInventoryEntry) -> (Seq<char>, Seq<char>, Seq<char>, usize, u64, usize, usize) {
    (x.symbol@, x.timeframe@, x.indicator_name@, x.chunk_count, x.record_count, x.sidecar_count, x.active_delta_count)
}

/// The indicator inventory entry made of a series inventory entry.
pub open spec fn indicator_entry(e: SeriesInventoryEntry) -> (Seq<char>, Seq<char>, Seq<char>, usize, u64, usize, usize) {
    let (t, n) = split_scoped(e.name@)->Some_0;
    (e.symbol@, t, n, e.chunk_count, e.record_count, e.sidecar_count, e.active_delta_count)
}

/// Views of indicator entries.
pub open spec fn indicator_views(s: Seq<IndicatorInventoryEntry>) -> Seq<(Seq<char>, Seq<char>, Seq<char>, usize, u64, usize, usize)> {
    s.map_values(|x: IndicatorInventoryEntry| indicator_view(x))
}

/// Indicator entries sorted by name bytes.
pub open spec fn indicators_sorted(s: Seq<IndicatorInventoryEntry>) -> bool {
    forall|i: int, j: int| 0 <= i < j < s.len()
        ==> !lex_lt(vstd::utf8::encode_utf8(s[j].indicator_name@), vstd::utf8::encode_utf8(s[i].indicator_name@))
}

fn indicator_candidate(e: &SeriesInventoryEntry, symbol: &str, timeframe: &str) -> (r: Option<IndicatorInventoryEntry>)
    ensures
        indicator_of(symbol@, timeframe@)(*e) <==> r is Some,
        r matches Some(x) ==> indicator_view(x) == indicator_entry(*e),
{
    if !str_eq(e.symbol.as_str(), symbol) || !str_eq(e.category.as_str(), INDICATOR_CATEGORY) {
        return None;
    }
    match decode_scoped_scalar_name(e.name.as_str()) {
        Some((t, n)) => {
            if str_eq(t, timeframe) {
                Some(IndicatorInventoryEntry {
                    symbol: owned(e.symbol.as_str()),
                    timeframe: owned(t),
                    indicator_name: owned(n),
                    chunk_count: e.chunk_count,
                    record_count: e.record_count,
                    sidecar_count: e.sidecar_count,
                    active_delta_count: e.active_delta_count,
                })
            } else {
                None
            }
        },
        None => None,
    }
}

fn sort_indicators(v: Vec<IndicatorInventoryEntry>) -> (r: Vec<IndicatorInventoryEntry>)
    ensures
        indicators_sorted(r@),
        indicator_views(r@).to_multiset() == indicator_views(v@).to_multiset(),
{
    broadcast use vstd::seq_lib::to_multiset_insert;
    let ghost all = indicator_views(v@);
    let mut rest = v;
    let mut out: Vec<IndicatorInventoryEntry> = Vec::new();
    let mut k: usize = 0;
    let n = rest.len();
    assert(indicator_views(out@) =~= Seq::<(Seq<char>, Seq<char>, Seq<char>, usize, u64, usize, usize)>::empty());
    assert(all.subrange(0, 0) =~= Seq::<(Seq<char>, Seq<char>, Seq<char>, usize, u64, usize, usize)>::empty());
    assert(all.subrange(0, all.len() as int) =~= all);
    while rest.len() > 0
        invariant
            n == all.len(),
            k + rest@.len() == all.len(),
            indicator_views(rest@) == all.subrange(k as int, all.len() as int),
            indicators_sorted(out@),
            indicator_views(out@).to_multiset() == all.subrange(0, k as int).to_multiset(),
        decreases rest@.len(),
    {
        let ghost before_rest = rest@;
        let x = rest.remove(0);
        assert(indicator_view(x) == all[k as int]) by {
            assert(indicator_views(before_rest)[0] == indicator_view(x));
        }
        assert(indicator_views(rest@) =~= all.subrange(k + 1, all.len() as int)) by {
            assert forall|i: int| 0 <= i < rest@.len() implies indicator_views(rest@)[i] == all[k + 1 + i] by {
                assert(rest@[i] == before_rest[i + 1]);
                assert(indicator_views(before_rest)[i + 1] == all[k + 1 + i]);
            }
        }
        let mut p = out.len();
        while p > 0 && str_lt(x.indicator_name.as_str(), out[p - 1].indicator_name.as_str())
            invariant
                p <= out@.len(),
                forall|j: int| p <= j < out@.len() ==> lex_lt(vstd::utf8::encode_utf8(x.indicator_name@), vstd::utf8::encode_utf8(#[trigger] out@[j].indicator_name@)),
            decreases p,
        {
            p = p - 1;
        }
        let ghost before = out@;
        let ghost xv = indicator_view(x);
        let ghost xp = vstd::utf8::encode_utf8(x.indicator_name@);
        out.insert(p, x);
        proof {
            let ov = out@;
            assert(ov =~= before.insert(p as int, x));
            assert forall|i: int, j: int| 0 <= i < j < ov.len() implies !lex_lt(vstd::utf8::encode_utf8(ov[j].indicator_name@), vstd::utf8::encode_utf8(ov[i].indicator_name@)) by {
                if i < p && j < p {
                    assert(ov[i] == before[i] && ov[j] == before[j]);
                } else if i < p && j == p {
                    assert(ov[i] == before[i]);
                    if p > 0 {
                        let bp = vstd::utf8::encode_utf8(before[p - 1].indicator_name@);
                        let bi = vstd::utf8::encode_utf8(before[i].indicator_name@);
                        assert(!lex_lt(xp, bp));
                        lemma_lex_order(bi, bp, xp);
                        lemma_lex_order(xp, bp, bi);
                        lemma_lex_order(xp, bi, bp);
                    }
                } else if i < p {
                    assert(ov[i] == before[i] && ov[j] == before[j - 1]);
                } else if i == p {
                    assert(ov[j] == before[j - 1]);
                    let bj = vstd::utf8::encode_utf8(before[j - 1].indicator_name@);
                    assert(lex_lt(xp, bj));
                    lemma_lex_order(xp, bj, xp);
                } else {
                    assert(ov[i] == before[i - 1] && ov[j] == before[j - 1]);
                }
            }
            let bv = indicator_views(before);
            assert(indicator_views(ov) =~= bv.insert(p as int, xv));
            vstd::seq_lib::to_multiset_insert(bv, p as int, xv);
            assert(all.subrange(0, k + 1) =~= all.subrange(0, k as int).push(xv));
            vstd::seq_lib::to_multiset_insert(all.subrange(0, k as int), k as int, xv);
            assert(all.subrange(0, k as int).insert(k as int, xv) =~= all.subrange(0, k as int).push(xv));
        }
        k = k + 1;
    }
    assert(all.subrange(0, k as int) =~= all);
    out
}

/// The indicator series of `symbol` scoped to `timeframe`, sorted by indicator name, with
/// the counts of their inventory entries.
pub fn indicator_inventory(entries: &Vec<SeriesInventoryEntry>, symbol: &str, timeframe: &str) -> (r: Vec<IndicatorInventoryEntry>)
    ensures
        indicators_sorted(r@),
        indicator_views(r@).to_multiset()
            == entries@.filter(indicator_of(symbol@, timeframe@)).map_values(|e: SeriesInventoryEntry| indicator_entry(e)).to_multiset(),
{
    let ghost f = indicator_of(symbol@, timeframe@);
    let mut picked: Vec<IndicatorInventoryEntry> = Vec::new();
    let mut i: usize = 0;
    proof {
        reveal(Seq::filter);
        assert(entries@.subrange(0, 0) =~= Seq::<SeriesInventoryEntry>::empty());
        assert(indicator_views(picked@) =~= entries@.subrange(0, 0).filter(f).map_values(|e: SeriesInventoryEntry| indicator_entry(e)));
    }
    while i < entries.len()
        invariant
            i <= entries@.len(),
            f == indicator_of(symbol@, timeframe@),
            indicator_views(picked@) == entries@.subrange(0, i as int).filter(f).map_values(|e: SeriesInventoryEntry| indicator_entry(e)),
        decreases entries@.len() - i,
    {
        let ghost pre = entries@.subrange(0, i as int);
        let ghost next = entries@.subrange(0, i + 1);
        proof {
            reveal(Seq::filter);
            assert(next.drop_last() =~= pre);
            assert(next.last() == entries@[i as int]);
        }
        match indicator_candidate(&entries[i], symbol, timeframe) {
            Some(x) => {
                let ghost before = picked@;
                picked.push(x);
                proof {
                    assert(next.filter(f) == pre.filter(f).push(entries@[i as int]));
                    assert(indicator_views(picked@) =~= indicator_views(before).push(indicator_entry(entries@[i as int])));
                    assert(next.filter(f).map_values(|e: SeriesInventoryEntry| indicator_entry(e))
                        =~= pre.filter(f).map_values(|e: SeriesInventoryEntry| indicator_entry(e)).push(indicator_entry(entries@[i as int])));
                }
            },
            None => {
                proof {
                    assert(next.filter(f) == pre.filter(f));
                }
            },
        }
        i = i + 1;
    }
    proof {
        assert(entries@.subrange(0, i as int) =~= entries@);
    }
    sort_indicators(picked)
}

/// Names of the indicator series of `symbol` scoped to `timeframe`, sorted, each once.
pub fn list_indicators(entries: &Vec<SeriesInventoryEntry>, symbol: &str, timeframe: &str) -> (r: Vec<String>)
    ensures
        lex_sorted(string_views(r@)),
        forall|i: int, j: int| 0 <= i < j < r@.len() ==> r@[i]@ != r@[j]@,
        forall|n: Seq<char>| string_views(r@).contains(n) <==> exists|k: int| 0 <= k < entries@.len()
            && #[trigger] indicator_of(symbol@, timeframe@)(entries@[k]) && split_scoped(entries@[k].name@)->Some_0.1 == n,
{
    let ghost f = indicator_of(symbol@, timeframe@);
    let mut names: Vec<String> = Vec::new();
    let mut i: usize = 0;
    while i < entries.len()
        invariant
            i <= entries@.len(),
            f == indicator_of(symbol@, timeframe@),
            forall|n: Seq<char>| string_views(names@).contains(n) <==> exists|k: int| 0 <= k < i
                && #[trigger] f(entries@[k]) && split_scoped(entries@[k].name@)->Some_0.1 == n,
        decreases entries@.len() - i,
    {
        match indicator_candidate(&entries[i], symbol, timeframe) {
            Some(x) => {
                let ghost before = names@;
                names.push(x.indicator_name);
                proof {
                    assert(string_views(names@) =~= string_views(before).push(x.indicator_name@));
                    assert forall|n: Seq<char>| string_views(names@).contains(n) <==> exists|k: int| 0 <= k < i + 1
                        && #[trigger] f(entries@[k]) && split_scoped(entries@[k].name@)->Some_0.1 == n by {
                        if string_views(names@).contains(n) {
                            let q = choose|q: int| 0 <= q < string_views(names@).len() && string_views(names@)[q] == n;
                            if q == before.len() {
                                assert(f(entries@[i as int]));
                            } else {
                                assert(string_views(before)[q] == n);
                                assert(string_views(before).contains(n));
                            }
                        }
                        if exists|k: int| 0 <= k < i + 1 && #[trigger] f(entries@[k]) && split_scoped(entries@[k].name@)->Some_0.1 == n {
                            let k = choose|k: int| 0 <= k < i + 1 && #[trigger] f(entries@[k]) && split_scoped(entries@[k].name@)->Some_0.1 == n;
                            if k == i {
                                assert(string_views(names@)[before.len() as int] == n);
                            } else {
                                assert(string_views(before).contains(n));
                                let q = choose|q: int| 0 <= q < string_views(before).len() && string_views(before)[q] == n;
                                assert(string_views(names@)[q] == n);
                            }
                        }
                    }
                }
            },
            None => {},
        }
        i = i + 1;
    }
    let sorted = sort_strings(names);
    let ghost sv = string_views(sorted@);
    proof {
        assert forall|n: Seq<char>| sv.contains(n) <==> string_views(names@).contains(n) by {
            assert(sv.to_multiset().count(n) == string_views(names@).to_multiset().count(n));
            vstd::seq_lib::to_multiset_contains(sv, n);
            vstd::seq_lib::to_multiset_contains(string_views(names@), n);
        }
        assert forall|n: Seq<char>| sv.contains(n) <==> exists|k: int| 0 <= k < entries@.len()
            && #[trigger] f(entries@[k]) && split_scoped(entries@[k].name@)->Some_0.1 == n by {
            assert(sv.contains(n) <==> string_views(names@).contains(n));
        }
    }
    let mut out: Vec<String> = Vec::new();
    let mut j: usize = 0;
    while j < sorted.len()
        invariant
            j <= sorted@.len(),
            sv == string_views(sorted@),
            lex_sorted(sv),
            f == indicator_of(symbol@, timeframe@),
            forall|n: Seq<char>| sv.contains(n) <==> exists|k: int| 0 <= k < entries@.len()
                && #[trigger] f(entries@[k]) && split_scoped(entries@[k].name@)->Some_0.1 == n,
            lex_sorted(string_views(out@)),
            forall|a: int, b: int| 0 <= a < b < out@.len() ==> out@[a]@ != out@[b]@,
            forall|n: Seq<char>| string_views(out@).contains(n) <==> exists|q: int| 0 <= q < j && sv[q] == n,
            out@.len() > 0 ==> j > 0 && out@.last()@ == sv[j - 1],
        decreases sorted@.len() - j,
    {
        let fresh = out.len() == 0 || !str_eq(out[out.len() - 1].as_str(), sorted[j].as_str());
        let ghost before = out@;
        if fresh {
            out.push(owned(sorted[j].as_str()));
            proof {
                let x = sv[j as int];
                assert(string_views(out@) =~= string_views(before).push(x));
                if before.len() > 0 {
                    let last = vstd::utf8::encode_utf8(before.last()@);
                    let xb = vstd::utf8::encode_utf8(x);
                    assert(!lex_lt(xb, last));
                    assert(before.last()@ != x);
                    vstd::utf8::encode_utf8_decode_utf8(before.last()@);
                    vstd::utf8::encode_utf8_decode_utf8(x);
                    lemma_lex_order(last, xb, last);
                    assert(lex_lt(last, xb));
                    assert forall|a: int| 0 <= a < before.len() implies lex_lt(vstd::utf8::encode_utf8(before[a]@), xb) by {
                        let ba = vstd::utf8::encode_utf8(before[a]@);
                        if a < before.len() - 1 {
                            assert(string_views(before)[a] == before[a]@);
                            assert(string_views(before)[before.len() - 1] == before.last()@);
                            assert(!lex_lt(last, ba));
                            lemma_lex_order(ba, last, xb);
                            if ba == last {
                            } else {
                                lemma_lex_order(last, ba, xb);
                            }
                        }
                    }
                    assert forall|a: int, b: int| 0 <= a < b < out@.len() implies out@[a]@ != out@[b]@ by {
                        if b == before.len() {
                            assert(out@[a] == before[a]);
                            lemma_lex_order(vstd::utf8::encode_utf8(before[a]@), xb, xb);
                        } else {
                            assert(out@[a] == before[a] && out@[b] == before[b]);
                        }
                    }
                    assert forall|a: int, b: int| 0 <= a < b < string_views(out@).len() implies !lex_lt(vstd::utf8::encode_utf8(string_views(out@)[b]), vstd::utf8::encode_utf8(string_views(out@)[a])) by {
                        if b == before.len() {
                            assert(string_views(out@)[a] == before[a]@);
                            lemma_lex_order(vstd::utf8::encode_utf8(before[a]@), xb, xb);
                        } else {
                            assert(string_views(out@)[a] == string_views(before)[a]);
                            assert(string_views(out@)[b] == string_views(before)[b]);
                        }
                    }
                }
                assert forall|n: Seq<char>| string_views(out@).contains(n) <==> exists|q: int| 0 <= q < j + 1 && sv[q] == n by {
                    if string_views(out@).contains(n) {
                        let q = choose|q: int| 0 <= q < string_views(out@).len() && string_views(out@)[q] == n;
                        if q < before.len() {
                            assert(string_views(before)[q] == n);
                            assert(string_views(before).contains(n));
                        }
                    }
                    if exists|q: int| 0 <= q < j + 1 && sv[q] == n {
                        let q = choose|q: int| 0 <= q < j + 1 && sv[q] == n;
                        if q < j {
                            assert(string_views(before).contains(n));
                            let t = choose|t: int| 0 <= t < string_views(before).len() && string_views(before)[t] == n;
                            assert(string_views(out@)[t] == n);
                        } else {
                            assert(string_views(out@)[before.len() as int] == n);
                        }
                    }
                }
            }
        } else {
            proof {
                assert forall|n: Seq<char>| string_views(out@).contains(n) <==> exists|q: int| 0 <= q < j + 1 && sv[q] == n by {
                    if exists|q: int| 0 <= q < j + 1 && sv[q] == n {
                        let q = choose|q: int| 0 <= q < j + 1 && sv[q] == n;
                        if q == j {
                            assert(string_views(out@)[out@.len() - 1] == n);
                        }
                    }
                }
            }
        }
        j = j + 1;
    }
    proof {
        assert forall|n: Seq<char>| string_views(out@).contains(n) <==> sv.contains(n) by {
            if string_views(out@).contains(n) {
                let q = choose|q: int| 0 <= q < j && sv[q] == n;
                assert(sv[q] == n);
            }
            if sv.contains(n) {
                let q = choose|q: int| 0 <= q < sv.len() && sv[q] == n;
                assert(exists|q: int| 0 <= q < j && sv[q] == n);
            }
        }
        assert forall|n: Seq<char>| string_views(out@).contains(n) <==> exists|k: int| 0 <= k < entries@.len()
            && #[trigger] indicator_of(symbol@, timeframe@)(entries@[k]) && split_scoped(entries@[k].name@)->Some_0.1 == n by {
            if sv.contains(n) {
                let k = choose|k: int| 0 <= k < entries@.len() && #[trigger] f(entries@[k]) && split_scoped(entries@[k].name@)->Some_0.1 == n;
                assert(indicator_of(symbol@, timeframe@)(entries@[k]));
            }
            if exists|k: int| 0 <= k < entries@.len() && #[trigger] indicator_of(symbol@, timeframe@)(entries@[k]) && split_scoped(entries@[k].name@)->Some_0.1 == n {
                let k = choose|k: int| 0 <= k < entries@.len() && #[trigger] indicator_of(symbol@, timeframe@)(entries@[k]) && split_scoped(entries@[k].name@)->Some_0.1 == n;
                assert(f(entries@[k]));
            }
        }
    }
    out
}

} // verus!

verus! {

/// `(symbol, category, name)` of `a` sorts strictly before that of `b`, string by string.
pub open spec fn identity_lt(a: SeriesInventoryEntry, b: SeriesInventoryEntry) -> bool {
    let (sa, ca, na) = (vstd::utf8::encode_utf8(a.symbol@), vstd::utf8::encode_utf8(a.category@), vstd::utf8::encode_utf8(a.name@));
    let (sb, cb, nb) = (vstd::utf8::encode_utf8(b.symbol@), vstd::utf8::encode_utf8(b.category@), vstd::utf8::encode_utf8(b.name@));
    ||| lex_lt(sa, sb)
    ||| sa == sb && lex_lt(ca, cb)
    ||| sa == sb && ca == cb && lex_lt(na, nb)
}

proof fn lemma_identity_order(a: SeriesInventoryEntry, b: SeriesInventoryEntry, c: SeriesInventoryEntry)
    ensures
        !identity_lt(a, a),
        identity_lt(a, b) ==> !identity_lt(b, a),
        identity_lt(a, b) && identity_lt(b, c) ==> identity_lt(a, c),
        !identity_lt(a, b) && !identity_lt(b, a) && identity_lt(b, c) ==> identity_lt(a, c),
        !identity_lt(a, b) && !identity_lt(b, a) && identity_lt(c, b) ==> identity_lt(c, a),
{
    let (sa, ca, na) = (vstd::utf8::encode_utf8(a.symbol@), vstd::utf8::encode_utf8(a.category@), vstd::utf8::encode_utf8(a.name@));
    let (sb, cb, nb) = (vstd::utf8::encode_utf8(b.symbol@), vstd::utf8::encode_utf8(b.category@), vstd::utf8::encode_utf8(b.name@));
    let (sc, cc, nc) = (vstd::utf8::encode_utf8(c.symbol@), vstd::utf8::encode_utf8(c.category@), vstd::utf8::encode_utf8(c.name@));
    lemma_lex_order(sa, sb, sc);
    lemma_lex_order(ca, cb, cc);
    lemma_lex_order(na, nb, nc);
    lemma_lex_order(sb, sa, sc);
    lemma_lex_order(cb, ca, cc);
    lemma_lex_order(nb, na, nc);
    lemma_lex_order(sc, sb, sa);
    lemma_lex_order(cc, cb, ca);
    lemma_lex_order(nc, nb, na);
}

fn identity_before(a: &SeriesInventoryEntry, b: &SeriesInventoryEntry) -> (r: bool)
    ensures
        r == identity_lt(*a, *b),
{
    if str_lt(a.symbol.as_str(), b.symbol.as_str()) {
        return true;
    }
    if !str_eq(a.symbol.as_str(), b.symbol.as_str()) {
        proof {
            vstd::utf8::encode_utf8_decode_utf8(a.symbol@);
            vstd::utf8::encode_utf8_decode_utf8(b.symbol@);
        }
        return false;
    }
    if str_lt(a.category.as_str(), b.category.as_str()) {
        return true;
    }
    if !str_eq(a.category.as_str(), b.category.as_str()) {
        proof {
            vstd::utf8::encode_utf8_decode_utf8(a.category@);
            vstd::utf8::encode_utf8_decode_utf8(b.category@);
        }
        return false;
    }
    str_lt(a.name.as_str(), b.name.as_str())
}

/// Inventory entries sorted by `(symbol, category, name)`.
pub open spec fn inventory_sorted(s: Seq<SeriesInventoryEntry>) -> bool {
    forall|i: int, j: int| 0 <= i < j < s.len() ==> !identity_lt(s[j], s[i])
}

/// Sorts inventory entries by `(symbol, category, name)`, keeping the order of entries with
/// the same identity; the result holds the same entries.
pub fn sort_inventory(v: Vec<SeriesInventoryEntry>) -> (r: Vec<SeriesInventoryEntry>)
    ensures
        inventory_sorted(r@),
        r@.to_multiset() == v@.to_multiset(),
{
    broadcast use vstd::seq_lib::to_multiset_insert;
    let ghost all = v@;
    let mut rest = v;
    let mut out: Vec<SeriesInventoryEntry> = Vec::new();
    let mut k: usize = 0;
    let n = rest.len();
    assert(all.subrange(0, 0) =~= Seq::<SeriesInventoryEntry>::empty());
    assert(out@ =~= Seq::<SeriesInventoryEntry>::empty());
    while rest.len() > 0
        invariant
            n == all.len(),
            k + rest@.len() == all.len(),
            rest@ == all.subrange(k as int, all.len() as int),
            inventory_sorted(out@),
            out@.to_multiset() == all.subrange(0, k as int).to_multiset(),
        decreases rest@.len(),
    {
        let x = rest.remove(0);
        proof {
            assert(x == all[k as int]);
            assert(rest@ =~= all.subrange(k + 1, all.len() as int));
        }
        let mut p = out.len();
        while p > 0 && identity_before(&x, &out[p - 1])
            invariant
                p <= out@.len(),
                forall|j: int| p <= j < out@.len() ==> identity_lt(x, #[trigger] out@[j]),
            decreases p,
        {
            p = p - 1;
        }
        let ghost before = out@;
        out.insert(p, x);
        proof {
            let ov = out@;
            assert(ov =~= before.insert(p as int, x));
            assert forall|i: int, j: int| 0 <= i < j < ov.len() implies !identity_lt(ov[j], ov[i]) by {
                if i < p && j < p {
                    assert(ov[i] == before[i] && ov[j] == before[j]);
                } else if i < p && j == p {
                    assert(ov[i] == before[i]);
                    if p > 0 {
                        assert(!identity_lt(x, before[p - 1]));
                        lemma_identity_order(before[i], before[p - 1], x);
                        lemma_identity_order(x, before[p - 1], before[i]);
                        lemma_identity_order(before[p - 1], x, before[i]);
                        lemma_identity_order(x, before[i], before[p - 1]);
                    }
                } else if i < p {
                    assert(ov[i] == before[i] && ov[j] == before[j - 1]);
                } else if i == p {
                    assert(ov[j] == before[j - 1]);
                    assert(identity_lt(x, before[j - 1]));
                    lemma_identity_order(x, before[j - 1], x);
                } else {
                    assert(ov[i] == before[i - 1] && ov[j] == before[j - 1]);
                }
            }
            vstd::seq_lib::to_multiset_insert(before, p as int, x);
            assert(all.subrange(0, k + 1) =~= all.subrange(0, k as int).push(x));
            vstd::seq_lib::to_multiset_insert(all.subrange(0, k as int), k as int, x);
            assert(all.subrange(0, k as int).insert(k as int, x) =~= all.subrange(0, k as int).push(x));
        }
        k = k + 1;
    }
    assert(all.subrange(0, k as int) =~= all);
    out
}

/// Entries of kline series.
pub open spec fn is_kline_entry() -> spec_fn(SeriesInventoryEntry) -> bool {
    |e: SeriesInventoryEntry| e.category@ == KLINE_CATEGORY@
}

/// Entries of every other series (scalar and derived).
pub open spec fn is_scalar_entry() -> spec_fn(SeriesInventoryEntry) -> bool {
    |e: SeriesInventoryEntry| e.category@ != KLINE_CATEGORY@
}

/// The kline series among the inventory, in order.
pub fn kline_series(entries: Vec<SeriesInventoryEntry>) -> (r: Vec<SeriesInventoryEntry>)
    ensures
        r@ == entries@.filter(is_kline_entry()),
{
    keep_entries(entries, true)
}

/// The scalar and derived series among the inventory, in order.
pub fn scalar_series(entries: Vec<SeriesInventoryEntry>) -> (r: Vec<SeriesInventoryEntry>)
    ensures
        r@ == entries@.filter(is_scalar_entry()),
{
    keep_entries(entries, false)
}

fn keep_entries(entries: Vec<SeriesInventoryEntry>, kline: bool) -> (r: Vec<SeriesInventoryEntry>)
    ensures
        r@ == entries@.filter(if kline { is_kline_entry() } else { is_scalar_entry() }),
{
    let ghost all = entries@;
    let ghost f = if kline { is_kline_entry() } else { is_scalar_entry() };
    let mut rest = entries;
    let mut kept: Vec<SeriesInventoryEntry> = Vec::new();
    let mut k: usize = 0;
    let n = rest.len();
    while rest.len() > 0
        invariant
            n == all.len(),
            k + rest@.len() == all.len(),
            rest@ == all.subrange(k as int, all.len() as int),
            kept@ == all.subrange(0, k as int).filter(f),
            f == (if kline { is_kline_entry() } else { is_scalar_entry() }),
        decreases rest@.len(),
    {
        let e = rest.remove(0);
        proof {
            reveal(Seq::filter);
            assert(all.subrange(0, k + 1).drop_last() =~= all.subrange(0, k as int));
            assert(all.subrange(0, k + 1).last() == e);
        }
        if str_eq(e.category.as_str(), KLINE_CATEGORY) == kline {
            kept.push(e);
        }
        k = k + 1;
        proof {
            assert(rest@ =~= all.subrange(k as int, all.len() as int));
        }
    }
    assert(all.subrange(0, k as int) =~= all);
    kept
}

} // verus!
