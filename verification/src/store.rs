//! Store-level decisions and summaries: inventories, chunk ids, query routing and
//! validation, row-range merging. File access and caching stay with the caller.
use vstd::prelude::*;
use vstd::utf8::*;
use crate::chunk_reader::trunc_div;
use crate::codec::{sat_i64, sat_add_i64, sat_sub_i64};
use crate::compaction::month_runs;
use crate::error::{FastKError, Result, invalid_input, not_found};
use crate::meta::{ChunkMeta, ChunkState, RecordType, SeriesMeta, SidecarMeta};
use crate::records::FixedRecord;
use crate::path::{bytes_of, resolve_from, resolve_relative_path};
use crate::predicate::{ScalarIndexKind, ScalarPredicateQuery, ScalarPredicateQueryStats};
use crate::text::{concat3, is_blank, is_blank_chars, owned, str_eq};
use crate::calendar::partition_key_text;

verus! {

/// Largest span, in rows, that the short-range read path serves.
pub const SHORT_RANGE_MAX_ROWS: i64 = 2_048;

/// Rows per zone-map block of a scalar chunk unless the caller asks otherwise.
pub const DEFAULT_SCALAR_ZMAP_BLOCK_SIZE: usize = 256;

/// Lightweight series inventory entry exposed to integration callers.
#[derive(Debug, Clone, PartialEq, Eq)]
pub struct SeriesInventoryEntry {
    pub symbol: String,
    pub category: String,
    pub name: String,
    pub record_type: RecordType,
    pub timeframe_ms: i64,
    pub chunk_count: usize,
    pub record_count: u64,
    pub sidecar_count: usize,
    pub active_delta_count: usize,
}

/// Store-wide counts used by backtest integrations and validation tools.
#[derive(Debug, Clone, PartialEq, Eq)]
pub struct StoreStats {
    pub series_count: usize,
    pub kline_series_count: usize,
    pub scalar_series_count: usize,
    pub chunk_count: usize,
    pub record_count: u64,
    pub sidecar_count: usize,
    pub active_delta_count: usize,
}

/// Lightweight store health view for backtest integrations and admin tooling.
#[derive(Debug, Clone, PartialEq, Eq)]
pub struct StoreHealthSummary {
    pub series_count: usize,
    pub clean_series_count: usize,
    pub issue_series_count: usize,
    pub orphan_count: usize,
    pub overlap_group_count: usize,
    pub pending_recovery: bool,
    pub platform_fsync_guarantee: &'static str,
}

/// Per-month inventory summary exposed to integration callers.
#[derive(Debug, Clone, PartialEq, Eq)]
pub struct MonthInventoryEntry {
    pub month_key: String,
    pub chunk_count: usize,
    pub record_count: u64,
    pub sealed_chunk_count: usize,
    pub active_delta_count: usize,
    pub sidecar_count: usize,
}

/// Read-session reset scope used by long-running backtest processes.
#[derive(Debug, Clone, Copy, PartialEq, Eq, Structural)]
pub enum SessionResetMode {
    QueryOnly,
    Logical,
    FullDetach,
}

/// Query capabilities attached to a scalar series.
#[derive(Debug, Clone, Copy, PartialEq, Eq, Structural)]
pub struct ScalarQueryCapabilities {
    pub raw_scan: bool,
    pub has_zmap: bool,
    pub has_vix: bool,
}

/// Inventory summary for indicator series exposed through the scalar lifecycle.
#[derive(Debug, Clone, PartialEq, Eq)]
pub struct IndicatorInventoryEntry {
    pub symbol: String,
    pub timeframe: String,
    pub indicator_name: String,
    pub chunk_count: usize,
    pub record_count: u64,
    pub sidecar_count: usize,
    pub active_delta_count: usize,
}

/// Some chunk of `chunks` has a sidecar of kind `kind`.
pub open spec fn any_sidecar_of_kind(chunks: Seq<ChunkMeta>, kind: Seq<char>) -> bool {
    exists|i: int, j: int| 0 <= i < chunks.len() && 0 <= j < chunks[i].sidecars@.len()
        && (#[trigger] chunks[i].sidecars@[j]).kind@ == kind
}

/// Some sidecar of `chunk` has kind `kind`.
pub open spec fn chunk_has_kind(chunk: ChunkMeta, kind: Seq<char>) -> bool {
    exists|j: int| 0 <= j < chunk.sidecars@.len() && (#[trigger] chunk.sidecars@[j]).kind@ == kind
}

/// Whether any sidecar of `chunk` has kind `kind`.
pub fn has_sidecar_kind(chunk: &ChunkMeta, kind: &str) -> (r: bool)
    ensures
        r == chunk_has_kind(*chunk, kind@),
{
    let mut j: usize = 0;
    while j < chunk.sidecars.len()
        invariant
            j <= chunk.sidecars@.len(),
            forall|q: int| 0 <= q < j ==> (#[trigger] chunk.sidecars@[q]).kind@ != kind@,
        decreases chunk.sidecars@.len() - j,
    {
        if str_eq(chunk.sidecars[j].kind.as_str(), kind) {
            return true;
        }
        j = j + 1;
    }
    false
}

fn any_chunk_has_kind(chunks: &Vec<ChunkMeta>, kind: &str) -> (r: bool)
    ensures
        r == any_sidecar_of_kind(chunks@, kind@),
{
    let mut i: usize = 0;
    while i < chunks.len()
        invariant
            i <= chunks@.len(),
            forall|q: int| 0 <= q < i ==> !chunk_has_kind(#[trigger] chunks@[q], kind@),
        decreases chunks@.len() - i,
    {
        if has_sidecar_kind(&chunks[i], kind) {
            return true;
        }
        i = i + 1;
    }
    proof {
        if any_sidecar_of_kind(chunks@, kind@) {
            let (a, b) = choose|a: int, b: int| 0 <= a < chunks@.len() && 0 <= b < chunks@[a].sidecars@.len()
                && (#[trigger] chunks@[a].sidecars@[b]).kind@ == kind@;
            assert(chunk_has_kind(chunks@[a], kind@));
        }
    }
    false
}

impl ScalarQueryCapabilities {
    /// Raw scans always work; zone-map and value-index queries need a sidecar of that kind
    /// on some chunk.
    pub fn from_meta(meta: &SeriesMeta) -> (r: Self)
        ensures
            r.raw_scan,
            r.has_zmap == any_sidecar_of_kind(meta.chunks@, "zmap"@),
            r.has_vix == any_sidecar_of_kind(meta.chunks@, "vix"@),
    {
        let has_zmap = any_chunk_has_kind(&meta.chunks, "zmap");
        let has_vix = any_chunk_has_kind(&meta.chunks, "vix");
        ScalarQueryCapabilities { raw_scan: true, has_zmap, has_vix }
    }
}

/// Key of a series in the store's manifest cache: `symbol:category:name`.
pub fn series_cache_key(symbol: &str, category: &str, name: &str) -> (r: String)
    ensures
        r@ == symbol@ + seq![':'] + category@ + seq![':'] + name@,
{
    proof {
        reveal_strlit(":");
    }
    let a = concat3(symbol, ":", category);
    a.concat(":").concat(name)
}

/// An existing series can be registered again only with the same timeframe and scales.
pub fn validate_existing_series(existing: &SeriesMeta, timeframe_ms: i64, price_scale: i64, volume_scale: i64) -> (r: Result<()>)
    ensures
        r is Ok <==> (existing.timeframe_ms == timeframe_ms && existing.price_scale == price_scale
            && existing.volume_scale == volume_scale),
        r is Err ==> r matches Err(FastKError::InvalidInput(_)),
{
    if existing.timeframe_ms != timeframe_ms || existing.price_scale != price_scale || existing.volume_scale != volume_scale {
        return Err(invalid_input("series already exists with different configuration"));
    }
    Ok(())
}

/// Largest chunk id among `s`, 0 for none.
pub open spec fn max_chunk_id(s: Seq<ChunkMeta>) -> u64
    decreases s.len(),
{
    if s.len() == 0 {
        0
    } else {
        let m = max_chunk_id(s.drop_last());
        if s.last().chunk_id > m { s.last().chunk_id } else { m }
    }
}

/// The id for a new chunk: one past the largest in use, saturating at `u64::MAX`.
pub fn next_chunk_id(meta: &SeriesMeta) -> (r: u64)
    ensures
        r == (if max_chunk_id(meta.chunks@) < u64::MAX { (max_chunk_id(meta.chunks@) + 1) as u64 } else { u64::MAX }),
{
    let mut m: u64 = 0;
    let mut i: usize = 0;
    while i < meta.chunks.len()
        invariant
            i <= meta.chunks@.len(),
            m == max_chunk_id(meta.chunks@.subrange(0, i as int)),
        decreases meta.chunks@.len() - i,
    {
        proof {
            assert(meta.chunks@.subrange(0, i + 1).drop_last() =~= meta.chunks@.subrange(0, i as int));
        }
        if meta.chunks[i].chunk_id > m {
            m = meta.chunks[i].chunk_id;
        }
        i = i + 1;
    }
    assert(meta.chunks@.subrange(0, i as int) =~= meta.chunks@);
    m.saturating_add(1)
}

/// Estimated rows of `[start_ts, end_ts]` at one row per `timeframe_ms`: the span divided
/// (truncating) by the timeframe, plus one, with saturating arithmetic.
pub open spec fn estimated_rows(timeframe_ms: i64, start_ts: i64, end_ts: i64) -> int {
    sat_i64(trunc_div(sat_i64(end_ts - start_ts), timeframe_ms as int) + 1)
}

/// Whether a range query should take the short-range path: a positive timeframe and at
/// most `SHORT_RANGE_MAX_ROWS` estimated rows.
pub fn should_use_short_range_path(timeframe_ms: i64, start_ts: i64, end_ts: i64) -> (r: bool)
    ensures
        r == (timeframe_ms > 0 && estimated_rows(timeframe_ms, start_ts, end_ts) <= SHORT_RANGE_MAX_ROWS),
{
    if timeframe_ms <= 0 {
        return false;
    }
    let span = sat_sub_i64(end_ts, start_ts);
    let estimated = sat_add_i64(span / timeframe_ms, 1);
    estimated <= SHORT_RANGE_MAX_ROWS
}

/// Rows to reserve for a short-range read: the estimate clamped to
/// `[0, SHORT_RANGE_MAX_ROWS]`, or the maximum when the timeframe is not positive.
pub fn estimate_short_range_rows(timeframe_ms: i64, start_ts: i64, end_ts: i64) -> (r: usize)
    ensures
        timeframe_ms <= 0 ==> r == SHORT_RANGE_MAX_ROWS,
        timeframe_ms > 0 ==> r == (if estimated_rows(timeframe_ms, start_ts, end_ts) < 0 {
            0
        } else if estimated_rows(timeframe_ms, start_ts, end_ts) > SHORT_RANGE_MAX_ROWS {
            SHORT_RANGE_MAX_ROWS as int
        } else {
            estimated_rows(timeframe_ms, start_ts, end_ts)
        }),
{
    if timeframe_ms <= 0 {
        return 2048;
    }
    let span = sat_sub_i64(end_ts, start_ts);
    let estimated = sat_add_i64(span / timeframe_ms, 1);
    if estimated < 0 {
        0
    } else if estimated > SHORT_RANGE_MAX_ROWS {
        2048
    } else {
        estimated as usize
    }
}

/// Index of the first sidecar of `chunk` with kind `kind`.
pub open spec fn first_sidecar_of_kind(chunk: ChunkMeta, kind: Seq<char>, j: int) -> bool {
    0 <= j < chunk.sidecars@.len() && chunk.sidecars@[j].kind@ == kind && forall|q: int|
        0 <= q < j ==> (#[trigger] chunk.sidecars@[q]).kind@ != kind
}

/// Path of the first sidecar of kind `kind` of `chunk`, resolved under `series_dir`;
/// `NotFound` when the chunk has none.
pub fn load_sidecar_path(series_dir: &str, chunk: &ChunkMeta, kind: &str) -> (r: Result<String>)
    ensures
        !chunk_has_kind(*chunk, kind@) ==> r matches Err(FastKError::NotFound(_)),
        chunk_has_kind(*chunk, kind@) ==> exists|j: int| first_sidecar_of_kind(*chunk, kind@, j) && (r matches Ok(p)
            && bytes_of(p@) == resolve_from(bytes_of(series_dir@), bytes_of(chunk.sidecars@[j].relative_path@), Seq::empty())),
{
    let mut j: usize = 0;
    while j < chunk.sidecars.len()
        invariant
            j <= chunk.sidecars@.len(),
            forall|q: int| 0 <= q < j ==> (#[trigger] chunk.sidecars@[q]).kind@ != kind@,
        decreases chunk.sidecars@.len() - j,
    {
        if str_eq(chunk.sidecars[j].kind.as_str(), kind) {
            let p = resolve_relative_path(series_dir, chunk.sidecars[j].relative_path.as_str());
            assert(first_sidecar_of_kind(*chunk, kind@, j as int));
            return Ok(p);
        }
        j = j + 1;
    }
    Err(not_found("missing sidecar for chunk"))
}

/// The query names a series (no blank key field), its window is ordered, and its value
/// predicate is well formed.
pub fn validate_scalar_predicate_query(query: &ScalarPredicateQuery) -> (r: Result<()>)
    ensures
        r is Ok <==> (!is_blank_chars(query.key.symbol@) && !is_blank_chars(query.key.category@)
            && !is_blank_chars(query.key.name@) && query.start_ts <= query.end_ts && query.predicate.well_formed()),
        r is Err ==> r matches Err(FastKError::InvalidInput(_)),
{
    if is_blank(query.key.symbol.as_str()) || is_blank(query.key.category.as_str()) || is_blank(query.key.name.as_str()) {
        return Err(invalid_input("scalar predicate query key fields must not be empty"));
    }
    if query.start_ts > query.end_ts {
        return Err(invalid_input("scalar predicate query start_ts must be <= end_ts"));
    }
    query.predicate.validate()
}

/// Index kind recorded after one more part of a query used `next`: a full scan never
/// downgrades an index, and zone map plus value index combine.
pub open spec fn combined_index(current: Option<ScalarIndexKind>, next: ScalarIndexKind) -> ScalarIndexKind {
    match current {
        None => next,
        Some(ScalarIndexKind::FullScan) => next,
        Some(existing) => if next is FullScan {
            existing
        } else if existing == next {
            existing
        } else {
            ScalarIndexKind::ZoneMapAndValueIndex
        },
    }
}

/// Records that part of a query used index `kind`.
pub fn mark_index_used(stats: &mut ScalarPredicateQueryStats, kind: ScalarIndexKind)
    ensures
        final(stats).index_used == Some(combined_index(old(stats).index_used, kind)),
        final(stats).chunks_considered == old(stats).chunks_considered,
        final(stats).chunks_pruned == old(stats).chunks_pruned,
        final(stats).chunks_scanned == old(stats).chunks_scanned,
        final(stats).blocks_considered == old(stats).blocks_considered,
        final(stats).blocks_pruned == old(stats).blocks_pruned,
        final(stats).blocks_scanned == old(stats).blocks_scanned,
        final(stats).rows_checked == old(stats).rows_checked,
        final(stats).rows_matched == old(stats).rows_matched,
        final(stats).fallback_scan == old(stats).fallback_scan,
{
    let next = match (stats.index_used, kind) {
        (None, next) => next,
        (Some(ScalarIndexKind::FullScan), next) => next,
        (Some(existing), ScalarIndexKind::FullScan) => existing,
        (Some(ScalarIndexKind::ZoneMap), ScalarIndexKind::ValueIndex) => ScalarIndexKind::ZoneMapAndValueIndex,
        (Some(ScalarIndexKind::ValueIndex), ScalarIndexKind::ZoneMap) => ScalarIndexKind::ZoneMapAndValueIndex,
        (Some(ScalarIndexKind::ZoneMapAndValueIndex), _) => ScalarIndexKind::ZoneMapAndValueIndex,
        (Some(existing), next) => if existing == next {
            existing
        } else {
            ScalarIndexKind::ZoneMapAndValueIndex
        },
    };
    stats.index_used = Some(next);
}

} // verus!

verus! {

/// Abstract month inventory entry.
pub struct MonthInventoryView {
    pub month_key: Seq<char>,
    pub chunk_count: nat,
    pub record_count: nat,
    pub sealed_chunk_count: nat,
    pub active_delta_count: nat,
    pub sidecar_count: nat,
}

/// The entry's abstract value.
pub open spec fn month_entry_view(e: MonthInventoryEntry) -> MonthInventoryView {
    MonthInventoryView {
        month_key: e.month_key@,
        chunk_count: e.chunk_count as nat,
        record_count: e.record_count as nat,
        sealed_chunk_count: e.sealed_chunk_count as nat,
        active_delta_count: e.active_delta_count as nat,
        sidecar_count: e.sidecar_count as nat,
    }
}

/// `a + b` saturating at `u64::MAX`.
pub open spec fn sat_u64_add(a: nat, b: nat) -> nat {
    if a + b > u64::MAX { u64::MAX as nat } else { a + b }
}

/// Inventory of the chunk list: one entry per run of consecutive chunks of the same month,
/// counting its chunks, rows (saturating), sealed and active chunks, and sidecars.
pub open spec fn month_inventory_spec(s: Seq<ChunkMeta>) -> Seq<MonthInventoryView>
    decreases s.len(),
{
    if s.len() == 0 {
        Seq::empty()
    } else {
        let r = month_inventory_spec(s.drop_last());
        let c = s.last();
        let sealed: nat = if c.state is Sealed { 1 } else { 0 };
        let active: nat = if c.state is Active { 1 } else { 0 };
        if r.len() > 0 && r.last().month_key == c.month_key@ {
            let e = r.last();
            r.update(
                r.len() - 1,
                MonthInventoryView {
                    month_key: e.month_key,
                    chunk_count: e.chunk_count + 1,
                    record_count: sat_u64_add(e.record_count, c.count as nat),
                    sealed_chunk_count: e.sealed_chunk_count + sealed,
                    active_delta_count: e.active_delta_count + active,
                    sidecar_count: e.sidecar_count + c.sidecars@.len(),
                },
            )
        } else {
            r.push(
                MonthInventoryView {
                    month_key: c.month_key@,
                    chunk_count: 1,
                    record_count: c.count as nat,
                    sealed_chunk_count: sealed,
                    active_delta_count: active,
                    sidecar_count: c.sidecars@.len(),
                },
            )
        }
    }
}

/// Number of sidecars over all chunks.
pub open spec fn total_sidecars(s: Seq<ChunkMeta>) -> nat
    decreases s.len(),
{
    if s.len() == 0 { 0 } else { total_sidecars(s.drop_last()) + s.last().sidecars@.len() }
}

proof fn lemma_inventory_bounds(s: Seq<ChunkMeta>)
    ensures
        forall|k: int| 0 <= k < month_inventory_spec(s).len() ==> (#[trigger] month_inventory_spec(s)[k]).chunk_count <= s.len()
            && month_inventory_spec(s)[k].sidecar_count <= total_sidecars(s)
            && month_inventory_spec(s)[k].sealed_chunk_count <= month_inventory_spec(s)[k].chunk_count
            && month_inventory_spec(s)[k].active_delta_count <= month_inventory_spec(s)[k].chunk_count
            && month_inventory_spec(s)[k].record_count <= u64::MAX,
    decreases s.len(),
{
    if s.len() > 0 {
        let pre = s.drop_last();
        lemma_inventory_bounds(pre);
        let r = month_inventory_spec(pre);
        let q = month_inventory_spec(s);
        assert forall|k: int| 0 <= k < q.len() implies (#[trigger] q[k]).chunk_count <= s.len()
            && q[k].sidecar_count <= total_sidecars(s) && q[k].sealed_chunk_count <= q[k].chunk_count
            && q[k].active_delta_count <= q[k].chunk_count && q[k].record_count <= u64::MAX by {
            if k < r.len() {
                assert(r[k].chunk_count <= pre.len());
                assert(r[k].sidecar_count <= total_sidecars(pre));
            }
        }
    }
}

/// Per-month inventory of a series, in chunk order.
pub fn month_inventory(meta: &SeriesMeta) -> (r: Vec<MonthInventoryEntry>)
    requires
        total_sidecars(meta.chunks@) <= usize::MAX,
    ensures
        r@.map_values(|e: MonthInventoryEntry| month_entry_view(e)) == month_inventory_spec(meta.chunks@),
{
    let ghost all = meta.chunks@;
    let mut months: Vec<MonthInventoryEntry> = Vec::new();
    let mut i: usize = 0;
    while i < meta.chunks.len()
        invariant
            i <= all.len(),
            all == meta.chunks@,
            total_sidecars(all) <= usize::MAX,
            months@.map_values(|e: MonthInventoryEntry| month_entry_view(e)) == month_inventory_spec(all.subrange(0, i as int)),
        decreases all.len() - i,
    {
        let chunk = &meta.chunks[i];
        let ghost pre = all.subrange(0, i as int);
        let ghost before = months@;
        proof {
            assert(all.subrange(0, i + 1).drop_last() =~= pre);
            assert(all.subrange(0, i + 1).last() == all[i as int]);
            lemma_inventory_bounds(all.subrange(0, i + 1));
            lemma_total_sidecars_prefix(all, i + 1);
        }
        let sealed: usize = match chunk.state {
            ChunkState::Sealed => 1,
            _ => 0,
        };
        let active: usize = match chunk.state {
            ChunkState::Active => 1,
            _ => 0,
        };
        let same = months.len() > 0 && str_eq(months[months.len() - 1].month_key.as_str(), chunk.month_key.as_str());
        if same {
            let mut e = months.pop().unwrap();
            proof {
                let spec_prev = month_inventory_spec(pre);
                assert(month_entry_view(e) == spec_prev.last());
                assert(spec_prev.len() == before.len());
                let nxt = month_inventory_spec(all.subrange(0, i + 1));
                assert(nxt.len() == spec_prev.len());
                assert(nxt[nxt.len() - 1].chunk_count == e.chunk_count + 1);
            }
            e.chunk_count = e.chunk_count + 1;
            e.record_count = e.record_count.saturating_add(chunk.count);
            e.sealed_chunk_count = e.sealed_chunk_count + sealed;
            e.active_delta_count = e.active_delta_count + active;
            e.sidecar_count = e.sidecar_count + chunk.sidecars.len();
            months.push(e);
        } else {
            months.push(
                MonthInventoryEntry {
                    month_key: owned(chunk.month_key.as_str()),
                    chunk_count: 1,
                    record_count: chunk.count,
                    sealed_chunk_count: sealed,
                    active_delta_count: active,
                    sidecar_count: chunk.sidecars.len(),
                },
            );
        }
        proof {
            assert(months@.map_values(|e: MonthInventoryEntry| month_entry_view(e)) =~= month_inventory_spec(all.subrange(0, i + 1)));
        }
        i = i + 1;
    }
    assert(all.subrange(0, i as int) =~= all);
    months
}

proof fn lemma_total_sidecars_prefix(s: Seq<ChunkMeta>, k: int)
    requires
        0 <= k <= s.len(),
    ensures
        total_sidecars(s.subrange(0, k)) <= total_sidecars(s),
    decreases s.len() - k,
{
    if k < s.len() {
        lemma_total_sidecars_prefix(s, k + 1);
        assert(s.subrange(0, k + 1).drop_last() =~= s.subrange(0, k));
    } else {
        assert(s.subrange(0, k) =~= s);
    }
}

} // verus!

verus! {

/// `RangeInclusive::start`: the lower bound, as the range was made (std leaves it
/// unspecified once iteration has run the range out).
#[verifier::external_body]
pub(crate) fn range_start(r: &core::ops::RangeInclusive<u32>) -> (x: u32)
    ensures
        !r@.exhausted ==> x == r@.start,
{
    *r.start()
}

/// `RangeInclusive::end`: the upper bound, as the range was made (std leaves it unspecified
/// once iteration has run the range out).
#[verifier::external_body]
pub(crate) fn range_end(r: &core::ops::RangeInclusive<u32>) -> (x: u32)
    ensures
        !r@.exhausted ==> x == r@.end,
{
    *r.end()
}

/// Where a pair starting at `s` goes in a list sorted by first component: after every pair
/// that starts at or before `s`.
pub open spec fn pair_insert_pos(v: Seq<(u32, u32)>, s: u32) -> int
    decreases v.len(),
{
    if v.len() == 0 || v.last().0 <= s {
        v.len() as int
    } else {
        pair_insert_pos(v.drop_last(), s)
    }
}

/// Stable sort of pairs by their first component.
pub open spec fn sort_pairs(v: Seq<(u32, u32)>) -> Seq<(u32, u32)>
    decreases v.len(),
{
    if v.len() == 0 {
        v
    } else {
        let r = sort_pairs(v.drop_last());
        r.insert(pair_insert_pos(r, v.last().0), v.last())
    }
}

/// Merges a list of ranges sorted by start: a range that starts at most one past the
/// current range's end extends it, any other starts a new range.
pub open spec fn merge_sorted_ranges(v: Seq<(u32, u32)>) -> Seq<(u32, u32)>
    decreases v.len(),
{
    if v.len() == 0 {
        v
    } else {
        let r = merge_sorted_ranges(v.drop_last());
        let x = v.last();
        if r.len() > 0 && x.0 <= r.last().1 + 1 {
            r.update(r.len() - 1, (r.last().0, if x.1 > r.last().1 { x.1 } else { r.last().1 }))
        } else {
            r.push(x)
        }
    }
}

/// The bounds of each range.
pub open spec fn range_pairs(v: Seq<core::ops::RangeInclusive<u32>>) -> Seq<(u32, u32)> {
    v.map_values(|r: core::ops::RangeInclusive<u32>| (r@.start, r@.end))
}

/// Sorts ranges by start (stably) and merges the ones that overlap or touch.
pub fn merge_row_ranges(ranges: &[core::ops::RangeInclusive<u32>]) -> (r: Vec<core::ops::RangeInclusive<u32>>)
    ensures
        (forall|i: int| 0 <= i < ranges@.len() ==> !(#[trigger] ranges@[i])@.exhausted) ==> (range_pairs(r@)
            == merge_sorted_ranges(sort_pairs(range_pairs(ranges@)))
            && forall|i: int| 0 <= i < r@.len() ==> !(#[trigger] r@[i])@.exhausted),
{
    let ghost input = range_pairs(ranges@);
    let ghost fresh = forall|i: int| 0 <= i < ranges@.len() ==> !(#[trigger] ranges@[i])@.exhausted;
    let mut sorted: Vec<(u32, u32)> = Vec::new();
    let mut k: usize = 0;
    while k < ranges.len()
        invariant
            k <= ranges@.len(),
            input == range_pairs(ranges@),
            fresh == (forall|i: int| 0 <= i < ranges@.len() ==> !(#[trigger] ranges@[i])@.exhausted),
            fresh ==> sorted@ == sort_pairs(input.subrange(0, k as int)),
        decreases ranges@.len() - k,
    {
        let s = range_start(&ranges[k]);
        let e = range_end(&ranges[k]);
        let ghost before = sorted@;
        let mut p = sorted.len();
        proof {
            assert(before.subrange(0, p as int) =~= before);
        }
        while p > 0 && sorted[p - 1].0 > s
            invariant
                p <= sorted@.len(),
                sorted@ == before,
                pair_insert_pos(before, s) == pair_insert_pos(before.subrange(0, p as int), s),
            decreases p,
        {
            proof {
                assert(before.subrange(0, p as int).drop_last() =~= before.subrange(0, p - 1));
            }
            p = p - 1;
        }
        sorted.insert(p, (s, e));
        proof {
            if fresh {
                assert(!ranges@[k as int]@.exhausted);
                assert(input.subrange(0, k + 1).drop_last() =~= input.subrange(0, k as int));
                assert(input.subrange(0, k + 1).last() == (s, e));
            }
        }
        k = k + 1;
    }
    proof {
        assert(input.subrange(0, k as int) =~= input);
    }
    let mut out: Vec<core::ops::RangeInclusive<u32>> = Vec::new();
    if sorted.len() == 0 {
        proof {
            assert(range_pairs(out@) =~= Seq::<(u32, u32)>::empty());
        }
        return out;
    }
    let ghost sv = sorted@;
    let mut cur_start = sorted[0].0;
    let mut cur_end = sorted[0].1;
    let mut j: usize = 1;
    proof {
        assert(sv.subrange(0, 1).drop_last() =~= Seq::<(u32, u32)>::empty());
        assert(range_pairs(out@) =~= Seq::<(u32, u32)>::empty());
        assert(sv.subrange(0, 1).last() == sv[0]);
        assert(merge_sorted_ranges(Seq::<(u32, u32)>::empty()) =~= Seq::<(u32, u32)>::empty());
        assert(range_pairs(out@).push((cur_start, cur_end)) =~= merge_sorted_ranges(sv.subrange(0, 1)));
    }
    while j < sorted.len()
        invariant
            1 <= j <= sv.len(),
            sorted@ == sv,
            range_pairs(out@).push((cur_start, cur_end)) == merge_sorted_ranges(sv.subrange(0, j as int)),
            forall|i: int| 0 <= i < out@.len() ==> !(#[trigger] out@[i])@.exhausted,
        decreases sv.len() - j,
    {
        let (s, e) = sorted[j];
        let ghost before = out@;
        proof {
            assert(sv.subrange(0, j + 1).drop_last() =~= sv.subrange(0, j as int));
            assert(sv.subrange(0, j + 1).last() == (s, e));
        }
        if s <= cur_end.saturating_add(1) {
            if e > cur_end {
                cur_end = e;
            }
            proof {
                assert(range_pairs(out@).push((cur_start, cur_end)) =~= merge_sorted_ranges(sv.subrange(0, j + 1)));
            }
        } else {
            out.push(core::ops::RangeInclusive::new(cur_start, cur_end));
            cur_start = s;
            cur_end = e;
            proof {
                assert(range_pairs(out@) =~= range_pairs(before).push(merge_sorted_ranges(sv.subrange(0, j as int)).last()));
                assert(range_pairs(out@).push((cur_start, cur_end)) =~= merge_sorted_ranges(sv.subrange(0, j + 1)));
            }
        }
        j = j + 1;
    }
    let ghost before = out@;
    out.push(core::ops::RangeInclusive::new(cur_start, cur_end));
    proof {
        assert(sv.subrange(0, j as int) =~= sv);
        assert(range_pairs(out@) =~= range_pairs(before).push((cur_start, cur_end)));
    }
    out
}

} // verus!

verus! {

/// Run of consecutive records that fall in one partition.
pub struct FixedPartitionBatch<'a, R> {
    pub partition_key: String,
    pub records: &'a [R],
}

/// The records of the batches, one batch after another.
pub open spec fn batch_records<'a, R>(b: Seq<FixedPartitionBatch<'a, R>>) -> Seq<R>
    decreases b.len(),
{
    if b.len() == 0 {
        Seq::empty()
    } else {
        batch_records(b.drop_last()) + b.last().records@
    }
}

/// chrono places every record's timestamp, so that each has a partition key of `unit`.
pub open spec fn all_keyed<R: FixedRecord>(records: Seq<R>, unit: crate::meta::PartitionUnit) -> bool {
    forall|j: int| 0 <= j < records.len() ==> (#[trigger] partition_key_text(records[j].spec_ts(), unit)) is Some
}

/// Every record's timestamp has the partition key `key` of `unit`.
pub open spec fn keyed_by<R: FixedRecord>(records: Seq<R>, unit: crate::meta::PartitionUnit, key: Seq<char>) -> bool {
    forall|j: int| 0 <= j < records.len() ==> #[trigger] partition_key_text(records[j].spec_ts(), unit) == Some(key)
}

/// Splits timestamp-ordered records into runs of consecutive records whose partition keys
/// (of `partition_unit`) agree; `InvalidInput` for no records or a key that cannot be made.
pub fn split_fixed_records_by_partition<'a, R: FixedRecord>(records: &'a [R], partition_unit: crate::meta::PartitionUnit) -> (r: Result<Vec<FixedPartitionBatch<'a, R>>>)
    ensures
        records@.len() == 0 ==> r matches Err(FastKError::InvalidInput(_)),
        r is Err ==> r matches Err(FastKError::InvalidInput(_)),
        records@.len() > 0 && all_keyed(records@, partition_unit) ==> r is Ok,
        r matches Ok(b) ==> b@.len() > 0 && batch_records(b@) == records@
            && (forall|k: int| 0 <= k < b@.len() ==> (#[trigger] b@[k]).records@.len() > 0)
            && (forall|k: int| 0 <= k < b@.len() ==> keyed_by(#[trigger] b@[k].records@, partition_unit, b@[k].partition_key@))
            && (forall|k: int| 1 <= k < b@.len() ==> (#[trigger] b@[k]).partition_key@ != b@[k - 1].partition_key@),
{
    if records.len() == 0 {
        return Err(invalid_input("records must not be empty"));
    }
    let n = records.len();
    let mut batches: Vec<FixedPartitionBatch<'a, R>> = Vec::new();
    let mut start: usize = 0;
    let mut current = crate::calendar::partition_key(records[0].ts(), partition_unit)?;
    let mut i: usize = 1;
    while i < n
        invariant
            0 <= start < i <= n,
            n == records@.len(),
            batch_records(batches@) == records@.subrange(0, start as int),
            forall|k: int| 0 <= k < batches@.len() ==> (#[trigger] batches@[k]).records@.len() > 0,
            forall|k: int| 1 <= k < batches@.len() ==> (#[trigger] batches@[k]).partition_key@ != batches@[k - 1].partition_key@,
            batches@.len() > 0 ==> batches@.last().partition_key@ != current@,
            forall|k: int| 0 <= k < batches@.len() ==> keyed_by(#[trigger] batches@[k].records@, partition_unit, batches@[k].partition_key@),
            keyed_by(records@.subrange(start as int, i as int), partition_unit, current@),
        decreases n - i,
    {
        let key = crate::calendar::partition_key(records[i].ts(), partition_unit)?;
        if !str_eq(key.as_str(), current.as_str()) {
            let ghost before = batches@;
            let slice = &records[start..i];
            batches.push(FixedPartitionBatch { partition_key: current, records: slice });
            proof {
                assert(batch_records(batches@).len() >= 0);
                assert(batches@.drop_last() =~= before);
                assert(records@.subrange(0, start as int) + records@.subrange(start as int, i as int) =~= records@.subrange(0, i as int));
            }
            start = i;
            current = key;
        }
        i = i + 1;
    }
    let ghost before = batches@;
    let slice = &records[start..n];
    batches.push(FixedPartitionBatch { partition_key: current, records: slice });
    proof {
        assert(batches@.drop_last() =~= before);
        assert(records@.subrange(0, start as int) + records@.subrange(start as int, n as int) =~= records@);
    }
    Ok(batches)
}

} // verus!

verus! {

/// Row `x` lies in one of the ranges.
pub open spec fn covers_row(v: Seq<(u32, u32)>, x: int) -> bool {
    exists|i: int| 0 <= i < v.len() && (#[trigger] v[i]).0 <= x && x <= v[i].1
}

/// Pairs sorted by first component.
pub open spec fn pairs_sorted(v: Seq<(u32, u32)>) -> bool {
    forall|i: int, j: int| 0 <= i <= j < v.len() ==> v[i].0 <= v[j].0
}

/// Ranges that are not empty, in order, each starting more than one row past the end of
/// the one before.
pub open spec fn separated(m: Seq<(u32, u32)>) -> bool {
    &&& forall|j: int| 0 <= j < m.len() ==> m[j].0 <= m[j].1
    &&& forall|j: int, k: int| 0 <= j < k < m.len() ==> m[j].1 + 1 < m[k].0
}

proof fn lemma_pair_insert_pos(v: Seq<(u32, u32)>, s: u32)
    ensures
        0 <= pair_insert_pos(v, s) <= v.len(),
        forall|j: int| pair_insert_pos(v, s) <= j < v.len() ==> #[trigger] v[j].0 > s,
        pairs_sorted(v) ==> forall|j: int| 0 <= j < pair_insert_pos(v, s) ==> #[trigger] v[j].0 <= s,
    decreases v.len(),
{
    if v.len() > 0 && v.last().0 > s {
        let pre = v.drop_last();
        lemma_pair_insert_pos(pre, s);
        assert forall|j: int| pair_insert_pos(v, s) <= j < v.len() implies #[trigger] v[j].0 > s by {
            if j < pre.len() {
                assert(v[j] == pre[j]);
            }
        }
        if pairs_sorted(v) {
            assert(pairs_sorted(pre)) by {
                assert forall|i: int, j: int| 0 <= i <= j < pre.len() implies pre[i].0 <= pre[j].0 by {
                    assert(pre[i] == v[i] && pre[j] == v[j]);
                }
            }
            assert forall|j: int| 0 <= j < pair_insert_pos(v, s) implies #[trigger] v[j].0 <= s by {
                assert(v[j] == pre[j]);
            }
        }
    } else if v.len() > 0 {
        if pairs_sorted(v) {
            assert forall|j: int| 0 <= j < pair_insert_pos(v, s) implies #[trigger] v[j].0 <= s by {
                assert(v[j].0 <= v[v.len() - 1].0);
            }
        }
    }
}

proof fn lemma_sort_pairs(v: Seq<(u32, u32)>)
    ensures
        pairs_sorted(sort_pairs(v)),
        sort_pairs(v).len() == v.len(),
        forall|x: int| covers_row(sort_pairs(v), x) == covers_row(v, x),
        (forall|i: int| 0 <= i < v.len() ==> v[i].0 <= v[i].1) ==> forall|i: int| 0 <= i < sort_pairs(v).len()
            ==> sort_pairs(v)[i].0 <= sort_pairs(v)[i].1,
    decreases v.len(),
{
    if v.len() > 0 {
        let pre = v.drop_last();
        lemma_sort_pairs(pre);
        let r = sort_pairs(pre);
        let y = v.last();
        let p = pair_insert_pos(r, y.0);
        lemma_pair_insert_pos(r, y.0);
        let q = r.insert(p, y);
        assert(sort_pairs(v) == q);
        assert forall|i: int, j: int| 0 <= i <= j < q.len() implies q[i].0 <= q[j].0 by {
            if i < p && j < p {
                assert(q[i] == r[i] && q[j] == r[j]);
            } else if i < p && j == p {
                assert(q[i] == r[i]);
            } else if i < p {
                assert(q[i] == r[i] && q[j] == r[j - 1]);
            } else if i == p && j > p {
                assert(q[j] == r[j - 1]);
            } else if i > p {
                assert(q[i] == r[i - 1] && q[j] == r[j - 1]);
            }
        }
        assert forall|x: int| covers_row(q, x) == covers_row(v, x) by {
            if covers_row(q, x) {
                let i = choose|i: int| 0 <= i < q.len() && (#[trigger] q[i]).0 <= x && x <= q[i].1;
                if i == p {
                    assert(v[v.len() - 1] == y);
                } else {
                    let ri = if i < p { i } else { i - 1 };
                    assert(q[i] == r[ri]);
                    assert(covers_row(r, x));
                    assert(covers_row(pre, x));
                    let k = choose|k: int| 0 <= k < pre.len() && (#[trigger] pre[k]).0 <= x && x <= pre[k].1;
                    assert(v[k] == pre[k]);
                }
            }
            if covers_row(v, x) {
                let k = choose|k: int| 0 <= k < v.len() && (#[trigger] v[k]).0 <= x && x <= v[k].1;
                if k == v.len() - 1 {
                    assert(q[p] == y);
                } else {
                    assert(pre[k] == v[k]);
                    assert(covers_row(pre, x));
                    assert(covers_row(r, x));
                    let i = choose|i: int| 0 <= i < r.len() && (#[trigger] r[i]).0 <= x && x <= r[i].1;
                    let qi = if i < p { i } else { i + 1 };
                    assert(q[qi] == r[i]);
                }
            }
        }
        if forall|i: int| 0 <= i < v.len() ==> v[i].0 <= v[i].1 {
            assert forall|i: int| 0 <= i < pre.len() implies pre[i].0 <= pre[i].1 by {
                assert(pre[i] == v[i]);
            }
            assert forall|i: int| 0 <= i < q.len() implies q[i].0 <= q[i].1 by {
                if i < p {
                    assert(q[i] == r[i]);
                } else if i > p {
                    assert(q[i] == r[i - 1]);
                } else {
                    assert(v[v.len() - 1] == y);
                }
            }
        }
    }
}

proof fn lemma_merge_sorted(v: Seq<(u32, u32)>)
    requires
        pairs_sorted(v),
        forall|i: int| 0 <= i < v.len() ==> v[i].0 <= v[i].1,
    ensures
        separated(merge_sorted_ranges(v)),
        forall|x: int| covers_row(merge_sorted_ranges(v), x) == covers_row(v, x),
        v.len() > 0 ==> merge_sorted_ranges(v).len() > 0 && merge_sorted_ranges(v).last().0 <= v.last().0,
    decreases v.len(),
{
    if v.len() > 0 {
        let pre = v.drop_last();
        assert(pairs_sorted(pre)) by {
            assert forall|i: int, j: int| 0 <= i <= j < pre.len() implies pre[i].0 <= pre[j].0 by {
                assert(pre[i] == v[i] && pre[j] == v[j]);
            }
        }
        assert forall|i: int| 0 <= i < pre.len() implies pre[i].0 <= pre[i].1 by {
            assert(pre[i] == v[i]);
        }
        lemma_merge_sorted(pre);
        let r = merge_sorted_ranges(pre);
        let y = v.last();
        assert(y.0 <= y.1) by {
            assert(v[v.len() - 1] == y);
        }
        if pre.len() > 0 {
            assert(r.last().0 <= pre.last().0);
            assert(pre.last().0 <= y.0) by {
                assert(pre[pre.len() - 1] == v[v.len() - 2]);
            }
        }
        let m = merge_sorted_ranges(v);
        if r.len() > 0 && y.0 <= r.last().1 + 1 {
            let hi: u32 = if y.1 > r.last().1 { y.1 } else { r.last().1 };
            assert(m == r.update(r.len() - 1, (r.last().0, hi)));
            assert forall|j: int, k: int| 0 <= j < k < m.len() implies m[j].1 + 1 < m[k].0 by {
                assert(m[j] == r[j]);
                if k < m.len() - 1 {
                    assert(m[k] == r[k]);
                }
            }
            assert forall|x: int| covers_row(m, x) == covers_row(v, x) by {
                if covers_row(m, x) {
                    let i = choose|i: int| 0 <= i < m.len() && (#[trigger] m[i]).0 <= x && x <= m[i].1;
                    if i < m.len() - 1 {
                        assert(m[i] == r[i]);
                        assert(covers_row(r, x));
                        assert(covers_row(pre, x));
                        let k = choose|k: int| 0 <= k < pre.len() && (#[trigger] pre[k]).0 <= x && x <= pre[k].1;
                        assert(v[k] == pre[k]);
                    } else if x <= r.last().1 {
                        assert(covers_row(r, x));
                        assert(covers_row(pre, x));
                        let k = choose|k: int| 0 <= k < pre.len() && (#[trigger] pre[k]).0 <= x && x <= pre[k].1;
                        assert(v[k] == pre[k]);
                    } else {
                        assert(v[v.len() - 1] == y);
                    }
                }
                if covers_row(v, x) {
                    let k = choose|k: int| 0 <= k < v.len() && (#[trigger] v[k]).0 <= x && x <= v[k].1;
                    if k < v.len() - 1 {
                        assert(pre[k] == v[k]);
                        assert(covers_row(pre, x));
                        let i = choose|i: int| 0 <= i < r.len() && (#[trigger] r[i]).0 <= x && x <= r[i].1;
                        if i < r.len() - 1 {
                            assert(m[i] == r[i]);
                        } else {
                            assert(m[m.len() - 1].0 <= x <= m[m.len() - 1].1);
                        }
                    } else {
                        assert(m[m.len() - 1].0 <= x <= m[m.len() - 1].1);
                    }
                }
            }
        } else {
            assert(m == r.push(y));
            assert forall|j: int, k: int| 0 <= j < k < m.len() implies m[j].1 + 1 < m[k].0 by {
                assert(m[j] == r[j]);
                if k < m.len() - 1 {
                    assert(m[k] == r[k]);
                } else if j < r.len() - 1 {
                    assert(r[j].1 + 1 < r[r.len() - 1].0);
                }
            }
            assert forall|x: int| covers_row(m, x) == covers_row(v, x) by {
                if covers_row(m, x) {
                    let i = choose|i: int| 0 <= i < m.len() && (#[trigger] m[i]).0 <= x && x <= m[i].1;
                    if i < m.len() - 1 {
                        assert(m[i] == r[i]);
                        assert(covers_row(r, x));
                        assert(covers_row(pre, x));
                        let k = choose|k: int| 0 <= k < pre.len() && (#[trigger] pre[k]).0 <= x && x <= pre[k].1;
                        assert(v[k] == pre[k]);
                    } else {
                        assert(v[v.len() - 1] == y);
                    }
                }
                if covers_row(v, x) {
                    let k = choose|k: int| 0 <= k < v.len() && (#[trigger] v[k]).0 <= x && x <= v[k].1;
                    if k < v.len() - 1 {
                        assert(pre[k] == v[k]);
                        assert(covers_row(pre, x));
                        let i = choose|i: int| 0 <= i < r.len() && (#[trigger] r[i]).0 <= x && x <= r[i].1;
                        assert(m[i] == r[i]);
                    } else {
                        assert(m[m.len() - 1] == y);
                    }
                }
            }
        }
    }
}

/// Merging ranges that are not empty gives ranges that are not empty, sorted, neither
/// overlapping nor touching, and covering exactly the rows the input ranges cover.
pub proof fn merged_ranges_cover_the_same_rows(v: Seq<(u32, u32)>)
    requires
        forall|i: int| 0 <= i < v.len() ==> v[i].0 <= v[i].1,
    ensures
        separated(merge_sorted_ranges(sort_pairs(v))),
        forall|x: int| covers_row(merge_sorted_ranges(sort_pairs(v)), x) == covers_row(v, x),
{
    lemma_sort_pairs(v);
    lemma_merge_sorted(sort_pairs(v));
}

} // verus!
