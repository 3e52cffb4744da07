//! Decisions a write makes before it touches a file: which chunk id, generation, file name
//! and state the next chunk of a partition gets, when an append is refused, and which
//! chunks a month merge takes.
use vstd::prelude::*;
use crate::calendar::{month_key, month_key_text, zero_padded};
use crate::compaction::transition_allowed;
use crate::error::{FastKError, Result, invalid_data, invalid_input};
use crate::manifest::{
    chunks_in_month, chunks_outside_month, last_active_id, next_manifest_seq, replace_month_chunks, sort_by_start, upserted,
    upsert_chunk_meta,
};
use crate::meta::{ChunkMeta, ChunkState, ChunkView, PartitionUnit, SeriesMeta, SeriesView};
use crate::path::{CHUNKS_DIR, chunk_relative_path, partition_chunk_file_name, partition_delta_chunk_file_name, partition_merged_chunk_file_name};
use crate::records::{FixedRecord, KlineRecord, ScalarRecord, ts_ordered};
use crate::store::{max_chunk_id, next_chunk_id};

verus! {

/// Where and how the next chunk of a partition is written.
#[derive(Debug, Clone, PartialEq, Eq)]
pub struct ChunkWritePlan {
    pub partition_key: String,
    pub chunk_id: u64,
    pub generation: u32,
    pub file_name: String,
    pub relative_path: String,
    pub state: ChunkState,
    /// The new chunk takes the place of every chunk already in the partition.
    pub replaces_partition: bool,
}

/// Index of the last chunk of `s` whose partition key is `key`.
pub open spec fn last_with_key(s: Seq<ChunkMeta>, key: Seq<char>) -> Option<int>
    decreases s.len(),
{
    if s.len() == 0 {
        None
    } else if s.last().month_key@ == key {
        Some(s.len() - 1)
    } else {
        last_with_key(s.drop_last(), key)
    }
}

/// Largest generation among the chunks of `s` in partition `key`, 0 for none.
pub open spec fn partition_max_generation(s: Seq<ChunkMeta>, key: Seq<char>) -> u32
    decreases s.len(),
{
    if s.len() == 0 {
        0
    } else {
        let m = partition_max_generation(s.drop_last(), key);
        if s.last().month_key@ == key && s.last().generation > m {
            s.last().generation
        } else {
            m
        }
    }
}

/// One past `g`, saturating at the maximum.
pub open spec fn succ_u32(g: u32) -> u32 {
    if g < u32::MAX { (g + 1) as u32 } else { g }
}

/// The id of a new chunk: one past the largest in use, saturating at the maximum.
pub open spec fn fresh_chunk_id(s: Seq<ChunkMeta>) -> u64 {
    if max_chunk_id(s) < u64::MAX { (max_chunk_id(s) + 1) as u64 } else { u64::MAX }
}

/// The generation a new chunk of partition `key` gets.
pub open spec fn next_partition_generation(s: Seq<ChunkMeta>, key: Seq<char>) -> u32 {
    succ_u32(partition_max_generation(s, key))
}

/// An append starting at `first_ts` does not begin after the partition's last chunk.
pub open spec fn append_overlaps(s: Seq<ChunkMeta>, key: Seq<char>, first_ts: i64) -> bool {
    last_with_key(s, key) matches Some(i) && first_ts <= s[i].end_ts
}

/// `p` is the plan of an append of records starting at `first_ts` to partition `key`: the
/// first chunk of a partition is sealed under the partition's own name, later ones are
/// active deltas named by generation.
pub open spec fn is_append_plan(s: Seq<ChunkMeta>, key: Seq<char>, p: ChunkWritePlan) -> bool {
    let g = next_partition_generation(s, key);
    &&& p.partition_key@ == key
    &&& p.chunk_id == fresh_chunk_id(s)
    &&& p.generation == g
    &&& p.relative_path@ == CHUNKS_DIR@ + seq!['/'] + p.file_name@
    &&& !p.replaces_partition
    &&& last_with_key(s, key) is None ==> p.state is Sealed && p.file_name@ == key + ".chunk"@
    &&& last_with_key(s, key) is Some ==> p.state is Active && p.file_name@ == key + ".delta.g"@
        + zero_padded(g as nat, 8) + ".chunk"@
}

/// `p` is the plan of a rewrite of partition `key`: a sealed chunk under the partition's
/// own name when the partition is empty, else a sealed chunk named by generation that
/// replaces the partition's chunks.
pub open spec fn is_rewrite_plan(s: Seq<ChunkMeta>, key: Seq<char>, p: ChunkWritePlan) -> bool {
    let g = next_partition_generation(s, key);
    &&& p.partition_key@ == key
    &&& p.chunk_id == fresh_chunk_id(s)
    &&& p.generation == g
    &&& p.relative_path@ == CHUNKS_DIR@ + seq!['/'] + p.file_name@
    &&& p.state is Sealed
    &&& p.replaces_partition == (last_with_key(s, key) is Some)
    &&& last_with_key(s, key) is None ==> p.file_name@ == key + ".chunk"@
    &&& last_with_key(s, key) is Some ==> p.file_name@ == key + ".g"@ + zero_padded(g as nat, 8)
        + ".chunk"@
}

/// The last chunk of partition `key` and the largest generation in it.
fn scan_partition(chunks: &Vec<ChunkMeta>, key: &str) -> (r: (Option<usize>, u32))
    ensures
        r.0 matches Some(i) ==> i < chunks@.len() && last_with_key(chunks@, key@) == Some(i as int),
        r.0 is None ==> last_with_key(chunks@, key@) is None,
        r.1 == partition_max_generation(chunks@, key@),
{
    let mut last: Option<usize> = None;
    let mut gen: u32 = 0;
    let mut i: usize = 0;
    while i < chunks.len()
        invariant
            i <= chunks@.len(),
            last matches Some(j) ==> j < i && last_with_key(chunks@.subrange(0, i as int), key@) == Some(j as int),
            last is None ==> last_with_key(chunks@.subrange(0, i as int), key@) is None,
            gen == partition_max_generation(chunks@.subrange(0, i as int), key@),
        decreases chunks@.len() - i,
    {
        proof {
            assert(chunks@.subrange(0, i + 1).drop_last() =~= chunks@.subrange(0, i as int));
        }
        if crate::text::str_eq(chunks[i].month_key.as_str(), key) {
            last = Some(i);
            if chunks[i].generation > gen {
                gen = chunks[i].generation;
            }
        }
        i = i + 1;
    }
    assert(chunks@.subrange(0, i as int) =~= chunks@);
    (last, gen)
}

/// Plans an append of records whose first timestamp is `first_ts` to partition
/// `partition_key`: `InvalidInput` when the records do not begin after the partition's
/// last chunk.
pub fn plan_partition_append(meta: &SeriesMeta, partition_key: &str, first_ts: i64) -> (r: Result<ChunkWritePlan>)
    ensures
        append_overlaps(meta.chunks@, partition_key@, first_ts) <==> r is Err,
        r is Err ==> r matches Err(FastKError::InvalidInput(_)),
        r matches Ok(p) ==> is_append_plan(meta.chunks@, partition_key@, p),
{
    let (last, gmax) = scan_partition(&meta.chunks, partition_key);
    let chunk_id = next_chunk_id(meta);
    let generation = gmax.saturating_add(1);
    let (file_name, state) = match last {
        None => (partition_chunk_file_name(partition_key), ChunkState::Sealed),
        Some(i) => {
            if first_ts <= meta.chunks[i].end_ts {
                return Err(invalid_input("append overlaps existing partition chunk"));
            }
            (partition_delta_chunk_file_name(partition_key, generation), ChunkState::Active)
        },
    };
    let relative_path = chunk_relative_path(file_name.as_str());
    Ok(ChunkWritePlan {
        partition_key: crate::text::owned(partition_key),
        chunk_id,
        generation,
        file_name,
        relative_path,
        state,
        replaces_partition: false,
    })
}

/// Plans a kline write: the records must be non-empty and strictly ordered, chrono must
/// place the first, and they go to the UTC month of the first record, after its last chunk.
pub fn plan_kline_append(meta: &SeriesMeta, records: &[KlineRecord]) -> (r: Result<ChunkWritePlan>)
    ensures
        r is Err ==> r matches Err(FastKError::InvalidInput(_)),
        r is Ok <==> (records@.len() > 0 && ts_ordered(records@)
            && (month_key_text(records@[0].ts) matches Some(k)
            && !append_overlaps(meta.chunks@, k, records@[0].ts))),
        r matches Ok(p) ==> month_key_text(records@[0].ts) == Some(p.partition_key@)
            && is_append_plan(meta.chunks@, p.partition_key@, p),
{
    KlineRecord::validate_strict_order(records)?;
    let month = month_key(records[0].ts)?;
    plan_partition_append(meta, month.as_str(), records[0].ts)
}

/// Plans a scalar write: the records must be non-empty and strictly ordered and chrono must
/// place the first; the chunk rewrites the UTC month of the first record.
pub fn plan_scalar_put(meta: &SeriesMeta, records: &[ScalarRecord]) -> (r: Result<ChunkWritePlan>)
    ensures
        r is Err ==> r matches Err(FastKError::InvalidInput(_)),
        r is Ok <==> records@.len() > 0 && ts_ordered(records@) && month_key_text(records@[0].ts) is Some,
        r matches Ok(p) ==> month_key_text(records@[0].ts) == Some(p.partition_key@)
            && is_rewrite_plan(meta.chunks@, p.partition_key@, p),
{
    ScalarRecord::validate_strict_order(records)?;
    let month = month_key(records[0].ts)?;
    let (last, gmax) = scan_partition(&meta.chunks, month.as_str());
    let chunk_id = next_chunk_id(meta);
    let generation = gmax.saturating_add(1);
    let file_name = match last {
        None => partition_chunk_file_name(month.as_str()),
        Some(_) => partition_merged_chunk_file_name(month.as_str(), generation),
    };
    let relative_path = chunk_relative_path(file_name.as_str());
    Ok(ChunkWritePlan {
        partition_key: month,
        chunk_id,
        generation,
        file_name,
        relative_path,
        state: ChunkState::Sealed,
        replaces_partition: last.is_some(),
    })
}

/// The series stores records of type `R`: same record type, schema id and record size.
pub open spec fn holds_records_of<R: FixedRecord>(meta: SeriesMeta) -> bool {
    &&& meta.record_type == R::spec_record_type()
    &&& meta.schema_id == R::spec_schema_id()
    &&& meta.record_size as nat == R::spec_byte_size()
}

/// `InvalidData` unless the series stores records of type `R`.
pub fn check_fixed_record_type<R: FixedRecord>(meta: &SeriesMeta) -> (r: Result<()>)
    ensures
        r is Ok <==> holds_records_of::<R>(*meta),
        r is Err ==> r matches Err(FastKError::InvalidData(_)),
{
    if meta.record_type != R::record_type() || meta.schema_id != R::schema_id() || meta.record_size as usize != R::byte_size() {
        return Err(invalid_data("series does not match requested fixed record type"));
    }
    Ok(())
}

/// An existing scalar series can be written again only with its own timeframe.
pub fn check_scalar_timeframe(existing: &SeriesMeta, timeframe_ms: i64) -> (r: Result<()>)
    ensures
        r is Ok <==> existing.timeframe_ms == timeframe_ms,
        r is Err ==> r matches Err(FastKError::InvalidInput(_)),
{
    if existing.timeframe_ms != timeframe_ms {
        return Err(invalid_input("scalar series already exists with a different timeframe_ms"));
    }
    Ok(())
}

/// An existing fixed-record series can be registered again only with its own timeframe,
/// record type and partition unit: `InvalidInput` for another timeframe, then
/// `InvalidData` for another record type, then `InvalidInput` for another unit.
pub fn check_existing_fixed_series<R: FixedRecord>(existing: &SeriesMeta, timeframe_ms: i64, unit: PartitionUnit) -> (r: Result<()>)
    ensures
        r is Ok <==> existing.timeframe_ms == timeframe_ms && holds_records_of::<R>(*existing)
            && existing.chunk_unit@ == unit.name(),
        existing.timeframe_ms != timeframe_ms ==> r matches Err(FastKError::InvalidInput(_)),
        existing.timeframe_ms == timeframe_ms && !holds_records_of::<R>(*existing) ==> r matches Err(FastKError::InvalidData(_)),
        existing.timeframe_ms == timeframe_ms && holds_records_of::<R>(*existing) && existing.chunk_unit@ != unit.name()
            ==> r matches Err(FastKError::InvalidInput(_)),
{
    check_scalar_timeframe(existing, timeframe_ms)?;
    check_fixed_record_type::<R>(existing)?;
    if !crate::text::str_eq(existing.chunk_unit.as_str(), unit.as_str()) {
        return Err(invalid_input("series already exists with a different chunk_unit"));
    }
    Ok(())
}

/// The partition unit a fixed-record write of `R` uses: `InvalidData` when the series holds
/// another record type or an unknown unit, `InvalidInput` when the unit is not time-based.
pub fn fixed_write_unit<R: FixedRecord>(meta: &SeriesMeta) -> (r: Result<PartitionUnit>)
    ensures
        r is Ok <==> (holds_records_of::<R>(*meta) && (PartitionUnit::from_name(meta.chunk_unit@) matches Some(u)
            && u.time_based())),
        r matches Ok(u) ==> PartitionUnit::from_name(meta.chunk_unit@) == Some(u),
        !holds_records_of::<R>(*meta) ==> r matches Err(FastKError::InvalidData(_)),
        holds_records_of::<R>(*meta) && PartitionUnit::from_name(meta.chunk_unit@) is None ==> r matches Err(FastKError::InvalidData(_)),
        (holds_records_of::<R>(*meta) && (PartitionUnit::from_name(meta.chunk_unit@) matches Some(u) && !u.time_based()))
            ==> r matches Err(FastKError::InvalidInput(_)),
{
    check_fixed_record_type::<R>(meta)?;
    let unit = PartitionUnit::from_str(meta.chunk_unit.as_str())?;
    if !unit.is_time_based() {
        return Err(invalid_input("partition unit is not implemented for fixed record writes"));
    }
    Ok(unit)
}

/// Enters a written chunk in the manifest (replacing an entry with its id, keeping the list
/// sorted by start) and makes it the active chunk when it is an active delta.
pub fn record_written_chunk(meta: &mut SeriesMeta, chunk_meta: ChunkMeta) -> (r: Result<()>)
    ensures
        final(meta).chunks@ == sort_by_start(upserted(old(meta).chunks@, chunk_meta)),
        final(meta).manifest_seq == next_manifest_seq(old(meta).manifest_seq),
        final(meta).active_chunk_id == if r is Ok && chunk_meta.state is Active { Some(chunk_meta.chunk_id) } else { old(meta).active_chunk_id },
        final(meta)@ == (SeriesView {
            chunks: final(meta)@.chunks,
            manifest_seq: final(meta).manifest_seq,
            updated_at: final(meta).updated_at,
            active_chunk_id: final(meta).active_chunk_id,
            ..old(meta)@
        }),
        r is Ok <==> final(meta).valid(),
        r is Err ==> r matches Err(FastKError::InvalidData(_)),
{
    let active = match chunk_meta.state {
        ChunkState::Active => true,
        _ => false,
    };
    let id = chunk_meta.chunk_id;
    upsert_chunk_meta(meta, chunk_meta)?;
    if active {
        meta.active_chunk_id = Some(id);
    }
    Ok(())
}

/// Number of chunks of `s` in partition `key`.
pub open spec fn partition_count(s: Seq<ChunkMeta>, key: Seq<char>) -> nat
    decreases s.len(),
{
    if s.len() == 0 {
        0
    } else {
        partition_count(s.drop_last(), key) + if s.last().month_key@ == key { 1nat } else { 0nat }
    }
}

/// Every chunk of partition `key` may move to `Merging`.
pub open spec fn partition_mergeable(s: Seq<ChunkMeta>, key: Seq<char>) -> bool {
    forall|i: int| 0 <= i < s.len() && (#[trigger] s[i]).month_key@ == key ==> transition_allowed(s[i].state, ChunkState::Merging)
}

/// Some chunk of partition `key` is `Active`.
pub open spec fn partition_has_active(s: Seq<ChunkMeta>, key: Seq<char>) -> bool {
    exists|i: int| 0 <= i < s.len() && (#[trigger] s[i]).month_key@ == key && s[i].state is Active
}

/// The chunk a month merge writes in place of the month's chunks.
#[derive(Debug, Clone, PartialEq, Eq)]
pub struct MonthMergePlan {
    pub month_key: String,
    pub chunk_id: u64,
    pub generation: u32,
    pub file_name: String,
    pub relative_path: String,
    pub state: ChunkState,
}

fn scan_month_for_merge(chunks: &Vec<ChunkMeta>, key: &str) -> (r: (usize, bool, bool, u32))
    ensures
        r.0 == partition_count(chunks@, key@),
        r.1 == partition_mergeable(chunks@, key@),
        r.2 == partition_has_active(chunks@, key@),
        r.3 == partition_max_generation(chunks@, key@),
{
    let mut count: usize = 0;
    let mut mergeable = true;
    let mut active = false;
    let mut gen: u32 = 0;
    let mut i: usize = 0;
    while i < chunks.len()
        invariant
            i <= chunks@.len(),
            count == partition_count(chunks@.subrange(0, i as int), key@),
            count <= i,
            mergeable == partition_mergeable(chunks@.subrange(0, i as int), key@),
            active == partition_has_active(chunks@.subrange(0, i as int), key@),
            gen == partition_max_generation(chunks@.subrange(0, i as int), key@),
        decreases chunks@.len() - i,
    {
        let ghost pre = chunks@.subrange(0, i as int);
        let ghost next = chunks@.subrange(0, i + 1);
        proof {
            assert(next.drop_last() =~= pre);
            assert(next.last() == chunks@[i as int]);
        }
        if crate::text::str_eq(chunks[i].month_key.as_str(), key) {
            count = count + 1;
            if !crate::compaction::can_transition(chunks[i].state, ChunkState::Merging) {
                mergeable = false;
                assert(!partition_mergeable(next, key@)) by {
                    assert(next[i as int] == chunks@[i as int]);
                }
            } else {
                assert(partition_mergeable(next, key@) == partition_mergeable(pre, key@)) by {
                    if partition_mergeable(pre, key@) {
                        assert forall|j: int| 0 <= j < next.len() && (#[trigger] next[j]).month_key@ == key@
                            implies transition_allowed(next[j].state, ChunkState::Merging) by {
                            if j < i {
                                assert(next[j] == pre[j]);
                            }
                        }
                    } else {
                        let j = choose|j: int| 0 <= j < pre.len() && (#[trigger] pre[j]).month_key@ == key@
                            && !transition_allowed(pre[j].state, ChunkState::Merging);
                        assert(next[j] == pre[j]);
                    }
                }
            }
            match chunks[i].state {
                ChunkState::Active => {
                    active = true;
                    assert(next[i as int].state is Active);
                },
                _ => {
                    assert(partition_has_active(next, key@) == partition_has_active(pre, key@)) by {
                        if partition_has_active(pre, key@) {
                            let j = choose|j: int| 0 <= j < pre.len() && (#[trigger] pre[j]).month_key@ == key@ && pre[j].state is Active;
                            assert(next[j] == pre[j]);
                        }
                        if partition_has_active(next, key@) {
                            let j = choose|j: int| 0 <= j < next.len() && (#[trigger] next[j]).month_key@ == key@ && next[j].state is Active;
                            assert(j < i);
                            assert(next[j] == pre[j]);
                        }
                    }
                },
            }
            if chunks[i].generation > gen {
                gen = chunks[i].generation;
            }
        } else {
            assert(partition_mergeable(next, key@) == partition_mergeable(pre, key@)) by {
                if partition_mergeable(pre, key@) {
                    assert forall|j: int| 0 <= j < next.len() && (#[trigger] next[j]).month_key@ == key@
                        implies transition_allowed(next[j].state, ChunkState::Merging) by {
                        assert(j < i);
                        assert(next[j] == pre[j]);
                    }
                } else {
                    let j = choose|j: int| 0 <= j < pre.len() && (#[trigger] pre[j]).month_key@ == key@
                        && !transition_allowed(pre[j].state, ChunkState::Merging);
                    assert(next[j] == pre[j]);
                }
            }
            assert(partition_has_active(next, key@) == partition_has_active(pre, key@)) by {
                if partition_has_active(pre, key@) {
                    let j = choose|j: int| 0 <= j < pre.len() && (#[trigger] pre[j]).month_key@ == key@ && pre[j].state is Active;
                    assert(next[j] == pre[j]);
                }
                if partition_has_active(next, key@) {
                    let j = choose|j: int| 0 <= j < next.len() && (#[trigger] next[j]).month_key@ == key@ && next[j].state is Active;
                    assert(j < i);
                    assert(next[j] == pre[j]);
                }
            }
        }
        i = i + 1;
    }
    assert(chunks@.subrange(0, i as int) =~= chunks@);
    (count, mergeable, active, gen)
}

/// Plans the merge of month `month_key`: nothing for at most one chunk; `InvalidData` when a
/// chunk of the month cannot move to `Merging`; else a chunk with a fresh id and the next
/// generation, named by generation, `Active` when any source is active.
pub fn plan_month_merge(meta: &SeriesMeta, month_key: &str) -> (r: Result<Option<MonthMergePlan>>)
    ensures
        partition_count(meta.chunks@, month_key@) <= 1 ==> r matches Ok(None),
        partition_count(meta.chunks@, month_key@) > 1 && !partition_mergeable(meta.chunks@, month_key@)
            ==> r matches Err(FastKError::InvalidData(_)),
        partition_count(meta.chunks@, month_key@) > 1 && partition_mergeable(meta.chunks@, month_key@)
            ==> r matches Ok(Some(p)),
        r matches Ok(Some(p)) ==> {
            let g = next_partition_generation(meta.chunks@, month_key@);
            &&& p.month_key@ == month_key@
            &&& p.chunk_id == fresh_chunk_id(meta.chunks@)
            &&& p.generation == g
            &&& p.file_name@ == month_key@ + ".g"@ + zero_padded(g as nat, 8) + ".chunk"@
            &&& p.relative_path@ == CHUNKS_DIR@ + seq!['/'] + p.file_name@
            &&& (if partition_has_active(meta.chunks@, month_key@) { p.state is Active } else { p.state is Sealed })
        },
{
    let (count, mergeable, active, gmax) = scan_month_for_merge(&meta.chunks, month_key);
    if count <= 1 {
        return Ok(None);
    }
    if !mergeable {
        return Err(invalid_data("a chunk of the month cannot move to merging"));
    }
    let generation = gmax.saturating_add(1);
    let file_name = partition_merged_chunk_file_name(month_key, generation);
    let relative_path = chunk_relative_path(file_name.as_str());
    Ok(Some(MonthMergePlan {
        month_key: crate::text::owned(month_key),
        chunk_id: next_chunk_id(meta),
        generation,
        file_name,
        relative_path,
        state: if active { ChunkState::Active } else { ChunkState::Sealed },
    }))
}

/// Moves every chunk of month `month_key` to `Merging`, leaving all else as it was.
pub fn mark_month_merging(meta: &mut SeriesMeta, month_key: &str)
    ensures
        final(meta).chunks@.len() == old(meta).chunks@.len(),
        forall|i: int| 0 <= i < old(meta).chunks@.len() ==> (#[trigger] final(meta).chunks@[i])@ == if old(meta).chunks@[i].month_key@ == month_key@ {
            ChunkView { state: ChunkState::Merging, ..old(meta).chunks@[i]@ }
        } else {
            old(meta).chunks@[i]@
        },
        final(meta)@ == (SeriesView { chunks: final(meta)@.chunks, ..old(meta)@ }),
{
    let ghost before = meta.chunks@;
    let mut i: usize = 0;
    while i < meta.chunks.len()
        invariant
            i <= meta.chunks@.len(),
            meta.chunks@.len() == before.len(),
            meta@ == (SeriesView { chunks: meta@.chunks, ..old(meta)@ }),
            before == old(meta).chunks@,
            forall|j: int| 0 <= j < i ==> (#[trigger] meta.chunks@[j])@ == if before[j].month_key@ == month_key@ {
                ChunkView { state: ChunkState::Merging, ..before[j]@ }
            } else {
                before[j]@
            },
            forall|j: int| i <= j < before.len() ==> #[trigger] meta.chunks@[j] == before[j],
        decreases before.len() - i,
    {
        if crate::text::str_eq(meta.chunks[i].month_key.as_str(), month_key) {
            let mut c = meta.chunks[i].duplicate();
            c.state = ChunkState::Merging;
            meta.chunks.set(i, c);
        }
        i = i + 1;
    }
}

/// Some chunk of `chunks` lies in month `key`.
pub open spec fn month_has_chunk(chunks: Seq<ChunkMeta>, key: Seq<char>) -> bool {
    exists|i: int| 0 <= i < chunks.len() && #[trigger] chunks[i].month_key@ == key
}

/// Applies a scalar chunk write to the manifest. With no chunk yet in the month the new
/// entry is added (or takes the place of the entry with its id); otherwise it replaces every
/// chunk of the month. Returns the entries it displaced from the month (none in the first
/// case), whose sidecars the caller removes.
pub fn apply_scalar_put(meta: &mut SeriesMeta, month_key: &str, cm: ChunkMeta) -> (r: Result<Vec<ChunkMeta>>)
    ensures
        !month_has_chunk(old(meta).chunks@, month_key@) ==> {
            &&& final(meta).chunks@ == sort_by_start(upserted(old(meta).chunks@, cm))
            &&& final(meta).manifest_seq == next_manifest_seq(old(meta).manifest_seq)
            &&& final(meta)@ == (SeriesView {
                chunks: final(meta)@.chunks,
                manifest_seq: final(meta).manifest_seq,
                updated_at: final(meta).updated_at,
                ..old(meta)@
            })
            &&& r matches Ok(v) ==> v@.len() == 0
        },
        month_has_chunk(old(meta).chunks@, month_key@) ==> {
            &&& final(meta).chunks@ == sort_by_start(chunks_outside_month(old(meta).chunks@, month_key@).push(cm))
            &&& final(meta).active_chunk_id == last_active_id(final(meta).chunks@)
            &&& final(meta).manifest_seq == next_manifest_seq(old(meta).manifest_seq)
            &&& final(meta)@ == (SeriesView {
                chunks: final(meta)@.chunks,
                active_chunk_id: final(meta).active_chunk_id,
                manifest_seq: final(meta).manifest_seq,
                updated_at: final(meta).updated_at,
                ..old(meta)@
            })
            &&& r matches Ok(v) ==> v@ == chunks_in_month(old(meta).chunks@, month_key@)
        },
        r is Ok <==> final(meta).valid(),
        r is Err ==> r matches Err(FastKError::InvalidData(_)),
{
    let indices = meta.chunk_indices_for_month(month_key);
    if indices.len() == 0 {
        proof {
            if month_has_chunk(old(meta).chunks@, month_key@) {
                let i = choose|i: int| 0 <= i < old(meta).chunks@.len() && #[trigger] old(meta).chunks@[i].month_key@ == month_key@;
                assert(indices@.contains(i as usize));
            }
        }
        upsert_chunk_meta(meta, cm)?;
        Ok(Vec::new())
    } else {
        proof {
            let j = indices@[0] as int;
            assert(old(meta).chunks@[j].month_key@ == month_key@);
        }
        replace_month_chunks(meta, month_key, cm)
    }
}

} // verus!
