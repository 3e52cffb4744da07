//! The JSON manifest of earlier stores and its migration to the binary manifest's model.
//! Parsing the JSON text is the caller's; this module holds the values it gives.
use vstd::prelude::*;
use crate::calendar::{month_key, month_key_text};
use crate::clock::now_timestamp_ms;
use crate::error::{FastKError, Result};
use crate::meta::{ChunkMeta, ChunkState, ChunkView, PartitionUnit, RecordType, SeriesMeta, SeriesView, chunks_ordered};
use crate::path::{CHUNKS_DIR, chunk_relative_path};
use crate::sparse_index::DEFAULT_SPARSE_INDEX_EVERY;
use crate::text::is_blank_chars;

verus! {

/// A chunk entry of a JSON manifest.
#[derive(Debug, Clone, PartialEq, Eq)]
pub struct LegacyChunkMeta {
    pub file_name: String,
    pub start_ts: i64,
    pub end_ts: i64,
    pub count: u64,
}

/// A JSON manifest: kline series only, with plain chunk entries.
#[derive(Debug, Clone, PartialEq, Eq)]
pub struct LegacySeriesMeta {
    pub symbol: String,
    pub category: String,
    pub name: String,
    pub timeframe_ms: i64,
    pub record_size: u32,
    pub schema_id: u32,
    pub price_scale: i64,
    pub volume_scale: i64,
    pub chunk_unit: String,
    pub series_id: u64,
    pub chunks: Vec<LegacyChunkMeta>,
}

/// chrono places the start of every chunk, so each has a month key.
pub open spec fn legacy_keyed(l: LegacySeriesMeta) -> bool {
    forall|i: int| 0 <= i < l.chunks@.len() ==> (#[trigger] month_key_text(l.chunks@[i].start_ts)) is Some
}

/// The migrated form of the chunk entry at position `i`: numbered from 1, sealed, first
/// generation, layout 1 with an 88-byte header and no index or sidecars recorded.
pub open spec fn migrated_chunk(c: LegacyChunkMeta, i: int) -> ChunkView {
    ChunkView {
        chunk_id: (i + 1) as u64,
        month_key: match month_key_text(c.start_ts) {
            Some(k) => k,
            None => Seq::empty(),
        },
        start_ts: c.start_ts,
        end_ts: c.end_ts,
        count: c.count,
        state: ChunkState::Sealed,
        layout_version: 1,
        header_len: 88,
        sparse_index_every: DEFAULT_SPARSE_INDEX_EVERY,
        sparse_index_offset: 0,
        sparse_index_len: 0,
        chunk_checksum: 0,
        generation: 1,
        relative_path: CHUNKS_DIR@ + seq!['/'] + c.file_name@,
        sidecars: Seq::empty(),
    }
}

/// The migrated manifest, stamped with time `t`: a kline series at manifest sequence 1
/// with no flags and no active chunk.
pub open spec fn migrated_series(l: LegacySeriesMeta, t: i64) -> SeriesView {
    SeriesView {
        symbol: l.symbol@,
        category: l.category@,
        name: l.name@,
        timeframe_ms: l.timeframe_ms,
        record_type: RecordType::Kline,
        record_size: l.record_size,
        schema_id: l.schema_id,
        price_scale: l.price_scale,
        volume_scale: l.volume_scale,
        chunk_unit: l.chunk_unit@,
        series_id: l.series_id,
        manifest_seq: 1,
        created_at: t,
        updated_at: t,
        flags: 0,
        active_chunk_id: None,
        chunks: Seq::new(l.chunks@.len(), |i: int| migrated_chunk(l.chunks@[i], i)),
    }
}

/// The conditions under which the migrated manifest validates.
pub open spec fn legacy_valid(l: LegacySeriesMeta) -> bool {
    &&& !is_blank_chars(l.symbol@)
    &&& !is_blank_chars(l.category@)
    &&& !is_blank_chars(l.name@)
    &&& l.record_size > 0
    &&& PartitionUnit::from_name(l.chunk_unit@) matches Some(u) && u.time_based()
    &&& forall|i: int| 0 <= i < l.chunks@.len() ==> !((#[trigger] l.chunks@[i]).count > 0 && l.chunks@[i].start_ts > l.chunks@[i].end_ts)
    &&& forall|k: int| 1 <= k < l.chunks@.len() ==> l.chunks@[k - 1].end_ts < (#[trigger] l.chunks@[k]).start_ts
}

/// A manifest with the migrated view validates exactly when the JSON manifest meets
/// `legacy_valid`.
proof fn lemma_migrated_valid(meta: SeriesMeta, l: LegacySeriesMeta, t: i64)
    requires
        meta@ == migrated_series(l, t),
    ensures
        meta.valid() <==> legacy_valid(l),
{
    assert(meta.chunks@.len() == l.chunks@.len()) by {
        assert(meta@.chunks.len() == meta.chunks@.len());
    }
    reveal_strlit("chunks");
    assert forall|j: int| 0 <= j < meta.chunks@.len() implies {
        &&& (#[trigger] meta.chunks@[j]).count == l.chunks@[j].count
        &&& meta.chunks@[j].start_ts == l.chunks@[j].start_ts
        &&& meta.chunks@[j].end_ts == l.chunks@[j].end_ts
        &&& meta.chunks@[j].sparse_index_every != 0
        &&& !is_blank_chars(meta.chunks@[j].relative_path@)
    } by {
        assert(meta@.chunks[j] == meta.chunks@[j]@);
        assert(meta.chunks@[j]@ == migrated_chunk(l.chunks@[j], j));
        assert(meta.chunks@[j].relative_path@[0] == 'c');
        assert(!crate::text::is_white_space('c'));
    }
    if legacy_valid(l) {
        assert forall|j: int| 0 <= j < meta.chunks@.len() implies #[trigger] meta.chunks@[j].valid() by {
            assert(!(l.chunks@[j].count > 0 && l.chunks@[j].start_ts > l.chunks@[j].end_ts));
        }
        assert forall|k: int| 1 <= k < meta.chunks@.len() implies meta.chunks@[k - 1].end_ts < #[trigger] meta.chunks@[k].start_ts by {
            assert(l.chunks@[k - 1].end_ts < l.chunks@[k].start_ts);
            assert(meta.chunks@[k - 1].end_ts == l.chunks@[k - 1].end_ts);
        }
    }
    if meta.valid() {
        assert forall|j: int| 0 <= j < l.chunks@.len() implies !((#[trigger] l.chunks@[j]).count > 0 && l.chunks@[j].start_ts > l.chunks@[j].end_ts) by {
            assert(meta.chunks@[j].valid());
        }
        assert forall|k: int| 1 <= k < l.chunks@.len() implies l.chunks@[k - 1].end_ts < (#[trigger] l.chunks@[k]).start_ts by {
            assert(meta.chunks@[k - 1].end_ts < meta.chunks@[k].start_ts);
            assert(meta.chunks@[k - 1].end_ts == l.chunks@[k - 1].end_ts);
            assert(meta.chunks@[k].start_ts == l.chunks@[k].start_ts);
        }
    }
}

/// Migrates a JSON manifest to the binary manifest's model, stamped with the current time:
/// `InvalidInput` when chrono cannot place a chunk's start, else `InvalidData` unless the
/// result validates.
pub fn migrate_legacy_json(legacy: LegacySeriesMeta) -> (r: Result<SeriesMeta>)
    ensures
        !legacy_keyed(legacy) ==> r matches Err(FastKError::InvalidInput(_)),
        legacy_keyed(legacy) ==> (r is Ok <==> legacy_valid(legacy)),
        legacy_keyed(legacy) && r is Err ==> r matches Err(FastKError::InvalidData(_)),
        r matches Ok(m) ==> m@ == migrated_series(legacy, m.created_at) && m.valid(),
{
    let now = now_timestamp_ms();
    let n = legacy.chunks.len();
    let mut chunks: Vec<ChunkMeta> = Vec::new();
    let mut i: usize = 0;
    while i < n
        invariant
            i <= n,
            n == legacy.chunks@.len(),
            chunks@.len() == i,
            forall|j: int| 0 <= j < i ==> (#[trigger] month_key_text(legacy.chunks@[j].start_ts)) is Some,
            forall|j: int| 0 <= j < i ==> (#[trigger] chunks@[j])@ == migrated_chunk(legacy.chunks@[j], j),
        decreases n - i,
    {
        let c = &legacy.chunks[i];
        let key = match month_key(c.start_ts) {
            Ok(k) => k,
            Err(e) => {
                assert(!legacy_keyed(legacy)) by {
                    assert(month_key_text(legacy.chunks@[i as int].start_ts) is None);
                }
                return Err(e);
            },
        };
        chunks.push(ChunkMeta {
            chunk_id: i as u64 + 1,
            month_key: key,
            start_ts: c.start_ts,
            end_ts: c.end_ts,
            count: c.count,
            state: ChunkState::Sealed,
            layout_version: 1,
            header_len: 88,
            sparse_index_every: DEFAULT_SPARSE_INDEX_EVERY,
            sparse_index_offset: 0,
            sparse_index_len: 0,
            chunk_checksum: 0,
            generation: 1,
            relative_path: chunk_relative_path(c.file_name.as_str()),
            sidecars: Vec::new(),
        });
        proof {
            assert(crate::meta::sidecar_views(Seq::<crate::meta::SidecarMeta>::empty()) =~= Seq::<crate::meta::SidecarView>::empty());
            assert(chunks@[i as int]@ == migrated_chunk(legacy.chunks@[i as int], i as int));
        }
        i = i + 1;
    }
    let ghost l = legacy;
    let meta = SeriesMeta {
        symbol: legacy.symbol,
        category: legacy.category,
        name: legacy.name,
        timeframe_ms: legacy.timeframe_ms,
        record_type: RecordType::Kline,
        record_size: legacy.record_size,
        schema_id: legacy.schema_id,
        price_scale: legacy.price_scale,
        volume_scale: legacy.volume_scale,
        chunk_unit: legacy.chunk_unit,
        series_id: legacy.series_id,
        manifest_seq: 1,
        created_at: now,
        updated_at: now,
        flags: 0,
        active_chunk_id: None,
        chunks,
    };
    proof {
        assert(meta@.chunks =~= migrated_series(l, now).chunks);
        lemma_migrated_valid(meta, l, now);
    }
    match meta.validate() {
        Ok(()) => Ok(meta),
        Err(e) => Err(e),
    }
}

} // verus!
