use fastk::cache::{CachedChunkLayout, ChunkCacheKey, ChunkHeaderCache};
use fastk::catalog::Catalog;
use fastk::error::FastKError;
use fastk::header::{ChunkHeader, CHUNK_MAGIC};
use fastk::meta::{ChunkMeta, ChunkState, PartitionPolicy, SeriesMeta};
use fastk::records::{BboRecord, ScalarRecord};
use fastk::replay::{batch_from_records, select_replay_chunks, validate_meta, ReplayCursor, ReplayOptions};
use fastk::sequence::{observe_sequence, SequenceObservation, SequenceScanReport};
use std::sync::Arc;

fn chunk(id: u64, month: &str, start: i64, end: i64, state: ChunkState, count: u64, generation: u32) -> ChunkMeta {
    ChunkMeta {
        chunk_id: id,
        month_key: month.to_string(),
        start_ts: start,
        end_ts: end,
        count,
        state,
        layout_version: 2,
        header_len: 128,
        sparse_index_every: 128,
        sparse_index_offset: 0,
        sparse_index_len: 0,
        chunk_checksum: 0,
        generation,
        relative_path: format!("chunks/{id}.chunk"),
        sidecars: vec![],
    }
}

fn bbo_meta(chunks: Vec<ChunkMeta>) -> SeriesMeta {
    let mut m = Catalog::build_fixed_meta::<BboRecord>("S", "bbo", "l1", 0, &PartitionPolicy::day());
    m.chunks = chunks;
    m
}

#[test]
fn replay_selects_sealed_chunks_in_order() {
    let m = bbo_meta(vec![
        chunk(1, "2024-02", 200, 299, ChunkState::Sealed, 5, 1),
        chunk(2, "2024-01", 100, 199, ChunkState::Sealed, 5, 1),
        chunk(3, "2024-01", 100, 150, ChunkState::Sealed, 5, 0),
        chunk(4, "2024-03", 300, 399, ChunkState::Active, 5, 1),
        chunk(5, "2024-04", 400, 499, ChunkState::Sealed, 5, 1),
    ]);
    let opts = ReplayOptions { start_ts: 120, end_ts: Some(350), batch_hint: None };
    let ids: Vec<u64> = select_replay_chunks(&m, opts).iter().map(|c| c.chunk_id).collect();
    assert_eq!(ids, vec![3, 2, 1]);
    let cursor = ReplayCursor::<BboRecord>::prepare("/s", &m, opts).unwrap();
    assert_eq!(cursor.chunks.len(), 3);
    assert!(!cursor.is_exhausted());
    let bad = ReplayOptions { start_ts: 10, end_ts: Some(5), batch_hint: None };
    assert!(matches!(ReplayCursor::<BboRecord>::prepare("/s", &m, bad), Err(FastKError::InvalidInput(_))));
    assert!(matches!(ReplayCursor::<ScalarRecord>::prepare("/s", &m, opts), Err(FastKError::InvalidData(_))));
    assert!(matches!(validate_meta::<ScalarRecord>(&m), Err(FastKError::InvalidData(_))));
}

#[test]
fn replay_cursor_seeks_and_advances() {
    let m = bbo_meta(vec![
        chunk(1, "a", 0, 50, ChunkState::Sealed, 3, 1),
        chunk(2, "a", 60, 70, ChunkState::Sealed, 0, 1),
        chunk(3, "a", 80, 90, ChunkState::Sealed, 2, 1),
    ]);
    let opts = ReplayOptions { start_ts: 40, end_ts: None, batch_hint: None };
    let mut cursor = ReplayCursor::<BboRecord>::prepare("/s", &m, opts).unwrap();
    assert_eq!(cursor.seek_candidate(40), Some(0));
    assert!(!cursor.apply_seek_index(3));
    assert_eq!(cursor.seek_candidate(40), Some(2));
    assert!(cursor.apply_seek_index(1));
    assert_eq!(cursor.current_record_index, 1);
    cursor.finish_chunk_read(2, 1, 5);
    assert!(cursor.is_exhausted());
}

#[test]
fn batches_stop_at_end_bound_and_size() {
    let rows: Vec<ScalarRecord> = (0..6).map(|i| ScalarRecord { ts: i * 10, value: i }).collect();
    let (b, next) = batch_from_records(&rows, 1, None, 2);
    assert_eq!(b.iter().map(|r| r.ts).collect::<Vec<_>>(), vec![10, 20]);
    assert_eq!(next, 3);
    let (b, next) = batch_from_records(&rows, 1, Some(25), 10);
    assert_eq!(b.len(), 2);
    assert_eq!(next, 6);
    let (b, next) = batch_from_records(&rows, 6, None, 3);
    assert!(b.is_empty());
    assert_eq!(next, 6);
}

#[test]
fn header_cache_reads_back_writes() {
    let header = ChunkHeader {
        magic: CHUNK_MAGIC,
        version: 2,
        header_size: 128,
        record_size: 16,
        schema_id: 2,
        series_id: 1,
        chunk_id: 1,
        generation: 1,
        timeframe_ms: 0,
        start_ts: 0,
        end_ts: 0,
        count: 0,
        flags: 0,
        index_offset: 128,
        index_len: 0,
        sparse_index_every: 1,
    };
    let layout = Arc::new(CachedChunkLayout { header, sparse_index: Arc::new(vec![]) });
    let c = chunk(1, "a", 0, 1, ChunkState::Sealed, 1, 1);
    let key = ChunkCacheKey::from_meta(&c, 42);
    assert_eq!(key.series_id, 42);
    assert_eq!(key.relative_path, "chunks/1.chunk");
    let mut cache = ChunkHeaderCache::new();
    assert!(cache.get(&key).is_none());
    cache.insert(key.clone(), layout.clone());
    assert!(Arc::ptr_eq(&cache.get(&key).unwrap(), &layout));
    cache.insert(key.clone(), layout.clone());
    cache.invalidate(&key);
    assert!(cache.get(&key).is_none());
    cache.insert(key.clone(), layout);
    cache.clear();
    assert!(cache.get(&key).is_none());
}

#[test]
fn sequence_observations_classify_gaps_duplicates_violations() {
    let mut report = SequenceScanReport::new::<BboRecord>("S", "bbo", "l1", 0, 100);
    assert_eq!(report.sequence_field, "sequence");
    let obs = |ts: i64, sequence: i64, ordinal: u64| SequenceObservation { ts, sequence, ordinal };
    observe_sequence(&mut report, None, obs(1, 10, 0));
    observe_sequence(&mut report, Some(obs(1, 10, 0)), obs(2, 11, 1));
    observe_sequence(&mut report, Some(obs(2, 11, 1)), obs(3, 11, 2));
    observe_sequence(&mut report, Some(obs(3, 11, 2)), obs(4, 15, 3));
    observe_sequence(&mut report, Some(obs(4, 15, 3)), obs(5, 14, 4));
    assert_eq!(report.scanned_record_count, 5);
    assert_eq!(report.first_sequence, Some(10));
    assert_eq!(report.last_sequence, Some(14));
    assert_eq!(report.duplicate_count(), 1);
    assert_eq!(report.violation_count(), 1);
    assert_eq!(report.gap_count(), 1);
    assert_eq!(report.gaps[0].missing_count, 3);
    assert_eq!(report.gaps[0].expected_sequence, 12);
    assert!(!report.is_clean());
    let trades = SequenceScanReport::new::<fastk::records::TradeRecord>("S", "trade", "t", 0, 1);
    assert_eq!(trades.sequence_field, "trade_id");
    assert!(trades.is_clean());
}
