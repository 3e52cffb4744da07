use fastk::error::FastKError;
use fastk::header::{ChunkHeader, CHUNK_MAGIC};
use fastk::meta::{ChunkMeta, ChunkState, RecordType, SeriesMeta};
use fastk::range_read::read_tail_in_image;
use fastk::records::{FixedRecord, KlineRecord, KLINE_SCHEMA_ID};
use fastk::write_plan::{apply_scalar_put, plan_kline_append};
use fastk::sequence::{observe_chunk_records, SequenceScanReport};
use fastk::predicate::{CompareOp, ScalarPredicate};
use fastk::records::ScalarRecord;

const FEB_2024: i64 = 1_706_745_600_000;

fn base_records() -> Vec<KlineRecord> {
    (0..6)
        .map(|i| KlineRecord {
            ts: FEB_2024 + i * 60_000,
            open: 100 + i,
            high: 101 + i,
            low: 99 + i,
            close: 100 + i,
            volume: 10 + i,
        })
        .collect()
}

fn chunk(id: u64, month: &str, start: i64, end: i64, count: u64) -> ChunkMeta {
    ChunkMeta {
        chunk_id: id,
        month_key: month.to_string(),
        start_ts: start,
        end_ts: end,
        count,
        state: ChunkState::Sealed,
        layout_version: 2,
        header_len: 128,
        sparse_index_every: 128,
        sparse_index_offset: 0,
        sparse_index_len: 0,
        chunk_checksum: 0,
        generation: 1,
        relative_path: format!("chunks/{month}.chunk"),
        sidecars: Vec::new(),
    }
}

fn meta(category: &str, record_type: RecordType, record_size: u32, chunks: Vec<ChunkMeta>) -> SeriesMeta {
    SeriesMeta {
        symbol: "BTCUSDT".to_string(),
        category: category.to_string(),
        name: "1m".to_string(),
        timeframe_ms: 60_000,
        record_type,
        record_size,
        schema_id: 1,
        price_scale: 1,
        volume_scale: 1,
        chunk_unit: "month".to_string(),
        series_id: 7,
        manifest_seq: 3,
        created_at: 1,
        updated_at: 2,
        flags: 0,
        active_chunk_id: None,
        chunks,
    }
}

fn kline_chunk_image(records: &[KlineRecord]) -> Vec<u8> {
    let header = ChunkHeader {
        magic: CHUNK_MAGIC,
        version: 2,
        header_size: 128,
        record_size: 48,
        schema_id: KLINE_SCHEMA_ID,
        series_id: 7,
        chunk_id: 1,
        generation: 1,
        timeframe_ms: 60_000,
        start_ts: records[0].ts,
        end_ts: records[records.len() - 1].ts,
        count: records.len() as u64,
        flags: 0,
        index_offset: 128 + 48 * records.len() as u64,
        index_len: 0,
        sparse_index_every: 128,
    };
    let mut bytes = header.to_le_bytes();
    for record in records {
        record.encode_le(&mut bytes);
    }
    bytes
}

#[test]
fn chunk_write_and_read_roundtrip() {
    let records = base_records();
    let bytes = kline_chunk_image(&records);
    let read = read_tail_in_image::<KlineRecord>(&bytes, usize::MAX).expect("chunk should be readable");
    assert_eq!(read, records);
}

#[test]
fn append_overlap_is_rejected() {
    let records = base_records();
    let m = meta("kline", RecordType::Kline, 48, vec![chunk(1, "2024-02", records[0].ts, records[5].ts, 6)]);
    let err = plan_kline_append(
        &m,
        &[KlineRecord { ts: 1_706_745_900_000, open: 200, high: 201, low: 199, close: 200, volume: 20 }],
    )
    .expect_err("overlap append should be rejected");
    assert!(matches!(err, FastKError::InvalidInput(_)));
}

#[test]
fn scalar_put_adds_or_replaces_the_month() {
    let mut m = meta("indicator", RecordType::Scalar, 16, vec![chunk(1, "2024-01", FEB_2024 - 10_000_000, FEB_2024 - 1, 3)]);
    let displaced = apply_scalar_put(&mut m, "2024-02", chunk(2, "2024-02", FEB_2024, FEB_2024 + 60_000, 2)).unwrap();
    assert!(displaced.is_empty());
    assert_eq!(m.chunks.len(), 2);
    assert_eq!(m.manifest_seq, 4);
    let displaced = apply_scalar_put(&mut m, "2024-02", chunk(3, "2024-02", FEB_2024, FEB_2024 + 120_000, 3)).unwrap();
    assert_eq!(displaced.len(), 1);
    assert_eq!(displaced[0].chunk_id, 2);
    assert_eq!(m.chunks.len(), 2);
    assert_eq!(m.chunks[1].chunk_id, 3);
    assert_eq!(m.chunks[0].chunk_id, 1);
    assert_eq!(m.manifest_seq, 5);
}

fn trade(ts: i64, trade_id: i64) -> fastk::records::TradeRecord {
    fastk::records::TradeRecord { ts, recv_ts: ts, trade_id, price: 1, qty: 1, side: 1, flags: 0 }
}

#[test]
fn sequence_scan_across_chunks_counts_jumps_repeats_and_reversals() {
    let mut report = SequenceScanReport::new::<fastk::records::TradeRecord>("BTCUSDT", "trade", "raw", 0, 100);
    let mut previous = None;
    observe_chunk_records(&mut report, &mut previous, &[trade(1, 10), trade(2, 11), trade(3, 11)]);
    observe_chunk_records::<fastk::records::TradeRecord>(&mut report, &mut previous, &[]);
    observe_chunk_records(&mut report, &mut previous, &[trade(4, 15), trade(5, 14)]);
    assert_eq!(report.scanned_chunk_count, 2);
    assert_eq!(report.scanned_record_count, 5);
    assert_eq!(report.duplicate_count(), 1);
    assert_eq!(report.gap_count(), 1);
    assert_eq!(report.gaps[0].missing_count, 3);
    assert_eq!(report.gaps[0].record_ordinal, 3);
    assert_eq!(report.violation_count(), 1);
    assert_eq!(report.first_sequence, Some(10));
    assert_eq!(report.last_sequence, Some(14));
    assert!(!report.is_clean());

    let mut clean = SequenceScanReport::new::<fastk::records::TradeRecord>("BTCUSDT", "trade", "raw", 0, 100);
    let mut previous = None;
    observe_chunk_records(&mut clean, &mut previous, &[trade(1, 7), trade(2, 8)]);
    observe_chunk_records(&mut clean, &mut previous, &[trade(3, 9)]);
    assert!(clean.is_clean());
}

#[test]
fn zone_map_pruning_finds_every_matching_record() {
    let values = [5, 1, 9, 3, 7, 7, 2, 8, 6, 4];
    let records: Vec<ScalarRecord> = values.iter().enumerate().map(|(i, v)| ScalarRecord { ts: 1000 + i as i64, value: *v }).collect();
    let entries = fastk::zmap::build_entries(&records, 3).unwrap();
    for (op, value) in [(CompareOp::Gt, 6), (CompareOp::Lte, 2), (CompareOp::Eq, 7)] {
        let p = ScalarPredicate { op, value, value2: None };
        let found = fastk::zmap::find_timestamps(&entries, &records, &p, 1001, 1008).unwrap();
        let expected: Vec<i64> =
            records.iter().filter(|r| r.ts >= 1001 && r.ts <= 1008 && p.matches(r.value).unwrap()).map(|r| r.ts).collect();
        assert_eq!(found, expected);
    }
}

#[test]
fn replay_batches_of_a_chunk_concatenate() {
    let records = base_records();
    let end = Some(FEB_2024 + 4 * 60_000);
    let (first, next) = fastk::replay::batch_from_records(&records, 1, end, 2);
    let (second, after) = fastk::replay::batch_from_records(&records, next, end, 3);
    let (whole, whole_next) = fastk::replay::batch_from_records(&records, 1, end, 5);
    let mut joined = first.clone();
    joined.extend(second);
    assert_eq!(first, records[1..3].to_vec());
    assert_eq!(joined, whole);
    assert_eq!(whole, records[1..5].to_vec());
    assert_eq!(after, whole_next);
    assert_eq!(whole_next, 6);
}
