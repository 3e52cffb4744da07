use fastk::error::FastKError;
use fastk::meta::{ChunkMeta, ChunkState, RecordType, SeriesMeta};

fn sample_meta() -> SeriesMeta {
    SeriesMeta {
        symbol: "BTCUSDT".to_string(),
        category: "kline".to_string(),
        name: "1m".to_string(),
        timeframe_ms: 60_000,
        record_type: RecordType::Kline,
        record_size: 48,
        schema_id: 1,
        price_scale: 100_000,
        volume_scale: 100_000,
        chunk_unit: "month".to_string(),
        series_id: 1,
        manifest_seq: 1,
        created_at: 1,
        updated_at: 1,
        flags: 0,
        active_chunk_id: None,
        chunks: vec![
            sample_chunk(10, "2024-01", 100, 109, "chunks/2024-01.chunk"),
            sample_chunk(11, "2024-02", 120, 199, "chunks/2024-02.chunk"),
            sample_chunk(12, "2024-03", 220, 299, "chunks/2024-03.chunk"),
            sample_chunk(13, "2024-04", 301, 400, "chunks/2024-04.chunk"),
        ],
    }
}

fn sample_chunk(chunk_id: u64, month_key: &str, start_ts: i64, end_ts: i64, relative_path: &str) -> ChunkMeta {
    ChunkMeta {
        chunk_id,
        month_key: month_key.to_string(),
        start_ts,
        end_ts,
        count: 10,
        state: ChunkState::Sealed,
        layout_version: 2,
        header_len: 128,
        sparse_index_every: 128,
        sparse_index_offset: 608,
        sparse_index_len: 1,
        chunk_checksum: 42,
        generation: 1,
        relative_path: relative_path.to_string(),
        sidecars: Vec::new(),
    }
}

#[test]
fn find_chunk_for_ts_returns_expected_index() {
    let meta = sample_meta();

    assert_eq!(meta.find_chunk_for_ts(120), Some(1));
    assert_eq!(meta.find_chunk_for_ts(199), Some(1));
    assert_eq!(meta.find_chunk_for_ts(90), None);
    assert_eq!(meta.find_chunk_for_ts(401), None);
}

#[test]
fn find_chunks_for_range_returns_expected_span() {
    let meta = sample_meta();

    assert_eq!(meta.find_chunks_for_range(90, 99), 0..0);
    assert_eq!(meta.find_chunks_for_range(95, 205), 0..2);
    assert_eq!(meta.find_chunks_for_range(220, 260), 2..3);
    assert_eq!(meta.find_chunks_for_range(301, 399), 3..4);
    assert_eq!(meta.find_chunks_for_range(401, 450), 0..0);
}

#[test]
fn validate_rejects_overlapping_chunks() {
    let mut meta = sample_meta();
    meta.chunks[2].start_ts = 150;

    let err = meta.validate().expect_err("overlap should be rejected");
    assert!(matches!(err, FastKError::InvalidData(_)));
}

#[test]
fn valid_sample_meta_validates() {
    assert!(sample_meta().validate().is_ok());
}

#[test]
fn validate_rejects_blank_symbol_and_zero_record_size() {
    let mut meta = sample_meta();
    meta.symbol = "   ".to_string();
    assert!(matches!(meta.validate(), Err(FastKError::InvalidData(_))));

    let mut meta = sample_meta();
    meta.record_size = 0;
    assert!(matches!(meta.validate(), Err(FastKError::InvalidData(_))));
}

#[test]
fn latest_chunk_and_month_indices() {
    let meta = sample_meta();
    assert_eq!(meta.latest_chunk_index(), Some(3));
    assert_eq!(meta.chunk_indices_for_month("2024-03"), vec![2]);
    assert_eq!(meta.chunk_indices_for_partition("2024-07"), Vec::<usize>::new());
}

#[test]
fn record_type_and_chunk_state_codes_roundtrip() {
    for t in [RecordType::Kline, RecordType::Scalar, RecordType::Trade, RecordType::Bbo, RecordType::BookDelta] {
        assert_eq!(RecordType::from_u32(t.as_u32()).unwrap(), t);
    }
    assert_eq!(RecordType::Trade.as_u32(), 10);
    assert!(matches!(RecordType::from_u32(3), Err(FastKError::InvalidData(_))));
    for s in [ChunkState::Active, ChunkState::Sealed, ChunkState::Merging, ChunkState::Replaced] {
        assert_eq!(ChunkState::from_u8(s.as_u8()).unwrap(), s);
    }
    assert!(matches!(ChunkState::from_u8(0), Err(FastKError::InvalidData(_))));
    assert!(!ChunkState::Replaced.is_readable());
    assert!(ChunkState::Merging.is_readable());
}
