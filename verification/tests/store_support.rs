use fastk::catalog::Catalog;
use fastk::chunk_writer::{encode_scalar_chunk, WriteScalarChunkOptions};
use fastk::chunk_reader::decode_chunk_records;
use fastk::codec::checksum64;
use fastk::error::FastKError;
use fastk::header::ChunkHeader;
use fastk::meta::{ChunkMeta, ChunkState, PartitionPolicy, RecordType, SeriesMeta, SidecarMeta};
use fastk::predicate::{ScalarIndexKind, ScalarPredicateExpr, ScalarPredicateQuery, ScalarPredicateQueryStats, ScalarSeriesKey};
use fastk::records::{BboRecord, ScalarRecord, TradeRecord};
use fastk::store::{
    estimate_short_range_rows, has_sidecar_kind, load_sidecar_path, mark_index_used, merge_row_ranges, month_inventory,
    next_chunk_id, series_cache_key, should_use_short_range_path, split_fixed_records_by_partition,
    validate_existing_series, validate_scalar_predicate_query, ScalarQueryCapabilities,
};

fn chunk(id: u64, month: &str, start: i64, end: i64, state: ChunkState, count: u64, sidecars: Vec<SidecarMeta>) -> ChunkMeta {
    ChunkMeta {
        chunk_id: id,
        month_key: month.to_string(),
        start_ts: start,
        end_ts: end,
        count,
        state,
        layout_version: 2,
        header_len: 128,
        sparse_index_every: 128,
        sparse_index_offset: 0,
        sparse_index_len: 0,
        chunk_checksum: 0,
        generation: 1,
        relative_path: format!("chunks/{id}.chunk"),
        sidecars,
    }
}

fn sidecar(kind: &str) -> SidecarMeta {
    SidecarMeta {
        kind: kind.to_string(),
        relative_path: format!("chunks/x.chunk.{kind}"),
        generation: 1,
        checksum: 0,
        block_size: 0,
        record_count: 0,
    }
}

fn meta(chunks: Vec<ChunkMeta>) -> SeriesMeta {
    let mut m = Catalog::build_scalar_meta(
        &ScalarSeriesKey { symbol: "BTCUSDT".to_string(), category: "indicator".to_string(), name: "1m@@rsi".to_string() },
        60_000,
    );
    m.chunks = chunks;
    m
}

#[test]
fn month_inventory_groups_consecutive_months() {
    let m = meta(vec![
        chunk(1, "2024-01", 0, 1, ChunkState::Sealed, 10, vec![sidecar("zmap")]),
        chunk(2, "2024-01", 2, 3, ChunkState::Active, u64::MAX, vec![]),
        chunk(3, "2024-02", 4, 5, ChunkState::Sealed, 5, vec![sidecar("zmap"), sidecar("vix")]),
    ]);
    let inv = month_inventory(&m);
    assert_eq!(inv.len(), 2);
    assert_eq!(inv[0].month_key, "2024-01");
    assert_eq!(inv[0].chunk_count, 2);
    assert_eq!(inv[0].record_count, u64::MAX);
    assert_eq!(inv[0].sealed_chunk_count, 1);
    assert_eq!(inv[0].active_delta_count, 1);
    assert_eq!(inv[0].sidecar_count, 1);
    assert_eq!(inv[1].sidecar_count, 2);
}

#[test]
fn capabilities_and_sidecar_lookup() {
    let m = meta(vec![chunk(1, "2024-01", 0, 1, ChunkState::Sealed, 1, vec![sidecar("zmap")])]);
    let caps = ScalarQueryCapabilities::from_meta(&m);
    assert!(caps.raw_scan && caps.has_zmap && !caps.has_vix);
    assert!(has_sidecar_kind(&m.chunks[0], "zmap"));
    assert!(!has_sidecar_kind(&m.chunks[0], "vix"));
    assert_eq!(load_sidecar_path("/s", &m.chunks[0], "zmap").unwrap(), "/s/chunks/x.chunk.zmap");
    assert!(matches!(load_sidecar_path("/s", &m.chunks[0], "vix"), Err(FastKError::NotFound(_))));
}

#[test]
fn chunk_ids_and_cache_keys() {
    assert_eq!(next_chunk_id(&meta(vec![])), 1);
    assert_eq!(next_chunk_id(&meta(vec![chunk(7, "m", 0, 1, ChunkState::Sealed, 1, vec![]), chunk(3, "m", 2, 3, ChunkState::Sealed, 1, vec![])])), 8);
    assert_eq!(next_chunk_id(&meta(vec![chunk(u64::MAX, "m", 0, 1, ChunkState::Sealed, 1, vec![])])), u64::MAX);
    assert_eq!(series_cache_key("S", "kline", "1m"), "S:kline:1m");
}

#[test]
fn existing_series_configuration_must_match() {
    let m = Catalog::build_kline_meta("S", "1m", 60_000, 100, 1000);
    assert!(validate_existing_series(&m, 60_000, 100, 1000).is_ok());
    assert!(matches!(validate_existing_series(&m, 60_000, 100, 1), Err(FastKError::InvalidInput(_))));
}

#[test]
fn short_range_routing() {
    assert!(should_use_short_range_path(60_000, 0, 60_000 * 2047));
    assert!(!should_use_short_range_path(60_000, 0, 60_000 * 2048));
    assert!(!should_use_short_range_path(0, 0, 10));
    assert!(should_use_short_range_path(60_000, 10, 0));
    assert_eq!(estimate_short_range_rows(0, 0, 1), 2048);
    assert_eq!(estimate_short_range_rows(60_000, 0, 60_000 * 9), 10);
    assert_eq!(estimate_short_range_rows(60_000, 0, i64::MAX), 2048);
    assert_eq!(estimate_short_range_rows(1, 10, 0), 0);
}

#[test]
fn predicate_query_validation() {
    let key = ScalarSeriesKey { symbol: "S".to_string(), category: "c".to_string(), name: "n".to_string() };
    let q = ScalarPredicateQuery { key: key.clone(), start_ts: 0, end_ts: 10, predicate: ScalarPredicateExpr::Gt(1), return_values: false };
    assert!(validate_scalar_predicate_query(&q).is_ok());
    let reversed = ScalarPredicateQuery { start_ts: 11, ..q.clone() };
    assert!(matches!(validate_scalar_predicate_query(&reversed), Err(FastKError::InvalidInput(_))));
    let empty_set = ScalarPredicateQuery { predicate: ScalarPredicateExpr::InSet(vec![]), ..q.clone() };
    assert!(matches!(validate_scalar_predicate_query(&empty_set), Err(FastKError::InvalidInput(_))));
    let blank = ScalarPredicateQuery { key: ScalarSeriesKey { symbol: " ".to_string(), ..key }, ..q };
    assert!(matches!(validate_scalar_predicate_query(&blank), Err(FastKError::InvalidInput(_))));
}

#[test]
fn index_usage_combines() {
    let mut stats = ScalarPredicateQueryStats::default();
    mark_index_used(&mut stats, ScalarIndexKind::FullScan);
    assert_eq!(stats.index_used, Some(ScalarIndexKind::FullScan));
    mark_index_used(&mut stats, ScalarIndexKind::ZoneMap);
    assert_eq!(stats.index_used, Some(ScalarIndexKind::ZoneMap));
    mark_index_used(&mut stats, ScalarIndexKind::FullScan);
    assert_eq!(stats.index_used, Some(ScalarIndexKind::ZoneMap));
    mark_index_used(&mut stats, ScalarIndexKind::ValueIndex);
    assert_eq!(stats.index_used, Some(ScalarIndexKind::ZoneMapAndValueIndex));
}

#[test]
fn row_ranges_merge_when_overlapping_or_adjacent() {
    let merged = merge_row_ranges(&[10..=12, 0..=3, 4..=5, 7..=8, 8..=9]);
    assert_eq!(merged, vec![0..=5, 7..=12]);
    assert!(merge_row_ranges(&[]).is_empty());
    assert_eq!(merge_row_ranges(&[0..=u32::MAX, 5..=6]), vec![0..=u32::MAX]);
}

#[test]
fn records_split_by_partition() {
    let day = 86_400_000i64;
    let records = vec![
        TradeRecord { ts: 0, recv_ts: 0, trade_id: 1, price: 1, qty: 1, side: 1, flags: 0 },
        TradeRecord { ts: 10, recv_ts: 10, trade_id: 2, price: 1, qty: 1, side: 1, flags: 0 },
        TradeRecord { ts: day, recv_ts: day, trade_id: 3, price: 1, qty: 1, side: 1, flags: 0 },
    ];
    let batches = split_fixed_records_by_partition(&records, fastk::meta::PartitionUnit::Day).unwrap();
    assert_eq!(batches.len(), 2);
    assert_eq!(batches[0].partition_key, "1970-01-01");
    assert_eq!(batches[0].records.len(), 2);
    assert_eq!(batches[1].partition_key, "1970-01-02");
    let empty: Vec<TradeRecord> = vec![];
    assert!(matches!(split_fixed_records_by_partition(&empty, fastk::meta::PartitionUnit::Day), Err(FastKError::InvalidInput(_))));
}

#[test]
fn catalog_builds_fresh_series() {
    let k = Catalog::build_kline_meta("BTCUSDT", "1m", 60_000, 100_000, 100_000);
    assert_eq!(k.category, "kline");
    assert_eq!(k.record_size, 48);
    assert_eq!(k.chunk_unit, "month");
    assert_eq!(k.series_id, Catalog::series_id_for("BTCUSDT", "kline", "1m"));
    assert_eq!(Catalog::series_id_for("a", "b", "c"), checksum64(b"a:b:c"));
    assert!(k.validate().is_ok());
    let b = Catalog::build_fixed_meta::<BboRecord>("S", "bbo", "l1", 0, &PartitionPolicy::day());
    assert_eq!(b.record_type, RecordType::Bbo);
    assert_eq!(b.record_size, 56);
    assert_eq!(b.chunk_unit, "day");
    assert_eq!(Catalog::new("/r".to_string()).root, "/r");
}

#[test]
fn scalar_chunk_image_layout() {
    let m = meta(vec![]);
    let records = vec![ScalarRecord { ts: 1_706_745_600_000, value: 1 }, ScalarRecord { ts: 1_706_745_660_000, value: 2 }, ScalarRecord { ts: 1_706_745_720_000, value: 3 }];
    let options = WriteScalarChunkOptions { chunk_id: 9, relative_path: "chunks/2024-02.chunk".to_string(), sparse_index_every: 2, ..WriteScalarChunkOptions::default() };
    let (bytes, cm) = encode_scalar_chunk(&m, &records, &options).unwrap();
    assert_eq!(bytes.len(), 128 + 3 * 16 + 2 * 16);
    assert_eq!(cm.month_key, "2024-02");
    assert_eq!(cm.chunk_checksum, checksum64(&bytes));
    assert_eq!(cm.sparse_index_offset, 128 + 48);
    assert_eq!(cm.sparse_index_len, 2);
    assert_eq!(cm.count, 3);
    assert_eq!(cm.state, ChunkState::Sealed);
    let header = ChunkHeader::read_from(&bytes).unwrap();
    assert_eq!(header.chunk_id, 9);
    assert_eq!(header.series_id, m.series_id);
    let cross_month = vec![ScalarRecord { ts: 1_706_745_600_000, value: 1 }, ScalarRecord { ts: 1_709_251_200_000, value: 2 }];
    assert!(matches!(encode_scalar_chunk(&m, &cross_month, &options), Err(FastKError::InvalidInput(_))));
    assert!(matches!(encode_scalar_chunk(&m, &[], &options), Err(FastKError::InvalidInput(_))));
}

#[test]
fn scalar_chunk_reads_back_as_written() {
    let m = meta(vec![]);
    let records = vec![ScalarRecord { ts: 1_706_745_600_000, value: -5 }, ScalarRecord { ts: 1_706_745_660_000, value: 7 }];
    let (bytes, _cm) = encode_scalar_chunk(&m, &records, &WriteScalarChunkOptions::default()).unwrap();
    let header = ChunkHeader::read_from(&bytes).unwrap();
    assert_eq!(header.count, 2);
    assert_eq!(header.header_size, 128);
    let back: Vec<ScalarRecord> = decode_chunk_records(&bytes, &header).unwrap();
    assert_eq!(back, records);
}
