use fastk::inventory::{
    health_summary_from, indicator_inventory, kline_series, list_indicators, scalar_series, series_inventory_entry,
    sort_inventory, store_stats,
};
use fastk::meta::{ChunkMeta, ChunkState, RecordType, SeriesMeta, SidecarMeta};
use fastk::recovery::ManifestValidation;
use fastk::store::SeriesInventoryEntry;

fn entry(symbol: &str, category: &str, name: &str, chunks: usize, rows: u64) -> SeriesInventoryEntry {
    SeriesInventoryEntry {
        symbol: symbol.to_string(),
        category: category.to_string(),
        name: name.to_string(),
        record_type: RecordType::Scalar,
        timeframe_ms: 60_000,
        chunk_count: chunks,
        record_count: rows,
        sidecar_count: 1,
        active_delta_count: 0,
    }
}

fn chunk(id: u64, state: ChunkState, count: u64, sidecars: usize) -> ChunkMeta {
    ChunkMeta {
        chunk_id: id,
        month_key: "2024-02".to_string(),
        start_ts: id as i64 * 10,
        end_ts: id as i64 * 10 + 5,
        count,
        state,
        layout_version: 2,
        header_len: 128,
        sparse_index_every: 128,
        sparse_index_offset: 0,
        sparse_index_len: 0,
        chunk_checksum: 0,
        generation: 1,
        relative_path: format!("chunks/{id}.chunk"),
        sidecars: (0..sidecars)
            .map(|k| SidecarMeta {
                kind: "zmap".to_string(),
                relative_path: format!("chunks/{id}.chunk.{k}"),
                generation: 0,
                checksum: 0,
                block_size: 0,
                record_count: 0,
            })
            .collect(),
    }
}

#[test]
fn series_entry_totals_its_chunks() {
    let meta = SeriesMeta {
        symbol: "BTCUSDT".to_string(),
        category: "kline".to_string(),
        name: "1m".to_string(),
        timeframe_ms: 60_000,
        record_type: RecordType::Kline,
        record_size: 48,
        schema_id: 1,
        price_scale: 1,
        volume_scale: 1,
        chunk_unit: "month".to_string(),
        series_id: 1,
        manifest_seq: 1,
        created_at: 0,
        updated_at: 0,
        flags: 0,
        active_chunk_id: Some(2),
        chunks: vec![chunk(1, ChunkState::Sealed, 10, 2), chunk(2, ChunkState::Active, 5, 0)],
    };
    let e = series_inventory_entry(&meta);
    assert_eq!(e.chunk_count, 2);
    assert_eq!(e.record_count, 15);
    assert_eq!(e.sidecar_count, 2);
    assert_eq!(e.active_delta_count, 1);
    assert_eq!(e.category, "kline");
}

#[test]
fn store_stats_split_kline_from_scalar_and_saturate_rows() {
    let entries = vec![
        entry("A", "kline", "1m", 2, u64::MAX),
        entry("A", "indicator", "1m@@rsi", 3, 7),
        entry("B", "feature", "f", 1, 1),
    ];
    let stats = store_stats(&entries);
    assert_eq!(stats.series_count, 3);
    assert_eq!(stats.kline_series_count, 1);
    assert_eq!(stats.scalar_series_count, 2);
    assert_eq!(stats.chunk_count, 6);
    assert_eq!(stats.record_count, u64::MAX);
    assert_eq!(stats.sidecar_count, 3);
}

#[test]
fn inventory_sorts_by_identity_and_filters_by_kind() {
    let entries = vec![
        entry("B", "kline", "1m", 1, 1),
        entry("A", "kline", "5m", 1, 1),
        entry("A", "indicator", "1m@@rsi", 1, 1),
        entry("A", "kline", "1m", 1, 1),
    ];
    let sorted = sort_inventory(entries);
    let ids: Vec<_> = sorted.iter().map(|e| format!("{}/{}/{}", e.symbol, e.category, e.name)).collect();
    assert_eq!(ids, vec!["A/indicator/1m@@rsi", "A/kline/1m", "A/kline/5m", "B/kline/1m"]);
    assert_eq!(kline_series(sorted.clone()).len(), 3);
    assert_eq!(scalar_series(sorted).len(), 1);
}

#[test]
fn indicator_listings_decode_scoped_names() {
    let entries = vec![
        entry("A", "indicator", "1m@@rsi", 2, 9),
        entry("A", "indicator", "1m@@ema", 1, 3),
        entry("A", "indicator", "5m@@ema", 1, 3),
        entry("B", "indicator", "1m@@macd", 1, 3),
        entry("A", "feature", "1m@@zscore", 1, 3),
        entry("A", "indicator", "plain", 1, 3),
    ];
    let inventory = indicator_inventory(&entries, "A", "1m");
    let names: Vec<_> = inventory.iter().map(|e| e.indicator_name.as_str()).collect();
    assert_eq!(names, vec!["ema", "rsi"]);
    assert_eq!(inventory[1].record_count, 9);
    assert_eq!(inventory[1].timeframe, "1m");
    assert_eq!(list_indicators(&entries, "A", "1m"), vec!["ema".to_string(), "rsi".to_string()]);
    assert_eq!(list_indicators(&entries, "A", "5m"), vec!["ema".to_string()]);
}

fn report(clean: bool, overlaps: usize) -> ManifestValidation {
    ManifestValidation {
        series_dir: "s".to_string(),
        manifest_exists: true,
        missing_chunks: if clean { vec![] } else { vec!["chunks/x.chunk".to_string()] },
        missing_sidecars: vec![],
        checksum_mismatches: vec![],
        chunk_metadata_mismatches: vec![],
        sidecar_consistency_issues: vec![],
        untracked_chunks: vec![],
        untracked_sidecars: vec![],
        overlap_groups: vec![vec!["a".to_string(), "b".to_string()]; overlaps],
    }
}

#[test]
fn health_counts_clean_and_issue_series() {
    let summary = health_summary_from(&vec![report(true, 0), report(false, 0), report(true, 2)], 4, true, "fsync-parent-dir");
    assert_eq!(summary.series_count, 3);
    assert_eq!(summary.clean_series_count, 1);
    assert_eq!(summary.issue_series_count, 2);
    assert_eq!(summary.overlap_group_count, 2);
    assert_eq!(summary.orphan_count, 4);
    assert!(summary.pending_recovery);
}
