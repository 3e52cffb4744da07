use std::sync::Arc;

use fastk::cache::{ScalarSidecarRuntime, SidecarCacheKey, SidecarLru};
use fastk::error::FastKError;
use fastk::header::{ChunkHeader, CHUNK_MAGIC};
use fastk::legacy::{migrate_legacy_json, LegacyChunkMeta, LegacySeriesMeta};
use fastk::meta::{ChunkMeta, ChunkState, PartitionUnit, RecordType, SeriesMeta, SidecarMeta};
use fastk::overlap::{overlap_groups, overlap_groups_as_strings, select_non_overlapping_chunks};
use fastk::records::{KlineRecord, ScalarRecord, TradeRecord};
use fastk::recovery::{choose_surviving_chunk_for_overlap, RecoveryReport, ValidationOptions};
use fastk::repair::{
    adopt_candidate, finish_recovered_meta, normalize_dangling_merging_states, note_adoption, note_rebuilt_manifest,
    rebuild_series_meta, Adoption,
};
use fastk::scan::{
    attach_sidecars, chunk_meta_from_file, classify_chunk_dir_entry, parent_chunk_relative_path,
    sidecar_kind_of, sidecar_meta_from_file, ChunkDirEntry,
};
use fastk::validate::compare_manifest_with_scan;
use fastk::vix::ValueIndexEntry;
use fastk::write_plan::{
    check_existing_fixed_series, check_fixed_record_type, check_scalar_timeframe, fixed_write_unit,
    mark_month_merging, plan_kline_append, plan_month_merge, plan_partition_append, plan_scalar_put,
    record_written_chunk,
};
use fastk::zmap::ZoneMapEntry;

const FEB_2024: i64 = 1_706_745_600_000;
const MAR_2024: i64 = 1_709_251_200_000;

fn chunk(id: u64, month: &str, start: i64, end: i64, state: ChunkState, generation: u32, path: &str) -> ChunkMeta {
    ChunkMeta {
        chunk_id: id,
        month_key: month.to_string(),
        start_ts: start,
        end_ts: end,
        count: 2,
        state,
        layout_version: 2,
        header_len: 128,
        sparse_index_every: 128,
        sparse_index_offset: 0,
        sparse_index_len: 0,
        chunk_checksum: 0,
        generation,
        relative_path: path.to_string(),
        sidecars: Vec::new(),
    }
}

fn kline_meta(chunks: Vec<ChunkMeta>) -> SeriesMeta {
    SeriesMeta {
        symbol: "BTCUSDT".to_string(),
        category: "kline".to_string(),
        name: "1m".to_string(),
        timeframe_ms: 60_000,
        record_type: RecordType::Kline,
        record_size: 48,
        schema_id: 1,
        price_scale: 1,
        volume_scale: 1,
        chunk_unit: "month".to_string(),
        series_id: 7,
        manifest_seq: 3,
        created_at: 1,
        updated_at: 2,
        flags: 0,
        active_chunk_id: None,
        chunks,
    }
}

fn kline(ts: i64) -> KlineRecord {
    KlineRecord { ts, open: 1, high: 2, low: 0, close: 1, volume: 3 }
}

#[test]
fn first_kline_write_of_a_month_is_a_sealed_month_chunk() {
    let meta = kline_meta(vec![]);
    let plan = plan_kline_append(&meta, &[kline(FEB_2024), kline(FEB_2024 + 60_000)]).unwrap();
    assert_eq!(plan.partition_key, "2024-02");
    assert_eq!(plan.file_name, "2024-02.chunk");
    assert_eq!(plan.relative_path, "chunks/2024-02.chunk");
    assert_eq!(plan.state, ChunkState::Sealed);
    assert_eq!(plan.chunk_id, 1);
    assert_eq!(plan.generation, 1);
    assert!(!plan.replaces_partition);
}

#[test]
fn later_kline_write_is_an_active_delta_and_overlaps_are_refused() {
    let meta = kline_meta(vec![chunk(4, "2024-02", FEB_2024, FEB_2024 + 60_000, ChunkState::Sealed, 1, "chunks/2024-02.chunk")]);
    let plan = plan_kline_append(&meta, &[kline(FEB_2024 + 120_000)]).unwrap();
    assert_eq!(plan.file_name, "2024-02.delta.g00000002.chunk");
    assert_eq!(plan.state, ChunkState::Active);
    assert_eq!(plan.chunk_id, 5);
    assert_eq!(plan.generation, 2);
    assert!(matches!(plan_kline_append(&meta, &[kline(FEB_2024 + 60_000)]), Err(FastKError::InvalidInput(_))));
    assert!(matches!(plan_kline_append(&meta, &[]), Err(FastKError::InvalidInput(_))));
    assert!(matches!(
        plan_kline_append(&meta, &[kline(FEB_2024 + 120_000), kline(FEB_2024 + 120_000)]),
        Err(FastKError::InvalidInput(_))
    ));
    let other_month = plan_partition_append(&meta, "2024-03", MAR_2024).unwrap();
    assert_eq!(other_month.file_name, "2024-03.chunk");
}

#[test]
fn scalar_rewrite_of_a_month_replaces_it_under_a_generation_name() {
    let meta = kline_meta(vec![chunk(2, "2024-02", FEB_2024, FEB_2024 + 10, ChunkState::Sealed, 3, "chunks/2024-02.chunk")]);
    let records = [ScalarRecord { ts: FEB_2024 + 100, value: 1 }];
    let plan = plan_scalar_put(&meta, &records).unwrap();
    assert_eq!(plan.file_name, "2024-02.g00000004.chunk");
    assert_eq!(plan.state, ChunkState::Sealed);
    assert!(plan.replaces_partition);
    let fresh = plan_scalar_put(&kline_meta(vec![]), &records).unwrap();
    assert_eq!(fresh.file_name, "2024-02.chunk");
    assert!(!fresh.replaces_partition);
    assert!(check_scalar_timeframe(&meta, 60_000).is_ok());
    assert!(matches!(check_scalar_timeframe(&meta, 1), Err(FastKError::InvalidInput(_))));
}

#[test]
fn fixed_series_checks_follow_record_type_and_unit() {
    let mut meta = kline_meta(vec![]);
    assert!(check_fixed_record_type::<KlineRecord>(&meta).is_ok());
    assert!(matches!(check_fixed_record_type::<TradeRecord>(&meta), Err(FastKError::InvalidData(_))));
    assert_eq!(fixed_write_unit::<KlineRecord>(&meta).unwrap(), PartitionUnit::Month);
    assert!(check_existing_fixed_series::<KlineRecord>(&meta, 60_000, PartitionUnit::Month).is_ok());
    assert!(matches!(
        check_existing_fixed_series::<KlineRecord>(&meta, 60_000, PartitionUnit::Day),
        Err(FastKError::InvalidInput(_))
    ));
    assert!(matches!(
        check_existing_fixed_series::<KlineRecord>(&meta, 1, PartitionUnit::Month),
        Err(FastKError::InvalidInput(_))
    ));
    meta.chunk_unit = "rows".to_string();
    assert!(matches!(fixed_write_unit::<KlineRecord>(&meta), Err(FastKError::InvalidInput(_))));
    meta.chunk_unit = "weeks".to_string();
    assert!(matches!(fixed_write_unit::<KlineRecord>(&meta), Err(FastKError::InvalidData(_))));
}

#[test]
fn month_merge_plan_marks_and_names_the_output() {
    let meta = kline_meta(vec![
        chunk(1, "2024-02", FEB_2024, FEB_2024 + 10, ChunkState::Sealed, 1, "chunks/2024-02.chunk"),
        chunk(2, "2024-02", FEB_2024 + 20, FEB_2024 + 30, ChunkState::Active, 2, "chunks/2024-02.delta.g00000002.chunk"),
    ]);
    let plan = plan_month_merge(&meta, "2024-02").unwrap().unwrap();
    assert_eq!(plan.file_name, "2024-02.g00000003.chunk");
    assert_eq!(plan.relative_path, "chunks/2024-02.g00000003.chunk");
    assert_eq!(plan.chunk_id, 3);
    assert_eq!(plan.state, ChunkState::Active);
    assert!(plan_month_merge(&meta, "2024-03").unwrap().is_none());
    let mut marked = meta.clone();
    mark_month_merging(&mut marked, "2024-02");
    assert!(marked.chunks.iter().all(|c| c.state == ChunkState::Merging));
    assert!(matches!(plan_month_merge(&marked, "2024-02"), Err(FastKError::InvalidData(_))));
    let mut replaced = meta.clone();
    replaced.chunks[0].state = ChunkState::Replaced;
    assert!(matches!(plan_month_merge(&replaced, "2024-02"), Err(FastKError::InvalidData(_))));
}

#[test]
fn recording_an_active_delta_makes_it_the_active_chunk() {
    let mut meta = kline_meta(vec![chunk(1, "2024-02", FEB_2024, FEB_2024 + 10, ChunkState::Sealed, 1, "chunks/2024-02.chunk")]);
    let delta = chunk(2, "2024-02", FEB_2024 + 20, FEB_2024 + 30, ChunkState::Active, 2, "chunks/2024-02.delta.g00000002.chunk");
    record_written_chunk(&mut meta, delta).unwrap();
    assert_eq!(meta.active_chunk_id, Some(2));
    assert_eq!(meta.chunks.len(), 2);
    assert_eq!(meta.manifest_seq, 4);
}

#[test]
fn legacy_json_manifest_migrates_to_sealed_numbered_chunks() {
    let legacy = LegacySeriesMeta {
        symbol: "BTCUSDT".to_string(),
        category: "kline".to_string(),
        name: "1m".to_string(),
        timeframe_ms: 60_000,
        record_size: 48,
        schema_id: 1,
        price_scale: 100,
        volume_scale: 100,
        chunk_unit: "month".to_string(),
        series_id: 9,
        chunks: vec![
            LegacyChunkMeta { file_name: "2024-02.chunk".to_string(), start_ts: FEB_2024, end_ts: FEB_2024 + 60_000, count: 2 },
            LegacyChunkMeta { file_name: "2024-03.chunk".to_string(), start_ts: MAR_2024, end_ts: MAR_2024, count: 1 },
        ],
    };
    let meta = migrate_legacy_json(legacy).unwrap();
    assert_eq!(meta.record_type, RecordType::Kline);
    assert_eq!(meta.manifest_seq, 1);
    assert_eq!(meta.created_at, meta.updated_at);
    assert_eq!(meta.chunks[0].chunk_id, 1);
    assert_eq!(meta.chunks[1].chunk_id, 2);
    assert_eq!(meta.chunks[1].month_key, "2024-03");
    assert_eq!(meta.chunks[0].relative_path, "chunks/2024-02.chunk");
    assert_eq!(meta.chunks[0].header_len, 88);
    assert_eq!(meta.chunks[0].state, ChunkState::Sealed);
}

#[test]
fn legacy_json_manifest_with_unordered_chunks_is_refused() {
    let legacy = LegacySeriesMeta {
        symbol: "BTCUSDT".to_string(),
        category: "kline".to_string(),
        name: "1m".to_string(),
        timeframe_ms: 60_000,
        record_size: 48,
        schema_id: 1,
        price_scale: 100,
        volume_scale: 100,
        chunk_unit: "month".to_string(),
        series_id: 9,
        chunks: vec![
            LegacyChunkMeta { file_name: "b.chunk".to_string(), start_ts: MAR_2024, end_ts: MAR_2024, count: 1 },
            LegacyChunkMeta { file_name: "a.chunk".to_string(), start_ts: FEB_2024, end_ts: FEB_2024, count: 1 },
        ],
    };
    assert!(matches!(migrate_legacy_json(legacy), Err(FastKError::InvalidData(_))));
}

#[test]
fn dangling_merge_is_settled_unless_a_newer_output_covers_it() {
    let mut meta = kline_meta(vec![
        chunk(1, "2024-02", 100, 150, ChunkState::Merging, 1, "chunks/2024-02.chunk"),
        chunk(2, "2024-03", 300, 350, ChunkState::Merging, 1, "chunks/2024-03.chunk"),
        chunk(3, "2024-03", 290, 400, ChunkState::Sealed, 2, "chunks/2024-03.g00000002.chunk"),
    ]);
    meta.active_chunk_id = Some(1);
    assert!(normalize_dangling_merging_states(&mut meta));
    assert_eq!(meta.chunks[0].state, ChunkState::Active);
    assert_eq!(meta.chunks[1].state, ChunkState::Merging);
    assert_eq!(meta.chunks[2].state, ChunkState::Sealed);
    assert!(!normalize_dangling_merging_states(&mut meta));
}

#[test]
fn adoption_appends_replaces_or_rejects() {
    let mut meta = kline_meta(vec![chunk(1, "2024-02", 100, 150, ChunkState::Sealed, 1, "chunks/a.chunk")]);
    assert!(matches!(adopt_candidate(&mut meta, chunk(1, "2024-02", 100, 150, ChunkState::Sealed, 1, "chunks/a.chunk")), Adoption::AlreadyListed));
    assert!(matches!(adopt_candidate(&mut meta, chunk(2, "2024-02", 200, 250, ChunkState::Sealed, 1, "chunks/b.chunk")), Adoption::Adopted));
    assert_eq!(meta.chunks.len(), 2);
    match adopt_candidate(&mut meta, chunk(3, "2024-02", 90, 260, ChunkState::Sealed, 2, "chunks/c.chunk")) {
        Adoption::Replaced(res) => assert_eq!(res.winner_relative_path.as_deref(), Some("chunks/c.chunk")),
        _ => panic!("expected the covering chunk to replace the others"),
    }
    assert_eq!(meta.chunks.len(), 1);
    assert!(matches!(adopt_candidate(&mut meta, chunk(4, "2024-02", 95, 100, ChunkState::Sealed, 1, "chunks/d.chunk")), Adoption::Rejected(_)));
    assert_eq!(meta.chunks.len(), 1);
    meta.chunks.push(chunk(5, "2024-03", 10, 20, ChunkState::Active, 1, "chunks/e.chunk"));
    finish_recovered_meta(&mut meta);
    assert_eq!(meta.chunks[0].relative_path, "chunks/e.chunk");
    assert_eq!(meta.active_chunk_id, Some(5));
    assert_eq!(meta.manifest_seq, 4);
}

#[test]
fn overlap_sets_and_rebuild_selection() {
    let chunks = vec![
        chunk(3, "m", 300, 400, ChunkState::Sealed, 1, "chunks/c.chunk"),
        chunk(1, "m", 100, 200, ChunkState::Sealed, 1, "chunks/a.chunk"),
        chunk(2, "m", 150, 250, ChunkState::Sealed, 2, "chunks/b.chunk"),
        chunk(4, "m", 90, 260, ChunkState::Sealed, 3, "chunks/d.chunk"),
    ];
    let groups = overlap_groups(chunks.clone());
    assert_eq!(groups.len(), 1);
    assert_eq!(groups[0].len(), 3);
    assert_eq!(groups[0][0].relative_path, "chunks/d.chunk");
    let names = overlap_groups_as_strings(chunks.clone());
    assert_eq!(names, vec![vec!["chunks/a.chunk".to_string(), "chunks/b.chunk".to_string(), "chunks/d.chunk".to_string()]]);
    let kept = select_non_overlapping_chunks(chunks).unwrap();
    let paths: Vec<_> = kept.iter().map(|c| c.relative_path.as_str()).collect();
    assert_eq!(paths, vec!["chunks/d.chunk", "chunks/c.chunk"]);
    let ambiguous = vec![
        chunk(1, "m", 100, 200, ChunkState::Sealed, 1, "chunks/a.chunk"),
        chunk(2, "m", 150, 250, ChunkState::Sealed, 2, "chunks/b.chunk"),
    ];
    assert!(matches!(select_non_overlapping_chunks(ambiguous), Err(FastKError::InvalidData(_))));
}

fn header_bytes(start_ts: i64, end_ts: i64, generation: u64) -> Vec<u8> {
    ChunkHeader {
        magic: CHUNK_MAGIC,
        version: 2,
        header_size: 128,
        record_size: 16,
        schema_id: 2,
        series_id: 11,
        chunk_id: 6,
        generation,
        timeframe_ms: 60_000,
        start_ts,
        end_ts,
        count: 3,
        flags: 1,
        index_offset: 176,
        index_len: 1,
        sparse_index_every: 128,
    }
    .to_le_bytes()
}

#[test]
fn scanned_chunk_entry_comes_from_the_header_and_name() {
    let bytes = header_bytes(FEB_2024, FEB_2024 + 120_000, 4);
    let c = chunk_meta_from_file("2024-02.delta.g00000004.chunk", &bytes).unwrap();
    assert_eq!(c.chunk_id, 6);
    assert_eq!(c.month_key, "2024-02");
    assert_eq!(c.state, ChunkState::Active);
    assert_eq!(c.generation, 4);
    assert_eq!(c.relative_path, "chunks/2024-02.delta.g00000004.chunk");
    assert_eq!(c.chunk_checksum, fastk::codec::checksum64(&bytes));
    assert_eq!(chunk_meta_from_file("2024-02.chunk", &bytes).unwrap().state, ChunkState::Sealed);
    assert!(matches!(chunk_meta_from_file("x.chunk", &bytes[..10]), Err(FastKError::Io(_))));
}

#[test]
fn scanned_file_names_classify_and_name_their_parents() {
    assert_eq!(classify_chunk_dir_entry("2024-02.chunk"), ChunkDirEntry::Chunk);
    assert_eq!(classify_chunk_dir_entry("2024-02.chunk.zmap"), ChunkDirEntry::Sidecar);
    assert_eq!(classify_chunk_dir_entry("notes.txt"), ChunkDirEntry::Other);
    assert_eq!(sidecar_kind_of("2024-02.chunk.vix"), "vix");
    assert_eq!(sidecar_kind_of("plain"), "plain");
    assert_eq!(parent_chunk_relative_path("chunks/2024-02.chunk.zmap").unwrap(), "chunks/2024-02.chunk");
    assert!(matches!(parent_chunk_relative_path("chunks/2024-02.zmap"), Err(FastKError::InvalidData(_))));
    assert!(matches!(parent_chunk_relative_path("nodot"), Err(FastKError::InvalidData(_))));
    let zmap = sidecar_meta_from_file("2024-02.chunk.zmap", &[0u8; 80]);
    assert_eq!(zmap.kind, "zmap");
    assert_eq!(zmap.record_count, 2);
    assert_eq!(zmap.relative_path, "chunks/2024-02.chunk.zmap");
    let vix = sidecar_meta_from_file("2024-02.chunk.vix", &[0u8; 48]);
    assert_eq!(vix.record_count, 3);
    let other = sidecar_meta_from_file("2024-02.chunk.bak", &[0u8; 48]);
    assert_eq!(other.record_count, 0);
}

fn sidecar(path: &str, kind: &str, record_count: u64) -> SidecarMeta {
    SidecarMeta {
        kind: kind.to_string(),
        relative_path: path.to_string(),
        generation: 0,
        checksum: 0,
        block_size: 0,
        record_count,
    }
}

#[test]
fn sidecars_attach_to_their_chunks_sorted_by_path() {
    let chunks = vec![
        chunk(2, "2024-03", 300, 400, ChunkState::Sealed, 1, "chunks/2024-03.chunk"),
        chunk(1, "2024-02", 100, 200, ChunkState::Sealed, 1, "chunks/2024-02.chunk"),
    ];
    let sidecars = vec![
        sidecar("chunks/2024-02.chunk.zmap", "zmap", 1),
        sidecar("chunks/2024-02.chunk.vix", "vix", 1),
        sidecar("chunks/2024-03.chunk.zmap", "zmap", 1),
    ];
    let attached = attach_sidecars(chunks, sidecars).unwrap();
    assert_eq!(attached[0].relative_path, "chunks/2024-02.chunk");
    let paths: Vec<_> = attached[0].sidecars.iter().map(|s| s.relative_path.as_str()).collect();
    assert_eq!(paths, vec!["chunks/2024-02.chunk.vix", "chunks/2024-02.chunk.zmap"]);
    assert_eq!(attached[1].sidecars.len(), 1);
    assert!(matches!(
        attach_sidecars(vec![], vec![sidecar("chunks/x.zmap", "zmap", 0)]),
        Err(FastKError::InvalidData(_))
    ));
}

#[test]
fn manifest_comparison_reports_each_kind_of_finding() {
    let mut listed = chunk(1, "2024-02", 100, 200, ChunkState::Sealed, 1, "chunks/2024-02.chunk");
    listed.sidecars = vec![sidecar("chunks/2024-02.chunk.zmap", "zmap", 5), sidecar("chunks/2024-02.chunk.vix", "vix", 0)];
    let missing = chunk(2, "2024-03", 300, 400, ChunkState::Sealed, 1, "chunks/2024-03.chunk");
    let meta = kline_meta(vec![listed.clone(), missing]);
    let mut on_disk = listed.clone();
    on_disk.count = 9;
    on_disk.sidecars = Vec::new();
    let stray = chunk(3, "2024-04", 500, 600, ChunkState::Sealed, 1, "chunks/2024-04.chunk");
    let fs_sidecars = vec![sidecar("chunks/2024-02.chunk.zmap", "zmap", 2), sidecar("chunks/zz.chunk.vix", "vix", 0)];
    let report = compare_manifest_with_scan(
        "series".to_string(),
        Some(meta),
        vec![on_disk, stray],
        fs_sidecars,
        vec![Some(80), Some(16)],
        ValidationOptions { verbose: false, revalidate_checksums: true },
    );
    assert!(report.manifest_exists);
    assert_eq!(report.missing_chunks, vec!["chunks/2024-03.chunk".to_string()]);
    assert_eq!(report.chunk_metadata_mismatches, vec!["chunks/2024-02.chunk".to_string()]);
    assert_eq!(report.missing_sidecars, vec!["chunks/2024-02.chunk.vix".to_string()]);
    assert_eq!(report.sidecar_consistency_issues, vec!["chunks/2024-02.chunk.zmap".to_string()]);
    assert_eq!(report.untracked_chunks, vec!["chunks/2024-04.chunk".to_string()]);
    assert_eq!(report.untracked_sidecars, vec!["chunks/zz.chunk.vix".to_string()]);
    assert!(report.overlap_groups.is_empty());
    assert!(!report.is_clean());

    let bare = compare_manifest_with_scan(
        "series".to_string(),
        None,
        vec![chunk(1, "m", 1, 5, ChunkState::Sealed, 1, "chunks/b.chunk"), chunk(2, "m", 3, 9, ChunkState::Sealed, 1, "chunks/a.chunk")],
        vec![],
        vec![],
        ValidationOptions::default(),
    );
    assert!(!bare.manifest_exists);
    assert_eq!(bare.untracked_chunks, vec!["chunks/a.chunk".to_string(), "chunks/b.chunk".to_string()]);
    assert_eq!(bare.overlap_groups.len(), 1);
}

#[test]
fn rebuilt_manifest_takes_identity_from_the_directory() {
    let mut header = ChunkHeader::from_le_bytes(&header_bytes(FEB_2024, FEB_2024 + 10, 1)).unwrap();
    header.schema_id = 10;
    header.record_size = 48;
    let chunks = vec![chunk(6, "2024-02", FEB_2024, FEB_2024 + 10, ChunkState::Active, 1, "chunks/2024-02.delta.g00000001.chunk")];
    let meta = rebuild_series_meta("BTCUSDT", "trade", "binance", &header, chunks).unwrap();
    assert_eq!(meta.record_type, RecordType::Trade);
    assert_eq!(meta.chunk_unit, "hour");
    assert_eq!(meta.category, "trade");
    assert_eq!(meta.active_chunk_id, Some(6));
    assert_eq!(meta.manifest_seq, 1);
    assert!(meta.series_id >= 11);
    header.schema_id = 99;
    assert!(matches!(rebuild_series_meta("BTCUSDT", "trade", "binance", &header, vec![]), Err(FastKError::InvalidData(_))));
}

#[test]
fn zone_map_and_value_index_files_round_trip() {
    let entries = vec![
        ZoneMapEntry { start_row: 0, end_row: 3, start_ts: 1, end_ts: 4, min_value: -2, max_value: 9 },
        ZoneMapEntry { start_row: 4, end_row: 5, start_ts: 5, end_ts: 6, min_value: 0, max_value: 1 },
    ];
    let bytes = fastk::zmap::encode_entries(&entries);
    assert_eq!(bytes.len(), 80);
    assert_eq!(fastk::zmap::decode_entries(&bytes).unwrap(), entries);
    assert!(matches!(fastk::zmap::decode_entries(&bytes[..79]), Err(FastKError::InvalidData(_))));
    let vix = vec![ValueIndexEntry { value: 3, ts: 10 }, ValueIndexEntry { value: 4, ts: 2 }];
    let vbytes = fastk::vix::encode_entries(&vix);
    assert_eq!(vbytes.len(), 32);
    assert_eq!(fastk::vix::decode_entries(&vbytes).unwrap(), vix);
}

fn key(path: &str) -> SidecarCacheKey {
    SidecarCacheKey { generation: 1, relative_path: path.to_string() }
}

#[test]
fn sidecar_cache_evicts_the_least_recently_used() {
    let mut lru: SidecarLru<u8> = SidecarLru::new();
    lru.store(key("a"), Arc::new(vec![1]), 2);
    lru.store(key("b"), Arc::new(vec![2]), 2);
    assert_eq!(lru.lookup(&key("a")).unwrap().as_slice(), &[1]);
    lru.store(key("c"), Arc::new(vec![3]), 2);
    assert!(lru.lookup(&key("b")).is_none());
    assert!(lru.lookup(&key("a")).is_some());
    assert!(lru.lookup(&key("c")).is_some());
    lru.invalidate("a");
    assert!(lru.lookup(&key("a")).is_none());
    lru.clear();
    assert!(lru.lookup(&key("c")).is_none());
}

#[test]
fn sidecar_runtime_loads_once_and_then_serves_the_cache() {
    let mut runtime = ScalarSidecarRuntime::new();
    let entry = ZoneMapEntry { start_row: 0, end_row: 1, start_ts: 1, end_ts: 2, min_value: 0, max_value: 5 };
    let bytes = fastk::zmap::encode_entries(&[entry]);
    let first = runtime.get_zmap(key("chunks/a.chunk.zmap"), || Ok(bytes.clone())).unwrap();
    assert_eq!(first.as_slice(), &[entry]);
    let second = runtime
        .get_zmap(key("chunks/a.chunk.zmap"), || Err(FastKError::Io("not read again".to_string())))
        .unwrap();
    assert_eq!(second.as_slice(), &[entry]);
    assert!(matches!(
        runtime.get_vix(key("chunks/a.chunk.vix"), || Ok(vec![0u8; 5])),
        Err(FastKError::InvalidData(_))
    ));
    runtime.invalidate("chunks/a");
    assert!(runtime.get_zmap(key("chunks/a.chunk.zmap"), || Err(FastKError::Io("gone".to_string()))).is_err());
}

#[test]
fn adoption_outcomes_are_recorded_in_the_report() {
    let mut report = RecoveryReport::default();
    assert!(!note_adoption(&mut report, "/s", "/s/chunks/a.chunk", Adoption::AlreadyListed));
    assert!(note_adoption(&mut report, "/s", "/s/chunks/b.chunk", Adoption::Adopted));
    assert_eq!(report.adopted_chunks, 1);
    assert!(report.adopted_chunk_paths.is_empty());
    let resolution = choose_surviving_chunk_for_overlap(&[]);
    assert!(note_adoption(&mut report, "/s", "/s/chunks/c.chunk", Adoption::Replaced(resolution.clone())));
    assert!(!note_adoption(&mut report, "/t", "/t/chunks/d.chunk", Adoption::Rejected(resolution)));
    assert_eq!(report.adopted_chunks, 2);
    assert_eq!(report.adopted_chunk_paths, vec!["/s/chunks/c.chunk".to_string()]);
    assert_eq!(report.overlap_resolutions.len(), 2);
    assert_eq!(report.overlap_resolutions[1].series_dir, "/t");
    note_rebuilt_manifest(&mut report, "/u");
    assert_eq!(report.rebuilt_manifests, 1);
    assert_eq!(report.rebuilt_manifest_paths, vec!["/u".to_string()]);
}
