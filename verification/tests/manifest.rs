use fastk::error::FastKError;
use fastk::manifest::{decode_manifest, encode_manifest, replace_month_chunks, upsert_chunk_meta};
use fastk::meta::{ChunkMeta, ChunkState, RecordType, SeriesMeta, SidecarMeta};

fn sample_meta() -> SeriesMeta {
    SeriesMeta {
        symbol: "BTCUSDT".to_string(),
        category: "kline".to_string(),
        name: "1m".to_string(),
        timeframe_ms: 60_000,
        record_type: RecordType::Kline,
        record_size: 48,
        schema_id: 1,
        price_scale: 100_000,
        volume_scale: 100_000,
        chunk_unit: "month".to_string(),
        series_id: 42,
        manifest_seq: 7,
        created_at: 1000,
        updated_at: 2000,
        flags: 9,
        active_chunk_id: Some(5),
        chunks: vec![ChunkMeta {
            chunk_id: 5,
            month_key: "2024-02".to_string(),
            start_ts: 10,
            end_ts: 20,
            count: 2,
            state: ChunkState::Active,
            layout_version: 2,
            header_len: 128,
            sparse_index_every: 128,
            sparse_index_offset: 224,
            sparse_index_len: 1,
            chunk_checksum: 123,
            generation: 3,
            relative_path: "chunks/2024-02.chunk".to_string(),
            sidecars: Vec::new(),
        }],
    }
}

fn chunk(chunk_id: u64, month_key: &str, start_ts: i64, end_ts: i64, state: ChunkState) -> ChunkMeta {
    ChunkMeta {
        chunk_id,
        month_key: month_key.to_string(),
        start_ts,
        end_ts,
        count: 1,
        state,
        layout_version: 2,
        header_len: 128,
        sparse_index_every: 128,
        sparse_index_offset: 0,
        sparse_index_len: 0,
        chunk_checksum: 0,
        generation: 1,
        relative_path: format!("chunks/{chunk_id}.chunk"),
        sidecars: Vec::new(),
    }
}

#[test]
fn manifest_roundtrip_preserves_all_fields() {
    let meta = sample_meta();
    let encoded = encode_manifest(&meta).expect("encode should succeed");
    let decoded = decode_manifest(&encoded).expect("decode should succeed");

    assert_eq!(decoded, meta);
}

#[test]
fn manifest_checksum_mismatch_is_rejected() {
    let meta = sample_meta();
    let mut encoded = encode_manifest(&meta).expect("encode should succeed");
    let last = encoded.len() - 1;
    encoded[last] ^= 0xFF;

    let err = decode_manifest(&encoded).expect_err("checksum mismatch should fail");
    assert!(matches!(err, FastKError::InvalidData(_)));
}

#[test]
fn manifest_version_mismatch_is_rejected() {
    let meta = sample_meta();
    let mut encoded = encode_manifest(&meta).expect("encode should succeed");
    encoded[8..12].copy_from_slice(&999u32.to_le_bytes());

    let err = decode_manifest(&encoded).expect_err("version mismatch should fail");
    assert!(matches!(err, FastKError::InvalidData(_)));
}

#[test]
fn manifest_roundtrip_with_sidecars_and_unicode() {
    let mut meta = sample_meta();
    meta.symbol = "ÉTH-ü".to_string();
    meta.active_chunk_id = None;
    meta.chunks[0].sidecars = vec![SidecarMeta {
        kind: "zmap".to_string(),
        relative_path: "chunks/2024-02.chunk.zmap".to_string(),
        generation: 3,
        checksum: 77,
        block_size: 64,
        record_count: 2,
    }];
    let encoded = encode_manifest(&meta).unwrap();
    assert!(encoded.starts_with(b"FKMETA02"));
    assert_eq!(decode_manifest(&encoded).unwrap(), meta);
}

#[test]
fn manifest_header_layout_is_exact() {
    let meta = sample_meta();
    let encoded = encode_manifest(&meta).unwrap();
    assert_eq!(&encoded[0..8], b"FKMETA02");
    assert_eq!(u32::from_le_bytes(encoded[8..12].try_into().unwrap()), 2);
    assert_eq!(u32::from_le_bytes(encoded[12..16].try_into().unwrap()), 9);
    assert_eq!(u64::from_le_bytes(encoded[16..24].try_into().unwrap()), fastk::codec::checksum64(&encoded[24..]));
    assert_eq!(u32::from_le_bytes(encoded[24..28].try_into().unwrap()), 1);
}

#[test]
fn manifest_truncated_or_bad_magic_is_rejected() {
    let meta = sample_meta();
    let encoded = encode_manifest(&meta).unwrap();
    assert!(matches!(decode_manifest(&encoded[..10]), Err(FastKError::InvalidData(_))));
    let mut bad = encoded.clone();
    bad[0] = b'X';
    assert!(matches!(decode_manifest(&bad), Err(FastKError::InvalidData(_))));
}

#[test]
fn encode_rejects_invalid_meta_and_long_strings() {
    let mut meta = sample_meta();
    meta.record_size = 0;
    assert!(matches!(encode_manifest(&meta), Err(FastKError::InvalidData(_))));
    let mut meta = sample_meta();
    meta.name = "x".repeat(70_000);
    assert!(matches!(encode_manifest(&meta), Err(FastKError::InvalidInput(_))));
}

#[test]
fn checksum64_matches_fnv1a() {
    assert_eq!(fastk::codec::checksum64(&[]), 0xcbf29ce484222325);
    assert_eq!(fastk::codec::checksum64(b"a"), 0xaf63dc4c8601ec8c);
}

#[test]
fn upsert_replaces_by_id_and_keeps_order() {
    let mut meta = sample_meta();
    meta.chunks = vec![chunk(1, "2024-01", 100, 109, ChunkState::Sealed)];
    upsert_chunk_meta(&mut meta, chunk(2, "2024-01", 50, 60, ChunkState::Sealed)).unwrap();
    assert_eq!(meta.chunks.iter().map(|c| c.chunk_id).collect::<Vec<_>>(), vec![2, 1]);
    assert_eq!(meta.manifest_seq, 8);
    let mut replacement = chunk(1, "2024-01", 100, 120, ChunkState::Sealed);
    replacement.count = 9;
    upsert_chunk_meta(&mut meta, replacement).unwrap();
    assert_eq!(meta.chunks.len(), 2);
    assert_eq!(meta.chunks[1].count, 9);
    assert_eq!(meta.manifest_seq, 9);
    let err = upsert_chunk_meta(&mut meta, chunk(3, "2024-01", 55, 70, ChunkState::Sealed));
    assert!(matches!(err, Err(FastKError::InvalidData(_))));
}

#[test]
fn replace_month_chunks_returns_removed_and_sets_active() {
    let mut meta = sample_meta();
    meta.chunks = vec![
        chunk(1, "2024-01", 100, 109, ChunkState::Sealed),
        chunk(2, "2024-02", 200, 209, ChunkState::Sealed),
        chunk(3, "2024-02", 210, 219, ChunkState::Active),
    ];
    let removed = replace_month_chunks(&mut meta, "2024-02", chunk(4, "2024-02", 200, 219, ChunkState::Active)).unwrap();
    assert_eq!(removed.iter().map(|c| c.chunk_id).collect::<Vec<_>>(), vec![2, 3]);
    assert_eq!(meta.chunks.iter().map(|c| c.chunk_id).collect::<Vec<_>>(), vec![1, 4]);
    assert_eq!(meta.active_chunk_id, Some(4));
}
