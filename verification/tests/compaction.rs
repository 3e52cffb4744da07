use fastk::compaction::{can_transition, merge_output_state, CompactionPolicy};
use fastk::meta::{ChunkMeta, ChunkState, RecordType, SeriesMeta};

fn sample_meta(active_chunks: usize, rows_per_chunk: u64) -> SeriesMeta {
    let mut chunks = vec![sample_chunk(1, ChunkState::Sealed, rows_per_chunk)];
    for offset in 0..active_chunks {
        chunks.push(sample_chunk((offset + 2) as u64, ChunkState::Active, rows_per_chunk));
    }

    SeriesMeta {
        symbol: "BTCUSDT".to_string(),
        category: "kline".to_string(),
        name: "1m".to_string(),
        timeframe_ms: 60_000,
        record_type: RecordType::Kline,
        record_size: 48,
        schema_id: 1,
        price_scale: 100_000,
        volume_scale: 100_000,
        chunk_unit: "month".to_string(),
        series_id: 1,
        manifest_seq: 1,
        created_at: 1,
        updated_at: 1,
        flags: 0,
        active_chunk_id: Some(2),
        chunks,
    }
}

fn sample_chunk(chunk_id: u64, state: ChunkState, count: u64) -> ChunkMeta {
    ChunkMeta {
        chunk_id,
        month_key: "2024-02".to_string(),
        start_ts: 100 + chunk_id as i64,
        end_ts: 199 + chunk_id as i64,
        count,
        state,
        layout_version: 2,
        header_len: 128,
        sparse_index_every: 128,
        sparse_index_offset: 512,
        sparse_index_len: 1,
        chunk_checksum: 1,
        generation: chunk_id as u32,
        relative_path: format!("chunks/{chunk_id}.chunk"),
        sidecars: Vec::new(),
    }
}

#[test]
fn delta_count_threshold_triggers_merge() {
    let meta = sample_meta(4, 1);
    let decision = CompactionPolicy::default().evaluate_month(&meta, "2024-02").expect("decision should exist");
    assert!(decision.should_merge);
    assert_eq!(decision.delta_chunk_count, 4);
}

#[test]
fn delta_bytes_threshold_triggers_merge() {
    let policy = CompactionPolicy {
        delta_chunk_threshold: 10,
        delta_total_bytes_threshold: 1,
        append_count_threshold: 10,
        auto_merge: false,
    };
    let meta = sample_meta(1, 10);
    let decision = policy.evaluate_month(&meta, "2024-02").expect("decision should exist");
    assert!(decision.should_merge);
}

#[test]
fn state_transition_rules_are_explicit() {
    assert!(can_transition(ChunkState::Active, ChunkState::Merging));
    assert!(can_transition(ChunkState::Sealed, ChunkState::Replaced));
    assert!(!can_transition(ChunkState::Replaced, ChunkState::Active));
}

#[test]
fn evaluate_month_reports_exact_counts() {
    let meta = sample_meta(2, 10);
    let decision = CompactionPolicy::default().evaluate_month(&meta, "2024-02").unwrap();
    assert_eq!(decision.month_key, "2024-02");
    assert_eq!(decision.total_chunks, 3);
    assert_eq!(decision.delta_chunk_count, 2);
    assert_eq!(decision.delta_total_bytes, 2 * 10 * 48);
    assert_eq!(decision.append_count, 2);
    assert!(!decision.should_merge);
    assert!(decision.reasons.is_empty());
    assert!(CompactionPolicy::default().evaluate_month(&meta, "2024-03").is_none());
}

#[test]
fn evaluate_all_gives_one_decision_per_month_run() {
    let mut meta = sample_meta(1, 1);
    let mut other = sample_chunk(9, ChunkState::Sealed, 1);
    other.month_key = "2024-03".to_string();
    meta.chunks.push(other);
    let decisions = CompactionPolicy::default().evaluate_all(&meta);
    assert_eq!(decisions.len(), 2);
    assert_eq!(decisions[0].month_key, "2024-02");
    assert_eq!(decisions[1].month_key, "2024-03");
    assert_eq!(decisions[1].total_chunks, 1);
}

#[test]
fn merge_output_state_prefers_active() {
    let sealed = sample_chunk(1, ChunkState::Sealed, 1);
    let active = sample_chunk(2, ChunkState::Active, 1);
    assert_eq!(merge_output_state(&[sealed.clone(), active]), ChunkState::Active);
    assert_eq!(merge_output_state(&[sealed]), ChunkState::Sealed);
    assert_eq!(merge_output_state(&[]), ChunkState::Sealed);
}

#[test]
fn no_state_transitions_to_itself_or_out_of_replaced() {
    let all = [ChunkState::Active, ChunkState::Sealed, ChunkState::Merging, ChunkState::Replaced];
    for s in all {
        assert!(!can_transition(s, s));
        assert!(!can_transition(ChunkState::Replaced, s));
    }
}

#[test]
fn compaction_reasons_name_each_threshold_reached() {
    let policy = CompactionPolicy {
        delta_chunk_threshold: 2,
        delta_total_bytes_threshold: 1,
        append_count_threshold: 10,
        auto_merge: false,
    };
    let meta = sample_meta(2, 10);
    let decision = policy.evaluate_month(&meta, "2024-02").unwrap();
    assert_eq!(
        decision.reasons,
        vec!["delta chunk count 2 reached threshold 2".to_string(), "delta bytes 960 reached threshold 1".to_string()]
    );
}
