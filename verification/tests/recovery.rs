use fastk::meta::{ChunkMeta, ChunkState};
use fastk::recovery::{choose_surviving_chunk_for_overlap, decode_chunk_state, ranges_overlap, ManifestValidation};

fn sample_chunk(relative_path: &str, start_ts: i64, end_ts: i64, generation: u32, state: ChunkState) -> ChunkMeta {
    ChunkMeta {
        chunk_id: generation as u64,
        month_key: "2024-02".to_string(),
        start_ts,
        end_ts,
        count: 2,
        state,
        layout_version: 2,
        header_len: 128,
        sparse_index_every: 128,
        sparse_index_offset: 224,
        sparse_index_len: 1,
        chunk_checksum: 1,
        generation,
        relative_path: relative_path.to_string(),
        sidecars: Vec::new(),
    }
}

#[test]
fn overlap_resolution_prefers_newer_covering_chunk() {
    let resolution = choose_surviving_chunk_for_overlap(&vec![
        sample_chunk("chunks/2024-02.chunk", 100, 150, 1, ChunkState::Sealed),
        sample_chunk("chunks/2024-02.g00000002.chunk", 100, 200, 2, ChunkState::Sealed),
        sample_chunk("chunks/2024-02.delta.g00000003.chunk", 151, 200, 3, ChunkState::Active),
    ]);

    assert_eq!(resolution.winner_relative_path.as_deref(), Some("chunks/2024-02.g00000002.chunk"));
}

#[test]
fn overlap_participants_are_sorted_and_uncovered_sets_have_no_winner() {
    let resolution = choose_surviving_chunk_for_overlap(&vec![
        sample_chunk("chunks/b.chunk", 100, 150, 1, ChunkState::Sealed),
        sample_chunk("chunks/a.chunk", 140, 200, 2, ChunkState::Sealed),
    ]);
    assert_eq!(resolution.participants, vec!["chunks/a.chunk".to_string(), "chunks/b.chunk".to_string()]);
    assert_eq!(resolution.winner_relative_path, None);
    assert_eq!(resolution.month_key, "2024-02");
    let empty = choose_surviving_chunk_for_overlap(&[]);
    assert_eq!(empty.winner_relative_path, None);
    assert!(empty.month_key.is_empty());
}

#[test]
fn overlap_ties_break_by_span_count_then_path() {
    let mut a = sample_chunk("chunks/a.chunk", 100, 200, 2, ChunkState::Sealed);
    let b = sample_chunk("chunks/b.chunk", 100, 200, 2, ChunkState::Sealed);
    let resolution = choose_surviving_chunk_for_overlap(&vec![a.clone(), b.clone()]);
    assert_eq!(resolution.winner_relative_path.as_deref(), Some("chunks/b.chunk"));
    a.count = 5;
    let resolution = choose_surviving_chunk_for_overlap(&vec![a, b]);
    assert_eq!(resolution.winner_relative_path.as_deref(), Some("chunks/a.chunk"));
}

#[test]
fn delta_file_names_decode_as_active() {
    assert_eq!(decode_chunk_state("2024-02.delta.g00000003.chunk"), ChunkState::Active);
    assert_eq!(decode_chunk_state("2024-02.g00000003.chunk"), ChunkState::Sealed);
    assert_eq!(decode_chunk_state(".delta."), ChunkState::Active);
    assert_eq!(decode_chunk_state("delta"), ChunkState::Sealed);
}

#[test]
fn ranges_overlap_is_closed_interval_intersection() {
    assert!(ranges_overlap(1, 5, 5, 9));
    assert!(!ranges_overlap(1, 4, 5, 9));
    assert!(ranges_overlap(5, 9, 1, 5));
}

#[test]
fn clean_validation_needs_manifest_and_no_issues() {
    let mut v = ManifestValidation {
        series_dir: "/s".to_string(),
        manifest_exists: true,
        missing_chunks: vec![],
        missing_sidecars: vec![],
        checksum_mismatches: vec![],
        chunk_metadata_mismatches: vec![],
        sidecar_consistency_issues: vec![],
        untracked_chunks: vec![],
        untracked_sidecars: vec![],
        overlap_groups: vec![],
    };
    assert!(v.is_clean());
    v.overlap_groups.push(vec!["x".to_string()]);
    assert!(!v.is_clean());
    v.overlap_groups.clear();
    v.manifest_exists = false;
    assert!(!v.is_clean());
}

#[test]
fn overlap_reasons_name_the_covering_generation_and_window() {
    let resolution = choose_surviving_chunk_for_overlap(&vec![
        sample_chunk("chunks/x.chunk", -100, 150, 1, ChunkState::Sealed),
        sample_chunk("chunks/y.chunk", -100, 200, 12, ChunkState::Sealed),
    ]);
    assert_eq!(resolution.reason, "generation 12 fully covers overlap window [-100..=200]");
    let uncovered = choose_surviving_chunk_for_overlap(&vec![
        sample_chunk("chunks/b.chunk", 100, 150, 1, ChunkState::Sealed),
        sample_chunk("chunks/a.chunk", 140, 200, 2, ChunkState::Sealed),
    ]);
    assert_eq!(uncovered.reason, "no single chunk fully covers the overlap window");
    assert_eq!(choose_surviving_chunk_for_overlap(&[]).reason, "empty overlap set");
}

#[test]
fn scrub_diagnostics_list_findings_then_overlaps() {
    let v = ManifestValidation {
        series_dir: "/s".to_string(),
        manifest_exists: false,
        missing_chunks: vec!["chunks/a.chunk".to_string()],
        missing_sidecars: vec![],
        checksum_mismatches: vec![],
        chunk_metadata_mismatches: vec![],
        sidecar_consistency_issues: vec![],
        untracked_chunks: vec![],
        untracked_sidecars: vec![],
        overlap_groups: vec![],
    };
    let won = choose_surviving_chunk_for_overlap(&vec![
        sample_chunk("chunks/x.chunk", 100, 150, 1, ChunkState::Sealed),
        sample_chunk("chunks/y.chunk", 100, 200, 2, ChunkState::Sealed),
    ]);
    let lost = choose_surviving_chunk_for_overlap(&vec![
        sample_chunk("chunks/b.chunk", 100, 150, 1, ChunkState::Sealed),
        sample_chunk("chunks/a.chunk", 140, 200, 2, ChunkState::Sealed),
    ]);
    let lines = fastk::validate::build_scrub_diagnostics(&v, &vec![won, lost], true);
    assert_eq!(lines.len(), 4);
    assert_eq!(lines[0], "manifest missing; rebuild recommended");
    assert_eq!(
        lines[2],
        "overlap 2024-02 -> winner Some(\"chunks/y.chunk\") (generation 2 fully covers overlap window [100..=200])"
    );
    assert_eq!(lines[3], "overlap 2024-02 -> winner None (no single chunk fully covers the overlap window)");
    assert!(fastk::validate::build_scrub_diagnostics(&v, &vec![], false).is_empty());
}
