use fastk::error::FastKError;
use fastk::meta::{ChunkMeta, ChunkState, SidecarMeta};
use fastk::predicate::{
    CompareOp, ScalarIndexKind, ScalarPredicate, ScalarPredicateExpr, ScalarPredicateMatch, ScalarPredicateQuery,
    ScalarPredicateQueryStats, ScalarSeriesKey,
};
use fastk::predicate_scan::{
    begin_chunk_predicate_scan, collect_raw_scan_matches, collect_vix_predicate_matches, collect_window_matches,
    finish_predicate_query, matching_timestamps, plan_zmap_predicate_scan, rows_in_ranges, sort_matches_by_ts, zmap_timestamp_scan_ranges,
};
use fastk::records::ScalarRecord;

const VALUES: [i64; 10] = [5, 1, 9, 3, 7, 7, 2, 8, 6, 4];

fn records() -> Vec<ScalarRecord> {
    VALUES.iter().enumerate().map(|(i, v)| ScalarRecord { ts: 1000 + i as i64, value: *v }).collect()
}

fn query(start_ts: i64, end_ts: i64, predicate: ScalarPredicateExpr, return_values: bool) -> ScalarPredicateQuery {
    ScalarPredicateQuery {
        key: ScalarSeriesKey { symbol: "BTCUSDT".to_string(), category: "feature".to_string(), name: "1m@@imb".to_string() },
        start_ts,
        end_ts,
        predicate,
        return_values,
    }
}

fn chunk_with(kinds: &[&str]) -> ChunkMeta {
    ChunkMeta {
        chunk_id: 1,
        month_key: "1970-01".to_string(),
        start_ts: 1000,
        end_ts: 1009,
        count: 10,
        state: ChunkState::Sealed,
        layout_version: 2,
        header_len: 128,
        sparse_index_every: 128,
        sparse_index_offset: 0,
        sparse_index_len: 0,
        chunk_checksum: 0,
        generation: 1,
        relative_path: "chunks/1.chunk".to_string(),
        sidecars: kinds
            .iter()
            .map(|k| SidecarMeta {
                kind: k.to_string(),
                relative_path: format!("chunks/1.chunk.{k}"),
                generation: 1,
                checksum: 0,
                block_size: 0,
                record_count: 0,
            })
            .collect(),
    }
}

fn hit(ts: i64, value: Option<i64>) -> ScalarPredicateMatch {
    ScalarPredicateMatch { ts, value }
}

#[test]
fn zone_map_step_keeps_blocks_that_may_match() {
    let zmap = fastk::zmap::build_entries(&records(), 3).unwrap();
    let mut stats = ScalarPredicateQueryStats::default();
    let ranges = plan_zmap_predicate_scan(&zmap, &query(1000, 1009, ScalarPredicateExpr::Gt(7), false), &mut stats).unwrap();
    assert_eq!(ranges, vec![0..=2, 6..=8]);
    assert_eq!(stats.blocks_considered, 4);
    assert_eq!(stats.blocks_pruned, 2);
    assert_eq!(stats.blocks_scanned, 2);
    assert_eq!(stats.chunks_scanned, 1);
    assert_eq!(stats.chunks_pruned, 0);

    let ranges = plan_zmap_predicate_scan(&zmap, &query(1004, 1006, ScalarPredicateExpr::Gt(7), false), &mut stats).unwrap();
    assert_eq!(ranges, vec![6..=8]);
    assert_eq!(stats.blocks_considered, 6);
    assert_eq!(stats.blocks_pruned, 3);

    let ranges = plan_zmap_predicate_scan(&zmap, &query(1000, 1009, ScalarPredicateExpr::Between { min: 3, max: 6, inclusive: true }, false), &mut stats).unwrap();
    assert_eq!(ranges, vec![0..=9]);
    assert_eq!(stats.blocks_scanned, 4);
}

#[test]
fn zone_map_step_prunes_a_chunk_and_refuses_bad_predicates() {
    let zmap = fastk::zmap::build_entries(&records(), 3).unwrap();
    let mut stats = ScalarPredicateQueryStats::default();
    let ranges = plan_zmap_predicate_scan(&zmap, &query(1000, 1009, ScalarPredicateExpr::Gt(100), false), &mut stats).unwrap();
    assert!(ranges.is_empty());
    assert_eq!(stats.chunks_pruned, 1);
    assert_eq!(stats.blocks_pruned, 4);
    assert_eq!(stats.chunks_scanned, 0);

    let mut stats = ScalarPredicateQueryStats::default();
    let bad = query(1000, 1009, ScalarPredicateExpr::Between { min: 5, max: 1, inclusive: true }, false);
    assert!(matches!(plan_zmap_predicate_scan(&zmap, &bad, &mut stats), Err(FastKError::InvalidInput(_))));
    assert_eq!(stats.blocks_considered, 4);
    assert_eq!(stats.blocks_pruned, 0);
}

#[test]
fn rows_read_yield_window_matches() {
    let recs = records();
    let mut matches = vec![hit(1, None)];
    let mut stats = ScalarPredicateQueryStats::default();
    collect_window_matches(&recs[6..9], &query(1000, 1009, ScalarPredicateExpr::Gt(7), true), &mut matches, &mut stats);
    assert_eq!(matches, vec![hit(1, None), hit(1007, Some(8))]);
    assert_eq!(stats.rows_checked, 3);
    collect_window_matches(&recs, &query(1003, 1005, ScalarPredicateExpr::Gte(7), false), &mut matches, &mut stats);
    assert_eq!(matches[2..].to_vec(), vec![hit(1004, None), hit(1005, None)]);
    assert_eq!(stats.rows_checked, 13);
}

#[test]
fn full_scan_step_counts_the_chunk_once() {
    let recs = records();
    let mut matches = Vec::new();
    let mut stats = ScalarPredicateQueryStats::default();
    collect_raw_scan_matches(&recs, &query(0, 1, ScalarPredicateExpr::Gt(7), true), &mut matches, &mut stats);
    assert_eq!(matches, vec![hit(1002, Some(9)), hit(1007, Some(8))]);
    assert_eq!(stats.chunks_scanned, 1);
    assert_eq!(stats.rows_checked, 10);
    collect_raw_scan_matches(&[], &query(0, 1, ScalarPredicateExpr::Gt(7), true), &mut matches, &mut stats);
    assert_eq!(matches.len(), 2);
    assert_eq!(stats.chunks_scanned, 1);
}

#[test]
fn value_index_step_visits_only_matching_slices() {
    let vix = fastk::vix::build_entries(&records());
    let mut matches = Vec::new();
    let mut stats = ScalarPredicateQueryStats::default();
    collect_vix_predicate_matches(&vix, &query(1000, 1004, ScalarPredicateExpr::Eq(7), true), &mut matches, &mut stats).unwrap();
    assert_eq!(matches, vec![hit(1004, Some(7))]);
    assert_eq!(stats.rows_checked, 2);
    assert_eq!(stats.chunks_scanned, 1);

    let mut matches = Vec::new();
    let mut stats = ScalarPredicateQueryStats::default();
    collect_vix_predicate_matches(&vix, &query(1000, 1009, ScalarPredicateExpr::InSet(vec![2, 9, 100]), false), &mut matches, &mut stats).unwrap();
    assert_eq!(matches, vec![hit(1006, None), hit(1002, None)]);
    assert_eq!(stats.rows_checked, 2);

    let mut matches = Vec::new();
    let mut stats = ScalarPredicateQueryStats::default();
    collect_vix_predicate_matches(&vix, &query(1000, 1009, ScalarPredicateExpr::Ne(7), false), &mut matches, &mut stats).unwrap();
    assert_eq!(matches.len(), 8);
    assert_eq!(matches[0], hit(1001, None));
    assert_eq!(matches[7], hit(1002, None));
    assert_eq!(stats.rows_checked, 10);
}

#[test]
fn value_index_step_prunes_and_refuses() {
    let vix = fastk::vix::build_entries(&records());
    let mut matches = Vec::new();
    let mut stats = ScalarPredicateQueryStats::default();
    collect_vix_predicate_matches(&vix, &query(1000, 1009, ScalarPredicateExpr::Eq(100), false), &mut matches, &mut stats).unwrap();
    assert!(matches.is_empty());
    assert_eq!(stats.chunks_pruned, 1);
    assert_eq!(stats.rows_checked, 0);
    let bad = query(1000, 1009, ScalarPredicateExpr::InSet(vec![]), false);
    assert!(matches!(collect_vix_predicate_matches(&vix, &bad, &mut matches, &mut stats), Err(FastKError::InvalidInput(_))));
    assert_eq!(stats.chunks_pruned, 1);
}

#[test]
fn chunk_index_follows_predicate_kind_and_sidecars() {
    let both = chunk_with(&["zmap", "vix"]);
    let mut stats = ScalarPredicateQueryStats::default();
    assert_eq!(begin_chunk_predicate_scan(&query(0, 1, ScalarPredicateExpr::Eq(1), false), &both, &mut stats), ScalarIndexKind::ValueIndex);
    assert_eq!(stats.index_used, Some(ScalarIndexKind::ValueIndex));
    assert_eq!(begin_chunk_predicate_scan(&query(0, 1, ScalarPredicateExpr::Lt(1), false), &both, &mut stats), ScalarIndexKind::ZoneMap);
    assert_eq!(stats.index_used, Some(ScalarIndexKind::ZoneMapAndValueIndex));
    assert!(!stats.fallback_scan);
    assert_eq!(begin_chunk_predicate_scan(&query(0, 1, ScalarPredicateExpr::Ne(1), false), &both, &mut stats), ScalarIndexKind::FullScan);
    assert!(stats.fallback_scan);
    assert_eq!(stats.index_used, Some(ScalarIndexKind::ZoneMapAndValueIndex));
    assert_eq!(stats.chunks_considered, 3);
    let bare = chunk_with(&[]);
    let mut stats = ScalarPredicateQueryStats::default();
    assert_eq!(begin_chunk_predicate_scan(&query(0, 1, ScalarPredicateExpr::Eq(1), false), &bare, &mut stats), ScalarIndexKind::FullScan);
    assert_eq!(stats.index_used, Some(ScalarIndexKind::FullScan));
}

#[test]
fn finished_query_lists_matches_in_time_order() {
    let matches = vec![hit(5, None), hit(3, Some(1)), hit(5, Some(2)), hit(1, None)];
    let result = finish_predicate_query(matches, ScalarPredicateQueryStats { rows_checked: 9, ..ScalarPredicateQueryStats::default() });
    assert_eq!(result.matches, vec![hit(1, None), hit(3, Some(1)), hit(5, None), hit(5, Some(2))]);
    assert_eq!(result.stats.rows_matched, 4);
    assert_eq!(result.stats.rows_checked, 9);
    assert!(sort_matches_by_ts(Vec::new()).is_empty());
}

#[test]
fn timestamp_steps_filter_rows_and_blocks() {
    let recs = records();
    let gte8 = ScalarPredicate { op: CompareOp::Gte, value: 8, value2: None };
    assert_eq!(matching_timestamps(&recs, &gte8, 1000, 1009).unwrap(), vec![1002, 1007]);
    assert_eq!(matching_timestamps(&recs, &gte8, 1003, 1009).unwrap(), vec![1007]);
    let bad = ScalarPredicate { op: CompareOp::Between, value: 1, value2: None };
    assert!(matches!(matching_timestamps(&recs, &bad, 1000, 1009), Err(FastKError::InvalidInput(_))));
    assert!(matching_timestamps(&recs, &bad, 0, 10).unwrap().is_empty());

    let zmap = fastk::zmap::build_entries(&recs, 3).unwrap();
    assert_eq!(zmap_timestamp_scan_ranges(&zmap, &gte8, 1000, 1009).unwrap(), vec![0..=2, 6..=8]);
    let lt3 = ScalarPredicate { op: CompareOp::Lt, value: 3, value2: None };
    assert_eq!(zmap_timestamp_scan_ranges(&zmap, &lt3, 1000, 1009).unwrap(), vec![0..=2, 6..=8]);
    let gt100 = ScalarPredicate { op: CompareOp::Gt, value: 100, value2: None };
    assert!(zmap_timestamp_scan_ranges(&zmap, &gt100, 1000, 1009).unwrap().is_empty());
    assert!(matches!(zmap_timestamp_scan_ranges(&zmap, &bad, 1000, 1009), Err(FastKError::InvalidInput(_))));
}

#[test]
fn zone_map_rows_are_gathered_range_by_range() {
    let recs = records();
    let rows = rows_in_ranges(&recs, &[0..=1, 6..=8]).unwrap();
    assert_eq!(rows, vec![recs[0], recs[1], recs[6], recs[7], recs[8]]);
    assert!(rows_in_ranges(&recs, &[]).unwrap().is_empty());
    assert!(matches!(rows_in_ranges(&recs, &[0..=1, 8..=10]), Err(FastKError::InvalidData(_))));
}
