use fastk::error::FastKError;
use fastk::predicate::{CompareOp, ScalarPredicate, ScalarPredicateExpr, ScalarSeriesKey};
use fastk::query_engine::{validate_series_key, PredicateQueryEngine};
use fastk::records::ScalarRecord;
use fastk::vix::{self, ValueIndexEntry};
use fastk::zmap;

fn sample_key() -> ScalarSeriesKey {
    ScalarSeriesKey { symbol: "BTCUSDT".to_string(), category: "indicator".to_string(), name: "rsi14".to_string() }
}

fn sample_records() -> Vec<ScalarRecord> {
    vec![
        ScalarRecord { ts: 1_706_745_600_000, value: 10 },
        ScalarRecord { ts: 1_706_745_660_000, value: 15 },
        ScalarRecord { ts: 1_706_745_720_000, value: 20 },
        ScalarRecord { ts: 1_706_745_780_000, value: 30 },
        ScalarRecord { ts: 1_706_745_840_000, value: 40 },
        ScalarRecord { ts: 1_706_745_900_000, value: 50 },
    ]
}

#[test]
fn zmap_build_read_and_query_returns_sorted_unique_timestamps() {
    let records = sample_records();
    let mut entries = zmap::build_entries(&records, 2).expect("zmap build should succeed");
    entries.push(entries[1]);
    let bytes: Vec<u8> = entries.iter().flat_map(|e| e.to_le_bytes()).collect();
    let loaded: Vec<_> = bytes
        .chunks(zmap::ZoneMapEntry::BYTE_SIZE)
        .map(|c| zmap::ZoneMapEntry::from_le_bytes(c.try_into().unwrap()))
        .collect();
    assert_eq!(loaded, entries);

    let engine = PredicateQueryEngine::new();
    let predicate = ScalarPredicate { op: CompareOp::Between, value: 20, value2: Some(40) };
    let result = engine
        .find_timestamps_via_zmap(&sample_key(), &records, &loaded, &predicate, 1_706_745_600_000, 1_706_746_000_000)
        .expect("zmap query should succeed");
    assert_eq!(result, vec![1_706_745_720_000, 1_706_745_780_000, 1_706_745_840_000]);
}

#[test]
fn vix_build_read_and_query_returns_sorted_unique_timestamps() {
    let records = sample_records();
    let mut entries = vix::build_entries(&records);
    entries.push(ValueIndexEntry { value: 40, ts: 1_706_745_840_000 });
    entries.sort_by_key(|entry| (entry.value, entry.ts));
    let bytes: Vec<u8> = entries.iter().flat_map(|e| e.to_le_bytes()).collect();
    let loaded: Vec<_> = bytes
        .chunks(ValueIndexEntry::BYTE_SIZE)
        .map(|c| ValueIndexEntry::from_le_bytes(c.try_into().unwrap()))
        .collect();
    assert_eq!(loaded, entries);

    let engine = PredicateQueryEngine::new();
    let predicate = ScalarPredicate { op: CompareOp::Gte, value: 30, value2: None };
    let result = engine
        .find_timestamps_via_vix(&sample_key(), &loaded, &predicate, 1_706_745_600_000, 1_706_746_000_000)
        .expect("vix query should succeed");
    assert_eq!(result, vec![1_706_745_780_000, 1_706_745_840_000, 1_706_745_900_000]);
}

#[test]
fn blank_keys_are_rejected() {
    let mut key = sample_key();
    key.name = " \t".to_string();
    assert!(matches!(validate_series_key(&key), Err(FastKError::InvalidInput(_))));
    let engine = PredicateQueryEngine::new();
    let predicate = ScalarPredicate { op: CompareOp::Gt, value: 0, value2: None };
    assert!(matches!(engine.find_timestamps_via_vix(&key, &[], &predicate, 0, 1), Err(FastKError::InvalidInput(_))));
    assert!(validate_series_key(&sample_key()).is_ok());
}

#[test]
fn zmap_query_rejects_rows_past_records() {
    let records = sample_records();
    let mut entries = zmap::build_entries(&records, 2).unwrap();
    entries[2].end_row = 10;
    let predicate = ScalarPredicate { op: CompareOp::Gt, value: 0, value2: None };
    let engine = PredicateQueryEngine::new();
    let err = engine.find_timestamps_via_zmap(&sample_key(), &records, &entries, &predicate, 0, i64::MAX);
    assert!(matches!(err, Err(FastKError::InvalidData(_))));
}

#[test]
fn vix_slices_on_out_of_order_entries_follow_the_bound_searches() {
    let entries = vec![
        ValueIndexEntry { value: 5, ts: 1 },
        ValueIndexEntry { value: 1, ts: 2 },
        ValueIndexEntry { value: 3, ts: 3 },
    ];
    let inset = vix::matching_slices_for_expr(&entries, &ScalarPredicateExpr::InSet(vec![3, 1, 3])).unwrap();
    assert_eq!(inset, vec![0..2, 2..3]);
    let gt = vix::matching_slices_for_expr(&entries, &ScalarPredicateExpr::Gt(2)).unwrap();
    assert_eq!(gt, vec![2..3]);
    let lt = vix::matching_slices_for_expr(&entries, &ScalarPredicateExpr::Lt(0)).unwrap();
    assert!(lt.is_empty());
}
