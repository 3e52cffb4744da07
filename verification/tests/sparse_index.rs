use fastk::records::KlineRecord;
use fastk::sparse_index::{anchor_for_ts, build_for_kline, SparseIndexEntry};

#[test]
fn anchor_lookup_handles_boundaries() {
    let entries = vec![
        SparseIndexEntry { ts: 100, record_idx: 0 },
        SparseIndexEntry { ts: 228, record_idx: 128 },
        SparseIndexEntry { ts: 356, record_idx: 256 },
    ];

    assert_eq!(anchor_for_ts(&entries, 99), None);
    assert_eq!(anchor_for_ts(&entries, 100).map(|entry| entry.record_idx), Some(0));
    assert_eq!(anchor_for_ts(&entries, 229).map(|entry| entry.record_idx), Some(128));
    assert_eq!(anchor_for_ts(&entries, 356).map(|entry| entry.record_idx), Some(256));
}

#[test]
fn build_for_kline_emits_expected_anchors() {
    let records: Vec<_> = (0..260)
        .map(|idx| KlineRecord {
            ts: idx * 60_000,
            open: idx,
            high: idx,
            low: idx,
            close: idx,
            volume: idx,
        })
        .collect();

    let entries = build_for_kline(&records, 128).expect("build should succeed");
    assert_eq!(entries.iter().map(|entry| entry.record_idx).collect::<Vec<_>>(), vec![0, 128, 256]);
}
