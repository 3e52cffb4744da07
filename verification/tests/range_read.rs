use fastk::catalog::Catalog;
use fastk::chunk_reader::KlineReadPath;
use fastk::chunk_writer::{encode_scalar_chunk, WriteScalarChunkOptions};
use fastk::error::FastKError;
use fastk::header::ChunkHeader;
use fastk::meta::SeriesMeta;
use fastk::predicate::ScalarSeriesKey;
use fastk::range_read::{
    append_range_in_image, append_range_in_layout, find_by_ts_in_image, find_by_ts_in_layout, load_image_layout,
    read_record_span, read_sparse_index, read_tail_in_image,
};
use fastk::records::{KlineRecord, ScalarRecord};
use fastk::sparse_index::SparseIndexEntry;

/// 2024-02-01T00:00:00Z in milliseconds.
const FEB: i64 = 1_706_745_600_000;
const MINUTE: i64 = 60_000;

fn series() -> SeriesMeta {
    Catalog::build_scalar_meta(
        &ScalarSeriesKey { symbol: "ETHUSDT".to_string(), category: "indicator".to_string(), name: "1m@@ema".to_string() },
        MINUTE,
    )
}

fn records(n: i64) -> Vec<ScalarRecord> {
    (0..n).map(|i| ScalarRecord { ts: FEB + i * MINUTE, value: i * 10 - 7 }).collect()
}

fn image(recs: &[ScalarRecord], every: u32) -> Vec<u8> {
    let options = WriteScalarChunkOptions { chunk_id: 4, sparse_index_every: every, ..WriteScalarChunkOptions::default() };
    encode_scalar_chunk(&series(), recs, &options).unwrap().0
}

#[test]
fn range_read_of_written_chunk_returns_window_records() {
    let recs = records(10);
    let bytes = image(&recs, 3);

    let mut out: Vec<ScalarRecord> = Vec::new();
    let path = append_range_in_image(&bytes, FEB + 2 * MINUTE, FEB + 5 * MINUTE, &mut out).unwrap();
    assert_eq!(path, KlineReadPath::ShortRange);
    assert_eq!(out, recs[2..6].to_vec());

    let mut out = vec![ScalarRecord { ts: 0, value: 1 }];
    let path = append_range_in_image(&bytes, FEB - 1, FEB + 100 * MINUTE, &mut out).unwrap();
    assert_eq!(path, KlineReadPath::FullScan);
    assert_eq!(out.len(), 11);
    assert_eq!(out[1..].to_vec(), recs);

    let mut out: Vec<ScalarRecord> = Vec::new();
    let path = append_range_in_image(&bytes, FEB + MINUTE, FEB + 100_000 * MINUTE, &mut out).unwrap();
    assert_eq!(path, KlineReadPath::FullScan);
    assert_eq!(out, recs[1..].to_vec());

    let mut out: Vec<ScalarRecord> = Vec::new();
    append_range_in_image(&bytes, FEB + 30_000, FEB + 90_000, &mut out).unwrap();
    assert_eq!(out, vec![recs[1]]);
}

#[test]
fn range_read_outside_the_chunk_is_empty() {
    let recs = records(4);
    let bytes = image(&recs, 2);
    let mut out: Vec<ScalarRecord> = Vec::new();
    assert_eq!(append_range_in_image(&bytes, FEB - 10, FEB - 1, &mut out).unwrap(), KlineReadPath::ShortRange);
    assert_eq!(append_range_in_image(&bytes, FEB + 5, FEB + 1, &mut out).unwrap(), KlineReadPath::ShortRange);
    assert_eq!(append_range_in_image(&bytes, FEB + 10 * MINUTE, FEB + 11 * MINUTE, &mut out).unwrap(), KlineReadPath::ShortRange);
    assert_eq!(append_range_in_image(&bytes, FEB + 10_000, FEB + 20_000, &mut out).unwrap(), KlineReadPath::ShortRange);
    assert!(out.is_empty());
}

#[test]
fn point_lookup_in_written_chunk() {
    let recs = records(10);
    let bytes = image(&recs, 3);
    assert_eq!(find_by_ts_in_image::<ScalarRecord>(&bytes, FEB + 7 * MINUTE).unwrap(), Some(recs[7]));
    assert_eq!(find_by_ts_in_image::<ScalarRecord>(&bytes, FEB).unwrap(), Some(recs[0]));
    assert_eq!(find_by_ts_in_image::<ScalarRecord>(&bytes, FEB + 9 * MINUTE).unwrap(), Some(recs[9]));
    assert_eq!(find_by_ts_in_image::<ScalarRecord>(&bytes, FEB + 30_000).unwrap(), None);
    assert_eq!(find_by_ts_in_image::<ScalarRecord>(&bytes, FEB - 1).unwrap(), None);
    assert_eq!(find_by_ts_in_image::<ScalarRecord>(&bytes, FEB + 10 * MINUTE).unwrap(), None);
}

#[test]
fn tail_read_of_written_chunk() {
    let recs = records(10);
    let bytes = image(&recs, 4);
    assert_eq!(read_tail_in_image::<ScalarRecord>(&bytes, 3).unwrap(), recs[7..].to_vec());
    assert_eq!(read_tail_in_image::<ScalarRecord>(&bytes, 50).unwrap(), recs);
    assert!(read_tail_in_image::<ScalarRecord>(&bytes, 0).unwrap().is_empty());
}

#[test]
fn layout_of_written_chunk_decodes_header_index_and_records() {
    let recs = records(7);
    let bytes = image(&recs, 3);
    let (header, sparse, back) = load_image_layout::<ScalarRecord>(&bytes).unwrap();
    assert_eq!(header.count, 7);
    assert_eq!(back, recs);
    assert_eq!(
        sparse,
        vec![
            SparseIndexEntry { ts: FEB, record_idx: 0 },
            SparseIndexEntry { ts: FEB + 3 * MINUTE, record_idx: 3 },
            SparseIndexEntry { ts: FEB + 6 * MINUTE, record_idx: 6 },
        ]
    );
    assert_eq!(read_sparse_index(&bytes, &header).unwrap(), sparse);
}

#[test]
fn damaged_images_are_refused() {
    let recs = records(5);
    let bytes = image(&recs, 2);
    let mut out: Vec<ScalarRecord> = Vec::new();
    let truncated = &bytes[..bytes.len() - 1];
    let header = ChunkHeader::read_from(truncated).unwrap();
    assert!(matches!(read_sparse_index(truncated, &header), Err(FastKError::Io(_))));
    assert!(matches!(append_range_in_image(truncated, FEB, FEB + MINUTE, &mut out), Err(FastKError::Io(_))));
    let mut klines: Vec<KlineRecord> = Vec::new();
    assert!(matches!(append_range_in_image(&bytes, FEB, FEB + MINUTE, &mut klines), Err(FastKError::InvalidData(_))));
    assert!(matches!(find_by_ts_in_image::<ScalarRecord>(&bytes[..20], FEB), Err(FastKError::Io(_))));
    assert!(out.is_empty());
}

#[test]
fn record_spans_stay_within_the_chunk() {
    let recs = records(10);
    let bytes = image(&recs, 3);
    let header = ChunkHeader::read_from(&bytes).unwrap();
    assert_eq!(read_record_span(&header, &recs, 8, 2).unwrap(), recs[8..10].to_vec());
    assert!(read_record_span(&header, &recs, 20, 0).unwrap().is_empty());
    assert!(matches!(read_record_span(&header, &recs, 8, 3), Err(FastKError::InvalidData(_))));
    assert!(matches!(read_record_span(&header, &recs, u64::MAX, 2), Err(FastKError::InvalidData(_))));
}

#[test]
fn anchors_beyond_the_records_are_refused() {
    let recs = records(10);
    let bytes = image(&recs, 3);
    let header = ChunkHeader::read_from(&bytes).unwrap();
    let damaged = vec![SparseIndexEntry { ts: FEB, record_idx: 0 }, SparseIndexEntry { ts: FEB + 3 * MINUTE, record_idx: 40 }];
    assert!(matches!(
        find_by_ts_in_layout(&header, &damaged, &recs, FEB + MINUTE),
        Err(FastKError::InvalidData(_))
    ));
    let mut out: Vec<ScalarRecord> = Vec::new();
    assert!(matches!(
        append_range_in_layout(&header, &damaged, &recs, FEB + MINUTE, FEB + 2 * MINUTE, &mut out),
        Err(FastKError::InvalidData(_))
    ));
    assert!(out.is_empty());
}
