use fastk::calendar::{calendar_key, decimal_text, month_key, pad_decimal, partition_key, signed_text};
use fastk::error::FastKError;
use fastk::meta::PartitionUnit;
use fastk::path::{
    chunk_path, chunk_relative_path, chunks_dir, join, kline_series_dir, month_chunk_file_name,
    month_delta_chunk_file_name, month_merged_chunk_file_name, partition_chunk_file_name,
    partition_delta_chunk_file_name, partition_merged_chunk_file_name, resolve_relative_path, scalar_series_dir,
    series_dir, series_meta_path, series_root, sidecar_relative_path,
};

#[test]
fn series_layout_paths() {
    assert_eq!(series_root("/data"), "/data/series");
    assert_eq!(series_dir("/data", "BTCUSDT", "indicator", "1m@@rsi"), "/data/series/BTCUSDT/indicator/1m@@rsi");
    assert_eq!(kline_series_dir("/data/", "BTCUSDT", "1m"), "/data/series/BTCUSDT/kline/1m");
    assert_eq!(scalar_series_dir("root", "S", "c", "n"), "root/series/S/c/n");
    assert_eq!(chunks_dir("/d/s"), "/d/s/chunks");
    assert_eq!(series_meta_path("/d/s"), "/d/s/series.meta");
}

#[test]
fn join_follows_unix_rules() {
    assert_eq!(join("", "x"), "x");
    assert_eq!(join("/a/", "x"), "/a/x");
    assert_eq!(join("/a", "/abs"), "/abs");
    assert_eq!(join("/a", "b"), "/a/b");
}

#[test]
fn relative_paths_resolve_under_series_dir() {
    assert_eq!(chunk_relative_path("2024-02.chunk"), "chunks/2024-02.chunk");
    assert_eq!(resolve_relative_path("/s", "chunks/2024-02.chunk"), "/s/chunks/2024-02.chunk");
    assert_eq!(resolve_relative_path("/s", "chunks\\\\x.chunk"), "/s/chunks/x.chunk");
    assert_eq!(resolve_relative_path("/s", "//a//b/"), "/s/a/b");
    assert_eq!(resolve_relative_path("/s", ""), "/s");
    assert_eq!(chunk_path("/s", "2024-02.chunk"), "/s/chunks/2024-02.chunk");
    assert_eq!(sidecar_relative_path("chunks/2024-02.chunk", "zmap"), "chunks/2024-02.chunk.zmap");
}

#[test]
fn chunk_file_names_pad_generations() {
    assert_eq!(partition_chunk_file_name("2024-02"), "2024-02.chunk");
    assert_eq!(partition_delta_chunk_file_name("2024-02", 3), "2024-02.delta.g00000003.chunk");
    assert_eq!(partition_merged_chunk_file_name("2024-02-01T05", 123456789), "2024-02-01T05.g123456789.chunk");
    assert_eq!(month_delta_chunk_file_name("2024-02", 7), "2024-02.delta.g00000007.chunk");
    assert_eq!(month_merged_chunk_file_name("2024-02", 12), "2024-02.g00000012.chunk");
}

#[test]
fn decimal_formatting_pads_like_format() {
    assert_eq!(decimal_text(0), "0");
    assert_eq!(decimal_text(1234567890123), "1234567890123");
    assert_eq!(pad_decimal(5, 2), "05");
    assert_eq!(pad_decimal(12345, 2), "12345");
    assert_eq!(signed_text(-1, 4), "-001");
    assert_eq!(signed_text(2024, 4), "2024");
    assert_eq!(signed_text(-12345, 4), "-12345");
    assert_eq!(format!("{:04}", -1), signed_text(-1, 4));
}

#[test]
fn utc_month_and_partition_keys() {
    // 2024-02-10T05:06:07Z
    let ts = 1_707_541_567_000i64;
    assert_eq!(month_key(ts).unwrap(), "2024-02");
    assert_eq!(partition_key(ts, PartitionUnit::Month).unwrap(), "2024-02");
    assert_eq!(partition_key(ts, PartitionUnit::Day).unwrap(), "2024-02-10");
    assert_eq!(partition_key(ts, PartitionUnit::Hour).unwrap(), "2024-02-10T05");
    assert_eq!(month_key(0).unwrap(), "1970-01");
    assert_eq!(month_key(-1).unwrap(), "1969-12");
    assert!(matches!(partition_key(ts, PartitionUnit::Rows), Err(FastKError::InvalidInput(_))));
    assert!(matches!(month_key(i64::MAX), Err(FastKError::InvalidInput(_))));
    assert_eq!(month_chunk_file_name(ts).unwrap(), "2024-02.chunk");
}

#[test]
fn calendar_key_formats_fields() {
    assert_eq!(calendar_key(PartitionUnit::Hour, 999, 1, 2, 3).unwrap(), "0999-01-02T03");
    assert!(matches!(calendar_key(PartitionUnit::Bytes, 2024, 1, 1, 0), Err(FastKError::InvalidInput(_))));
}
