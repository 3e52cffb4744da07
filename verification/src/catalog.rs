//! Series catalog: new series metadata and stable series identifiers. Loading and saving
//! manifests through the catalog is file work and stays with the caller.
use vstd::prelude::*;
use vstd::utf8::*;
use crate::clock::now_timestamp_ms;
use crate::codec::{checksum64, fnv64};
use crate::meta::{PartitionPolicy, PartitionUnit, RecordType, SeriesMeta};
use crate::path::KLINE_CATEGORY;
use crate::predicate::ScalarSeriesKey;
use crate::records::{FixedRecord, KlineRecord, ScalarRecord, KLINE_SCHEMA_ID, SCALAR_SCHEMA_ID};
use crate::store::series_cache_key;
use crate::text::owned;

verus! {

/// Catalog rooted at a store directory.
#[derive(Debug, Clone)]
pub struct Catalog {
    pub root: String,
}

/// The identifier of series `(symbol, category, name)`: 64-bit FNV-1a of the UTF-8 bytes of
/// `symbol:category:name`.
pub open spec fn series_id(symbol: Seq<char>, category: Seq<char>, name: Seq<char>) -> u64 {
    fnv64(encode_utf8(symbol + seq![':'] + category + seq![':'] + name))
}

/// A freshly built series: the given identity, no chunks, sequence 1, flags 0, no active
/// chunk, and equal creation and update stamps.
pub open spec fn fresh_series(m: SeriesMeta, symbol: Seq<char>, category: Seq<char>, name: Seq<char>, timeframe_ms: i64) -> bool {
    &&& m.symbol@ == symbol
    &&& m.category@ == category
    &&& m.name@ == name
    &&& m.timeframe_ms == timeframe_ms
    &&& m.series_id == series_id(symbol, category, name)
    &&& m.manifest_seq == 1
    &&& m.created_at == m.updated_at
    &&& m.flags == 0
    &&& m.active_chunk_id is None
    &&& m.chunks@.len() == 0
}

impl Catalog {
    /// Creates a catalog rooted at a store directory.
    pub fn new(root: String) -> (r: Self)
        ensures
            r.root@ == root@,
    {
        Catalog { root }
    }

    /// Returns the deterministic series identifier used in chunk headers.
    pub fn series_id_for(symbol: &str, category: &str, name: &str) -> (r: u64)
        ensures
            r == series_id(symbol@, category@, name@),
    {
        let text = series_cache_key(symbol, category, name);
        checksum64(text.as_str().as_bytes())
    }

    /// Metadata for a new kline series: monthly chunks of kline records.
    pub fn build_kline_meta(symbol: &str, timeframe: &str, timeframe_ms: i64, price_scale: i64, volume_scale: i64) -> (r: SeriesMeta)
        ensures
            fresh_series(r, symbol@, KLINE_CATEGORY@, timeframe@, timeframe_ms),
            r.record_type == RecordType::Kline,
            r.record_size == 48,
            r.schema_id == KLINE_SCHEMA_ID,
            r.price_scale == price_scale,
            r.volume_scale == volume_scale,
            r.chunk_unit@ == PartitionUnit::Month.name(),
    {
        let now = now_timestamp_ms();
        SeriesMeta {
            symbol: owned(symbol),
            category: owned(KLINE_CATEGORY),
            name: owned(timeframe),
            timeframe_ms,
            record_type: RecordType::Kline,
            record_size: KlineRecord::BYTE_SIZE as u32,
            schema_id: KLINE_SCHEMA_ID,
            price_scale,
            volume_scale,
            chunk_unit: owned(PartitionUnit::Month.as_str()),
            series_id: Self::series_id_for(symbol, KLINE_CATEGORY, timeframe),
            manifest_seq: 1,
            created_at: now,
            updated_at: now,
            flags: 0,
            active_chunk_id: None,
            chunks: Vec::new(),
        }
    }

    /// Metadata for a new scalar series: monthly chunks of scalar records, unit scales.
    pub fn build_scalar_meta(key: &ScalarSeriesKey, timeframe_ms: i64) -> (r: SeriesMeta)
        ensures
            fresh_series(r, key.symbol@, key.category@, key.name@, timeframe_ms),
            r.record_type == RecordType::Scalar,
            r.record_size == 16,
            r.schema_id == SCALAR_SCHEMA_ID,
            r.price_scale == 1,
            r.volume_scale == 1,
            r.chunk_unit@ == PartitionUnit::Month.name(),
    {
        let now = now_timestamp_ms();
        SeriesMeta {
            symbol: owned(key.symbol.as_str()),
            category: owned(key.category.as_str()),
            name: owned(key.name.as_str()),
            timeframe_ms,
            record_type: RecordType::Scalar,
            record_size: ScalarRecord::BYTE_SIZE as u32,
            schema_id: SCALAR_SCHEMA_ID,
            price_scale: 1,
            volume_scale: 1,
            chunk_unit: owned(PartitionUnit::Month.as_str()),
            series_id: Self::series_id_for(key.symbol.as_str(), key.category.as_str(), key.name.as_str()),
            manifest_seq: 1,
            created_at: now,
            updated_at: now,
            flags: 0,
            active_chunk_id: None,
            chunks: Vec::new(),
        }
    }

    /// Metadata for a new series of fixed records `R`, partitioned as the policy says.
    pub fn build_fixed_meta<R: FixedRecord>(symbol: &str, category: &str, name: &str, timeframe_ms: i64, partition_policy: &PartitionPolicy) -> (r: SeriesMeta)
        requires
            R::spec_byte_size() <= u32::MAX,
        ensures
            fresh_series(r, symbol@, category@, name@, timeframe_ms),
            r.record_type == R::spec_record_type(),
            r.record_size == R::spec_byte_size(),
            r.schema_id == R::spec_schema_id(),
            r.price_scale == 1,
            r.volume_scale == 1,
            r.chunk_unit@ == partition_policy.unit.name(),
    {
        let now = now_timestamp_ms();
        SeriesMeta {
            symbol: owned(symbol),
            category: owned(category),
            name: owned(name),
            timeframe_ms,
            record_type: R::record_type(),
            record_size: R::byte_size() as u32,
            schema_id: R::schema_id(),
            price_scale: 1,
            volume_scale: 1,
            chunk_unit: owned(partition_policy.unit.as_str()),
            series_id: Self::series_id_for(symbol, category, name),
            manifest_seq: 1,
            created_at: now,
            updated_at: now,
            flags: 0,
            active_chunk_id: None,
            chunks: Vec::new(),
        }
    }
}

} // verus!
