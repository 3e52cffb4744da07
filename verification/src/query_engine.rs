//! Predicate queries over one scalar series through its zone map or value index.
use vstd::prelude::*;
use crate::error::{FastKError, Result, invalid_input};
use crate::ordering::strictly_increasing;
use crate::predicate::{ScalarPredicate, ScalarSeriesKey};
use crate::records::ScalarRecord;
use crate::text::{is_blank, is_blank_chars};
use crate::vix::{values_sorted, vix_match, vix_range_match, ValueIndexEntry};
use crate::zmap::{any_in_window, candidates, some_span_out_of_bounds, spans_scannable, zmap_match, ZoneMapEntry};

verus! {

/// Stateless predicate query engine for scalar series.
#[derive(Debug, Default, Clone, Copy)]
pub struct PredicateQueryEngine;

/// No field of the key is blank.
pub open spec fn key_named(k: ScalarSeriesKey) -> bool {
    !is_blank_chars(k.symbol@) && !is_blank_chars(k.category@) && !is_blank_chars(k.name@)
}

/// A scalar series key must name its symbol, category and series.
pub fn validate_series_key(series_key: &ScalarSeriesKey) -> (r: Result<()>)
    ensures
        r is Ok <==> key_named(*series_key),
        r is Err ==> r matches Err(FastKError::InvalidInput(_)),
{
    if is_blank(series_key.symbol.as_str()) || is_blank(series_key.category.as_str()) || is_blank(series_key.name.as_str()) {
        return Err(invalid_input("scalar series key fields must not be empty"));
    }
    Ok(())
}

impl PredicateQueryEngine {
    /// Creates a new stateless query engine.
    pub fn new() -> (r: Self) {
        PredicateQueryEngine
    }

    /// Matching timestamps by zone-map pruning plus a scan of the candidate rows: those of
    /// `zmap::find_timestamps`, once the key names a series.
    pub fn find_timestamps_via_zmap(&self, series_key: &ScalarSeriesKey, records: &[ScalarRecord], entries: &[ZoneMapEntry], predicate: &ScalarPredicate, start_ts: i64, end_ts: i64) -> (r: Result<Vec<i64>>)
        requires
            spans_scannable(candidates(entries@, *predicate, start_ts, end_ts), records@.len()),
        ensures
            !key_named(*series_key) ==> r matches Err(FastKError::InvalidInput(_)),
            key_named(*series_key) && (start_ts > end_ts || entries@.len() == 0 || records@.len() == 0) ==> (r matches Ok(v) && v@.len() == 0),
            key_named(*series_key) && !(start_ts > end_ts || entries@.len() == 0 || records@.len() == 0) ==> {
                let c = candidates(entries@, *predicate, start_ts, end_ts);
                if !predicate.well_formed() && any_in_window(entries@, start_ts, end_ts) {
                    r matches Err(FastKError::InvalidInput(_))
                } else if some_span_out_of_bounds(c, records@.len()) {
                    r matches Err(FastKError::InvalidData(_))
                } else {
                    r matches Ok(v) && strictly_increasing(v@)
                        && forall|t: i64| v@.contains(t) <==> zmap_match(c, records@, *predicate, start_ts, end_ts, t)
                }
            },
    {
        validate_series_key(series_key)?;
        crate::zmap::find_timestamps(entries, records, predicate, start_ts, end_ts)
    }

    /// Matching timestamps through the value index: those of `vix::find_timestamps`, once the
    /// key names a series.
    pub fn find_timestamps_via_vix(&self, series_key: &ScalarSeriesKey, entries: &[ValueIndexEntry], predicate: &ScalarPredicate, start_ts: i64, end_ts: i64) -> (r: Result<Vec<i64>>)
        ensures
            !key_named(*series_key) ==> r matches Err(FastKError::InvalidInput(_)),
            key_named(*series_key) && (start_ts > end_ts || entries@.len() == 0) ==> (r matches Ok(v) && v@.len() == 0),
            key_named(*series_key) && start_ts <= end_ts && entries@.len() > 0 && !predicate.well_formed() ==> r matches Err(FastKError::InvalidInput(_)),
            key_named(*series_key) && start_ts <= end_ts && entries@.len() > 0 && predicate.well_formed() ==> (r matches Ok(v)
                && strictly_increasing(v@)
                && (forall|t: i64| v@.contains(t) <==> vix_range_match(entries@, *predicate, start_ts, end_ts, t))
                && forall|t: i64| v@.contains(t) ==> vix_match(entries@, *predicate, start_ts, end_ts, t)),
            key_named(*series_key) && start_ts <= end_ts && entries@.len() > 0 && predicate.well_formed() && values_sorted(entries@)
                ==> (r matches Ok(v) && forall|t: i64| v@.contains(t) <==> vix_match(entries@, *predicate, start_ts, end_ts, t)),
    {
        validate_series_key(series_key)?;
        crate::vix::find_timestamps(entries, predicate, start_ts, end_ts)
    }
}

} // verus!
