//! Pure parts of chunk reads: header checks, sparse windows, local searches and decoding.
use vstd::prelude::*;
use crate::codec::{sat_i64, sat_add_i64, sat_sub_i64};
use crate::error::{FastKError, Result, invalid_data};
use crate::header::ChunkHeader;
use crate::records::{FixedRecord, KlineRecord, KLINE_SCHEMA_ID};
use crate::sparse_index::{SparseIndexEntry, anchor_for_ts, anchor_index_for_ts, anchor_pick, anchors_sorted, lemma_anchor_probe_bounds};

verus! {

pub const SHORT_RANGE_MAX_RECORDS: usize = 2048;

/// Internal specialization used by the kline reader path.
#[derive(Debug, Clone, Copy, PartialEq, Eq, Structural)]
pub enum KlineReadPath {
    FullScan,
    TailRead,
    PointLookup,
    ShortRange,
}

/// Checks that a chunk header carries the schema and record size of `R`.
pub fn validate_header<R: FixedRecord>(header: &ChunkHeader) -> (r: Result<()>)
    ensures
        r is Ok <==> (header.schema_id == R::spec_schema_id() && header.record_size as nat
            == R::spec_byte_size()),
        r is Err ==> r matches Err(FastKError::InvalidData(_)),
{
    if header.schema_id != R::schema_id() {
        return Err(invalid_data("unexpected schema id"));
    }
    if header.record_size as usize != R::byte_size() {
        return Err(invalid_data("unexpected record size"));
    }
    Ok(())
}

/// Checks that a chunk header describes kline records.
pub fn validate_kline_header(header: &ChunkHeader) -> (r: Result<()>)
    ensures
        r is Ok <==> (header.schema_id == KLINE_SCHEMA_ID && header.record_size == 48),
        r is Err ==> r matches Err(FastKError::InvalidData(_)),
{
    validate_header::<KlineRecord>(header)
}

/// Where a binary search of `[left, right)` for the end of the records before `t` (at or
/// before `t` when `inclusive`) stops. On records in timestamp order that is the end of
/// those records; on others it is still this function of them.
pub open spec fn ts_probe<R: FixedRecord>(s: Seq<R>, t: i64, inclusive: bool, left: int, right: int) -> int
    decreases right - left,
{
    if left < right {
        let mid = left + (right - left) / 2;
        if (if inclusive { s[mid].spec_ts() <= t } else { s[mid].spec_ts() < t }) {
            ts_probe(s, t, inclusive, mid + 1, right)
        } else {
            ts_probe(s, t, inclusive, left, mid)
        }
    } else {
        left
    }
}

/// Position of the first record whose timestamp is not below `target_ts`.
pub fn lower_bound_in_records<R: FixedRecord>(records: &[R], target_ts: i64) -> (r: usize)
    ensures
        r <= records@.len(),
        r == ts_probe(records@, target_ts, false, 0, records@.len() as int),
        ts_nondecreasing(records@) ==> (forall|i: int| 0 <= i < r ==> #[trigger] records@[i].spec_ts() < target_ts),
        ts_nondecreasing(records@) ==> (forall|i: int| r <= i < records@.len() ==> #[trigger] records@[i].spec_ts() >= target_ts),
{
    let mut left: usize = 0;
    let mut right: usize = records.len();
    while left < right
        invariant
            left <= right <= records@.len(),
            ts_probe(records@, target_ts, false, left as int, right as int) == ts_probe(records@, target_ts, false, 0, records@.len() as int),
            ts_nondecreasing(records@) ==> forall|i: int| 0 <= i < left ==> #[trigger] records@[i].spec_ts() < target_ts,
            ts_nondecreasing(records@) ==> forall|i: int| right <= i < records@.len() ==> #[trigger] records@[i].spec_ts() >= target_ts,
        decreases right - left,
    {
        let mid = left + (right - left) / 2;
        if records[mid].ts() < target_ts {
            left = mid + 1;
        } else {
            right = mid;
        }
    }
    left
}

/// Position just past the last record whose timestamp is at or below `target_ts`.
pub fn upper_bound_in_records<R: FixedRecord>(records: &[R], target_ts: i64) -> (r: usize)
    ensures
        r <= records@.len(),
        r == ts_probe(records@, target_ts, true, 0, records@.len() as int),
        ts_nondecreasing(records@) ==> (forall|i: int| 0 <= i < r ==> #[trigger] records@[i].spec_ts() <= target_ts),
        ts_nondecreasing(records@) ==> (forall|i: int| r <= i < records@.len() ==> #[trigger] records@[i].spec_ts() > target_ts),
{
    let mut left: usize = 0;
    let mut right: usize = records.len();
    while left < right
        invariant
            left <= right <= records@.len(),
            ts_probe(records@, target_ts, true, left as int, right as int) == ts_probe(records@, target_ts, true, 0, records@.len() as int),
            ts_nondecreasing(records@) ==> forall|i: int| 0 <= i < left ==> #[trigger] records@[i].spec_ts() <= target_ts,
            ts_nondecreasing(records@) ==> forall|i: int| right <= i < records@.len() ==> #[trigger] records@[i].spec_ts() > target_ts,
        decreases right - left,
    {
        let mid = left + (right - left) / 2;
        if records[mid].ts() <= target_ts {
            left = mid + 1;
        } else {
            right = mid;
        }
    }
    left
}

/// Timestamps never decrease along `s`.
pub open spec fn ts_nondecreasing<R: FixedRecord>(s: Seq<R>) -> bool {
    forall|i: int, j: int| 0 <= i <= j < s.len() ==> s[i].spec_ts() <= s[j].spec_ts()
}

/// The record window `[start, end)` that must hold `target_ts` if the chunk holds it.
pub open spec fn lookup_window_spec(count: u64, entries: Seq<SparseIndexEntry>, target_ts: i64) -> (u64, u64) {
    if count == 0 {
        (0, 0)
    } else if entries.len() == 0 {
        (0, count)
    } else if entries[0].ts > target_ts {
        (0, if entries.len() > 1 { entries[1].record_idx } else { count })
    } else {
        let a = last_anchor_at_or_before(entries, target_ts);
        let p = first_index_of(entries, entries[a]);
        (entries[a].record_idx, if p + 1 < entries.len() { entries[p + 1].record_idx } else { count })
    }
}

/// Index of the last anchor at or before `ts` (anchors sorted, first anchor at or before `ts`).
pub open spec fn last_anchor_at_or_before(entries: Seq<SparseIndexEntry>, ts: i64) -> int {
    choose|i: int| 0 <= i < entries.len() && #[trigger] entries[i].ts <= ts && (i + 1 == entries.len() || entries[i + 1].ts > ts)
}

/// Index of the first occurrence of `e` in `entries`.
pub open spec fn first_index_of(entries: Seq<SparseIndexEntry>, e: SparseIndexEntry) -> int {
    choose|i: int| 0 <= i < entries.len() && #[trigger] entries[i] == e && forall|j: int| 0 <= j < i ==> entries[j] != e
}

/// First position of `e`, if present.
fn position_of(entries: &[SparseIndexEntry], e: SparseIndexEntry) -> (r: Option<usize>)
    ensures
        r matches Some(i) ==> i < entries@.len() && entries@[i as int] == e && forall|j: int| 0 <= j < i ==> entries@[j] != e,
        r is None ==> forall|j: int| 0 <= j < entries@.len() ==> entries@[j] != e,
{
    let mut k: usize = 0;
    while k < entries.len()
        invariant
            k <= entries@.len(),
            forall|j: int| 0 <= j < k ==> entries@[j] != e,
        decreases entries@.len() - k,
    {
        if entries[k] == e {
            return Some(k);
        }
        k = k + 1;
    }
    None
}

/// Narrows a point or bound lookup to the records between two sparse anchors.
///
/// With anchors out of timestamp order (a damaged index) the window is still taken between
/// two anchors, but which pair is left open.
pub fn lookup_window(header: &ChunkHeader, entries: &[SparseIndexEntry], target_ts: i64) -> (r: Result<(u64, u64)>)
    ensures
        r == Ok::<(u64, u64), FastKError>(window_for(header.count, entries@, target_ts)),
        anchors_sorted(entries@) ==> r == Ok::<(u64, u64), FastKError>(lookup_window_spec(header.count, entries@, target_ts)),
{
    if header.count == 0 {
        return Ok((0, 0));
    }
    if entries.len() == 0 {
        return Ok((0, header.count));
    }
    match anchor_index_for_ts(entries, target_ts) {
        Some(a) => {
            let anchor = entries[a];
            let pos = position_of(entries, anchor);
            match pos {
                Some(p) => {
                    proof {
                        lemma_anchor_probe_bounds(entries@, target_ts, 0, entries@.len() as int);
                        assert(vstd::slice::spec_slice_len(entries) == entries@.len());
                        assert(anchor_pick(entries@, target_ts) == Some(a as int));
                        let fi0 = first_index_of(entries@, anchor);
                        assert(exists|i: int| 0 <= i < entries@.len() && #[trigger] entries@[i] == anchor
                            && forall|j: int| 0 <= j < i ==> entries@[j] != anchor) by {
                            assert(entries@[p as int] == anchor);
                        }
                        assert(fi0 == p) by {
                            if fi0 < p {
                                assert(entries@[fi0] == anchor);
                            } else if fi0 > p {
                                assert(entries@[p as int] == anchor);
                            }
                        }
                        if anchors_sorted(entries@) {
                        let la = last_anchor_at_or_before(entries@, target_ts);
                        assert(entries@[a as int].ts <= target_ts);
                        assert(exists|i: int| 0 <= i < entries@.len() && #[trigger] entries@[i].ts <= target_ts
                            && (i + 1 == entries@.len() || entries@[i + 1].ts > target_ts));
                        assert(la == a) by {
                            if la < a {
                                assert(entries@[la + 1].ts <= entries@[a as int].ts);
                            } else if la > a {
                                assert(entries@[a + 1].ts <= entries@[la].ts);
                            }
                        }
                        let fi = first_index_of(entries@, anchor);
                        assert(exists|i: int| 0 <= i < entries@.len() && #[trigger] entries@[i] == anchor
                            && forall|j: int| 0 <= j < i ==> entries@[j] != anchor) by {
                            assert(entries@[p as int] == anchor);
                        }
                        assert(fi == p) by {
                            if fi < p {
                                assert(entries@[fi] == anchor);
                            } else if fi > p {
                                assert(entries@[p as int] == anchor);
                            }
                        }
                        }
                    }
                    let end_idx = if p + 1 < entries.len() {
                        entries[p + 1].record_idx
                    } else {
                        header.count
                    };
                    Ok((anchor.record_idx, end_idx))
                },
                None => {
                    proof { assert(entries@[a as int] == anchor); }
                    Err(invalid_data("anchor lookup produced missing entry"))
                },
            }
        },
        None => {
            let first_end = if entries.len() > 1 {
                entries[1].record_idx
            } else {
                header.count
            };
            Ok((0, first_end))
        },
    }
}

/// The record window `[start, end)` that the anchor search picks for `target_ts`, whatever
/// the order of the anchors: from the picked anchor to the anchor after its first occurrence
/// (or the chunk's end); from the start to the second anchor when none is picked.
pub open spec fn window_for(count: u64, entries: Seq<SparseIndexEntry>, target_ts: i64) -> (u64, u64) {
    if count == 0 {
        (0, 0)
    } else if entries.len() == 0 {
        (0, count)
    } else {
        match anchor_pick(entries, target_ts) {
            None => (0, if entries.len() > 1 { entries[1].record_idx } else { count }),
            Some(a) => {
                let p = first_index_of(entries, entries[a]);
                (entries[a].record_idx, if p + 1 < entries.len() { entries[p + 1].record_idx } else { count })
            },
        }
    }
}

/// Rust's truncating division of `a` by a positive `b`.
pub open spec fn trunc_div(a: int, b: int) -> int {
    if a >= 0 { a / b } else { -((-a) / b) }
}

/// The span `[start_ts, end_ts]`, at one record per `timeframe_ms`, holds at most
/// `SHORT_RANGE_MAX_RECORDS` records (saturating arithmetic).
pub open spec fn short_range(header: ChunkHeader, start_ts: i64, end_ts: i64) -> bool {
    header.timeframe_ms > 0 && {
        let span = sat_i64(end_ts - start_ts);
        let est = sat_i64(trunc_div(span, header.timeframe_ms as int) + 1);
        0 <= est <= SHORT_RANGE_MAX_RECORDS
    }
}

/// Whether the requested span is small enough for the sparse-index path.
pub fn is_short_range(header: &ChunkHeader, start_ts: i64, end_ts: i64) -> (r: bool)
    ensures
        r == short_range(*header, start_ts, end_ts),
{
    if header.timeframe_ms <= 0 {
        return false;
    }
    let span = sat_sub_i64(end_ts, start_ts);
    let estimated = sat_add_i64(span / header.timeframe_ms, 1);
    estimated >= 0 && estimated <= 2048
}

} // verus!

verus! {

/// The `count` records of a chunk image, `size` bytes each from offset `base`, decode from
/// `bytes`.
pub open spec fn records_in_image<R: FixedRecord>(bytes: Seq<u8>, base: int, count: int, v: Seq<R>) -> bool {
    &&& v.len() == count
    &&& forall|i: int| 0 <= i < count ==> #[trigger] v[i] == R::spec_decode(
        bytes.subrange(base + i * R::spec_byte_size(), base + (i + 1) * R::spec_byte_size()),
    )
}

/// Decodes the records of a chunk file whose bytes are `bytes` and header `header`, which
/// must describe records of type `R`: `InvalidData` otherwise, `Io` when the file is too
/// short to hold them all (as a short read would be).
pub fn decode_chunk_records<R: FixedRecord>(bytes: &[u8], header: &ChunkHeader) -> (r: Result<Vec<R>>)
    ensures
        !(header.schema_id == R::spec_schema_id() && header.record_size as nat == R::spec_byte_size()
            && R::spec_byte_size() > 0) ==> r matches Err(FastKError::InvalidData(_)),
        header.schema_id == R::spec_schema_id() && header.record_size as nat == R::spec_byte_size()
            && R::spec_byte_size() > 0 ==> {
            let need = header.header_size + header.count * R::spec_byte_size();
            &&& need <= bytes@.len() ==> (r matches Ok(v) && records_in_image(bytes@, header.header_size as int, header.count as int, v@))
            &&& need > bytes@.len() ==> r matches Err(FastKError::Io(_))
        },
{
    validate_header::<R>(header)?;
    let size = R::byte_size();
    if size == 0 {
        return Err(invalid_data("record size is zero"));
    }
    let base = header.header_size as usize;
    let total = bytes.len();
    if base > total || header.count > ((total - base) / size) as u64 {
        proof {
            if base <= total {
                let room: int = (total - base) as int;
                let sz: int = size as int;
                let c: int = header.count as int;
                assert(c * sz > room) by (nonlinear_arith)
                    requires
                        c > room / sz,
                        sz > 0,
                        room >= 0,
                ;
            }
        }
        return Err(FastKError::Io("failed to fill whole buffer".to_owned()));
    }
    let count = header.count as usize;
    proof {
        let room: int = (total - base) as int;
        let sz: int = size as int;
        let c: int = count as int;
        assert(c * sz <= room) by (nonlinear_arith)
            requires
                c <= room / sz,
                sz > 0,
                room >= 0,
        ;
    }
    let mut out: Vec<R> = Vec::new();
    let mut i: usize = 0;
    while i < count
        invariant
            i <= count,
            count == header.count,
            size == R::spec_byte_size(),
            size > 0,
            base == header.header_size,
            total == bytes@.len(),
            base + count * size <= total,
            out@.len() == i,
            forall|q: int| 0 <= q < i ==> #[trigger] out@[q] == R::spec_decode(
                bytes@.subrange(base + q * size, base + (q + 1) * size),
            ),
        decreases count - i,
    {
        proof {
            assert((i + 1) * size <= count * size) by (nonlinear_arith)
                requires
                    i < count,
            ;
            assert(i * size + size == (i + 1) * size) by (nonlinear_arith);
        }
        let off = base + i * size;
        let rec = R::decode_le(&bytes[off..off + size])?;
        proof {
            assert(bytes@.subrange(off as int, off + size) =~= bytes@.subrange(base + i * size, base + (i + 1) * size));
        }
        out.push(rec);
        i = i + 1;
    }
    Ok(out)
}

} // verus!
