//! Zone maps (`.zmap`): per-block timestamp span and value range of a scalar chunk.
use vstd::prelude::*;
use vstd::bytes::*;
use crate::codec::{i64_le, i64_at, u32_at, push_i64, push_u32, read_i64_at, read_u32_at, lemma_i64_at, lemma_u32_at, lemma_le_lengths, to_array};
use crate::error::{FastKError, Result, invalid_data, invalid_input};
use crate::ordering::{sort_dedup_i64, strictly_increasing};
use crate::predicate::{CompareOp, ScalarPredicate, ScalarPredicateExpr};
use crate::records::{FixedRecord, ScalarRecord, ts_ordered};

verus! {

/// Single zone-map summary entry for a contiguous row block.
#[derive(Debug, Clone, Copy, PartialEq, Eq, Structural)]
pub struct ZoneMapEntry {
    pub start_row: u32,
    pub end_row: u32,
    pub start_ts: i64,
    pub end_ts: i64,
    pub min_value: i64,
    pub max_value: i64,
}

impl ZoneMapEntry {
    pub const BYTE_SIZE: usize = 40;

    pub open spec fn encoding(&self) -> Seq<u8> {
        spec_u32_to_le_bytes(self.start_row) + spec_u32_to_le_bytes(self.end_row) + i64_le(self.start_ts)
            + i64_le(self.end_ts) + i64_le(self.min_value) + i64_le(self.max_value)
    }

    pub open spec fn decoding(b: Seq<u8>) -> ZoneMapEntry {
        ZoneMapEntry {
            start_row: u32_at(b, 0),
            end_row: u32_at(b, 4),
            start_ts: i64_at(b, 8),
            end_ts: i64_at(b, 16),
            min_value: i64_at(b, 24),
            max_value: i64_at(b, 32),
        }
    }

    /// Encodes an entry to fixed-width bytes.
    pub fn to_le_bytes(&self) -> (r: [u8; 40])
        ensures
            r@ == self.encoding(),
    {
        let mut out: Vec<u8> = Vec::new();
        push_u32(&mut out, self.start_row);
        push_u32(&mut out, self.end_row);
        push_i64(&mut out, self.start_ts);
        push_i64(&mut out, self.end_ts);
        push_i64(&mut out, self.min_value);
        push_i64(&mut out, self.max_value);
        proof { zone_map_entry_roundtrip(*self); }
        to_array::<40>(out.as_slice())
    }

    /// Decodes an entry from fixed-width bytes.
    pub fn from_le_bytes(bytes: [u8; 40]) -> (r: Self)
        ensures
            r == Self::decoding(bytes@),
    {
        let b = bytes.as_slice();
        ZoneMapEntry {
            start_row: read_u32_at(b, 0),
            end_row: read_u32_at(b, 4),
            start_ts: read_i64_at(b, 8),
            end_ts: read_i64_at(b, 16),
            min_value: read_i64_at(b, 24),
            max_value: read_i64_at(b, 32),
        }
    }
}

/// An entry's encoding has 40 bytes and decodes back to the same entry.
pub proof fn zone_map_entry_roundtrip(e: ZoneMapEntry)
    ensures
        e.encoding().len() == 40,
        ZoneMapEntry::decoding(e.encoding()) == e,
{
    lemma_le_lengths(0, e.start_ts, e.start_row, 0);
    lemma_le_lengths(0, e.end_ts, e.end_row, 0);
    lemma_le_lengths(0, e.min_value, 0, 0);
    lemma_le_lengths(0, e.max_value, 0, 0);
    let b = e.encoding();
    assert(b.subrange(0, 4) =~= spec_u32_to_le_bytes(e.start_row));
    assert(b.subrange(4, 8) =~= spec_u32_to_le_bytes(e.end_row));
    assert(b.subrange(8, 16) =~= i64_le(e.start_ts));
    assert(b.subrange(16, 24) =~= i64_le(e.end_ts));
    assert(b.subrange(24, 32) =~= i64_le(e.min_value));
    assert(b.subrange(32, 40) =~= i64_le(e.max_value));
    lemma_u32_at(b, 0, e.start_row);
    lemma_u32_at(b, 4, e.end_row);
    lemma_i64_at(b, 8, e.start_ts);
    lemma_i64_at(b, 16, e.end_ts);
    lemma_i64_at(b, 24, e.min_value);
    lemma_i64_at(b, 32, e.max_value);
}

/// Entry `k` summarizes rows `[k * bs, min(n, (k + 1) * bs))` of `records`.
pub open spec fn summarizes_block(records: Seq<ScalarRecord>, bs: int, k: int, e: ZoneMapEntry) -> bool {
    let lo = k * bs;
    let hi = if (k + 1) * bs < records.len() { (k + 1) * bs } else { records.len() as int };
    &&& e.start_row == lo
    &&& e.end_row == hi - 1
    &&& e.start_ts == records[lo].ts
    &&& e.end_ts == records[hi - 1].ts
    &&& (forall|i: int| lo <= i < hi ==> e.min_value <= #[trigger] records[i].value <= e.max_value)
    &&& (exists|i: int| lo <= i < hi && #[trigger] records[i].value == e.min_value)
    &&& (exists|i: int| lo <= i < hi && #[trigger] records[i].value == e.max_value)
}

/// `entries` is the zone map of `records` with blocks of `bs` rows.
pub open spec fn zone_map_of(records: Seq<ScalarRecord>, bs: int, entries: Seq<ZoneMapEntry>) -> bool {
    &&& entries.len() * bs >= records.len()
    &&& entries.len() == 0 || (entries.len() - 1) * bs < records.len()
    &&& forall|k: int| 0 <= k < entries.len() ==> summarizes_block(records, bs, k, #[trigger] entries[k])
}

/// Builds zone-map summaries from timestamp-ordered scalar records.
pub fn build_entries(records: &[ScalarRecord], block_size: usize) -> (r: Result<Vec<ZoneMapEntry>>)
    ensures
        block_size == 0 ==> r matches Err(FastKError::InvalidInput(_)),
        block_size > 0 && records@.len() == 0 ==> (r matches Ok(v) && v@.len() == 0),
        block_size > 0 && records@.len() > 0 && (!ts_ordered(records@) || records@.len() > u32::MAX)
            ==> r matches Err(FastKError::InvalidInput(_)),
        block_size > 0 && records@.len() > 0 && ts_ordered(records@) && records@.len() <= u32::MAX
            ==> (r matches Ok(v) && zone_map_of(records@, block_size as int, v@)),
{
    if block_size == 0 {
        return Err(invalid_input("zone-map block_size must be greater than zero"));
    }
    if records.len() == 0 {
        return Ok(Vec::new());
    }
    ScalarRecord::validate_strict_order(records)?;
    if records.len() > 0xFFFF_FFFF {
        return Err(invalid_input("zone-map supports at most u32::MAX rows per record slice"));
    }
    let n = records.len();
    let mut entries: Vec<ZoneMapEntry> = Vec::new();
    let mut lo: usize = 0;
    assert(entries@.len() * block_size == 0) by (nonlinear_arith)
        requires
            entries@.len() == 0,
    ;
    while lo < n
        invariant
            n == records@.len(),
            n <= u32::MAX,
            ts_ordered(records@),
            block_size > 0,
            lo == entries@.len() * block_size,
            entries@.len() == 0 || (entries@.len() - 1) * block_size < n,
            forall|k: int| 0 <= k < entries@.len() ==> summarizes_block(records@, block_size as int, k, #[trigger] entries@[k]),
        decreases n - lo,
    {
        let ghost k = entries@.len() as int;
        let hi = if block_size < n - lo { lo + block_size } else { n };
        let mut min_value = records[lo].value;
        let mut max_value = records[lo].value;
        let mut i = lo + 1;
        while i < hi
            invariant
                lo < i <= hi <= n,
                n == records@.len(),
                forall|j: int| lo <= j < i ==> min_value <= #[trigger] records@[j].value <= max_value,
                exists|j: int| lo <= j < i && #[trigger] records@[j].value == min_value,
                exists|j: int| lo <= j < i && #[trigger] records@[j].value == max_value,
            decreases hi - i,
        {
            let v = records[i].value;
            if v < min_value {
                min_value = v;
            }
            if v > max_value {
                max_value = v;
            }
            i = i + 1;
        }
        let e = ZoneMapEntry {
            start_row: lo as u32,
            end_row: (hi - 1) as u32,
            start_ts: records[lo].ts,
            end_ts: records[hi - 1].ts,
            min_value,
            max_value,
        };
        proof {
            assert((k + 1) * block_size == k * block_size + block_size) by (nonlinear_arith);
        }
        entries.push(e);
        lo = hi;
        if hi == n {
            proof {
                assert(entries@.len() * block_size >= n);
            }
            return Ok(entries);
        }
    }
    Ok(entries)
}

/// The block's timestamp span intersects `[start_ts, end_ts]`.
pub open spec fn in_window(e: ZoneMapEntry, start_ts: i64, end_ts: i64) -> bool {
    !(e.end_ts < start_ts || e.start_ts > end_ts)
}

/// Whether a block with this value range may hold a value satisfying a well-formed predicate.
pub open spec fn block_may_match(e: ZoneMapEntry, p: ScalarPredicate) -> bool {
    match p.op {
        CompareOp::Gt => e.max_value > p.value,
        CompareOp::Gte => e.max_value >= p.value,
        CompareOp::Lt => e.min_value < p.value,
        CompareOp::Lte => e.min_value <= p.value,
        CompareOp::Eq => e.min_value <= p.value && e.max_value >= p.value,
        CompareOp::Between => e.max_value >= p.value && e.min_value <= p.value2.unwrap(),
    }
}

/// The entries, in order, whose window intersects and whose values may match.
pub open spec fn candidates(entries: Seq<ZoneMapEntry>, p: ScalarPredicate, start_ts: i64, end_ts: i64) -> Seq<ZoneMapEntry>
    decreases entries.len(),
{
    if entries.len() == 0 {
        Seq::empty()
    } else {
        let rest = candidates(entries.drop_last(), p, start_ts, end_ts);
        let e = entries.last();
        if in_window(e, start_ts, end_ts) && block_may_match(e, p) {
            rest.push(e)
        } else {
            rest
        }
    }
}

/// Some block intersects the window.
pub open spec fn any_in_window(entries: Seq<ZoneMapEntry>, start_ts: i64, end_ts: i64) -> bool {
    exists|i: int| 0 <= i < entries.len() && in_window(#[trigger] entries[i], start_ts, end_ts)
}

fn entry_may_match(entry: &ZoneMapEntry, predicate: &ScalarPredicate) -> (r: Result<bool>)
    ensures
        predicate.well_formed() ==> r == Ok::<bool, FastKError>(block_may_match(*entry, *predicate)),
        !predicate.well_formed() ==> r matches Err(FastKError::InvalidInput(_)),
{
    match predicate.op {
        CompareOp::Gt => Ok(entry.max_value > predicate.value),
        CompareOp::Gte => Ok(entry.max_value >= predicate.value),
        CompareOp::Lt => Ok(entry.min_value < predicate.value),
        CompareOp::Lte => Ok(entry.min_value <= predicate.value),
        CompareOp::Eq => Ok(entry.min_value <= predicate.value && entry.max_value >= predicate.value),
        CompareOp::Between => {
            let (lower, upper) = predicate.bounds()?;
            Ok(entry.max_value >= lower && entry.min_value <= upper)
        },
    }
}

/// Row spans `(start_row, end_row)` of the candidate blocks.
fn candidate_pairs(entries: &[ZoneMapEntry], predicate: &ScalarPredicate, start_ts: i64, end_ts: i64) -> (r: Result<Vec<(u32, u32)>>)
    ensures
        predicate.well_formed() || !any_in_window(entries@, start_ts, end_ts) ==> (r matches Ok(v)
            && v@.len() == candidates(entries@, *predicate, start_ts, end_ts).len()
            && forall|k: int| 0 <= k < v@.len() ==> #[trigger] v@[k] == (candidates(entries@, *predicate, start_ts, end_ts)[k].start_row,
                candidates(entries@, *predicate, start_ts, end_ts)[k].end_row)),
        !predicate.well_formed() && any_in_window(entries@, start_ts, end_ts) ==> r matches Err(FastKError::InvalidInput(_)),
{
    let mut out: Vec<(u32, u32)> = Vec::new();
    let mut k: usize = 0;
    while k < entries.len()
        invariant
            k <= entries@.len(),
            predicate.well_formed() || !any_in_window(entries@.subrange(0, k as int), start_ts, end_ts),
            out@.len() == candidates(entries@.subrange(0, k as int), *predicate, start_ts, end_ts).len(),
            forall|j: int| 0 <= j < out@.len() ==> #[trigger] out@[j] == (candidates(entries@.subrange(0, k as int), *predicate, start_ts, end_ts)[j].start_row,
                candidates(entries@.subrange(0, k as int), *predicate, start_ts, end_ts)[j].end_row),
        decreases entries@.len() - k,
    {
        let entry = &entries[k];
        let ghost pre = entries@.subrange(0, k as int);
        let ghost next = entries@.subrange(0, k + 1);
        proof {
            assert(next.drop_last() =~= pre);
            assert(next.last() == entries@[k as int]);
        }
        if entry.end_ts < start_ts || entry.start_ts > end_ts {
            proof {
                assert forall|i: int| 0 <= i < next.len() && in_window(#[trigger] next[i], start_ts, end_ts) implies predicate.well_formed() by {
                    if i < k {
                        assert(pre[i] == next[i]);
                    }
                }
            }
        } else {
            let m = match entry_may_match(entry, predicate) {
                Ok(m) => m,
                Err(e) => {
                    proof {
                        assert(in_window(entries@[k as int], start_ts, end_ts));
                        assert(any_in_window(entries@, start_ts, end_ts));
                    }
                    return Err(e);
                },
            };
            if m {
                out.push((entry.start_row, entry.end_row));
            }
        }
        k = k + 1;
    }
    proof {
        assert(entries@.subrange(0, k as int) =~= entries@);
    }
    Ok(out)
}

/// Row ranges of the blocks that intersect the window and may hold a match.
pub fn candidate_row_ranges(entries: &[ZoneMapEntry], predicate: &ScalarPredicate, start_ts: i64, end_ts: i64) -> (r: Result<Vec<core::ops::RangeInclusive<u32>>>)
    ensures
        predicate.well_formed() || !any_in_window(entries@, start_ts, end_ts) ==> (r matches Ok(v)
            && v@.len() == candidates(entries@, *predicate, start_ts, end_ts).len()
            && forall|k: int| 0 <= k < v@.len() ==> (#[trigger] v@[k])@.start == candidates(entries@, *predicate, start_ts, end_ts)[k].start_row
                && v@[k]@.end == candidates(entries@, *predicate, start_ts, end_ts)[k].end_row && !v@[k]@.exhausted),
        !predicate.well_formed() && any_in_window(entries@, start_ts, end_ts) ==> r matches Err(FastKError::InvalidInput(_)),
{
    let pairs = candidate_pairs(entries, predicate, start_ts, end_ts)?;
    let mut out: Vec<core::ops::RangeInclusive<u32>> = Vec::new();
    let mut k: usize = 0;
    while k < pairs.len()
        invariant
            k <= pairs@.len(),
            out@.len() == k,
            forall|j: int| 0 <= j < k ==> (#[trigger] out@[j])@.start == pairs@[j].0 && out@[j]@.end == pairs@[j].1 && !out@[j]@.exhausted,
        decreases pairs@.len() - k,
    {
        out.push(core::ops::RangeInclusive::new(pairs[k].0, pairs[k].1));
        k = k + 1;
    }
    Ok(out)
}

} // verus!

verus! {

/// Scanning the candidate spans in order never meets a reversed span before a bad one.
pub open spec fn spans_scannable(c: Seq<ZoneMapEntry>, n: nat) -> bool {
    forall|k: int|
        0 <= k < c.len() && (forall|j: int| 0 <= j < k ==> #[trigger] c[j].end_row < n)
            ==> #[trigger] c[k].start_row <= c[k].end_row + 1
}

/// Every candidate block intersects the window.
pub proof fn lemma_candidates_in_window(entries: Seq<ZoneMapEntry>, p: ScalarPredicate, start_ts: i64, end_ts: i64)
    ensures
        forall|k: int| 0 <= k < candidates(entries, p, start_ts, end_ts).len() ==> in_window(
            #[trigger] candidates(entries, p, start_ts, end_ts)[k], start_ts, end_ts)
            && exists|i: int| 0 <= i < entries.len() && entries[i] == candidates(entries, p, start_ts, end_ts)[k],
    decreases entries.len(),
{
    if entries.len() > 0 {
        let pre = entries.drop_last();
        lemma_candidates_in_window(pre, p, start_ts, end_ts);
        let c = candidates(entries, p, start_ts, end_ts);
        let cp = candidates(pre, p, start_ts, end_ts);
        assert forall|k: int| 0 <= k < c.len() implies in_window(#[trigger] c[k], start_ts, end_ts)
            && exists|i: int| 0 <= i < entries.len() && entries[i] == c[k] by {
            if k < cp.len() {
                assert(c[k] == cp[k]);
                let i = choose|i: int| 0 <= i < pre.len() && pre[i] == cp[k];
                assert(entries[i] == pre[i]);
            } else {
                assert(c[k] == entries.last());
                assert(entries[entries.len() - 1] == c[k]);
            }
        }
    }
}

/// Some candidate span reaches past the records.
pub open spec fn some_span_out_of_bounds(c: Seq<ZoneMapEntry>, n: nat) -> bool {
    exists|k: int| 0 <= k < c.len() && #[trigger] c[k].end_row >= n
}

/// Record `x` exists, has timestamp `t` inside the window, and its value satisfies `p`.
pub open spec fn row_hit(records: Seq<ScalarRecord>, x: int, p: ScalarPredicate, start_ts: i64, end_ts: i64, t: i64) -> bool {
    0 <= x < records.len() && records[x].ts == t && start_ts <= t <= end_ts && p.holds(records[x].value)
}

/// Some record with index in `[lo, hi]` is a hit with timestamp `t`.
pub open spec fn span_hit(records: Seq<ScalarRecord>, lo: int, hi: int, p: ScalarPredicate, start_ts: i64, end_ts: i64, t: i64) -> bool {
    exists|x: int| lo <= x <= hi && #[trigger] row_hit(records, x, p, start_ts, end_ts, t)
}

/// `t` is the timestamp of a record inside a candidate span that lies in the window and
/// satisfies the predicate.
pub open spec fn zmap_match(c: Seq<ZoneMapEntry>, records: Seq<ScalarRecord>, p: ScalarPredicate, start_ts: i64, end_ts: i64, t: i64) -> bool {
    exists|k: int| 0 <= k < c.len() && #[trigger] span_hit(records, c[k].start_row as int, c[k].end_row as int, p, start_ts, end_ts, t)
}

/// Appends the timestamps of the hits among records `lo..=hi`.
fn collect_span_hits(records: &[ScalarRecord], lo: usize, hi: usize, predicate: &ScalarPredicate, start_ts: i64, end_ts: i64, out: &mut Vec<i64>)
    requires
        lo <= hi + 1,
        hi < records@.len(),
        predicate.well_formed(),
    ensures
        forall|t: i64| final(out)@.contains(t) <==> (old(out)@.contains(t)
            || span_hit(records@, lo as int, hi as int, *predicate, start_ts, end_ts, t)),
{
    let ghost before = out@;
    let mut i = lo;
    while i <= hi
        invariant
            lo <= i <= hi + 1,
            hi < records@.len(),
            predicate.well_formed(),
            forall|t: i64| out@.contains(t) <==> (before.contains(t)
                || exists|x: int| lo <= x < i && #[trigger] row_hit(records@, x, *predicate, start_ts, end_ts, t)),
        decreases hi + 1 - i,
    {
        let rec = records[i];
        let ghost mid = out@;
        assert(forall|t: i64| mid.contains(t) <==> (before.contains(t)
            || exists|x: int| lo <= x < i && #[trigger] row_hit(records@, x, *predicate, start_ts, end_ts, t)));
        let hit = if rec.ts >= start_ts && rec.ts <= end_ts {
            match predicate.matches(rec.value) {
                Ok(b) => b,
                Err(_) => false,
            }
        } else {
            false
        };
        assert(hit == row_hit(records@, i as int, *predicate, start_ts, end_ts, rec.ts));
        if hit {
            out.push(rec.ts);
        }
        proof {
            assert forall|t: i64| out@.contains(t) <==> (before.contains(t)
                || exists|x: int| lo <= x < i + 1 && #[trigger] row_hit(records@, x, *predicate, start_ts, end_ts, t)) by {
                if out@.contains(t) {
                    let q = choose|q: int| 0 <= q < out@.len() && out@[q] == t;
                    if q < mid.len() {
                        assert(mid[q] == t);
                        assert(mid.contains(t));
                    } else {
                        assert(row_hit(records@, i as int, *predicate, start_ts, end_ts, t));
                    }
                }
                if before.contains(t) || exists|x: int| lo <= x < i && #[trigger] row_hit(records@, x, *predicate, start_ts, end_ts, t) {
                    assert(mid.contains(t));
                    let q = choose|q: int| 0 <= q < mid.len() && mid[q] == t;
                    assert(out@[q] == t);
                }
                if row_hit(records@, i as int, *predicate, start_ts, end_ts, t) {
                    assert(out@[out@.len() - 1] == t);
                }
            }
        }
        i = i + 1;
    }
}

/// Timestamps that match the predicate and time window, using zone-map pruning: sorted, unique.
pub fn find_timestamps(entries: &[ZoneMapEntry], records: &[ScalarRecord], predicate: &ScalarPredicate, start_ts: i64, end_ts: i64) -> (r: Result<Vec<i64>>)
    requires
        spans_scannable(candidates(entries@, *predicate, start_ts, end_ts), records@.len()),
    ensures
        (start_ts > end_ts || entries@.len() == 0 || records@.len() == 0) ==> (r matches Ok(v) && v@.len() == 0),
        !(start_ts > end_ts || entries@.len() == 0 || records@.len() == 0) ==> {
            let c = candidates(entries@, *predicate, start_ts, end_ts);
            if !predicate.well_formed() && any_in_window(entries@, start_ts, end_ts) {
                r matches Err(FastKError::InvalidInput(_))
            } else if some_span_out_of_bounds(c, records@.len()) {
                r matches Err(FastKError::InvalidData(_))
            } else {
                r matches Ok(v) && strictly_increasing(v@)
                    && forall|t: i64| v@.contains(t) <==> zmap_match(c, records@, *predicate, start_ts, end_ts, t)
            }
        },
{
    if start_ts > end_ts || entries.len() == 0 || records.len() == 0 {
        return Ok(Vec::new());
    }
    let pairs = candidate_pairs(entries, predicate, start_ts, end_ts)?;
    let ghost c = candidates(entries@, *predicate, start_ts, end_ts);
    let n = records.len();
    let mut timestamps: Vec<i64> = Vec::new();
    let mut k: usize = 0;
    proof {
        lemma_candidates_in_window(entries@, *predicate, start_ts, end_ts);
        if c.len() > 0 {
            assert(in_window(c[0], start_ts, end_ts));
            let i = choose|i: int| 0 <= i < entries@.len() && entries@[i] == c[0];
            assert(any_in_window(entries@, start_ts, end_ts));
        }
    }
    while k < pairs.len()
        invariant
            k <= pairs@.len(),
            n == records@.len(),
            pairs@.len() == c.len(),
            forall|j: int| 0 <= j < pairs@.len() ==> #[trigger] pairs@[j] == (c[j].start_row, c[j].end_row),
            spans_scannable(c, n as nat),
            pairs@.len() > 0 ==> predicate.well_formed(),
            !(start_ts > end_ts || entries@.len() == 0 || records@.len() == 0),
            predicate.well_formed() || !any_in_window(entries@, start_ts, end_ts),
            c == candidates(entries@, *predicate, start_ts, end_ts),
            forall|j: int| 0 <= j < k ==> #[trigger] c[j].end_row < n,
            forall|t: i64| timestamps@.contains(t) <==> exists|j: int|
                0 <= j < k && #[trigger] span_hit(records@, c[j].start_row as int, c[j].end_row as int, *predicate, start_ts, end_ts, t),
        decreases pairs@.len() - k,
    {
        let (lo, hi) = pairs[k];
        assert(pairs@[k as int] == (c[k as int].start_row, c[k as int].end_row));
        if hi as usize >= n {
            proof {
                assert(some_span_out_of_bounds(c, n as nat)) by {
                    assert(c[k as int].end_row >= n);
                }
            }
            return Err(invalid_data("zone-map row exceeds record length"));
        }
        assert(c[k as int].start_row <= c[k as int].end_row + 1);
        let ghost before = timestamps@;
        collect_span_hits(records, lo as usize, hi as usize, predicate, start_ts, end_ts, &mut timestamps);
        proof {
            assert forall|t: i64| timestamps@.contains(t) <==> exists|j: int|
                0 <= j < k + 1 && #[trigger] span_hit(records@, c[j].start_row as int, c[j].end_row as int, *predicate, start_ts, end_ts, t) by {
                if exists|j: int| 0 <= j < k + 1 && #[trigger] span_hit(records@, c[j].start_row as int, c[j].end_row as int, *predicate, start_ts, end_ts, t) {
                    let j = choose|j: int| 0 <= j < k + 1 && #[trigger] span_hit(records@, c[j].start_row as int, c[j].end_row as int, *predicate, start_ts, end_ts, t);
                    if j < k {
                        assert(before.contains(t));
                    }
                }
            }
        }
        k = k + 1;
    }
    proof {
        assert(!some_span_out_of_bounds(c, n as nat));
    }
    let out = sort_dedup_i64(&timestamps);
    Ok(out)
}

/// Entries, in order, that intersect the window and whose value range may satisfy `expr`.
pub open spec fn candidates_for_expr(entries: Seq<ZoneMapEntry>, expr: ScalarPredicateExpr, start_ts: i64, end_ts: i64) -> Seq<ZoneMapEntry>
    decreases entries.len(),
{
    if entries.len() == 0 {
        Seq::empty()
    } else {
        let rest = candidates_for_expr(entries.drop_last(), expr, start_ts, end_ts);
        let e = entries.last();
        if in_window(e, start_ts, end_ts) && expr.may_match(e.min_value, e.max_value) {
            rest.push(e)
        } else {
            rest
        }
    }
}

/// Row ranges of the blocks that intersect the window and may satisfy `predicate`.
pub fn candidate_row_ranges_for_expr(entries: &[ZoneMapEntry], predicate: &ScalarPredicateExpr, start_ts: i64, end_ts: i64) -> (r: Result<Vec<core::ops::RangeInclusive<u32>>>)
    ensures
        !predicate.well_formed() ==> r matches Err(FastKError::InvalidInput(_)),
        predicate.well_formed() ==> (r matches Ok(v)
            && v@.len() == candidates_for_expr(entries@, *predicate, start_ts, end_ts).len()
            && forall|k: int| 0 <= k < v@.len() ==> (#[trigger] v@[k])@.start == candidates_for_expr(entries@, *predicate, start_ts, end_ts)[k].start_row
                && v@[k]@.end == candidates_for_expr(entries@, *predicate, start_ts, end_ts)[k].end_row && !v@[k]@.exhausted),
{
    predicate.validate()?;
    let mut out: Vec<core::ops::RangeInclusive<u32>> = Vec::new();
    let mut k: usize = 0;
    while k < entries.len()
        invariant
            k <= entries@.len(),
            out@.len() == candidates_for_expr(entries@.subrange(0, k as int), *predicate, start_ts, end_ts).len(),
            forall|j: int| 0 <= j < out@.len() ==> (#[trigger] out@[j])@.start == candidates_for_expr(entries@.subrange(0, k as int), *predicate, start_ts, end_ts)[j].start_row
                && out@[j]@.end == candidates_for_expr(entries@.subrange(0, k as int), *predicate, start_ts, end_ts)[j].end_row && !out@[j]@.exhausted,
        decreases entries@.len() - k,
    {
        let entry = &entries[k];
        proof {
            assert(entries@.subrange(0, k + 1).drop_last() =~= entries@.subrange(0, k as int));
        }
        if !(entry.end_ts < start_ts || entry.start_ts > end_ts) && predicate.may_match_value_range(entry.min_value, entry.max_value) {
            out.push(core::ops::RangeInclusive::new(entry.start_row, entry.end_row));
        }
        k = k + 1;
    }
    proof {
        assert(entries@.subrange(0, k as int) =~= entries@);
    }
    Ok(out)
}

} // verus!

verus! {

/// Concatenated encodings of `entries`: the contents of a `.zmap` file.
pub open spec fn encode_entries_spec(entries: Seq<ZoneMapEntry>) -> Seq<u8>
    decreases entries.len(),
{
    if entries.len() == 0 {
        Seq::empty()
    } else {
        encode_entries_spec(entries.drop_last()) + entries.last().encoding()
    }
}

/// The bytes of a `.zmap` file holding `entries`, back to back.
pub fn encode_entries(entries: &[ZoneMapEntry]) -> (r: Vec<u8>)
    ensures
        r@ == encode_entries_spec(entries@),
{
    let mut bytes: Vec<u8> = Vec::new();
    let mut k: usize = 0;
    while k < entries.len()
        invariant
            k <= entries@.len(),
            bytes@ == encode_entries_spec(entries@.subrange(0, k as int)),
        decreases entries@.len() - k,
    {
        let raw = entries[k].to_le_bytes();
        crate::codec::push_bytes(&mut bytes, raw.as_slice());
        proof {
            let s = entries@.subrange(0, k + 1);
            assert(s.drop_last() =~= entries@.subrange(0, k as int));
        }
        k = k + 1;
    }
    assert(entries@.subrange(0, k as int) =~= entries@);
    bytes
}

/// Parses the bytes of a `.zmap` file: whole 40-byte entries, else `InvalidData`.
pub fn decode_entries(bytes: &[u8]) -> (r: Result<Vec<ZoneMapEntry>>)
    ensures
        bytes@.len() % 40 != 0 ==> r matches Err(FastKError::InvalidData(_)),
        bytes@.len() % 40 == 0 ==> (r matches Ok(v) && v@.len() == bytes@.len() / 40
            && forall|k: int| 0 <= k < v@.len() ==> #[trigger] v@[k]
                == ZoneMapEntry::decoding(bytes@.subrange(40 * k, 40 * k + 40))),
{
    if bytes.len() % 40 != 0 {
        return Err(invalid_data("invalid zmap byte length"));
    }
    let total = bytes.len();
    let count = total / 40;
    let mut out: Vec<ZoneMapEntry> = Vec::new();
    let mut k: usize = 0;
    while k < count
        invariant
            count == bytes@.len() / 40,
            total == bytes@.len(),
            bytes@.len() % 40 == 0,
            k <= count,
            out@.len() == k,
            forall|j: int| 0 <= j < k ==> #[trigger] out@[j]
                == ZoneMapEntry::decoding(bytes@.subrange(40 * j, 40 * j + 40)),
        decreases count - k,
    {
        assert(40 * k + 40 <= bytes@.len()) by (nonlinear_arith)
            requires
                k < count,
                count == bytes@.len() / 40,
        ;
        let off = 40 * k;
        let raw = to_array::<40>(&bytes[off..off + 40]);
        let e = ZoneMapEntry::from_le_bytes(raw);
        out.push(e);
        k = k + 1;
    }
    Ok(out)
}

/// A `.zmap` file decodes back to the entries it was written from: 40 bytes per entry,
/// entry `k` at offset `40 * k`.
pub proof fn zmap_file_roundtrip(entries: Seq<ZoneMapEntry>)
    ensures
        encode_entries_spec(entries).len() == 40 * entries.len(),
        forall|k: int| 0 <= k < entries.len() ==> #[trigger] ZoneMapEntry::decoding(
            encode_entries_spec(entries).subrange(40 * k, 40 * k + 40),
        ) == entries[k],
    decreases entries.len(),
{
    if entries.len() > 0 {
        let init = entries.drop_last();
        zmap_file_roundtrip(init);
        zone_map_entry_roundtrip(entries.last());
        let b = encode_entries_spec(entries);
        let a = encode_entries_spec(init);
        assert(b == a + entries.last().encoding());
        assert forall|k: int| 0 <= k < entries.len() implies #[trigger] ZoneMapEntry::decoding(
            b.subrange(40 * k, 40 * k + 40),
        ) == entries[k] by {
            if k < entries.len() - 1 {
                assert(40 * k + 40 <= a.len()) by (nonlinear_arith)
                    requires
                        k < init.len(),
                        a.len() == 40 * init.len(),
                ;
                assert(b.subrange(40 * k, 40 * k + 40) =~= a.subrange(40 * k, 40 * k + 40));
                assert(init[k] == entries[k]);
            } else {
                assert(40 * k == a.len()) by (nonlinear_arith)
                    requires
                        k == init.len(),
                        a.len() == 40 * init.len(),
                ;
                assert(b.subrange(40 * k, 40 * k + 40) =~= entries.last().encoding());
            }
        }
    }
}

/// A block that meets the window and may match is among the candidates.
proof fn lemma_candidate_member(entries: Seq<ZoneMapEntry>, p: ScalarPredicate, start_ts: i64, end_ts: i64, i: int)
    requires
        0 <= i < entries.len(),
        in_window(entries[i], start_ts, end_ts),
        block_may_match(entries[i], p),
    ensures
        exists|j: int| 0 <= j < candidates(entries, p, start_ts, end_ts).len()
            && #[trigger] candidates(entries, p, start_ts, end_ts)[j] == entries[i],
    decreases entries.len(),
{
    let pre = entries.drop_last();
    let c = candidates(entries, p, start_ts, end_ts);
    let cp = candidates(pre, p, start_ts, end_ts);
    if i == entries.len() - 1 {
        assert(c[cp.len() as int] == entries[i]);
    } else {
        assert(pre[i] == entries[i]);
        lemma_candidate_member(pre, p, start_ts, end_ts, i);
        let j = choose|j: int| 0 <= j < cp.len() && #[trigger] cp[j] == entries[i];
        assert(c[j] == cp[j]);
    }
}

/// Zone-map pruning drops no match: for the zone map of timestamp-ordered records and a
/// well-formed predicate, the candidate blocks can all be scanned, none reaches past the
/// records, and a timestamp is a hit in some candidate block exactly when some record in
/// the window with that timestamp satisfies the predicate.
pub proof fn zone_map_pruning_keeps_every_match(
    records: Seq<ScalarRecord>,
    bs: int,
    entries: Seq<ZoneMapEntry>,
    p: ScalarPredicate,
    start_ts: i64,
    end_ts: i64,
)
    requires
        bs > 0,
        ts_ordered(records),
        zone_map_of(records, bs, entries),
        p.well_formed(),
    ensures
        spans_scannable(candidates(entries, p, start_ts, end_ts), records.len()),
        !some_span_out_of_bounds(candidates(entries, p, start_ts, end_ts), records.len()),
        forall|t: i64| zmap_match(candidates(entries, p, start_ts, end_ts), records, p, start_ts, end_ts, t)
            <==> exists|x: int| #[trigger] row_hit(records, x, p, start_ts, end_ts, t),
{
    let c = candidates(entries, p, start_ts, end_ts);
    let n = records.len() as int;
    lemma_candidates_in_window(entries, p, start_ts, end_ts);
    assert forall|k: int| 0 <= k < c.len() implies #[trigger] c[k].start_row <= c[k].end_row + 1 && c[k].end_row < n by {
        let i = choose|i: int| 0 <= i < entries.len() && entries[i] == c[k];
        assert(summarizes_block(records, bs, i, entries[i]));
        assert(i * bs < n) by (nonlinear_arith)
            requires
                0 <= i < entries.len(),
                (entries.len() - 1) * bs < n,
                bs > 0,
        ;
    }
    assert forall|t: i64| zmap_match(c, records, p, start_ts, end_ts, t)
        <==> exists|x: int| #[trigger] row_hit(records, x, p, start_ts, end_ts, t) by {
        if exists|x: int| #[trigger] row_hit(records, x, p, start_ts, end_ts, t) {
            let x = choose|x: int| #[trigger] row_hit(records, x, p, start_ts, end_ts, t);
            let k = x / bs;
            assert(k * bs <= x && x < (k + 1) * bs) by (nonlinear_arith)
                requires
                    k == x / bs,
                    bs > 0,
                    x >= 0,
            ;
            assert(0 <= k < entries.len()) by (nonlinear_arith)
                requires
                    k * bs <= x,
                    x < n,
                    entries.len() * bs >= n,
                    bs > 0,
                    x >= 0,
                    k == x / bs,
            ;
            let e = entries[k];
            assert(summarizes_block(records, bs, k, e));
            let lo = k * bs;
            let hi = if (k + 1) * bs < n { (k + 1) * bs } else { n };
            assert(lo <= x < hi);
            assert(records[lo].ts <= records[x].ts) by {
                if lo < x {
                    assert(records[lo].spec_ts() < records[x].spec_ts());
                }
            }
            assert(records[x].ts <= records[hi - 1].ts) by {
                if x < hi - 1 {
                    assert(records[x].spec_ts() < records[hi - 1].spec_ts());
                }
            }
            assert(e.min_value <= records[x].value <= e.max_value);
            assert(in_window(e, start_ts, end_ts));
            assert(block_may_match(e, p));
            lemma_candidate_member(entries, p, start_ts, end_ts, k);
            let j = choose|j: int| 0 <= j < c.len() && #[trigger] c[j] == entries[k];
            assert(span_hit(records, c[j].start_row as int, c[j].end_row as int, p, start_ts, end_ts, t));
        }
        if zmap_match(c, records, p, start_ts, end_ts, t) {
            let k = choose|k: int| 0 <= k < c.len() && #[trigger] span_hit(records, c[k].start_row as int, c[k].end_row as int, p, start_ts, end_ts, t);
            let x = choose|x: int| c[k].start_row <= x <= c[k].end_row && #[trigger] row_hit(records, x, p, start_ts, end_ts, t);
            assert(row_hit(records, x, p, start_ts, end_ts, t));
        }
    }
}

} // verus!
