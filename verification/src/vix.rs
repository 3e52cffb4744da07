//! Value index (`.vix`): scalar entries sorted by `(value, ts)`.
use vstd::prelude::*;
use vstd::seq_lib::*;
use crate::codec::{i64_le, i64_at, push_i64, read_i64_at, lemma_i64_at, lemma_le_lengths, to_array};
use crate::error::{FastKError, Result, invalid_data};
use crate::ordering::{sort_dedup_i64, strictly_increasing};
use crate::predicate::{CompareOp, ScalarPredicate, ScalarPredicateExpr};
use crate::records::ScalarRecord;

verus! {

/// Single value-index entry sorted by `(value, ts)`.
#[derive(Debug, Clone, Copy, PartialEq, Eq, Structural)]
pub struct ValueIndexEntry {
    pub value: i64,
    pub ts: i64,
}

impl ValueIndexEntry {
    pub const BYTE_SIZE: usize = 16;

    pub open spec fn encoding(&self) -> Seq<u8> {
        i64_le(self.value) + i64_le(self.ts)
    }

    pub open spec fn decoding(b: Seq<u8>) -> ValueIndexEntry {
        ValueIndexEntry { value: i64_at(b, 0), ts: i64_at(b, 8) }
    }

    /// Encodes an entry to fixed-width bytes.
    pub fn to_le_bytes(&self) -> (r: [u8; 16])
        ensures
            r@ == self.encoding(),
    {
        let mut out: Vec<u8> = Vec::new();
        push_i64(&mut out, self.value);
        push_i64(&mut out, self.ts);
        proof { lemma_le_lengths(0, self.ts, 0, 0); lemma_le_lengths(0, self.value, 0, 0); }
        to_array::<16>(out.as_slice())
    }

    /// Decodes an entry from fixed-width bytes.
    pub fn from_le_bytes(bytes: [u8; 16]) -> (r: Self)
        ensures
            r == Self::decoding(bytes@),
    {
        ValueIndexEntry { value: read_i64_at(bytes.as_slice(), 0), ts: read_i64_at(bytes.as_slice(), 8) }
    }
}

/// An entry's encoding decodes back to the same entry.
pub proof fn value_index_entry_roundtrip(e: ValueIndexEntry)
    ensures
        e.encoding().len() == 16,
        ValueIndexEntry::decoding(e.encoding()) == e,
{
    lemma_le_lengths(0, e.ts, 0, 0);
    lemma_le_lengths(0, e.value, 0, 0);
    let b = e.encoding();
    assert(b.subrange(0, 8) =~= i64_le(e.value));
    assert(b.subrange(8, 16) =~= i64_le(e.ts));
    lemma_i64_at(b, 0, e.value);
    lemma_i64_at(b, 8, e.ts);
}

/// `(a.value, a.ts) <= (b.value, b.ts)` lexicographically.
pub open spec fn entry_le(a: ValueIndexEntry, b: ValueIndexEntry) -> bool {
    a.value < b.value || (a.value == b.value && a.ts <= b.ts)
}

/// Entries ordered by `(value, ts)`.
pub open spec fn entries_sorted(s: Seq<ValueIndexEntry>) -> bool {
    forall|i: int, j: int| 0 <= i < j < s.len() ==> entry_le(s[i], s[j])
}

/// Entries ordered by value.
pub open spec fn values_sorted(s: Seq<ValueIndexEntry>) -> bool {
    forall|i: int, j: int| 0 <= i <= j < s.len() ==> s[i].value <= s[j].value
}

/// The entry for one scalar record.
pub open spec fn entry_of(r: ScalarRecord) -> ValueIndexEntry {
    ValueIndexEntry { value: r.value, ts: r.ts }
}

/// The entries for a sequence of scalar records, in order.
pub open spec fn entries_of(s: Seq<ScalarRecord>) -> Seq<ValueIndexEntry> {
    s.map_values(|x: ScalarRecord| entry_of(x))
}

/// Builds a sorted value index from scalar records.
pub fn build_entries(records: &[ScalarRecord]) -> (r: Vec<ValueIndexEntry>)
    ensures
        entries_sorted(r@),
        r@.to_multiset() == entries_of(records@).to_multiset(),
{
    broadcast use to_multiset_insert, to_multiset_build;

    let mut out: Vec<ValueIndexEntry> = Vec::new();
    let mut k: usize = 0;
    proof {
        assert(entries_of(records@.subrange(0, 0)) =~= out@);
    }
    while k < records.len()
        invariant
            k <= records@.len(),
            entries_sorted(out@),
            out@.to_multiset() == entries_of(records@.subrange(0, k as int)).to_multiset(),
        decreases records@.len() - k,
    {
        let e = ValueIndexEntry { value: records[k].value, ts: records[k].ts };
        let mut pos: usize = 0;
        while pos < out.len() && (out[pos].value < e.value || (out[pos].value == e.value
            && out[pos].ts <= e.ts))
            invariant
                pos <= out@.len(),
                forall|i: int| 0 <= i < pos ==> entry_le(out@[i], e),
            decreases out@.len() - pos,
        {
            pos = pos + 1;
        }
        let ghost before = out@;
        out.insert(pos, e);
        proof {
            assert forall|i: int, j: int| 0 <= i < j < out@.len() implies entry_le(out@[i], out@[j]) by {
                if j < pos {
                } else if i > pos {
                    assert(out@[i] == before[i - 1] && out@[j] == before[j - 1]);
                } else if i == pos {
                    assert(out@[j] == before[j - 1]);
                    if j - 1 > pos {
                        assert(entry_le(before[pos as int], before[j - 1]));
                    }
                } else {
                    if j != pos {
                        assert(out@[j] == before[j - 1]);
                        assert(entry_le(before[i], before[pos as int]) || pos == before.len());
                    }
                }
            }
            assert(entries_of(records@.subrange(0, k + 1)) =~= entries_of(records@.subrange(0, k as int)).push(e));
            assert(out@ == before.insert(pos as int, e));
            to_multiset_insert(before, pos as int, e);
            to_multiset_build(entries_of(records@.subrange(0, k as int)), e);
        }
        k = k + 1;
    }
    assert(records@.subrange(0, k as int) =~= records@);
    out
}

/// Whether a value passes a bound probe: below `t`, or at or below it when `inclusive`.
pub open spec fn passes_probe(v: i64, t: i64, inclusive: bool) -> bool {
    if inclusive { v <= t } else { v < t }
}

/// Where a binary search over `[left, right)` for the end of the entries passing the probe
/// stops. On value-sorted entries this is the end of that prefix; on others it is still the
/// same function of the entries.
pub open spec fn probe_end(s: Seq<ValueIndexEntry>, t: i64, inclusive: bool, left: int, right: int) -> int
    decreases right - left,
{
    if left < right {
        let mid = left + (right - left) / 2;
        if passes_probe(s[mid].value, t, inclusive) {
            probe_end(s, t, inclusive, mid + 1, right)
        } else {
            probe_end(s, t, inclusive, left, mid)
        }
    } else {
        left
    }
}

proof fn lemma_probe_end_bounds(s: Seq<ValueIndexEntry>, t: i64, inclusive: bool, left: int, right: int)
    requires
        left <= right,
    ensures
        left <= probe_end(s, t, inclusive, left, right) <= right,
    decreases right - left,
{
    if left < right {
        let mid = left + (right - left) / 2;
        lemma_probe_end_bounds(s, t, inclusive, mid + 1, right);
        lemma_probe_end_bounds(s, t, inclusive, left, mid);
    }
}

/// A search for a weaker probe stops no earlier, whatever the order of the entries.
proof fn lemma_probe_end_monotone(s: Seq<ValueIndexEntry>, t1: i64, i1: bool, t2: i64, i2: bool, left: int, right: int)
    requires
        left <= right,
        forall|v: i64| passes_probe(v, t1, i1) ==> passes_probe(v, t2, i2),
    ensures
        probe_end(s, t1, i1, left, right) <= probe_end(s, t2, i2, left, right),
    decreases right - left,
{
    if left < right {
        let mid = left + (right - left) / 2;
        let v = s[mid].value;
        if passes_probe(v, t1, i1) {
            assert(passes_probe(v, t2, i2));
            lemma_probe_end_monotone(s, t1, i1, t2, i2, mid + 1, right);
        } else if passes_probe(v, t2, i2) {
            lemma_probe_end_bounds(s, t1, i1, left, mid);
            lemma_probe_end_bounds(s, t2, i2, mid + 1, right);
        } else {
            lemma_probe_end_monotone(s, t1, i1, t2, i2, left, mid);
        }
    }
}

/// Position of the first entry whose value is not below `target`.
fn lower_bound(entries: &[ValueIndexEntry], target: i64) -> (r: usize)
    ensures
        r <= entries@.len(),
        r == probe_end(entries@, target, false, 0, entries@.len() as int),
        values_sorted(entries@) ==> (forall|i: int| 0 <= i < r ==> #[trigger] entries@[i].value < target),
        values_sorted(entries@) ==> (forall|i: int| r <= i < entries@.len() ==> #[trigger] entries@[i].value >= target),
{
    let mut left: usize = 0;
    let mut right: usize = entries.len();
    while left < right
        invariant
            left <= right <= entries@.len(),
            probe_end(entries@, target, false, left as int, right as int) == probe_end(entries@, target, false, 0, entries@.len() as int),
            values_sorted(entries@) ==> forall|i: int| 0 <= i < left ==> #[trigger] entries@[i].value < target,
            values_sorted(entries@) ==> forall|i: int| right <= i < entries@.len() ==> #[trigger] entries@[i].value >= target,
        decreases right - left,
    {
        let mid = left + (right - left) / 2;
        if entries[mid].value < target {
            left = mid + 1;
        } else {
            right = mid;
        }
    }
    left
}

/// Position just past the last entry whose value is at or below `target`.
fn upper_bound(entries: &[ValueIndexEntry], target: i64) -> (r: usize)
    ensures
        r <= entries@.len(),
        r == probe_end(entries@, target, true, 0, entries@.len() as int),
        values_sorted(entries@) ==> (forall|i: int| 0 <= i < r ==> #[trigger] entries@[i].value <= target),
        values_sorted(entries@) ==> (forall|i: int| r <= i < entries@.len() ==> #[trigger] entries@[i].value > target),
{
    let mut left: usize = 0;
    let mut right: usize = entries.len();
    while left < right
        invariant
            left <= right <= entries@.len(),
            probe_end(entries@, target, true, left as int, right as int) == probe_end(entries@, target, true, 0, entries@.len() as int),
            values_sorted(entries@) ==> forall|i: int| 0 <= i < left ==> #[trigger] entries@[i].value <= target,
            values_sorted(entries@) ==> forall|i: int| right <= i < entries@.len() ==> #[trigger] entries@[i].value > target,
        decreases right - left,
    {
        let mid = left + (right - left) / 2;
        if entries[mid].value <= target {
            left = mid + 1;
        } else {
            right = mid;
        }
    }
    left
}

/// The index range, as `(start, end)`, that the bound searches for a well-formed
/// single-value predicate give over `s`.
pub open spec fn predicate_range(s: Seq<ValueIndexEntry>, p: ScalarPredicate) -> (int, int) {
    let n = s.len() as int;
    match p.op {
        CompareOp::Gt => (search_end(s, p.value, true), n),
        CompareOp::Gte => (search_end(s, p.value, false), n),
        CompareOp::Lt => (0, search_end(s, p.value, false)),
        CompareOp::Lte => (0, search_end(s, p.value, true)),
        CompareOp::Eq => (search_end(s, p.value, false), search_end(s, p.value, true)),
        CompareOp::Between => (search_end(s, p.value, false), search_end(s, p.value2.unwrap(), true)),
    }
}

/// The contiguous index range of value-sorted entries whose value satisfies `predicate`.
fn matching_slice(entries: &[ValueIndexEntry], predicate: &ScalarPredicate) -> (r: Result<core::ops::Range<usize>>)
    ensures
        predicate.well_formed() ==> (r matches Ok(rg) && rg.start <= rg.end <= entries@.len()),
        predicate.well_formed() ==> (r matches Ok(rg) && (rg.start as int, rg.end as int) == predicate_range(entries@, *predicate)),
        predicate.well_formed() && values_sorted(entries@) ==> (r matches Ok(rg)
            && forall|i: int| 0 <= i < entries@.len() ==> ((rg.start <= i < rg.end) <==> predicate.holds(#[trigger] entries@[i].value))),
        !predicate.well_formed() ==> r matches Err(FastKError::InvalidInput(_)),
{
    let len = entries.len();
    match predicate.op {
        CompareOp::Gt => Ok(upper_bound(entries, predicate.value)..len),
        CompareOp::Gte => Ok(lower_bound(entries, predicate.value)..len),
        CompareOp::Lt => Ok(0..lower_bound(entries, predicate.value)),
        CompareOp::Lte => Ok(0..upper_bound(entries, predicate.value)),
        CompareOp::Eq => {
            let start = lower_bound(entries, predicate.value);
            let end = upper_bound(entries, predicate.value);
            proof {
                lemma_probe_end_monotone(entries@, predicate.value, false, predicate.value, true, 0, entries@.len() as int);
            }
            Ok(start..end)
        },
        CompareOp::Between => {
            let (lower, upper) = predicate.bounds()?;
            let start = lower_bound(entries, lower);
            let end = upper_bound(entries, upper);
            proof {
                lemma_probe_end_monotone(entries@, lower, false, upper, true, 0, entries@.len() as int);
            }
            Ok(start..end)
        },
    }
}

/// The window-and-predicate matches among `entries`, as a set of timestamps.
pub open spec fn vix_match(entries: Seq<ValueIndexEntry>, predicate: ScalarPredicate, start_ts: i64, end_ts: i64, t: i64) -> bool {
    exists|i: int| 0 <= i < entries.len() && #[trigger] entries[i].ts == t && start_ts <= t <= end_ts
        && predicate.holds(entries[i].value)
}

/// `t` is the timestamp of an entry inside the searched range for `predicate` that lies in
/// the window and whose value satisfies the predicate.
pub open spec fn vix_range_match(entries: Seq<ValueIndexEntry>, predicate: ScalarPredicate, start_ts: i64, end_ts: i64, t: i64) -> bool {
    let rg = predicate_range(entries, predicate);
    exists|j: int| rg.0 <= j < rg.1 && #[trigger] entries[j].ts == t && start_ts <= t <= end_ts
        && predicate.holds(entries[j].value)
}

/// Timestamps that match the predicate and window, via the value index: sorted, unique.
///
/// The timestamps are those of the matching entries inside the range the bound searches
/// give; for entries out of value order (a damaged sidecar) that range need not hold every
/// match, and every timestamp returned still matches.
pub fn find_timestamps(entries: &[ValueIndexEntry], predicate: &ScalarPredicate, start_ts: i64, end_ts: i64) -> (r: Result<Vec<i64>>)
    ensures
        (start_ts > end_ts || entries@.len() == 0) ==> (r matches Ok(v) && v@.len() == 0),
        (start_ts <= end_ts && entries@.len() > 0 && !predicate.well_formed()) ==> r matches Err(FastKError::InvalidInput(_)),
        (start_ts <= end_ts && entries@.len() > 0 && predicate.well_formed()) ==> (r matches Ok(v)
            && strictly_increasing(v@)
            && (forall|t: i64| v@.contains(t) <==> vix_range_match(entries@, *predicate, start_ts, end_ts, t))
            && forall|t: i64| v@.contains(t) ==> vix_match(entries@, *predicate, start_ts, end_ts, t)),
        (start_ts <= end_ts && entries@.len() > 0 && predicate.well_formed() && values_sorted(entries@)) ==> (r matches Ok(v)
            && forall|t: i64| v@.contains(t) <==> vix_match(entries@, *predicate, start_ts, end_ts, t)),
{
    if start_ts > end_ts || entries.len() == 0 {
        return Ok(Vec::new());
    }
    let range = matching_slice(entries, predicate)?;
    let mut timestamps: Vec<i64> = Vec::new();
    let mut i = range.start;
    while i < range.end
        invariant
            range.start <= i <= range.end <= entries@.len(),
            predicate.well_formed(),
            values_sorted(entries@) ==> forall|j: int| 0 <= j < entries@.len() ==> ((range.start <= j < range.end) <==> predicate.holds(#[trigger] entries@[j].value)),
            forall|t: i64| timestamps@.contains(t) <==> exists|j: int| range.start <= j < i && #[trigger] entries@[j].ts == t
                && start_ts <= t <= end_ts && predicate.holds(entries@[j].value),
        decreases range.end - i,
    {
        let e = entries[i];
        let ghost before = timestamps@;
        if e.ts >= start_ts && e.ts <= end_ts && predicate.matches(e.value)? {
            timestamps.push(e.ts);
        }
        proof {
            assert forall|t: i64| timestamps@.contains(t) <==> exists|j: int| range.start <= j < i + 1
                && #[trigger] entries@[j].ts == t && start_ts <= t <= end_ts && predicate.holds(entries@[j].value) by {
                if timestamps@.contains(t) {
                    if before.contains(t) {
                        let j = choose|j: int| range.start <= j < i && #[trigger] entries@[j].ts == t && start_ts <= t <= end_ts
                            && predicate.holds(entries@[j].value);
                        assert(range.start <= j < i + 1);
                    } else {
                        let k = choose|k: int| 0 <= k < timestamps@.len() && timestamps@[k] == t;
                        if k < before.len() {
                            assert(before[k] == t);
                        }
                        assert(entries@[i as int].ts == t);
                    }
                }
                if exists|j: int| range.start <= j < i + 1 && #[trigger] entries@[j].ts == t && start_ts <= t <= end_ts
                    && predicate.holds(entries@[j].value) {
                    let j = choose|j: int| range.start <= j < i + 1 && #[trigger] entries@[j].ts == t && start_ts <= t <= end_ts
                        && predicate.holds(entries@[j].value);
                    if j < i {
                        assert(before.contains(t));
                        let k = choose|k: int| 0 <= k < before.len() && before[k] == t;
                        assert(timestamps@[k] == t);
                    } else {
                        assert(predicate.holds(entries@[j].value));
                        assert(timestamps@[timestamps@.len() - 1] == t);
                    }
                }
            }
        }
        i = i + 1;
    }
    let out = sort_dedup_i64(&timestamps);
    proof {
        assert forall|t: i64| out@.contains(t) implies vix_match(entries@, *predicate, start_ts, end_ts, t) by {
            assert(timestamps@.contains(t));
        }
        if values_sorted(entries@) {
        assert forall|t: i64| out@.contains(t) <==> vix_match(entries@, *predicate, start_ts, end_ts, t) by {
            if vix_match(entries@, *predicate, start_ts, end_ts, t) {
                let j = choose|j: int| 0 <= j < entries@.len() && #[trigger] entries@[j].ts == t && start_ts <= t <= end_ts
                    && predicate.holds(entries@[j].value);
                assert(range.start <= j < range.end);
            }
        }
        }
    }
    Ok(out)
}

} // verus!

verus! {

/// Index `i` lies in one of `ranges`.
pub open spec fn covered(ranges: Seq<core::ops::Range<usize>>, i: int) -> bool {
    exists|k: int| 0 <= k < ranges.len() && #[trigger] ranges[k].start <= i < ranges[k].end
}

/// Ranges are non-empty, inside `[0, len)`, and ascending without overlap.
pub open spec fn ranges_well_placed(ranges: Seq<core::ops::Range<usize>>, len: nat) -> bool {
    &&& forall|k: int| 0 <= k < ranges.len() ==> #[trigger] ranges[k].start < ranges[k].end <= len
    &&& forall|a: int, b: int| 0 <= a < b < ranges.len() ==> ranges[a].end <= ranges[b].start
}

/// Which entries a value-index scan must visit for `expr`: the matching ones, or all of them
/// for the negated predicates.
pub open spec fn must_visit(expr: ScalarPredicateExpr, v: i64) -> bool {
    expr is Ne || expr is NotInSet || expr.holds(v)
}

/// Where the search for the end of the entries passing a probe stops over all of `s`.
pub open spec fn search_end(s: Seq<ValueIndexEntry>, t: i64, inclusive: bool) -> int {
    probe_end(s, t, inclusive, 0, s.len() as int)
}

/// The one range, as `(start, end)`, that a scan for a predicate other than `InSet` spans:
/// the searches' results for its bounds (the whole index for the negated predicates).
pub open spec fn expr_range(s: Seq<ValueIndexEntry>, p: ScalarPredicateExpr) -> (int, int) {
    let n = s.len() as int;
    match p {
        ScalarPredicateExpr::Eq(v) => (search_end(s, v, false), search_end(s, v, true)),
        ScalarPredicateExpr::Gt(v) => (search_end(s, v, true), n),
        ScalarPredicateExpr::Gte(v) => (search_end(s, v, false), n),
        ScalarPredicateExpr::Lt(v) => (0, search_end(s, v, false)),
        ScalarPredicateExpr::Lte(v) => (0, search_end(s, v, true)),
        ScalarPredicateExpr::Between { min, max, inclusive } => if inclusive {
            (search_end(s, min, false), search_end(s, max, true))
        } else {
            (search_end(s, min, true), search_end(s, max, false))
        },
        _ => (0, n),
    }
}

/// The ranges an `InSet` scan spans for the values `vals` taken in order: for each value the
/// searches' results for it, kept where non-empty.
pub open spec fn inset_ranges(s: Seq<ValueIndexEntry>, vals: Seq<i64>) -> Seq<(int, int)>
    decreases vals.len(),
{
    if vals.len() == 0 {
        Seq::empty()
    } else {
        let prev = inset_ranges(s, vals.drop_last());
        let v = vals.last();
        let lo = search_end(s, v, false);
        let hi = search_end(s, v, true);
        if lo < hi { prev.push((lo, hi)) } else { prev }
    }
}

/// Ranges as `(start, end)` pairs.
pub open spec fn range_pairs(v: Seq<core::ops::Range<usize>>) -> Seq<(int, int)> {
    v.map_values(|r: core::ops::Range<usize>| (r.start as int, r.end as int))
}

/// `slices` are the ranges a value-index scan for `p` visits over `s`: none for an empty
/// index, else the one non-empty range of `expr_range`, or for `InSet` the non-empty ranges
/// of its distinct values in ascending order.
pub open spec fn vix_plan(s: Seq<ValueIndexEntry>, p: ScalarPredicateExpr, slices: Seq<core::ops::Range<usize>>) -> bool {
    &&& s.len() == 0 ==> slices.len() == 0
    &&& s.len() > 0 && !(p is InSet) ==> range_pairs(slices) == (if expr_range(s, p).0 < expr_range(s, p).1 {
        seq![expr_range(s, p)]
    } else {
        Seq::empty()
    })
    &&& s.len() > 0 ==> (p matches ScalarPredicateExpr::InSet(values) ==> exists|vals: Seq<i64>| strictly_increasing(vals)
        && (forall|x: i64| vals.contains(x) <==> values@.contains(x)) && range_pairs(slices) == #[trigger] inset_ranges(s, vals))
}

/// Index ranges of value-sorted entries to visit for a predicate expression.
///
/// The ranges are what the bound searches give whatever the order of the entries: for
/// entries out of value order (a damaged sidecar) they are the same searches' results, which
/// then need not cover the matching entries.
pub fn matching_slices_for_expr(entries: &[ValueIndexEntry], predicate: &ScalarPredicateExpr) -> (r: Result<Vec<core::ops::Range<usize>>>)
    ensures
        !predicate.well_formed() ==> r matches Err(FastKError::InvalidInput(_)),
        predicate.well_formed() ==> (r matches Ok(v) && forall|k: int| 0 <= k < v@.len() ==> #[trigger] v@[k].start < v@[k].end <= entries@.len()),
        predicate.well_formed() && values_sorted(entries@) ==> (r matches Ok(v) && ranges_well_placed(v@, entries@.len())
            && forall|i: int| 0 <= i < entries@.len() ==> (covered(v@, i) <==> must_visit(*predicate, #[trigger] entries@[i].value))),
        predicate.well_formed() && entries@.len() == 0 ==> (r matches Ok(v) && v@.len() == 0),
        predicate.well_formed() && (predicate is Ne || predicate is NotInSet) && entries@.len() > 0 ==> (r matches Ok(v)
            && v@.len() == 1 && v@[0].start == 0 && v@[0].end == entries@.len()),
        predicate.well_formed() && !(predicate is InSet) && entries@.len() > 0 ==> (r matches Ok(v) && range_pairs(v@) == (if expr_range(
            entries@,
            *predicate,
        ).0 < expr_range(entries@, *predicate).1 {
            seq![expr_range(entries@, *predicate)]
        } else {
            Seq::empty()
        })),
        predicate.well_formed() && entries@.len() > 0 ==> (predicate matches ScalarPredicateExpr::InSet(values) ==> (r matches Ok(v)
            && exists|vals: Seq<i64>| strictly_increasing(vals) && (forall|x: i64| vals.contains(x) <==> values@.contains(x))
                && range_pairs(v@) == #[trigger] inset_ranges(entries@, vals))),
        predicate.well_formed() ==> (r matches Ok(v) && vix_plan(entries@, *predicate, v@)),
{
    predicate.validate()?;
    let len = entries.len();
    let mut out: Vec<core::ops::Range<usize>> = Vec::new();
    if len == 0 {
        return Ok(out);
    }
    let (start, end) = match predicate {
        ScalarPredicateExpr::InSet(values) => {
            let vals = sort_dedup_i64(values);
            proof {
                assert(vals@.subrange(0, 0) =~= Seq::<i64>::empty());
                assert(range_pairs(out@) =~= Seq::<(int, int)>::empty());
            }
            let mut k: usize = 0;
            while k < vals.len()
                invariant
                    k <= vals@.len(),
                    len == entries@.len(),
                    strictly_increasing(vals@),
                    forall|x: i64| vals@.contains(x) <==> values@.contains(x),
                    forall|q: int| 0 <= q < out@.len() ==> #[trigger] out@[q].start < out@[q].end <= len,
                    values_sorted(entries@) ==> ranges_well_placed(out@, len as nat),
                    values_sorted(entries@) ==> forall|i: int| 0 <= i < len ==> (covered(out@, i) <==> exists|j: int| 0 <= j < k && #[trigger] vals@[j] == entries@[i].value),
                    values_sorted(entries@) ==> (out@.len() > 0 ==> (k > 0 && forall|i: int| 0 <= i < out@[out@.len() - 1].end ==> #[trigger] entries@[i].value <= vals@[k - 1])),
                    range_pairs(out@) == inset_ranges(entries@, vals@.subrange(0, k as int)),
                decreases vals@.len() - k,
            {
                let v = vals[k];
                let s = lower_bound(entries, v);
                let e = upper_bound(entries, v);
                let ghost before = out@;
                if s < e {
                    proof {
                        if values_sorted(entries@) && before.len() > 0 {
                            assert(before[before.len() - 1].end <= s) by {
                                if before[before.len() - 1].end > s {
                                    assert(entries@[s as int].value <= vals@[k - 1]);
                                    assert(vals@[k - 1] < vals@[k as int]);
                                }
                            }
                        }
                    }
                    out.push(s..e);
                }
                proof {
                    if values_sorted(entries@) {
                    assert(forall|i: int| 0 <= i < len ==> (covered(before, i) <==> exists|j: int| 0 <= j < k && #[trigger] vals@[j] == entries@[i].value));
                    assert forall|i: int| 0 <= i < len implies (covered(out@, i) <==> exists|j: int| 0 <= j < k + 1 && #[trigger] vals@[j] == entries@[i].value) by {
                        if covered(out@, i) {
                            let q = choose|q: int| 0 <= q < out@.len() && #[trigger] out@[q].start <= i < out@[q].end;
                            if q < before.len() {
                                assert(covered(before, i));
                            } else {
                                assert(vals@[k as int] == entries@[i].value);
                            }
                        }
                        if exists|j: int| 0 <= j < k + 1 && #[trigger] vals@[j] == entries@[i].value {
                            let j = choose|j: int| 0 <= j < k + 1 && #[trigger] vals@[j] == entries@[i].value;
                            if j < k {
                                assert(covered(before, i));
                                let q = choose|q: int| 0 <= q < before.len() && #[trigger] before[q].start <= i < before[q].end;
                                assert(out@[q] == before[q]);
                            } else {
                                assert(out@[out@.len() - 1].start == s && out@[out@.len() - 1].end == e);
                            }
                        }
                    }
                    }
                }
                proof {
                    let pre = vals@.subrange(0, k + 1);
                    assert(pre.drop_last() =~= vals@.subrange(0, k as int));
                    assert(pre.last() == v);
                    if s < e {
                        assert(range_pairs(out@) =~= range_pairs(before).push((s as int, e as int)));
                    } else {
                        assert(out@ == before);
                    }
                }
                k = k + 1;
            }
            proof {
                assert(vals@.subrange(0, vals@.len() as int) =~= vals@);
                if values_sorted(entries@) {
                    assert forall|i: int| 0 <= i < len implies (covered(out@, i) <==> must_visit(*predicate, #[trigger] entries@[i].value)) by {
                        if values@.contains(entries@[i].value) {
                            assert(vals@.contains(entries@[i].value));
                        }
                    }
                }
            }
            return Ok(out);
        },
        ScalarPredicateExpr::Eq(value) => (lower_bound(entries, *value), upper_bound(entries, *value)),
        ScalarPredicateExpr::Gt(value) => (upper_bound(entries, *value), len),
        ScalarPredicateExpr::Gte(value) => (lower_bound(entries, *value), len),
        ScalarPredicateExpr::Lt(value) => (0, lower_bound(entries, *value)),
        ScalarPredicateExpr::Lte(value) => (0, upper_bound(entries, *value)),
        ScalarPredicateExpr::Between { min, max, inclusive } => {
            if *inclusive {
                (lower_bound(entries, *min), upper_bound(entries, *max))
            } else {
                (upper_bound(entries, *min), lower_bound(entries, *max))
            }
        },
        ScalarPredicateExpr::Ne(_) | ScalarPredicateExpr::NotInSet(_) => (0, len),
    };
    proof {
        if values_sorted(entries@) {
            assert forall|i: int| 0 <= i < len implies ((start <= i < end) <==> must_visit(*predicate, #[trigger] entries@[i].value)) by {
                match predicate {
                    ScalarPredicateExpr::Between { min, max, inclusive } => {
                        if *inclusive {
                        } else {
                        }
                    },
                    _ => {},
                }
            }
        }
    }
    if start < end {
        out.push(start..end);
        proof {
            assert(range_pairs(out@) =~= seq![(start as int, end as int)]);
            assert forall|i: int| 0 <= i < len implies (covered(out@, i) <==> (start <= i < end)) by {
                if start <= i < end {
                    assert(out@[0].start <= i < out@[0].end);
                }
            }
        }
    } else {
        proof {
            assert(range_pairs(out@) =~= Seq::<(int, int)>::empty());
            if values_sorted(entries@) {
                assert forall|i: int| 0 <= i < len implies !must_visit(*predicate, #[trigger] entries@[i].value) by {
                    assert(!(start <= i < end));
                }
            }
        }
    }
    Ok(out)
}

} // verus!

verus! {

/// Concatenated encodings of `entries`: the contents of a `.vix` file.
pub open spec fn encode_entries_spec(entries: Seq<ValueIndexEntry>) -> Seq<u8>
    decreases entries.len(),
{
    if entries.len() == 0 {
        Seq::empty()
    } else {
        encode_entries_spec(entries.drop_last()) + entries.last().encoding()
    }
}

/// The bytes of a `.vix` file holding `entries`, back to back.
pub fn encode_entries(entries: &[ValueIndexEntry]) -> (r: Vec<u8>)
    ensures
        r@ == encode_entries_spec(entries@),
{
    let mut bytes: Vec<u8> = Vec::new();
    let mut k: usize = 0;
    while k < entries.len()
        invariant
            k <= entries@.len(),
            bytes@ == encode_entries_spec(entries@.subrange(0, k as int)),
        decreases entries@.len() - k,
    {
        let raw = entries[k].to_le_bytes();
        crate::codec::push_bytes(&mut bytes, raw.as_slice());
        proof {
            let s = entries@.subrange(0, k + 1);
            assert(s.drop_last() =~= entries@.subrange(0, k as int));
        }
        k = k + 1;
    }
    assert(entries@.subrange(0, k as int) =~= entries@);
    bytes
}

/// Parses the bytes of a `.vix` file: whole 16-byte entries, else `InvalidData`.
pub fn decode_entries(bytes: &[u8]) -> (r: Result<Vec<ValueIndexEntry>>)
    ensures
        bytes@.len() % 16 != 0 ==> r matches Err(FastKError::InvalidData(_)),
        bytes@.len() % 16 == 0 ==> (r matches Ok(v) && v@.len() == bytes@.len() / 16
            && forall|k: int| 0 <= k < v@.len() ==> #[trigger] v@[k]
                == ValueIndexEntry::decoding(bytes@.subrange(16 * k, 16 * k + 16))),
{
    if bytes.len() % 16 != 0 {
        return Err(invalid_data("invalid vix byte length"));
    }
    let total = bytes.len();
    let count = total / 16;
    let mut out: Vec<ValueIndexEntry> = Vec::new();
    let mut k: usize = 0;
    while k < count
        invariant
            count == bytes@.len() / 16,
            total == bytes@.len(),
            bytes@.len() % 16 == 0,
            k <= count,
            out@.len() == k,
            forall|j: int| 0 <= j < k ==> #[trigger] out@[j]
                == ValueIndexEntry::decoding(bytes@.subrange(16 * j, 16 * j + 16)),
        decreases count - k,
    {
        assert(16 * k + 16 <= bytes@.len()) by (nonlinear_arith)
            requires
                k < count,
                count == bytes@.len() / 16,
        ;
        let off = 16 * k;
        let raw = to_array::<16>(&bytes[off..off + 16]);
        let e = ValueIndexEntry::from_le_bytes(raw);
        out.push(e);
        k = k + 1;
    }
    Ok(out)
}

/// A `.vix` file decodes back to the entries it was written from: 16 bytes per entry,
/// entry `k` at offset `16 * k`.
pub proof fn vix_file_roundtrip(entries: Seq<ValueIndexEntry>)
    ensures
        encode_entries_spec(entries).len() == 16 * entries.len(),
        forall|k: int| 0 <= k < entries.len() ==> #[trigger] ValueIndexEntry::decoding(
            encode_entries_spec(entries).subrange(16 * k, 16 * k + 16),
        ) == entries[k],
    decreases entries.len(),
{
    if entries.len() > 0 {
        let init = entries.drop_last();
        vix_file_roundtrip(init);
        value_index_entry_roundtrip(entries.last());
        let b = encode_entries_spec(entries);
        let a = encode_entries_spec(init);
        assert(b == a + entries.last().encoding());
        assert forall|k: int| 0 <= k < entries.len() implies #[trigger] ValueIndexEntry::decoding(
            b.subrange(16 * k, 16 * k + 16),
        ) == entries[k] by {
            if k < entries.len() - 1 {
                assert(16 * k + 16 <= a.len()) by (nonlinear_arith)
                    requires
                        k < init.len(),
                        a.len() == 16 * init.len(),
                ;
                assert(b.subrange(16 * k, 16 * k + 16) =~= a.subrange(16 * k, 16 * k + 16));
                assert(init[k] == entries[k]);
            } else {
                assert(16 * k == a.len()) by (nonlinear_arith)
                    requires
                        k == init.len(),
                        a.len() == 16 * init.len(),
                ;
                assert(b.subrange(16 * k, 16 * k + 16) =~= entries.last().encoding());
            }
        }
    }
}

} // verus!
