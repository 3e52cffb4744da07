//! Range, point and tail reads of a chunk: over its decoded layout (header, sparse index,
//! records) and over the whole chunk image.
use vstd::prelude::*;
use crate::chunk_reader::{
    KlineReadPath, decode_chunk_records, records_in_image, validate_header, first_index_of, is_short_range, last_anchor_at_or_before, lookup_window,
    lookup_window_spec, lower_bound_in_records, short_range, ts_nondecreasing, ts_probe, upper_bound_in_records, window_for,
};
use crate::error::{FastKError, Result, invalid_data};
use crate::header::{ChunkHeader, CHUNK_FLAG_HAS_SPARSE_INDEX, CHUNK_VERSION_V2};
use crate::scan::header_of;
use crate::records::FixedRecord;
use crate::sparse_index::{SparseIndexEntry, anchors_sorted, decode_entries};

verus! {

/// Timestamps strictly increase along `s`.
pub open spec fn ts_strict<R: FixedRecord>(s: Seq<R>) -> bool {
    forall|i: int, j: int| 0 <= i < j < s.len() ==> s[i].spec_ts() < s[j].spec_ts()
}

/// The test a record passes to be read for the window `[start_ts, end_ts]`.
pub open spec fn in_window_pred<R: FixedRecord>(start_ts: i64, end_ts: i64) -> spec_fn(R) -> bool {
    |x: R| start_ts <= x.spec_ts() && x.spec_ts() <= end_ts
}

/// The records of `s` whose timestamps lie in `[start_ts, end_ts]`, in their order.
pub open spec fn in_window<R: FixedRecord>(s: Seq<R>, start_ts: i64, end_ts: i64) -> Seq<R> {
    s.filter(in_window_pred::<R>(start_ts, end_ts))
}

/// `lo` splits `s` into records before `t` and records at or after it.
pub open spec fn is_lower_bound<R: FixedRecord>(s: Seq<R>, t: i64, lo: int) -> bool {
    &&& 0 <= lo <= s.len()
    &&& forall|i: int| 0 <= i < lo ==> #[trigger] s[i].spec_ts() < t
    &&& forall|i: int| lo <= i < s.len() ==> #[trigger] s[i].spec_ts() >= t
}

/// `hi` splits `s` into records at or before `t` and records after it.
pub open spec fn is_upper_bound<R: FixedRecord>(s: Seq<R>, t: i64, hi: int) -> bool {
    &&& 0 <= hi <= s.len()
    &&& forall|i: int| 0 <= i < hi ==> #[trigger] s[i].spec_ts() <= t
    &&& forall|i: int| hi <= i < s.len() ==> #[trigger] s[i].spec_ts() > t
}

/// Every anchor points at a record holding the anchor's timestamp, and anchors follow the
/// records' order.
pub open spec fn sparse_consistent<R: FixedRecord>(entries: Seq<SparseIndexEntry>, recs: Seq<R>) -> bool {
    &&& forall|k: int| 0 <= k < entries.len() ==> (#[trigger] entries[k]).record_idx < recs.len()
        && recs[entries[k].record_idx as int].spec_ts() == entries[k].ts
    &&& forall|k: int, l: int| 0 <= k < l < entries.len() ==> (#[trigger] entries[k]).record_idx
        < (#[trigger] entries[l]).record_idx
}

/// Header, sparse index and records agree: the header counts the records and spans their
/// timestamps, the records are strictly ordered, the anchors point into them.
#[verifier::opaque]
pub open spec fn layout_consistent<R: FixedRecord>(h: ChunkHeader, entries: Seq<SparseIndexEntry>, recs: Seq<R>) -> bool {
    &&& recs.len() == h.count
    &&& ts_strict(recs)
    &&& recs.len() > 0 ==> h.start_ts == recs[0].spec_ts() && h.end_ts == recs[recs.len() - 1].spec_ts()
    &&& sparse_consistent(entries, recs)
}

/// The records, and their bytes, can be addressed in memory.
pub open spec fn fits_in_memory<R: FixedRecord>(recs: Seq<R>) -> bool {
    recs.len() <= usize::MAX && recs.len() * R::spec_byte_size() <= usize::MAX
}

/// The path a range read of `[start_ts, end_ts]` takes through a chunk with header `h`.
pub open spec fn read_path(h: ChunkHeader, start_ts: i64, end_ts: i64) -> KlineReadPath {
    if start_ts > end_ts || end_ts < h.start_ts || start_ts > h.end_ts || h.count == 0 {
        KlineReadPath::ShortRange
    } else if start_ts <= h.start_ts && end_ts >= h.end_ts {
        KlineReadPath::FullScan
    } else if short_range(h, start_ts, end_ts) {
        KlineReadPath::ShortRange
    } else {
        KlineReadPath::FullScan
    }
}

/// The record of `s` with timestamp `t`, if there is one.
pub open spec fn record_with_ts<R: FixedRecord>(s: Seq<R>, t: i64) -> Option<R> {
    if exists|i: int| 0 <= i < s.len() && #[trigger] s[i].spec_ts() == t {
        Some(s[choose|i: int| 0 <= i < s.len() && #[trigger] s[i].spec_ts() == t])
    } else {
        None
    }
}

proof fn lemma_strict_nondecreasing<R: FixedRecord>(s: Seq<R>, a: int, b: int)
    requires
        ts_strict(s),
        0 <= a <= b <= s.len(),
    ensures
        ts_nondecreasing(s.subrange(a, b)),
{
    let t = s.subrange(a, b);
    assert forall|i: int, j: int| 0 <= i <= j < t.len() implies t[i].spec_ts() <= t[j].spec_ts() by {
        assert(t[i] == s[a + i] && t[j] == s[a + j]);
    }
}

/// In a timestamp-ordered sequence the records of a window are the slice between its lower
/// and upper bounds.
proof fn lemma_window_is_slice<R: FixedRecord>(s: Seq<R>, start_ts: i64, end_ts: i64, lo: int, hi: int)
    requires
        ts_nondecreasing(s),
        is_lower_bound(s, start_ts, lo),
        is_upper_bound(s, end_ts, hi),
    ensures
        in_window(s, start_ts, end_ts) == (if lo <= hi { s.subrange(lo, hi) } else { Seq::<R>::empty() }),
    decreases s.len(),
{
    reveal(Seq::filter);
    let p = in_window_pred::<R>(start_ts, end_ts);
    if s.len() == 0 {
        assert(in_window(s, start_ts, end_ts) =~= Seq::<R>::empty());
        if lo <= hi {
            assert(s.subrange(lo, hi) =~= Seq::<R>::empty());
        }
    } else {
        let n = s.len() - 1;
        let init = s.drop_last();
        let last = s.last();
        assert(last == s[n]);
        assert(ts_nondecreasing(init)) by {
            assert forall|i: int, j: int| 0 <= i <= j < init.len() implies init[i].spec_ts() <= init[j].spec_ts() by {
                assert(init[i] == s[i] && init[j] == s[j]);
            }
        }
        let lo2 = if lo <= n { lo } else { n };
        let hi2 = if hi <= n { hi } else { n };
        assert(is_lower_bound(init, start_ts, lo2)) by {
            assert forall|i: int| 0 <= i < lo2 implies #[trigger] init[i].spec_ts() < start_ts by {
                assert(init[i] == s[i]);
            }
            assert forall|i: int| lo2 <= i < init.len() implies #[trigger] init[i].spec_ts() >= start_ts by {
                assert(init[i] == s[i]);
            }
        }
        assert(is_upper_bound(init, end_ts, hi2)) by {
            assert forall|i: int| 0 <= i < hi2 implies #[trigger] init[i].spec_ts() <= end_ts by {
                assert(init[i] == s[i]);
            }
            assert forall|i: int| hi2 <= i < init.len() implies #[trigger] init[i].spec_ts() > end_ts by {
                assert(init[i] == s[i]);
            }
        }
        lemma_window_is_slice(init, start_ts, end_ts, lo2, hi2);
        assert(in_window(s, start_ts, end_ts) == if p(last) {
            in_window(init, start_ts, end_ts).push(last)
        } else {
            in_window(init, start_ts, end_ts)
        });
        if p(last) {
            assert(s[n].spec_ts() >= start_ts && s[n].spec_ts() <= end_ts);
            assert(lo <= n);
            assert(hi == s.len());
            assert(lo2 <= hi2);
            assert(s.subrange(lo, hi) =~= init.subrange(lo2, hi2).push(last));
        } else if last.spec_ts() < start_ts {
            assert(lo == s.len());
            if lo <= hi {
                assert(hi == s.len());
                assert(s.subrange(lo, hi) =~= Seq::<R>::empty());
                assert(lo2 <= hi2);
                assert(init.subrange(lo2, hi2) =~= Seq::<R>::empty());
            }
            if lo2 <= hi2 {
                assert(init.subrange(lo2, hi2) =~= Seq::<R>::empty());
            }
        } else {
            assert(last.spec_ts() > end_ts);
            assert(hi <= n);
            assert(hi2 == hi);
            if lo <= hi {
                assert(lo2 == lo);
                assert(s.subrange(lo, hi) =~= init.subrange(lo2, hi2));
            } else if lo2 <= hi2 {
                assert(init.subrange(lo2, hi2) =~= Seq::<R>::empty());
            }
        }
    }
}

/// A span `[start_index, start_index + count)` that a chunk of `total` records of `size`
/// bytes can serve.
pub open spec fn span_fits(total: u64, start_index: u64, count: u64, size: nat) -> bool {
    count == 0 || (start_index + count <= total && count <= usize::MAX && count * size <= usize::MAX)
}

/// What a span read returns: nothing for an empty span, else the records in it.
pub open spec fn span_of<R>(recs: Seq<R>, start_index: u64, count: u64) -> Seq<R> {
    if count == 0 {
        Seq::empty()
    } else {
        recs.subrange(start_index as int, start_index + count)
    }
}

/// Checks that a span stays within the chunk's `count` records and that its byte length
/// fits in memory.
fn check_span(header: &ChunkHeader, start_index: u64, count: u64, size: usize) -> (r: Result<()>)
    requires
        count > 0,
    ensures
        r is Ok <==> span_fits(header.count, start_index, count, size as nat),
        r is Err ==> r matches Err(FastKError::InvalidData(_)),
{
    let end_index = match start_index.checked_add(count) {
        Some(e) => e,
        None => {
            return Err(invalid_data("requested record span overflows u64"));
        },
    };
    if end_index > header.count {
        return Err(invalid_data("requested record span exceeds chunk row count"));
    }
    if count > (usize::MAX as u64) {
        return Err(invalid_data("record span byte length overflow"));
    }
    match (count as usize).checked_mul(size) {
        Some(_) => Ok(()),
        None => Err(invalid_data("record span byte length overflow")),
    }
}

/// Records `[start_index, start_index + count)` of a chunk whose records are `records`.
pub fn read_record_span<R: FixedRecord>(header: &ChunkHeader, records: &[R], start_index: u64, count: u64) -> (r: Result<Vec<R>>)
    requires
        records@.len() == header.count,
    ensures
        r is Ok <==> span_fits(header.count, start_index, count, R::spec_byte_size()),
        r matches Ok(v) ==> v@ == span_of(records@, start_index, count),
        r is Err ==> r matches Err(FastKError::InvalidData(_)),
{
    if count == 0 {
        return Ok(Vec::new());
    }
    match check_span(header, start_index, count, R::byte_size()) {
        Ok(()) => {},
        Err(e) => {
            return Err(e);
        },
    }
    let len = records.len();
    assert(start_index + count <= len);
    let a = start_index as usize;
    let b = (start_index + count) as usize;
    let mut v: Vec<R> = Vec::new();
    let mut k: usize = a;
    while k < b
        invariant
            a <= k <= b <= records@.len(),
            v@ == records@.subrange(a as int, k as int),
        decreases b - k,
    {
        v.push(records[k]);
        proof {
            assert(records@.subrange(a as int, k + 1) =~= records@.subrange(a as int, k as int).push(records@[k as int]));
        }
        k = k + 1;
    }
    Ok(v)
}

/// Appends records `[start_index, start_index + count)` of the chunk to `out`.
pub fn append_record_span<R: FixedRecord>(header: &ChunkHeader, records: &[R], start_index: u64, count: u64, out: &mut Vec<R>) -> (r: Result<()>)
    requires
        records@.len() == header.count,
    ensures
        r is Ok <==> span_fits(header.count, start_index, count, R::spec_byte_size()),
        r is Ok ==> final(out)@ == old(out)@ + span_of(records@, start_index, count),
        r is Err ==> (r matches Err(FastKError::InvalidData(_))) && final(out)@ == old(out)@,
{
    if count == 0 {
        assert(old(out)@ + span_of(records@, start_index, count) =~= old(out)@);
        return Ok(());
    }
    match check_span(header, start_index, count, R::byte_size()) {
        Ok(()) => {},
        Err(e) => {
            return Err(e);
        },
    }
    let len = records.len();
    assert(start_index + count <= len);
    let a = start_index as usize;
    let b = (start_index + count) as usize;
    let ghost before = out@;
    let mut k: usize = a;
    while k < b
        invariant
            a <= k <= b <= records@.len(),
            out@ == before + records@.subrange(a as int, k as int),
        decreases b - k,
    {
        out.push(records[k]);
        proof {
            assert(records@.subrange(a as int, k + 1) =~= records@.subrange(a as int, k as int).push(records@[k as int]));
        }
        k = k + 1;
    }
    Ok(())
}

proof fn lemma_consistent_anchors_sorted<R: FixedRecord>(h: ChunkHeader, entries: Seq<SparseIndexEntry>, recs: Seq<R>)
    requires
        layout_consistent(h, entries, recs),
    ensures
        anchors_sorted(entries),
        ts_strict(recs),
        sparse_consistent(entries, recs),
        recs.len() == h.count,
        ts_nondecreasing(recs),
        recs.len() > 0 ==> h.start_ts == recs[0].spec_ts() && h.end_ts == recs[recs.len() - 1].spec_ts(),
        forall|k: int, l: int| 0 <= k < l < entries.len() ==> entries[k] != entries[l],
{
    reveal(layout_consistent);
    assert forall|i: int, j: int| 0 <= i <= j < recs.len() implies recs[i].spec_ts() <= recs[j].spec_ts() by {
        if i < j {
            assert(recs[i].spec_ts() < recs[j].spec_ts());
        }
    }
    assert forall|i: int, j: int| 0 <= i <= j < entries.len() implies entries[i].ts <= entries[j].ts by {
        if i < j {
            assert(entries[i].record_idx < entries[j].record_idx);
            assert(recs[entries[i].record_idx as int].spec_ts() < recs[entries[j].record_idx as int].spec_ts());
        }
    }
    assert forall|k: int, l: int| 0 <= k < l < entries.len() implies entries[k] != entries[l] by {
        assert(entries[k].record_idx < entries[l].record_idx);
    }
}

proof fn lemma_last_anchor_exists(entries: Seq<SparseIndexEntry>, t: i64)
    requires
        entries.len() > 0,
        entries[0].ts <= t,
    ensures
        exists|i: int| 0 <= i < entries.len() && #[trigger] entries[i].ts <= t && (i + 1 == entries.len() || entries[i + 1].ts > t),
    decreases entries.len(),
{
    let n = entries.len() - 1;
    if entries[n].ts <= t {
        assert(entries[n].ts <= t && n + 1 == entries.len());
    } else {
        let init = entries.drop_last();
        lemma_last_anchor_exists(init, t);
        let i = choose|i: int| 0 <= i < init.len() && #[trigger] init[i].ts <= t && (i + 1 == init.len() || init[i + 1].ts > t);
        assert(entries[i] == init[i]);
        if i + 1 < init.len() {
            assert(entries[i + 1] == init[i + 1]);
        }
        assert(entries[i].ts <= t && (i + 1 == entries.len() || entries[i + 1].ts > t));
    }
}

/// In a consistent layout the sparse window for `t` holds every record that a search for
/// `t` could stop at: records before it are earlier than `t`, records after it later.
proof fn lemma_window_brackets<R: FixedRecord>(h: ChunkHeader, entries: Seq<SparseIndexEntry>, recs: Seq<R>, t: i64)
    requires
        layout_consistent(h, entries, recs),
        entries.len() > 0,
    ensures
        ({
            let w = lookup_window_spec(h.count, entries, t);
            &&& w.0 <= w.1 <= recs.len()
            &&& forall|i: int| 0 <= i < w.0 ==> #[trigger] recs[i].spec_ts() < t
            &&& forall|i: int| w.1 <= i < recs.len() ==> #[trigger] recs[i].spec_ts() > t
        }),
{
    lemma_consistent_anchors_sorted(h, entries, recs);
    let w = lookup_window_spec(h.count, entries, t);
    if h.count == 0 {
    } else if entries[0].ts > t {
        if entries.len() > 1 {
            let b = entries[1].record_idx as int;
            assert(recs[b].spec_ts() == entries[1].ts);
            assert forall|i: int| b <= i < recs.len() implies #[trigger] recs[i].spec_ts() > t by {
                if i > b {
                    assert(recs[b].spec_ts() < recs[i].spec_ts());
                }
                assert(entries[0].ts <= entries[1].ts);
            }
        }
    } else {
        lemma_last_anchor_exists(entries, t);
        let a = last_anchor_at_or_before(entries, t);
        assert(exists|i: int| 0 <= i < entries.len() && #[trigger] entries[i] == entries[a]
            && forall|j: int| 0 <= j < i ==> entries[j] != entries[a]) by {
            assert(entries[a] == entries[a]);
            assert forall|j: int| 0 <= j < a implies entries[j] != entries[a] by {}
        }
        let p = first_index_of(entries, entries[a]);
        assert(p == a) by {
            if p < a {
                assert(entries[p] != entries[a]);
            } else if p > a {
                assert(entries[a] != entries[p]);
            }
        }
        let lo = entries[a].record_idx as int;
        assert(recs[lo].spec_ts() == entries[a].ts);
        assert forall|i: int| 0 <= i < lo implies #[trigger] recs[i].spec_ts() < t by {
            assert(recs[i].spec_ts() < recs[lo].spec_ts());
        }
        if a + 1 < entries.len() {
            let b = entries[a + 1].record_idx as int;
            assert(recs[b].spec_ts() == entries[a + 1].ts);
            assert(lo < b);
            assert forall|i: int| b <= i < recs.len() implies #[trigger] recs[i].spec_ts() > t by {
                if i > b {
                    assert(recs[b].spec_ts() < recs[i].spec_ts());
                }
            }
        }
    }
}

/// A bound found in the sparse window is the bound over the whole chunk.
#[verifier::spinoff_prover]
proof fn lemma_sparse_bound<R: FixedRecord>(
    h: ChunkHeader,
    entries: Seq<SparseIndexEntry>,
    recs: Seq<R>,
    t: i64,
    a: u64,
    b: u64,
    span: Seq<R>,
    local: int,
    upper: bool,
)
    requires
        layout_consistent(h, entries, recs),
        entries.len() > 0,
        (a, b) == lookup_window_spec(h.count, entries, t),
        span == span_of(recs, a, (b - a) as u64),
        0 <= local <= span.len(),
        ts_nondecreasing(span) ==> forall|i: int| 0 <= i < local ==> (if upper {
            #[trigger] span[i].spec_ts() <= t
        } else {
            span[i].spec_ts() < t
        }),
        ts_nondecreasing(span) ==> forall|i: int| local <= i < span.len() ==> (if upper {
            #[trigger] span[i].spec_ts() > t
        } else {
            span[i].spec_ts() >= t
        }),
    ensures
        upper ==> is_upper_bound(recs, t, a + local),
        !upper ==> is_lower_bound(recs, t, a + local),
        a <= b <= recs.len(),
        forall|i: int| b <= i < recs.len() ==> #[trigger] recs[i].spec_ts() > t,
{
    lemma_window_brackets(h, entries, recs, t);
    lemma_consistent_anchors_sorted(h, entries, recs);
    if b > a {
        lemma_strict_nondecreasing(recs, a as int, b as int);
    } else {
        assert(span.len() == 0);
    }
    let lo = a + local;
    assert forall|i: int| 0 <= i < lo implies (if upper { #[trigger] recs[i].spec_ts() <= t } else { recs[i].spec_ts() < t }) by {
        if i >= a {
            assert(span[i - a] == recs[i]);
        }
    }
    assert forall|i: int| lo <= i < recs.len() implies (if upper { #[trigger] recs[i].spec_ts() > t } else { recs[i].spec_ts() >= t }) by {
        if i < b {
            assert(span[i - a] == recs[i]);
        }
    }
}

/// What a bound search for `t` gives on any header, sparse index and records (the lower
/// bound, or with `inclusive` the upper bound): the probe over the whole chunk without
/// anchors, else the sparse window's start plus the probe over that window; `None` where the
/// window is inverted or is a span the chunk cannot serve (an error).
pub open spec fn bound_lookup<R: FixedRecord>(h: ChunkHeader, entries: Seq<SparseIndexEntry>, recs: Seq<R>, t: i64, inclusive: bool) -> Option<u64> {
    if entries.len() == 0 {
        Some(ts_probe(recs, t, inclusive, 0, recs.len() as int) as u64)
    } else {
        let w = window_for(h.count, entries, t);
        if w.1 < w.0 || !span_fits(h.count, w.0, (w.1 - w.0) as u64, R::spec_byte_size()) {
            None
        } else {
            let span = span_of(recs, w.0, (w.1 - w.0) as u64);
            Some((w.0 + ts_probe(span, t, inclusive, 0, span.len() as int)) as u64)
        }
    }
}

/// First record position whose timestamp is not below `target_ts`: a binary search over the
/// whole chunk, or over the sparse window for `target_ts` when the chunk has anchors.
pub fn lower_bound_via_sparse<R: FixedRecord>(header: &ChunkHeader, sparse: &[SparseIndexEntry], records: &[R], target_ts: i64) -> (r: Result<u64>)
    requires
        records@.len() == header.count,
    ensures
        r is Err ==> r matches Err(FastKError::InvalidData(_)),
        r is Ok <==> bound_lookup(*header, sparse@, records@, target_ts, false) is Some,
        bound_lookup(*header, sparse@, records@, target_ts, false) matches Some(x) ==> r == Ok::<u64, FastKError>(x),
        layout_consistent(*header, sparse@, records@) && fits_in_memory(records@)
            ==> (r matches Ok(lo) && is_lower_bound(records@, target_ts, lo as int)),
{
    if sparse.len() == 0 {
        let lo = lower_bound_in_records(records, target_ts);
        proof {
            if layout_consistent(*header, sparse@, records@) {
                lemma_consistent_anchors_sorted(*header, sparse@, records@);
            }
        }
        return Ok(lo as u64);
    }
    proof {
        if layout_consistent(*header, sparse@, records@) {
            lemma_consistent_anchors_sorted(*header, sparse@, records@);
            lemma_window_brackets(*header, sparse@, records@, target_ts);
        }
    }
    let (a, b) = lookup_window(header, sparse, target_ts)?;
    if b < a {
        return Err(invalid_data("requested record span overflows u64"));
    }
    proof {
        if layout_consistent(*header, sparse@, records@) && fits_in_memory(records@) {
            let c: int = (b - a) as int;
            let n: int = records@.len() as int;
            let z: int = R::spec_byte_size() as int;
            assert(c * z <= n * z) by (nonlinear_arith)
                requires
                    0 <= c <= n,
                    z >= 0,
            ;
        }
    }
    let span = read_record_span(header, records, a, b - a)?;
    let local = lower_bound_in_records(span.as_slice(), target_ts);
    proof {
        if layout_consistent(*header, sparse@, records@) && fits_in_memory(records@) {
            lemma_consistent_anchors_sorted(*header, sparse@, records@);
            lemma_sparse_bound(*header, sparse@, records@, target_ts, a, b, span@, local as int, false);
        }
    }
    Ok(a + local as u64)
}

/// Position just past the last record whose timestamp is at or below `target_ts`, narrowed
/// like `lower_bound_via_sparse`.
pub fn upper_bound_via_sparse<R: FixedRecord>(header: &ChunkHeader, sparse: &[SparseIndexEntry], records: &[R], target_ts: i64) -> (r: Result<u64>)
    requires
        records@.len() == header.count,
    ensures
        r is Err ==> r matches Err(FastKError::InvalidData(_)),
        r is Ok <==> bound_lookup(*header, sparse@, records@, target_ts, true) is Some,
        bound_lookup(*header, sparse@, records@, target_ts, true) matches Some(x) ==> r == Ok::<u64, FastKError>(x),
        layout_consistent(*header, sparse@, records@) && fits_in_memory(records@)
            ==> (r matches Ok(hi) && is_upper_bound(records@, target_ts, hi as int)),
{
    if sparse.len() == 0 {
        let hi = upper_bound_in_records(records, target_ts);
        proof {
            if layout_consistent(*header, sparse@, records@) {
                lemma_consistent_anchors_sorted(*header, sparse@, records@);
            }
        }
        return Ok(hi as u64);
    }
    proof {
        if layout_consistent(*header, sparse@, records@) {
            lemma_consistent_anchors_sorted(*header, sparse@, records@);
            lemma_window_brackets(*header, sparse@, records@, target_ts);
        }
    }
    let (a, b) = lookup_window(header, sparse, target_ts)?;
    if b < a {
        return Err(invalid_data("requested record span overflows u64"));
    }
    proof {
        if layout_consistent(*header, sparse@, records@) && fits_in_memory(records@) {
            let c: int = (b - a) as int;
            let n: int = records@.len() as int;
            let z: int = R::spec_byte_size() as int;
            assert(c * z <= n * z) by (nonlinear_arith)
                requires
                    0 <= c <= n,
                    z >= 0,
            ;
        }
    }
    let span = read_record_span(header, records, a, b - a)?;
    let local = upper_bound_in_records(span.as_slice(), target_ts);
    proof {
        if layout_consistent(*header, sparse@, records@) && fits_in_memory(records@) {
            lemma_consistent_anchors_sorted(*header, sparse@, records@);
            lemma_sparse_bound(*header, sparse@, records@, target_ts, a, b, span@, local as int, true);
        }
    }
    Ok(a + local as u64)
}

proof fn lemma_window_none<R: FixedRecord>(s: Seq<R>, start_ts: i64, end_ts: i64)
    requires
        forall|i: int| 0 <= i < s.len() ==> !(start_ts <= #[trigger] s[i].spec_ts() && s[i].spec_ts() <= end_ts),
    ensures
        in_window(s, start_ts, end_ts) == Seq::<R>::empty(),
    decreases s.len(),
{
    reveal(Seq::filter);
    if s.len() == 0 {
        assert(in_window(s, start_ts, end_ts) =~= Seq::<R>::empty());
    } else {
        let init = s.drop_last();
        assert forall|i: int| 0 <= i < init.len() implies !(start_ts <= #[trigger] init[i].spec_ts() && init[i].spec_ts() <= end_ts) by {
            assert(init[i] == s[i]);
        }
        lemma_window_none(init, start_ts, end_ts);
        assert(s.last() == s[s.len() - 1]);
    }
}

proof fn lemma_window_all<R: FixedRecord>(s: Seq<R>, start_ts: i64, end_ts: i64)
    requires
        forall|i: int| 0 <= i < s.len() ==> start_ts <= #[trigger] s[i].spec_ts() && s[i].spec_ts() <= end_ts,
    ensures
        in_window(s, start_ts, end_ts) == s,
    decreases s.len(),
{
    reveal(Seq::filter);
    if s.len() == 0 {
        assert(in_window(s, start_ts, end_ts) =~= s);
    } else {
        let init = s.drop_last();
        assert forall|i: int| 0 <= i < init.len() implies start_ts <= #[trigger] init[i].spec_ts() && init[i].spec_ts() <= end_ts by {
            assert(init[i] == s[i]);
        }
        lemma_window_all(init, start_ts, end_ts);
        assert(s.last() == s[s.len() - 1]);
        assert(init.push(s.last()) =~= s);
    }
}

/// In a consistent layout every record lies within the header's timestamp span.
proof fn lemma_records_in_header_span<R: FixedRecord>(h: ChunkHeader, entries: Seq<SparseIndexEntry>, recs: Seq<R>)
    requires
        layout_consistent(h, entries, recs),
    ensures
        forall|i: int| 0 <= i < recs.len() ==> h.start_ts <= #[trigger] recs[i].spec_ts() && recs[i].spec_ts() <= h.end_ts,
{
    lemma_consistent_anchors_sorted(h, entries, recs);
    assert forall|i: int| 0 <= i < recs.len() implies h.start_ts <= #[trigger] recs[i].spec_ts() && recs[i].spec_ts() <= h.end_ts by {
        assert(recs[0].spec_ts() <= recs[i].spec_ts());
        assert(recs[i].spec_ts() <= recs[recs.len() - 1].spec_ts());
    }
}

/// What a point lookup finds at the lower bound `idx` of `t`.
proof fn lemma_point_at_lower_bound<R: FixedRecord>(s: Seq<R>, t: i64, idx: int)
    requires
        ts_strict(s),
        is_lower_bound(s, t, idx),
    ensures
        idx < s.len() && s[idx].spec_ts() == t ==> record_with_ts(s, t) == Some(s[idx]),
        idx < s.len() && s[idx].spec_ts() != t ==> record_with_ts(s, t) is None,
        idx == s.len() ==> record_with_ts(s, t) is None,
{
    if idx < s.len() && s[idx].spec_ts() == t {
        assert(exists|i: int| 0 <= i < s.len() && #[trigger] s[i].spec_ts() == t);
        let c = choose|i: int| 0 <= i < s.len() && #[trigger] s[i].spec_ts() == t;
        assert(c == idx) by {
            if c < idx {
            } else if c > idx {
                assert(s[idx].spec_ts() < s[c].spec_ts());
            }
        }
    } else {
        assert forall|i: int| 0 <= i < s.len() implies #[trigger] s[i].spec_ts() != t by {
            if i > idx && idx < s.len() {
                assert(s[idx].spec_ts() < s[i].spec_ts());
            }
        }
    }
}

/// What a range read of `[start_ts, end_ts]` appends on any header, sparse index and
/// records: nothing for an empty or disjoint window, every record for a window covering the
/// chunk, else the records between the lower bound of `start_ts` and the upper bound of
/// `end_ts` (searched through the sparse index when the window is short); `None` where a
/// bound search fails or the span is one the chunk cannot serve (an error).
pub open spec fn range_lookup<R: FixedRecord>(h: ChunkHeader, entries: Seq<SparseIndexEntry>, recs: Seq<R>, start_ts: i64, end_ts: i64) -> Option<Seq<R>> {
    let size = R::spec_byte_size();
    if start_ts > end_ts || end_ts < h.start_ts || start_ts > h.end_ts || h.count == 0 {
        Some(Seq::empty())
    } else if start_ts <= h.start_ts && end_ts >= h.end_ts {
        if span_fits(h.count, 0, h.count, size) { Some(span_of(recs, 0, h.count)) } else { None }
    } else {
        let short = short_range(h, start_ts, end_ts);
        let lo = if short { bound_lookup(h, entries, recs, start_ts, false) } else {
            Some(ts_probe(recs, start_ts, false, 0, recs.len() as int) as u64)
        };
        match lo {
            None => None,
            Some(lo) => if lo >= h.count {
                Some(Seq::empty())
            } else {
                let hi = if short { bound_lookup(h, entries, recs, end_ts, true) } else {
                    Some(ts_probe(recs, end_ts, true, 0, recs.len() as int) as u64)
                };
                match hi {
                    None => None,
                    Some(hi) => if hi <= lo {
                        Some(Seq::empty())
                    } else if span_fits(h.count, lo, (hi - lo) as u64, size) {
                        Some(span_of(recs, lo, (hi - lo) as u64))
                    } else {
                        None
                    },
                }
            },
        }
    }
}

/// Appends the records of a chunk whose timestamps lie in `[start_ts, end_ts]`, given its
/// header, sparse index and records, and returns the path the read took: nothing for an
/// empty or disjoint window, every record for a window covering the chunk, else a bound
/// search narrowed by the sparse index when the window is short.
pub fn append_range_in_layout<R: FixedRecord>(
    header: &ChunkHeader,
    sparse: &[SparseIndexEntry],
    records: &[R],
    start_ts: i64,
    end_ts: i64,
    out: &mut Vec<R>,
) -> (r: Result<KlineReadPath>)
    requires
        records@.len() == header.count,
    ensures
        r is Ok ==> r == Ok::<KlineReadPath, FastKError>(read_path(*header, start_ts, end_ts)),
        r is Ok ==> exists|lo: int, hi: int| 0 <= lo <= hi <= records@.len() && final(out)@ == old(out)@ + records@.subrange(lo, hi),
        r is Err ==> (r matches Err(FastKError::InvalidData(_))) && final(out)@ == old(out)@,
        r is Ok <==> range_lookup(*header, sparse@, records@, start_ts, end_ts) is Some,
        range_lookup(*header, sparse@, records@, start_ts, end_ts) matches Some(s) ==> final(out)@ == old(out)@ + s,
        layout_consistent(*header, sparse@, records@) && fits_in_memory(records@) ==> r == Ok::<KlineReadPath, FastKError>(
            read_path(*header, start_ts, end_ts),
        ) && final(out)@ == old(out)@ + in_window(records@, start_ts, end_ts),
{
    let ghost consistent = layout_consistent(*header, sparse@, records@) && fits_in_memory(records@);
    proof {
        if consistent {
            lemma_consistent_anchors_sorted(*header, sparse@, records@);
            lemma_records_in_header_span(*header, sparse@, records@);
        }
        assert(old(out)@ + records@.subrange(0, 0) =~= old(out)@);
    }
    if start_ts > end_ts || end_ts < header.start_ts || start_ts > header.end_ts || header.count == 0 {
        proof {
            if consistent {
                lemma_window_none(records@, start_ts, end_ts);
                assert(old(out)@ + in_window(records@, start_ts, end_ts) =~= old(out)@);
            }
        }
        return Ok(KlineReadPath::ShortRange);
    }
    if start_ts <= header.start_ts && end_ts >= header.end_ts {
        append_record_span(header, records, 0, header.count, out)?;
        proof {
            assert(records@.subrange(0, header.count as int) =~= records@);
            if consistent {
                lemma_window_all(records@, start_ts, end_ts);
            }
        }
        return Ok(KlineReadPath::FullScan);
    }
    let short = is_short_range(header, start_ts, end_ts);
    let path = if short { KlineReadPath::ShortRange } else { KlineReadPath::FullScan };
    let lo = if short {
        lower_bound_via_sparse(header, sparse, records, start_ts)?
    } else {
        let lo = lower_bound_in_records(records, start_ts);
        lo as u64
    };
    if lo >= header.count {
        proof {
            if consistent {
                lemma_window_none(records@, start_ts, end_ts);
                assert(old(out)@ + in_window(records@, start_ts, end_ts) =~= old(out)@);
            }
        }
        return Ok(path);
    }
    let hi = if short {
        upper_bound_via_sparse(header, sparse, records, end_ts)?
    } else {
        let hi = upper_bound_in_records(records, end_ts);
        hi as u64
    };
    if hi <= lo {
        proof {
            if consistent {
                lemma_window_is_slice(records@, start_ts, end_ts, lo as int, hi as int);
                if lo == hi {
                    assert(records@.subrange(lo as int, hi as int) =~= Seq::<R>::empty());
                }
                assert(old(out)@ + in_window(records@, start_ts, end_ts) =~= old(out)@);
            }
        }
        return Ok(path);
    }
    proof {
        if consistent {
            let c: int = (hi - lo) as int;
            let z: int = R::spec_byte_size() as int;
            assert(c * z <= records@.len() * z) by (nonlinear_arith)
                requires
                    0 <= c <= records@.len(),
                    z >= 0,
            ;
        }
    }
    append_record_span(header, records, lo, hi - lo, out)?;
    proof {
        if consistent {
            lemma_window_is_slice(records@, start_ts, end_ts, lo as int, hi as int);
        }
    }
    Ok(path)
}

/// What a point lookup for `ts` gives on any header, sparse index and records: `None` where
/// the sparse window for `ts` is inverted or is a span the chunk cannot serve (an error),
/// else the record at the lower bound of `ts` (over the whole chunk without anchors, over
/// the sparse window with them) when its timestamp is `ts`.
pub open spec fn point_lookup<R: FixedRecord>(h: ChunkHeader, entries: Seq<SparseIndexEntry>, recs: Seq<R>, ts: i64) -> Option<Option<R>> {
    if ts < h.start_ts || ts > h.end_ts {
        Some(None)
    } else if entries.len() == 0 {
        let idx = ts_probe(recs, ts, false, 0, recs.len() as int);
        Some(if idx < recs.len() && recs[idx].spec_ts() == ts { Some(recs[idx]) } else { None })
    } else {
        let w = window_for(h.count, entries, ts);
        if w.1 < w.0 || !span_fits(h.count, w.0, (w.1 - w.0) as u64, R::spec_byte_size()) {
            None
        } else {
            let span = span_of(recs, w.0, (w.1 - w.0) as u64);
            let local = ts_probe(span, ts, false, 0, span.len() as int);
            Some(if local < span.len() && span[local].spec_ts() == ts { Some(span[local]) } else { None })
        }
    }
}

/// The record with timestamp `ts`, if the chunk holds one: a binary search over the whole
/// chunk, or over the sparse window for `ts` when the chunk has anchors.
pub fn find_by_ts_in_layout<R: FixedRecord>(header: &ChunkHeader, sparse: &[SparseIndexEntry], records: &[R], ts: i64) -> (r: Result<Option<R>>)
    requires
        records@.len() == header.count,
    ensures
        r is Err ==> r matches Err(FastKError::InvalidData(_)),
        r is Ok <==> point_lookup(*header, sparse@, records@, ts) is Some,
        point_lookup(*header, sparse@, records@, ts) matches Some(x) ==> r == Ok::<Option<R>, FastKError>(x),
        r matches Ok(Some(x)) ==> x.spec_ts() == ts && exists|i: int| 0 <= i < records@.len() && records@[i] == x,
        layout_consistent(*header, sparse@, records@) && fits_in_memory(records@) ==> r == Ok::<Option<R>, FastKError>(
            record_with_ts(records@, ts),
        ),
{
    let ghost consistent = layout_consistent(*header, sparse@, records@) && fits_in_memory(records@);
    proof {
        if consistent {
            lemma_consistent_anchors_sorted(*header, sparse@, records@);
            lemma_records_in_header_span(*header, sparse@, records@);
        }
    }
    if ts < header.start_ts || ts > header.end_ts {
        proof {
            if consistent {
                assert forall|i: int| 0 <= i < records@.len() implies #[trigger] records@[i].spec_ts() != ts by {}
            }
        }
        return Ok(None);
    }
    if sparse.len() == 0 {
        let idx = lower_bound_in_records(records, ts);
        if idx >= records.len() {
            proof {
                if consistent {
                    lemma_point_at_lower_bound(records@, ts, idx as int);
                }
            }
            return Ok(None);
        }
        let record = records[idx];
        proof {
            if consistent {
                lemma_point_at_lower_bound(records@, ts, idx as int);
            }
        }
        if record.ts() == ts {
            return Ok(Some(record));
        } else {
            return Ok(None);
        }
    }
    proof {
        if consistent {
            lemma_window_brackets(*header, sparse@, records@, ts);
        }
    }
    let (a, b) = lookup_window(header, sparse, ts)?;
    if b < a {
        return Err(invalid_data("requested record span overflows u64"));
    }
    proof {
        if consistent {
            let c: int = (b - a) as int;
            let z: int = R::spec_byte_size() as int;
            assert(c * z <= records@.len() * z) by (nonlinear_arith)
                requires
                    0 <= c <= records@.len(),
                    z >= 0,
            ;
        }
    }
    let span = read_record_span(header, records, a, b - a)?;
    let local = lower_bound_in_records(span.as_slice(), ts);
    proof {
        if consistent {
            lemma_sparse_bound(*header, sparse@, records@, ts, a, b, span@, local as int, false);
            lemma_point_at_lower_bound(records@, ts, a + local);
            if local < span@.len() {
                assert(span@[local as int] == records@[a + local]);
            } else if a + local < records@.len() {
                assert(a + local == b);
            }
        }
        if local < span@.len() {
            assert(span@[local as int] == records@[a + local]);
        }
    }
    if local < span.len() && span[local].ts() == ts {
        Ok(Some(span[local]))
    } else {
        Ok(None)
    }
}

/// The last `n` records of the chunk (all of them when it holds fewer).
pub fn read_tail_in_layout<R: FixedRecord>(header: &ChunkHeader, records: &[R], n: usize) -> (r: Result<Vec<R>>)
    requires
        records@.len() == header.count,
    ensures
        r is Err ==> r matches Err(FastKError::InvalidData(_)),
        fits_in_memory(records@) ==> (r matches Ok(v) && v@ == records@.subrange(
            records@.len() - (if n <= records@.len() { n as int } else { records@.len() as int }),
            records@.len() as int,
        )),
{
    let count = records.len();
    let start = count.saturating_sub(n) as u64;
    let r = read_record_span(header, records, start, header.count - start);
    proof {
        if fits_in_memory(records@) {
            let c: int = (header.count - start) as int;
            let z: int = R::spec_byte_size() as int;
            assert(c * z <= records@.len() * z) by (nonlinear_arith)
                requires
                    0 <= c <= records@.len(),
                    z >= 0,
            ;
            if c == 0 {
                assert(records@.subrange(start as int, records@.len() as int) =~= Seq::<R>::empty());
            }
        }
    }
    r
}

} // verus!

verus! {

/// The sparse index a chunk image with header `h` stores: none for a version 1 chunk, a
/// chunk without the index flag or with no anchors; else `index_len` 16-byte anchors from
/// `index_offset`. `None` when those bytes cannot be read.
pub open spec fn stored_sparse_index(bytes: Seq<u8>, h: ChunkHeader) -> Option<Seq<SparseIndexEntry>> {
    if h.version < CHUNK_VERSION_V2 || (h.flags & CHUNK_FLAG_HAS_SPARSE_INDEX) == 0 || h.index_len == 0 {
        Some(Seq::empty())
    } else if h.index_len * 16 > usize::MAX || h.index_offset + h.index_len * 16 > bytes.len() {
        None
    } else {
        Some(Seq::new(h.index_len as nat, |k: int| SparseIndexEntry::decoding(
            bytes.subrange(h.index_offset + 16 * k, h.index_offset + 16 * k + 16),
        )))
    }
}

/// Reads the sparse index of a chunk image whose header is `header`: `InvalidData` when its
/// byte length overflows, `Io` when the image is too short to hold it.
pub fn read_sparse_index(bytes: &[u8], header: &ChunkHeader) -> (r: Result<Vec<SparseIndexEntry>>)
    ensures
        r matches Ok(v) ==> stored_sparse_index(bytes@, *header) == Some(v@),
        stored_sparse_index(bytes@, *header) is Some ==> r is Ok,
        r is Err ==> (header.index_len * 16 > usize::MAX ==> r matches Err(FastKError::InvalidData(_)))
            && (header.index_len * 16 <= usize::MAX ==> r matches Err(FastKError::Io(_))),
{
    if header.version < CHUNK_VERSION_V2 || (header.flags & CHUNK_FLAG_HAS_SPARSE_INDEX) == 0 || header.index_len == 0 {
        return Ok(Vec::new());
    }
    if header.index_len > ((usize::MAX / 16) as u64) {
        return Err(invalid_data("sparse index byte length overflow"));
    }
    let byte_len = (header.index_len as usize) * 16;
    let total = bytes.len();
    if header.index_offset > (total as u64) || byte_len > total - (header.index_offset as usize) {
        return Err(FastKError::Io("failed to fill whole buffer".to_owned()));
    }
    let off = header.index_offset as usize;
    let slice = &bytes[off..off + byte_len];
    let r = decode_entries(slice);
    proof {
        assert(slice@ =~= bytes@.subrange(off as int, off + byte_len));
        if r is Ok {
            let v = r->Ok_0;
            assert(v@ =~= stored_sparse_index(bytes@, *header)->Some_0) by {
                assert forall|k: int| 0 <= k < v@.len() implies v@[k] == SparseIndexEntry::decoding(
                    bytes@.subrange(off + 16 * k, off + 16 * k + 16),
                ) by {
                    assert(slice@.subrange(16 * k, 16 * k + 16) =~= bytes@.subrange(off + 16 * k, off + 16 * k + 16));
                }
            }
        }
    }
    r
}

/// A chunk image `bytes` decodes to header `h`, sparse index `entries` and records `recs`
/// of type `R`.
pub open spec fn image_layout<R: FixedRecord>(bytes: Seq<u8>, h: ChunkHeader, entries: Seq<SparseIndexEntry>, recs: Seq<R>) -> bool {
    &&& header_of(bytes) == Some(h)
    &&& h.schema_id == R::spec_schema_id()
    &&& h.record_size as nat == R::spec_byte_size()
    &&& R::spec_byte_size() > 0
    &&& stored_sparse_index(bytes, h) == Some(entries)
    &&& h.header_size + h.count * R::spec_byte_size() <= bytes.len()
    &&& records_in_image(bytes, h.header_size as int, h.count as int, recs)
}

/// Decodes a chunk image into header, sparse index and records of type `R`.
pub fn load_image_layout<R: FixedRecord>(bytes: &[u8]) -> (r: Result<(ChunkHeader, Vec<SparseIndexEntry>, Vec<R>)>)
    ensures
        r matches Ok((h, e, v)) ==> image_layout(bytes@, h, e@, v@) && v@.len() == h.count && fits_in_memory(v@),
        forall|h: ChunkHeader, entries: Seq<SparseIndexEntry>, recs: Seq<R>| #[trigger] image_layout(bytes@, h, entries, recs)
            ==> (r matches Ok((h2, e2, v2)) && h2 == h && e2@ == entries && v2@ == recs),
{
    let header = ChunkHeader::read_from(bytes)?;
    let sparse = read_sparse_index(bytes, &header)?;
    validate_header::<R>(&header)?;
    let records = decode_chunk_records::<R>(bytes, &header)?;
    proof {
        let n = vstd::slice::spec_slice_len(bytes);
        assert(n == bytes@.len());
        let z: int = R::spec_byte_size() as int;
        assert(records@.len() * z <= header.header_size + header.count * z);
        assert(header_of(bytes@) == Some(header));
        assert(stored_sparse_index(bytes@, header) == Some(sparse@));
        assert(records_in_image(bytes@, header.header_size as int, header.count as int, records@));
        assert(header.count <= header.count * z) by (nonlinear_arith)
            requires
                z >= 1,
        ;
        assert(records@.len() <= usize::MAX);
        assert(image_layout(bytes@, header, sparse@, records@));
        assert forall|h: ChunkHeader, entries: Seq<SparseIndexEntry>, recs: Seq<R>| #[trigger] image_layout(bytes@, h, entries, recs)
            implies h == header && sparse@ == entries && records@ == recs by {
            assert(recs =~= records@);
        }
    }
    Ok((header, sparse, records))
}

/// Appends the records of a chunk image whose timestamps lie in `[start_ts, end_ts]` and
/// returns the path the read took.
pub fn append_range_in_image<R: FixedRecord>(bytes: &[u8], start_ts: i64, end_ts: i64, out: &mut Vec<R>) -> (r: Result<KlineReadPath>)
    ensures
        r is Err ==> final(out)@ == old(out)@,
        r is Ok ==> exists|h: ChunkHeader, entries: Seq<SparseIndexEntry>, recs: Seq<R>| #[trigger] image_layout(bytes@, h, entries, recs)
            && r == Ok::<KlineReadPath, FastKError>(read_path(h, start_ts, end_ts)),
        forall|h: ChunkHeader, entries: Seq<SparseIndexEntry>, recs: Seq<R>| #[trigger] image_layout(bytes@, h, entries, recs)
            ==> (r is Ok <==> range_lookup(h, entries, recs, start_ts, end_ts) is Some)
            && (range_lookup(h, entries, recs, start_ts, end_ts) matches Some(s) ==> final(out)@ == old(out)@ + s),
        forall|h: ChunkHeader, entries: Seq<SparseIndexEntry>, recs: Seq<R>| #[trigger] image_layout(bytes@, h, entries, recs)
            && layout_consistent(h, entries, recs) ==> r == Ok::<KlineReadPath, FastKError>(read_path(h, start_ts, end_ts))
            && final(out)@ == old(out)@ + in_window(recs, start_ts, end_ts),
{
    let (header, sparse, records) = load_image_layout::<R>(bytes)?;
    append_range_in_layout(&header, sparse.as_slice(), records.as_slice(), start_ts, end_ts, out)
}

/// The record of a chunk image with timestamp `ts`, if it holds one.
pub fn find_by_ts_in_image<R: FixedRecord>(bytes: &[u8], ts: i64) -> (r: Result<Option<R>>)
    ensures
        r is Ok ==> exists|h: ChunkHeader, entries: Seq<SparseIndexEntry>, recs: Seq<R>| #[trigger] image_layout(bytes@, h, entries, recs)
            && (r matches Ok(Some(x)) ==> x.spec_ts() == ts && exists|i: int| 0 <= i < recs.len() && recs[i] == x),
        forall|h: ChunkHeader, entries: Seq<SparseIndexEntry>, recs: Seq<R>| #[trigger] image_layout(bytes@, h, entries, recs)
            ==> (r is Ok <==> point_lookup(h, entries, recs, ts) is Some)
            && (point_lookup(h, entries, recs, ts) matches Some(x) ==> r == Ok::<Option<R>, FastKError>(x)),
        forall|h: ChunkHeader, entries: Seq<SparseIndexEntry>, recs: Seq<R>| #[trigger] image_layout(bytes@, h, entries, recs)
            && layout_consistent(h, entries, recs) ==> r == Ok::<Option<R>, FastKError>(record_with_ts(recs, ts)),
{
    let (header, sparse, records) = load_image_layout::<R>(bytes)?;
    find_by_ts_in_layout(&header, sparse.as_slice(), records.as_slice(), ts)
}

/// The last `n` records of a chunk image; nothing, without reading, for `n == 0`.
pub fn read_tail_in_image<R: FixedRecord>(bytes: &[u8], n: usize) -> (r: Result<Vec<R>>)
    ensures
        n == 0 ==> (r matches Ok(v) && v@.len() == 0),
        r is Ok && n > 0 ==> exists|h: ChunkHeader, entries: Seq<SparseIndexEntry>, recs: Seq<R>| #[trigger] image_layout(bytes@, h, entries, recs),
        forall|h: ChunkHeader, entries: Seq<SparseIndexEntry>, recs: Seq<R>| #[trigger] image_layout(bytes@, h, entries, recs)
            ==> (r matches Ok(v) && v@ == recs.subrange(
                recs.len() - (if n <= recs.len() { n as int } else { recs.len() as int }),
                recs.len() as int,
            )),
{
    if n == 0 {
        proof {
            assert forall|h: ChunkHeader, entries: Seq<SparseIndexEntry>, recs: Seq<R>| #[trigger] image_layout(bytes@, h, entries, recs)
                implies recs.subrange(recs.len() as int, recs.len() as int) =~= Seq::<R>::empty() by {}
        }
        return Ok(Vec::new());
    }
    let (header, _sparse, records) = load_image_layout::<R>(bytes)?;
    read_tail_in_layout(&header, records.as_slice(), n)
}

} // verus!
