//! Sequence scans over fixed-record series: gaps, duplicates and reversals between adjacent
//! stored records. The report describes what is stored; it repairs nothing.
use vstd::prelude::*;
use crate::meta::RecordType;
use crate::records::{BboRecord, BookDeltaRecord, FixedRecord, TradeRecord};
use crate::text::owned;

verus! {

/// Storage-level sequence scan summary for one fixed-record series.
#[derive(Debug, Clone, PartialEq, Eq)]
pub struct SequenceScanReport {
    pub symbol: String,
    pub category: String,
    pub name: String,
    pub record_type: RecordType,
    pub sequence_field: String,
    pub start_ts: i64,
    pub end_ts: i64,
    pub scanned_chunk_count: usize,
    pub scanned_record_count: u64,
    pub first_sequence: Option<i64>,
    pub last_sequence: Option<i64>,
    pub gaps: Vec<SequenceGap>,
    pub duplicates: Vec<SequenceDuplicate>,
    pub violations: Vec<SequenceViolation>,
}

/// Missing contiguous sequence range observed between adjacent stored records.
#[derive(Debug, Clone, Copy, PartialEq, Eq, Structural)]
pub struct SequenceGap {
    pub previous_sequence: i64,
    pub expected_sequence: i64,
    pub next_sequence: i64,
    pub missing_count: u64,
    pub previous_ts: i64,
    pub next_ts: i64,
    pub previous_record_ordinal: u64,
    pub record_ordinal: u64,
}

/// Duplicate sequence observed in adjacent stored records.
#[derive(Debug, Clone, Copy, PartialEq, Eq, Structural)]
pub struct SequenceDuplicate {
    pub sequence: i64,
    pub first_ts: i64,
    pub duplicate_ts: i64,
    pub first_record_ordinal: u64,
    pub duplicate_record_ordinal: u64,
}

/// Non-monotonic sequence observed in adjacent stored records.
#[derive(Debug, Clone, Copy, PartialEq, Eq, Structural)]
pub struct SequenceViolation {
    pub previous_sequence: i64,
    pub next_sequence: i64,
    pub previous_ts: i64,
    pub next_ts: i64,
    pub previous_record_ordinal: u64,
    pub record_ordinal: u64,
}

/// One stored record as the scan sees it: timestamp, sequence and position in the scan.
#[derive(Debug, Clone, Copy, PartialEq, Eq, Structural)]
pub struct SequenceObservation {
    pub ts: i64,
    pub sequence: i64,
    pub ordinal: u64,
}

/// Fixed records that carry an exchange sequence number.
pub trait SequencedRecord: FixedRecord {
    spec fn spec_sequence(&self) -> i64;

    /// Name of the field that holds the sequence.
    spec fn spec_sequence_field() -> Seq<char>;

    /// Name of the field that holds the sequence.
    fn sequence_field() -> (r: &'static str)
        ensures
            r@ == Self::spec_sequence_field(),
    ;

    fn sequence_value(&self) -> (r: i64)
        ensures
            r == self.spec_sequence(),
    ;
}

impl SequencedRecord for BboRecord {
    open spec fn spec_sequence(&self) -> i64 {
        self.sequence
    }

    open spec fn spec_sequence_field() -> Seq<char> {
        seq!['s', 'e', 'q', 'u', 'e', 'n', 'c', 'e']
    }

    fn sequence_field() -> (r: &'static str) {
        proof {
            reveal_strlit("sequence");
        }
        assert("sequence"@ =~= seq!['s', 'e', 'q', 'u', 'e', 'n', 'c', 'e']);
        "sequence"
    }

    fn sequence_value(&self) -> (r: i64) {
        self.sequence
    }
}

impl SequencedRecord for BookDeltaRecord {
    open spec fn spec_sequence(&self) -> i64 {
        self.sequence
    }

    open spec fn spec_sequence_field() -> Seq<char> {
        seq!['s', 'e', 'q', 'u', 'e', 'n', 'c', 'e']
    }

    fn sequence_field() -> (r: &'static str) {
        proof {
            reveal_strlit("sequence");
        }
        assert("sequence"@ =~= seq!['s', 'e', 'q', 'u', 'e', 'n', 'c', 'e']);
        "sequence"
    }

    fn sequence_value(&self) -> (r: i64) {
        self.sequence
    }
}

impl SequencedRecord for TradeRecord {
    open spec fn spec_sequence(&self) -> i64 {
        self.trade_id
    }

    open spec fn spec_sequence_field() -> Seq<char> {
        seq!['t', 'r', 'a', 'd', 'e', '_', 'i', 'd']
    }

    fn sequence_field() -> (r: &'static str) {
        proof {
            reveal_strlit("trade_id");
        }
        assert("trade_id"@ =~= seq!['t', 'r', 'a', 'd', 'e', '_', 'i', 'd']);
        "trade_id"
    }

    fn sequence_value(&self) -> (r: i64) {
        self.trade_id
    }
}

impl SequenceScanReport {
    /// An empty report for a scan of `R` records over `[start_ts, end_ts]`.
    pub fn new<R: SequencedRecord>(symbol: &str, category: &str, name: &str, start_ts: i64, end_ts: i64) -> (r: Self)
        ensures
            r.symbol@ == symbol@,
            r.category@ == category@,
            r.name@ == name@,
            r.record_type == R::spec_record_type(),
            r.start_ts == start_ts,
            r.end_ts == end_ts,
            r.scanned_chunk_count == 0,
            r.scanned_record_count == 0,
            r.sequence_field@ == R::spec_sequence_field(),
            r.first_sequence is None,
            r.last_sequence is None,
            r.gaps@.len() == 0,
            r.duplicates@.len() == 0,
            r.violations@.len() == 0,
    {
        SequenceScanReport {
            symbol: owned(symbol),
            category: owned(category),
            name: owned(name),
            record_type: R::record_type(),
            sequence_field: owned(R::sequence_field()),
            start_ts,
            end_ts,
            scanned_chunk_count: 0,
            scanned_record_count: 0,
            first_sequence: None,
            last_sequence: None,
            gaps: Vec::new(),
            duplicates: Vec::new(),
            violations: Vec::new(),
        }
    }

    /// No gap, duplicate or violation was seen.
    pub fn is_clean(&self) -> (r: bool)
        ensures
            r == (self.gaps@.len() == 0 && self.duplicates@.len() == 0 && self.violations@.len() == 0),
    {
        self.gaps.len() == 0 && self.duplicates.len() == 0 && self.violations.len() == 0
    }

    pub fn gap_count(&self) -> (r: usize)
        ensures
            r == self.gaps@.len(),
    {
        self.gaps.len()
    }

    pub fn duplicate_count(&self) -> (r: usize)
        ensures
            r == self.duplicates@.len(),
    {
        self.duplicates.len()
    }

    pub fn violation_count(&self) -> (r: usize)
        ensures
            r == self.violations@.len(),
    {
        self.violations.len()
    }
}

/// Records `current` after `previous`: counts it, keeps the first and last sequence, and
/// notes a duplicate (equal sequences), a violation (decreasing) or a gap (a jump of more
/// than one).
pub fn observe_sequence(report: &mut SequenceScanReport, previous: Option<SequenceObservation>, current: SequenceObservation)
    requires
        old(report).scanned_record_count < u64::MAX,
    ensures
        final(report).scanned_record_count == old(report).scanned_record_count + 1,
        final(report).first_sequence == (match old(report).first_sequence {
            Some(s) => Some(s),
            None => Some(current.sequence),
        }),
        final(report).last_sequence == Some(current.sequence),
        final(report).symbol == old(report).symbol,
        final(report).category == old(report).category,
        final(report).name == old(report).name,
        final(report).record_type == old(report).record_type,
        final(report).sequence_field == old(report).sequence_field,
        final(report).start_ts == old(report).start_ts,
        final(report).end_ts == old(report).end_ts,
        final(report).scanned_chunk_count == old(report).scanned_chunk_count,
        final(report).duplicates@ == (match previous {
            Some(p) if current.sequence == p.sequence => old(report).duplicates@.push(
                SequenceDuplicate {
                    sequence: current.sequence,
                    first_ts: p.ts,
                    duplicate_ts: current.ts,
                    first_record_ordinal: p.ordinal,
                    duplicate_record_ordinal: current.ordinal,
                },
            ),
            _ => old(report).duplicates@,
        }),
        final(report).violations@ == (match previous {
            Some(p) if current.sequence < p.sequence => old(report).violations@.push(
                SequenceViolation {
                    previous_sequence: p.sequence,
                    next_sequence: current.sequence,
                    previous_ts: p.ts,
                    next_ts: current.ts,
                    previous_record_ordinal: p.ordinal,
                    record_ordinal: current.ordinal,
                },
            ),
            _ => old(report).violations@,
        }),
        final(report).gaps@ == (match previous {
            Some(p) if current.sequence - p.sequence > 1 => old(report).gaps@.push(
                SequenceGap {
                    previous_sequence: p.sequence,
                    expected_sequence: (p.sequence + 1) as i64,
                    next_sequence: current.sequence,
                    missing_count: (current.sequence - p.sequence - 1) as u64,
                    previous_ts: p.ts,
                    next_ts: current.ts,
                    previous_record_ordinal: p.ordinal,
                    record_ordinal: current.ordinal,
                },
            ),
            _ => old(report).gaps@,
        }),
{
    report.scanned_record_count = report.scanned_record_count + 1;
    if report.first_sequence.is_none() {
        report.first_sequence = Some(current.sequence);
    }
    report.last_sequence = Some(current.sequence);
    match previous {
        Some(prev) => {
            if current.sequence == prev.sequence {
                report.duplicates.push(
                    SequenceDuplicate {
                        sequence: current.sequence,
                        first_ts: prev.ts,
                        duplicate_ts: current.ts,
                        first_record_ordinal: prev.ordinal,
                        duplicate_record_ordinal: current.ordinal,
                    },
                );
            } else if current.sequence < prev.sequence {
                report.violations.push(
                    SequenceViolation {
                        previous_sequence: prev.sequence,
                        next_sequence: current.sequence,
                        previous_ts: prev.ts,
                        next_ts: current.ts,
                        previous_record_ordinal: prev.ordinal,
                        record_ordinal: current.ordinal,
                    },
                );
            } else {
                let delta: i128 = current.sequence as i128 - prev.sequence as i128;
                if delta > 1 {
                    report.gaps.push(
                        SequenceGap {
                            previous_sequence: prev.sequence,
                            expected_sequence: prev.sequence + 1,
                            next_sequence: current.sequence,
                            missing_count: (delta - 1) as u64,
                            previous_ts: prev.ts,
                            next_ts: current.ts,
                            previous_record_ordinal: prev.ordinal,
                            record_ordinal: current.ordinal,
                        },
                    );
                }
            }
        },
        None => {},
    }
}

/// Number of adjacent pairs in `q` that jump by more than one.
pub open spec fn jump_count(q: Seq<i64>) -> nat
    decreases q.len(),
{
    if q.len() < 2 {
        0
    } else {
        jump_count(q.drop_last()) + if q.last() - q[q.len() - 2] > 1 { 1nat } else { 0nat }
    }
}

/// The gaps between adjacent pairs of `q` that jump by more than one: previous sequence,
/// next sequence and how many sequences are missing between them.
pub open spec fn gap_triples(q: Seq<i64>) -> Seq<(i64, i64, u64)>
    decreases q.len(),
{
    if q.len() < 2 {
        Seq::empty()
    } else {
        let a = q[q.len() - 2];
        let b = q.last();
        gap_triples(q.drop_last()) + if b - a > 1 { seq![(a, b, (b - a - 1) as u64)] } else { Seq::empty() }
    }
}

/// The previous sequence, next sequence and missing count of each gap.
pub open spec fn gap_view(gaps: Seq<SequenceGap>) -> Seq<(i64, i64, u64)> {
    gaps.map_values(|g: SequenceGap| (g.previous_sequence, g.next_sequence, g.missing_count))
}

/// Number of adjacent pairs in `q` that repeat a sequence.
pub open spec fn repeat_count(q: Seq<i64>) -> nat
    decreases q.len(),
{
    if q.len() < 2 {
        0
    } else {
        repeat_count(q.drop_last()) + if q.last() == q[q.len() - 2] { 1nat } else { 0nat }
    }
}

/// Number of adjacent pairs in `q` that go backwards.
pub open spec fn reversal_count(q: Seq<i64>) -> nat
    decreases q.len(),
{
    if q.len() < 2 {
        0
    } else {
        reversal_count(q.drop_last()) + if q.last() < q[q.len() - 2] { 1nat } else { 0nat }
    }
}

/// Each sequence in `q` is one more than the one before.
pub open spec fn consecutive(q: Seq<i64>) -> bool {
    forall|i: int| 0 < i < q.len() ==> #[trigger] q[i] == q[i - 1] + 1
}

/// The sequences a scan compares: the one carried from before, then those of `records`.
pub open spec fn scanned_sequences<R: SequencedRecord>(previous: Option<SequenceObservation>, records: Seq<R>) -> Seq<i64> {
    let own = records.map_values(|x: R| x.spec_sequence());
    match previous {
        Some(p) => seq![p.sequence] + own,
        None => own,
    }
}

/// A scan finds no gap, duplicate or reversal exactly when every sequence is one more than
/// the one before.
pub proof fn sequence_scan_clean_iff_consecutive(q: Seq<i64>)
    ensures
        (jump_count(q) == 0 && repeat_count(q) == 0 && reversal_count(q) == 0) <==> consecutive(q),
    decreases q.len(),
{
    if q.len() >= 2 {
        let pre = q.drop_last();
        sequence_scan_clean_iff_consecutive(pre);
        if consecutive(q) {
            assert(consecutive(pre)) by {
                assert forall|i: int| 0 < i < pre.len() implies #[trigger] pre[i] == pre[i - 1] + 1 by {
                    assert(pre[i] == q[i] && pre[i - 1] == q[i - 1]);
                }
            }
            assert(q[q.len() - 1] == q[q.len() - 2] + 1);
        }
        if consecutive(pre) && q.last() == q[q.len() - 2] + 1 {
            assert forall|i: int| 0 < i < q.len() implies #[trigger] q[i] == q[i - 1] + 1 by {
                if i < q.len() - 1 {
                    assert(pre[i] == q[i] && pre[i - 1] == q[i - 1]);
                }
            }
        }
    }
}

/// Observes the records read from one chunk, in order, after the observation carried from
/// earlier chunks: nothing for no records; else the chunk counts as scanned, every record
/// is observed against the one before it, and the last becomes the carried observation.
pub fn observe_chunk_records<R: SequencedRecord>(report: &mut SequenceScanReport, previous: &mut Option<SequenceObservation>, records: &[R])
    requires
        old(report).scanned_record_count + records@.len() <= u64::MAX,
        records@.len() > 0 ==> old(report).scanned_chunk_count < usize::MAX,
    ensures
        records@.len() == 0 ==> *final(report) == *old(report) && *final(previous) == *old(previous),
        records@.len() > 0 ==> final(report).scanned_chunk_count == old(report).scanned_chunk_count + 1,
        final(report).scanned_record_count == old(report).scanned_record_count + records@.len(),
        final(report).gaps@.len() == old(report).gaps@.len() + jump_count(scanned_sequences(*old(previous), records@)),
        gap_view(final(report).gaps@) == gap_view(old(report).gaps@) + gap_triples(scanned_sequences(*old(previous), records@)),
        final(report).duplicates@.len() == old(report).duplicates@.len() + repeat_count(scanned_sequences(*old(previous), records@)),
        final(report).violations@.len() == old(report).violations@.len() + reversal_count(scanned_sequences(*old(previous), records@)),
        final(report).first_sequence == (if old(report).first_sequence is None && records@.len() > 0 {
            Some(records@[0].spec_sequence())
        } else {
            old(report).first_sequence
        }),
        records@.len() > 0 ==> final(report).last_sequence == Some(records@[records@.len() - 1].spec_sequence())
            && *final(previous) == Some(SequenceObservation {
                ts: records@[records@.len() - 1].spec_ts(),
                sequence: records@[records@.len() - 1].spec_sequence(),
                ordinal: (old(report).scanned_record_count + records@.len() - 1) as u64,
            }),
{
    if records.len() == 0 {
        proof {
            let q = scanned_sequences(*old(previous), records@);
            assert(q.len() <= 1);
        }
        return;
    }
    report.scanned_chunk_count = report.scanned_chunk_count + 1;
    let ghost r0 = *report;
    let ghost p0 = *previous;
    let mut k: usize = 0;
    proof {
        let q0 = scanned_sequences(p0, records@.subrange(0, 0));
        assert(q0.len() <= 1);
    }
    while k < records.len()
        invariant
            k <= records@.len(),
            r0.scanned_record_count + records@.len() <= u64::MAX,
            report.scanned_record_count == r0.scanned_record_count + k,
            report.scanned_chunk_count == r0.scanned_chunk_count,
            report.gaps@.len() == r0.gaps@.len() + jump_count(scanned_sequences(p0, records@.subrange(0, k as int))),
            gap_view(report.gaps@) == gap_view(r0.gaps@) + gap_triples(scanned_sequences(p0, records@.subrange(0, k as int))),
            report.duplicates@.len() == r0.duplicates@.len() + repeat_count(scanned_sequences(p0, records@.subrange(0, k as int))),
            report.violations@.len() == r0.violations@.len() + reversal_count(scanned_sequences(p0, records@.subrange(0, k as int))),
            report.first_sequence == (if r0.first_sequence is None && k > 0 {
                Some(records@[0].spec_sequence())
            } else {
                r0.first_sequence
            }),
            k == 0 ==> *previous == p0 && report.last_sequence == r0.last_sequence,
            k > 0 ==> report.last_sequence == Some(records@[k - 1].spec_sequence()) && *previous == Some(SequenceObservation {
                ts: records@[k - 1].spec_ts(),
                sequence: records@[k - 1].spec_sequence(),
                ordinal: (r0.scanned_record_count + k - 1) as u64,
            }),
            report.symbol == r0.symbol,
            report.category == r0.category,
            report.name == r0.name,
            report.record_type == r0.record_type,
            report.sequence_field == r0.sequence_field,
            report.start_ts == r0.start_ts,
            report.end_ts == r0.end_ts,
        decreases records@.len() - k,
    {
        let rec = records[k];
        let observation = SequenceObservation { ts: rec.ts(), sequence: rec.sequence_value(), ordinal: report.scanned_record_count };
        proof {
            let qa = scanned_sequences(p0, records@.subrange(0, k as int));
            let qb = scanned_sequences(p0, records@.subrange(0, k + 1));
            assert(records@.subrange(0, k + 1) =~= records@.subrange(0, k as int).push(records@[k as int]));
            assert(qb =~= qa.push(rec.spec_sequence()));
            assert(qb.drop_last() =~= qa);
            if qa.len() > 0 {
                assert(qb[qb.len() - 2] == qa.last());
                match *previous {
                    Some(p) => {
                        if k == 0 {
                            assert(qa =~= seq![p.sequence]);
                        } else {
                            assert(qa.last() == records@[k - 1].spec_sequence());
                        }
                    },
                    None => {
                        assert(k > 0);
                    },
                }
            } else {
                assert(*previous is None);
            }
        }
        let ghost gaps_before = report.gaps@;
        observe_sequence(report, *previous, observation);
        proof {
            let qa = scanned_sequences(p0, records@.subrange(0, k as int));
            let qb = scanned_sequences(p0, records@.subrange(0, k + 1));
            assert(qb.drop_last() =~= qa);
            if report.gaps@.len() > gaps_before.len() {
                assert(gap_view(report.gaps@) =~= gap_view(gaps_before).push(gap_view(report.gaps@).last()));
            } else {
                assert(gap_view(report.gaps@) =~= gap_view(gaps_before));
            }
        }
        *previous = Some(observation);
        k = k + 1;
    }
    assert(records@.subrange(0, k as int) =~= records@);
}

/// A scan split at any record gives the same gaps and counts as one scan: the second part,
/// compared from the last sequence of the first, continues them exactly. So the results of
/// `observe_chunk_records` over successive chunks, each carrying the last observation of
/// the one before, are those of one scan over all their records.
pub proof fn sequence_scan_splits(q1: Seq<i64>, q2: Seq<i64>)
    requires
        q1.len() > 0,
    ensures
        gap_triples(q1) + gap_triples(seq![q1.last()] + q2) == gap_triples(q1 + q2),
        jump_count(q1) + jump_count(seq![q1.last()] + q2) == jump_count(q1 + q2),
        repeat_count(q1) + repeat_count(seq![q1.last()] + q2) == repeat_count(q1 + q2),
        reversal_count(q1) + reversal_count(seq![q1.last()] + q2) == reversal_count(q1 + q2),
    decreases q2.len(),
{
    let h = seq![q1.last()] + q2;
    if q2.len() == 0 {
        assert(q1 + q2 =~= q1);
        assert(h.len() == 1);
        assert(gap_triples(q1) + gap_triples(h) =~= gap_triples(q1));
    } else {
        let q2p = q2.drop_last();
        sequence_scan_splits(q1, q2p);
        let hp = seq![q1.last()] + q2p;
        assert(h.drop_last() =~= hp);
        assert((q1 + q2).drop_last() =~= q1 + q2p);
        assert(h.last() == (q1 + q2).last());
        assert(h[h.len() - 2] == (q1 + q2)[(q1 + q2).len() - 2]) by {
            if q2.len() == 1 {
                assert(h[h.len() - 2] == q1.last());
            }
        }
        let a = h[h.len() - 2];
        let b = h.last();
        let tail: Seq<(i64, i64, u64)> = if b - a > 1 { seq![(a, b, (b - a - 1) as u64)] } else { Seq::empty() };
        assert(gap_triples(h) == gap_triples(hp) + tail);
        assert(gap_triples(q1 + q2) == gap_triples(q1 + q2p) + tail);
        assert(gap_triples(q1) + (gap_triples(hp) + tail) =~= (gap_triples(q1) + gap_triples(hp)) + tail);
    }
}

} // verus!
