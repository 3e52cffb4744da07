//! Sparse timestamp anchors stored after a chunk's records.
use vstd::prelude::*;
use vstd::bytes::*;
use crate::codec::{i64_le, i64_at, u64_at, push_i64, push_u64, read_i64_at, read_u64_at, lemma_i64_at, lemma_u64_at, lemma_le_lengths, to_array};
use crate::error::{FastKError, Result, invalid_data, invalid_input};
use crate::records::{FixedRecord, KlineRecord, ScalarRecord, ts_ordered, validate_strict_order};

verus! {

pub const DEFAULT_SPARSE_INDEX_EVERY: u32 = 128;

/// Single sparse timestamp anchor inside a chunk.
#[derive(Debug, Clone, Copy, PartialEq, Eq, Structural)]
pub struct SparseIndexEntry {
    pub ts: i64,
    pub record_idx: u64,
}

impl SparseIndexEntry {
    pub const BYTE_SIZE: usize = 16;

    pub open spec fn encoding(&self) -> Seq<u8> {
        i64_le(self.ts) + spec_u64_to_le_bytes(self.record_idx)
    }

    pub open spec fn decoding(b: Seq<u8>) -> SparseIndexEntry {
        SparseIndexEntry { ts: i64_at(b, 0), record_idx: u64_at(b, 8) }
    }

    /// Encodes the anchor as `ts` then `record_idx`, both little-endian.
    pub fn to_le_bytes(&self) -> (r: [u8; 16])
        ensures
            r@ == self.encoding(),
    {
        let mut out: Vec<u8> = Vec::new();
        push_i64(&mut out, self.ts);
        push_u64(&mut out, self.record_idx);
        proof { lemma_le_lengths(self.record_idx, self.ts, 0, 0); }
        to_array::<16>(out.as_slice())
    }

    /// Decodes an anchor from its 16 bytes.
    pub fn from_le_bytes(bytes: [u8; 16]) -> (r: Self)
        ensures
            r == Self::decoding(bytes@),
    {
        SparseIndexEntry { ts: read_i64_at(bytes.as_slice(), 0), record_idx: read_u64_at(bytes.as_slice(), 8) }
    }
}

/// An anchor's encoding decodes back to the same anchor.
pub proof fn sparse_entry_roundtrip(e: SparseIndexEntry)
    ensures
        e.encoding().len() == 16,
        SparseIndexEntry::decoding(e.encoding()) == e,
{
    lemma_le_lengths(e.record_idx, e.ts, 0, 0);
    let b = e.encoding();
    assert(b.subrange(0, 8) =~= i64_le(e.ts));
    assert(b.subrange(8, 16) =~= spec_u64_to_le_bytes(e.record_idx));
    lemma_i64_at(b, 0, e.ts);
    lemma_u64_at(b, 8, e.record_idx);
}

/// `entries` anchors every `every`-th record of `records`, starting with the first.
pub open spec fn anchors_every<R: FixedRecord>(records: Seq<R>, every: nat, entries: Seq<SparseIndexEntry>) -> bool {
    &&& entries.len() * every >= records.len()
    &&& entries.len() == 0 || (entries.len() - 1) * every < records.len()
    &&& forall|k: int|
        0 <= k < entries.len() ==> #[trigger] entries[k] == (SparseIndexEntry {
            ts: records[k * every].spec_ts(),
            record_idx: (k * every) as u64,
        })
}

/// Builds anchors for every `every`-th record of timestamp-ordered fixed records.
pub fn build_for_fixed<R: FixedRecord>(records: &[R], every: u32) -> (r: Result<Vec<SparseIndexEntry>>)
    ensures
        every == 0 ==> r matches Err(FastKError::InvalidInput(_)),
        every != 0 && !(records@.len() > 0 && ts_ordered(records@)) ==> r matches Err(FastKError::InvalidInput(_)),
        every != 0 && records@.len() > 0 && ts_ordered(records@) ==> (r matches Ok(v)
            && anchors_every(records@, every as nat, v@)),
{
    if every == 0 {
        return Err(invalid_input("sparse index frequency must be greater than zero"));
    }
    validate_strict_order(records)?;
    let n = records.len();
    let step = every as usize;
    let mut out: Vec<SparseIndexEntry> = Vec::new();
    let mut i: usize = 0;
    assert(out@.len() * step == 0) by (nonlinear_arith)
        requires
            out@.len() == 0,
    ;
    while i < n
        invariant
            n == records@.len(),
            every != 0,
            records@.len() > 0 && ts_ordered(records@),
            step == every,
            step > 0,
            i == out@.len() * step,
            out@.len() == 0 || (out@.len() - 1) * step < n,
            forall|k: int|
                0 <= k < out@.len() ==> #[trigger] out@[k] == (SparseIndexEntry {
                    ts: records@[k * step].spec_ts(),
                    record_idx: (k * step) as u64,
                }),
        decreases n - i,
    {
        let ghost k = out@.len();
        out.push(SparseIndexEntry { ts: records[i].ts(), record_idx: i as u64 });
        if step >= n - i {
            proof {
                assert((k + 1) * step == k * step + step) by (nonlinear_arith);
            }
            return Ok(out);
        }
        i = i + step;
        proof {
            assert((k + 1) * step == k * step + step) by (nonlinear_arith);
        }
    }
    Ok(out)
}

/// Builds anchors for kline records.
pub fn build_for_kline(records: &[KlineRecord], every: u32) -> (r: Result<Vec<SparseIndexEntry>>)
    ensures
        every == 0 ==> r matches Err(FastKError::InvalidInput(_)),
        every != 0 && !(records@.len() > 0 && ts_ordered(records@)) ==> r matches Err(FastKError::InvalidInput(_)),
        every != 0 && records@.len() > 0 && ts_ordered(records@) ==> (r matches Ok(v)
            && anchors_every(records@, every as nat, v@)),
{
    build_for_fixed(records, every)
}

/// Builds anchors for scalar records.
pub fn build_for_scalar(records: &[ScalarRecord], every: u32) -> (r: Result<Vec<SparseIndexEntry>>)
    ensures
        every == 0 ==> r matches Err(FastKError::InvalidInput(_)),
        every != 0 && !(records@.len() > 0 && ts_ordered(records@)) ==> r matches Err(FastKError::InvalidInput(_)),
        every != 0 && records@.len() > 0 && ts_ordered(records@) ==> (r matches Ok(v)
            && anchors_every(records@, every as nat, v@)),
{
    build_for_fixed(records, every)
}

/// Concatenated encodings of `entries`.
pub open spec fn encode_entries_spec(entries: Seq<SparseIndexEntry>) -> Seq<u8>
    decreases entries.len(),
{
    if entries.len() == 0 {
        Seq::empty()
    } else {
        encode_entries_spec(entries.drop_last()) + entries.last().encoding()
    }
}

/// Encoded anchors lie back to back, anchor `k` at offset `16 * k`.
pub(crate) proof fn lemma_entries_bytes_at(s: Seq<SparseIndexEntry>)
    ensures
        encode_entries_spec(s).len() == 16 * s.len(),
        forall|k: int| 0 <= k < s.len() ==> encode_entries_spec(s).subrange(16 * k, 16 * k + 16) == (#[trigger] s[k]).encoding(),
    decreases s.len(),
{
    if s.len() > 0 {
        let init = s.drop_last();
        lemma_entries_bytes_at(init);
        let a = encode_entries_spec(init);
        let b = encode_entries_spec(s);
        sparse_entry_roundtrip(s.last());
        assert(b == a + s.last().encoding());
        assert forall|k: int| 0 <= k < s.len() implies b.subrange(16 * k, 16 * k + 16) == (#[trigger] s[k]).encoding() by {
            if k < s.len() - 1 {
                assert(init[k] == s[k]);
                assert(b.subrange(16 * k, 16 * k + 16) =~= a.subrange(16 * k, 16 * k + 16));
            } else {
                assert(s[k] == s.last());
                assert(b.subrange(16 * k, 16 * k + 16) =~= s.last().encoding());
            }
        }
    }
}

/// Serializes anchors back to back.
pub fn encode_entries(entries: &[SparseIndexEntry]) -> (r: Vec<u8>)
    ensures
        r@ == encode_entries_spec(entries@),
{
    let mut bytes: Vec<u8> = Vec::new();
    let mut k: usize = 0;
    while k < entries.len()
        invariant
            k <= entries@.len(),
            bytes@ == encode_entries_spec(entries@.subrange(0, k as int)),
        decreases entries@.len() - k,
    {
        let raw = entries[k].to_le_bytes();
        crate::codec::push_bytes(&mut bytes, raw.as_slice());
        proof {
            let s = entries@.subrange(0, k + 1);
            assert(s.drop_last() =~= entries@.subrange(0, k as int));
        }
        k = k + 1;
    }
    assert(entries@.subrange(0, k as int) =~= entries@);
    bytes
}

/// Parses a byte buffer holding whole 16-byte anchors.
pub fn decode_entries(bytes: &[u8]) -> (r: Result<Vec<SparseIndexEntry>>)
    ensures
        bytes@.len() % 16 != 0 ==> r matches Err(FastKError::InvalidData(_)),
        bytes@.len() % 16 == 0 ==> (r matches Ok(v) && v@.len() == bytes@.len() / 16
            && forall|k: int| 0 <= k < v@.len() ==> #[trigger] v@[k]
                == SparseIndexEntry::decoding(bytes@.subrange(16 * k, 16 * k + 16))),
{
    if bytes.len() % 16 != 0 {
        return Err(invalid_data("invalid sparse index byte length"));
    }
    let total = bytes.len();
    let count = total / 16;
    let mut out: Vec<SparseIndexEntry> = Vec::new();
    let mut k: usize = 0;
    while k < count
        invariant
            count == bytes@.len() / 16,
            total == bytes@.len(),
            bytes@.len() % 16 == 0,
            k <= count,
            out@.len() == k,
            forall|j: int| 0 <= j < k ==> #[trigger] out@[j]
                == SparseIndexEntry::decoding(bytes@.subrange(16 * j, 16 * j + 16)),
        decreases count - k,
    {
        assert(16 * k + 16 <= bytes@.len()) by (nonlinear_arith)
            requires
                k < count,
                count == bytes@.len() / 16,
        ;
        let off = 16 * k;
        let raw = to_array::<16>(&bytes[off..off + 16]);
        let e = SparseIndexEntry::from_le_bytes(raw);
        out.push(e);
        k = k + 1;
    }
    Ok(out)
}

/// Entries ordered by timestamp (non-decreasing).
pub open spec fn anchors_sorted(entries: Seq<SparseIndexEntry>) -> bool {
    forall|i: int, j: int| 0 <= i <= j < entries.len() ==> entries[i].ts <= entries[j].ts
}

/// Where a binary search of `[left, right)` for the end of the anchors at or before `ts`
/// stops. On anchors in timestamp order that is the end of those anchors; on others it is
/// still this function of them.
pub open spec fn anchor_probe(s: Seq<SparseIndexEntry>, ts: i64, left: int, right: int) -> int
    decreases right - left,
{
    if left < right {
        let mid = left + (right - left) / 2;
        if s[mid].ts <= ts {
            anchor_probe(s, ts, mid + 1, right)
        } else {
            anchor_probe(s, ts, left, mid)
        }
    } else {
        left
    }
}

pub(crate) proof fn lemma_anchor_probe_bounds(s: Seq<SparseIndexEntry>, ts: i64, left: int, right: int)
    requires
        left <= right,
    ensures
        left <= anchor_probe(s, ts, left, right) <= right,
    decreases right - left,
{
    if left < right {
        let mid = left + (right - left) / 2;
        lemma_anchor_probe_bounds(s, ts, mid + 1, right);
        lemma_anchor_probe_bounds(s, ts, left, mid);
    }
}

/// The anchor the search picks: the one before where it stops, none when it stops at the
/// first anchor.
pub open spec fn anchor_pick(s: Seq<SparseIndexEntry>, ts: i64) -> Option<int> {
    let p = anchor_probe(s, ts, 0, s.len() as int);
    if p == 0 { None } else { Some(p - 1) }
}

/// Index of the last anchor at or before `ts`, found by binary search.
pub fn anchor_index_for_ts(entries: &[SparseIndexEntry], ts: i64) -> (r: Option<usize>)
    ensures
        r == (match anchor_pick(entries@, ts) {
            Some(i) => Some(i as usize),
            None => None::<usize>,
        }),
        r matches Some(i) ==> i < entries@.len() && entries@[i as int].ts <= ts,
        anchors_sorted(entries@) ==> match r {
            Some(i) => i + 1 == entries@.len() || entries@[i + 1].ts > ts,
            None => entries@.len() == 0 || entries@[0].ts > ts,
        },
{
    if entries.len() == 0 {
        return None;
    }
    let mut left: usize = 0;
    let mut right: usize = entries.len();
    while left < right
        invariant
            left <= right <= entries@.len(),
            anchor_probe(entries@, ts, left as int, right as int) == anchor_probe(entries@, ts, 0, entries@.len() as int),
            left == 0 || entries@[left - 1].ts <= ts,
            anchors_sorted(entries@) ==> forall|i: int|
                right <= i < entries@.len() ==> #[trigger] entries@[i].ts > ts,
            anchors_sorted(entries@) ==> forall|i: int| 0 <= i < left ==> #[trigger] entries@[i].ts <= ts,
        decreases right - left,
    {
        let mid = left + (right - left) / 2;
        if entries[mid].ts <= ts {
            left = mid + 1;
        } else {
            right = mid;
        }
    }
    if left == 0 {
        None
    } else {
        Some(left - 1)
    }
}

/// The last anchor at or before `ts`.
pub fn anchor_for_ts(entries: &[SparseIndexEntry], ts: i64) -> (r: Option<SparseIndexEntry>)
    ensures
        r == (match anchor_pick(entries@, ts) {
            Some(i) => Some(entries@[i]),
            None => None::<SparseIndexEntry>,
        }),
        r matches Some(e) ==> e.ts <= ts && exists|i: int| 0 <= i < entries@.len() && #[trigger] entries@[i] == e,
        anchors_sorted(entries@) ==> match r {
            Some(e) => exists|i: int|
                0 <= i < entries@.len() && #[trigger] entries@[i] == e && (i + 1 == entries@.len()
                    || entries@[i + 1].ts > ts),
            None => entries@.len() == 0 || entries@[0].ts > ts,
        },
{
    match anchor_index_for_ts(entries, ts) {
        Some(i) => {
            proof {
                lemma_anchor_probe_bounds(entries@, ts, 0, entries@.len() as int);
                assert(vstd::slice::spec_slice_len(entries) == entries@.len());
                assert(anchor_pick(entries@, ts) is Some);
                let k = anchor_pick(entries@, ts)->Some_0;
                assert(0 <= k < entries@.len());
                assert(k == i);
            }
            Some(entries[i])
        },
        None => None,
    }
}

} // verus!
