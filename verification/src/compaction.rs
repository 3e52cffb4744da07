//! Compaction policy: when a month's delta chunks should be merged, and which chunk state
//! transitions are allowed.
use vstd::prelude::*;
use crate::manifest::{chunks_in_month, in_month};
use crate::meta::{ChunkMeta, ChunkState, SeriesMeta};
use crate::text::{owned, str_eq};
use crate::calendar::{decimal_text, digits};
use crate::strorder::string_views;

verus! {

/// Configurable thresholds for deciding when month deltas should be compacted.
#[derive(Debug, Clone, PartialEq, Eq)]
pub struct CompactionPolicy {
    pub delta_chunk_threshold: usize,
    pub delta_total_bytes_threshold: u64,
    pub append_count_threshold: usize,
    pub auto_merge: bool,
}

impl Default for CompactionPolicy {
    /// Merge at 4 delta chunks, 4 MiB of delta rows or 4 appends; no automatic merge.
    fn default() -> (r: Self)
        ensures
            r.delta_chunk_threshold == 4,
            r.delta_total_bytes_threshold == 4 * 1024 * 1024,
            r.append_count_threshold == 4,
            !r.auto_merge,
    {
        CompactionPolicy {
            delta_chunk_threshold: 4,
            delta_total_bytes_threshold: 4 * 1024 * 1024,
            append_count_threshold: 4,
            auto_merge: false,
        }
    }
}

/// Decision produced by evaluating a single month under a compaction policy.
#[derive(Debug, Clone, PartialEq, Eq)]
pub struct CompactionDecision {
    pub month_key: String,
    pub total_chunks: usize,
    pub delta_chunk_count: usize,
    pub delta_total_bytes: u64,
    pub append_count: usize,
    pub should_merge: bool,
    pub reasons: Vec<String>,
}

/// Bytes of a chunk's rows: `count * record_size`, saturating at `u64::MAX`.
pub open spec fn chunk_bytes(c: ChunkMeta, record_size: u32) -> int {
    if c.count * record_size > u64::MAX { u64::MAX as int } else { c.count * record_size }
}

/// Active (delta) chunks of the month among `s`.
pub open spec fn active_in_month(s: Seq<ChunkMeta>, key: Seq<char>) -> nat {
    chunks_in_month(s, key).filter(|c: ChunkMeta| c.state is Active).len()
}

/// Total row bytes of the month's active chunks.
pub open spec fn delta_bytes(s: Seq<ChunkMeta>, record_size: u32) -> int
    decreases s.len(),
{
    if s.len() == 0 {
        0
    } else {
        delta_bytes(s.drop_last(), record_size) + if s.last().state is Active {
            chunk_bytes(s.last(), record_size)
        } else {
            0
        }
    }
}

/// Largest generation among `s`, 0 for none.
pub open spec fn max_generation(s: Seq<ChunkMeta>) -> int
    decreases s.len(),
{
    if s.len() == 0 {
        0
    } else {
        let m = max_generation(s.drop_last());
        if s.last().generation > m { s.last().generation as int } else { m }
    }
}

/// Appends recorded for the month: its largest chunk generation less one, at least 0.
pub open spec fn appends_of(s: Seq<ChunkMeta>) -> int {
    if max_generation(s) > 0 { max_generation(s) - 1 } else { 0 }
}

/// Number of thresholds that the month's figures reach.
pub open spec fn reached(p: CompactionPolicy, deltas: int, bytes: int, appends: int) -> nat {
    (if deltas >= p.delta_chunk_threshold { 1nat } else { 0nat }) + (if bytes >= p.delta_total_bytes_threshold {
        1nat
    } else {
        0nat
    }) + (if appends >= p.append_count_threshold { 1nat } else { 0nat })
}

/// `d` is the decision for month `key` of the chunk list `s` under `p`.
pub open spec fn decision_for(d: CompactionDecision, p: CompactionPolicy, s: Seq<ChunkMeta>, record_size: u32, key: Seq<char>) -> bool {
    let month = chunks_in_month(s, key);
    &&& d.month_key@ == key
    &&& d.total_chunks == month.len()
    &&& d.delta_chunk_count == active_in_month(s, key)
    &&& d.delta_total_bytes == delta_bytes(month, record_size)
    &&& d.append_count == appends_of(month)
    &&& d.reasons@.len() == reached(p, d.delta_chunk_count as int, d.delta_total_bytes as int, d.append_count as int)
    &&& string_views(d.reasons@) == reason_texts(p, d.delta_chunk_count as nat, d.delta_total_bytes as nat, d.append_count as nat)
    &&& d.should_merge == (d.reasons@.len() > 0)
}

/// The month's active chunks' row bytes fit `u64`, as the sum needs.
pub open spec fn month_bytes_fit(s: Seq<ChunkMeta>, record_size: u32, key: Seq<char>) -> bool {
    delta_bytes(chunks_in_month(s, key), record_size) <= u64::MAX
}

/// `"<what> <value> reached threshold <threshold>"`, numbers in decimal.
pub open spec fn threshold_text(what: Seq<char>, value: nat, threshold: nat) -> Seq<char> {
    what + " "@ + digits(value) + " reached threshold "@ + digits(threshold)
}

/// The reasons a month's counts give under `p`, in the order delta chunks, delta bytes,
/// appends: one for each threshold reached.
pub open spec fn reason_texts(p: CompactionPolicy, deltas: nat, bytes: nat, appends: nat) -> Seq<Seq<char>> {
    (if deltas >= p.delta_chunk_threshold {
        seq![threshold_text("delta chunk count"@, deltas, p.delta_chunk_threshold as nat)]
    } else {
        Seq::empty()
    }) + (if bytes >= p.delta_total_bytes_threshold {
        seq![threshold_text("delta bytes"@, bytes, p.delta_total_bytes_threshold as nat)]
    } else {
        Seq::empty()
    }) + (if appends >= p.append_count_threshold {
        seq![threshold_text("append count"@, appends, p.append_count_threshold as nat)]
    } else {
        Seq::empty()
    })
}

fn threshold_reason(what: &str, value: u64, threshold: u64) -> (r: String)
    ensures
        r@ == threshold_text(what@, value as nat, threshold as nat),
{
    let r = owned(what).concat(" ").concat(decimal_text(value).as_str()).concat(" reached threshold ").concat(
        decimal_text(threshold).as_str(),
    );
    r
}

proof fn lemma_delta_bytes_monotone(s: Seq<ChunkMeta>, k: int, record_size: u32)
    requires
        0 <= k <= s.len(),
    ensures
        0 <= delta_bytes(s.subrange(0, k), record_size) <= delta_bytes(s, record_size),
    decreases s.len() - k,
{
    if k < s.len() {
        lemma_delta_bytes_monotone(s, k + 1, record_size);
        assert(s.subrange(0, k + 1).drop_last() =~= s.subrange(0, k));
    } else {
        assert(s.subrange(0, k) =~= s);
    }
    if k == 0 {
        assert(s.subrange(0, 0).len() == 0);
    }
    lemma_delta_bytes_nonneg(s.subrange(0, k), record_size);
}

proof fn lemma_delta_bytes_nonneg(s: Seq<ChunkMeta>, record_size: u32)
    ensures
        delta_bytes(s, record_size) >= 0,
    decreases s.len(),
{
    if s.len() > 0 {
        lemma_delta_bytes_nonneg(s.drop_last(), record_size);
    }
}

/// The month's chunks among a prefix of the list are a prefix of the month's chunks.
proof fn lemma_month_prefix(all: Seq<ChunkMeta>, key: Seq<char>, j: int)
    requires
        0 <= j <= all.len(),
    ensures
        chunks_in_month(all.subrange(0, j), key) == chunks_in_month(all, key).subrange(
            0,
            chunks_in_month(all.subrange(0, j), key).len() as int,
        ),
        chunks_in_month(all.subrange(0, j), key).len() <= chunks_in_month(all, key).len(),
{
    let pre = all.subrange(0, j);
    assert(pre.is_prefix_of(all));
    pre.lemma_filter_monotone(all, in_month(key));
}

impl CompactionPolicy {
    /// Evaluates one month: `None` when the series has no chunk of it, else its counts and
    /// the thresholds they reach.
    pub fn evaluate_month(&self, meta: &SeriesMeta, month_key: &str) -> (r: Option<CompactionDecision>)
        requires
            month_bytes_fit(meta.chunks@, meta.record_size, month_key@),
        ensures
            chunks_in_month(meta.chunks@, month_key@).len() == 0 ==> r is None,
            chunks_in_month(meta.chunks@, month_key@).len() > 0 ==> (r matches Some(d) && decision_for(
                d,
                *self,
                meta.chunks@,
                meta.record_size,
                month_key@,
            )),
    {
        let ghost all = meta.chunks@;
        let ghost key = month_key@;
        let ghost month = chunks_in_month(all, key);
        let ghost rs = meta.record_size;
        let mut total: usize = 0;
        let mut deltas: usize = 0;
        let mut bytes: u64 = 0;
        let mut max_gen: u32 = 0;
        let mut k: usize = 0;
        proof {
            lemma_delta_bytes_monotone(month, month.len() as int, rs);
        }
        while k < meta.chunks.len()
            invariant
                k <= all.len(),
                all == meta.chunks@,
                key == month_key@,
                month == chunks_in_month(all, key),
                rs == meta.record_size,
                delta_bytes(month, rs) <= u64::MAX,
                total == chunks_in_month(all.subrange(0, k as int), key).len(),
                deltas == active_in_month(all.subrange(0, k as int), key),
                bytes == delta_bytes(chunks_in_month(all.subrange(0, k as int), key), rs),
                max_gen == max_generation(chunks_in_month(all.subrange(0, k as int), key)),
                total <= k,
                deltas <= total,
            decreases all.len() - k,
        {
            let chunk = &meta.chunks[k];
            let ghost pre = all.subrange(0, k as int);
            let ghost next = all.subrange(0, k + 1);
            proof {
                reveal(Seq::filter);
                assert(next.drop_last() =~= pre);
                assert(next.last() == all[k as int]);
                let mp = chunks_in_month(pre, key);
                let mn = chunks_in_month(next, key);
                if chunk.month_key@ == key {
                    assert(mn == mp.push(*chunk));
                    assert(mn.drop_last() =~= mp);
                    assert(mn.filter(|c: ChunkMeta| c.state is Active) == if chunk.state is Active {
                        mp.filter(|c: ChunkMeta| c.state is Active).push(*chunk)
                    } else {
                        mp.filter(|c: ChunkMeta| c.state is Active)
                    });
                } else {
                    assert(mn == mp);
                }
                lemma_month_prefix(all, key, k + 1);
                lemma_delta_bytes_monotone(month, mn.len() as int, rs);
            }
            if str_eq(chunk.month_key.as_str(), month_key) {
                total = total + 1;
                match chunk.state {
                    ChunkState::Active => {
                        deltas = deltas + 1;
                        let row_bytes = crate::codec::sat_mul_u64(chunk.count, meta.record_size as u64);
                        bytes = bytes + row_bytes;
                    },
                    _ => {},
                }
                if chunk.generation > max_gen {
                    max_gen = chunk.generation;
                }
            }
            k = k + 1;
        }
        proof {
            assert(all.subrange(0, k as int) =~= all);
        }
        if total == 0 {
            return None;
        }
        let append_count: usize = if max_gen > 0 { (max_gen - 1) as usize } else { 0 };
        let mut reasons: Vec<String> = Vec::new();
        let ghost texts = reason_texts(*self, deltas as nat, bytes as nat, append_count as nat);
        if deltas >= self.delta_chunk_threshold {
            reasons.push(threshold_reason("delta chunk count", deltas as u64, self.delta_chunk_threshold as u64));
        }
        if bytes >= self.delta_total_bytes_threshold {
            reasons.push(threshold_reason("delta bytes", bytes, self.delta_total_bytes_threshold));
        }
        if append_count >= self.append_count_threshold {
            reasons.push(threshold_reason("append count", append_count as u64, self.append_count_threshold as u64));
        }
        proof {
            assert(string_views(reasons@) =~= texts);
        }
        let should_merge = reasons.len() > 0;
        Some(
            CompactionDecision {
                month_key: owned(month_key),
                total_chunks: total,
                delta_chunk_count: deltas,
                delta_total_bytes: bytes,
                append_count,
                should_merge,
                reasons,
            },
        )
    }
}

/// Month keys of `s` in order, one per run of consecutive entries with the same key.
pub open spec fn month_runs(s: Seq<ChunkMeta>) -> Seq<Seq<char>>
    decreases s.len(),
{
    if s.len() == 0 {
        Seq::empty()
    } else {
        let r = month_runs(s.drop_last());
        if r.len() > 0 && r.last() == s.last().month_key@ {
            r
        } else {
            r.push(s.last().month_key@)
        }
    }
}

proof fn lemma_month_runs_keys(s: Seq<ChunkMeta>)
    ensures
        forall|i: int| 0 <= i < month_runs(s).len() ==> exists|j: int| 0 <= j < s.len() && (#[trigger] month_runs(s)[i]) == s[j].month_key@,
        s.len() > 0 ==> month_runs(s).len() > 0 && month_runs(s).last() == s.last().month_key@,
    decreases s.len(),
{
    if s.len() > 0 {
        let pre = s.drop_last();
        lemma_month_runs_keys(pre);
        let r = month_runs(s);
        assert forall|i: int| 0 <= i < r.len() implies exists|j: int| 0 <= j < s.len() && (#[trigger] r[i]) == s[j].month_key@ by {
            if i < month_runs(pre).len() {
                assert(r[i] == month_runs(pre)[i]);
                let j = choose|j: int| 0 <= j < pre.len() && month_runs(pre)[i] == pre[j].month_key@;
                assert(s[j] == pre[j]);
            } else {
                assert(r[i] == s[s.len() - 1].month_key@);
            }
        }
    }
}

impl CompactionPolicy {
    /// Evaluates every month of the series, one decision per run of consecutive chunks of
    /// the same month, in chunk order.
    pub fn evaluate_all(&self, meta: &SeriesMeta) -> (r: Vec<CompactionDecision>)
        requires
            forall|i: int| 0 <= i < meta.chunks@.len() ==> month_bytes_fit(meta.chunks@, meta.record_size, #[trigger] meta.chunks@[i].month_key@),
        ensures
            r@.len() == month_runs(meta.chunks@).len(),
            forall|i: int| 0 <= i < r@.len() ==> decision_for(#[trigger] r@[i], *self, meta.chunks@, meta.record_size, month_runs(meta.chunks@)[i]),
    {
        let ghost all = meta.chunks@;
        let mut months: Vec<String> = Vec::new();
        let mut k: usize = 0;
        while k < meta.chunks.len()
            invariant
                k <= all.len(),
                all == meta.chunks@,
                months@.len() == month_runs(all.subrange(0, k as int)).len(),
                forall|i: int| 0 <= i < months@.len() ==> (#[trigger] months@[i])@ == month_runs(all.subrange(0, k as int))[i],
            decreases all.len() - k,
        {
            let chunk = &meta.chunks[k];
            proof {
                assert(all.subrange(0, k + 1).drop_last() =~= all.subrange(0, k as int));
                assert(all.subrange(0, k + 1).last() == all[k as int]);
            }
            let same = months.len() > 0 && str_eq(months[months.len() - 1].as_str(), chunk.month_key.as_str());
            if !same {
                months.push(owned(chunk.month_key.as_str()));
            }
            k = k + 1;
        }
        proof {
            assert(all.subrange(0, k as int) =~= all);
            lemma_month_runs_keys(all);
        }
        let mut out: Vec<CompactionDecision> = Vec::new();
        let mut m: usize = 0;
        while m < months.len()
            invariant
                m <= months@.len(),
                all == meta.chunks@,
                months@.len() == month_runs(all).len(),
                forall|i: int| 0 <= i < months@.len() ==> (#[trigger] months@[i])@ == month_runs(all)[i],
                forall|i: int| 0 <= i < month_runs(all).len() ==> exists|j: int| 0 <= j < all.len() && (#[trigger] month_runs(all)[i]) == all[j].month_key@,
                forall|i: int| 0 <= i < all.len() ==> month_bytes_fit(all, meta.record_size, #[trigger] all[i].month_key@),
                out@.len() == m,
                forall|i: int| 0 <= i < m ==> decision_for(#[trigger] out@[i], *self, all, meta.record_size, month_runs(all)[i]),
            decreases months@.len() - m,
        {
            let ghost key = month_runs(all)[m as int];
            proof {
                assert(months@[m as int]@ == key);
                let j = choose|j: int| 0 <= j < all.len() && key == all[j].month_key@;
                assert(month_bytes_fit(all, meta.record_size, all[j].month_key@));
                all.filter_lemma(in_month(key));
                assert(chunks_in_month(all, key).contains(all[j]));
            }
            match self.evaluate_month(meta, months[m].as_str()) {
                Some(d) => {
                    out.push(d);
                },
                None => {},
            }
            m = m + 1;
        }
        out
    }
}

/// Allowed chunk state transitions.
pub open spec fn transition_allowed(from: ChunkState, to: ChunkState) -> bool {
    match (from, to) {
        (ChunkState::Active, ChunkState::Merging) => true,
        (ChunkState::Active, ChunkState::Sealed) => true,
        (ChunkState::Active, ChunkState::Replaced) => true,
        (ChunkState::Sealed, ChunkState::Merging) => true,
        (ChunkState::Sealed, ChunkState::Replaced) => true,
        (ChunkState::Merging, ChunkState::Active) => true,
        (ChunkState::Merging, ChunkState::Sealed) => true,
        (ChunkState::Merging, ChunkState::Replaced) => true,
        _ => false,
    }
}

/// Whether a chunk may move from state `from` to state `to`.
pub fn can_transition(from: ChunkState, to: ChunkState) -> (r: bool)
    ensures
        r == transition_allowed(from, to),
{
    match (from, to) {
        (ChunkState::Active, ChunkState::Merging) => true,
        (ChunkState::Active, ChunkState::Sealed) => true,
        (ChunkState::Active, ChunkState::Replaced) => true,
        (ChunkState::Sealed, ChunkState::Merging) => true,
        (ChunkState::Sealed, ChunkState::Replaced) => true,
        (ChunkState::Merging, ChunkState::Active) => true,
        (ChunkState::Merging, ChunkState::Sealed) => true,
        (ChunkState::Merging, ChunkState::Replaced) => true,
        _ => false,
    }
}

/// A replaced chunk never comes back, and no state moves to itself.
pub proof fn replaced_is_final(to: ChunkState)
    ensures
        !transition_allowed(ChunkState::Replaced, to),
        !transition_allowed(to, to),
{
}

/// State of a merge output: `Active` when any input is active, else `Sealed`.
pub fn merge_output_state(chunks: &[ChunkMeta]) -> (r: ChunkState)
    ensures
        (exists|i: int| 0 <= i < chunks@.len() && (#[trigger] chunks@[i]).state is Active) ==> r is Active,
        !(exists|i: int| 0 <= i < chunks@.len() && (#[trigger] chunks@[i]).state is Active) ==> r is Sealed,
{
    let mut i: usize = 0;
    while i < chunks.len()
        invariant
            i <= chunks@.len(),
            forall|j: int| 0 <= j < i ==> !((#[trigger] chunks@[j]).state is Active),
        decreases chunks@.len() - i,
    {
        match chunks[i].state {
            ChunkState::Active => {
                return ChunkState::Active;
            },
            _ => {},
        }
        i = i + 1;
    }
    ChunkState::Sealed
}

} // verus!
