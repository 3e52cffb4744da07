//! Replay over sealed chunks: which chunks a replay visits and in what order, where it
//! starts, and how each batch moves the cursor. Reading chunk files is the caller's part:
//! it asks the cursor what to read and reports what it found.
use vstd::prelude::*;
use vstd::utf8::*;
use crate::error::{FastKError, Result, invalid_data, invalid_input};
use crate::meta::{ChunkMeta, ChunkState, ChunkView, RecordType, SeriesMeta, chunk_views};
use crate::records::FixedRecord;
use crate::strorder::{lex_lt, str_lt};
use crate::text::{owned, str_eq};

verus! {

/// Options used to create a sealed-chunk replay cursor.
#[derive(Debug, Clone, Copy, PartialEq, Eq, Structural)]
pub struct ReplayOptions {
    pub start_ts: i64,
    pub end_ts: Option<i64>,
    pub batch_hint: Option<usize>,
}

/// A chunk a replay visits, with the series it belongs to.
#[derive(Debug)]
pub struct ReplayChunkRef {
    pub series_dir: String,
    pub chunk: ChunkMeta,
    pub series_id: u64,
}

/// Deterministic replay cursor over sealed chunks; it does not follow live appends.
#[derive(Debug)]
pub struct ReplayCursor<R> {
    pub chunks: Vec<ReplayChunkRef>,
    pub current_chunk_index: usize,
    pub current_record_index: u64,
    pub end_ts: Option<i64>,
    pub exhausted: bool,
    pub _record: core::marker::PhantomData<R>,
}

/// Replay of `R` records needs a series of that record type, schema and size.
pub fn validate_meta<R: FixedRecord>(meta: &SeriesMeta) -> (r: Result<()>)
    ensures
        r is Ok <==> (meta.record_type == R::spec_record_type() && meta.schema_id == R::spec_schema_id()
            && meta.record_size == R::spec_byte_size()),
        r is Err ==> r matches Err(FastKError::InvalidData(_)),
{
    if meta.record_type != R::record_type() {
        return Err(invalid_data("replay record type mismatch"));
    }
    if meta.schema_id != R::schema_id() {
        return Err(invalid_data("replay schema mismatch"));
    }
    if meta.record_size as usize != R::byte_size() {
        return Err(invalid_data("replay record size mismatch"));
    }
    Ok(())
}

/// A replay visits sealed chunks that reach the start and, with an end, begin by it.
pub open spec fn replay_eligible(opts: ReplayOptions) -> spec_fn(ChunkMeta) -> bool {
    |c: ChunkMeta| c.state is Sealed && c.end_ts >= opts.start_ts && match opts.end_ts {
        Some(e) => c.start_ts <= e,
        None => true,
    }
}

/// Replay order: by start, then month key (bytes), then generation, then chunk id.
pub open spec fn replay_before(a: ChunkView, b: ChunkView) -> bool {
    ||| a.start_ts < b.start_ts
    ||| a.start_ts == b.start_ts && lex_lt(encode_utf8(a.month_key), encode_utf8(b.month_key))
    ||| a.start_ts == b.start_ts && encode_utf8(a.month_key) == encode_utf8(b.month_key) && a.generation < b.generation
    ||| a.start_ts == b.start_ts && encode_utf8(a.month_key) == encode_utf8(b.month_key) && a.generation == b.generation
        && a.chunk_id < b.chunk_id
}

/// Where `x` goes in a list in replay order: after every entry that `x` does not precede.
pub open spec fn replay_insert_pos(s: Seq<ChunkView>, x: ChunkView) -> int
    decreases s.len(),
{
    if s.len() == 0 || !replay_before(x, s.last()) {
        s.len() as int
    } else {
        replay_insert_pos(s.drop_last(), x)
    }
}

/// Stable sort into replay order.
pub open spec fn sort_for_replay(s: Seq<ChunkView>) -> Seq<ChunkView>
    decreases s.len(),
{
    if s.len() == 0 {
        s
    } else {
        let r = sort_for_replay(s.drop_last());
        r.insert(replay_insert_pos(r, s.last()), s.last())
    }
}

fn chunk_replay_before(a: &ChunkMeta, b: &ChunkMeta) -> (r: bool)
    ensures
        r == replay_before(a@, b@),
{
    if a.start_ts != b.start_ts {
        return a.start_ts < b.start_ts;
    }
    if !str_eq(a.month_key.as_str(), b.month_key.as_str()) {
        proof {
            vstd::utf8::encode_utf8_decode_utf8(a.month_key@);
            vstd::utf8::encode_utf8_decode_utf8(b.month_key@);
        }
        return str_lt(a.month_key.as_str(), b.month_key.as_str());
    }
    proof {
        crate::strorder::lemma_lex_order(encode_utf8(a.month_key@), encode_utf8(a.month_key@), encode_utf8(a.month_key@));
    }
    if a.generation != b.generation {
        return a.generation < b.generation;
    }
    a.chunk_id < b.chunk_id
}

/// The chunks a replay with `opts` visits, in replay order.
pub fn select_replay_chunks(meta: &SeriesMeta, opts: ReplayOptions) -> (r: Vec<ChunkMeta>)
    ensures
        chunk_views(r@) == sort_for_replay(chunk_views(meta.chunks@.filter(replay_eligible(opts)))),
{
    let ghost all = meta.chunks@;
    let ghost pred = replay_eligible(opts);
    let mut out: Vec<ChunkMeta> = Vec::new();
    let mut k: usize = 0;
    while k < meta.chunks.len()
        invariant
            k <= all.len(),
            all == meta.chunks@,
            pred == replay_eligible(opts),
            chunk_views(out@) == sort_for_replay(chunk_views(all.subrange(0, k as int).filter(pred))),
        decreases all.len() - k,
    {
        let c = &meta.chunks[k];
        let eligible = match c.state {
            ChunkState::Sealed => c.end_ts >= opts.start_ts && match opts.end_ts {
                Some(e) => c.start_ts <= e,
                None => true,
            },
            _ => false,
        };
        proof {
            reveal(Seq::filter);
            assert(all.subrange(0, k + 1).drop_last() =~= all.subrange(0, k as int));
            assert(all.subrange(0, k + 1).last() == all[k as int]);
            assert(eligible == pred(all[k as int]));
        }
        if eligible {
            let x = c.duplicate();
            let ghost before = out@;
            let ghost bv = chunk_views(before);
            let mut p = out.len();
            assert(bv.subrange(0, p as int) =~= bv);
            while p > 0 && chunk_replay_before(&x, &out[p - 1])
                invariant
                    p <= out@.len(),
                    out@ == before,
                    bv == chunk_views(before),
                    replay_insert_pos(bv, x@) == replay_insert_pos(bv.subrange(0, p as int), x@),
                decreases p,
            {
                proof {
                    assert(bv.subrange(0, p as int).drop_last() =~= bv.subrange(0, p - 1));
                    assert(bv.subrange(0, p as int).last() == out@[p - 1]@);
                }
                p = p - 1;
            }
            proof {
                if p > 0 {
                    assert(bv.subrange(0, p as int).last() == out@[p - 1]@);
                }
            }
            out.insert(p, x);
            proof {
                let filtered = all.subrange(0, k + 1).filter(pred);
                assert(filtered == all.subrange(0, k as int).filter(pred).push(all[k as int]));
                let pv = chunk_views(all.subrange(0, k as int).filter(pred));
                let fv = chunk_views(filtered);
                assert(fv =~= pv.push(x@));
                assert(fv.drop_last() =~= pv);
                assert(fv.last() == x@);
                assert(chunk_views(out@) =~= bv.insert(p as int, x@));
                assert(sort_for_replay(fv) == sort_for_replay(pv).insert(replay_insert_pos(sort_for_replay(pv), x@), x@));
            }
        } else {
            proof {
                assert(all.subrange(0, k + 1).filter(pred) == all.subrange(0, k as int).filter(pred));
            }
        }
        k = k + 1;
    }
    proof {
        assert(all.subrange(0, k as int) =~= all);
    }
    out
}

impl<R> ReplayCursor<R> {
    /// A cursor over the chunks a replay with `options` visits, positioned before the first
    /// of them; the start inside the chunks is found with `seek_candidate` and
    /// `apply_seek_index`. `InvalidInput` when the window is reversed, `InvalidData` when
    /// the series does not hold `R` records.
    pub fn prepare(series_dir: &str, meta: &SeriesMeta, options: ReplayOptions) -> (r: Result<Self>)
        where R: FixedRecord,
        ensures
            (options.end_ts matches Some(e) && options.start_ts > e) ==> r matches Err(FastKError::InvalidInput(_)),
            !(options.end_ts matches Some(e) && options.start_ts > e) && !(meta.record_type == R::spec_record_type()
                && meta.schema_id == R::spec_schema_id() && meta.record_size == R::spec_byte_size())
                ==> r matches Err(FastKError::InvalidData(_)),
            !(options.end_ts matches Some(e) && options.start_ts > e) && (meta.record_type == R::spec_record_type()
                && meta.schema_id == R::spec_schema_id() && meta.record_size == R::spec_byte_size()) ==> (r matches Ok(c)
                && c.chunks@.map_values(|x: ReplayChunkRef| x.chunk@) == sort_for_replay(
                chunk_views(meta.chunks@.filter(replay_eligible(options))),
            ) && (forall|i: int| 0 <= i < c.chunks@.len() ==> (#[trigger] c.chunks@[i]).series_id == meta.series_id
                && c.chunks@[i].series_dir@ == series_dir@) && c.current_chunk_index == 0
                && c.current_record_index == 0 && c.end_ts == options.end_ts && !c.exhausted),
    {
        match options.end_ts {
            Some(e) => {
                if options.start_ts > e {
                    return Err(invalid_input("replay start_ts is after end_ts"));
                }
            },
            None => {},
        }
        validate_meta::<R>(meta)?;
        let mut selected = select_replay_chunks(meta, options);
        let ghost sel = selected@;
        let mut chunks: Vec<ReplayChunkRef> = Vec::new();
        let n = selected.len();
        let mut k: usize = 0;
        while selected.len() > 0
            invariant
                k + selected@.len() == n,
                n == sel.len(),
                selected@ == sel.subrange(k as int, n as int),
                chunks@.len() == k,
                forall|i: int| 0 <= i < k ==> (#[trigger] chunks@[i]).chunk@ == sel[i]@ && chunks@[i].series_id == meta.series_id
                    && chunks@[i].series_dir@ == series_dir@,
            decreases selected@.len(),
        {
            let c = selected.remove(0);
            chunks.push(ReplayChunkRef { series_dir: owned(series_dir), chunk: c, series_id: meta.series_id });
            k = k + 1;
            proof {
                assert(selected@ =~= sel.subrange(k as int, n as int));
            }
        }
        let cursor = ReplayCursor {
            chunks,
            current_chunk_index: 0,
            current_record_index: 0,
            end_ts: options.end_ts,
            exhausted: false,
            _record: core::marker::PhantomData,
        };
        proof {
            assert(cursor.chunks@.map_values(|x: ReplayChunkRef| x.chunk@) =~= chunk_views(sel));
        }
        Ok(cursor)
    }

    /// Whether the replay has delivered every record.
    pub fn is_exhausted(&self) -> (r: bool)
        ensures
            r == self.exhausted,
    {
        self.exhausted
    }
}

} // verus!

verus! {

/// A seek passes over a chunk that ends before the start or holds no rows.
pub open spec fn seek_skips(c: ChunkMeta, start_ts: i64) -> bool {
    c.end_ts < start_ts || c.count == 0
}

/// `p` is the first position in `[s, limit)` of a record past the end bound.
pub open spec fn first_past_end<R: FixedRecord>(records: Seq<R>, s: int, limit: int, end_ts: Option<i64>, p: int) -> bool {
    &&& s <= p < limit
    &&& end_ts matches Some(e) && records[p].spec_ts() > e
    &&& forall|q: int| s <= q < p ==> !(end_ts matches Some(e) && #[trigger] records[q].spec_ts() > e)
}

/// End of the positions a batch may take: `max` rows from `s`, within the records.
pub open spec fn batch_limit(n: int, s: int, max: int) -> int {
    if s + max < n { s + max } else { n }
}

/// The rows of a batch from `s`: up to the first record past the end bound, within the limit.
pub open spec fn batch_rows<R: FixedRecord>(records: Seq<R>, s: int, max: int, end_ts: Option<i64>) -> Seq<R> {
    let limit = batch_limit(records.len() as int, s, max);
    if exists|p: int| first_past_end(records, s, limit, end_ts, p) {
        records.subrange(s, choose|p: int| first_past_end(records, s, limit, end_ts, p))
    } else {
        records.subrange(s, limit)
    }
}

/// The position after a batch from `s`: the chunk's end when a record past the end bound cut
/// it, else the batch limit.
pub open spec fn batch_next<R: FixedRecord>(records: Seq<R>, s: int, max: int, end_ts: Option<i64>) -> int {
    let limit = batch_limit(records.len() as int, s, max);
    if exists|p: int| first_past_end(records, s, limit, end_ts, p) { records.len() as int } else { limit }
}

/// One batch read from a chunk whose records are `records`, starting at `start_index`, at
/// most `max_records` long: the records up to the first one past `end_ts`, with the chunk's
/// end as the next position when such a record cuts the batch.
pub fn batch_from_records<R: FixedRecord>(records: &[R], start_index: u64, end_ts: Option<i64>, max_records: usize) -> (r: (Vec<R>, u64))
    requires
        records@.len() <= u64::MAX,
    ensures
        (max_records == 0 || start_index >= records@.len()) ==> r.0@.len() == 0 && r.1 == start_index,
        !(max_records == 0 || start_index >= records@.len()) ==> r.0@ == batch_rows(records@, start_index as int, max_records as int, end_ts)
            && r.1 == batch_next(records@, start_index as int, max_records as int, end_ts),
{
    let n = records.len();
    if max_records == 0 || start_index >= n as u64 {
        return (Vec::new(), start_index);
    }
    let ghost s = start_index as int;
    let ghost limit = if s + max_records < n { s + max_records } else { n as int };
    let mut out: Vec<R> = Vec::new();
    let mut index = start_index as usize;
    while index < n && out.len() < max_records
        invariant
            s <= index <= limit,
            max_records > 0,
            start_index < n,
            n == records@.len(),
            s == start_index,
            limit == (if s + max_records < n { s + max_records } else { n as int }),
            out@ == records@.subrange(s, index as int),
            forall|q: int| s <= q < index ==> !(end_ts matches Some(e) && #[trigger] records@[q].spec_ts() > e),
        decreases n - index,
    {
        let rec = records[index];
        let past = match end_ts {
            Some(e) => rec.ts() > e,
            None => false,
        };
        if past {
            proof {
                assert(first_past_end(records@, s, limit, end_ts, index as int));
                let p = choose|p: int| first_past_end(records@, s, limit, end_ts, p);
                assert(records@[index as int] == rec);
                if p < index {
                    assert(!(end_ts matches Some(e) && records@[p].spec_ts() > e));
                    assert(false);
                } else if p > index {
                    assert(!(end_ts matches Some(e) && records@[index as int].spec_ts() > e));
                    assert(false);
                }
                assert(p == index);
                assert(out@ == records@.subrange(s, p));
                assert(batch_limit(n as int, s, max_records as int) == limit);
            }
            let total = n as u64;
            assert(total == records@.len());
            return (out, total);
        }
        out.push(rec);
        index = index + 1;
        proof {
            assert(out@ =~= records@.subrange(s, index as int));
        }
    }
    proof {
        assert(index == limit);
        if exists|p: int| first_past_end(records@, s, limit, end_ts, p) {
            let p = choose|p: int| first_past_end(records@, s, limit, end_ts, p);
            assert(!(end_ts matches Some(e) && records@[p].spec_ts() > e));
        }
    }
    (out, index as u64)
}

impl<R> ReplayCursor<R> {
    /// Moves past the chunks a seek to `start_ts` skips; `Some(i)` names the chunk in which the
    /// start must be looked up, `None` means the replay is exhausted.
    pub fn seek_candidate(&mut self, start_ts: i64) -> (r: Option<usize>)
        ensures
            final(self).chunks == old(self).chunks,
            final(self).end_ts == old(self).end_ts,
            final(self).current_record_index == old(self).current_record_index,
            old(self).current_chunk_index <= final(self).current_chunk_index,
            forall|i: int| old(self).current_chunk_index <= i < final(self).current_chunk_index && i < old(self).chunks@.len()
                ==> seek_skips((#[trigger] old(self).chunks@[i]).chunk, start_ts),
            r matches Some(i) ==> i == final(self).current_chunk_index && i < final(self).chunks@.len()
                && !seek_skips(final(self).chunks@[i as int].chunk, start_ts) && final(self).exhausted == old(self).exhausted,
            r is None ==> final(self).current_chunk_index >= final(self).chunks@.len() && final(self).exhausted,
    {
        let n = self.chunks.len();
        while self.current_chunk_index < n
            invariant
                n == self.chunks@.len(),
                self.chunks == old(self).chunks,
                self.end_ts == old(self).end_ts,
                self.exhausted == old(self).exhausted,
                self.current_record_index == old(self).current_record_index,
                old(self).current_chunk_index <= self.current_chunk_index,
                forall|i: int| old(self).current_chunk_index <= i < self.current_chunk_index && i < old(self).chunks@.len()
                    ==> seek_skips((#[trigger] old(self).chunks@[i]).chunk, start_ts),
            decreases self.chunks@.len() - self.current_chunk_index,
        {
            let c = &self.chunks[self.current_chunk_index].chunk;
            if c.end_ts < start_ts || c.count == 0 {
                self.current_chunk_index = self.current_chunk_index + 1;
            } else {
                return Some(self.current_chunk_index);
            }
        }
        self.exhausted = true;
        None
    }

    /// Takes the lower-bound position of the start found in the current chunk: a position at
    /// or past its rows moves on to the next chunk (`false`, seek again), any other becomes
    /// the replay position (`true`).
    pub fn apply_seek_index(&mut self, index: u64) -> (r: bool)
        requires
            old(self).current_chunk_index < old(self).chunks@.len(),
        ensures
            final(self).chunks == old(self).chunks,
            final(self).end_ts == old(self).end_ts,
            r == (index < old(self).chunks@[old(self).current_chunk_index as int].chunk.count),
            r ==> final(self).current_chunk_index == old(self).current_chunk_index && final(self).current_record_index == index
                && !final(self).exhausted,
            !r ==> final(self).current_chunk_index == old(self).current_chunk_index + 1
                && final(self).current_record_index == old(self).current_record_index
                && final(self).exhausted == old(self).exhausted,
    {
        let n = self.chunks.len();
        if index >= self.chunks[self.current_chunk_index].chunk.count {
            self.current_chunk_index = self.current_chunk_index + 1;
            return false;
        }
        self.current_record_index = index;
        self.exhausted = false;
        true
    }

    /// Moves to the next chunk that holds rows, at its first row; exhausted when none is
    /// left.
    pub fn advance_chunk(&mut self)
        requires
            old(self).current_chunk_index < old(self).chunks@.len(),
        ensures
            final(self).chunks == old(self).chunks,
            final(self).end_ts == old(self).end_ts,
            final(self).current_record_index == 0,
            old(self).current_chunk_index < final(self).current_chunk_index,
            forall|i: int| old(self).current_chunk_index < i < final(self).current_chunk_index && i < old(self).chunks@.len()
                ==> (#[trigger] old(self).chunks@[i]).chunk.count == 0,
            final(self).current_chunk_index < final(self).chunks@.len() ==> !final(self).exhausted
                && final(self).chunks@[final(self).current_chunk_index as int].chunk.count > 0,
            final(self).current_chunk_index >= final(self).chunks@.len() ==> final(self).exhausted,
    {
        let n = self.chunks.len();
        self.current_chunk_index = self.current_chunk_index + 1;
        self.current_record_index = 0;
        while self.current_chunk_index < n
            invariant
                n == self.chunks@.len(),
                self.chunks == old(self).chunks,
                self.end_ts == old(self).end_ts,
                self.current_record_index == 0,
                old(self).current_chunk_index < self.current_chunk_index,
                forall|i: int| old(self).current_chunk_index < i < self.current_chunk_index && i < old(self).chunks@.len()
                    ==> (#[trigger] old(self).chunks@[i]).chunk.count == 0,
            decreases self.chunks@.len() - self.current_chunk_index,
        {
            if self.chunks[self.current_chunk_index].chunk.count == 0 {
                self.current_chunk_index = self.current_chunk_index + 1;
            } else {
                self.exhausted = false;
                return;
            }
        }
        self.exhausted = true;
    }

    /// The chunk a batch reads next: the current one while the cursor is inside the list;
    /// past the last chunk there is none and the cursor becomes exhausted.
    pub fn next_chunk_to_read(&mut self) -> (r: Option<usize>)
        ensures
            final(self).chunks == old(self).chunks,
            final(self).end_ts == old(self).end_ts,
            final(self).current_chunk_index == old(self).current_chunk_index,
            final(self).current_record_index == old(self).current_record_index,
            old(self).current_chunk_index < old(self).chunks@.len() ==> r == Some(old(self).current_chunk_index)
                && final(self).exhausted == old(self).exhausted,
            old(self).current_chunk_index >= old(self).chunks@.len() ==> r is None && final(self).exhausted,
    {
        if self.current_chunk_index >= self.chunks.len() {
            self.exhausted = true;
            return None;
        }
        Some(self.current_chunk_index)
    }

    /// Records the position after a batch read from the current chunk; moves to the next
    /// chunk when this one is done, or when it runs past the end bound before the batch
    /// was filled.
    pub fn finish_chunk_read(&mut self, next_index: u64, out_len: usize, max_records: usize)
        requires
            old(self).current_chunk_index < old(self).chunks@.len(),
        ensures
            final(self).chunks == old(self).chunks,
            final(self).end_ts == old(self).end_ts,
            ({
                let c = old(self).chunks@[old(self).current_chunk_index as int].chunk;
                let done = next_index >= c.count || (old(self).end_ts matches Some(e) && c.end_ts > e && out_len < max_records);
                &&& !done ==> final(self).current_chunk_index == old(self).current_chunk_index
                    && final(self).current_record_index == next_index && final(self).exhausted == old(self).exhausted
                &&& done ==> final(self).current_chunk_index > old(self).current_chunk_index && final(self).current_record_index == 0
            }),
    {
        self.current_record_index = next_index;
        let c = &self.chunks[self.current_chunk_index].chunk;
        let past_end = match self.end_ts {
            Some(e) => c.end_ts > e && out_len < max_records,
            None => false,
        };
        if next_index >= c.count || past_end {
            self.advance_chunk();
        }
    }
}

proof fn lemma_first_past_end_unique<R: FixedRecord>(records: Seq<R>, s: int, limit: int, end_ts: Option<i64>, p: int, q: int)
    requires
        first_past_end(records, s, limit, end_ts, p),
        first_past_end(records, s, limit, end_ts, q),
    ensures
        p == q,
{
    if p < q {
        assert(!(end_ts matches Some(e) && records[p].spec_ts() > e));
    } else if q < p {
        assert(!(end_ts matches Some(e) && records[q].spec_ts() > e));
    }
}

/// With no first record past the end bound in `[s, limit)`, no record there is past it.
proof fn lemma_none_past_end<R: FixedRecord>(records: Seq<R>, s: int, limit: int, end_ts: Option<i64>)
    requires
        s <= limit,
        !(exists|p: int| first_past_end(records, s, limit, end_ts, p)),
    ensures
        forall|q: int| s <= q < limit ==> !(end_ts matches Some(e) && #[trigger] records[q].spec_ts() > e),
    decreases limit - s,
{
    if limit > s {
        assert forall|p: int| !#[trigger] first_past_end(records, s, limit - 1, end_ts, p) by {
            if first_past_end(records, s, limit - 1, end_ts, p) {
                assert(first_past_end(records, s, limit, end_ts, p));
            }
        }
        lemma_none_past_end(records, s, limit - 1, end_ts);
        if end_ts matches Some(e) && records[limit - 1].spec_ts() > e {
            assert(first_past_end(records, s, limit, end_ts, limit - 1));
        }
    }
}

/// Replaying a chunk in batches gives what one larger batch gives: when a batch of `m1`
/// rows from `s` neither reaches a record past the end bound nor the chunk's end, the next
/// batch of `m2` rows continues it exactly, and both end where one batch of `m1 + m2` rows
/// from `s` ends.
pub proof fn replay_batches_concatenate<R: FixedRecord>(records: Seq<R>, s: int, m1: int, m2: int, end_ts: Option<i64>)
    requires
        0 <= s,
        m1 > 0,
        m2 > 0,
        batch_next(records, s, m1, end_ts) < records.len(),
    ensures
        batch_rows(records, s, m1, end_ts) + batch_rows(records, batch_next(records, s, m1, end_ts), m2, end_ts)
            == batch_rows(records, s, m1 + m2, end_ts),
        batch_next(records, batch_next(records, s, m1, end_ts), m2, end_ts) == batch_next(records, s, m1 + m2, end_ts),
{
    let n = records.len() as int;
    let l1 = batch_limit(n, s, m1);
    assert(!(exists|p: int| first_past_end(records, s, l1, end_ts, p)));
    assert(l1 == s + m1);
    let t = s + m1;
    let l2 = batch_limit(n, t, m2);
    let l12 = batch_limit(n, s, m1 + m2);
    assert(l2 == l12);
    lemma_none_past_end(records, s, l1, end_ts);
    assert forall|p: int| first_past_end(records, t, l2, end_ts, p) <==> first_past_end(records, s, l12, end_ts, p) by {}
    if exists|p: int| first_past_end(records, t, l2, end_ts, p) {
        let p = choose|p: int| first_past_end(records, t, l2, end_ts, p);
        let p2 = choose|p2: int| first_past_end(records, s, l12, end_ts, p2);
        lemma_first_past_end_unique(records, s, l12, end_ts, p, p2);
        let p1 = choose|p1: int| first_past_end(records, t, l2, end_ts, p1);
        lemma_first_past_end_unique(records, t, l2, end_ts, p, p1);
        assert(records.subrange(s, t) + records.subrange(t, p) =~= records.subrange(s, p));
    } else {
        assert(!(exists|p: int| first_past_end(records, s, l12, end_ts, p)));
        assert(records.subrange(s, t) + records.subrange(t, l2) =~= records.subrange(s, l12));
    }
}

} // verus!
