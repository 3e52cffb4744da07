//! Chunk images: `[header][records][sparse index]`, and the manifest entry that describes
//! them. Writing the image to disk is the caller's part.
use vstd::prelude::*;
use crate::calendar::{month_key, month_key_text};
use crate::codec::{checksum64, fnv64};
use crate::error::{FastKError, Result, invalid_input};
use crate::header::{ChunkHeader, CHUNK_FLAG_HAS_SPARSE_INDEX, CHUNK_MAGIC, CHUNK_VERSION_CURRENT, chunk_magic};
use crate::meta::{ChunkMeta, ChunkState, SeriesMeta};
use crate::records::{FixedRecord, ScalarRecord, SCALAR_SCHEMA_ID, ts_ordered};
use crate::sparse_index::{anchors_every, build_for_scalar, encode_entries, encode_entries_spec, DEFAULT_SPARSE_INDEX_EVERY};
use crate::text::{owned, str_eq};
use crate::codec::u64_at;
use crate::header::decode_header_image;
use crate::scan::header_of;
use crate::chunk_reader::records_in_image;
use crate::range_read::{image_layout, layout_consistent, stored_sparse_index};
use crate::sparse_index::{SparseIndexEntry, lemma_entries_bytes_at, sparse_entry_roundtrip};

verus! {

/// Identity and layout of a newly written scalar chunk.
#[derive(Debug, Clone)]
pub struct WriteScalarChunkOptions {
    pub chunk_id: u64,
    pub generation: u32,
    pub state: ChunkState,
    pub relative_path: String,
    pub sparse_index_every: u32,
}

impl Default for WriteScalarChunkOptions {
    /// Chunk 0, generation 1, sealed, no path, the default anchor spacing.
    fn default() -> (r: Self)
        ensures
            r.chunk_id == 0,
            r.generation == 1,
            r.state is Sealed,
            r.relative_path@.len() == 0,
            r.sparse_index_every == DEFAULT_SPARSE_INDEX_EVERY,
    {
        WriteScalarChunkOptions {
            chunk_id: 0,
            generation: 1,
            state: ChunkState::Sealed,
            relative_path: String::new(),
            sparse_index_every: DEFAULT_SPARSE_INDEX_EVERY,
        }
    }
}

/// The records' encodings, one after another.
pub open spec fn records_bytes<R: FixedRecord>(s: Seq<R>) -> Seq<u8>
    decreases s.len(),
{
    if s.len() == 0 {
        Seq::empty()
    } else {
        records_bytes(s.drop_last()) + s.last().spec_encode()
    }
}

/// Appends the encodings of `records`.
pub fn push_records<R: FixedRecord>(out: &mut Vec<u8>, records: &[R])
    ensures
        final(out)@ == old(out)@ + records_bytes(records@),
{
    let ghost start = out@;
    let mut k: usize = 0;
    assert(records@.subrange(0, 0) =~= Seq::<R>::empty());
    assert(start + records_bytes(Seq::<R>::empty()) =~= start);
    while k < records.len()
        invariant
            k <= records@.len(),
            out@ == start + records_bytes(records@.subrange(0, k as int)),
        decreases records@.len() - k,
    {
        let ghost before = out@;
        records[k].encode_le(out);
        proof {
            assert(records@.subrange(0, k + 1).drop_last() =~= records@.subrange(0, k as int));
            assert(out@ =~= start + records_bytes(records@.subrange(0, k + 1)));
        }
        k = k + 1;
    }
    assert(records@.subrange(0, k as int) =~= records@);
}

/// The header of a scalar chunk holding `records` with `anchors` sparse-index anchors taken
/// every `every` rows.
pub open spec fn scalar_chunk_header(meta: SeriesMeta, records: Seq<ScalarRecord>, options: WriteScalarChunkOptions, every: u32, anchors: nat) -> ChunkHeader {
    ChunkHeader {
        magic: CHUNK_MAGIC,
        version: CHUNK_VERSION_CURRENT,
        header_size: 128,
        record_size: 16,
        schema_id: SCALAR_SCHEMA_ID,
        series_id: meta.series_id,
        chunk_id: options.chunk_id,
        generation: options.generation as u64,
        timeframe_ms: meta.timeframe_ms,
        start_ts: records[0].ts,
        end_ts: records[records.len() - 1].ts,
        count: records.len() as u64,
        flags: CHUNK_FLAG_HAS_SPARSE_INDEX,
        index_offset: (128 + records.len() * 16) as u64,
        index_len: anchors as u64,
        sparse_index_every: every as u64,
    }
}

/// `bytes` and `cm` are the image and manifest entry of a scalar chunk of `records` under
/// `meta` and `options`, with anchors every `every` rows and month key `month`.
pub open spec fn scalar_chunk_image(bytes: Seq<u8>, cm: ChunkMeta, meta: SeriesMeta, records: Seq<ScalarRecord>, options: WriteScalarChunkOptions, every: u32) -> bool {
    exists|anchors: Seq<crate::sparse_index::SparseIndexEntry>| {
        let h = #[trigger] scalar_chunk_header(meta, records, options, every, anchors.len());
        &&& anchors_every(records, every as nat, anchors)
        &&& bytes == h.image() + records_bytes(records) + encode_entries_spec(anchors)
        &&& cm.chunk_id == options.chunk_id
        &&& cm.start_ts == h.start_ts
        &&& cm.end_ts == h.end_ts
        &&& cm.count == h.count
        &&& cm.state == options.state
        &&& cm.layout_version == CHUNK_VERSION_CURRENT
        &&& cm.header_len == 128
        &&& cm.sparse_index_every == every
        &&& cm.sparse_index_offset == h.index_offset
        &&& cm.sparse_index_len == anchors.len() as u32
        &&& cm.chunk_checksum == fnv64(bytes)
        &&& cm.generation == options.generation
        &&& cm.relative_path@ == options.relative_path@
        &&& cm.sidecars@.len() == 0
    }
}

/// Every record falls in the UTC month of the first, and chrono places each of them.
pub open spec fn one_month(records: Seq<ScalarRecord>) -> bool {
    &&& records.len() > 0
    &&& month_key_text(records[0].ts) is Some
    &&& forall|j: int| 0 <= j < records.len() ==> month_key_text(#[trigger] records[j].ts) == month_key_text(records[0].ts)
}

/// Builds the image of a scalar chunk, `[header][records][sparse index]`, and its manifest
/// entry. Records must be non-empty, strictly ordered by timestamp and within one UTC month.
pub fn encode_scalar_chunk(meta: &SeriesMeta, records: &[ScalarRecord], options: &WriteScalarChunkOptions) -> (r: Result<(Vec<u8>, ChunkMeta)>)
    requires
        records@.len() * 16 + 128 <= usize::MAX,
    ensures
        !(records@.len() > 0 && ts_ordered(records@)) ==> r matches Err(FastKError::InvalidInput(_)),
        r is Err ==> r matches Err(FastKError::InvalidInput(_)),
        records@.len() > 0 && ts_ordered(records@) && one_month(records@) ==> r is Ok,
        r matches Ok((bytes, cm)) ==> records@.len() > 0 && one_month(records@) && scalar_chunk_image(
            bytes@,
            cm,
            *meta,
            records@,
            *options,
            if options.sparse_index_every > 0 { options.sparse_index_every } else { 1 },
        ) && month_key_text(records@[0].ts) == Some(cm.month_key@),
{
    ScalarRecord::validate_strict_order(records)?;
    let n = records.len();
    let month = month_key(records[0].ts)?;
    let mut i: usize = 1;
    while i < n
        invariant
            1 <= i <= n,
            n == records@.len(),
            month_key_text(records@[0].ts) == Some(month@),
            forall|j: int| 0 <= j < i ==> month_key_text(#[trigger] records@[j].ts) == Some(month@),
        decreases n - i,
    {
        let record_month = month_key(records[i].ts)?;
        if !str_eq(record_month.as_str(), month.as_str()) {
            return Err(invalid_input("records span multiple months"));
        }
        i = i + 1;
    }
    let every = if options.sparse_index_every > 0 { options.sparse_index_every } else { 1 };
    let anchors = build_for_scalar(records, every)?;
    let index_bytes = encode_entries(anchors.as_slice());
    let record_bytes_len = match n.checked_mul(16) {
        Some(x) => x,
        None => {
            return Err(invalid_input("scalar chunk byte length overflow"));
        },
    };
    let header = ChunkHeader {
        magic: CHUNK_MAGIC,
        version: CHUNK_VERSION_CURRENT,
        header_size: 128,
        record_size: 16,
        schema_id: SCALAR_SCHEMA_ID,
        series_id: meta.series_id,
        chunk_id: options.chunk_id,
        generation: options.generation as u64,
        timeframe_ms: meta.timeframe_ms,
        start_ts: records[0].ts,
        end_ts: records[n - 1].ts,
        count: n as u64,
        flags: CHUNK_FLAG_HAS_SPARSE_INDEX,
        index_offset: (128 + record_bytes_len) as u64,
        index_len: anchors.len() as u64,
        sparse_index_every: every as u64,
    };
    assert(header == scalar_chunk_header(*meta, records@, *options, every, anchors@.len()));
    let mut bytes = header.to_le_bytes();
    push_records(&mut bytes, records);
    let mut ib = index_bytes;
    bytes.append(&mut ib);
    let chunk_checksum = checksum64(bytes.as_slice());
    let cm = ChunkMeta {
        chunk_id: options.chunk_id,
        month_key: month,
        start_ts: header.start_ts,
        end_ts: header.end_ts,
        count: header.count,
        state: options.state,
        layout_version: header.version,
        header_len: header.header_size,
        sparse_index_every: every,
        sparse_index_offset: header.index_offset,
        sparse_index_len: #[verifier::truncate] (header.index_len as u32),
        chunk_checksum,
        generation: options.generation,
        relative_path: owned(options.relative_path.as_str()),
        sidecars: Vec::new(),
    };
    proof {
        assert(scalar_chunk_header(*meta, records@, *options, every, anchors@.len()) == header);
    }
    Ok((bytes, cm))
}

} // verus!

verus! {

/// The encodings of fixed records laid back to back hold record `i` at offset `size * i`.
proof fn lemma_records_bytes_at<R: FixedRecord>(s: Seq<R>)
    requires
        forall|i: int| 0 <= i < s.len() ==> (#[trigger] s[i]).spec_encode().len() == R::spec_byte_size(),
    ensures
        records_bytes(s).len() == s.len() * R::spec_byte_size(),
        forall|i: int| 0 <= i < s.len() ==> records_bytes(s).subrange(
            i * R::spec_byte_size(),
            (i + 1) * R::spec_byte_size(),
        ) == (#[trigger] s[i]).spec_encode(),
    decreases s.len(),
{
    let n = R::spec_byte_size();
    if s.len() > 0 {
        let init = s.drop_last();
        assert forall|i: int| 0 <= i < init.len() implies (#[trigger] init[i]).spec_encode().len() == n by {
            assert(init[i] == s[i]);
        }
        lemma_records_bytes_at(init);
        let a = records_bytes(init);
        let b = records_bytes(s);
        assert(s[s.len() - 1] == s.last());
        assert(b == a + s.last().spec_encode());
        assert(b.len() == s.len() * n) by (nonlinear_arith)
            requires
                b.len() == a.len() + n,
                a.len() == init.len() * n,
                init.len() + 1 == s.len(),
        ;
        assert forall|i: int| 0 <= i < s.len() implies b.subrange(i * n, (i + 1) * n) == (#[trigger] s[i]).spec_encode() by {
            if i < s.len() - 1 {
                assert((i + 1) * n <= a.len()) by (nonlinear_arith)
                    requires
                        i + 1 <= init.len(),
                        a.len() == init.len() * n,
                ;
                assert(0 <= i * n <= (i + 1) * n) by (nonlinear_arith)
                    requires
                        i >= 0,
                        n >= 0,
                ;
                assert(b.subrange(i * n, (i + 1) * n) =~= a.subrange(i * n, (i + 1) * n));
                assert(init[i] == s[i]);
            } else {
                assert(i * n == a.len()) by (nonlinear_arith)
                    requires
                        i == init.len(),
                        a.len() == init.len() * n,
                ;
                assert((i + 1) * n == a.len() + n) by (nonlinear_arith)
                    requires
                        i * n == a.len(),
                ;
                assert(b.subrange(i * n, (i + 1) * n) =~= s.last().spec_encode());
            }
        }
    }
}

/// What a scalar chunk write produces reads back as written: the image decodes to the
/// header written, its sparse index and exactly the records written, and these agree, so a
/// range, point or tail read of the image returns the written records it asks for.
pub proof fn scalar_chunk_reads_back(
    bytes: Seq<u8>,
    cm: ChunkMeta,
    meta: SeriesMeta,
    records: Seq<ScalarRecord>,
    options: WriteScalarChunkOptions,
    every: u32,
)
    requires
        scalar_chunk_image(bytes, cm, meta, records, options, every),
        records.len() > 0,
        records.len() * 16 + 128 <= usize::MAX,
        ts_ordered(records),
        every > 0,
    ensures
        exists|h: ChunkHeader, entries: Seq<SparseIndexEntry>| #[trigger] image_layout::<ScalarRecord>(bytes, h, entries, records)
            && layout_consistent(h, entries, records),
{
    let anchors = choose|anchors: Seq<SparseIndexEntry>| {
        let h = #[trigger] scalar_chunk_header(meta, records, options, every, anchors.len());
        &&& anchors_every(records, every as nat, anchors)
        &&& bytes == h.image() + records_bytes(records) + encode_entries_spec(anchors)
        &&& cm.chunk_id == options.chunk_id
        &&& cm.start_ts == h.start_ts
        &&& cm.end_ts == h.end_ts
        &&& cm.count == h.count
        &&& cm.state == options.state
        &&& cm.layout_version == CHUNK_VERSION_CURRENT
        &&& cm.header_len == 128
        &&& cm.sparse_index_every == every
        &&& cm.sparse_index_offset == h.index_offset
        &&& cm.sparse_index_len == anchors.len() as u32
        &&& cm.chunk_checksum == fnv64(bytes)
        &&& cm.generation == options.generation
        &&& cm.relative_path@ == options.relative_path@
        &&& cm.sidecars@.len() == 0
    };
    let h = scalar_chunk_header(meta, records, options, every, anchors.len());
    let img = h.image();
    assert(records[0].ts <= records[records.len() - 1].ts) by {
        if records.len() > 1 {
            assert(records[0].spec_ts() < records[records.len() - 1].spec_ts());
        }
    }
    assert(h.magic@ == crate::header::chunk_magic()) by {
        assert(CHUNK_MAGIC@ =~= crate::header::chunk_magic());
    }
    let f: u64 = h.flags;
    assert(f == 1);
    assert((f & 1) != 0) by (bit_vector)
        requires
            f == 1,
    ;
    assert(h.valid());
    crate::header::header_encode_decode_roundtrip(h);
    assert(img.len() == 128);
    assert(bytes.subrange(0, 128) =~= img);
    assert(bytes.subrange(0, 8) =~= img.subrange(0, 8));
    assert(bytes.subrange(8, 16) =~= img.subrange(8, 16));
    assert(bytes.subrange(16, 24) =~= img.subrange(16, 24));
    assert(u64_at(bytes, 8) == u64_at(img, 8));
    assert(u64_at(bytes, 16) == u64_at(img, 16));
    let d = decode_header_image(img);
    assert(d == h);
    assert forall|i: int| 0 <= i < records.len() implies (#[trigger] records[i]).spec_encode().len() == ScalarRecord::spec_byte_size() by {
        records[i].lemma_roundtrip();
    }
    lemma_records_bytes_at(records);
    let rb = records_bytes(records);
    assert(bytes.len() >= 128 + rb.len());
    assert(rb.len() == records.len() * 16);
    assert(h.count == records.len());
    assert(u64_at(img, 8) == 2 && u64_at(img, 16) == 128) by {
        crate::header::lemma_image_word(h, 0);
        crate::header::lemma_image_word(h, 1);
    }
    assert(h.magic@.len() == 8);
    assert(img.subrange(0, 8) =~= h.magic@);
    assert(bytes.subrange(0, 8) == crate::header::chunk_magic());
    assert(crate::header::header_size_for_version(2) == Some(128nat));
    assert(header_of(bytes) == Some(h));
    assert forall|i: int| 0 <= i < records.len() implies #[trigger] records[i] == ScalarRecord::spec_decode(
        bytes.subrange(128 + i * 16, 128 + (i + 1) * 16),
    ) by {
        assert(i * 16 >= 0 && (i + 1) * 16 <= rb.len()) by (nonlinear_arith)
            requires
                0 <= i < records.len(),
                rb.len() == records.len() * 16,
        ;
        assert(bytes.subrange(128 + i * 16, 128 + (i + 1) * 16) =~= rb.subrange(i * 16, (i + 1) * 16));
        records[i].lemma_roundtrip();
    }
    let a = anchors.len();
    let e = every as int;
    assert(a <= records.len()) by (nonlinear_arith)
        requires
            a == 0 || (a - 1) * e < records.len(),
            e >= 1,
    ;
    lemma_entries_bytes_at(anchors);
    let ib = encode_entries_spec(anchors);
    let off = h.index_offset as int;
    assert(off == 128 + rb.len());
    assert(bytes.len() == off + 16 * a);
    assert(stored_sparse_index(bytes, h) == Some(anchors)) by {
        let stored = stored_sparse_index(bytes, h)->Some_0;
        assert forall|k: int| 0 <= k < a implies #[trigger] stored[k] == anchors[k] by {
            assert(bytes.subrange(off + 16 * k, off + 16 * k + 16) =~= ib.subrange(16 * k, 16 * k + 16));
            sparse_entry_roundtrip(anchors[k]);
        }
        assert(stored =~= anchors);
    }
    assert(image_layout::<ScalarRecord>(bytes, h, anchors, records));
    assert(layout_consistent(h, anchors, records)) by {
        reveal(layout_consistent);
        assert forall|i: int, j: int| 0 <= i < j < records.len() implies records[i].spec_ts() < records[j].spec_ts() by {}
        assert forall|k: int| 0 <= k < a implies (#[trigger] anchors[k]).record_idx < records.len()
            && records[anchors[k].record_idx as int].spec_ts() == anchors[k].ts by {
            assert(k * e <= (a - 1) * e) by (nonlinear_arith)
                requires
                    0 <= k < a,
                    e >= 1,
            ;
        }
        assert forall|k: int, l: int| 0 <= k < l < a implies (#[trigger] anchors[k]).record_idx < (#[trigger] anchors[l]).record_idx by {
            assert(k * e < l * e && l * e <= (a - 1) * e) by (nonlinear_arith)
                requires
                    0 <= k < l < a,
                    e >= 1,
            ;
            assert(anchors[k].record_idx == k * e && anchors[l].record_idx == l * e);
        }
    }
}

} // verus!
