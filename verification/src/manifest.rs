//! Binary series manifest (`series.meta`): layout, encoding, decoding and in-place edits.
//!
//! Layout: the magic `FKMETA02`, the format version, the flags and the checksum of the
//! body (24 header bytes), then the body. Strings are a little-endian `u16` byte length
//! followed by their UTF-8 bytes.
use vstd::prelude::*;
use vstd::bytes::*;
use vstd::utf8::*;
use crate::codec::{i64_le, u64_at, i64_at, u32_at, u16_at, fnv64, checksum64, push_u64, push_i64, push_u32,
    push_u16, push_bytes};
use crate::clock::{elapsed_ns, instant_now, now_timestamp_ms};
use crate::error::{FastKError, Result, invalid_data, invalid_input};
use crate::text::str_eq;
use crate::meta::{chunk_state_code_roundtrip, record_type_code_roundtrip, ChunkMeta, ChunkState, ChunkView, RecordType, SeriesMeta, SeriesView, SidecarMeta,
    SidecarView, chunk_views, sidecar_views};

verus! {

/// Version of the binary manifest layout.
pub const MANIFEST_VERSION: u32 = 2;

/// Bytes before the manifest body: magic, version, flags, checksum.
pub const MANIFEST_HEADER_LEN: usize = 24;

/// The manifest magic, `FKMETA02`.
pub open spec fn manifest_magic() -> Seq<u8> {
    seq![70u8, 75u8, 77u8, 69u8, 84u8, 65u8, 48u8, 50u8]
}

/// A string field: its UTF-8 byte length as a little-endian `u16`, then the bytes.
pub open spec fn str_enc(s: Seq<char>) -> Seq<u8> {
    spec_u16_to_le_bytes(encode_utf8(s).len() as u16) + encode_utf8(s)
}

/// Encoding of one sidecar entry.
pub open spec fn sidecar_enc(v: SidecarView) -> Seq<u8> {
    str_enc(v.kind) + str_enc(v.relative_path) + spec_u32_to_le_bytes(v.generation)
        + spec_u64_to_le_bytes(v.checksum) + spec_u32_to_le_bytes(v.block_size)
        + spec_u64_to_le_bytes(v.record_count)
}

/// Encoding of a list of sidecar entries, one after another.
pub open spec fn sidecars_enc(s: Seq<SidecarView>) -> Seq<u8>
    decreases s.len(),
{
    if s.len() == 0 {
        Seq::empty()
    } else {
        sidecars_enc(s.drop_last()) + sidecar_enc(s.last())
    }
}

/// Encoding of one chunk entry, its sidecars included.
pub open spec fn chunk_enc(c: ChunkView) -> Seq<u8> {
    spec_u64_to_le_bytes(c.chunk_id) + str_enc(c.month_key) + i64_le(c.start_ts) + i64_le(c.end_ts)
        + spec_u64_to_le_bytes(c.count) + seq![c.state.code()] + spec_u32_to_le_bytes(c.layout_version)
        + spec_u32_to_le_bytes(c.header_len) + spec_u32_to_le_bytes(c.sparse_index_every)
        + spec_u64_to_le_bytes(c.sparse_index_offset) + spec_u32_to_le_bytes(c.sparse_index_len)
        + spec_u64_to_le_bytes(c.chunk_checksum) + spec_u32_to_le_bytes(c.generation)
        + str_enc(c.relative_path) + spec_u32_to_le_bytes(c.sidecars.len() as u32) + sidecars_enc(
        c.sidecars,
    )
}

/// Encoding of a list of chunk entries, one after another.
pub open spec fn chunks_enc(s: Seq<ChunkView>) -> Seq<u8>
    decreases s.len(),
{
    if s.len() == 0 {
        Seq::empty()
    } else {
        chunks_enc(s.drop_last()) + chunk_enc(s.last())
    }
}

/// The manifest body: series fields, then the chunk list.
pub open spec fn body_enc(v: SeriesView) -> Seq<u8> {
    spec_u32_to_le_bytes(v.record_type.code()) + spec_u32_to_le_bytes(v.record_size)
        + spec_u32_to_le_bytes(v.schema_id) + spec_u64_to_le_bytes(v.series_id)
        + spec_u64_to_le_bytes(v.manifest_seq) + i64_le(v.created_at) + i64_le(v.updated_at)
        + i64_le(v.timeframe_ms) + i64_le(v.price_scale) + i64_le(v.volume_scale) + str_enc(v.chunk_unit)
        + spec_u64_to_le_bytes(
        match v.active_chunk_id {
            Some(id) => id,
            None => 0,
        },
    ) + str_enc(v.symbol) + str_enc(v.category) + str_enc(v.name) + spec_u32_to_le_bytes(
        v.chunks.len() as u32,
    ) + chunks_enc(v.chunks)
}

/// The whole manifest: header (magic, version, flags, body checksum), then the body.
pub open spec fn manifest_enc(v: SeriesView) -> Seq<u8> {
    manifest_magic() + spec_u32_to_le_bytes(MANIFEST_VERSION) + spec_u32_to_le_bytes(v.flags)
        + spec_u64_to_le_bytes(fnv64(body_enc(v))) + body_enc(v)
}

/// A string whose UTF-8 bytes fit a `u16` length.
pub open spec fn str_fits(s: Seq<char>) -> bool {
    encode_utf8(s).len() <= 0xFFFF
}

/// Every string of the sidecar fits its length field.
pub open spec fn sidecar_fits(v: SidecarView) -> bool {
    str_fits(v.kind) && str_fits(v.relative_path)
}

/// Every string of the chunk and of its sidecars fits its length field.
pub open spec fn chunk_strings_fit(c: ChunkView) -> bool {
    &&& str_fits(c.month_key)
    &&& str_fits(c.relative_path)
    &&& forall|i: int| 0 <= i < c.sidecars.len() ==> #[trigger] sidecar_fits(c.sidecars[i])
}

/// Every string of the series, its chunks and their sidecars fits its length field.
pub open spec fn strings_fit(v: SeriesView) -> bool {
    &&& str_fits(v.chunk_unit)
    &&& str_fits(v.symbol)
    &&& str_fits(v.category)
    &&& str_fits(v.name)
    &&& forall|i: int| 0 <= i < v.chunks.len() ==> #[trigger] chunk_strings_fit(v.chunks[i])
}

/// The manifest can represent `v` exactly: strings fit, counts fit `u32`, and no active
/// chunk id is 0 (which the layout reserves for "none").
pub open spec fn representable(v: SeriesView) -> bool {
    &&& strings_fit(v)
    &&& v.chunks.len() <= u32::MAX
    &&& forall|i: int| 0 <= i < v.chunks.len() ==> #[trigger] v.chunks[i].sidecars.len() <= u32::MAX
    &&& v.active_chunk_id != Some(0u64)
}

/// The string field at `off` of `b` and the offset after it.
pub open spec fn str_at(b: Seq<u8>, off: int) -> Option<(Seq<char>, int)> {
    if 0 <= off && off + 2 <= b.len() {
        let n = u16_at(b, off) as int;
        if off + 2 + n <= b.len() && valid_utf8(b.subrange(off + 2, off + 2 + n)) {
            Some((decode_utf8(b.subrange(off + 2, off + 2 + n)), off + 2 + n))
        } else {
            None
        }
    } else {
        None
    }
}

/// The sidecar entry at `off` of `b` and the offset after it.
pub open spec fn sidecar_at(b: Seq<u8>, off: int) -> Option<(SidecarView, int)> {
    match str_at(b, off) {
        Some((kind, o1)) => match str_at(b, o1) {
            Some((path, o2)) => if o2 + 24 <= b.len() {
                Some(
                    (
                        SidecarView {
                            kind,
                            relative_path: path,
                            generation: u32_at(b, o2),
                            checksum: u64_at(b, o2 + 4),
                            block_size: u32_at(b, o2 + 12),
                            record_count: u64_at(b, o2 + 16),
                        },
                        o2 + 24,
                    ),
                )
            } else {
                None
            },
            None => None,
        },
        None => None,
    }
}

/// The `n` sidecar entries starting at `off` of `b` and the offset after them.
pub open spec fn sidecars_at(b: Seq<u8>, off: int, n: nat) -> Option<(Seq<SidecarView>, int)>
    decreases n,
{
    if n == 0 {
        if 0 <= off <= b.len() { Some((Seq::empty(), off)) } else { None }
    } else {
        match sidecars_at(b, off, (n - 1) as nat) {
            Some((s, o)) => match sidecar_at(b, o) {
                Some((x, o2)) => Some((s.push(x), o2)),
                None => None,
            },
            None => None,
        }
    }
}

/// The chunk entry at `off` of `b` and the offset after it.
pub open spec fn chunk_at(b: Seq<u8>, off: int) -> Option<(ChunkView, int)> {
    if 0 <= off && off + 8 <= b.len() {
        match str_at(b, off + 8) {
            Some((month, o1)) => if o1 + 61 <= b.len() && ChunkState::from_code(b[o1 + 24]) is Some {
                match str_at(b, o1 + 61) {
                    Some((path, o2)) => if o2 + 4 <= b.len() {
                        match sidecars_at(b, o2 + 4, u32_at(b, o2) as nat) {
                            Some((sidecars, o3)) => Some(
                                (
                                    ChunkView {
                                        chunk_id: u64_at(b, off),
                                        month_key: month,
                                        start_ts: i64_at(b, o1),
                                        end_ts: i64_at(b, o1 + 8),
                                        count: u64_at(b, o1 + 16),
                                        state: ChunkState::from_code(b[o1 + 24]).unwrap(),
                                        layout_version: u32_at(b, o1 + 25),
                                        header_len: u32_at(b, o1 + 29),
                                        sparse_index_every: u32_at(b, o1 + 33),
                                        sparse_index_offset: u64_at(b, o1 + 37),
                                        sparse_index_len: u32_at(b, o1 + 45),
                                        chunk_checksum: u64_at(b, o1 + 49),
                                        generation: u32_at(b, o1 + 57),
                                        relative_path: path,
                                        sidecars,
                                    },
                                    o3,
                                ),
                            ),
                            None => None,
                        }
                    } else {
                        None
                    },
                    None => None,
                }
            } else {
                None
            },
            None => None,
        }
    } else {
        None
    }
}

/// The `n` chunk entries starting at `off` of `b` and the offset after them.
pub open spec fn chunks_at(b: Seq<u8>, off: int, n: nat) -> Option<(Seq<ChunkView>, int)>
    decreases n,
{
    if n == 0 {
        if 0 <= off <= b.len() { Some((Seq::empty(), off)) } else { None }
    } else {
        match chunks_at(b, off, (n - 1) as nat) {
            Some((s, o)) => match chunk_at(b, o) {
                Some((x, o2)) => Some((s.push(x), o2)),
                None => None,
            },
            None => None,
        }
    }
}

/// The series described by the manifest body `b`, with the header's `flags`; bytes after
/// the chunk list are ignored.
pub open spec fn body_at(b: Seq<u8>, flags: u32) -> Option<SeriesView> {
    if 68 <= b.len() && RecordType::from_code(u32_at(b, 0)) is Some {
        match str_at(b, 68) {
            Some((unit, o1)) => if o1 + 8 <= b.len() {
                match str_at(b, o1 + 8) {
                    Some((symbol, o2)) => match str_at(b, o2) {
                        Some((category, o3)) => match str_at(b, o3) {
                            Some((name, o4)) => if o4 + 4 <= b.len() {
                                match chunks_at(b, o4 + 4, u32_at(b, o4) as nat) {
                                    Some((chunks, _)) => Some(
                                        SeriesView {
                                            symbol,
                                            category,
                                            name,
                                            timeframe_ms: i64_at(b, 44),
                                            record_type: RecordType::from_code(u32_at(b, 0)).unwrap(),
                                            record_size: u32_at(b, 4),
                                            schema_id: u32_at(b, 8),
                                            price_scale: i64_at(b, 52),
                                            volume_scale: i64_at(b, 60),
                                            chunk_unit: unit,
                                            series_id: u64_at(b, 12),
                                            manifest_seq: u64_at(b, 20),
                                            created_at: i64_at(b, 28),
                                            updated_at: i64_at(b, 36),
                                            flags,
                                            active_chunk_id: if u64_at(b, o1) == 0 {
                                                None
                                            } else {
                                                Some(u64_at(b, o1))
                                            },
                                            chunks,
                                        },
                                    ),
                                    None => None,
                                }
                            } else {
                                None
                            },
                            None => None,
                        },
                        None => None,
                    },
                    None => None,
                }
            } else {
                None
            },
            None => None,
        }
    } else {
        None
    }
}

/// The series a manifest file describes: the header must carry the magic, this layout
/// version and the checksum of everything after the header.
pub open spec fn parse_manifest(b: Seq<u8>) -> Option<SeriesView> {
    if b.len() >= 24 && b.subrange(0, 8) == manifest_magic() && u32_at(b, 8) == MANIFEST_VERSION
        && u64_at(b, 16) == fnv64(b.subrange(24, b.len() as int)) {
        body_at(b.subrange(24, b.len() as int), u32_at(b, 12))
    } else {
        None
    }
}

} // verus!

verus! {

/// `String::from_utf8`: `Some` exactly when the bytes are valid UTF-8, and then the string
/// holds the characters they encode.
#[verifier::external_body]
fn string_from_utf8(bytes: Vec<u8>) -> (r: Option<String>)
    ensures
        r is Some <==> valid_utf8(bytes@),
        r matches Some(s) ==> s@ == decode_utf8(bytes@),
{
    match String::from_utf8(bytes) {
        Ok(s) => Some(s),
        Err(_) => None,
    }
}

/// Sequential reader over manifest bytes.
struct Cursor<'a> {
    bytes: &'a [u8],
    offset: usize,
}

impl<'a> Cursor<'a> {
    fn new(bytes: &'a [u8]) -> (r: Self)
        ensures
            r.bytes@ == bytes@,
            r.offset == 0,
    {
        Cursor { bytes, offset: 0 }
    }

    /// The next `len` bytes, or `InvalidData` when fewer remain.
    fn read_exact(&mut self, len: usize) -> (r: Result<&'a [u8]>)
        requires
            old(self).offset <= old(self).bytes@.len(),
        ensures
            final(self).bytes@ == old(self).bytes@,
            final(self).offset <= final(self).bytes@.len(),
            old(self).offset + len <= old(self).bytes@.len() ==> (r matches Ok(s) && s@
                == old(self).bytes@.subrange(old(self).offset as int, old(self).offset + len)
                && final(self).offset == old(self).offset + len),
            old(self).offset + len > old(self).bytes@.len() ==> r matches Err(FastKError::InvalidData(_)),
    {
        if len > self.bytes.len() - self.offset {
            return Err(invalid_data("manifest ended unexpectedly"));
        }
        let bytes: &'a [u8] = self.bytes;
        let start = self.offset;
        let end = self.offset + len;
        let slice = &bytes[start..end];
        self.offset = end;
        Ok(slice)
    }

    fn read_u8(&mut self) -> (r: Result<u8>)
        requires
            old(self).offset <= old(self).bytes@.len(),
        ensures
            final(self).bytes@ == old(self).bytes@,
            final(self).offset <= final(self).bytes@.len(),
            old(self).offset + 1 <= old(self).bytes@.len() ==> (r == Ok::<u8, FastKError>(
                old(self).bytes@[old(self).offset as int]) && final(self).offset == old(self).offset + 1),
            old(self).offset + 1 > old(self).bytes@.len() ==> r matches Err(FastKError::InvalidData(_)),
    {
        let s = self.read_exact(1)?;
        Ok(s[0])
    }

    fn read_u16(&mut self) -> (r: Result<u16>)
        requires
            old(self).offset <= old(self).bytes@.len(),
        ensures
            final(self).bytes@ == old(self).bytes@,
            final(self).offset <= final(self).bytes@.len(),
            old(self).offset + 2 <= old(self).bytes@.len() ==> (r == Ok::<u16, FastKError>(
                u16_at(old(self).bytes@, old(self).offset as int)) && final(self).offset == old(self).offset + 2),
            old(self).offset + 2 > old(self).bytes@.len() ==> r matches Err(FastKError::InvalidData(_)),
    {
        let s = self.read_exact(2)?;
        Ok(u16_from_le_bytes(s))
    }

    fn read_u32(&mut self) -> (r: Result<u32>)
        requires
            old(self).offset <= old(self).bytes@.len(),
        ensures
            final(self).bytes@ == old(self).bytes@,
            final(self).offset <= final(self).bytes@.len(),
            old(self).offset + 4 <= old(self).bytes@.len() ==> (r == Ok::<u32, FastKError>(
                u32_at(old(self).bytes@, old(self).offset as int)) && final(self).offset == old(self).offset + 4),
            old(self).offset + 4 > old(self).bytes@.len() ==> r matches Err(FastKError::InvalidData(_)),
    {
        let s = self.read_exact(4)?;
        Ok(u32_from_le_bytes(s))
    }

    fn read_u64(&mut self) -> (r: Result<u64>)
        requires
            old(self).offset <= old(self).bytes@.len(),
        ensures
            final(self).bytes@ == old(self).bytes@,
            final(self).offset <= final(self).bytes@.len(),
            old(self).offset + 8 <= old(self).bytes@.len() ==> (r == Ok::<u64, FastKError>(
                u64_at(old(self).bytes@, old(self).offset as int)) && final(self).offset == old(self).offset + 8),
            old(self).offset + 8 > old(self).bytes@.len() ==> r matches Err(FastKError::InvalidData(_)),
    {
        let s = self.read_exact(8)?;
        Ok(u64_from_le_bytes(s))
    }

    fn read_i64(&mut self) -> (r: Result<i64>)
        requires
            old(self).offset <= old(self).bytes@.len(),
        ensures
            final(self).bytes@ == old(self).bytes@,
            final(self).offset <= final(self).bytes@.len(),
            old(self).offset + 8 <= old(self).bytes@.len() ==> (r == Ok::<i64, FastKError>(
                i64_at(old(self).bytes@, old(self).offset as int)) && final(self).offset == old(self).offset + 8),
            old(self).offset + 8 > old(self).bytes@.len() ==> r matches Err(FastKError::InvalidData(_)),
    {
        let v = self.read_u64()?;
        Ok(v as i64)
    }

    /// A string field: `u16` length, then that many UTF-8 bytes.
    fn read_string(&mut self) -> (r: Result<String>)
        requires
            old(self).offset <= old(self).bytes@.len(),
        ensures
            final(self).bytes@ == old(self).bytes@,
            final(self).offset <= final(self).bytes@.len(),
            match str_at(old(self).bytes@, old(self).offset as int) {
                Some((s, o)) => r matches Ok(x) && x@ == s && final(self).offset == o,
                None => r matches Err(FastKError::InvalidData(_)),
            },
    {
        let len = self.read_u16()? as usize;
        let bytes = self.read_exact(len)?;
        match string_from_utf8(vstd::slice::slice_to_vec(bytes)) {
            Some(s) => Ok(s),
            None => Err(invalid_data("invalid utf8 string")),
        }
    }
}

} // verus!

verus! {

fn read_sidecar(cursor: &mut Cursor) -> (r: Result<SidecarMeta>)
    requires
        old(cursor).offset <= old(cursor).bytes@.len(),
    ensures
        final(cursor).bytes@ == old(cursor).bytes@,
        final(cursor).offset <= final(cursor).bytes@.len(),
        match sidecar_at(old(cursor).bytes@, old(cursor).offset as int) {
            Some((v, o)) => r matches Ok(m) && m@ == v && final(cursor).offset == o,
            None => r matches Err(FastKError::InvalidData(_)),
        },
{
    let kind = cursor.read_string()?;
    let relative_path = cursor.read_string()?;
    let generation = cursor.read_u32()?;
    let checksum = cursor.read_u64()?;
    let block_size = cursor.read_u32()?;
    let record_count = cursor.read_u64()?;
    Ok(SidecarMeta { kind, relative_path, generation, checksum, block_size, record_count })
}

/// Reads one chunk entry, adding the time spent on its fields and on its sidecars to the
/// two counters.
fn read_chunk(cursor: &mut Cursor, chunk_ns: &mut u64, sidecar_ns: &mut u64) -> (r: Result<ChunkMeta>)
    requires
        old(cursor).offset <= old(cursor).bytes@.len(),
    ensures
        final(cursor).bytes@ == old(cursor).bytes@,
        final(cursor).offset <= final(cursor).bytes@.len(),
        match chunk_at(old(cursor).bytes@, old(cursor).offset as int) {
            Some((v, o)) => r matches Ok(m) && m@ == v && final(cursor).offset == o,
            None => r matches Err(FastKError::InvalidData(_)),
        },
{
    let ghost b = cursor.bytes@;
    let ghost off = cursor.offset as int;
    let chunk_started = instant_now();
    let chunk_id = cursor.read_u64()?;
    let month_key = cursor.read_string()?;
    let ghost o1 = cursor.offset as int;
    let start_ts = cursor.read_i64()?;
    let end_ts = cursor.read_i64()?;
    let count = cursor.read_u64()?;
    let state_code = cursor.read_u8()?;
    let state = ChunkState::from_u8(state_code)?;
    let layout_version = cursor.read_u32()?;
    let header_len = cursor.read_u32()?;
    let sparse_index_every = cursor.read_u32()?;
    let sparse_index_offset = cursor.read_u64()?;
    let sparse_index_len = cursor.read_u32()?;
    let chunk_checksum = cursor.read_u64()?;
    let generation = cursor.read_u32()?;
    let relative_path = cursor.read_string()?;
    let ghost o2 = cursor.offset as int;
    let sidecar_count = cursor.read_u32()?;
    let ghost start = cursor.offset as int;
    *chunk_ns = chunk_ns.saturating_add(elapsed_ns(&chunk_started));
    let sidecar_started = instant_now();
    let mut sidecars: Vec<SidecarMeta> = Vec::new();
    let mut k: u32 = 0;
    assert(chunk_at(b, off) is None <==> sidecars_at(b, start, sidecar_count as nat) is None);
    while k < sidecar_count
        invariant
            b == old(cursor).bytes@,
            off == old(cursor).offset,
            chunk_at(b, off) is None <==> sidecars_at(b, start, sidecar_count as nat) is None,
            cursor.bytes@ == b,
            cursor.offset <= b.len(),
            k <= sidecar_count,
            sidecars_at(b, start, k as nat) == Some((sidecar_views(sidecars@), cursor.offset as int)),
        ensures
            k == sidecar_count,
        decreases sidecar_count - k,
    {
        let ghost before = sidecars@;
        let ghost o = cursor.offset as int;
        match read_sidecar(cursor) {
            Ok(s) => {
                sidecars.push(s);
                proof {
                    assert(sidecar_views(sidecars@) =~= sidecar_views(before).push(s@));
                }
            },
            Err(e) => {
                proof {
                    assert(sidecars_at(b, start, (k + 1) as nat) is None);
                    lemma_sidecars_at_none_extends(b, start, (k + 1) as nat, sidecar_count as nat);
                }
                return Err(e);
            },
        }
        k = k + 1;
    }
    *sidecar_ns = sidecar_ns.saturating_add(elapsed_ns(&sidecar_started));
    Ok(
        ChunkMeta {
            chunk_id,
            month_key,
            start_ts,
            end_ts,
            count,
            state,
            layout_version,
            header_len,
            sparse_index_every,
            sparse_index_offset,
            sparse_index_len,
            chunk_checksum,
            generation,
            relative_path,
            sidecars,
        },
    )
}

/// Once `n` sidecars fail to parse, so do `m >= n`.
proof fn lemma_sidecars_at_none_extends(b: Seq<u8>, off: int, n: nat, m: nat)
    requires
        sidecars_at(b, off, n) is None,
        n <= m,
    ensures
        sidecars_at(b, off, m) is None,
    decreases m - n,
{
    if n < m {
        lemma_sidecars_at_none_extends(b, off, n, (m - 1) as nat);
    }
}

/// Once `n` chunks fail to parse, so do `m >= n`.
proof fn lemma_chunks_at_none_extends(b: Seq<u8>, off: int, n: nat, m: nat)
    requires
        chunks_at(b, off, n) is None,
        n <= m,
    ensures
        chunks_at(b, off, m) is None,
    decreases m - n,
{
    if n < m {
        lemma_chunks_at_none_extends(b, off, n, (m - 1) as nat);
    }
}

} // verus!

verus! {

/// Timing and cache information about one manifest load.
#[derive(Debug, Clone, Copy, Default, PartialEq, Eq)]
pub struct ManifestLoadStats {
    pub shared_cache_hit: bool,
    pub file_read_ns: u64,
    pub decode_ns: u64,
    pub chunk_materialize_ns: u64,
    pub sidecar_materialize_ns: u64,
}

/// The manifest magic as bytes.
fn manifest_magic_bytes() -> (r: [u8; 8])
    ensures
        r@ == manifest_magic(),
{
    let r: [u8; 8] = [70u8, 75u8, 77u8, 69u8, 84u8, 65u8, 48u8, 50u8];
    assert(r@ =~= manifest_magic());
    r
}

/// Decodes a manifest, timing the body decode and the chunk and sidecar materialization;
/// the statistics report no cache hit and no file read (the caller times reading).
pub fn decode_manifest_with_stats(bytes: &[u8]) -> (r: Result<(SeriesMeta, ManifestLoadStats)>)
    ensures
        match parse_manifest(bytes@) {
            Some(v) => r matches Ok((m, stats)) && m@ == v && !stats.shared_cache_hit && stats.file_read_ns == 0,
            None => r matches Err(FastKError::InvalidData(_)),
        },
{
    if bytes.len() < MANIFEST_HEADER_LEN {
        return Err(invalid_data("manifest is too short"));
    }
    let magic = manifest_magic_bytes();
    let mut i: usize = 0;
    while i < 8
        invariant
            i <= 8,
            bytes@.len() >= 24,
            magic@ == manifest_magic(),
            forall|j: int| 0 <= j < i ==> bytes@[j] == manifest_magic()[j],
        decreases 8 - i,
    {
        if bytes[i] != magic[i] {
            assert(bytes@.subrange(0, 8)[i as int] != manifest_magic()[i as int]);
            return Err(invalid_data("invalid manifest magic"));
        }
        i = i + 1;
    }
    assert(bytes@.subrange(0, 8) =~= manifest_magic());
    let version = crate::codec::read_u32_at(bytes, 8);
    let flags = crate::codec::read_u32_at(bytes, 12);
    let checksum = crate::codec::read_u64_at(bytes, 16);
    if version != MANIFEST_VERSION {
        return Err(invalid_data("unsupported manifest version"));
    }
    let n = bytes.len();
    let body = &bytes[MANIFEST_HEADER_LEN..n];
    if checksum64(body) != checksum {
        return Err(invalid_data("manifest checksum mismatch"));
    }
    let ghost b = body@;
    assert(b == bytes@.subrange(24, bytes@.len() as int));
    let decode_started = instant_now();
    let mut cursor = Cursor::new(body);
    let record_type = RecordType::from_u32(cursor.read_u32()?)?;
    let record_size = cursor.read_u32()?;
    let schema_id = cursor.read_u32()?;
    let series_id = cursor.read_u64()?;
    let manifest_seq = cursor.read_u64()?;
    let created_at = cursor.read_i64()?;
    let updated_at = cursor.read_i64()?;
    let timeframe_ms = cursor.read_i64()?;
    let price_scale = cursor.read_i64()?;
    let volume_scale = cursor.read_i64()?;
    let chunk_unit = cursor.read_string()?;
    let ghost o1 = cursor.offset as int;
    let active_raw = cursor.read_u64()?;
    let active_chunk_id = if active_raw == 0 {
        None
    } else {
        Some(active_raw)
    };
    let symbol = cursor.read_string()?;
    let category = cursor.read_string()?;
    let name = cursor.read_string()?;
    let chunk_count = cursor.read_u32()?;
    let ghost start = cursor.offset as int;
    let mut chunks: Vec<ChunkMeta> = Vec::new();
    let mut chunk_materialize_ns: u64 = 0;
    let mut sidecar_materialize_ns: u64 = 0;
    let mut k: u32 = 0;
    assert(body_at(b, flags) is None <==> chunks_at(b, start, chunk_count as nat) is None);
    while k < chunk_count
        invariant
            b == body@,
            parse_manifest(bytes@) == body_at(b, flags),
            body_at(b, flags) is None <==> chunks_at(b, start, chunk_count as nat) is None,
            cursor.bytes@ == b,
            cursor.offset <= b.len(),
            k <= chunk_count,
            chunks_at(b, start, k as nat) == Some((chunk_views(chunks@), cursor.offset as int)),
        ensures
            k == chunk_count,
        decreases chunk_count - k,
    {
        let ghost before = chunks@;
        match read_chunk(&mut cursor, &mut chunk_materialize_ns, &mut sidecar_materialize_ns) {
            Ok(c) => {
                chunks.push(c);
                proof {
                    assert(chunk_views(chunks@) =~= chunk_views(before).push(c@));
                }
            },
            Err(e) => {
                proof {
                    assert(chunks_at(b, start, (k + 1) as nat) is None);
                    lemma_chunks_at_none_extends(b, start, (k + 1) as nat, chunk_count as nat);
                }
                return Err(e);
            },
        }
        k = k + 1;
    }
    let meta = SeriesMeta {
        symbol,
        category,
        name,
        timeframe_ms,
        record_type,
        record_size,
        schema_id,
        price_scale,
        volume_scale,
        chunk_unit,
        series_id,
        manifest_seq,
        created_at,
        updated_at,
        flags,
        active_chunk_id,
        chunks,
    };
    let stats = ManifestLoadStats {
        shared_cache_hit: false,
        file_read_ns: 0,
        decode_ns: elapsed_ns(&decode_started),
        chunk_materialize_ns,
        sidecar_materialize_ns,
    };
    Ok((meta, stats))
}

/// Decodes a binary manifest: the series that `parse_manifest` reads from the bytes, or
/// `InvalidData` when they are not a manifest of this layout.
pub fn decode_manifest(bytes: &[u8]) -> (r: Result<SeriesMeta>)
    ensures
        match parse_manifest(bytes@) {
            Some(v) => r matches Ok(m) && m@ == v,
            None => r matches Err(FastKError::InvalidData(_)),
        },
{
    let (meta, _stats) = decode_manifest_with_stats(bytes)?;
    Ok(meta)
}

} // verus!

verus! {

/// The bytes of `b` from `off` on begin with `e`.
pub open spec fn holds_at(b: Seq<u8>, off: int, e: Seq<u8>) -> bool {
    0 <= off && off + e.len() <= b.len() && b.subrange(off, off + e.len()) == e
}

/// Where `b` holds `x + y` at `off`, it holds `x` there and `y` right after.
proof fn lemma_holds_split(b: Seq<u8>, off: int, x: Seq<u8>, y: Seq<u8>)
    requires
        holds_at(b, off, x + y),
    ensures
        holds_at(b, off, x),
        holds_at(b, off + x.len(), y),
{
    let w = b.subrange(off, off + x.len() + y.len());
    assert(w == x + y);
    assert(b.subrange(off, off + x.len()) =~= w.subrange(0, x.len() as int));
    assert(w.subrange(0, x.len() as int) =~= x);
    assert(b.subrange(off + x.len(), off + x.len() + y.len()) =~= w.subrange(x.len() as int, (x.len() + y.len()) as int));
    assert(w.subrange(x.len() as int, (x.len() + y.len()) as int) =~= y);
}

proof fn lemma_u32_held(b: Seq<u8>, off: int, x: u32)
    requires
        holds_at(b, off, spec_u32_to_le_bytes(x)),
    ensures
        u32_at(b, off) == x,
        spec_u32_to_le_bytes(x).len() == 4,
{
    crate::codec::lemma_le_lengths(0, 0, x, 0);
    crate::codec::lemma_u32_at(b, off, x);
}

proof fn lemma_u64_held(b: Seq<u8>, off: int, x: u64)
    requires
        holds_at(b, off, spec_u64_to_le_bytes(x)),
    ensures
        u64_at(b, off) == x,
        spec_u64_to_le_bytes(x).len() == 8,
{
    crate::codec::lemma_le_lengths(x, 0, 0, 0);
    crate::codec::lemma_u64_at(b, off, x);
}

proof fn lemma_i64_held(b: Seq<u8>, off: int, x: i64)
    requires
        holds_at(b, off, i64_le(x)),
    ensures
        i64_at(b, off) == x,
        i64_le(x).len() == 8,
{
    crate::codec::lemma_le_lengths(0, x, 0, 0);
    crate::codec::lemma_i64_at(b, off, x);
}

/// A string field held at `off` reads back as the same characters.
proof fn lemma_str_held(b: Seq<u8>, off: int, s: Seq<char>)
    requires
        holds_at(b, off, str_enc(s)),
        str_fits(s),
    ensures
        str_at(b, off) == Some((s, off + str_enc(s).len())),
        str_enc(s).len() == 2 + encode_utf8(s).len(),
{
    let n = encode_utf8(s).len();
    crate::codec::lemma_le_lengths(0, 0, 0, n as u16);
    lemma_holds_split(b, off, spec_u16_to_le_bytes(n as u16), encode_utf8(s));
    crate::codec::lemma_u16_at(b, off, n as u16);
    encode_utf8_valid_utf8(s);
    encode_utf8_decode_utf8(s);
}

/// A sidecar entry held at `off` reads back as the same entry.
proof fn lemma_sidecar_held(b: Seq<u8>, off: int, v: SidecarView)
    requires
        holds_at(b, off, sidecar_enc(v)),
        sidecar_fits(v),
    ensures
        sidecar_at(b, off) == Some((v, off + sidecar_enc(v).len())),
{
    let k = str_enc(v.kind);
    let p = str_enc(v.relative_path);
    let g = spec_u32_to_le_bytes(v.generation);
    let c = spec_u64_to_le_bytes(v.checksum);
    let bs = spec_u32_to_le_bytes(v.block_size);
    let rc = spec_u64_to_le_bytes(v.record_count);
    lemma_holds_split(b, off, k + p + g + c + bs, rc);
    lemma_holds_split(b, off, k + p + g + c, bs);
    lemma_holds_split(b, off, k + p + g, c);
    lemma_holds_split(b, off, k + p, g);
    lemma_holds_split(b, off, k, p);
    lemma_str_held(b, off, v.kind);
    lemma_str_held(b, off + k.len(), v.relative_path);
    let o2 = off + k.len() + p.len();
    lemma_u32_held(b, o2, v.generation);
    lemma_u64_held(b, o2 + 4, v.checksum);
    lemma_u32_held(b, o2 + 12, v.block_size);
    lemma_u64_held(b, o2 + 16, v.record_count);
}

/// Sidecar entries held one after another at `off` read back as the same list.
proof fn lemma_sidecars_held(b: Seq<u8>, off: int, s: Seq<SidecarView>)
    requires
        holds_at(b, off, sidecars_enc(s)),
        forall|i: int| 0 <= i < s.len() ==> #[trigger] sidecar_fits(s[i]),
    ensures
        sidecars_at(b, off, s.len()) == Some((s, off + sidecars_enc(s).len())),
    decreases s.len(),
{
    if s.len() > 0 {
        let pre = s.drop_last();
        lemma_holds_split(b, off, sidecars_enc(pre), sidecar_enc(s.last()));
        assert forall|i: int| 0 <= i < pre.len() implies #[trigger] sidecar_fits(pre[i]) by {
            assert(pre[i] == s[i]);
        }
        lemma_sidecars_held(b, off, pre);
        assert(sidecar_fits(s[s.len() - 1]));
        lemma_sidecar_held(b, off + sidecars_enc(pre).len(), s.last());
        assert(pre.push(s.last()) =~= s);
    }
}

/// A chunk entry held at `off` reads back as the same entry.
proof fn lemma_chunk_held(b: Seq<u8>, off: int, c: ChunkView)
    requires
        holds_at(b, off, chunk_enc(c)),
        chunk_strings_fit(c),
        c.sidecars.len() <= u32::MAX,
    ensures
        chunk_at(b, off) == Some((c, off + chunk_enc(c).len())),
{
    let p0 = spec_u64_to_le_bytes(c.chunk_id);
    let p1 = str_enc(c.month_key);
    let p2 = i64_le(c.start_ts);
    let p3 = i64_le(c.end_ts);
    let p4 = spec_u64_to_le_bytes(c.count);
    let p5 = seq![c.state.code()];
    let p6 = spec_u32_to_le_bytes(c.layout_version);
    let p7 = spec_u32_to_le_bytes(c.header_len);
    let p8 = spec_u32_to_le_bytes(c.sparse_index_every);
    let p9 = spec_u64_to_le_bytes(c.sparse_index_offset);
    let p10 = spec_u32_to_le_bytes(c.sparse_index_len);
    let p11 = spec_u64_to_le_bytes(c.chunk_checksum);
    let p12 = spec_u32_to_le_bytes(c.generation);
    let p13 = str_enc(c.relative_path);
    let p14 = spec_u32_to_le_bytes(c.sidecars.len() as u32);
    let p15 = sidecars_enc(c.sidecars);
    lemma_holds_split(b, off, p0 + p1 + p2 + p3 + p4 + p5 + p6 + p7 + p8 + p9 + p10 + p11 + p12 + p13 + p14, p15);
    lemma_holds_split(b, off, p0 + p1 + p2 + p3 + p4 + p5 + p6 + p7 + p8 + p9 + p10 + p11 + p12 + p13, p14);
    lemma_holds_split(b, off, p0 + p1 + p2 + p3 + p4 + p5 + p6 + p7 + p8 + p9 + p10 + p11 + p12, p13);
    lemma_holds_split(b, off, p0 + p1 + p2 + p3 + p4 + p5 + p6 + p7 + p8 + p9 + p10 + p11, p12);
    lemma_holds_split(b, off, p0 + p1 + p2 + p3 + p4 + p5 + p6 + p7 + p8 + p9 + p10, p11);
    lemma_holds_split(b, off, p0 + p1 + p2 + p3 + p4 + p5 + p6 + p7 + p8 + p9, p10);
    lemma_holds_split(b, off, p0 + p1 + p2 + p3 + p4 + p5 + p6 + p7 + p8, p9);
    lemma_holds_split(b, off, p0 + p1 + p2 + p3 + p4 + p5 + p6 + p7, p8);
    lemma_holds_split(b, off, p0 + p1 + p2 + p3 + p4 + p5 + p6, p7);
    lemma_holds_split(b, off, p0 + p1 + p2 + p3 + p4 + p5, p6);
    lemma_holds_split(b, off, p0 + p1 + p2 + p3 + p4, p5);
    lemma_holds_split(b, off, p0 + p1 + p2 + p3, p4);
    lemma_holds_split(b, off, p0 + p1 + p2, p3);
    lemma_holds_split(b, off, p0 + p1, p2);
    lemma_holds_split(b, off, p0, p1);
    lemma_u64_held(b, off, c.chunk_id);
    lemma_str_held(b, off + 8, c.month_key);
    let o1 = off + 8 + p1.len();
    lemma_i64_held(b, o1, c.start_ts);
    lemma_i64_held(b, o1 + 8, c.end_ts);
    lemma_u64_held(b, o1 + 16, c.count);
    assert(b[o1 + 24] == b.subrange(o1 + 24, o1 + 25)[0]);
    chunk_state_code_roundtrip(c.state);
    lemma_u32_held(b, o1 + 25, c.layout_version);
    lemma_u32_held(b, o1 + 29, c.header_len);
    lemma_u32_held(b, o1 + 33, c.sparse_index_every);
    lemma_u64_held(b, o1 + 37, c.sparse_index_offset);
    lemma_u32_held(b, o1 + 45, c.sparse_index_len);
    lemma_u64_held(b, o1 + 49, c.chunk_checksum);
    lemma_u32_held(b, o1 + 57, c.generation);
    lemma_str_held(b, o1 + 61, c.relative_path);
    let o2 = o1 + 61 + p13.len();
    lemma_u32_held(b, o2, c.sidecars.len() as u32);
    assert forall|i: int| 0 <= i < c.sidecars.len() implies #[trigger] sidecar_fits(c.sidecars[i]) by {
        assert(chunk_strings_fit(c));
    }
    lemma_sidecars_held(b, o2 + 4, c.sidecars);
}

/// Chunk entries held one after another at `off` read back as the same list.
proof fn lemma_chunks_held(b: Seq<u8>, off: int, s: Seq<ChunkView>)
    requires
        holds_at(b, off, chunks_enc(s)),
        forall|i: int| 0 <= i < s.len() ==> #[trigger] chunk_strings_fit(s[i]),
        forall|i: int| 0 <= i < s.len() ==> #[trigger] s[i].sidecars.len() <= u32::MAX,
    ensures
        chunks_at(b, off, s.len()) == Some((s, off + chunks_enc(s).len())),
    decreases s.len(),
{
    if s.len() > 0 {
        let pre = s.drop_last();
        lemma_holds_split(b, off, chunks_enc(pre), chunk_enc(s.last()));
        assert forall|i: int| 0 <= i < pre.len() implies #[trigger] chunk_strings_fit(pre[i]) by {
            assert(pre[i] == s[i]);
        }
        assert forall|i: int| 0 <= i < pre.len() implies #[trigger] pre[i].sidecars.len() <= u32::MAX by {
            assert(pre[i] == s[i]);
        }
        lemma_chunks_held(b, off, pre);
        assert(chunk_strings_fit(s[s.len() - 1]));
        assert(s[s.len() - 1].sidecars.len() <= u32::MAX);
        lemma_chunk_held(b, off + chunks_enc(pre).len(), s.last());
        assert(pre.push(s.last()) =~= s);
    }
}

/// A manifest body reads back as the series it encodes.
#[verifier::spinoff_prover]
#[verifier::rlimit(40)]
proof fn lemma_body_held(v: SeriesView)
    requires
        representable(v),
    ensures
        body_at(body_enc(v), v.flags) == Some(v),
{
    let b = body_enc(v);
    let active = match v.active_chunk_id {
        Some(id) => id,
        None => 0,
    };
    let p0 = spec_u32_to_le_bytes(v.record_type.code());
    let p1 = spec_u32_to_le_bytes(v.record_size);
    let p2 = spec_u32_to_le_bytes(v.schema_id);
    let p3 = spec_u64_to_le_bytes(v.series_id);
    let p4 = spec_u64_to_le_bytes(v.manifest_seq);
    let p5 = i64_le(v.created_at);
    let p6 = i64_le(v.updated_at);
    let p7 = i64_le(v.timeframe_ms);
    let p8 = i64_le(v.price_scale);
    let p9 = i64_le(v.volume_scale);
    let p10 = str_enc(v.chunk_unit);
    let p11 = spec_u64_to_le_bytes(active);
    let p12 = str_enc(v.symbol);
    let p13 = str_enc(v.category);
    let p14 = str_enc(v.name);
    let p15 = spec_u32_to_le_bytes(v.chunks.len() as u32);
    let p16 = chunks_enc(v.chunks);
    assert(b == p0 + p1 + p2 + p3 + p4 + p5 + p6 + p7 + p8 + p9 + p10 + p11 + p12 + p13 + p14 + p15 + p16);
    assert(holds_at(b, 0, b)) by {
        assert(b.subrange(0, b.len() as int) =~= b);
    }
    lemma_holds_split(b, 0, p0 + p1 + p2 + p3 + p4 + p5 + p6 + p7 + p8 + p9 + p10 + p11 + p12 + p13 + p14 + p15, p16);
    lemma_holds_split(b, 0, p0 + p1 + p2 + p3 + p4 + p5 + p6 + p7 + p8 + p9 + p10 + p11 + p12 + p13 + p14, p15);
    lemma_holds_split(b, 0, p0 + p1 + p2 + p3 + p4 + p5 + p6 + p7 + p8 + p9 + p10 + p11 + p12 + p13, p14);
    lemma_holds_split(b, 0, p0 + p1 + p2 + p3 + p4 + p5 + p6 + p7 + p8 + p9 + p10 + p11 + p12, p13);
    lemma_holds_split(b, 0, p0 + p1 + p2 + p3 + p4 + p5 + p6 + p7 + p8 + p9 + p10 + p11, p12);
    lemma_holds_split(b, 0, p0 + p1 + p2 + p3 + p4 + p5 + p6 + p7 + p8 + p9 + p10, p11);
    lemma_holds_split(b, 0, p0 + p1 + p2 + p3 + p4 + p5 + p6 + p7 + p8 + p9, p10);
    lemma_holds_split(b, 0, p0 + p1 + p2 + p3 + p4 + p5 + p6 + p7 + p8, p9);
    lemma_holds_split(b, 0, p0 + p1 + p2 + p3 + p4 + p5 + p6 + p7, p8);
    lemma_holds_split(b, 0, p0 + p1 + p2 + p3 + p4 + p5 + p6, p7);
    lemma_holds_split(b, 0, p0 + p1 + p2 + p3 + p4 + p5, p6);
    lemma_holds_split(b, 0, p0 + p1 + p2 + p3 + p4, p5);
    lemma_holds_split(b, 0, p0 + p1 + p2 + p3, p4);
    lemma_holds_split(b, 0, p0 + p1 + p2, p3);
    lemma_holds_split(b, 0, p0 + p1, p2);
    lemma_holds_split(b, 0, p0, p1);
    lemma_u32_held(b, 0, v.record_type.code());
    record_type_code_roundtrip(v.record_type);
    lemma_u32_held(b, 4, v.record_size);
    lemma_u32_held(b, 8, v.schema_id);
    lemma_u64_held(b, 12, v.series_id);
    lemma_u64_held(b, 20, v.manifest_seq);
    lemma_i64_held(b, 28, v.created_at);
    lemma_i64_held(b, 36, v.updated_at);
    lemma_i64_held(b, 44, v.timeframe_ms);
    lemma_i64_held(b, 52, v.price_scale);
    lemma_i64_held(b, 60, v.volume_scale);
    lemma_str_held(b, 68, v.chunk_unit);
    let o1: int = 68 + p10.len() as int;
    lemma_u64_held(b, o1, active);
    lemma_str_held(b, o1 + 8, v.symbol);
    let o2: int = o1 + 8 + p12.len();
    lemma_str_held(b, o2, v.category);
    let o3: int = o2 + p13.len();
    lemma_str_held(b, o3, v.name);
    let o4: int = o3 + p14.len();
    lemma_u32_held(b, o4, v.chunks.len() as u32);
    lemma_chunks_held(b, o4 + 4, v.chunks);
}

/// Decoding an encoded manifest gives back the series it was encoded from, for every
/// series the layout can represent.
pub proof fn manifest_roundtrip(v: SeriesView)
    requires
        representable(v),
    ensures
        parse_manifest(manifest_enc(v)) == Some(v),
{
    let body = body_enc(v);
    let m = manifest_enc(v);
    let h0 = manifest_magic();
    let h1 = spec_u32_to_le_bytes(MANIFEST_VERSION);
    let h2 = spec_u32_to_le_bytes(v.flags);
    let h3 = spec_u64_to_le_bytes(fnv64(body));
    assert(m == h0 + h1 + h2 + h3 + body);
    assert(holds_at(m, 0, m)) by {
        assert(m.subrange(0, m.len() as int) =~= m);
    }
    lemma_holds_split(m, 0, h0 + h1 + h2 + h3, body);
    lemma_holds_split(m, 0, h0 + h1 + h2, h3);
    lemma_holds_split(m, 0, h0 + h1, h2);
    lemma_holds_split(m, 0, h0, h1);
    lemma_u32_held(m, 8, MANIFEST_VERSION);
    lemma_u32_held(m, 12, v.flags);
    lemma_u64_held(m, 16, fnv64(body));
    assert(m.subrange(24, m.len() as int) == body);
    lemma_body_held(v);
}

} // verus!

verus! {

/// Appends a string field; `InvalidInput` (and nothing appended) when its UTF-8 bytes do not
/// fit the `u16` length.
fn put_str(out: &mut Vec<u8>, value: &str) -> (r: Result<()>)
    ensures
        str_fits(value@) ==> r is Ok && final(out)@ == old(out)@ + str_enc(value@),
        !str_fits(value@) ==> (r matches Err(FastKError::InvalidInput(_)) && final(out)@ == old(out)@),
{
    let bytes = value.as_bytes();
    if bytes.len() > 0xFFFF {
        return Err(invalid_input("string field too long for manifest"));
    }
    push_u16(out, bytes.len() as u16);
    push_bytes(out, bytes);
    proof {
        assert(old(out)@ + spec_u16_to_le_bytes(bytes@.len() as u16) + bytes@ =~= old(out)@ + str_enc(value@));
    }
    Ok(())
}

fn put_sidecar(out: &mut Vec<u8>, sidecar: &SidecarMeta) -> (r: Result<()>)
    ensures
        sidecar_fits(sidecar@) ==> r is Ok && final(out)@ == old(out)@ + sidecar_enc(sidecar@),
        !sidecar_fits(sidecar@) ==> r matches Err(FastKError::InvalidInput(_)),
{
    let ghost start = out@;
    put_str(out, sidecar.kind.as_str())?;
    put_str(out, sidecar.relative_path.as_str())?;
    push_u32(out, sidecar.generation);
    push_u64(out, sidecar.checksum);
    push_u32(out, sidecar.block_size);
    push_u64(out, sidecar.record_count);
    proof {
        let v = sidecar@;
        assert(out@ =~= start + sidecar_enc(v));
    }
    Ok(())
}

fn put_chunk(out: &mut Vec<u8>, chunk: &ChunkMeta) -> (r: Result<()>)
    ensures
        chunk_strings_fit(chunk@) ==> r is Ok && final(out)@ == old(out)@ + chunk_enc(chunk@),
        !chunk_strings_fit(chunk@) ==> r matches Err(FastKError::InvalidInput(_)),
{
    let ghost v = chunk@;
    let mut enc: Vec<u8> = Vec::new();
    push_u64(&mut enc, chunk.chunk_id);
    assert(enc@ =~= spec_u64_to_le_bytes(v.chunk_id));
    put_str(&mut enc, chunk.month_key.as_str())?;
    push_i64(&mut enc, chunk.start_ts);
    push_i64(&mut enc, chunk.end_ts);
    push_u64(&mut enc, chunk.count);
    let ghost before_state = enc@;
    enc.push(chunk.state.as_u8());
    assert(enc@ == before_state + seq![v.state.code()]);
    push_u32(&mut enc, chunk.layout_version);
    push_u32(&mut enc, chunk.header_len);
    push_u32(&mut enc, chunk.sparse_index_every);
    push_u64(&mut enc, chunk.sparse_index_offset);
    push_u32(&mut enc, chunk.sparse_index_len);
    push_u64(&mut enc, chunk.chunk_checksum);
    push_u32(&mut enc, chunk.generation);
    put_str(&mut enc, chunk.relative_path.as_str())?;
    push_u32(&mut enc, #[verifier::truncate] (chunk.sidecars.len() as u32));
    let ghost prefix = enc@;
    let mut k: usize = 0;
    assert(enc@ == prefix + sidecars_enc(v.sidecars.subrange(0, 0)));
    while k < chunk.sidecars.len()
        invariant
            k <= chunk.sidecars@.len(),
            v == chunk@,
            enc@ == prefix + sidecars_enc(v.sidecars.subrange(0, k as int)),
            forall|i: int| 0 <= i < k ==> #[trigger] sidecar_fits(v.sidecars[i]),
        decreases chunk.sidecars@.len() - k,
    {
        assert(v.sidecars[k as int] == chunk.sidecars@[k as int]@);
        put_sidecar(&mut enc, &chunk.sidecars[k])?;
        proof {
            assert(v.sidecars.subrange(0, k + 1).drop_last() =~= v.sidecars.subrange(0, k as int));
            assert(enc@ =~= prefix + sidecars_enc(v.sidecars.subrange(0, k + 1)));
        }
        k = k + 1;
    }
    proof {
        assert(v.sidecars.subrange(0, k as int) =~= v.sidecars);
    }
    assert(enc@ == chunk_enc(v));
    out.append(&mut enc);
    Ok(())
}

} // verus!

verus! {

/// Encodes a series manifest; the series must pass `validate` and every string must fit its
/// `u16` length field.
pub fn encode_manifest(meta: &SeriesMeta) -> (r: Result<Vec<u8>>)
    ensures
        !meta.valid() ==> r matches Err(FastKError::InvalidData(_)),
        meta.valid() && !strings_fit(meta@) ==> r matches Err(FastKError::InvalidInput(_)),
        meta.valid() && strings_fit(meta@) ==> (r matches Ok(b) && b@ == manifest_enc(meta@)),
{
    meta.validate()?;
    let ghost v = meta@;
    let mut body: Vec<u8> = Vec::new();
    push_u32(&mut body, meta.record_type.as_u32());
    assert(body@ =~= spec_u32_to_le_bytes(v.record_type.code()));
    push_u32(&mut body, meta.record_size);
    push_u32(&mut body, meta.schema_id);
    push_u64(&mut body, meta.series_id);
    push_u64(&mut body, meta.manifest_seq);
    push_i64(&mut body, meta.created_at);
    push_i64(&mut body, meta.updated_at);
    push_i64(&mut body, meta.timeframe_ms);
    push_i64(&mut body, meta.price_scale);
    push_i64(&mut body, meta.volume_scale);
    put_str(&mut body, meta.chunk_unit.as_str())?;
    let active = match meta.active_chunk_id {
        Some(id) => id,
        None => 0,
    };
    push_u64(&mut body, active);
    put_str(&mut body, meta.symbol.as_str())?;
    put_str(&mut body, meta.category.as_str())?;
    put_str(&mut body, meta.name.as_str())?;
    push_u32(&mut body, #[verifier::truncate] (meta.chunks.len() as u32));
    let ghost prefix = body@;
    let mut k: usize = 0;
    assert(body@ == prefix + chunks_enc(v.chunks.subrange(0, 0)));
    while k < meta.chunks.len()
        invariant
            k <= meta.chunks@.len(),
            v == meta@,
            meta.valid(),
            body@ == prefix + chunks_enc(v.chunks.subrange(0, k as int)),
            forall|i: int| 0 <= i < k ==> #[trigger] chunk_strings_fit(v.chunks[i]),
        decreases meta.chunks@.len() - k,
    {
        assert(v.chunks[k as int] == meta.chunks@[k as int]@);
        put_chunk(&mut body, &meta.chunks[k])?;
        proof {
            assert(v.chunks.subrange(0, k + 1).drop_last() =~= v.chunks.subrange(0, k as int));
            assert(body@ =~= prefix + chunks_enc(v.chunks.subrange(0, k + 1)));
        }
        k = k + 1;
    }
    proof {
        assert(v.chunks.subrange(0, k as int) =~= v.chunks);
    }
    assert(body@ == body_enc(v));
    let checksum = checksum64(body.as_slice());
    let magic = manifest_magic_bytes();
    let mut bytes: Vec<u8> = Vec::new();
    push_bytes(&mut bytes, magic.as_slice());
    assert(bytes@ =~= manifest_magic());
    push_u32(&mut bytes, MANIFEST_VERSION);
    push_u32(&mut bytes, meta.flags);
    push_u64(&mut bytes, checksum);
    push_bytes(&mut bytes, body.as_slice());
    Ok(bytes)
}

} // verus!

verus! {

/// Where a chunk starting at `ts` goes in a list sorted by start: after every entry that
/// starts at or before `ts`.
pub open spec fn start_insert_pos(s: Seq<ChunkMeta>, ts: i64) -> int
    decreases s.len(),
{
    if s.len() == 0 || s.last().start_ts <= ts {
        s.len() as int
    } else {
        start_insert_pos(s.drop_last(), ts)
    }
}

/// Stable sort by `start_ts`: entries with equal starts keep their order.
pub open spec fn sort_by_start(s: Seq<ChunkMeta>) -> Seq<ChunkMeta>
    decreases s.len(),
{
    if s.len() == 0 {
        s
    } else {
        let r = sort_by_start(s.drop_last());
        r.insert(start_insert_pos(r, s.last().start_ts), s.last())
    }
}

/// Start timestamps never decrease along the list.
pub open spec fn sorted_by_start(s: Seq<ChunkMeta>) -> bool {
    forall|i: int, j: int| 0 <= i <= j < s.len() ==> s[i].start_ts <= s[j].start_ts
}

proof fn lemma_insert_pos_bounds(s: Seq<ChunkMeta>, ts: i64)
    ensures
        0 <= start_insert_pos(s, ts) <= s.len(),
        forall|j: int| start_insert_pos(s, ts) <= j < s.len() ==> #[trigger] s[j].start_ts > ts,
        sorted_by_start(s) ==> forall|j: int| 0 <= j < start_insert_pos(s, ts) ==> #[trigger] s[j].start_ts <= ts,
    decreases s.len(),
{
    if s.len() > 0 && s.last().start_ts > ts {
        let pre = s.drop_last();
        lemma_insert_pos_bounds(pre, ts);
        assert forall|j: int| start_insert_pos(s, ts) <= j < s.len() implies #[trigger] s[j].start_ts > ts by {
            if j < pre.len() {
                assert(s[j] == pre[j]);
            }
        }
        if sorted_by_start(s) {
            assert(sorted_by_start(pre)) by {
                assert forall|i: int, j: int| 0 <= i <= j < pre.len() implies pre[i].start_ts <= pre[j].start_ts by {
                    assert(pre[i] == s[i] && pre[j] == s[j]);
                }
            }
            assert forall|j: int| 0 <= j < start_insert_pos(s, ts) implies #[trigger] s[j].start_ts <= ts by {
                assert(s[j] == pre[j]);
            }
        }
    } else if s.len() > 0 {
        if sorted_by_start(s) {
            assert forall|j: int| 0 <= j < start_insert_pos(s, ts) implies #[trigger] s[j].start_ts <= ts by {
                assert(s[j].start_ts <= s[s.len() - 1].start_ts);
            }
        }
    }
}

/// The stable sort is sorted by start and holds the same entries.
pub proof fn sort_by_start_sorted_permutation(s: Seq<ChunkMeta>)
    ensures
        sorted_by_start(sort_by_start(s)),
        sort_by_start(s).to_multiset() == s.to_multiset(),
        sort_by_start(s).len() == s.len(),
    decreases s.len(),
{
    broadcast use vstd::seq_lib::to_multiset_insert;
    if s.len() > 0 {
        let pre = s.drop_last();
        sort_by_start_sorted_permutation(pre);
        let r = sort_by_start(pre);
        let x = s.last();
        let p = start_insert_pos(r, x.start_ts);
        lemma_insert_pos_bounds(r, x.start_ts);
        let q = r.insert(p, x);
        assert forall|i: int, j: int| 0 <= i <= j < q.len() implies q[i].start_ts <= q[j].start_ts by {
            if i < p && j < p {
                assert(q[i] == r[i] && q[j] == r[j]);
            } else if i < p && j == p {
                assert(q[i] == r[i]);
            } else if i < p {
                assert(q[i] == r[i] && q[j] == r[j - 1]);
            } else if i == p && j > p {
                assert(q[j] == r[j - 1]);
            } else if i > p {
                assert(q[i] == r[i - 1] && q[j] == r[j - 1]);
            }
        }
        assert(s =~= pre.push(x));
        vstd::seq_lib::lemma_multiset_commutative(pre, seq![x]);
        assert(pre.push(x).to_multiset() == pre.to_multiset().insert(x)) by {
            broadcast use vstd::multiset::group_multiset_axioms;
            vstd::seq_lib::to_multiset_insert(pre, pre.len() as int, x);
            assert(pre.insert(pre.len() as int, x) =~= pre.push(x));
        }
    }
}

/// Sorts chunk entries by start timestamp, keeping the order of entries with equal starts.
pub(crate) fn sort_chunks_by_start(chunks: Vec<ChunkMeta>) -> (r: Vec<ChunkMeta>)
    ensures
        r@ == sort_by_start(chunks@),
{
    let ghost all = chunks@;
    let mut rest = chunks;
    let mut out: Vec<ChunkMeta> = Vec::new();
    let mut k: usize = 0;
    let n = rest.len();
    while rest.len() > 0
        invariant
            k + rest@.len() == all.len(),
            n == all.len(),
            rest@ == all.subrange(k as int, all.len() as int),
            out@ == sort_by_start(all.subrange(0, k as int)),
        decreases rest@.len(),
    {
        let x = rest.remove(0);
        let ghost sorted = out@;
        let mut p = out.len();
        assert(sorted.subrange(0, p as int) =~= sorted);
        while p > 0 && out[p - 1].start_ts > x.start_ts
            invariant
                p <= out@.len(),
                out@ == sorted,
                start_insert_pos(sorted, x.start_ts) == start_insert_pos(sorted.subrange(0, p as int), x.start_ts),
            decreases p,
        {
            proof {
                assert(sorted.subrange(0, p as int).drop_last() =~= sorted.subrange(0, p - 1));
            }
            p = p - 1;
        }
        proof {
            lemma_insert_pos_bounds(sorted.subrange(0, p as int), x.start_ts);
            assert(all.subrange(0, k + 1).drop_last() =~= all.subrange(0, k as int));
            assert(all.subrange(0, k + 1).last() == x);
        }
        out.insert(p, x);
        k = k + 1;
        proof {
            assert(rest@ =~= all.subrange(k as int, all.len() as int));
        }
    }
    assert(all.subrange(0, k as int) =~= all);
    out
}

} // verus!

verus! {

/// `i` is the first index of `s` whose chunk id is `id`.
pub open spec fn first_with_id(s: Seq<ChunkMeta>, id: u64, i: int) -> bool {
    0 <= i < s.len() && s[i].chunk_id == id && forall|j: int| 0 <= j < i ==> #[trigger] s[j].chunk_id != id
}

/// `s` with the first entry of `c`'s chunk id replaced by `c`, or with `c` appended when
/// there is none.
pub open spec fn upserted(s: Seq<ChunkMeta>, c: ChunkMeta) -> Seq<ChunkMeta> {
    if exists|i: int| first_with_id(s, c.chunk_id, i) {
        s.update(choose|i: int| first_with_id(s, c.chunk_id, i), c)
    } else {
        s.push(c)
    }
}

/// The manifest sequence number after an edit: one more, saturating at the maximum.
pub open spec fn next_manifest_seq(x: u64) -> u64 {
    if x < u64::MAX { (x + 1) as u64 } else { x }
}

fn position_of_chunk_id(chunks: &Vec<ChunkMeta>, id: u64) -> (r: Option<usize>)
    ensures
        r matches Some(i) ==> first_with_id(chunks@, id, i as int),
        r is None ==> !exists|i: int| first_with_id(chunks@, id, i),
{
    let mut i: usize = 0;
    while i < chunks.len()
        invariant
            i <= chunks@.len(),
            forall|j: int| 0 <= j < i ==> #[trigger] chunks@[j].chunk_id != id,
        decreases chunks@.len() - i,
    {
        if chunks[i].chunk_id == id {
            return Some(i);
        }
        i = i + 1;
    }
    None
}

/// Inserts or replaces a chunk entry (matched by chunk id), keeps the list sorted by start
/// timestamp, bumps the manifest sequence and stamps the update time; then validates.
pub fn upsert_chunk_meta(meta: &mut SeriesMeta, chunk_meta: ChunkMeta) -> (r: Result<()>)
    ensures
        final(meta).chunks@ == sort_by_start(upserted(old(meta).chunks@, chunk_meta)),
        final(meta).manifest_seq == next_manifest_seq(old(meta).manifest_seq),
        final(meta)@ == (SeriesView {
            chunks: final(meta)@.chunks,
            manifest_seq: final(meta).manifest_seq,
            updated_at: final(meta).updated_at,
            ..old(meta)@
        }),
        r is Ok <==> final(meta).valid(),
        r is Err ==> r matches Err(FastKError::InvalidData(_)),
{
    let pos = position_of_chunk_id(&meta.chunks, chunk_meta.chunk_id);
    let mut chunks: Vec<ChunkMeta> = Vec::new();
    std::mem::swap(&mut chunks, &mut meta.chunks);
    match pos {
        Some(i) => {
            chunks.set(i, chunk_meta);
        },
        None => {
            chunks.push(chunk_meta);
        },
    }
    meta.chunks = sort_chunks_by_start(chunks);
    meta.manifest_seq = meta.manifest_seq.saturating_add(1);
    meta.updated_at = now_timestamp_ms();
    meta.validate()
}

/// Whether a chunk entry belongs to month `key`.
pub open spec fn in_month(key: Seq<char>) -> spec_fn(ChunkMeta) -> bool {
    |c: ChunkMeta| c.month_key@ == key
}

/// The chunk entries of `s` whose month key is `key`, in order.
pub open spec fn chunks_in_month(s: Seq<ChunkMeta>, key: Seq<char>) -> Seq<ChunkMeta> {
    s.filter(in_month(key))
}

/// The chunk entries of `s` whose month key is not `key`, in order.
pub open spec fn chunks_outside_month(s: Seq<ChunkMeta>, key: Seq<char>) -> Seq<ChunkMeta> {
    s.filter(|c: ChunkMeta| c.month_key@ != key)
}

/// Id of the last `Active` chunk of `s`.
pub open spec fn last_active_id(s: Seq<ChunkMeta>) -> Option<u64>
    decreases s.len(),
{
    if s.len() == 0 {
        None
    } else if s.last().state is Active {
        Some(s.last().chunk_id)
    } else {
        last_active_id(s.drop_last())
    }
}

/// Id of the last `Active` chunk of the list.
pub(crate) fn find_last_active_id(chunks: &Vec<ChunkMeta>) -> (r: Option<u64>)
    ensures
        r == last_active_id(chunks@),
{
    let mut j = chunks.len();
    assert(chunks@.subrange(0, j as int) =~= chunks@);
    while j > 0
        invariant
            j <= chunks@.len(),
            last_active_id(chunks@) == last_active_id(chunks@.subrange(0, j as int)),
        decreases j,
    {
        proof {
            assert(chunks@.subrange(0, j as int).drop_last() =~= chunks@.subrange(0, j - 1));
        }
        match chunks[j - 1].state {
            ChunkState::Active => {
                return Some(chunks[j - 1].chunk_id);
            },
            _ => {},
        }
        j = j - 1;
    }
    None
}

/// Replaces every chunk entry of `month_key` by `replacement`: the list stays sorted by
/// start, the active chunk becomes the last `Active` entry, the sequence is bumped and the
/// update time stamped; returns the removed entries, in their order, once the result
/// validates.
pub fn replace_month_chunks(meta: &mut SeriesMeta, month_key: &str, replacement: ChunkMeta) -> (r: Result<Vec<ChunkMeta>>)
    ensures
        final(meta).chunks@ == sort_by_start(chunks_outside_month(old(meta).chunks@, month_key@).push(replacement)),
        final(meta).active_chunk_id == last_active_id(final(meta).chunks@),
        final(meta).manifest_seq == next_manifest_seq(old(meta).manifest_seq),
        final(meta)@ == (SeriesView {
            chunks: final(meta)@.chunks,
            active_chunk_id: final(meta).active_chunk_id,
            manifest_seq: final(meta).manifest_seq,
            updated_at: final(meta).updated_at,
            ..old(meta)@
        }),
        r is Ok <==> final(meta).valid(),
        r matches Ok(v) ==> v@ == chunks_in_month(old(meta).chunks@, month_key@),
        r is Err ==> r matches Err(FastKError::InvalidData(_)),
{
    let ghost all = meta.chunks@;
    let ghost key = month_key@;
    let mut rest: Vec<ChunkMeta> = Vec::new();
    std::mem::swap(&mut rest, &mut meta.chunks);
    let n = rest.len();
    let mut reversed: Vec<ChunkMeta> = Vec::new();
    while rest.len() > 0
        invariant
            n == all.len(),
            rest@.len() + reversed@.len() == n,
            rest@ == all.subrange(0, rest@.len() as int),
            forall|i: int| 0 <= i < reversed@.len() ==> #[trigger] reversed@[i] == all[n - 1 - i],
        decreases rest@.len(),
    {
        let c = rest.pop().unwrap();
        proof {
            assert(c == all[rest@.len() as int]);
            assert(rest@ =~= all.subrange(0, rest@.len() as int));
        }
        reversed.push(c);
    }
    let mut kept: Vec<ChunkMeta> = Vec::new();
    let mut removed: Vec<ChunkMeta> = Vec::new();
    let mut k: usize = 0;
    while reversed.len() > 0
        invariant
            n == all.len(),
            k + reversed@.len() == n,
            forall|i: int| 0 <= i < reversed@.len() ==> #[trigger] reversed@[i] == all[n - 1 - i],
            kept@ == chunks_outside_month(all.subrange(0, k as int), key),
            removed@ == chunks_in_month(all.subrange(0, k as int), key),
            key == month_key@,
        decreases reversed@.len(),
    {
        let ghost before = reversed@;
        let c = reversed.pop().unwrap();
        proof {
            reveal(Seq::filter);
            assert(c == before[before.len() - 1]);
            assert(c == all[k as int]);
            assert(all.subrange(0, k + 1).drop_last() =~= all.subrange(0, k as int));
            assert(all.subrange(0, k + 1).last() == c);
            assert forall|i: int| 0 <= i < reversed@.len() implies #[trigger] reversed@[i] == all[n - 1 - i] by {
                assert(reversed@[i] == before[i]);
            }
        }
        if str_eq(c.month_key.as_str(), month_key) {
            removed.push(c);
        } else {
            kept.push(c);
        }
        k = k + 1;
    }
    assert(all.subrange(0, k as int) =~= all);
    kept.push(replacement);
    meta.chunks = sort_chunks_by_start(kept);
    meta.active_chunk_id = find_last_active_id(&meta.chunks);
    meta.manifest_seq = meta.manifest_seq.saturating_add(1);
    meta.updated_at = now_timestamp_ms();
    meta.validate()?;
    Ok(removed)
}

} // verus!
