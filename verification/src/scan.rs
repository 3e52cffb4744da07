//! What a scan of a series' `chunks` directory makes of the files it finds: chunk entries
//! read from chunk headers, sidecar entries named after their chunk, and the grouping of
//! sidecars under their chunks. Listing the directory and reading the files is the
//! caller's.
use vstd::prelude::*;
use vstd::utf8::*;
use vstd::string::StringSliceAdditionalSpecFns;
use crate::calendar::{month_key, month_key_text};
use crate::codec::{checksum64, fnv64, u64_at};
use crate::derived::lemma_boundary_after_ascii;
use crate::error::{FastKError, Result, invalid_data};
use crate::header::{ChunkHeader, chunk_magic, decode_header_image, header_size_for_version};
use crate::manifest::{sort_by_start, sort_chunks_by_start};
use crate::meta::{ChunkMeta, ChunkState, ChunkView, SidecarMeta, sidecar_views};
use crate::path::{CHUNKS_DIR, chunk_relative_path};
use crate::recovery::{decode_chunk_state, delta_marker, occurs_at};
use crate::strorder::{lex_lt, lemma_lex_order, str_lt};
use crate::text::{owned, str_eq};

verus! {

/// The header `ChunkHeader::read_from` reads from `b`, when it reads one.
pub open spec fn header_of(b: Seq<u8>) -> Option<ChunkHeader> {
    if b.len() < 24 {
        None
    } else {
        let version = u64_at(b, 8) as u32;
        let size = u64_at(b, 16);
        if b.subrange(0, 8) != chunk_magic() || header_size_for_version(version) != Some(size as nat) || b.len() < size {
            None
        } else {
            let h = decode_header_image(b.subrange(0, size as int));
            if h.valid() { Some(h) } else { None }
        }
    }
}

/// The file name holds `.delta.`.
pub open spec fn names_delta(file_name: Seq<char>) -> bool {
    exists|i: int| occurs_at(encode_utf8(file_name), delta_marker(), i)
}

/// The entry a scan makes of a chunk file named `file_name` with header `h`, month key
/// `key` and checksum `checksum`: delta files are `Active`, others `Sealed`; no sidecars yet.
pub open spec fn scanned_chunk(h: ChunkHeader, key: Seq<char>, file_name: Seq<char>, checksum: u64) -> ChunkView {
    ChunkView {
        chunk_id: h.chunk_id,
        month_key: key,
        start_ts: h.start_ts,
        end_ts: h.end_ts,
        count: h.count,
        state: if names_delta(file_name) { ChunkState::Active } else { ChunkState::Sealed },
        layout_version: h.version,
        header_len: h.header_size,
        sparse_index_every: h.sparse_index_every as u32,
        sparse_index_offset: h.index_offset,
        sparse_index_len: h.index_len as u32,
        chunk_checksum: checksum,
        generation: h.generation as u32,
        relative_path: CHUNKS_DIR@ + seq!['/'] + file_name,
        sidecars: Seq::empty(),
    }
}

/// The chunk entry for the chunk file `file_name` whose bytes are `bytes`: its header must
/// read and chrono must place its start.
pub fn chunk_meta_from_file(file_name: &str, bytes: &[u8]) -> (r: Result<ChunkMeta>)
    ensures
        r is Ok <==> (header_of(bytes@) matches Some(h) && month_key_text(h.start_ts) is Some),
        (header_of(bytes@) matches Some(h) && month_key_text(h.start_ts) is None) ==> r matches Err(FastKError::InvalidInput(_)),
        r matches Ok(c) ==> c@ == scanned_chunk(
            header_of(bytes@)->Some_0,
            month_key_text(header_of(bytes@)->Some_0.start_ts)->Some_0,
            file_name@,
            fnv64(bytes@),
        ),
{
    let header = ChunkHeader::read_from(bytes)?;
    let key = month_key(header.start_ts)?;
    let state = decode_chunk_state(file_name);
    let c = ChunkMeta {
        chunk_id: header.chunk_id,
        month_key: key,
        start_ts: header.start_ts,
        end_ts: header.end_ts,
        count: header.count,
        state,
        layout_version: header.version,
        header_len: header.header_size,
        sparse_index_every: #[verifier::truncate] (header.sparse_index_every as u32),
        sparse_index_offset: header.index_offset,
        sparse_index_len: #[verifier::truncate] (header.index_len as u32),
        chunk_checksum: checksum64(bytes),
        generation: #[verifier::truncate] (header.generation as u32),
        relative_path: chunk_relative_path(file_name),
        sidecars: Vec::new(),
    };
    proof {
        assert(sidecar_views(Seq::<SidecarMeta>::empty()) =~= Seq::<crate::meta::SidecarView>::empty());
    }
    Ok(c)
}

/// `b` ends with the bytes of `suffix`.
pub open spec fn ends_with_bytes(b: Seq<u8>, suffix: Seq<u8>) -> bool {
    b.len() >= suffix.len() && b.subrange(b.len() - suffix.len(), b.len() as int) == suffix
}

/// The bytes of `.chunk`.
pub open spec fn chunk_suffix() -> Seq<u8> {
    seq![46u8, 99u8, 104u8, 117u8, 110u8, 107u8]
}

/// The bytes of `.chunk.`.
pub open spec fn chunk_infix() -> Seq<u8> {
    seq![46u8, 99u8, 104u8, 117u8, 110u8, 107u8, 46u8]
}

fn bytes_end_with(b: &[u8], suffix: &[u8]) -> (r: bool)
    ensures
        r == ends_with_bytes(b@, suffix@),
{
    if b.len() < suffix.len() {
        return false;
    }
    let off = b.len() - suffix.len();
    let mut i: usize = 0;
    while i < suffix.len()
        invariant
            i <= suffix@.len(),
            off + suffix@.len() == b@.len(),
            b@.len() == b.len(),
            forall|j: int| 0 <= j < i ==> b@[off + j] == suffix@[j],
        decreases suffix@.len() - i,
    {
        if b[off + i] != suffix[i] {
            assert(b@.subrange(off as int, b@.len() as int)[i as int] != suffix@[i as int]);
            return false;
        }
        i = i + 1;
    }
    assert(b@.subrange(off as int, b@.len() as int) =~= suffix@);
    true
}

fn bytes_contain(b: &[u8], pat: &[u8]) -> (r: bool)
    ensures
        r == exists|i: int| occurs_at(b@, pat@, i),
{
    let n = b.len();
    let m = pat.len();
    if n < m {
        return false;
    }
    let mut i: usize = 0;
    while i <= n - m
        invariant
            n == b@.len(),
            m == pat@.len(),
            m <= n,
            i <= n - m + 1,
            forall|q: int| 0 <= q < i ==> !occurs_at(b@, pat@, q),
        decreases n - m + 1 - i,
    {
        let mut k: usize = 0;
        while k < m && b[i + k] == pat[k]
            invariant
                k <= m,
                i + m <= n,
                n == b@.len(),
                m == pat@.len(),
                forall|j: int| 0 <= j < k ==> b@[i + j] == pat@[j],
            decreases m - k,
        {
            k = k + 1;
        }
        if k == m {
            assert(b@.subrange(i as int, i + m) =~= pat@);
            assert(occurs_at(b@, pat@, i as int));
            return true;
        }
        assert(!occurs_at(b@, pat@, i as int)) by {
            assert(b@.subrange(i as int, i + m)[k as int] != pat@[k as int]);
        }
        i = i + 1;
    }
    proof {
        assert forall|q: int| occurs_at(b@, pat@, q) implies false by {
            assert(q < i);
        }
    }
    false
}

/// What a file in a `chunks` directory is, by its name.
#[derive(Debug, Clone, Copy, PartialEq, Eq)]
pub enum ChunkDirEntry {
    /// A chunk file: the name ends with `.chunk`.
    Chunk,
    /// A sidecar file: the name holds `.chunk.` and does not end with `.chunk`.
    Sidecar,
    /// Anything else.
    Other,
}

/// Classifies a file of a `chunks` directory by its name.
pub fn classify_chunk_dir_entry(file_name: &str) -> (r: ChunkDirEntry)
    ensures
        ends_with_bytes(encode_utf8(file_name@), chunk_suffix()) ==> r is Chunk,
        !ends_with_bytes(encode_utf8(file_name@), chunk_suffix())
            && (exists|i: int| occurs_at(encode_utf8(file_name@), chunk_infix(), i)) ==> r is Sidecar,
        !ends_with_bytes(encode_utf8(file_name@), chunk_suffix())
            && !(exists|i: int| occurs_at(encode_utf8(file_name@), chunk_infix(), i)) ==> r is Other,
{
    let b = file_name.as_bytes();
    let suffix: [u8; 6] = [46u8, 99u8, 104u8, 117u8, 110u8, 107u8];
    let infix: [u8; 7] = [46u8, 99u8, 104u8, 117u8, 110u8, 107u8, 46u8];
    assert(suffix@ =~= chunk_suffix());
    assert(infix@ =~= chunk_infix());
    if bytes_end_with(b, suffix.as_slice()) {
        ChunkDirEntry::Chunk
    } else if bytes_contain(b, infix.as_slice()) {
        ChunkDirEntry::Sidecar
    } else {
        ChunkDirEntry::Other
    }
}

/// Position of the last `.` byte of `b`.
pub open spec fn last_dot(b: Seq<u8>) -> Option<int>
    decreases b.len(),
{
    if b.len() == 0 {
        None
    } else if b.last() == 46 {
        Some(b.len() - 1)
    } else {
        last_dot(b.drop_last())
    }
}

proof fn lemma_last_dot(b: Seq<u8>)
    ensures
        last_dot(b) matches Some(i) ==> 0 <= i < b.len() && b[i] == 46 && forall|j: int| i < j < b.len() ==> b[j] != 46,
        last_dot(b) is None ==> forall|j: int| 0 <= j < b.len() ==> b[j] != 46,
    decreases b.len(),
{
    if b.len() > 0 {
        lemma_last_dot(b.drop_last());
        if b.last() != 46 {
            assert forall|j: int| 0 <= j < b.len() - 1 implies b[j] == b.drop_last()[j] by {}
        }
    }
}

fn find_last_dot(b: &[u8]) -> (r: Option<usize>)
    ensures
        r matches Some(i) ==> last_dot(b@) == Some(i as int),
        r is None ==> last_dot(b@) is None,
{
    let mut j = b.len();
    assert(b@.subrange(0, j as int) =~= b@);
    while j > 0
        invariant
            j <= b@.len(),
            last_dot(b@) == last_dot(b@.subrange(0, j as int)),
        decreases j,
    {
        proof {
            assert(b@.subrange(0, j as int).drop_last() =~= b@.subrange(0, j - 1));
        }
        if b[j - 1] == 46 {
            return Some(j - 1);
        }
        j = j - 1;
    }
    None
}

/// The text after the last `.` of a name (the whole name when it has none), as bytes.
pub open spec fn extension_bytes(b: Seq<u8>) -> Seq<u8> {
    match last_dot(b) {
        Some(i) => b.subrange(i + 1, b.len() as int),
        None => b,
    }
}

/// Splits `s` around the `.` at byte `i`.
fn split_at_dot(s: &str, i: usize) -> (r: (&str, &str))
    requires
        i < encode_utf8(s@).len(),
        encode_utf8(s@)[i as int] == 46,
    ensures
        encode_utf8(r.0@) == encode_utf8(s@).subrange(0, i as int),
        encode_utf8(r.1@) == encode_utf8(s@).subrange(i + 1, encode_utf8(s@).len() as int),
{
    let ghost b = encode_utf8(s@);
    proof {
        encode_utf8_valid_utf8(s@);
        is_char_boundary_iff_not_is_continuation_byte(b, i as int);
    }
    let (head, rest) = s.split_at(i);
    let ghost rb = rest.spec_bytes();
    proof {
        assert(rb =~= b.subrange(i as int, b.len() as int));
        encode_utf8_valid_utf8(rest@);
        reveal_with_fuel(is_char_boundary, 2);
        assert(is_char_boundary(rb, 0));
        lemma_boundary_after_ascii(rb, 0);
    }
    let (_dot, tail) = rest.split_at(1);
    proof {
        assert(tail.spec_bytes() =~= b.subrange(i + 1, b.len() as int));
        encode_utf8_decode_utf8(head@);
        encode_utf8_decode_utf8(tail@);
    }
    (head, tail)
}

/// The kind of a sidecar file: the text after the last `.` of its name.
pub fn sidecar_kind_of(file_name: &str) -> (r: String)
    ensures
        encode_utf8(r@) == extension_bytes(encode_utf8(file_name@)),
{
    let b = file_name.as_bytes();
    match find_last_dot(b) {
        Some(i) => {
            proof {
                lemma_last_dot(b@);
            }
            let (_head, tail) = split_at_dot(file_name, i);
            owned(tail)
        },
        None => owned(file_name),
    }
}

/// Number of entries of a sidecar of `kind` holding `byte_len` bytes: whole 40-byte zone-map
/// entries, whole 16-byte value-index entries, 0 for other kinds.
pub fn sidecar_record_count(kind: &str, byte_len: usize) -> (r: u64)
    ensures
        kind@ == "zmap"@ ==> r == byte_len / 40,
        kind@ == "vix"@ ==> r == byte_len / 16,
        kind@ != "zmap"@ && kind@ != "vix"@ ==> r == 0,
{
    proof {
        reveal_strlit("zmap");
        reveal_strlit("vix");
        assert("vix"@.len() != "zmap"@.len());
    }
    if str_eq(kind, "zmap") {
        (byte_len / 40) as u64
    } else if str_eq(kind, "vix") {
        (byte_len / 16) as u64
    } else {
        0
    }
}

/// The entry a scan makes of the sidecar file `file_name` whose bytes are `bytes`: kind from
/// the name, checksum and entry count from the bytes; generation and block size unknown (0).
pub fn sidecar_meta_from_file(file_name: &str, bytes: &[u8]) -> (r: SidecarMeta)
    ensures
        encode_utf8(r.kind@) == extension_bytes(encode_utf8(file_name@)),
        r.relative_path@ == CHUNKS_DIR@ + seq!['/'] + file_name@,
        r.generation == 0,
        r.checksum == fnv64(bytes@),
        r.block_size == 0,
        r.kind@ == "zmap"@ ==> r.record_count == bytes@.len() / 40,
        r.kind@ == "vix"@ ==> r.record_count == bytes@.len() / 16,
        r.kind@ != "zmap"@ && r.kind@ != "vix"@ ==> r.record_count == 0,
{
    let kind = sidecar_kind_of(file_name);
    let record_count = sidecar_record_count(kind.as_str(), bytes.len());
    SidecarMeta {
        kind,
        relative_path: chunk_relative_path(file_name),
        generation: 0,
        checksum: checksum64(bytes),
        block_size: 0,
        record_count,
    }
}

/// The chunk path a sidecar path belongs to: the path up to its last `.`, which must end
/// with `.chunk`; `InvalidData` otherwise.
pub fn parent_chunk_relative_path(sidecar_relative_path: &str) -> (r: Result<String>)
    ensures
        ({
            let b = encode_utf8(sidecar_relative_path@);
            match last_dot(b) {
                Some(i) => if ends_with_bytes(b.subrange(0, i), chunk_suffix()) {
                    r matches Ok(s) && encode_utf8(s@) == b.subrange(0, i)
                } else {
                    r matches Err(FastKError::InvalidData(_))
                },
                None => r matches Err(FastKError::InvalidData(_)),
            }
        }),
{
    let b = sidecar_relative_path.as_bytes();
    let i = match find_last_dot(b) {
        Some(i) => i,
        None => {
            return Err(invalid_data("invalid sidecar relative path"));
        },
    };
    proof {
        lemma_last_dot(b@);
    }
    let (head, _tail) = split_at_dot(sidecar_relative_path, i);
    let suffix: [u8; 6] = [46u8, 99u8, 104u8, 117u8, 110u8, 107u8];
    assert(suffix@ =~= chunk_suffix());
    if !bytes_end_with(head.as_bytes(), suffix.as_slice()) {
        return Err(invalid_data("sidecar path does not resolve to a chunk"));
    }
    Ok(owned(head))
}

/// Sidecar entries sorted by path bytes: no later path sorts strictly before an earlier one.
pub open spec fn sidecars_sorted(s: Seq<SidecarMeta>) -> bool {
    forall|i: int, j: int| 0 <= i < j < s.len()
        ==> !lex_lt(encode_utf8(s[j].relative_path@), encode_utf8(s[i].relative_path@))
}

/// Sorts sidecar entries by path; the result holds the same entries.
pub fn sort_sidecars_by_path(v: Vec<SidecarMeta>) -> (r: Vec<SidecarMeta>)
    ensures
        sidecars_sorted(r@),
        sidecar_views(r@).to_multiset() == sidecar_views(v@).to_multiset(),
{
    broadcast use vstd::seq_lib::to_multiset_insert;
    let ghost all = sidecar_views(v@);
    let mut rest = v;
    let mut out: Vec<SidecarMeta> = Vec::new();
    let mut k: usize = 0;
    let n = rest.len();
    assert(sidecar_views(out@) =~= Seq::<crate::meta::SidecarView>::empty());
    assert(all.subrange(0, 0) =~= Seq::<crate::meta::SidecarView>::empty());
    assert(all.subrange(0, all.len() as int) =~= all);
    while rest.len() > 0
        invariant
            n == all.len(),
            k + rest@.len() == all.len(),
            sidecar_views(rest@) == all.subrange(k as int, all.len() as int),
            sidecars_sorted(out@),
            sidecar_views(out@).to_multiset() == all.subrange(0, k as int).to_multiset(),
        decreases rest@.len(),
    {
        let ghost before_rest = rest@;
        let x = rest.remove(0);
        assert(x@ == all[k as int]) by {
            assert(sidecar_views(before_rest)[0] == x@);
        }
        assert(sidecar_views(rest@) =~= all.subrange(k + 1, all.len() as int)) by {
            assert forall|i: int| 0 <= i < rest@.len() implies sidecar_views(rest@)[i] == all[k + 1 + i] by {
                assert(rest@[i] == before_rest[i + 1]);
                assert(sidecar_views(before_rest)[i + 1] == all[k + 1 + i]);
            }
        }
        let mut p = out.len();
        while p > 0 && str_lt(x.relative_path.as_str(), out[p - 1].relative_path.as_str())
            invariant
                p <= out@.len(),
                forall|j: int| p <= j < out@.len() ==> lex_lt(encode_utf8(x.relative_path@), encode_utf8(#[trigger] out@[j].relative_path@)),
            decreases p,
        {
            p = p - 1;
        }
        let ghost before = out@;
        out.insert(p, x);
        proof {
            let ov = out@;
            assert(ov =~= before.insert(p as int, x));
            assert forall|i: int, j: int| 0 <= i < j < ov.len() implies !lex_lt(encode_utf8(ov[j].relative_path@), encode_utf8(ov[i].relative_path@)) by {
                let xp = encode_utf8(x.relative_path@);
                if i < p && j < p {
                    assert(ov[i] == before[i] && ov[j] == before[j]);
                } else if i < p && j == p {
                    assert(ov[i] == before[i]);
                    if p > 0 {
                        let bp = encode_utf8(before[p - 1].relative_path@);
                        let bi = encode_utf8(before[i].relative_path@);
                        assert(!lex_lt(xp, bp));
                        lemma_lex_order(bi, bp, xp);
                        lemma_lex_order(xp, bp, bi);
                        lemma_lex_order(xp, bi, bp);
                    }
                } else if i < p {
                    assert(ov[i] == before[i] && ov[j] == before[j - 1]);
                } else if i == p {
                    assert(ov[j] == before[j - 1]);
                    let bj = encode_utf8(before[j - 1].relative_path@);
                    assert(lex_lt(xp, bj));
                    lemma_lex_order(xp, bj, xp);
                } else {
                    assert(ov[i] == before[i - 1] && ov[j] == before[j - 1]);
                }
            }
            let bv = sidecar_views(before);
            assert(sidecar_views(ov) =~= bv.insert(p as int, x@));
            vstd::seq_lib::to_multiset_insert(bv, p as int, x@);
            assert(all.subrange(0, k + 1) =~= all.subrange(0, k as int).push(x@));
            vstd::seq_lib::to_multiset_insert(all.subrange(0, k as int), k as int, x@);
            assert(all.subrange(0, k as int).insert(k as int, x@) =~= all.subrange(0, k as int).push(x@));
        }
        k = k + 1;
    }
    assert(all.subrange(0, k as int) =~= all);
    out
}

/// The chunk path, as bytes, that a sidecar path belongs to, when it names one.
pub open spec fn parent_path(sidecar_relative_path: Seq<char>) -> Option<Seq<u8>> {
    let b = encode_utf8(sidecar_relative_path);
    match last_dot(b) {
        Some(i) => if ends_with_bytes(b.subrange(0, i), chunk_suffix()) { Some(b.subrange(0, i)) } else { None },
        None => None,
    }
}

/// A sidecar belongs to the chunk at path `chunk_path`.
pub open spec fn belongs_to(chunk_path: Seq<char>) -> spec_fn(SidecarMeta) -> bool {
    |s: SidecarMeta| parent_path(s.relative_path@) == Some(encode_utf8(chunk_path))
}

/// The chunk entries of a scan, sorted by start, each holding the sidecars that belong to
/// it sorted by path. `InvalidData` when a sidecar path names no chunk.
pub fn attach_sidecars(chunks: Vec<ChunkMeta>, sidecars: Vec<SidecarMeta>) -> (r: Result<Vec<ChunkMeta>>)
    ensures
        r is Ok <==> forall|j: int| 0 <= j < sidecars@.len() ==> (#[trigger] parent_path(sidecars@[j].relative_path@)) is Some,
        r is Err ==> r matches Err(FastKError::InvalidData(_)),
        r matches Ok(v) ==> v@.len() == chunks@.len() && forall|i: int| 0 <= i < v@.len() ==> {
            let c = sort_by_start(chunks@)[i];
            &&& (#[trigger] v@[i])@ == ChunkView { sidecars: v@[i]@.sidecars, ..c@ }
            &&& sidecars_sorted(v@[i].sidecars@)
            &&& sidecar_views(v@[i].sidecars@).to_multiset()
                == sidecar_views(sidecars@.filter(belongs_to(c.relative_path@))).to_multiset()
        },
{
    let mut parents: Vec<String> = Vec::new();
    let mut j: usize = 0;
    while j < sidecars.len()
        invariant
            j <= sidecars@.len(),
            parents@.len() == j,
            forall|q: int| 0 <= q < j ==> (#[trigger] parent_path(sidecars@[q].relative_path@)) == Some(encode_utf8(parents@[q]@)),
        decreases sidecars@.len() - j,
    {
        match parent_chunk_relative_path(sidecars[j].relative_path.as_str()) {
            Ok(p) => {
                parents.push(p);
            },
            Err(e) => {
                assert(parent_path(sidecars@[j as int].relative_path@) is None);
                return Err(e);
            },
        }
        j = j + 1;
    }
    let sorted = sort_chunks_by_start(chunks);
    let ghost s = sorted@;
    let mut rest = sorted;
    let mut out: Vec<ChunkMeta> = Vec::new();
    let mut k: usize = 0;
    let n = rest.len();
    while rest.len() > 0
        invariant
            n == s.len(),
            s == sort_by_start(chunks@),
            k + rest@.len() == n,
            rest@ == s.subrange(k as int, n as int),
            out@.len() == k,
            parents@.len() == sidecars@.len(),
            forall|q: int| 0 <= q < sidecars@.len() ==> (#[trigger] parent_path(sidecars@[q].relative_path@)) == Some(encode_utf8(parents@[q]@)),
            forall|i: int| 0 <= i < k ==> {
                &&& (#[trigger] out@[i])@ == ChunkView { sidecars: out@[i]@.sidecars, ..s[i]@ }
                &&& sidecars_sorted(out@[i].sidecars@)
                &&& sidecar_views(out@[i].sidecars@).to_multiset()
                    == sidecar_views(sidecars@.filter(belongs_to(s[i].relative_path@))).to_multiset()
            },
        decreases rest@.len(),
    {
        let mut c = rest.remove(0);
        proof {
            assert(c == s[k as int]);
        }
        let ghost f = belongs_to(c.relative_path@);
        let mut mine: Vec<SidecarMeta> = Vec::new();
        let mut q: usize = 0;
        while q < sidecars.len()
            invariant
                q <= sidecars@.len(),
                parents@.len() == sidecars@.len(),
                f == belongs_to(c.relative_path@),
                forall|t: int| 0 <= t < sidecars@.len() ==> (#[trigger] parent_path(sidecars@[t].relative_path@)) == Some(encode_utf8(parents@[t]@)),
                sidecar_views(mine@) == sidecar_views(sidecars@.subrange(0, q as int).filter(f)),
            decreases sidecars@.len() - q,
        {
            let ghost pre = sidecars@.subrange(0, q as int);
            let ghost next = sidecars@.subrange(0, q + 1);
            proof {
                reveal(Seq::filter);
                assert(next.drop_last() =~= pre);
                assert(next.last() == sidecars@[q as int]);
            }
            let is_mine = str_eq(parents[q].as_str(), c.relative_path.as_str());
            proof {
                assert(parent_path(sidecars@[q as int].relative_path@) == Some(encode_utf8(parents@[q as int]@)));
                if is_mine {
                    assert(f(sidecars@[q as int]));
                } else {
                    assert(!f(sidecars@[q as int])) by {
                        if f(sidecars@[q as int]) {
                            encode_utf8_decode_utf8(parents@[q as int]@);
                            encode_utf8_decode_utf8(c.relative_path@);
                        }
                    }
                }
            }
            if is_mine {
                let ghost before = mine@;
                mine.push(sidecars[q].duplicate());
                proof {
                    assert(next.filter(f) == pre.filter(f).push(sidecars@[q as int]));
                    assert(sidecar_views(mine@) =~= sidecar_views(before).push(sidecars@[q as int]@));
                    assert(sidecar_views(next.filter(f)) =~= sidecar_views(pre.filter(f)).push(sidecars@[q as int]@));
                }
            } else {
                proof {
                    assert(next.filter(f) == pre.filter(f));
                }
            }
            q = q + 1;
        }
        assert(sidecars@.subrange(0, q as int) =~= sidecars@);
        let ghost c0 = c@;
        c.sidecars = sort_sidecars_by_path(mine);
        let ghost before_out = out@;
        out.push(c);
        proof {
            assert(out@[k as int]@ == ChunkView { sidecars: out@[k as int]@.sidecars, ..s[k as int]@ });
            assert forall|i: int| 0 <= i < k + 1 implies {
                &&& (#[trigger] out@[i])@ == ChunkView { sidecars: out@[i]@.sidecars, ..s[i]@ }
                &&& sidecars_sorted(out@[i].sidecars@)
                &&& sidecar_views(out@[i].sidecars@).to_multiset()
                    == sidecar_views(sidecars@.filter(belongs_to(s[i].relative_path@))).to_multiset()
            } by {
                if i < k {
                    assert(out@[i] == before_out[i]);
                }
            }
        }
        k = k + 1;
        proof {
            assert(rest@ =~= s.subrange(k as int, n as int));
        }
    }
    proof {
        crate::manifest::sort_by_start_sorted_permutation(chunks@);
    }
    Ok(out)
}

} // verus!
