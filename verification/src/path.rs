//! Store layout: where series, manifests, chunks and sidecars live, as `/`-separated paths.
//!
//! Paths are strings; joining follows the Unix rules (an absolute part replaces the base, an
//! empty base gives the part, no doubled separator after a trailing `/`).
use vstd::prelude::*;
use vstd::utf8::*;
use vstd::string::StringSliceAdditionalSpecFns;
use crate::derived::{lemma_boundary_after_ascii, lemma_encode_utf8_concat};
use crate::calendar::{month_key, month_key_text, pad_decimal, zero_padded};
use crate::error::{FastKError, Result};
use crate::text::{concat3, owned};

verus! {

pub const SERIES_DIR: &'static str = "series";
pub const KLINE_CATEGORY: &'static str = "kline";
pub const TRADE_CATEGORY: &'static str = "trade";
pub const BBO_CATEGORY: &'static str = "bbo";
pub const BOOK_DELTA_CATEGORY: &'static str = "book_delta";
pub const CHUNKS_DIR: &'static str = "chunks";
pub const MANIFEST_FILE: &'static str = "series.meta";

/// The byte of `/`.
pub open spec fn slash() -> u8 {
    47u8
}

/// The byte of `\`.
pub open spec fn backslash() -> u8 {
    92u8
}

/// Bytes of `base` joined with `part`.
pub open spec fn join_bytes(base: Seq<u8>, part: Seq<u8>) -> Seq<u8> {
    if part.len() > 0 && part[0] == slash() {
        part
    } else if base.len() == 0 {
        part
    } else if base.last() == slash() {
        base + part
    } else {
        base + seq![slash()] + part
    }
}

/// The string's UTF-8 bytes.
pub open spec fn bytes_of(s: Seq<char>) -> Seq<u8> {
    encode_utf8(s)
}

/// Joins `part` onto `base`.
pub fn join(base: &str, part: &str) -> (r: String)
    ensures
        bytes_of(r@) == join_bytes(bytes_of(base@), bytes_of(part@)),
{
    let b = base.as_bytes();
    let p = part.as_bytes();
    if p.len() > 0 && p[0] == 47 {
        return owned(part);
    }
    if b.len() == 0 {
        return owned(part);
    }
    proof {
        reveal_strlit("/");
        reveal_strlit("");
        assert(encode_utf8(seq!['/']) =~= seq![47u8]) by {
            let c: u32 = '/' as u32;
            assert((c & 0x7F) as u8 == 47u8) by (bit_vector)
                requires
                    c == 47,
            ;
            reveal_with_fuel(encode_utf8, 2);
            assert(seq!['/'].drop_first() =~= Seq::<char>::empty());
        }
        assert(encode_utf8(Seq::<char>::empty()) =~= Seq::<u8>::empty());
    }
    let sep = if b[b.len() - 1] == 47 {
        ""
    } else {
        "/"
    };
    let r = concat3(base, sep, part);
    proof {
        lemma_encode_utf8_concat(base@, sep@);
        lemma_encode_utf8_concat(base@ + sep@, part@);
        if b@.last() == 47 {
            assert(sep@ =~= Seq::<char>::empty());
            assert(bytes_of(base@) + Seq::<u8>::empty() =~= bytes_of(base@));
        } else {
            assert(sep@ =~= seq!['/']);
        }
    }
    r
}

/// Returns the root directory for all series.
pub fn series_root(root: &str) -> (r: String)
    ensures
        bytes_of(r@) == join_bytes(bytes_of(root@), bytes_of(SERIES_DIR@)),
{
    join(root, SERIES_DIR)
}

/// Bytes of the directory of series `(symbol, category, name)` under `root`.
pub open spec fn series_dir_bytes(root: Seq<u8>, symbol: Seq<u8>, category: Seq<u8>, name: Seq<u8>) -> Seq<u8> {
    join_bytes(join_bytes(join_bytes(join_bytes(root, bytes_of(SERIES_DIR@)), symbol), category), name)
}

/// Returns the generic directory for a specific series.
pub fn series_dir(root: &str, symbol: &str, category: &str, name: &str) -> (r: String)
    ensures
        bytes_of(r@) == series_dir_bytes(bytes_of(root@), bytes_of(symbol@), bytes_of(category@), bytes_of(name@)),
{
    let a = series_root(root);
    let b = join(a.as_str(), symbol);
    let c = join(b.as_str(), category);
    join(c.as_str(), name)
}

/// Returns the directory for a specific kline series.
pub fn kline_series_dir(root: &str, symbol: &str, timeframe: &str) -> (r: String)
    ensures
        bytes_of(r@) == series_dir_bytes(bytes_of(root@), bytes_of(symbol@), bytes_of(KLINE_CATEGORY@), bytes_of(timeframe@)),
{
    series_dir(root, symbol, KLINE_CATEGORY, timeframe)
}

/// Returns the directory for a scalar series.
pub fn scalar_series_dir(root: &str, symbol: &str, category: &str, name: &str) -> (r: String)
    ensures
        bytes_of(r@) == series_dir_bytes(bytes_of(root@), bytes_of(symbol@), bytes_of(category@), bytes_of(name@)),
{
    series_dir(root, symbol, category, name)
}

/// Returns the chunk directory for a series directory.
pub fn chunks_dir(series_dir: &str) -> (r: String)
    ensures
        bytes_of(r@) == join_bytes(bytes_of(series_dir@), bytes_of(CHUNKS_DIR@)),
{
    join(series_dir, CHUNKS_DIR)
}

/// Returns the manifest path for a series directory.
pub fn series_meta_path(series_dir: &str) -> (r: String)
    ensures
        bytes_of(r@) == join_bytes(bytes_of(series_dir@), bytes_of(MANIFEST_FILE@)),
{
    join(series_dir, MANIFEST_FILE)
}

/// Builds the relative path, under a series directory, of a chunk file: `chunks/<file_name>`.
pub fn chunk_relative_path(file_name: &str) -> (r: String)
    ensures
        r@ == CHUNKS_DIR@ + seq!['/'] + file_name@,
{
    proof {
        reveal_strlit("/");
    }
    concat3(CHUNKS_DIR, "/", file_name)
}

/// Builds the relative path of a sidecar: `<chunk_relative_path>.<extension>`.
pub fn sidecar_relative_path(chunk_relative_path: &str, extension: &str) -> (r: String)
    ensures
        r@ == chunk_relative_path@ + seq!['.'] + extension@,
{
    proof {
        reveal_strlit(".");
    }
    concat3(chunk_relative_path, ".", extension)
}

/// Builds the canonical chunk file name for the first sealed chunk of a partition.
pub fn partition_chunk_file_name(partition_key: &str) -> (r: String)
    ensures
        r@ == partition_key@ + ".chunk"@,
{
    let s = owned(partition_key);
    s.concat(".chunk")
}

/// Builds an append delta chunk file name: `<partition_key>.delta.g<generation:08>.chunk`.
pub fn partition_delta_chunk_file_name(partition_key: &str, generation: u32) -> (r: String)
    ensures
        r@ == partition_key@ + ".delta.g"@ + zero_padded(generation as nat, 8) + ".chunk"@,
{
    let g = pad_decimal(generation as u64, 8);
    owned(partition_key).concat(".delta.g").concat(g.as_str()).concat(".chunk")
}

/// Builds a merge replacement chunk file name: `<partition_key>.g<generation:08>.chunk`.
pub fn partition_merged_chunk_file_name(partition_key: &str, generation: u32) -> (r: String)
    ensures
        r@ == partition_key@ + ".g"@ + zero_padded(generation as nat, 8) + ".chunk"@,
{
    let g = pad_decimal(generation as u64, 8);
    owned(partition_key).concat(".g").concat(g.as_str()).concat(".chunk")
}

/// Builds the append delta chunk file name for a UTC month.
pub fn month_delta_chunk_file_name(month_key: &str, generation: u32) -> (r: String)
    ensures
        r@ == month_key@ + ".delta.g"@ + zero_padded(generation as nat, 8) + ".chunk"@,
{
    partition_delta_chunk_file_name(month_key, generation)
}

/// Builds the merge replacement chunk file name for a UTC month.
pub fn month_merged_chunk_file_name(month_key: &str, generation: u32) -> (r: String)
    ensures
        r@ == month_key@ + ".g"@ + zero_padded(generation as nat, 8) + ".chunk"@,
{
    partition_merged_chunk_file_name(month_key, generation)
}

/// Builds the canonical chunk file name for the first sealed chunk of the UTC month holding
/// `ts`.
pub fn month_chunk_file_name(ts: i64) -> (r: Result<String>)
    ensures
        match month_key_text(ts) {
            Some(t) => r matches Ok(s) && s@ == t + ".chunk"@,
            None => r matches Err(FastKError::InvalidInput(_)),
        },
{
    let key = month_key(ts)?;
    Ok(partition_chunk_file_name(key.as_str()))
}

/// `/` or `\`.
pub open spec fn is_sep(b: u8) -> bool {
    b == slash() || b == backslash()
}

/// `acc` joined with the segment `cur`, unless the segment is empty.
pub open spec fn flush(acc: Seq<u8>, cur: Seq<u8>) -> Seq<u8> {
    if cur.len() == 0 { acc } else { join_bytes(acc, cur) }
}

/// Joins onto `acc` the segments of `rel`, split at `/` and `\`, empty ones skipped; `cur`
/// is the segment begun before `rel`.
pub open spec fn resolve_from(acc: Seq<u8>, rel: Seq<u8>, cur: Seq<u8>) -> Seq<u8>
    decreases rel.len(),
{
    if rel.len() == 0 {
        flush(acc, cur)
    } else if is_sep(rel[0]) {
        resolve_from(flush(acc, cur), rel.drop_first(), Seq::empty())
    } else {
        resolve_from(acc, rel.drop_first(), cur.push(rel[0]))
    }
}

/// Resolves a relative series path: its `/`- or `\`-separated non-empty segments joined in
/// turn onto `series_dir`.
pub fn resolve_relative_path(series_dir: &str, relative_path: &str) -> (r: String)
    ensures
        bytes_of(r@) == resolve_from(bytes_of(series_dir@), bytes_of(relative_path@), Seq::empty()),
{
    let rb = relative_path.as_bytes();
    let ghost rel = rb@;
    let n = rb.len();
    let mut acc = owned(series_dir);
    let mut start: usize = 0;
    let mut i: usize = 0;
    proof {
        encode_utf8_valid_utf8(relative_path@);
        assert(rel.subrange(0, n as int) =~= rel);
        assert(rel.subrange(0, 0) =~= Seq::<u8>::empty());
    }
    while i < n
        invariant
            start <= i <= n,
            n == rel.len(),
            rb@ == rel,
            rel == bytes_of(relative_path@),
            rel == relative_path.spec_bytes(),
            valid_utf8(rel),
            is_char_boundary(rel, start as int),
            resolve_from(bytes_of(series_dir@), rel, Seq::empty()) == resolve_from(
                bytes_of(acc@),
                rel.subrange(i as int, n as int),
                rel.subrange(start as int, i as int),
            ),
        decreases n - i,
    {
        let ghost rest = rel.subrange(i as int, n as int);
        proof {
            assert(rest.drop_first() =~= rel.subrange(i + 1, n as int));
            assert(rest[0] == rel[i as int]);
        }
        if rb[i] == 47 || rb[i] == 92 {
            if i > start {
                proof {
                    is_char_boundary_iff_not_is_continuation_byte(rel, i as int);
                }
                let (_head, tail) = relative_path.split_at(start);
                proof {
                    encode_utf8_valid_utf8(tail@);
                    assert(tail.spec_bytes() =~= rel.subrange(start as int, n as int));
                    assert(tail.spec_bytes()[i - start] == rel[i as int]);
                    is_char_boundary_iff_not_is_continuation_byte(tail.spec_bytes(), i - start);
                }
                let (seg, _after) = tail.split_at(i - start);
                proof {
                    assert(seg.spec_bytes() =~= rel.subrange(start as int, i as int));
                }
                acc = join(acc.as_str(), seg);
            }
            proof {
                lemma_boundary_after_ascii(rel, i as int);
                assert(rel.subrange(i + 1, i + 1) =~= Seq::<u8>::empty());
            }
            start = i + 1;
        } else {
            proof {
                assert(rel.subrange(start as int, i + 1) =~= rel.subrange(start as int, i as int).push(rel[i as int]));
            }
        }
        i = i + 1;
    }
    if n > start {
        let (_head, tail) = relative_path.split_at(start);
        proof {
            assert(tail.spec_bytes() =~= rel.subrange(start as int, n as int));
        }
        acc = join(acc.as_str(), tail);
    }
    acc
}

/// Returns the path of a chunk file: `chunks/<file_name>` resolved under `series_dir`.
pub fn chunk_path(series_dir: &str, file_name: &str) -> (r: String)
    ensures
        exists|rel: Seq<char>| rel == CHUNKS_DIR@ + seq!['/'] + file_name@ && bytes_of(r@) == resolve_from(
            bytes_of(series_dir@),
            bytes_of(rel),
            Seq::empty(),
        ),
{
    let rel = chunk_relative_path(file_name);
    resolve_relative_path(series_dir, rel.as_str())
}

} // verus!
