//! Recovery decisions: which chunk survives an overlap, how overlapping chunks group, and
//! the reports that validation and repair produce. Directory walking and file removal stay
//! with the caller.
use vstd::prelude::*;
use vstd::utf8::*;
use crate::codec::{sat_i64, sat_sub_i64};
use crate::meta::{ChunkMeta, ChunkState};
use crate::strorder::{lex_lt, lex_sorted, lemma_lex_order, sort_strings, str_lt, string_views};
use crate::text::owned;
use crate::calendar::{decimal_text, digits};

verus! {

/// Validation report for one series directory.
#[derive(Debug, Clone, PartialEq, Eq)]
pub struct ManifestValidation {
    pub series_dir: String,
    pub manifest_exists: bool,
    pub missing_chunks: Vec<String>,
    pub missing_sidecars: Vec<String>,
    pub checksum_mismatches: Vec<String>,
    pub chunk_metadata_mismatches: Vec<String>,
    pub sidecar_consistency_issues: Vec<String>,
    pub untracked_chunks: Vec<String>,
    pub untracked_sidecars: Vec<String>,
    pub overlap_groups: Vec<Vec<String>>,
}

impl ManifestValidation {
    /// The manifest exists and no issue of any kind was found.
    pub fn is_clean(&self) -> (r: bool)
        ensures
            r == (self.manifest_exists && self.missing_chunks@.len() == 0 && self.missing_sidecars@.len() == 0
                && self.checksum_mismatches@.len() == 0 && self.chunk_metadata_mismatches@.len() == 0
                && self.sidecar_consistency_issues@.len() == 0 && self.untracked_chunks@.len() == 0
                && self.untracked_sidecars@.len() == 0 && self.overlap_groups@.len() == 0),
    {
        self.manifest_exists && self.missing_chunks.len() == 0 && self.missing_sidecars.len() == 0
            && self.checksum_mismatches.len() == 0 && self.chunk_metadata_mismatches.len() == 0
            && self.sidecar_consistency_issues.len() == 0 && self.untracked_chunks.len() == 0
            && self.untracked_sidecars.len() == 0 && self.overlap_groups.len() == 0
    }
}

/// Summary emitted by startup recovery or manual repair.
#[derive(Debug, Default, Clone, PartialEq, Eq)]
pub struct RecoveryReport {
    pub removed_temp_files: usize,
    pub rebuilt_manifests: usize,
    pub adopted_chunks: usize,
    pub dry_run: bool,
    pub removed_temp_paths: Vec<String>,
    pub rebuilt_manifest_paths: Vec<String>,
    pub adopted_chunk_paths: Vec<String>,
    pub overlap_resolutions: Vec<SeriesOverlapExplanation>,
}

/// Filesystem artifact not currently tracked by the manifest.
#[derive(Debug, Clone, PartialEq, Eq)]
pub struct OrphanArtifact {
    pub series_dir: String,
    pub relative_path: String,
    pub kind: String,
    pub reason: String,
}

/// Resolution returned when overlapping chunks are examined.
#[derive(Debug, Clone, PartialEq, Eq)]
pub struct OverlapResolution {
    pub month_key: String,
    pub winner_relative_path: Option<String>,
    pub participants: Vec<String>,
    pub reason: String,
}

/// Root-level overlap explanation with series context attached.
#[derive(Debug, Clone, PartialEq, Eq)]
pub struct SeriesOverlapExplanation {
    pub series_dir: String,
    pub resolution: OverlapResolution,
}

/// What validation and scrubbing check.
#[derive(Debug, Clone, Copy, Default, PartialEq, Eq)]
pub struct ValidationOptions {
    pub verbose: bool,
    pub revalidate_checksums: bool,
}

/// Scrub result for one series directory.
#[derive(Debug, Clone, PartialEq, Eq)]
pub struct ScrubSeriesReport {
    pub validation: ManifestValidation,
    pub checked_chunk_count: usize,
    pub checked_sidecar_count: usize,
    pub overlap_resolutions: Vec<OverlapResolution>,
    pub diagnostics: Vec<String>,
}

/// Whether recovery only reports or also repairs.
#[derive(Debug, Clone, Copy, Default, PartialEq, Eq)]
pub struct RecoveryOptions {
    pub dry_run: bool,
}

/// Timestamp span of a chunk, `end_ts - start_ts` saturating at the `i64` bounds.
pub open spec fn span_of(c: ChunkMeta) -> int {
    sat_i64(c.end_ts - c.start_ts)
}

/// `a` ranks strictly above `b`: higher generation, then longer span, then more rows, then
/// the path that sorts later.
pub open spec fn outranks(a: ChunkMeta, b: ChunkMeta) -> bool {
    ||| a.generation > b.generation
    ||| a.generation == b.generation && span_of(a) > span_of(b)
    ||| a.generation == b.generation && span_of(a) == span_of(b) && a.count > b.count
    ||| a.generation == b.generation && span_of(a) == span_of(b) && a.count == b.count && lex_lt(
        encode_utf8(b.relative_path@),
        encode_utf8(a.relative_path@),
    )
}

/// Neither outranks the other: same generation, span, row count and path.
pub open spec fn same_rank(a: ChunkMeta, b: ChunkMeta) -> bool {
    a.generation == b.generation && span_of(a) == span_of(b) && a.count == b.count
        && encode_utf8(a.relative_path@) == encode_utf8(b.relative_path@)
}

/// Ranking is a strict order, total up to equal rank.
pub proof fn lemma_outranks_order(a: ChunkMeta, b: ChunkMeta, c: ChunkMeta)
    ensures
        !outranks(a, a),
        outranks(a, b) ==> !outranks(b, a),
        outranks(a, b) || outranks(b, a) || same_rank(a, b),
        outranks(a, b) && outranks(b, c) ==> outranks(a, c),
        outranks(a, b) && same_rank(b, c) ==> outranks(a, c),
        same_rank(a, b) && outranks(b, c) ==> outranks(a, c),
{
    let pa = encode_utf8(a.relative_path@);
    let pb = encode_utf8(b.relative_path@);
    let pc = encode_utf8(c.relative_path@);
    lemma_lex_order(pa, pb, pc);
    lemma_lex_order(pb, pa, pc);
    lemma_lex_order(pc, pb, pa);
    lemma_lex_order(pb, pc, pa);
}

/// `c` spans the whole window `[lo, hi]`.
pub open spec fn covers_window(c: ChunkMeta, lo: i64, hi: i64) -> bool {
    c.start_ts <= lo && c.end_ts >= hi
}

/// Earliest start among `s` (meaningful when `s` is not empty).
pub open spec fn min_start(s: Seq<ChunkMeta>) -> i64
    decreases s.len(),
{
    if s.len() <= 1 {
        s[0].start_ts
    } else {
        let m = min_start(s.drop_last());
        if s.last().start_ts < m { s.last().start_ts } else { m }
    }
}

/// Latest end among `s` (meaningful when `s` is not empty).
pub open spec fn max_end(s: Seq<ChunkMeta>) -> i64
    decreases s.len(),
{
    if s.len() <= 1 {
        s[0].end_ts
    } else {
        let m = max_end(s.drop_last());
        if s.last().end_ts > m { s.last().end_ts } else { m }
    }
}

/// `w` is the surviving chunk of the overlap set `s`: it covers the set's whole window,
/// no covering chunk outranks it, and it outranks every covering chunk before it.
pub open spec fn is_overlap_winner(s: Seq<ChunkMeta>, w: int) -> bool {
    &&& 0 <= w < s.len()
    &&& covers_window(s[w], min_start(s), max_end(s))
    &&& forall|j: int|
        0 <= j < s.len() && covers_window(#[trigger] s[j], min_start(s), max_end(s)) ==> !outranks(s[j], s[w])
            && (j < w ==> outranks(s[w], s[j]))
}

/// The surviving chunk of an overlap set ranks highest among the chunks that cover the set's
/// window: none of them has a higher generation; among those of its generation none spans
/// longer; among those of its generation and span none holds more rows; and among those
/// that also hold as many rows none has a path sorting after its own.
pub proof fn overlap_winner_ranks_highest(s: Seq<ChunkMeta>, w: int)
    requires
        is_overlap_winner(s, w),
    ensures
        forall|j: int| 0 <= j < s.len() && covers_window(#[trigger] s[j], min_start(s), max_end(s)) ==> {
            &&& s[j].generation <= s[w].generation
            &&& s[j].generation == s[w].generation ==> span_of(s[j]) <= span_of(s[w])
            &&& s[j].generation == s[w].generation && span_of(s[j]) == span_of(s[w]) ==> s[j].count <= s[w].count
            &&& s[j].generation == s[w].generation && span_of(s[j]) == span_of(s[w]) && s[j].count == s[w].count
                ==> !lex_lt(encode_utf8(s[w].relative_path@), encode_utf8(s[j].relative_path@))
        },
{
    assert forall|j: int| 0 <= j < s.len() && covers_window(#[trigger] s[j], min_start(s), max_end(s)) implies {
        &&& s[j].generation <= s[w].generation
        &&& s[j].generation == s[w].generation ==> span_of(s[j]) <= span_of(s[w])
        &&& s[j].generation == s[w].generation && span_of(s[j]) == span_of(s[w]) ==> s[j].count <= s[w].count
        &&& s[j].generation == s[w].generation && span_of(s[j]) == span_of(s[w]) && s[j].count == s[w].count
            ==> !lex_lt(encode_utf8(s[w].relative_path@), encode_utf8(s[j].relative_path@))
    } by {
        assert(!outranks(s[j], s[w]));
    }
}

/// The relative paths of the chunks.
pub open spec fn chunk_paths(s: Seq<ChunkMeta>) -> Seq<Seq<char>> {
    s.map_values(|c: ChunkMeta| c.relative_path@)
}

fn chunk_outranks(a: &ChunkMeta, b: &ChunkMeta) -> (r: bool)
    ensures
        r == outranks(*a, *b),
{
    if a.generation != b.generation {
        return a.generation > b.generation;
    }
    let sa = sat_sub_i64(a.end_ts, a.start_ts);
    let sb = sat_sub_i64(b.end_ts, b.start_ts);
    if sa != sb {
        return sa > sb;
    }
    if a.count != b.count {
        return a.count > b.count;
    }
    str_lt(b.relative_path.as_str(), a.relative_path.as_str())
}

/// `v` in decimal, with a leading `-` when negative.
pub open spec fn signed_digits(v: int) -> Seq<char> {
    if v < 0 { "-"@ + digits((-v) as nat) } else { digits(v as nat) }
}

/// The decimal text of `v`, with a leading `-` when negative.
fn signed_decimal_text(v: i64) -> (r: String)
    ensures
        r@ == signed_digits(v as int),
{
    if v < 0 {
        let magnitude: u64 = if v == i64::MIN { 9223372036854775808u64 } else { (-v) as u64 };
        owned("-").concat(decimal_text(magnitude).as_str())
    } else {
        decimal_text(v as u64)
    }
}

/// `"generation <g> fully covers overlap window [<lo>..=<hi>]"`, numbers in decimal.
pub open spec fn covers_text(generation: u32, lo: i64, hi: i64) -> Seq<char> {
    "generation "@ + digits(generation as nat) + " fully covers overlap window ["@ + signed_digits(lo as int) + "..="@
        + signed_digits(hi as int) + "]"@
}

fn covers_reason(generation: u32, lo: i64, hi: i64) -> (r: String)
    ensures
        r@ == covers_text(generation, lo, hi),
{
    owned("generation ").concat(decimal_text(generation as u64).as_str()).concat(" fully covers overlap window [").concat(
        signed_decimal_text(lo).as_str(),
    ).concat("..=").concat(signed_decimal_text(hi).as_str()).concat("]")
}

/// Chooses the chunk that should survive inside an overlap set: among the chunks that span
/// the set's whole window, the highest ranked (the earliest on a tie). `participants` holds
/// every path, sorted.
pub fn choose_surviving_chunk_for_overlap(chunks: &[ChunkMeta]) -> (r: OverlapResolution)
    ensures
        lex_sorted(string_views(r.participants@)),
        string_views(r.participants@).to_multiset() == chunk_paths(chunks@).to_multiset(),
        chunks@.len() == 0 ==> r.month_key@.len() == 0 && r.winner_relative_path is None && r.reason@ == "empty overlap set"@,
        chunks@.len() > 0 && (exists|j: int| 0 <= j < chunks@.len() && covers_window(#[trigger] chunks@[j], min_start(chunks@), max_end(chunks@)))
            ==> exists|w: int| is_overlap_winner(chunks@, w) && (forall|j: int| 0 <= j < chunks@.len()
                && covers_window(#[trigger] chunks@[j], min_start(chunks@), max_end(chunks@)) ==> chunks@[j].generation
                <= chunks@[w].generation) && (r.winner_relative_path matches Some(p)
                && p@ == chunks@[w].relative_path@ && r.month_key@ == chunks@[w].month_key@
                && r.reason@ == covers_text(chunks@[w].generation, min_start(chunks@), max_end(chunks@))),
        chunks@.len() > 0 && !(exists|j: int| 0 <= j < chunks@.len() && covers_window(#[trigger] chunks@[j], min_start(chunks@), max_end(chunks@)))
            ==> r.winner_relative_path is None && r.month_key@ == chunks@[0].month_key@
                && r.reason@ == "no single chunk fully covers the overlap window"@,
{
    let n = chunks.len();
    let mut paths: Vec<String> = Vec::new();
    let mut k: usize = 0;
    while k < n
        invariant
            k <= n,
            n == chunks@.len(),
            paths@.len() == k,
            string_views(paths@) == chunk_paths(chunks@).subrange(0, k as int),
        decreases n - k,
    {
        let ghost before = paths@;
        paths.push(owned(chunks[k].relative_path.as_str()));
        proof {
            assert forall|q: int| 0 <= q < k + 1 implies #[trigger] string_views(paths@)[q] == chunk_paths(chunks@).subrange(0, k + 1)[q] by {
                if q < k {
                    assert(paths@[q] == before[q]);
                    assert(string_views(before)[q] == chunk_paths(chunks@).subrange(0, k as int)[q]);
                }
            }
            assert(string_views(paths@) =~= chunk_paths(chunks@).subrange(0, k + 1));
        }
        k = k + 1;
    }
    assert(chunk_paths(chunks@).subrange(0, k as int) =~= chunk_paths(chunks@));
    let participants = sort_strings(paths);
    if n == 0 {
        return OverlapResolution {
            month_key: String::new(),
            winner_relative_path: None,
            participants,
            reason: owned("empty overlap set"),
        };
    }
    let mut lo = chunks[0].start_ts;
    let mut hi = chunks[0].end_ts;
    let mut i: usize = 1;
    while i < n
        invariant
            1 <= i <= n,
            n == chunks@.len(),
            lo == min_start(chunks@.subrange(0, i as int)),
            hi == max_end(chunks@.subrange(0, i as int)),
        decreases n - i,
    {
        proof {
            assert(chunks@.subrange(0, i + 1).drop_last() =~= chunks@.subrange(0, i as int));
        }
        if chunks[i].start_ts < lo {
            lo = chunks[i].start_ts;
        }
        if chunks[i].end_ts > hi {
            hi = chunks[i].end_ts;
        }
        i = i + 1;
    }
    assert(chunks@.subrange(0, i as int) =~= chunks@);
    let mut best: Option<usize> = None;
    let mut j: usize = 0;
    while j < n
        invariant
            j <= n,
            n == chunks@.len(),
            n > 0,
            lo == min_start(chunks@),
            hi == max_end(chunks@),
            best is None ==> forall|q: int| 0 <= q < j ==> !covers_window(#[trigger] chunks@[q], lo, hi),
            best matches Some(b) ==> b < j && covers_window(chunks@[b as int], lo, hi) && forall|q: int|
                0 <= q < j && covers_window(#[trigger] chunks@[q], lo, hi) ==> !outranks(chunks@[q], chunks@[b as int])
                    && (q < b ==> outranks(chunks@[b as int], chunks@[q])),
        decreases n - j,
    {
        let c = &chunks[j];
        if c.start_ts <= lo && c.end_ts >= hi {
            match best {
                None => {
                    proof {
                        lemma_outranks_order(chunks@[j as int], chunks@[j as int], chunks@[j as int]);
                    }
                    best = Some(j);
                },
                Some(b) => {
                    if chunk_outranks(c, &chunks[b]) {
                        proof {
                            assert forall|q: int| 0 <= q < j + 1 && covers_window(#[trigger] chunks@[q], lo, hi) implies !outranks(chunks@[q], chunks@[j as int])
                                && (q < j ==> outranks(chunks@[j as int], chunks@[q])) by {
                                lemma_outranks_order(chunks@[j as int], chunks@[b as int], chunks@[q]);
                                lemma_outranks_order(chunks@[q], chunks@[j as int], chunks@[b as int]);
                                lemma_outranks_order(chunks@[b as int], chunks@[q], chunks@[j as int]);
                            }
                        }
                        best = Some(j);
                    } else {
                        proof {
                            lemma_outranks_order(chunks@[j as int], chunks@[b as int], chunks@[b as int]);
                        }
                    }
                },
            }
        }
        j = j + 1;
    }
    match best {
        Some(b) => {
            let chunk = &chunks[b];
            proof {
                assert(is_overlap_winner(chunks@, b as int));
                overlap_winner_ranks_highest(chunks@, b as int);
            }
            OverlapResolution {
                month_key: owned(chunk.month_key.as_str()),
                winner_relative_path: Some(owned(chunk.relative_path.as_str())),
                participants,
                reason: covers_reason(chunk.generation, lo, hi),
            }
        },
        None => OverlapResolution {
            month_key: owned(chunks[0].month_key.as_str()),
            winner_relative_path: None,
            participants,
            reason: owned("no single chunk fully covers the overlap window"),
        },
    }
}

/// Two closed timestamp ranges share at least one instant.
pub open spec fn overlapping(ls: i64, le: i64, rs: i64, re: i64) -> bool {
    ls <= re && le >= rs
}

/// Whether `[left_start, left_end]` and `[right_start, right_end]` intersect.
pub fn ranges_overlap(left_start: i64, left_end: i64, right_start: i64, right_end: i64) -> (r: bool)
    ensures
        r == overlapping(left_start, left_end, right_start, right_end),
{
    left_start <= right_end && left_end >= right_start
}

} // verus!

verus! {

/// `pat` occurs in `b` at `i`.
pub open spec fn occurs_at(b: Seq<u8>, pat: Seq<u8>, i: int) -> bool {
    0 <= i && i + pat.len() <= b.len() && b.subrange(i, i + pat.len()) == pat
}

/// The bytes of `.delta.`.
pub open spec fn delta_marker() -> Seq<u8> {
    seq![46u8, 100u8, 101u8, 108u8, 116u8, 97u8, 46u8]
}

/// State of a chunk file adopted from disk: `Active` for delta files (their name holds
/// `.delta.`), else `Sealed`.
pub fn decode_chunk_state(file_name: &str) -> (r: ChunkState)
    ensures
        (exists|i: int| occurs_at(encode_utf8(file_name@), delta_marker(), i)) ==> r is Active,
        !(exists|i: int| occurs_at(encode_utf8(file_name@), delta_marker(), i)) ==> r is Sealed,
{
    let b = file_name.as_bytes();
    let pat: [u8; 7] = [46u8, 100u8, 101u8, 108u8, 116u8, 97u8, 46u8];
    assert(pat@ =~= delta_marker());
    let n = b.len();
    if n < 7 {
        return ChunkState::Sealed;
    }
    let mut i: usize = 0;
    while i <= n - 7
        invariant
            n == b@.len(),
            n >= 7,
            i <= n - 6,
            b@ == encode_utf8(file_name@),
            pat@ == delta_marker(),
            forall|q: int| 0 <= q < i ==> !occurs_at(b@, delta_marker(), q),
        decreases n - i,
    {
        let mut k: usize = 0;
        while k < 7 && b[i + k] == pat[k]
            invariant
                k <= 7,
                i + 7 <= n,
                n == b@.len(),
                pat@ == delta_marker(),
                forall|m: int| 0 <= m < k ==> b@[i + m] == pat@[m],
            decreases 7 - k,
        {
            k = k + 1;
        }
        if k == 7 {
            assert(b@.subrange(i as int, i + 7) =~= delta_marker());
            assert(occurs_at(encode_utf8(file_name@), delta_marker(), i as int));
            return ChunkState::Active;
        }
        assert(b@.subrange(i as int, i + 7)[k as int] != delta_marker()[k as int]);
        i = i + 1;
    }
    ChunkState::Sealed
}

} // verus!
