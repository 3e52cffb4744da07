//! Checking a series manifest against the files a scan found: what is missing, what is not
//! listed, what differs and which listed chunks overlap.
use vstd::prelude::*;
use crate::meta::{ChunkMeta, SeriesMeta, SidecarMeta};
use crate::overlap::{overlap_groups_as_strings, overlap_sets};
use crate::recovery::{ManifestValidation, ValidationOptions, chunk_paths};
use crate::strorder::{lex_sorted, sort_strings, string_views};
use crate::text::{owned, str_eq};

verus! {

/// Index of the first scanned chunk whose path is `p`.
pub open spec fn find_chunk(fs: Seq<ChunkMeta>, p: Seq<char>) -> Option<int>
    decreases fs.len(),
{
    if fs.len() == 0 {
        None
    } else {
        match find_chunk(fs.drop_last(), p) {
            Some(i) => Some(i),
            None => if fs.last().relative_path@ == p { Some(fs.len() - 1) } else { None },
        }
    }
}

/// Index of the first scanned sidecar whose path is `p`.
pub open spec fn find_sidecar(fs: Seq<SidecarMeta>, p: Seq<char>) -> Option<int>
    decreases fs.len(),
{
    if fs.len() == 0 {
        None
    } else {
        match find_sidecar(fs.drop_last(), p) {
            Some(i) => Some(i),
            None => if fs.last().relative_path@ == p { Some(fs.len() - 1) } else { None },
        }
    }
}

/// The stored checksum is set and differs from the file's, when checksums are rechecked.
pub open spec fn checksum_differs(opts: ValidationOptions, stored: u64, actual: u64) -> bool {
    opts.revalidate_checksums && stored != 0 && stored != actual
}

/// A listed chunk entry disagrees with the header of its file.
pub open spec fn chunk_differs(c: ChunkMeta, a: ChunkMeta) -> bool {
    ||| c.chunk_id != a.chunk_id
    ||| c.generation != a.generation
    ||| c.count != a.count
    ||| c.start_ts != a.start_ts
    ||| c.end_ts != a.end_ts
    ||| c.layout_version != a.layout_version
    ||| c.header_len != a.header_len
    ||| c.sparse_index_every != a.sparse_index_every
    ||| c.sparse_index_offset != a.sparse_index_offset
    ||| c.sparse_index_len != a.sparse_index_len
}

/// A listed sidecar disagrees with its file in kind, or in a generation both record.
pub open spec fn sidecar_differs(s: SidecarMeta, a: SidecarMeta) -> bool {
    s.kind@ != a.kind@ || (s.generation != 0 && a.generation != 0 && s.generation != a.generation)
}

/// One path if `b`, else none.
pub open spec fn one_if(b: bool, p: Seq<char>) -> Seq<Seq<char>> {
    if b { seq![p] } else { Seq::empty() }
}

/// The content findings for a listed sidecar `s` whose file `a` holds `len` bytes (`None`
/// when it could not be read): a zone map or value index must decode into whole entries,
/// their number must match a recorded count, and a zone map's block size must match when
/// both record one; a sidecar of another kind is always reported.
pub open spec fn content_findings(s: SidecarMeta, a: SidecarMeta, len: Option<usize>) -> Seq<Seq<char>> {
    let p = a.relative_path@;
    if a.kind@ == "zmap"@ {
        match len {
            Some(n) if n % 40 == 0 => one_if(s.record_count != 0 && s.record_count != n / 40, p)
                + one_if(s.block_size != 0 && a.block_size != 0 && s.block_size != a.block_size, p),
            _ => seq![p],
        }
    } else if a.kind@ == "vix"@ {
        match len {
            Some(n) if n % 16 == 0 => one_if(s.record_count != 0 && s.record_count != n / 16, p),
            _ => seq![p],
        }
    } else {
        seq![p]
    }
}

/// What the report lists about the manifest's entries.
#[verifier::ext_equal]
pub struct Findings {
    pub missing_chunks: Seq<Seq<char>>,
    pub missing_sidecars: Seq<Seq<char>>,
    pub checksum_mismatches: Seq<Seq<char>>,
    pub chunk_metadata_mismatches: Seq<Seq<char>>,
    pub sidecar_consistency_issues: Seq<Seq<char>>,
}

/// No findings.
pub open spec fn no_findings() -> Findings {
    Findings {
        missing_chunks: Seq::empty(),
        missing_sidecars: Seq::empty(),
        checksum_mismatches: Seq::empty(),
        chunk_metadata_mismatches: Seq::empty(),
        sidecar_consistency_issues: Seq::empty(),
    }
}

/// The findings about the listed sidecar `s`, after `f`: missing when no file has its
/// path; else a checksum difference, then a kind or generation difference, then content.
pub open spec fn add_sidecar(f: Findings, s: SidecarMeta, fs: Seq<SidecarMeta>, lens: Seq<Option<usize>>, opts: ValidationOptions) -> Findings {
    match find_sidecar(fs, s.relative_path@) {
        None => Findings { missing_sidecars: f.missing_sidecars.push(s.relative_path@), ..f },
        Some(j) => Findings {
            checksum_mismatches: f.checksum_mismatches + one_if(checksum_differs(opts, s.checksum, fs[j].checksum), s.relative_path@),
            sidecar_consistency_issues: f.sidecar_consistency_issues + one_if(sidecar_differs(s, fs[j]), s.relative_path@)
                + content_findings(s, fs[j], lens[j]),
            ..f
        },
    }
}

/// The findings about the listed sidecars `ss`, in order, after `f`.
pub open spec fn add_sidecars(f: Findings, ss: Seq<SidecarMeta>, fs: Seq<SidecarMeta>, lens: Seq<Option<usize>>, opts: ValidationOptions) -> Findings
    decreases ss.len(),
{
    if ss.len() == 0 {
        f
    } else {
        add_sidecar(add_sidecars(f, ss.drop_last(), fs, lens, opts), ss.last(), fs, lens, opts)
    }
}

/// The findings about the listed chunk `c`, after `f`: missing when no file has its path,
/// else a checksum then a metadata difference; then its sidecars.
pub open spec fn add_chunk(f: Findings, c: ChunkMeta, fs_chunks: Seq<ChunkMeta>, fs_sidecars: Seq<SidecarMeta>, lens: Seq<Option<usize>>, opts: ValidationOptions) -> Findings {
    let g = match find_chunk(fs_chunks, c.relative_path@) {
        None => Findings { missing_chunks: f.missing_chunks.push(c.relative_path@), ..f },
        Some(i) => Findings {
            checksum_mismatches: f.checksum_mismatches + one_if(checksum_differs(opts, c.chunk_checksum, fs_chunks[i].chunk_checksum), c.relative_path@),
            chunk_metadata_mismatches: f.chunk_metadata_mismatches + one_if(chunk_differs(c, fs_chunks[i]), c.relative_path@),
            ..f
        },
    };
    add_sidecars(g, c.sidecars@, fs_sidecars, lens, opts)
}

/// The findings about the listed chunks `cs`, in order.
pub open spec fn findings(cs: Seq<ChunkMeta>, fs_chunks: Seq<ChunkMeta>, fs_sidecars: Seq<SidecarMeta>, lens: Seq<Option<usize>>, opts: ValidationOptions) -> Findings
    decreases cs.len(),
{
    if cs.len() == 0 {
        no_findings()
    } else {
        add_chunk(findings(cs.drop_last(), fs_chunks, fs_sidecars, lens, opts), cs.last(), fs_chunks, fs_sidecars, lens, opts)
    }
}

/// The report's findings, as character sequences.
pub open spec fn report_findings(v: ManifestValidation) -> Findings {
    Findings {
        missing_chunks: string_views(v.missing_chunks@),
        missing_sidecars: string_views(v.missing_sidecars@),
        checksum_mismatches: string_views(v.checksum_mismatches@),
        chunk_metadata_mismatches: string_views(v.chunk_metadata_mismatches@),
        sidecar_consistency_issues: string_views(v.sidecar_consistency_issues@),
    }
}

/// Some listed chunk has path `p`.
pub open spec fn chunk_tracked(cs: Seq<ChunkMeta>, p: Seq<char>) -> bool {
    exists|i: int| 0 <= i < cs.len() && (#[trigger] cs[i]).relative_path@ == p
}

/// Some sidecar of a listed chunk has path `p`.
pub open spec fn sidecar_tracked(cs: Seq<ChunkMeta>, p: Seq<char>) -> bool {
    exists|i: int, j: int| 0 <= i < cs.len() && 0 <= j < cs[i].sidecars@.len() && (#[trigger] cs[i].sidecars@[j]).relative_path@ == p
}

/// Scanned chunk files the manifest does not list.
pub open spec fn untracked_chunk(cs: Seq<ChunkMeta>) -> spec_fn(ChunkMeta) -> bool {
    |c: ChunkMeta| !chunk_tracked(cs, c.relative_path@)
}

/// Scanned sidecar files the manifest does not list.
pub open spec fn untracked_sidecar(cs: Seq<ChunkMeta>) -> spec_fn(SidecarMeta) -> bool {
    |s: SidecarMeta| !sidecar_tracked(cs, s.relative_path@)
}

/// The paths of the sidecars.
pub open spec fn sidecar_paths(fs: Seq<SidecarMeta>) -> Seq<Seq<char>> {
    fs.map_values(|s: SidecarMeta| s.relative_path@)
}

/// `g` lists, for each overlap set of `cs`, its paths sorted.
pub open spec fn reports_overlaps(g: Seq<Vec<String>>, cs: Seq<ChunkMeta>) -> bool {
    &&& g.len() == overlap_sets(cs).len()
    &&& forall|i: int| 0 <= i < g.len() ==> lex_sorted(string_views(#[trigger] g[i]@))
        && string_views(g[i]@).to_multiset() == chunk_paths(overlap_sets(cs)[i]).to_multiset()
}

fn find_chunk_index(fs: &Vec<ChunkMeta>, p: &str) -> (r: Option<usize>)
    ensures
        r matches Some(i) ==> find_chunk(fs@, p@) == Some(i as int) && i < fs@.len(),
        r is None ==> find_chunk(fs@, p@) is None,
{
    let mut found: Option<usize> = None;
    let mut i: usize = 0;
    while i < fs.len()
        invariant
            i <= fs@.len(),
            found matches Some(j) ==> find_chunk(fs@.subrange(0, i as int), p@) == Some(j as int) && j < i,
            found is None ==> find_chunk(fs@.subrange(0, i as int), p@) is None,
        decreases fs@.len() - i,
    {
        proof {
            assert(fs@.subrange(0, i + 1).drop_last() =~= fs@.subrange(0, i as int));
        }
        if found.is_none() && str_eq(fs[i].relative_path.as_str(), p) {
            found = Some(i);
        }
        i = i + 1;
    }
    assert(fs@.subrange(0, i as int) =~= fs@);
    found
}

fn find_sidecar_index(fs: &Vec<SidecarMeta>, p: &str) -> (r: Option<usize>)
    ensures
        r matches Some(i) ==> find_sidecar(fs@, p@) == Some(i as int) && i < fs@.len(),
        r is None ==> find_sidecar(fs@, p@) is None,
{
    let mut found: Option<usize> = None;
    let mut i: usize = 0;
    while i < fs.len()
        invariant
            i <= fs@.len(),
            found matches Some(j) ==> find_sidecar(fs@.subrange(0, i as int), p@) == Some(j as int) && j < i,
            found is None ==> find_sidecar(fs@.subrange(0, i as int), p@) is None,
        decreases fs@.len() - i,
    {
        proof {
            assert(fs@.subrange(0, i + 1).drop_last() =~= fs@.subrange(0, i as int));
        }
        if found.is_none() && str_eq(fs[i].relative_path.as_str(), p) {
            found = Some(i);
        }
        i = i + 1;
    }
    assert(fs@.subrange(0, i as int) =~= fs@);
    found
}

fn push_if(v: &mut Vec<String>, b: bool, p: &str)
    ensures
        string_views(final(v)@) == string_views(old(v)@) + one_if(b, p@),
{
    let ghost before = v@;
    if b {
        v.push(owned(p));
        assert(string_views(v@) =~= string_views(before) + one_if(b, p@));
    } else {
        assert(string_views(v@) =~= string_views(before) + one_if(b, p@));
    }
}

fn push_content_findings(v: &mut Vec<String>, s: &SidecarMeta, a: &SidecarMeta, len: Option<usize>)
    ensures
        string_views(final(v)@) == string_views(old(v)@) + content_findings(*s, *a, len),
{
    proof {
        reveal_strlit("zmap");
        reveal_strlit("vix");
        assert("vix"@.len() != "zmap"@.len());
    }
    let ghost before = string_views(v@);
    let p = a.relative_path.as_str();
    if str_eq(a.kind.as_str(), "zmap") {
        match len {
            Some(n) if n % 40 == 0 => {
                push_if(v, s.record_count != 0 && s.record_count != (n / 40) as u64, p);
                push_if(v, s.block_size != 0 && a.block_size != 0 && s.block_size != a.block_size, p);
                assert(string_views(v@) =~= before + content_findings(*s, *a, len));
            },
            _ => {
                push_if(v, true, p);
            },
        }
    } else if str_eq(a.kind.as_str(), "vix") {
        match len {
            Some(n) if n % 16 == 0 => {
                push_if(v, s.record_count != 0 && s.record_count != (n / 16) as u64, p);
            },
            _ => {
                push_if(v, true, p);
            },
        }
    } else {
        push_if(v, true, p);
    }
}

/// The five lists of findings gathered so far.
pub open spec fn gathered(a: Seq<String>, b: Seq<String>, c: Seq<String>, d: Seq<String>, e: Seq<String>) -> Findings {
    Findings {
        missing_chunks: string_views(a),
        missing_sidecars: string_views(b),
        checksum_mismatches: string_views(c),
        chunk_metadata_mismatches: string_views(d),
        sidecar_consistency_issues: string_views(e),
    }
}

fn gather_findings(
    chunks: &Vec<ChunkMeta>,
    fs_chunks: &Vec<ChunkMeta>,
    fs_sidecars: &Vec<SidecarMeta>,
    lens: &Vec<Option<usize>>,
    opts: ValidationOptions,
) -> (r: (Vec<String>, Vec<String>, Vec<String>, Vec<String>, Vec<String>))
    requires
        lens@.len() == fs_sidecars@.len(),
    ensures
        gathered(r.0@, r.1@, r.2@, r.3@, r.4@) == findings(chunks@, fs_chunks@, fs_sidecars@, lens@, opts),
{
    let mut mc: Vec<String> = Vec::new();
    let mut ms: Vec<String> = Vec::new();
    let mut ck: Vec<String> = Vec::new();
    let mut md: Vec<String> = Vec::new();
    let mut si: Vec<String> = Vec::new();
    proof {
        assert(gathered(mc@, ms@, ck@, md@, si@) =~= no_findings());
        assert(chunks@.subrange(0, 0) =~= Seq::<ChunkMeta>::empty());
    }
    let mut k: usize = 0;
    while k < chunks.len()
        invariant
            k <= chunks@.len(),
            lens@.len() == fs_sidecars@.len(),
            gathered(mc@, ms@, ck@, md@, si@) == findings(chunks@.subrange(0, k as int), fs_chunks@, fs_sidecars@, lens@, opts),
        decreases chunks@.len() - k,
    {
        let c = &chunks[k];
        let ghost f0 = gathered(mc@, ms@, ck@, md@, si@);
        proof {
            assert(chunks@.subrange(0, k + 1).drop_last() =~= chunks@.subrange(0, k as int));
            assert(chunks@.subrange(0, k + 1).last() == *c);
        }
        let path = c.relative_path.as_str();
        match find_chunk_index(fs_chunks, path) {
            None => {
                let ghost before = mc@;
                mc.push(owned(path));
                proof {
                    assert(string_views(mc@) =~= string_views(before).push(path@));
                    assert(gathered(mc@, ms@, ck@, md@, si@) =~= Findings { missing_chunks: f0.missing_chunks.push(c.relative_path@), ..f0 });
                }
            },
            Some(i) => {
                let a = &fs_chunks[i];
                push_if(&mut ck, opts.revalidate_checksums && c.chunk_checksum != 0 && c.chunk_checksum != a.chunk_checksum, path);
                let differs = c.chunk_id != a.chunk_id || c.generation != a.generation || c.count != a.count
                    || c.start_ts != a.start_ts || c.end_ts != a.end_ts || c.layout_version != a.layout_version
                    || c.header_len != a.header_len || c.sparse_index_every != a.sparse_index_every
                    || c.sparse_index_offset != a.sparse_index_offset || c.sparse_index_len != a.sparse_index_len;
                push_if(&mut md, differs, path);
                proof {
                    assert(gathered(mc@, ms@, ck@, md@, si@) =~= Findings {
                        checksum_mismatches: f0.checksum_mismatches + one_if(checksum_differs(opts, c.chunk_checksum, fs_chunks@[i as int].chunk_checksum), c.relative_path@),
                        chunk_metadata_mismatches: f0.chunk_metadata_mismatches + one_if(chunk_differs(*c, fs_chunks@[i as int]), c.relative_path@),
                        ..f0
                    });
                }
            },
        }
        let ghost g = gathered(mc@, ms@, ck@, md@, si@);
        proof {
            assert(c.sidecars@.subrange(0, 0) =~= Seq::<SidecarMeta>::empty());
        }
        let mut j: usize = 0;
        while j < c.sidecars.len()
            invariant
                j <= c.sidecars@.len(),
                lens@.len() == fs_sidecars@.len(),
                gathered(mc@, ms@, ck@, md@, si@) == add_sidecars(g, c.sidecars@.subrange(0, j as int), fs_sidecars@, lens@, opts),
            decreases c.sidecars@.len() - j,
        {
            let sc = &c.sidecars[j];
            let ghost h0 = gathered(mc@, ms@, ck@, md@, si@);
            proof {
                assert(c.sidecars@.subrange(0, j + 1).drop_last() =~= c.sidecars@.subrange(0, j as int));
                assert(c.sidecars@.subrange(0, j + 1).last() == *sc);
            }
            let sp = sc.relative_path.as_str();
            match find_sidecar_index(fs_sidecars, sp) {
                None => {
                    let ghost before = ms@;
                    ms.push(owned(sp));
                    proof {
                        assert(string_views(ms@) =~= string_views(before).push(sp@));
                        assert(gathered(mc@, ms@, ck@, md@, si@) =~= Findings { missing_sidecars: h0.missing_sidecars.push(sc.relative_path@), ..h0 });
                    }
                },
                Some(i) => {
                    let a = &fs_sidecars[i];
                    push_if(&mut ck, opts.revalidate_checksums && sc.checksum != 0 && sc.checksum != a.checksum, sp);
                    let kind_differs = !str_eq(sc.kind.as_str(), a.kind.as_str())
                        || (sc.generation != 0 && a.generation != 0 && sc.generation != a.generation);
                    let ghost si0 = string_views(si@);
                    push_if(&mut si, kind_differs, sp);
                    push_content_findings(&mut si, sc, a, lens[i]);
                    proof {
                        assert(string_views(si@) =~= si0 + one_if(sidecar_differs(*sc, fs_sidecars@[i as int]), sc.relative_path@)
                            + content_findings(*sc, fs_sidecars@[i as int], lens@[i as int]));
                        assert(gathered(mc@, ms@, ck@, md@, si@) =~= Findings {
                            checksum_mismatches: h0.checksum_mismatches + one_if(checksum_differs(opts, sc.checksum, fs_sidecars@[i as int].checksum), sc.relative_path@),
                            sidecar_consistency_issues: h0.sidecar_consistency_issues + one_if(sidecar_differs(*sc, fs_sidecars@[i as int]), sc.relative_path@)
                                + content_findings(*sc, fs_sidecars@[i as int], lens@[i as int]),
                            ..h0
                        });
                    }
                },
            }
            j = j + 1;
        }
        proof {
            assert(c.sidecars@.subrange(0, j as int) =~= c.sidecars@);
        }
        k = k + 1;
    }
    proof {
        assert(chunks@.subrange(0, k as int) =~= chunks@);
    }
    (mc, ms, ck, md, si)
}

fn chunk_is_tracked(cs: &Vec<ChunkMeta>, p: &str) -> (r: bool)
    ensures
        r == chunk_tracked(cs@, p@),
{
    let mut i: usize = 0;
    while i < cs.len()
        invariant
            i <= cs@.len(),
            forall|q: int| 0 <= q < i ==> (#[trigger] cs@[q]).relative_path@ != p@,
        decreases cs@.len() - i,
    {
        if str_eq(cs[i].relative_path.as_str(), p) {
            return true;
        }
        i = i + 1;
    }
    false
}

fn sidecar_is_tracked(cs: &Vec<ChunkMeta>, p: &str) -> (r: bool)
    ensures
        r == sidecar_tracked(cs@, p@),
{
    let mut i: usize = 0;
    while i < cs.len()
        invariant
            i <= cs@.len(),
            forall|a: int, b: int| 0 <= a < i && 0 <= b < cs@[a].sidecars@.len() ==> (#[trigger] cs@[a].sidecars@[b]).relative_path@ != p@,
        decreases cs@.len() - i,
    {
        let c = &cs[i];
        let mut j: usize = 0;
        while j < c.sidecars.len()
            invariant
                j <= c.sidecars@.len(),
                i < cs@.len(),
                *c == cs@[i as int],
                forall|b: int| 0 <= b < j ==> (#[trigger] c.sidecars@[b]).relative_path@ != p@,
            decreases c.sidecars@.len() - j,
        {
            if str_eq(c.sidecars[j].relative_path.as_str(), p) {
                proof {
                    assert(cs@[i as int].sidecars@[j as int].relative_path@ == p@);
                }
                return true;
            }
            j = j + 1;
        }
        proof {
            assert forall|a: int, b: int| 0 <= a < i + 1 && 0 <= b < cs@[a].sidecars@.len() implies (#[trigger] cs@[a].sidecars@[b]).relative_path@ != p@ by {
                if a == i {
                    assert(cs@[a] == *c);
                }
            }
        }
        i = i + 1;
    }
    false
}

/// Paths of the scanned chunk files the manifest does not list, sorted.
fn untracked_chunk_paths(listed: &Vec<ChunkMeta>, fs: &Vec<ChunkMeta>) -> (r: Vec<String>)
    ensures
        lex_sorted(string_views(r@)),
        string_views(r@).to_multiset() == chunk_paths(fs@.filter(untracked_chunk(listed@))).to_multiset(),
{
    let ghost f = untracked_chunk(listed@);
    let mut out: Vec<String> = Vec::new();
    let mut i: usize = 0;
    proof {
        reveal(Seq::filter);
        assert(fs@.subrange(0, 0) =~= Seq::<ChunkMeta>::empty());
        assert(string_views(out@) =~= chunk_paths(fs@.subrange(0, 0).filter(f)));
    }
    while i < fs.len()
        invariant
            i <= fs@.len(),
            f == untracked_chunk(listed@),
            string_views(out@) == chunk_paths(fs@.subrange(0, i as int).filter(f)),
        decreases fs@.len() - i,
    {
        let ghost pre = fs@.subrange(0, i as int);
        let ghost next = fs@.subrange(0, i + 1);
        proof {
            reveal(Seq::filter);
            assert(next.drop_last() =~= pre);
            assert(next.last() == fs@[i as int]);
        }
        let p = fs[i].relative_path.as_str();
        if !chunk_is_tracked(listed, p) {
            let ghost before = out@;
            out.push(owned(p));
            proof {
                assert(f(fs@[i as int]));
                assert(next.filter(f) == pre.filter(f).push(fs@[i as int]));
                assert(string_views(out@) =~= string_views(before).push(p@));
                assert(chunk_paths(pre.filter(f).push(fs@[i as int])) =~= chunk_paths(pre.filter(f)).push(fs@[i as int].relative_path@));
                assert(string_views(out@) =~= chunk_paths(next.filter(f)));
            }
        } else {
            proof {
                assert(!f(fs@[i as int]));
                assert(next.filter(f) == pre.filter(f));
            }
        }
        i = i + 1;
    }
    assert(fs@.subrange(0, i as int) =~= fs@);
    sort_strings(out)
}

/// Paths of the scanned sidecar files the manifest does not list, sorted.
fn untracked_sidecar_paths(listed: &Vec<ChunkMeta>, fs: &Vec<SidecarMeta>) -> (r: Vec<String>)
    ensures
        lex_sorted(string_views(r@)),
        string_views(r@).to_multiset() == sidecar_paths(fs@.filter(untracked_sidecar(listed@))).to_multiset(),
{
    let ghost f = untracked_sidecar(listed@);
    let mut out: Vec<String> = Vec::new();
    let mut i: usize = 0;
    proof {
        reveal(Seq::filter);
        assert(fs@.subrange(0, 0) =~= Seq::<SidecarMeta>::empty());
        assert(string_views(out@) =~= sidecar_paths(fs@.subrange(0, 0).filter(f)));
    }
    while i < fs.len()
        invariant
            i <= fs@.len(),
            f == untracked_sidecar(listed@),
            string_views(out@) == sidecar_paths(fs@.subrange(0, i as int).filter(f)),
        decreases fs@.len() - i,
    {
        let ghost pre = fs@.subrange(0, i as int);
        let ghost next = fs@.subrange(0, i + 1);
        proof {
            reveal(Seq::filter);
            assert(next.drop_last() =~= pre);
            assert(next.last() == fs@[i as int]);
        }
        let p = fs[i].relative_path.as_str();
        if !sidecar_is_tracked(listed, p) {
            let ghost before = out@;
            out.push(owned(p));
            proof {
                assert(f(fs@[i as int]));
                assert(next.filter(f) == pre.filter(f).push(fs@[i as int]));
                assert(string_views(out@) =~= string_views(before).push(p@));
                assert(sidecar_paths(pre.filter(f).push(fs@[i as int])) =~= sidecar_paths(pre.filter(f)).push(fs@[i as int].relative_path@));
                assert(string_views(out@) =~= sidecar_paths(next.filter(f)));
            }
        } else {
            proof {
                assert(!f(fs@[i as int]));
                assert(next.filter(f) == pre.filter(f));
            }
        }
        i = i + 1;
    }
    assert(fs@.subrange(0, i as int) =~= fs@);
    sort_strings(out)
}

/// Compares a series' manifest (`None` when it has none) with the files a scan of its
/// `chunks` directory found. `sidecar_lens[j]` is the byte length of the file of
/// `fs_sidecars[j]`, `None` when it could not be read. Reports, in manifest order, the
/// listed chunks and sidecars with no file, checksum differences (when rechecked), chunk
/// entries that disagree with their headers and sidecar inconsistencies; then the files the
/// manifest does not list, sorted, and the overlap sets among the listed chunks. Without a
/// manifest every file is unlisted and the overlap sets are those of the files.
pub fn compare_manifest_with_scan(
    series_dir: String,
    meta: Option<SeriesMeta>,
    fs_chunks: Vec<ChunkMeta>,
    fs_sidecars: Vec<SidecarMeta>,
    sidecar_lens: Vec<Option<usize>>,
    options: ValidationOptions,
) -> (r: ManifestValidation)
    requires
        sidecar_lens@.len() == fs_sidecars@.len(),
    ensures
        r.series_dir@ == series_dir@,
        r.manifest_exists == meta is Some,
        lex_sorted(string_views(r.untracked_chunks@)),
        lex_sorted(string_views(r.untracked_sidecars@)),
        match meta {
            Some(m) => {
                &&& report_findings(r) == findings(m.chunks@, fs_chunks@, fs_sidecars@, sidecar_lens@, options)
                &&& string_views(r.untracked_chunks@).to_multiset() == chunk_paths(fs_chunks@.filter(untracked_chunk(m.chunks@))).to_multiset()
                &&& string_views(r.untracked_sidecars@).to_multiset() == sidecar_paths(fs_sidecars@.filter(untracked_sidecar(m.chunks@))).to_multiset()
                &&& reports_overlaps(r.overlap_groups@, m.chunks@)
            },
            None => {
                &&& report_findings(r) == no_findings()
                &&& string_views(r.untracked_chunks@).to_multiset() == chunk_paths(fs_chunks@).to_multiset()
                &&& string_views(r.untracked_sidecars@).to_multiset() == sidecar_paths(fs_sidecars@).to_multiset()
                &&& reports_overlaps(r.overlap_groups@, fs_chunks@)
            },
        },
{
    match meta {
        Some(m) => {
            let (mc, ms, ck, md, si) = gather_findings(&m.chunks, &fs_chunks, &fs_sidecars, &sidecar_lens, options);
            let untracked_chunks = untracked_chunk_paths(&m.chunks, &fs_chunks);
            let untracked_sidecars = untracked_sidecar_paths(&m.chunks, &fs_sidecars);
            let overlap_groups = overlap_groups_as_strings(m.chunks);
            ManifestValidation {
                series_dir,
                manifest_exists: true,
                missing_chunks: mc,
                missing_sidecars: ms,
                checksum_mismatches: ck,
                chunk_metadata_mismatches: md,
                sidecar_consistency_issues: si,
                untracked_chunks,
                untracked_sidecars,
                overlap_groups,
            }
        },
        None => {
            let none: Vec<ChunkMeta> = Vec::new();
            let untracked_chunks = untracked_chunk_paths(&none, &fs_chunks);
            let untracked_sidecars = untracked_sidecar_paths(&none, &fs_sidecars);
            proof {
                assert(fs_chunks@.filter(untracked_chunk(none@)) =~= fs_chunks@) by {
                    lemma_filter_all(fs_chunks@, untracked_chunk(none@));
                }
                assert(fs_sidecars@.filter(untracked_sidecar(none@)) =~= fs_sidecars@) by {
                    lemma_filter_all(fs_sidecars@, untracked_sidecar(none@));
                }
            }
            let overlap_groups = overlap_groups_as_strings(fs_chunks);
            let r = ManifestValidation {
                series_dir,
                manifest_exists: false,
                missing_chunks: Vec::new(),
                missing_sidecars: Vec::new(),
                checksum_mismatches: Vec::new(),
                chunk_metadata_mismatches: Vec::new(),
                sidecar_consistency_issues: Vec::new(),
                untracked_chunks,
                untracked_sidecars,
                overlap_groups,
            };
            assert(report_findings(r) =~= no_findings());
            r
        },
    }
}

proof fn lemma_filter_all<A>(s: Seq<A>, f: spec_fn(A) -> bool)
    requires
        forall|i: int| 0 <= i < s.len() ==> f(#[trigger] s[i]),
    ensures
        s.filter(f) == s,
    decreases s.len(),
{
    reveal(Seq::filter);
    if s.len() > 0 {
        lemma_filter_all(s.drop_last(), f);
        assert(f(s[s.len() - 1]));
        assert(s.drop_last().push(s.last()) =~= s);
    } else {
        assert(s.filter(f) =~= s);
    }
}

} // verus!

verus! {

/// Paths joined by `", "`.
pub open spec fn joined(s: Seq<Seq<char>>) -> Seq<char>
    decreases s.len(),
{
    if s.len() == 0 {
        Seq::empty()
    } else if s.len() == 1 {
        s[0]
    } else {
        joined(s.drop_last()) + ", "@ + s.last()
    }
}

fn join_paths(v: &Vec<String>) -> (r: String)
    ensures
        r@ == joined(string_views(v@)),
{
    proof {
        reveal_strlit(", ");
    }
    let mut out = String::new();
    let mut i: usize = 0;
    proof {
        assert(string_views(v@).subrange(0, 0) =~= Seq::<Seq<char>>::empty());
    }
    while i < v.len()
        invariant
            i <= v@.len(),
            out@ == joined(string_views(v@).subrange(0, i as int)),
        decreases v@.len() - i,
    {
        let ghost pre = string_views(v@).subrange(0, i as int);
        let ghost next = string_views(v@).subrange(0, i + 1);
        proof {
            assert(next.drop_last() =~= pre);
            assert(next.last() == v@[i as int]@);
        }
        if i == 0 {
            out = owned(v[i].as_str());
        } else {
            out = out.concat(", ").concat(v[i].as_str());
        }
        proof {
            if i == 0 {
                assert(next.len() == 1);
            }
        }
        i = i + 1;
    }
    proof {
        assert(string_views(v@).subrange(0, i as int) =~= string_views(v@));
    }
    out
}

/// What std's `Debug` formatting (`{:?}`) writes for an `Option<String>` holding `winner`:
/// a function of the value alone.
pub uninterp spec fn debug_option_text(winner: Option<Seq<char>>) -> Seq<char>;

/// The text held by an optional string.
pub open spec fn optional_text(o: Option<String>) -> Option<Seq<char>> {
    match o {
        Some(s) => Some(s@),
        None => None,
    }
}

/// `"overlap <month> -> winner <winner, debug-formatted> (<reason>)"`.
pub open spec fn overlap_line(month_key: Seq<char>, winner: Option<Seq<char>>, reason: Seq<char>) -> Seq<char> {
    "overlap "@ + month_key + " -> winner "@ + debug_option_text(winner) + " ("@ + reason + ")"@
}

/// `format!("overlap {} -> winner {:?} ({})", ..)`: the month key and reason as given, the
/// winner in std's `Debug` form, which is named rather than written out.
#[verifier::external_body]
fn overlap_diagnostic(month_key: &str, winner: &Option<String>, reason: &str) -> (r: String)
    ensures
        r@ == "overlap "@ + month_key@ + " -> winner "@ + debug_option_text(optional_text(*winner)) + " ("@ + reason@ + ")"@,
{
    format!("overlap {} -> winner {:?} ({})", month_key, winner, reason)
}

/// A line `<label><paths joined>` when there are paths, else none.
pub open spec fn list_line(label: Seq<char>, paths: Seq<Seq<char>>) -> Seq<Seq<char>> {
    if paths.len() > 0 { seq![label + joined(paths)] } else { Seq::empty() }
}

/// The fixed part of a verbose scrub's diagnostics: a missing manifest, then each kind of
/// finding that occurred, with its paths.
pub open spec fn finding_lines(v: ManifestValidation) -> Seq<Seq<char>> {
    (if v.manifest_exists { Seq::empty() } else { seq!["manifest missing; rebuild recommended"@] })
        + list_line("missing chunks: "@, string_views(v.missing_chunks@))
        + list_line("missing sidecars: "@, string_views(v.missing_sidecars@))
        + list_line("chunk metadata mismatches: "@, string_views(v.chunk_metadata_mismatches@))
        + list_line("sidecar consistency issues: "@, string_views(v.sidecar_consistency_issues@))
}

fn push_list_line(out: &mut Vec<String>, label: &str, paths: &Vec<String>)
    ensures
        string_views(final(out)@) == string_views(old(out)@) + list_line(label@, string_views(paths@)),
{
    let ghost before = string_views(out@);
    if paths.len() > 0 {
        let line = owned(label).concat(join_paths(paths).as_str());
        out.push(line);
    }
    assert(string_views(out@) =~= before + list_line(label@, string_views(paths@)));
}

/// Human-readable diagnostics of a scrub, when verbose: the finding lines, then one line
/// per overlap resolution.
pub fn build_scrub_diagnostics(validation: &ManifestValidation, overlaps: &Vec<crate::recovery::OverlapResolution>, verbose: bool) -> (r: Vec<String>)
    ensures
        !verbose ==> r@.len() == 0,
        verbose ==> r@.len() == finding_lines(*validation).len() + overlaps@.len()
            && string_views(r@).subrange(0, finding_lines(*validation).len() as int) == finding_lines(*validation)
            && forall|i: int| 0 <= i < overlaps@.len() ==> #[trigger] r@[finding_lines(*validation).len() + i]@ == overlap_line(
                overlaps@[i].month_key@,
                optional_text(overlaps@[i].winner_relative_path),
                overlaps@[i].reason@,
            ),
{
    let mut out: Vec<String> = Vec::new();
    if !verbose {
        return out;
    }
    if !validation.manifest_exists {
        out.push(owned("manifest missing; rebuild recommended"));
    }
    proof {
        assert(string_views(out@) =~= (if validation.manifest_exists { Seq::<Seq<char>>::empty() } else { seq!["manifest missing; rebuild recommended"@] }));
    }
    push_list_line(&mut out, "missing chunks: ", &validation.missing_chunks);
    push_list_line(&mut out, "missing sidecars: ", &validation.missing_sidecars);
    push_list_line(&mut out, "chunk metadata mismatches: ", &validation.chunk_metadata_mismatches);
    push_list_line(&mut out, "sidecar consistency issues: ", &validation.sidecar_consistency_issues);
    let ghost fixed = string_views(out@);
    proof {
        assert(fixed =~= finding_lines(*validation));
    }
    let mut k: usize = 0;
    while k < overlaps.len()
        invariant
            k <= overlaps@.len(),
            out@.len() == fixed.len() + k,
            string_views(out@).subrange(0, fixed.len() as int) == fixed,
            fixed.len() == finding_lines(*validation).len(),
            forall|i: int| 0 <= i < k ==> #[trigger] out@[fixed.len() + i]@ == overlap_line(
                overlaps@[i].month_key@,
                optional_text(overlaps@[i].winner_relative_path),
                overlaps@[i].reason@,
            ),
        decreases overlaps@.len() - k,
    {
        let o = &overlaps[k];
        let ghost before = out@;
        out.push(overlap_diagnostic(o.month_key.as_str(), &o.winner_relative_path, o.reason.as_str()));
        proof {
            assert(string_views(out@).subrange(0, fixed.len() as int) =~= string_views(before).subrange(0, fixed.len() as int));
            assert forall|i: int| 0 <= i < k + 1 implies #[trigger] out@[fixed.len() + i]@ == overlap_line(
                overlaps@[i].month_key@,
                optional_text(overlaps@[i].winner_relative_path),
                overlaps@[i].reason@,
            ) by {
                if i < k {
                    assert(out@[fixed.len() + i] == before[fixed.len() + i]);
                }
            }
        }
        k = k + 1;
    }
    out
}

} // verus!
