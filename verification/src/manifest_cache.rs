//! The shared cache of decoded manifests, one per manifest path, and what a load reports.
//! Reading files and taking their fingerprints is the caller's.
use vstd::prelude::*;
use std::sync::Arc;
use crate::manifest::{ManifestLoadStats, manifest_magic};
use crate::meta::SeriesMeta;
use crate::text::str_eq;

verus! {

/// What tells two versions of a manifest file apart: its length and modification time.
#[derive(Debug, Clone, Copy, PartialEq, Eq, Structural)]
pub struct ManifestFingerprint {
    pub len: u64,
    pub modified_ns: u128,
}

/// A loaded manifest and how it was loaded.
#[derive(Debug, Clone)]
pub struct ManifestLoadReport {
    pub meta: Arc<SeriesMeta>,
    pub stats: ManifestLoadStats,
}

/// The bytes begin with the binary manifest magic (else they are taken for a JSON manifest).
pub fn has_manifest_magic(bytes: &[u8]) -> (r: bool)
    ensures
        r == (bytes@.len() >= 8 && bytes@.subrange(0, 8) == manifest_magic()),
{
    let magic: [u8; 8] = [70u8, 75u8, 77u8, 69u8, 84u8, 65u8, 48u8, 50u8];
    assert(magic@ =~= manifest_magic());
    if bytes.len() < 8 {
        return false;
    }
    let mut i: usize = 0;
    while i < 8
        invariant
            i <= 8,
            bytes@.len() >= 8,
            magic@ == manifest_magic(),
            forall|j: int| 0 <= j < i ==> bytes@[j] == magic@[j],
        decreases 8 - i,
    {
        if bytes[i] != magic[i] {
            assert(bytes@.subrange(0, 8)[i as int] != manifest_magic()[i as int]);
            return false;
        }
        i = i + 1;
    }
    assert(bytes@.subrange(0, 8) =~= manifest_magic());
    true
}

/// Decoded manifests by manifest path, each with the fingerprint of the file it came from.
pub struct ManifestCache {
    entries: Vec<(String, ManifestFingerprint, Arc<SeriesMeta>)>,
}

/// The cache's abstract value: path, fingerprint and manifest of each entry.
pub open spec fn manifest_cache_view(s: Seq<(String, ManifestFingerprint, Arc<SeriesMeta>)>) -> Seq<(Seq<char>, ManifestFingerprint, Arc<SeriesMeta>)> {
    s.map_values(|e: (String, ManifestFingerprint, Arc<SeriesMeta>)| (e.0@, e.1, e.2))
}

/// Position of the entry for `path`, if any.
pub open spec fn path_index(v: Seq<(Seq<char>, ManifestFingerprint, Arc<SeriesMeta>)>, path: Seq<char>) -> Option<int> {
    if exists|i: int| 0 <= i < v.len() && (#[trigger] v[i]).0 == path {
        Some(choose|i: int| 0 <= i < v.len() && (#[trigger] v[i]).0 == path)
    } else {
        None
    }
}

/// The report of a load served from the cache: a hit, nothing read or decoded.
pub open spec fn hit_report(meta: Arc<SeriesMeta>, r: ManifestLoadReport) -> bool {
    &&& r.meta == meta
    &&& r.stats == (ManifestLoadStats {
        shared_cache_hit: true,
        file_read_ns: 0,
        decode_ns: 0,
        chunk_materialize_ns: 0,
        sidecar_materialize_ns: 0,
    })
}

impl ManifestCache {
    /// One entry per path.
    pub closed spec fn wf(&self) -> bool {
        let v = manifest_cache_view(self.entries@);
        forall|i: int, j: int| 0 <= i < j < v.len() ==> (#[trigger] v[i]).0 != (#[trigger] v[j]).0
    }

    /// Path, fingerprint and manifest of each entry.
    pub closed spec fn view_seq(&self) -> Seq<(Seq<char>, ManifestFingerprint, Arc<SeriesMeta>)> {
        manifest_cache_view(self.entries@)
    }

    /// An empty cache.
    pub fn new() -> (r: Self)
        ensures
            r.wf(),
            r.view_seq().len() == 0,
    {
        ManifestCache { entries: Vec::new() }
    }

    fn position(&self, path: &str) -> (r: Option<usize>)
        requires
            self.wf(),
        ensures
            r matches Some(i) ==> i < self.entries@.len() && path_index(self.view_seq(), path@) == Some(i as int),
            r is None ==> path_index(self.view_seq(), path@) is None,
    {
        let ghost v = self.view_seq();
        let mut i: usize = 0;
        while i < self.entries.len()
            invariant
                i <= self.entries@.len(),
                v == manifest_cache_view(self.entries@),
                forall|a: int, b: int| 0 <= a < b < v.len() ==> (#[trigger] v[a]).0 != (#[trigger] v[b]).0,
                forall|q: int| 0 <= q < i ==> (#[trigger] v[q]).0 != path@,
            decreases self.entries@.len() - i,
        {
            proof {
                assert(v[i as int] == (self.entries@[i as int].0@, self.entries@[i as int].1, self.entries@[i as int].2));
            }
            if str_eq(self.entries[i].0.as_str(), path) {
                proof {
                    let c = choose|c: int| 0 <= c < v.len() && (#[trigger] v[c]).0 == path@;
                    if c != i {
                        if c < i {
                            assert(v[c].0 != path@);
                        } else {
                            assert(v[i as int].0 != v[c].0);
                        }
                    }
                }
                return Some(i);
            }
            i = i + 1;
        }
        None
    }

    /// The cached manifest for `path`, whatever file it came from.
    pub fn cached_report(&self, path: &str) -> (r: Option<ManifestLoadReport>)
        requires
            self.wf(),
        ensures
            match path_index(self.view_seq(), path@) {
                Some(i) => r matches Some(rep) && hit_report(self.view_seq()[i].2, rep),
                None => r is None,
            },
    {
        match self.position(path) {
            Some(i) => Some(ManifestLoadReport {
                meta: self.entries[i].2.clone(),
                stats: ManifestLoadStats {
                    shared_cache_hit: true,
                    file_read_ns: 0,
                    decode_ns: 0,
                    chunk_materialize_ns: 0,
                    sidecar_materialize_ns: 0,
                },
            }),
            None => None,
        }
    }

    /// The cached manifest for `path`, only when it came from a file with fingerprint `fp`.
    pub fn validated_report(&self, path: &str, fp: ManifestFingerprint) -> (r: Option<ManifestLoadReport>)
        requires
            self.wf(),
        ensures
            match path_index(self.view_seq(), path@) {
                Some(i) => if self.view_seq()[i].1 == fp {
                    r matches Some(rep) && hit_report(self.view_seq()[i].2, rep)
                } else {
                    r is None
                },
                None => r is None,
            },
    {
        match self.position(path) {
            Some(i) => {
                if self.entries[i].1 == fp {
                    self.cached_report(path)
                } else {
                    None
                }
            },
            None => None,
        }
    }

    /// Caches `meta`, read from a file with fingerprint `fp`, for `path`, in place of what
    /// was cached for it.
    pub fn store(&mut self, path: String, fp: ManifestFingerprint, meta: Arc<SeriesMeta>)
        requires
            old(self).wf(),
        ensures
            final(self).wf(),
            ({
                let v = old(self).view_seq();
                match path_index(v, path@) {
                    Some(i) => final(self).view_seq() == v.update(i, (path@, fp, meta)),
                    None => final(self).view_seq() == v.push((path@, fp, meta)),
                }
            }),
    {
        let ghost v = self.view_seq();
        let ghost p = path@;
        match self.position(path.as_str()) {
            Some(i) => {
                self.entries.set(i, (path, fp, meta));
                proof {
                    let t = self.view_seq();
                    assert(t =~= v.update(i as int, (p, fp, meta)));
                    assert forall|a: int, b: int| 0 <= a < b < t.len() implies (#[trigger] t[a]).0 != (#[trigger] t[b]).0 by {
                        assert(v[i as int].0 == p);
                        if a == i {
                            assert(t[b] == v[b]);
                        } else if b == i {
                            assert(t[a] == v[a]);
                        } else {
                            assert(t[a] == v[a] && t[b] == v[b]);
                        }
                    }
                }
            },
            None => {
                self.entries.push((path, fp, meta));
                proof {
                    let t = self.view_seq();
                    assert(t =~= v.push((p, fp, meta)));
                    assert forall|a: int, b: int| 0 <= a < b < t.len() implies (#[trigger] t[a]).0 != (#[trigger] t[b]).0 by {
                        if b == v.len() {
                            assert(t[a] == v[a]);
                        } else {
                            assert(t[a] == v[a] && t[b] == v[b]);
                        }
                    }
                }
            },
        }
    }
}

/// After storing a manifest for a path, a validated lookup with the same fingerprint finds
/// it, and entries for other paths are untouched.
pub proof fn manifest_cache_read_after_store(
    v: Seq<(Seq<char>, ManifestFingerprint, Arc<SeriesMeta>)>,
    w: Seq<(Seq<char>, ManifestFingerprint, Arc<SeriesMeta>)>,
    path: Seq<char>,
    fp: ManifestFingerprint,
    meta: Arc<SeriesMeta>,
)
    requires
        forall|i: int, j: int| 0 <= i < j < v.len() ==> (#[trigger] v[i]).0 != (#[trigger] v[j]).0,
        match path_index(v, path) {
            Some(i) => w == v.update(i, (path, fp, meta)),
            None => w == v.push((path, fp, meta)),
        },
    ensures
        path_index(w, path) matches Some(k) && w[k] == (path, fp, meta),
        forall|other: Seq<char>| other != path && (#[trigger] path_index(v, other)) is Some
            ==> w[path_index(v, other)->Some_0] == v[path_index(v, other)->Some_0],
{
    match path_index(v, path) {
        Some(i) => {
            assert(w[i].0 == path);
            let k = choose|k: int| 0 <= k < w.len() && (#[trigger] w[k]).0 == path;
            if k != i {
                assert(w[k] == v[k]);
                assert(v[i].0 == path);
            }
        },
        None => {
            assert(w[v.len() as int].0 == path);
            let k = choose|k: int| 0 <= k < w.len() && (#[trigger] w[k]).0 == path;
            if k < v.len() {
                assert(w[k] == v[k]);
            }
        },
    }
    assert forall|other: Seq<char>| other != path && (#[trigger] path_index(v, other)) is Some
        implies w[path_index(v, other)->Some_0] == v[path_index(v, other)->Some_0] by {
        let j = path_index(v, other)->Some_0;
        if let Some(i) = path_index(v, path) {
            assert(v[i].0 == path);
            assert(v[j].0 == other);
        }
    }
}

} // verus!
