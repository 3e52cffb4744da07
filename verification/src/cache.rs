//! Keyed caches of chunk layouts and scalar sidecars. Each cache holds at most one value per
//! key; the sidecar caches also keep their keys in least-recently-used order and evict the
//! oldest beyond their capacity. Loading values from files is the caller's part.
use vstd::prelude::*;
use vstd::utf8::*;
use crate::error::{FastKError, Result};
use crate::header::ChunkHeader;
use crate::meta::ChunkMeta;
use crate::sparse_index::SparseIndexEntry;
use crate::text::{owned, str_eq};
use crate::vix::ValueIndexEntry;
use crate::zmap::ZoneMapEntry;
use std::sync::Arc;

verus! {

/// Identity of a chunk layout in the header cache.
#[derive(Debug, Clone, PartialEq, Eq, Hash)]
pub struct ChunkCacheKey {
    pub chunk_id: u64,
    pub generation: u64,
    pub series_id: u64,
    pub relative_path: String,
}

/// The key's abstract value.
pub open spec fn chunk_key_view(k: ChunkCacheKey) -> (u64, u64, u64, Seq<char>) {
    (k.chunk_id, k.generation, k.series_id, k.relative_path@)
}

impl ChunkCacheKey {
    /// The cache key of a chunk of series `series_id`.
    pub fn from_meta(chunk: &ChunkMeta, series_id: u64) -> (r: Self)
        ensures
            chunk_key_view(r) == (chunk.chunk_id, chunk.generation as u64, series_id, chunk.relative_path@),
    {
        ChunkCacheKey {
            chunk_id: chunk.chunk_id,
            generation: chunk.generation as u64,
            series_id,
            relative_path: owned(chunk.relative_path.as_str()),
        }
    }
}

fn chunk_keys_equal(a: &ChunkCacheKey, b: &ChunkCacheKey) -> (r: bool)
    ensures
        r == (chunk_key_view(*a) == chunk_key_view(*b)),
{
    a.chunk_id == b.chunk_id && a.generation == b.generation && a.series_id == b.series_id && str_eq(
        a.relative_path.as_str(),
        b.relative_path.as_str(),
    )
}

/// Header and sparse index of a chunk file.
#[derive(Debug, Clone)]
pub struct CachedChunkLayout {
    pub header: ChunkHeader,
    pub sparse_index: Arc<Vec<SparseIndexEntry>>,
}

/// Cache of chunk layouts, one per chunk key.
#[derive(Debug)]
pub struct ChunkHeaderCache {
    entries: Vec<(ChunkCacheKey, Arc<CachedChunkLayout>)>,
}

/// No two entries share a key.
pub open spec fn chunk_keys_unique(s: Seq<(ChunkCacheKey, Arc<CachedChunkLayout>)>) -> bool {
    forall|i: int, j: int| 0 <= i < j < s.len() ==> chunk_key_view(#[trigger] s[i].0) != chunk_key_view(#[trigger] s[j].0)
}

/// The entries as a map from key to layout.
pub open spec fn chunk_cache_map(s: Seq<(ChunkCacheKey, Arc<CachedChunkLayout>)>) -> Map<(u64, u64, u64, Seq<char>), Arc<CachedChunkLayout>> {
    Map::new(
        |k: (u64, u64, u64, Seq<char>)| exists|i: int| 0 <= i < s.len() && chunk_key_view(#[trigger] s[i].0) == k,
        |k: (u64, u64, u64, Seq<char>)| s[choose|i: int| 0 <= i < s.len() && chunk_key_view(#[trigger] s[i].0) == k].1,
    )
}

impl ChunkHeaderCache {
    /// The cache's well-formedness: one entry per key.
    pub closed spec fn wf(&self) -> bool {
        chunk_keys_unique(self.entries@)
    }

    /// The cached layouts by key.
    pub closed spec fn map(&self) -> Map<(u64, u64, u64, Seq<char>), Arc<CachedChunkLayout>> {
        chunk_cache_map(self.entries@)
    }

    /// An empty cache.
    pub fn new() -> (r: Self)
        ensures
            r.wf(),
            r.map() == Map::<(u64, u64, u64, Seq<char>), Arc<CachedChunkLayout>>::empty(),
    {
        let r = ChunkHeaderCache { entries: Vec::new() };
        assert(r.map() =~= Map::<(u64, u64, u64, Seq<char>), Arc<CachedChunkLayout>>::empty());
        r
    }

    fn position(&self, key: &ChunkCacheKey) -> (r: Option<usize>)
        requires
            self.wf(),
        ensures
            r matches Some(i) ==> i < self.entries@.len() && chunk_key_view(self.entries@[i as int].0) == chunk_key_view(*key),
            r is None ==> !self.map().contains_key(chunk_key_view(*key)),
    {
        let mut i: usize = 0;
        while i < self.entries.len()
            invariant
                i <= self.entries@.len(),
                forall|q: int| 0 <= q < i ==> chunk_key_view(#[trigger] self.entries@[q].0) != chunk_key_view(*key),
            decreases self.entries@.len() - i,
        {
            if chunk_keys_equal(&self.entries[i].0, key) {
                return Some(i);
            }
            i = i + 1;
        }
        None
    }

    /// The layout cached under `key`, if any.
    pub fn get(&self, key: &ChunkCacheKey) -> (r: Option<Arc<CachedChunkLayout>>)
        requires
            self.wf(),
        ensures
            r == (if self.map().contains_key(chunk_key_view(*key)) { Some(self.map()[chunk_key_view(*key)]) } else { None }),
    {
        match self.position(key) {
            Some(i) => {
                proof {
                    let s = self.entries@;
                    let k = chunk_key_view(*key);
                    assert(self.map().contains_key(k));
                    let c = choose|j: int| 0 <= j < s.len() && chunk_key_view(#[trigger] s[j].0) == k;
                    assert(c == i);
                }
                Some(self.entries[i].1.clone())
            },
            None => None,
        }
    }

    /// Caches `layout` under `key`, replacing what was there.
    pub fn insert(&mut self, key: ChunkCacheKey, layout: Arc<CachedChunkLayout>)
        requires
            old(self).wf(),
        ensures
            final(self).wf(),
            final(self).map() == old(self).map().insert(chunk_key_view(key), layout),
    {
        let ghost k = chunk_key_view(key);
        match self.position(&key) {
            Some(i) => {
                let ghost s = self.entries@;
                self.entries.set(i, (key, layout));
                proof {
                    let t = self.entries@;
                    assert(t == s.update(i as int, (key, layout)));
                    assert forall|a: int, b: int| 0 <= a < b < t.len() implies chunk_key_view(#[trigger] t[a].0) != chunk_key_view(#[trigger] t[b].0) by {
                        assert(chunk_key_view(s[a].0) != chunk_key_view(s[b].0));
                    }
                    assert forall|kk: (u64, u64, u64, Seq<char>)| #[trigger] chunk_cache_map(t).contains_key(kk) == old(self).map().insert(k, layout).contains_key(kk) by {
                        if exists|j: int| 0 <= j < t.len() && chunk_key_view(#[trigger] t[j].0) == kk {
                            let j = choose|j: int| 0 <= j < t.len() && chunk_key_view(#[trigger] t[j].0) == kk;
                            if j != i {
                                assert(chunk_key_view(s[j].0) == kk);
                            }
                        }
                        if exists|j: int| 0 <= j < s.len() && chunk_key_view(#[trigger] s[j].0) == kk {
                            let j = choose|j: int| 0 <= j < s.len() && chunk_key_view(#[trigger] s[j].0) == kk;
                            if j != i {
                                assert(chunk_key_view(t[j].0) == kk);
                            } else {
                                assert(chunk_key_view(t[i as int].0) == kk);
                            }
                        }
                        if kk == k {
                            assert(chunk_key_view(t[i as int].0) == kk);
                        }
                    }
                    assert forall|kk: (u64, u64, u64, Seq<char>)| #[trigger] chunk_cache_map(t).contains_key(kk) implies chunk_cache_map(t)[kk] == old(self).map().insert(k, layout)[kk] by {
                        let j = choose|j: int| 0 <= j < t.len() && chunk_key_view(#[trigger] t[j].0) == kk;
                        if kk == k {
                            assert(j == i);
                        } else {
                            assert(j != i);
                            assert(chunk_key_view(s[j].0) == kk);
                            let j2 = choose|j2: int| 0 <= j2 < s.len() && chunk_key_view(#[trigger] s[j2].0) == kk;
                            assert(j2 == j);
                        }
                    }
                    assert(chunk_cache_map(t) =~= old(self).map().insert(k, layout));
                }
            },
            None => {
                let ghost s = self.entries@;
                self.entries.push((key, layout));
                proof {
                    let t = self.entries@;
                    assert(t == s.push((key, layout)));
                    assert forall|a: int, b: int| 0 <= a < b < t.len() implies chunk_key_view(#[trigger] t[a].0) != chunk_key_view(#[trigger] t[b].0) by {
                        if b == s.len() {
                            assert(t[a] == s[a]);
                            assert(!chunk_cache_map(s).contains_key(k));
                        } else {
                            assert(t[a] == s[a] && t[b] == s[b]);
                        }
                    }
                    assert forall|kk: (u64, u64, u64, Seq<char>)| #[trigger] chunk_cache_map(t).contains_key(kk) == old(self).map().insert(k, layout).contains_key(kk) by {
                        if exists|j: int| 0 <= j < t.len() && chunk_key_view(#[trigger] t[j].0) == kk {
                            let j = choose|j: int| 0 <= j < t.len() && chunk_key_view(#[trigger] t[j].0) == kk;
                            if j < s.len() {
                                assert(chunk_key_view(s[j].0) == kk);
                            }
                        }
                        if exists|j: int| 0 <= j < s.len() && chunk_key_view(#[trigger] s[j].0) == kk {
                            let j = choose|j: int| 0 <= j < s.len() && chunk_key_view(#[trigger] s[j].0) == kk;
                            assert(chunk_key_view(t[j].0) == kk);
                        }
                        if kk == k {
                            assert(chunk_key_view(t[s.len() as int].0) == kk);
                        }
                    }
                    assert forall|kk: (u64, u64, u64, Seq<char>)| #[trigger] chunk_cache_map(t).contains_key(kk) implies chunk_cache_map(t)[kk] == old(self).map().insert(k, layout)[kk] by {
                        let j = choose|j: int| 0 <= j < t.len() && chunk_key_view(#[trigger] t[j].0) == kk;
                        if kk == k {
                            if j < s.len() {
                                assert(chunk_key_view(s[j].0) == k);
                                assert(chunk_cache_map(s).contains_key(k));
                            }
                        } else {
                            assert(j < s.len());
                            assert(chunk_key_view(s[j].0) == kk);
                            let j2 = choose|j2: int| 0 <= j2 < s.len() && chunk_key_view(#[trigger] s[j2].0) == kk;
                            assert(chunk_key_view(t[j2].0) == kk);
                            assert(j2 == j);
                        }
                    }
                    assert(chunk_cache_map(t) =~= old(self).map().insert(k, layout));
                }
            },
        }
    }

    /// Drops the layout cached under `key`, if any.
    pub fn invalidate(&mut self, key: &ChunkCacheKey)
        requires
            old(self).wf(),
        ensures
            final(self).wf(),
            final(self).map() == old(self).map().remove(chunk_key_view(*key)),
    {
        let ghost k = chunk_key_view(*key);
        match self.position(key) {
            Some(i) => {
                let ghost s = self.entries@;
                let _removed = self.entries.remove(i);
                proof {
                    let t = self.entries@;
                    assert(t == s.remove(i as int));
                    assert forall|a: int, b: int| 0 <= a < b < t.len() implies chunk_key_view(#[trigger] t[a].0) != chunk_key_view(#[trigger] t[b].0) by {
                        let sa = if a < i { a } else { a + 1 };
                        let sb = if b < i { b } else { b + 1 };
                        assert(t[a] == s[sa] && t[b] == s[sb]);
                    }
                    assert forall|kk: (u64, u64, u64, Seq<char>)| #[trigger] chunk_cache_map(t).contains_key(kk) == old(self).map().remove(k).contains_key(kk) by {
                        if exists|j: int| 0 <= j < t.len() && chunk_key_view(#[trigger] t[j].0) == kk {
                            let j = choose|j: int| 0 <= j < t.len() && chunk_key_view(#[trigger] t[j].0) == kk;
                            let sj = if j < i { j } else { j + 1 };
                            assert(t[j] == s[sj]);
                            assert(chunk_key_view(s[sj].0) == kk);
                            assert(sj != i);
                        }
                        if exists|j: int| 0 <= j < s.len() && chunk_key_view(#[trigger] s[j].0) == kk && kk != k {
                            let j = choose|j: int| 0 <= j < s.len() && chunk_key_view(#[trigger] s[j].0) == kk && kk != k;
                            assert(j != i);
                            let tj = if j < i { j } else { j - 1 };
                            assert(t[tj] == s[j]);
                        }
                    }
                    assert forall|kk: (u64, u64, u64, Seq<char>)| #[trigger] chunk_cache_map(t).contains_key(kk) implies chunk_cache_map(t)[kk] == old(self).map().remove(k)[kk] by {
                        let j = choose|j: int| 0 <= j < t.len() && chunk_key_view(#[trigger] t[j].0) == kk;
                        let sj = if j < i { j } else { j + 1 };
                        assert(t[j] == s[sj]);
                        let j2 = choose|j2: int| 0 <= j2 < s.len() && chunk_key_view(#[trigger] s[j2].0) == kk;
                        assert(chunk_key_view(s[sj].0) == kk);
                        assert(j2 == sj);
                    }
                    assert(chunk_cache_map(t) =~= old(self).map().remove(k));
                }
            },
            None => {
                assert(self.map() =~= old(self).map().remove(k));
            },
        }
    }

    /// Drops every cached layout.
    pub fn clear(&mut self)
        ensures
            final(self).wf(),
            final(self).map() == Map::<(u64, u64, u64, Seq<char>), Arc<CachedChunkLayout>>::empty(),
    {
        self.entries = Vec::new();
        assert(self.map() =~= Map::<(u64, u64, u64, Seq<char>), Arc<CachedChunkLayout>>::empty());
    }
}

/// Looking a key up right after caching a layout under it gives that layout back.
pub proof fn chunk_cache_read_after_write(m: Map<(u64, u64, u64, Seq<char>), Arc<CachedChunkLayout>>, k: (u64, u64, u64, Seq<char>), v: Arc<CachedChunkLayout>, other: (u64, u64, u64, Seq<char>))
    ensures
        m.insert(k, v).contains_key(k) && m.insert(k, v)[k] == v,
        other != k ==> (m.insert(k, v).contains_key(other) == m.contains_key(other)),
        other != k && m.contains_key(other) ==> m.insert(k, v)[other] == m[other],
        !m.remove(k).contains_key(k),
{
}

} // verus!

verus! {

/// Number of sidecars each sidecar cache keeps.
pub const DEFAULT_SIDECAR_CACHE_CAPACITY: usize = 64;

/// Identity of a sidecar in the sidecar caches.
#[derive(Debug, Clone, PartialEq, Eq, Hash)]
pub struct SidecarCacheKey {
    pub generation: u32,
    pub relative_path: String,
}

/// The key's abstract value.
pub open spec fn sidecar_key_view(k: SidecarCacheKey) -> (u32, Seq<char>) {
    (k.generation, k.relative_path@)
}

fn sidecar_keys_equal(a: &SidecarCacheKey, b: &SidecarCacheKey) -> (r: bool)
    ensures
        r == (sidecar_key_view(*a) == sidecar_key_view(*b)),
{
    a.generation == b.generation && str_eq(a.relative_path.as_str(), b.relative_path.as_str())
}

/// Cached sidecar entries, least recently used first.
pub struct SidecarLru<T> {
    entries: Vec<(SidecarCacheKey, Arc<Vec<T>>)>,
}

/// The cache's abstract value: keys and entries, least recently used first.
pub open spec fn lru_view<T>(s: Seq<(SidecarCacheKey, Arc<Vec<T>>)>) -> Seq<((u32, Seq<char>), Arc<Vec<T>>)> {
    s.map_values(|e: (SidecarCacheKey, Arc<Vec<T>>)| (sidecar_key_view(e.0), e.1))
}

/// No key occurs twice.
pub open spec fn keys_distinct<T>(v: Seq<((u32, Seq<char>), Arc<Vec<T>>)>) -> bool {
    forall|i: int, j: int| 0 <= i < j < v.len() ==> (#[trigger] v[i]).0 != (#[trigger] v[j]).0
}

/// Position of key `k`, if cached.
pub open spec fn key_index<T>(v: Seq<((u32, Seq<char>), Arc<Vec<T>>)>, k: (u32, Seq<char>)) -> Option<int> {
    if exists|i: int| 0 <= i < v.len() && (#[trigger] v[i]).0 == k {
        Some(choose|i: int| 0 <= i < v.len() && (#[trigger] v[i]).0 == k)
    } else {
        None
    }
}

/// The cache after a hit at `i`: that entry becomes the most recently used.
pub open spec fn touched<T>(v: Seq<((u32, Seq<char>), Arc<Vec<T>>)>, i: int) -> Seq<((u32, Seq<char>), Arc<Vec<T>>)> {
    v.remove(i).push(v[i])
}

/// Entries whose key is not `k`.
pub open spec fn other_key<T>(k: (u32, Seq<char>)) -> spec_fn(((u32, Seq<char>), Arc<Vec<T>>)) -> bool {
    |e: ((u32, Seq<char>), Arc<Vec<T>>)| e.0 != k
}

/// The `cap` most recently used entries.
pub open spec fn keep_newest<T>(v: Seq<((u32, Seq<char>), Arc<Vec<T>>)>, cap: nat) -> Seq<((u32, Seq<char>), Arc<Vec<T>>)> {
    if v.len() > cap { v.subrange(v.len() - cap, v.len() as int) } else { v }
}

/// The cache after storing `val` under `k` with room for `cap` entries: any old entry of
/// `k` goes, the new one is the most recently used, and the oldest beyond `cap` are evicted.
pub open spec fn stored<T>(v: Seq<((u32, Seq<char>), Arc<Vec<T>>)>, k: (u32, Seq<char>), val: Arc<Vec<T>>, cap: nat) -> Seq<((u32, Seq<char>), Arc<Vec<T>>)> {
    keep_newest(v.filter(other_key(k)).push((k, val)), cap)
}

/// The UTF-8 bytes of `path` begin with those of `prefix`.
pub open spec fn path_starts_with(path: Seq<char>, prefix: Seq<char>) -> bool {
    let p = encode_utf8(path);
    let q = encode_utf8(prefix);
    q.len() <= p.len() && p.subrange(0, q.len() as int) == q
}

/// Entries whose path does not begin with `prefix`.
pub open spec fn outside_prefix<T>(prefix: Seq<char>) -> spec_fn(((u32, Seq<char>), Arc<Vec<T>>)) -> bool {
    |e: ((u32, Seq<char>), Arc<Vec<T>>)| !path_starts_with(e.0.1, prefix)
}

fn starts_with(path: &str, prefix: &str) -> (r: bool)
    ensures
        r == path_starts_with(path@, prefix@),
{
    let p = path.as_bytes();
    let q = prefix.as_bytes();
    assert(p@ == encode_utf8(path@));
    assert(q@ == encode_utf8(prefix@));
    if q.len() > p.len() {
        return false;
    }
    let mut i: usize = 0;
    while i < q.len()
        invariant
            i <= q@.len(),
            q@.len() <= p@.len(),
            p@ == encode_utf8(path@),
            q@ == encode_utf8(prefix@),
            forall|j: int| 0 <= j < i ==> p@[j] == q@[j],
        decreases q@.len() - i,
    {
        if p[i] != q[i] {
            assert(p@.subrange(0, q@.len() as int)[i as int] != q@[i as int]);
            return false;
        }
        i = i + 1;
    }
    assert(p@.subrange(0, q@.len() as int) =~= q@);
    true
}

proof fn lemma_distinct_filter<T>(v: Seq<((u32, Seq<char>), Arc<Vec<T>>)>, f: spec_fn(((u32, Seq<char>), Arc<Vec<T>>)) -> bool)
    requires
        keys_distinct(v),
    ensures
        keys_distinct(v.filter(f)),
        forall|e: ((u32, Seq<char>), Arc<Vec<T>>)| #[trigger] v.filter(f).contains(e) ==> v.contains(e) && f(e),
    decreases v.len(),
{
    reveal(Seq::filter);
    if v.len() > 0 {
        let init = v.drop_last();
        assert(keys_distinct(init)) by {
            assert forall|i: int, j: int| 0 <= i < j < init.len() implies (#[trigger] init[i]).0 != (#[trigger] init[j]).0 by {
                assert(init[i] == v[i] && init[j] == v[j]);
            }
        }
        lemma_distinct_filter(init, f);
        let fi = init.filter(f);
        assert forall|e: ((u32, Seq<char>), Arc<Vec<T>>)| #[trigger] fi.contains(e) implies v.contains(e) by {
            let j = choose|j: int| 0 <= j < init.len() && init[j] == e;
            assert(v[j] == e);
        }
        if f(v.last()) {
            let r = fi.push(v.last());
            assert(v.filter(f) == r);
            assert forall|i: int, j: int| 0 <= i < j < r.len() implies (#[trigger] r[i]).0 != (#[trigger] r[j]).0 by {
                if j == r.len() - 1 {
                    assert(fi.contains(r[i]));
                    let q = choose|q: int| 0 <= q < init.len() && init[q] == r[i];
                    assert(v[q] == r[i]);
                    assert(v[v.len() - 1] == v.last());
                } else {
                    assert(r[i] == fi[i] && r[j] == fi[j]);
                }
            }
            assert forall|e: ((u32, Seq<char>), Arc<Vec<T>>)| #[trigger] r.contains(e) implies v.contains(e) && f(e) by {
                let q = choose|q: int| 0 <= q < r.len() && r[q] == e;
                if q < fi.len() {
                    assert(fi.contains(e));
                } else {
                    assert(v[v.len() - 1] == e);
                }
            }
        } else {
            assert(v.filter(f) == fi);
        }
    }
}

impl<T> SidecarLru<T> {
    /// One entry per key.
    pub closed spec fn wf(&self) -> bool {
        keys_distinct(lru_view(self.entries@))
    }

    /// Keys and entries, least recently used first.
    pub closed spec fn view_seq(&self) -> Seq<((u32, Seq<char>), Arc<Vec<T>>)> {
        lru_view(self.entries@)
    }

    /// An empty cache.
    pub fn new() -> (r: Self)
        ensures
            r.wf(),
            r.view_seq() == Seq::<((u32, Seq<char>), Arc<Vec<T>>)>::empty(),
    {
        let r = SidecarLru { entries: Vec::new() };
        assert(r.view_seq() =~= Seq::<((u32, Seq<char>), Arc<Vec<T>>)>::empty());
        r
    }

    fn position(&self, key: &SidecarCacheKey) -> (r: Option<usize>)
        requires
            self.wf(),
        ensures
            r matches Some(i) ==> key_index(self.view_seq(), sidecar_key_view(*key)) == Some(i as int) && i < self.entries@.len(),
            r is None ==> key_index(self.view_seq(), sidecar_key_view(*key)) is None,
    {
        let ghost v = self.view_seq();
        let ghost k = sidecar_key_view(*key);
        let mut i: usize = 0;
        while i < self.entries.len()
            invariant
                i <= self.entries@.len(),
                v == lru_view(self.entries@),
                k == sidecar_key_view(*key),
                keys_distinct(v),
                forall|q: int| 0 <= q < i ==> (#[trigger] v[q]).0 != k,
            decreases self.entries@.len() - i,
        {
            proof {
                assert(v[i as int] == (sidecar_key_view(self.entries@[i as int].0), self.entries@[i as int].1));
            }
            if sidecar_keys_equal(&self.entries[i].0, key) {
                proof {
                    assert(v[i as int].0 == k);
                    let c = choose|c: int| 0 <= c < v.len() && (#[trigger] v[c]).0 == k;
                    if c != i {
                        if c < i {
                            assert(v[c].0 != k);
                        } else {
                            assert(v[i as int].0 != v[c].0);
                        }
                    }
                }
                return Some(i);
            }
            i = i + 1;
        }
        None
    }

    /// The entries cached under `key`, if any; a hit makes them the most recently used.
    pub fn lookup(&mut self, key: &SidecarCacheKey) -> (r: Option<Arc<Vec<T>>>)
        requires
            old(self).wf(),
        ensures
            final(self).wf(),
            match key_index(old(self).view_seq(), sidecar_key_view(*key)) {
                Some(i) => r == Some(old(self).view_seq()[i].1) && final(self).view_seq() == touched(old(self).view_seq(), i),
                None => r is None && final(self).view_seq() == old(self).view_seq(),
            },
    {
        match self.position(key) {
            Some(i) => {
                let ghost v = self.view_seq();
                let e = self.entries.remove(i);
                let value = e.1.clone();
                self.entries.push(e);
                proof {
                    let t = self.view_seq();
                    assert(t =~= touched(v, i as int));
                    assert forall|a: int, b: int| 0 <= a < b < t.len() implies (#[trigger] t[a]).0 != (#[trigger] t[b]).0 by {
                        let sa = if a < i { a } else if a < t.len() - 1 { a + 1 } else { i as int };
                        let sb = if b < i { b } else if b < t.len() - 1 { b + 1 } else { i as int };
                        assert(t[a] == v[sa] && t[b] == v[sb]);
                        assert(sa != sb);
                    }
                }
                Some(value)
            },
            None => None,
        }
    }

    /// Caches `value` under `key` with room for `capacity` entries (see `stored`).
    pub fn store(&mut self, key: SidecarCacheKey, value: Arc<Vec<T>>, capacity: usize)
        requires
            old(self).wf(),
        ensures
            final(self).wf(),
            final(self).view_seq() == stored(old(self).view_seq(), sidecar_key_view(key), value, capacity as nat),
    {
        let ghost v = self.view_seq();
        let ghost k = sidecar_key_view(key);
        let ghost f = other_key::<T>(k);
        proof {
            lemma_distinct_filter(v, f);
        }
        match self.position(&key) {
            Some(i) => {
                let _old = self.entries.remove(i);
                proof {
                    assert(self.view_seq() =~= v.remove(i as int));
                    assert(v.remove(i as int) =~= v.filter(f)) by {
                        reveal(Seq::filter);
                        lemma_filter_drops_one(v, k, i as int);
                    }
                }
            },
            None => {
                proof {
                    assert(v.filter(f) =~= v) by {
                        lemma_filter_keeps_all(v, k);
                    }
                }
            },
        }
        let ghost w = self.view_seq();
        self.entries.push((key, value));
        proof {
            assert(self.view_seq() =~= w.push((k, value)));
            let t = self.view_seq();
            assert forall|a: int, b: int| 0 <= a < b < t.len() implies (#[trigger] t[a]).0 != (#[trigger] t[b]).0 by {
                if b == t.len() - 1 {
                    assert(w.contains(t[a]));
                    assert(f(t[a]));
                } else {
                    assert(t[a] == w[a] && t[b] == w[b]);
                }
            }
        }
        let ghost full = self.view_seq();
        while self.entries.len() > capacity
            invariant
                keys_distinct(lru_view(self.entries@)),
                full.len() >= self.entries@.len(),
                full.len() > capacity ==> self.entries@.len() >= capacity,
                full.len() <= capacity ==> self.entries@.len() == full.len(),
                lru_view(self.entries@) == full.subrange(full.len() - self.entries@.len(), full.len() as int),
            decreases self.entries@.len(),
        {
            let ghost before = lru_view(self.entries@);
            let _evicted = self.entries.remove(0);
            proof {
                let t = lru_view(self.entries@);
                assert(t =~= before.subrange(1, before.len() as int));
                assert(t =~= full.subrange(full.len() - self.entries@.len(), full.len() as int));
                assert forall|a: int, b: int| 0 <= a < b < t.len() implies (#[trigger] t[a]).0 != (#[trigger] t[b]).0 by {
                    assert(t[a] == before[a + 1] && t[b] == before[b + 1]);
                }
            }
        }
        proof {
            if full.len() <= capacity {
                assert(full.subrange(0, full.len() as int) =~= full);
            }
        }
    }

    /// Drops every entry whose path begins with `prefix`.
    pub fn invalidate(&mut self, prefix: &str)
        requires
            old(self).wf(),
        ensures
            final(self).wf(),
            final(self).view_seq() == old(self).view_seq().filter(outside_prefix(prefix@)),
    {
        let ghost v = self.view_seq();
        let ghost f = outside_prefix::<T>(prefix@);
        proof {
            lemma_distinct_filter(v, f);
        }
        let mut rest: Vec<(SidecarCacheKey, Arc<Vec<T>>)> = Vec::new();
        std::mem::swap(&mut rest, &mut self.entries);
        let ghost s = rest@;
        let total = rest.len();
        let mut kept: Vec<(SidecarCacheKey, Arc<Vec<T>>)> = Vec::new();
        let mut k: usize = 0;
        while rest.len() > 0
            invariant
                s.len() == total,
                k + rest@.len() == s.len(),
                rest@ == s.subrange(k as int, s.len() as int),
                v == lru_view(s),
                f == outside_prefix::<T>(prefix@),
                lru_view(kept@) == lru_view(s.subrange(0, k as int)).filter(f),
            decreases rest@.len(),
        {
            let e = rest.remove(0);
            proof {
                reveal(Seq::filter);
                let pre = lru_view(s.subrange(0, k as int));
                let next = lru_view(s.subrange(0, k + 1));
                assert(next.drop_last() =~= pre);
                assert(next.last() == (sidecar_key_view(e.0), e.1));
            }
            if !starts_with(e.0.relative_path.as_str(), prefix) {
                let ghost before = kept@;
                kept.push(e);
                proof {
                    assert(lru_view(kept@) =~= lru_view(before).push((sidecar_key_view(e.0), e.1)));
                }
            }
            k = k + 1;
            proof {
                assert(rest@ =~= s.subrange(k as int, s.len() as int));
            }
        }
        assert(s.subrange(0, k as int) =~= s);
        self.entries = kept;
    }

    /// Drops every entry.
    pub fn clear(&mut self)
        ensures
            final(self).wf(),
            final(self).view_seq() == Seq::<((u32, Seq<char>), Arc<Vec<T>>)>::empty(),
    {
        self.entries = Vec::new();
        assert(self.view_seq() =~= Seq::<((u32, Seq<char>), Arc<Vec<T>>)>::empty());
    }
}

proof fn lemma_filter_keeps_all<T>(v: Seq<((u32, Seq<char>), Arc<Vec<T>>)>, k: (u32, Seq<char>))
    requires
        key_index(v, k) is None,
    ensures
        v.filter(other_key(k)) == v,
    decreases v.len(),
{
    reveal(Seq::filter);
    if v.len() > 0 {
        let init = v.drop_last();
        assert(key_index(init, k) is None) by {
            if exists|i: int| 0 <= i < init.len() && (#[trigger] init[i]).0 == k {
                let i = choose|i: int| 0 <= i < init.len() && (#[trigger] init[i]).0 == k;
                assert(v[i] == init[i]);
            }
        }
        lemma_filter_keeps_all(init, k);
        assert(v[v.len() - 1].0 != k);
        assert(init.push(v.last()) =~= v);
    } else {
        assert(v.filter(other_key(k)) =~= v);
    }
}

proof fn lemma_filter_drops_one<T>(v: Seq<((u32, Seq<char>), Arc<Vec<T>>)>, k: (u32, Seq<char>), i: int)
    requires
        keys_distinct(v),
        0 <= i < v.len(),
        v[i].0 == k,
    ensures
        v.filter(other_key(k)) == v.remove(i),
    decreases v.len(),
{
    reveal(Seq::filter);
    let init = v.drop_last();
    if i == v.len() - 1 {
        assert(key_index(init, k) is None) by {
            if exists|j: int| 0 <= j < init.len() && (#[trigger] init[j]).0 == k {
                let j = choose|j: int| 0 <= j < init.len() && (#[trigger] init[j]).0 == k;
                assert(v[j] == init[j]);
            }
        }
        lemma_filter_keeps_all(init, k);
        assert(v.remove(i) =~= init);
    } else {
        assert(keys_distinct(init)) by {
            assert forall|a: int, b: int| 0 <= a < b < init.len() implies (#[trigger] init[a]).0 != (#[trigger] init[b]).0 by {
                assert(init[a] == v[a] && init[b] == v[b]);
            }
        }
        assert(init[i] == v[i]);
        lemma_filter_drops_one(init, k, i);
        assert(v.last().0 != k) by {
            assert(v[v.len() - 1].0 != v[i].0);
        }
        assert(v.remove(i) =~= init.remove(i).push(v.last()));
    }
}

} // verus!

verus! {

/// `v` is what the bytes `b` of a `.zmap` file decode to.
pub open spec fn zmap_file_holds(b: Seq<u8>, v: Seq<ZoneMapEntry>) -> bool {
    &&& b.len() % 40 == 0
    &&& v.len() == b.len() / 40
    &&& forall|k: int| 0 <= k < v.len() ==> #[trigger] v[k] == ZoneMapEntry::decoding(b.subrange(40 * k, 40 * k + 40))
}

/// `v` is what the bytes `b` of a `.vix` file decode to.
pub open spec fn vix_file_holds(b: Seq<u8>, v: Seq<ValueIndexEntry>) -> bool {
    &&& b.len() % 16 == 0
    &&& v.len() == b.len() / 16
    &&& forall|k: int| 0 <= k < v.len() ==> #[trigger] v[k] == ValueIndexEntry::decoding(b.subrange(16 * k, 16 * k + 16))
}

/// Least-recently-used caches of the zone maps and value indexes of scalar chunks.
pub struct ScalarSidecarRuntime {
    pub capacity: usize,
    pub zmap: SidecarLru<ZoneMapEntry>,
    pub vix: SidecarLru<ValueIndexEntry>,
}

impl ScalarSidecarRuntime {
    /// Both caches hold one entry per key.
    pub open spec fn wf(&self) -> bool {
        self.zmap.wf() && self.vix.wf()
    }

    /// Empty caches with room for `DEFAULT_SIDECAR_CACHE_CAPACITY` sidecars each.
    pub fn new() -> (r: Self)
        ensures
            r.wf(),
            r.capacity == DEFAULT_SIDECAR_CACHE_CAPACITY,
            r.zmap.view_seq().len() == 0,
            r.vix.view_seq().len() == 0,
    {
        ScalarSidecarRuntime { capacity: DEFAULT_SIDECAR_CACHE_CAPACITY, zmap: SidecarLru::new(), vix: SidecarLru::new() }
    }

    /// The zone map cached under `key`; on a miss, the bytes `load` gives are decoded and
    /// cached. A failed load or decode leaves the cache as it was.
    pub fn get_zmap<F: FnOnce() -> Result<Vec<u8>>>(&mut self, key: SidecarCacheKey, load: F) -> (r: Result<Arc<Vec<ZoneMapEntry>>>)
        requires
            old(self).wf(),
            load.requires(()),
        ensures
            final(self).wf(),
            final(self).capacity == old(self).capacity,
            final(self).vix == old(self).vix,
            match key_index(old(self).zmap.view_seq(), sidecar_key_view(key)) {
                Some(i) => r == Ok::<Arc<Vec<ZoneMapEntry>>, FastKError>(old(self).zmap.view_seq()[i].1)
                    && final(self).zmap.view_seq() == touched(old(self).zmap.view_seq(), i),
                None => (r matches Ok(v) ==> (exists|out: Result<Vec<u8>>| #[trigger] load.ensures((), out)
                        && (out matches Ok(b) && zmap_file_holds(b@, v@)))
                        && final(self).zmap.view_seq() == stored(old(self).zmap.view_seq(), sidecar_key_view(key), v, old(self).capacity as nat))
                    && (r is Err ==> final(self).zmap.view_seq() == old(self).zmap.view_seq()),
            },
    {
        match self.zmap.lookup(&key) {
            Some(v) => Ok(v),
            None => {
                let out = load();
                let bytes = match out {
                    Ok(b) => b,
                    Err(e) => {
                        return Err(e);
                    },
                };
                let entries = match crate::zmap::decode_entries(bytes.as_slice()) {
                    Ok(v) => v,
                    Err(e) => {
                        return Err(e);
                    },
                };
                let value = Arc::new(entries);
                let capacity = self.capacity;
                self.zmap.store(key, value.clone(), capacity);
                proof {
                    assert(load.ensures((), Ok::<Vec<u8>, FastKError>(bytes)));
                    assert(zmap_file_holds(bytes@, value@));
                }
                Ok(value)
            },
        }
    }

    /// The value index cached under `key`; on a miss, the bytes `load` gives are decoded
    /// and cached. A failed load or decode leaves the cache as it was.
    pub fn get_vix<F: FnOnce() -> Result<Vec<u8>>>(&mut self, key: SidecarCacheKey, load: F) -> (r: Result<Arc<Vec<ValueIndexEntry>>>)
        requires
            old(self).wf(),
            load.requires(()),
        ensures
            final(self).wf(),
            final(self).capacity == old(self).capacity,
            final(self).zmap == old(self).zmap,
            match key_index(old(self).vix.view_seq(), sidecar_key_view(key)) {
                Some(i) => r == Ok::<Arc<Vec<ValueIndexEntry>>, FastKError>(old(self).vix.view_seq()[i].1)
                    && final(self).vix.view_seq() == touched(old(self).vix.view_seq(), i),
                None => (r matches Ok(v) ==> (exists|out: Result<Vec<u8>>| #[trigger] load.ensures((), out)
                        && (out matches Ok(b) && vix_file_holds(b@, v@)))
                        && final(self).vix.view_seq() == stored(old(self).vix.view_seq(), sidecar_key_view(key), v, old(self).capacity as nat))
                    && (r is Err ==> final(self).vix.view_seq() == old(self).vix.view_seq()),
            },
    {
        match self.vix.lookup(&key) {
            Some(v) => Ok(v),
            None => {
                let out = load();
                let bytes = match out {
                    Ok(b) => b,
                    Err(e) => {
                        return Err(e);
                    },
                };
                let entries = match crate::vix::decode_entries(bytes.as_slice()) {
                    Ok(v) => v,
                    Err(e) => {
                        return Err(e);
                    },
                };
                let value = Arc::new(entries);
                let capacity = self.capacity;
                self.vix.store(key, value.clone(), capacity);
                proof {
                    assert(load.ensures((), Ok::<Vec<u8>, FastKError>(bytes)));
                    assert(vix_file_holds(bytes@, value@));
                }
                Ok(value)
            },
        }
    }

    /// Drops the cached sidecars whose path begins with `relative_path_prefix`.
    pub fn invalidate(&mut self, relative_path_prefix: &str)
        requires
            old(self).wf(),
        ensures
            final(self).wf(),
            final(self).capacity == old(self).capacity,
            final(self).zmap.view_seq() == old(self).zmap.view_seq().filter(outside_prefix(relative_path_prefix@)),
            final(self).vix.view_seq() == old(self).vix.view_seq().filter(outside_prefix(relative_path_prefix@)),
    {
        self.zmap.invalidate(relative_path_prefix);
        self.vix.invalidate(relative_path_prefix);
    }

    /// Drops every cached sidecar.
    pub fn clear(&mut self)
        ensures
            final(self).wf(),
            final(self).capacity == old(self).capacity,
            final(self).zmap.view_seq().len() == 0,
            final(self).vix.view_seq().len() == 0,
    {
        self.zmap.clear();
        self.vix.clear();
    }
}

} // verus!

verus! {

/// A sidecar cache never holds more than its capacity after a store, and looking up the
/// key just stored (with room for at least one entry) finds the stored value, as the most
/// recently used entry.
pub proof fn sidecar_cache_read_after_store<T>(v: Seq<((u32, Seq<char>), Arc<Vec<T>>)>, k: (u32, Seq<char>), val: Arc<Vec<T>>, cap: nat)
    requires
        keys_distinct(v),
        cap > 0,
    ensures
        stored(v, k, val, cap).len() <= cap,
        key_index(stored(v, k, val, cap), k) == Some(stored(v, k, val, cap).len() - 1),
        stored(v, k, val, cap)[stored(v, k, val, cap).len() - 1] == (k, val),
        keys_distinct(stored(v, k, val, cap)),
{
    let f = other_key::<T>(k);
    lemma_distinct_filter(v, f);
    let w = v.filter(f);
    let full = w.push((k, val));
    assert(keys_distinct(full)) by {
        assert forall|a: int, b: int| 0 <= a < b < full.len() implies (#[trigger] full[a]).0 != (#[trigger] full[b]).0 by {
            if b == full.len() - 1 {
                assert(w.contains(full[a]));
            } else {
                assert(full[a] == w[a] && full[b] == w[b]);
            }
        }
    }
    let s = stored(v, k, val, cap);
    assert(s.len() <= cap);
    assert(s.len() > 0);
    assert(s[s.len() - 1] == (k, val));
    assert(keys_distinct(s)) by {
        assert forall|a: int, b: int| 0 <= a < b < s.len() implies (#[trigger] s[a]).0 != (#[trigger] s[b]).0 by {
            let off = full.len() - s.len();
            assert(s[a] == full[a + off] && s[b] == full[b + off]);
        }
    }
    assert(s[s.len() - 1].0 == k);
    let i = choose|i: int| 0 <= i < s.len() && (#[trigger] s[i]).0 == k;
    if i != s.len() - 1 {
        assert(s[i].0 != s[s.len() - 1].0);
    }
}

} // verus!
