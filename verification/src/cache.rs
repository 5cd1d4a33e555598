//! The cache store's policy and the extraction plan: which packages' tag
//! files may be served from cache and which must be regenerated, and the
//! per-root merge over the gathered files.

use vstd::prelude::*;
use crate::pkg::CacheKey;
use crate::pkg::CacheKeyV;
use crate::pkg::PackageNode;
use crate::pkg::PackageNodeV;
use crate::pkg::OriginV;
use crate::pkg::cache_key;
use crate::pkg::cache_key_of;
use crate::pkg::key_eq;
use crate::index::IndexFile;
use crate::index::IndexFileV;
use crate::index::IndexFormat;
use crate::index::Record;
use crate::index::Section;
use crate::index::format_of;
use crate::index::rec_clone;
use crate::index::section_clone;
use crate::index::recs_view;
use crate::index::secs_view;
use crate::error::TagsError;
use crate::graph::DependencyGraph;
use crate::merge::merge_sorted_flat;
use crate::merge::merge_file_sectioned;
use crate::merge::recss_view;
use crate::merge::secss_view;
use crate::merge::sorted_strict;
use crate::merge::rec_in_contribs;
use crate::merge::merge_all_secs;
use crate::merge::sec_paths_distinct;

verus! {

/// The in-memory face of the cache store: one index file per cache key.
/// Persistence (the atomic temp-write-then-rename discipline) lives with
/// the caller that owns the cache directory.
pub struct CacheStore {
    pub entries: Vec<(CacheKey, IndexFile)>,
}

/// Some entry carries this key.
pub open spec fn store_has(s: Seq<(CacheKey, IndexFile)>, k: CacheKeyV) -> bool {
    exists|i: int| 0 <= i < s.len() && s[i].0@ == k
}

/// The file stored under this key.
pub open spec fn store_get(s: Seq<(CacheKey, IndexFile)>, k: CacheKeyV) -> IndexFileV {
    let i = choose|i: int| 0 <= i < s.len() && s[i].0@ == k;
    s[i].1@
}

/// No two entries share a key.
pub open spec fn store_wf(s: Seq<(CacheKey, IndexFile)>) -> bool {
    forall|i: int, j: int| 0 <= i < j < s.len() ==> s[i].0@ != s[j].0@
}

/// A package whose index the cache may serve: an external dependency (a
/// root package is always regenerated) whose origin is immutable — a
/// local-path origin is never served from cache.
pub open spec fn node_cacheable(n: PackageNodeV) -> bool {
    !n.is_root && !(n.id.origin is LocalPath)
}

/// Decides whether a node's index may be served from cache.
pub fn node_cacheable_exec(node: &PackageNode) -> (r: bool)
    ensures
        r == node_cacheable(node@),
{
    if node.is_root {
        return false;
    }
    match &node.id.origin {
        crate::pkg::Origin::LocalPath(_) => false,
        _ => true,
    }
}

impl CacheStore {
    /// An empty cache.
    pub fn new() -> (r: CacheStore)
        ensures
            r.entries@.len() == 0,
            store_wf(r.entries@),
    {
        CacheStore { entries: Vec::new() }
    }

    /// Looks a key up.
    pub fn lookup(&self, key: &CacheKey) -> (r: Option<&IndexFile>)
        requires
            store_wf(self.entries@),
        ensures
            r matches Some(f) ==> store_has(self.entries@, key@) && f@ == store_get(
                self.entries@,
                key@,
            ),
            r is None ==> !store_has(self.entries@, key@),
    {
        let mut i: usize = 0;
        while i < self.entries.len()
            invariant
                0 <= i <= self.entries@.len(),
                store_wf(self.entries@),
                forall|j: int| 0 <= j < i ==> self.entries@[j].0@ != key@,
            decreases self.entries@.len() - i,
        {
            if key_eq(&self.entries[i].0, key) {
                proof {
                    assert(self.entries@[i as int].0@ == key@);
                    assert(store_has(self.entries@, key@));
                    let c = choose|c: int|
                        0 <= c < self.entries@.len() && self.entries@[c].0@ == key@;
                    if c < i as int {
                        assert(self.entries@[c].0@ != self.entries@[i as int].0@);
                    } else if c > i as int {
                        assert(self.entries@[i as int].0@ != self.entries@[c].0@);
                    }
                }
                return Some(&self.entries[i].1);
            }
            i = i + 1;
        }
        None
    }

    /// Serves a node's cached index: a hit only for a cacheable node, with
    /// no force-recreate directive, whose key the store holds. A
    /// force-recreate directive, a root package, or a local-path origin is
    /// always a miss.
    pub fn lookup_node(&self, node: &PackageNode, force_recreate: bool) -> (r: Option<&IndexFile>)
        requires
            store_wf(self.entries@),
        ensures
            r is Some <==> (!force_recreate && node_cacheable(node@) && store_has(
                self.entries@,
                cache_key_of(node@.id),
            )),
            r matches Some(f) ==> f@ == store_get(self.entries@, cache_key_of(node@.id)),
    {
        if force_recreate {
            return None;
        }
        if !node_cacheable_exec(node) {
            return None;
        }
        let key = cache_key(&node.id);
        self.lookup(&key)
    }

    /// Stores a file under a key, replacing any previous entry for it.
    pub fn store(&mut self, key: CacheKey, file: IndexFile)
        requires
            store_wf(old(self).entries@),
        ensures
            store_wf(final(self).entries@),
            store_has(final(self).entries@, key@),
            store_get(final(self).entries@, key@) == file@,
            forall|k2: CacheKeyV|
                k2 != key@ ==> (store_has(final(self).entries@, k2) <==> store_has(
                    old(self).entries@,
                    k2,
                )),
            forall|k2: CacheKeyV|
                k2 != key@ && store_has(old(self).entries@, k2) ==> store_get(
                    final(self).entries@,
                    k2,
                ) == store_get(old(self).entries@, k2),
    {
        let ghost s0 = self.entries@;
        let mut found: Option<usize> = None;
        let mut i: usize = 0;
        let n = self.entries.len();
        while i < n
            invariant_except_break
                0 <= i <= n,
                found is None,
            invariant
                n == self.entries@.len(),
                forall|j: int| 0 <= j < i ==> self.entries@[j].0@ != key@,
            ensures
                found matches Some(fi) ==> (fi as int) < n && self.entries@[fi as int].0@ == key@,
                found is None ==> forall|j: int| 0 <= j < n ==> self.entries@[j].0@ != key@,
            decreases n - i,
        {
            if key_eq(&self.entries[i].0, &key) {
                found = Some(i);
                proof {
                    assert(self.entries@[i as int].0@ == key@);
                }
                break ;
            }
            i = i + 1;
        }
        match found {
            Some(fi) => {
                let ghost ki = fi as int;
                proof {
                    assert(s0[ki].0@ == key@);
                }
                self.entries.remove(fi);
                proof {
                    assert(self.entries@ == s0.remove(ki));
                    assert forall|j: int|
                        0 <= j < self.entries@.len() implies self.entries@[j].0@ != key@ by {
                        if j < ki {
                            assert(self.entries@[j] == s0[j]);
                            if s0[j].0@ == key@ {
                                assert(s0[j].0@ != s0[ki].0@);
                            }
                        } else {
                            assert(self.entries@[j] == s0[j + 1]);
                            if s0[j + 1].0@ == key@ {
                                assert(s0[ki].0@ != s0[j + 1].0@);
                            }
                        }
                    }
                    assert forall|p: int, q: int|
                        0 <= p < q < self.entries@.len() implies self.entries@[p].0@
                        != self.entries@[q].0@ by {
                        let p0 = if p < ki {
                            p
                        } else {
                            p + 1
                        };
                        let q0 = if q < ki {
                            q
                        } else {
                            q + 1
                        };
                        assert(self.entries@[p] == s0[p0]);
                        assert(self.entries@[q] == s0[q0]);
                    }
                }
            },
            None => {},
        }
        let ghost s1 = self.entries@;
        proof {
        }
        self.entries.push((key, file));
        proof {
            let s2 = self.entries@;
            assert(s2 == s1.push((key, file)));
            assert(s2[s2.len() - 1].0@ == key@);
            assert(store_has(s2, key@));
            let c = choose|c: int| 0 <= c < s2.len() && s2[c].0@ == key@;
            assert forall|j: int| 0 <= j < s1.len() implies s1[j].0@ != key@ by {}
            assert(c == s2.len() - 1);
            assert(store_get(s2, key@) == file@);
            assert forall|p: int, q: int| 0 <= p < q < s2.len() implies s2[p].0@ != s2[q].0@ by {
                if q < s2.len() - 1 {
                    assert(s2[p] == s1[p] && s2[q] == s1[q]);
                } else {
                    assert(s2[p] == s1[p]);
                }
            }
            assert forall|k2: CacheKeyV| k2 != key@ implies (store_has(s2, k2) <==> store_has(
                s0,
                k2,
            )) by {
                if store_has(s2, k2) {
                    let a = choose|a: int| 0 <= a < s2.len() && s2[a].0@ == k2;
                    assert(a < s1.len());
                    assert(s1[a].0@ == k2);
                    assert(store_has(s1, k2));
                }
                if store_has(s1, k2) {
                    let a = choose|a: int| 0 <= a < s1.len() && s1[a].0@ == k2;
                    assert(s2[a].0@ == k2);
                    assert(store_has(s2, k2));
                }
                assert(store_has(s1, k2) <==> store_has(s0, k2)) by {
                    lemma_remove_keeps_others(s0, s1, k2, key@);
                }
            }
            assert forall|k2: CacheKeyV|
                k2 != key@ && store_has(s0, k2) implies store_get(s2, k2) == store_get(
                s0,
                k2,
            ) by {
                let a = choose|a: int| 0 <= a < s2.len() && s2[a].0@ == k2;
                let b = choose|b: int| 0 <= b < s0.len() && s0[b].0@ == k2;
                lemma_remove_keeps_others(s0, s1, k2, key@);
                let c2 = choose|c2: int| 0 <= c2 < s1.len() && s1[c2].0@ == k2;
                assert(s2[c2].0@ == k2);
                assert(a == c2) by {
                    if a < c2 {
                        assert(s2[a].0@ != s2[c2].0@);
                    } else if c2 < a {
                        assert(s2[c2].0@ != s2[a].0@);
                    }
                }
                assert(s1[c2] == s0[b] || true);
                assert(store_get(s2, k2) == s2[a].1@);
                assert(s2[a] == s1[c2]);
                assert(exists|e: int| 0 <= e < s0.len() && s0[e] == s1[c2] && s0[e].0@ == k2) by {
                    lemma_remove_entry_from(s0, s1, c2);
                }
                let e = choose|e: int| 0 <= e < s0.len() && s0[e] == s1[c2] && s0[e].0@ == k2;
                let b2 = choose|b2: int| 0 <= b2 < s0.len() && s0[b2].0@ == k2;
                assert(b2 == e) by {
                    if b2 < e {
                        assert(s0[b2].0@ != s0[e].0@);
                    } else if e < b2 {
                        assert(s0[e].0@ != s0[b2].0@);
                    }
                }
            }
        }
    }
}

/// Either the store never held the key and one removal pass left it
/// unchanged, or it held it once and the pass removed exactly that entry;
/// every other key's presence is unchanged.
proof fn lemma_remove_keeps_others(
    s0: Seq<(CacheKey, IndexFile)>,
    s1: Seq<(CacheKey, IndexFile)>,
    k2: CacheKeyV,
    key: CacheKeyV,
)
    requires
        k2 != key,
        s1 == s0 || exists|ki: int| 0 <= ki < s0.len() && s0[ki].0@ == key && s1 == s0.remove(ki),
    ensures
        store_has(s1, k2) <==> store_has(s0, k2),
{
    if s1 == s0 {
    } else {
        let ki = choose|ki: int| 0 <= ki < s0.len() && s0[ki].0@ == key && s1 == s0.remove(ki);
        if store_has(s1, k2) {
            let a = choose|a: int| 0 <= a < s1.len() && s1[a].0@ == k2;
            if a < ki {
                assert(s1[a] == s0[a]);
                assert(store_has(s0, k2));
            } else {
                assert(s1[a] == s0[a + 1]);
                assert(store_has(s0, k2));
            }
        }
        if store_has(s0, k2) {
            let a = choose|a: int| 0 <= a < s0.len() && s0[a].0@ == k2;
            assert(a != ki);
            if a < ki {
                assert(s1[a] == s0[a]);
                assert(store_has(s1, k2));
            } else {
                assert(s1[a - 1] == s0[a]);
                assert(store_has(s1, k2));
            }
        }
    }
}

/// Every entry of the shorter store after one removal came from the longer
/// one.
proof fn lemma_remove_entry_from(
    s0: Seq<(CacheKey, IndexFile)>,
    s1: Seq<(CacheKey, IndexFile)>,
    c: int,
)
    requires
        0 <= c < s1.len(),
        s1 == s0 || exists|ki: int| 0 <= ki < s0.len() && s1 == s0.remove(ki),
    ensures
        exists|e: int| 0 <= e < s0.len() && s0[e] == s1[c] && s0[e].0@ == s1[c].0@,
{
    if s1 == s0 {
        assert(s0[c] == s1[c]);
    } else {
        let ki = choose|ki: int| 0 <= ki < s0.len() && s1 == s0.remove(ki);
        if c < ki {
            assert(s0[c] == s1[c]);
        } else {
            assert(s0[c + 1] == s1[c]);
        }
    }
}

/// The index stands somewhere in the plan.
pub open spec fn in_plan(plan: Seq<usize>, t: int) -> bool {
    exists|j: int| 0 <= j < plan.len() && plan[j] as int == t
}

/// A node whose index cannot be served from cache: a root package, a
/// local-path origin, a force-recreate directive, or a key the store does
/// not hold.
pub open spec fn needs_extraction(
    g: crate::graph::GraphV,
    s: Seq<(CacheKey, IndexFile)>,
    t: int,
    force: bool,
) -> bool {
    force || !node_cacheable(g.nodes[t]) || !store_has(s, cache_key_of(g.nodes[t].id))
}

/// The extraction plan of one graph: exactly the nodes the cache cannot
/// serve, in the graph's bottom-up order, each node at most once. A cache
/// hit (without force-recreate) never stands in the plan; under a
/// force-recreate directive every node does.
pub fn extraction_plan(g: &DependencyGraph, cache: &CacheStore, force_recreate: bool) -> (plan: Vec<
    usize,
>)
    requires
        store_wf(cache.entries@),
    ensures
        forall|j: int| 0 <= j < plan@.len() ==> (#[trigger] plan@[j] as int) < g@.nodes.len(),
        forall|j1: int, j2: int|
            0 <= j1 < j2 < plan@.len() ==> (plan@[j1] as int) < (plan@[j2] as int),
        forall|t: int|
            0 <= t < g@.nodes.len() ==> (in_plan(plan@, t) <==> needs_extraction(
                g@,
                cache.entries@,
                t,
                force_recreate,
            )),
{
    let mut plan: Vec<usize> = Vec::new();
    let mut t: usize = 0;
    while t < g.nodes.len()
        invariant
            0 <= t <= g.nodes@.len(),
            g@.nodes.len() == g.nodes@.len(),
            store_wf(cache.entries@),
            forall|j: int| 0 <= j < plan@.len() ==> (#[trigger] plan@[j] as int) < t,
            forall|j1: int, j2: int|
                0 <= j1 < j2 < plan@.len() ==> (plan@[j1] as int) < (plan@[j2] as int),
            forall|t2: int|
                0 <= t2 < t ==> (in_plan(plan@, t2) <==> needs_extraction(
                    g@,
                    cache.entries@,
                    t2,
                    force_recreate,
                )),
        decreases g.nodes@.len() - t,
    {
        let ghost old_plan = plan@;
        let node = &g.nodes[t];
        proof {
            assert(node@ == g@.nodes[t as int]);
        }
        let hit = cache.lookup_node(node, force_recreate);
        let needed = match hit {
            Some(_) => false,
            None => true,
        };
        if needed {
            plan.push(t);
        }
        proof {
            if needed {
                assert(plan@ == old_plan.push(t));
                assert(plan@[plan@.len() - 1] == t);
                assert(in_plan(plan@, t as int));
            }
            assert forall|t2: int|
                0 <= t2 < t + 1 implies (in_plan(plan@, t2) <==> needs_extraction(
                g@,
                cache.entries@,
                t2,
                force_recreate,
            )) by {
                if t2 < t as int {
                    if in_plan(old_plan, t2) {
                        let j = choose|j: int| 0 <= j < old_plan.len() && old_plan[j] as int == t2;
                        assert(plan@[j] as int == t2);
                        assert(in_plan(plan@, t2));
                    }
                    if in_plan(plan@, t2) {
                        let j = choose|j: int| 0 <= j < plan@.len() && plan@[j] as int == t2;
                        assert(j < old_plan.len());
                        assert(in_plan(old_plan, t2));
                    }
                } else {
                    if !needed {
                        assert(!force_recreate && node_cacheable(g@.nodes[t as int])
                            && store_has(cache.entries@, cache_key_of(g@.nodes[t as int].id)));
                        if in_plan(plan@, t2) {
                            let j = choose|j: int| 0 <= j < plan@.len() && plan@[j] as int == t2;
                            assert((plan@[j] as int) < t as int);
                        }
                    }
                }
            }
        }
        t = t + 1;
    }
    plan
}

/// Returns a copy of a record table.
pub fn clone_records(v: &Vec<Record>) -> (r: Vec<Record>)
    ensures
        recs_view(r@) == recs_view(v@),
{
    let mut r: Vec<Record> = Vec::new();
    let mut i: usize = 0;
    while i < v.len()
        invariant
            0 <= i <= v@.len(),
            r@.len() == i,
            forall|j: int| 0 <= j < i ==> r@[j]@ == v@[j]@,
        decreases v@.len() - i,
    {
        r.push(rec_clone(&v[i]));
        i = i + 1;
    }
    proof {
        assert(recs_view(r@) =~= recs_view(v@));
    }
    r
}

/// Returns a copy of a section table.
pub fn clone_sections(v: &Vec<Section>) -> (r: Vec<Section>)
    ensures
        secs_view(r@) == secs_view(v@),
{
    let mut r: Vec<Section> = Vec::new();
    let mut i: usize = 0;
    while i < v.len()
        invariant
            0 <= i <= v@.len(),
            r@.len() == i,
            forall|j: int| 0 <= j < i ==> r@[j]@ == v@[j]@,
        decreases v@.len() - i,
    {
        r.push(section_clone(&v[i]));
        i = i + 1;
    }
    proof {
        assert(secs_view(r@) =~= secs_view(v@));
    }
    r
}

/// The sections of an index file, empty for the flat format.
pub open spec fn sections_of(f: IndexFileV) -> Seq<crate::index::SectionV> {
    match f {
        IndexFileV::FileSectioned(ss) => ss,
        IndexFileV::SortedFlat(_) => Seq::empty(),
    }
}

/// The records of an index file, empty for the sectioned format.
pub open spec fn records_of(f: IndexFileV) -> Seq<crate::index::RecordV> {
    match f {
        IndexFileV::SortedFlat(rs) => rs,
        IndexFileV::FileSectioned(_) => Seq::empty(),
    }
}

/// The per-root merge: one gathered index file per graph node, in the
/// graph's bottom-up order (the root's own file last), merged under the
/// run's format. A file of the wrong shape — the extractor's output was
/// unreadable as the chosen format — fails the root.
pub fn merge_graph(g: &DependencyGraph, files: &Vec<IndexFile>, fmt: IndexFormat) -> (r: Result<
    IndexFile,
    TagsError,
>)
    ensures
        r is Ok <==> (files@.len() == g@.nodes.len() && forall|i: int|
            0 <= i < files@.len() ==> format_of(#[trigger] files@[i]@) == fmt),
        r matches Ok(out) ==> fmt == IndexFormat::SortedFlat ==> (out@ matches IndexFileV::SortedFlat(
            rs,
        ) && sorted_strict(rs) && forall|x: crate::index::RecordV|
            rs.contains(x) <==> exists|i: int|
                0 <= i < files@.len() && records_of(#[trigger] files@[i]@).contains(x)),
        r matches Ok(out) ==> fmt == IndexFormat::FileSectioned ==> (out@
            matches IndexFileV::FileSectioned(ss) && ss == merge_all_secs(
            files@.map_values(|f: IndexFile| sections_of(f@)),
        ) && sec_paths_distinct(ss)),
        r matches Err(e) ==> e is ExtractionFailed,
{
    if files.len() != g.nodes.len() {
        return Err(TagsError::ExtractionFailed { name: Vec::new(), cause: Vec::new() });
    }
    match fmt {
        IndexFormat::SortedFlat => {
            let mut tables: Vec<Vec<Record>> = Vec::new();
            let mut i: usize = 0;
            while i < files.len()
                invariant
                    fmt == IndexFormat::SortedFlat,
                    files@.len() == g@.nodes.len(),
                    0 <= i <= files@.len(),
                    tables@.len() == i,
                    forall|j: int|
                        0 <= j < i ==> format_of(#[trigger] files@[j]@) == IndexFormat::SortedFlat,
                    forall|j: int|
                        0 <= j < i ==> recss_view(tables@)[j] == records_of(files@[j]@),
                decreases files@.len() - i,
            {
                let ghost oldt = tables@;
                match &files[i] {
                    IndexFile::SortedFlat(rs) => {
                        proof {
                            assert(records_of(files@[i as int]@) == recs_view(rs@));
                        }
                        let copy = clone_records(rs);
                        tables.push(copy);
                        proof {
                            assert forall|j: int|
                                0 <= j < i + 1 implies recss_view(tables@)[j] == records_of(
                                files@[j]@,
                            ) by {
                                if j < i as int {
                                    assert(tables@[j] == oldt[j]);
                                    assert(recss_view(oldt)[j] == records_of(files@[j]@));
                                }
                            }
                        }
                    },
                    IndexFile::FileSectioned(_) => {
                        proof {
                            assert(format_of(files@[i as int]@) == IndexFormat::FileSectioned);
                        }
                        return Err(
                            TagsError::ExtractionFailed { name: Vec::new(), cause: Vec::new() },
                        );
                    },
                }
                i = i + 1;
            }
            let merged = merge_sorted_flat(&tables);
            proof {
                assert forall|x: crate::index::RecordV|
                    rec_in_contribs(recss_view(tables@), x) <==> exists|j: int|
                        0 <= j < files@.len() && records_of(#[trigger] files@[j]@).contains(x) by {
                    if rec_in_contribs(recss_view(tables@), x) {
                        let j = choose|j: int|
                            0 <= j < recss_view(tables@).len() && recss_view(tables@)[j].contains(
                                x,
                            );
                        assert(records_of(files@[j]@).contains(x));
                    }
                    if exists|j: int|
                        0 <= j < files@.len() && records_of(#[trigger] files@[j]@).contains(x) {
                        let j = choose|j: int|
                            0 <= j < files@.len() && records_of(#[trigger] files@[j]@).contains(x);
                        assert(recss_view(tables@)[j].contains(x));
                        assert(rec_in_contribs(recss_view(tables@), x));
                    }
                }
            }
            Ok(IndexFile::SortedFlat(merged))
        },
        IndexFormat::FileSectioned => {
            let mut tables: Vec<Vec<Section>> = Vec::new();
            let mut i: usize = 0;
            while i < files.len()
                invariant
                    fmt == IndexFormat::FileSectioned,
                    files@.len() == g@.nodes.len(),
                    0 <= i <= files@.len(),
                    tables@.len() == i,
                    forall|j: int|
                        0 <= j < i ==> format_of(#[trigger] files@[j]@)
                            == IndexFormat::FileSectioned,
                    forall|j: int|
                        0 <= j < i ==> secss_view(tables@)[j] == sections_of(files@[j]@),
                decreases files@.len() - i,
            {
                let ghost oldt = tables@;
                match &files[i] {
                    IndexFile::FileSectioned(ss) => {
                        proof {
                            assert(sections_of(files@[i as int]@) == secs_view(ss@));
                        }
                        let copy = clone_sections(ss);
                        tables.push(copy);
                        proof {
                            assert forall|j: int|
                                0 <= j < i + 1 implies secss_view(tables@)[j] == sections_of(
                                files@[j]@,
                            ) by {
                                if j < i as int {
                                    assert(tables@[j] == oldt[j]);
                                    assert(secss_view(oldt)[j] == sections_of(files@[j]@));
                                }
                            }
                        }
                    },
                    IndexFile::SortedFlat(_) => {
                        proof {
                            assert(format_of(files@[i as int]@) == IndexFormat::SortedFlat);
                        }
                        return Err(
                            TagsError::ExtractionFailed { name: Vec::new(), cause: Vec::new() },
                        );
                    },
                }
                i = i + 1;
            }
            let merged = merge_file_sectioned(&tables);
            proof {
                assert(secss_view(tables@) =~= files@.map_values(|f: IndexFile| sections_of(f@)));
            }
            Ok(IndexFile::FileSectioned(merged))
        },
    }
}

} // verus!
