//! Parsed package metadata: every package of the workspace with its
//! declared dependencies, as produced by the package manager's metadata
//! document.

use vstd::prelude::*;
use crate::pkg::PackageId;
use crate::pkg::PackageIdV;
use crate::pkg::id_eq;

verus! {

/// One package of the metadata document: its identity, its resolved source
/// directory, whether it is a workspace root, and its declared
/// dependencies.
pub struct PackageMeta {
    pub id: PackageId,
    pub src_dir: Vec<u8>,
    pub is_root: bool,
    pub deps: Vec<PackageId>,
}

/// Mathematical value of a [`PackageMeta`].
pub struct PackageMetaV {
    pub id: PackageIdV,
    pub src_dir: Seq<u8>,
    pub is_root: bool,
    pub deps: Seq<PackageIdV>,
}

impl View for PackageMeta {
    type V = PackageMetaV;

    open spec fn view(&self) -> PackageMetaV {
        PackageMetaV {
            id: self.id@,
            src_dir: self.src_dir@,
            is_root: self.is_root,
            deps: self.deps@.map_values(|d: PackageId| d@),
        }
    }
}

/// The whole parsed metadata document.
pub struct Metadata {
    pub packages: Vec<PackageMeta>,
}

/// Mathematical value of a [`Metadata`].
pub struct MetadataV {
    pub packages: Seq<PackageMetaV>,
}

impl View for Metadata {
    type V = MetadataV;

    open spec fn view(&self) -> MetadataV {
        MetadataV { packages: self.packages@.map_values(|p: PackageMeta| p@) }
    }
}

/// No two packages share an identity.
pub open spec fn ids_distinct(m: MetadataV) -> bool {
    forall|i: int, j: int|
        0 <= i < j < m.packages.len() ==> m.packages[i].id != m.packages[j].id
}

/// Every declared dependency names a package of the document.
pub open spec fn deps_resolvable(m: MetadataV) -> bool {
    forall|i: int, k: int|
        0 <= i < m.packages.len() && 0 <= k < m.packages[i].deps.len() ==> exists|j: int|
            0 <= j < m.packages.len() && m.packages[j].id == #[trigger] m.packages[i].deps[k]
}

/// A well-formed metadata document: identities unique, dependencies
/// resolvable.
pub open spec fn meta_wf(m: MetadataV) -> bool {
    ids_distinct(m) && deps_resolvable(m)
}

/// Package `i` declares a dependency on package `j`.
pub open spec fn dep_edge(m: MetadataV, i: int, j: int) -> bool {
    0 <= i < m.packages.len() && 0 <= j < m.packages.len() && exists|k: int|
        0 <= k < m.packages[i].deps.len() && #[trigger] m.packages[i].deps[k] == m.packages[j].id
}

/// Package `j` is reachable from package `i` in at most `n` dependency
/// steps.
pub open spec fn reaches(m: MetadataV, i: int, j: int, n: nat) -> bool
    decreases n,
{
    if i == j {
        true
    } else if n == 0 {
        false
    } else {
        exists|mid: int| #[trigger] dep_edge(m, i, mid) && reaches(m, mid, j, (n - 1) as nat)
    }
}

/// Package `j` is transitively reachable from package `i`.
pub open spec fn reachable(m: MetadataV, i: int, j: int) -> bool {
    exists|n: nat| reaches(m, i, j, n)
}

/// A reachability witness grows by one along a dependency edge.
pub proof fn lemma_reaches_extend(m: MetadataV, i: int, u: int, d: int, n: nat)
    requires
        reaches(m, i, u, n),
        dep_edge(m, u, d),
    ensures
        reaches(m, i, d, (n + 1) as nat),
    decreases n,
{
    if i == u {
        assert(reaches(m, d, d, n));
        assert(dep_edge(m, i, d) && reaches(m, d, d, n));
        assert(reaches(m, i, d, (n + 1) as nat));
    } else {
        let mid = choose|mid: int| #[trigger] dep_edge(m, i, mid) && reaches(m, mid, u, (n - 1) as nat);
        lemma_reaches_extend(m, mid, u, d, (n - 1) as nat);
        assert(dep_edge(m, i, mid) && reaches(m, mid, d, n));
        assert(reaches(m, i, d, (n + 1) as nat));
    }
}

/// The identity `a` declares a dependency on the identity `b` somewhere in
/// the document.
pub open spec fn id_dep(m: MetadataV, a: PackageIdV, b: PackageIdV) -> bool {
    exists|i: int, k: int|
        0 <= i < m.packages.len() && m.packages[i].id == a && 0 <= k < m.packages[i].deps.len()
            && #[trigger] m.packages[i].deps[k] == b
}

/// Finds the first package with the given identity.
pub fn find_package(meta: &Metadata, id: &PackageId) -> (r: Option<usize>)
    ensures
        r matches Some(i) ==> 0 <= i < meta@.packages.len() && meta@.packages[i as int].id == id@,
        r is None ==> forall|j: int| 0 <= j < meta@.packages.len() ==> meta@.packages[j].id != id@,
{
    let mut i: usize = 0;
    while i < meta.packages.len()
        invariant
            0 <= i <= meta@.packages.len(),
            meta@.packages.len() == meta.packages@.len(),
            forall|j: int| 0 <= j < i ==> meta@.packages[j].id != id@,
        decreases meta.packages@.len() - i,
    {
        if id_eq(&meta.packages[i].id, id) {
            proof {
                assert(meta@.packages[i as int].id == id@);
            }
            return Some(i);
        }
        i = i + 1;
    }
    None
}

/// Decides whether a metadata document is well-formed.
pub fn metadata_wf_exec(meta: &Metadata) -> (r: bool)
    ensures
        r == meta_wf(meta@),
{
    let n = meta.packages.len();
    let mut i: usize = 0;
    while i < n
        invariant
            0 <= i <= n,
            n == meta@.packages.len(),
            n == meta.packages@.len(),
            forall|p: int, q: int| 0 <= p < q < i ==> meta@.packages[p].id != meta@.packages[q].id,
        decreases n - i,
    {
        let mut j: usize = 0;
        while j < i
            invariant
                0 <= j <= i < n,
                n == meta@.packages.len(),
                n == meta.packages@.len(),
                forall|p: int| 0 <= p < j ==> meta@.packages[p].id != meta@.packages[i as int].id,
            decreases i - j,
        {
            if id_eq(&meta.packages[j].id, &meta.packages[i].id) {
                proof {
                    assert(meta@.packages[j as int].id == meta@.packages[i as int].id);
                }
                return false;
            }
            j = j + 1;
        }
        i = i + 1;
    }
    let mut i: usize = 0;
    while i < n
        invariant
            0 <= i <= n,
            n == meta@.packages.len(),
            n == meta.packages@.len(),
            ids_distinct(meta@),
            forall|p: int, k: int|
                0 <= p < i && 0 <= k < meta@.packages[p].deps.len() ==> exists|j: int|
                    0 <= j < meta@.packages.len() && meta@.packages[j].id
                        == #[trigger] meta@.packages[p].deps[k],
        decreases n - i,
    {
        let pkg = &meta.packages[i];
        let mut k: usize = 0;
        while k < pkg.deps.len()
            invariant
                0 <= k <= pkg.deps@.len(),
                0 <= i < n,
                n == meta@.packages.len(),
                n == meta.packages@.len(),
                pkg@ == meta@.packages[i as int],
                pkg.deps@.len() == pkg@.deps.len(),
                forall|k2: int|
                    0 <= k2 < k ==> exists|j: int|
                        0 <= j < meta@.packages.len() && meta@.packages[j].id
                            == #[trigger] meta@.packages[i as int].deps[k2],
            decreases pkg.deps@.len() - k,
        {
            match find_package(meta, &pkg.deps[k]) {
                Some(_) => {},
                None => {
                    proof {
                        assert(meta@.packages[i as int].deps[k as int] == pkg.deps@[k as int]@);
                    }
                    return false;
                },
            }
            proof {
                assert(meta@.packages[i as int].deps[k as int] == pkg.deps@[k as int]@);
            }
            k = k + 1;
        }
        i = i + 1;
    }
    true
}

} // verus!
