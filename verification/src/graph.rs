//! The graph builder: from parsed metadata, the dependency graph of one
//! workspace root — every package transitively reachable from the root,
//! deduplicated by identity, in bottom-up order (each package stands after
//! all of its dependencies, the root last). A package reachable from itself
//! is a data-integrity error, reported as `CyclicDependency`.

use vstd::prelude::*;
use crate::pkg::PackageId;
use crate::pkg::PackageIdV;
use crate::pkg::PackageNode;
use crate::pkg::PackageNodeV;
use crate::pkg::id_clone;
use crate::bytes::clone_bytes;
use crate::error::TagsError;
use crate::metadata::Metadata;
use crate::metadata::MetadataV;
use crate::metadata::PackageMetaV;
use crate::metadata::meta_wf;
use crate::metadata::ids_distinct;
use crate::metadata::dep_edge;
use crate::metadata::id_dep;
use crate::metadata::reaches;
use crate::metadata::reachable;
use crate::metadata::metadata_wf_exec;
use crate::metadata::find_package;
use crate::metadata::lemma_reaches_extend;

verus! {

/// One workspace root's dependency graph: the nodes in bottom-up order
/// (every node's dependencies stand at smaller indices, the root node
/// last), and per node the indices of the nodes it depends on.
pub struct DependencyGraph {
    pub nodes: Vec<PackageNode>,
    pub deps: Vec<Vec<usize>>,
    pub root: usize,
}

/// Mathematical value of a [`DependencyGraph`].
pub struct GraphV {
    pub nodes: Seq<PackageNodeV>,
    pub deps: Seq<Seq<usize>>,
    pub root: int,
}

impl View for DependencyGraph {
    type V = GraphV;

    open spec fn view(&self) -> GraphV {
        GraphV {
            nodes: self.nodes@.map_values(|n: PackageNode| n@),
            deps: self.deps@.map_values(|v: Vec<usize>| v@),
            root: self.root as int,
        }
    }
}

/// A well-formed graph: one dependency list per node, every dependency at
/// a strictly smaller index (so the order is bottom-up and the graph is
/// acyclic by construction), the root the last node, and no two nodes for
/// one package identity (a diamond dependency appears once).
pub open spec fn graph_wf(g: GraphV) -> bool {
    &&& g.nodes.len() == g.deps.len()
    &&& 0 <= g.root < g.nodes.len()
    &&& g.root == g.nodes.len() - 1
    &&& forall|t: int, k: int|
        0 <= t < g.deps.len() && 0 <= k < g.deps[t].len() ==> (#[trigger] g.deps[t][k] as int) < t
    &&& forall|t1: int, t2: int|
        0 <= t1 < t2 < g.nodes.len() ==> g.nodes[t1].id != g.nodes[t2].id
}

/// The node carries exactly the package's identity, source directory and
/// root flag.
pub open spec fn node_matches(nv: PackageNodeV, p: PackageMetaV) -> bool {
    nv.id == p.id && nv.src_dir == p.src_dir && nv.is_root == p.is_root
}

/// The index of the package with the given identity (unique when
/// identities are distinct).
pub open spec fn idx_of(m: MetadataV, id: PackageIdV) -> int {
    choose|i: int| 0 <= i < m.packages.len() && m.packages[i].id == id
}

/// A witness that some package is reachable from itself: a non-empty set
/// of reachable packages (as a mask over the package list), each of which
/// depends on a member of the set or on the root. Following those pending
/// edges inside the finite set must revisit a package — or reach the root,
/// which reaches every member — so such a mask exists only on a cyclic
/// graph.
pub open spec fn cyclic_from(m: MetadataV, ri: int, mask: Seq<bool>) -> bool {
    &&& mask.len() == m.packages.len()
    &&& exists|u: int| 0 <= u < mask.len() && mask[u]
    &&& forall|u: int|
        0 <= u < mask.len() && mask[u] ==> reachable(m, ri, u) && exists|d: int|
            #[trigger] dep_edge(m, u, d) && (mask[d] || d == ri)
}

/// How many entries of the mask are set.
pub open spec fn count_true(s: Seq<bool>) -> int
    decreases s.len(),
{
    if s.len() == 0 {
        0
    } else {
        count_true(s.drop_last()) + if s.last() {
            1int
        } else {
            0
        }
    }
}

proof fn lemma_count_true_le(s: Seq<bool>)
    ensures
        0 <= count_true(s) <= s.len(),
    decreases s.len(),
{
    if s.len() > 0 {
        lemma_count_true_le(s.drop_last());
    }
}

proof fn lemma_count_true_update(s: Seq<bool>, i: int)
    requires
        0 <= i < s.len(),
        !s[i],
    ensures
        count_true(s.update(i, true)) == count_true(s) + 1,
    decreases s.len(),
{
    let t = s.update(i, true);
    if i == s.len() - 1 {
        assert(t.drop_last() =~= s.drop_last());
    } else {
        assert(t.drop_last() =~= s.drop_last().update(i, true));
        lemma_count_true_update(s.drop_last(), i);
    }
}

/// A set of visited packages that is closed under dependency edges holds
/// everything reachable from any of its members.
proof fn lemma_closed_reachable(m: MetadataV, visited: Seq<bool>, i: int, j: int, n: nat)
    requires
        visited.len() == m.packages.len(),
        0 <= i < visited.len(),
        visited[i],
        0 <= j < visited.len(),
        forall|u: int, d: int|
            0 <= u < visited.len() && 0 <= d < visited.len() && visited[u] && #[trigger] dep_edge(
                m,
                u,
                d,
            ) ==> visited[d],
        reaches(m, i, j, n),
    ensures
        visited[j],
    decreases n,
{
    if i != j {
        let mid = choose|mid: int|
            #[trigger] dep_edge(m, i, mid) && reaches(m, mid, j, (n - 1) as nat);
        assert(visited[mid]);
        lemma_closed_reachable(m, visited, mid, j, (n - 1) as nat);
    }
}

/// The adjacency lists: resolves each declared dependency of each package
/// to that dependency's own index in the package list.
#[verifier::loop_isolation(false)]
fn resolve_adj(meta: &Metadata) -> (adj: Vec<Vec<usize>>)
    requires
        meta_wf(meta@),
    ensures
        adj@.len() == meta@.packages.len(),
        forall|i: int|
            0 <= i < adj@.len() ==> #[trigger] adj@[i]@.len() == meta@.packages[i].deps.len(),
        forall|i: int, k: int|
            0 <= i < adj@.len() && 0 <= k < adj@[i]@.len() ==> (#[trigger] adj@[i]@[k] as int)
                < meta@.packages.len() && meta@.packages[adj@[i]@[k] as int].id
                == meta@.packages[i].deps[k],
{
    let n = meta.packages.len();
    let mut adj: Vec<Vec<usize>> = Vec::new();
    let mut i: usize = 0;
    while i < n
        invariant
            0 <= i <= n,
            adj@.len() == i,
            forall|p: int|
                0 <= p < i ==> #[trigger] adj@[p]@.len() == meta@.packages[p].deps.len(),
            forall|p: int, k: int|
                0 <= p < i && 0 <= k < adj@[p]@.len() ==> (#[trigger] adj@[p]@[k] as int) < n
                    && meta@.packages[adj@[p]@[k] as int].id == meta@.packages[p].deps[k],
        decreases n - i,
    {
        let pkg = &meta.packages[i];
        let mut row: Vec<usize> = Vec::new();
        let mut k: usize = 0;
        while k < pkg.deps.len()
            invariant
                0 <= k <= pkg.deps@.len(),
                pkg@ == meta@.packages[i as int],
                pkg.deps@.len() == pkg@.deps.len(),
                row@.len() == k,
                forall|k2: int|
                    0 <= k2 < k ==> (#[trigger] row@[k2] as int) < n
                        && meta@.packages[row@[k2] as int].id == meta@.packages[i as int].deps[k2],
            decreases pkg.deps@.len() - k,
        {
            proof {
                assert(meta@.packages[i as int].deps[k as int] == pkg.deps@[k as int]@);
            }
            match find_package(meta, &pkg.deps[k]) {
                Some(j) => {
                    row.push(j);
                },
                None => {
                    proof {
                        assert(false);
                    }
                },
            }
            k = k + 1;
        }
        adj.push(row);
        i = i + 1;
    }
    adj
}

/// Marks every package transitively reachable from the root's index.
#[verifier::loop_isolation(false)]
fn bfs_reachable(meta: &Metadata, adj: &Vec<Vec<usize>>, ri: usize) -> (visited: Vec<bool>)
    requires
        meta_wf(meta@),
        (ri as int) < meta@.packages.len(),
        adj@.len() == meta@.packages.len(),
        forall|i: int|
            0 <= i < adj@.len() ==> #[trigger] adj@[i]@.len() == meta@.packages[i].deps.len(),
        forall|i: int, k: int|
            0 <= i < adj@.len() && 0 <= k < adj@[i]@.len() ==> (#[trigger] adj@[i]@[k] as int)
                < meta@.packages.len() && meta@.packages[adj@[i]@[k] as int].id
                == meta@.packages[i].deps[k],
    ensures
        visited@.len() == meta@.packages.len(),
        visited@[ri as int],
        forall|u: int|
            0 <= u < visited@.len() && visited@[u] ==> reachable(meta@, ri as int, u),
        forall|u: int, k: int|
            0 <= u < visited@.len() && visited@[u] && 0 <= k < adj@[u]@.len() ==> visited@[
                #[trigger] adj@[u]@[k] as int
            ],
        forall|u: int, d: int|
            0 <= u < visited@.len() && 0 <= d < visited@.len() && visited@[u] && #[trigger] dep_edge(
                meta@,
                u,
                d,
            ) ==> visited@[d],
{
    let n = meta.packages.len();
    let mut visited: Vec<bool> = Vec::new();
    let mut z: usize = 0;
    while z < n
        invariant
            visited@.len() == z,
            0 <= z <= n,
            forall|u: int| 0 <= u < z ==> !visited@[u],
        decreases n - z,
    {
        visited.push(false);
        z = z + 1;
    }
    let mut work: Vec<usize> = Vec::new();
    work.push(ri);
    proof {
        assert(reaches(meta@, ri as int, ri as int, 0));
        assert(reachable(meta@, ri as int, ri as int));
        lemma_count_true_le(visited@);
        assert(work@[0] == ri);
        assert(work@.contains(ri));
    }
    while work.len() > 0
        invariant
            visited@.len() == n,
            0 <= count_true(visited@) <= n,
            forall|t: int|
                0 <= t < work@.len() ==> (#[trigger] work@[t] as int) < n && reachable(
                    meta@,
                    ri as int,
                    work@[t] as int,
                ),
            visited@[ri as int] || work@.contains(ri),
            forall|u: int|
                0 <= u < n && visited@[u] ==> reachable(meta@, ri as int, u),
            forall|u: int, k: int|
                0 <= u < n && visited@[u] && 0 <= k < adj@[u]@.len() ==> visited@[
                    #[trigger] adj@[u]@[k] as int
                ] || work@.contains(adj@[u]@[k]),
        decreases n - count_true(visited@), work@.len(),
    {
        let ghost old_work = work@;
        let ghost old_visited = visited@;
        let u = match work.pop() {
            Some(u) => u,
            None => {
                proof {
                    assert(false);
                }
                0
            },
        };
        proof {
            assert(old_work[old_work.len() - 1] == u);
            assert((u as int) < n && reachable(meta@, ri as int, u as int));
        }
        if !visited[u] {
            visited.set(u, true);
            proof {
                lemma_count_true_update(old_visited, u as int);
                lemma_count_true_le(visited@);
                assert(work@ == old_work.drop_last());
                assert forall|v: int, k2: int|
                    0 <= v < n && visited@[v] && 0 <= k2 < adj@[v]@.len() && v != u as int implies
                    visited@[#[trigger] adj@[v]@[k2] as int] || work@.contains(adj@[v]@[k2]) by {
                    let d = adj@[v]@[k2];
                    assert(old_visited[v]);
                    if !old_visited[d as int] && d != u {
                        assert(old_work.contains(d));
                        let t = choose|t: int| 0 <= t < old_work.len() && old_work[t] == d;
                        if t < old_work.len() - 1 {
                            assert(work@[t] == d);
                            assert(work@.contains(d));
                        } else {
                            assert(d == u);
                        }
                    }
                }
                if !visited@[ri as int] {
                    assert(ri != u);
                    assert(old_work.contains(ri));
                    let t = choose|t: int| 0 <= t < old_work.len() && old_work[t] == ri;
                    if t < old_work.len() - 1 {
                        assert(work@[t] == ri);
                        assert(work@.contains(ri));
                    } else {
                        assert(ri == u);
                    }
                }
            }
            let deps = &adj[u];
            let mut k: usize = 0;
            while k < deps.len()
                invariant
                    visited@ == old_visited.update(u as int, true),
                    (u as int) < n,
                    deps@ == adj@[u as int]@,
                    0 <= k <= deps@.len(),
                    forall|t: int|
                        0 <= t < work@.len() ==> (#[trigger] work@[t] as int) < n && reachable(
                            meta@,
                            ri as int,
                            work@[t] as int,
                        ),
                    visited@[ri as int] || work@.contains(ri),
                    forall|v: int, k2: int|
                        0 <= v < n && visited@[v] && 0 <= k2 < adj@[v]@.len() ==> visited@[
                            #[trigger] adj@[v]@[k2] as int
                        ] || work@.contains(adj@[v]@[k2]) || (v == u as int && k2 >= k),
                decreases deps@.len() - k,
            {
                let ghost prev_work = work@;
                let d = deps[k];
                work.push(d);
                proof {
                    assert(work@ == prev_work.push(d));
                    assert(forall|t: int|
                        0 <= t < prev_work.len() ==> work@[t] == prev_work[t]);
                    assert forall|x: usize| prev_work.contains(x) implies work@.contains(x) by {
                        let t = choose|t: int| 0 <= t < prev_work.len() && prev_work[t] == x;
                        assert(work@[t] == x);
                    }
                    assert(work@[work@.len() - 1] == d);
                    assert(work@.contains(d));
                    // the pushed index is reachable
                    let n0 = choose|n0: nat| reaches(meta@, ri as int, u as int, n0);
                    assert(meta@.packages[d as int].id == meta@.packages[u as int].deps[k as int]);
                    assert(dep_edge(meta@, u as int, d as int));
                    lemma_reaches_extend(meta@, ri as int, u as int, d as int, n0);
                    assert(reachable(meta@, ri as int, d as int));
                }
                k = k + 1;
            }
            proof {
                assert forall|v: int, k2: int|
                    0 <= v < n && visited@[v] && 0 <= k2 < adj@[v]@.len() implies visited@[
                    #[trigger] adj@[v]@[k2] as int
                ] || work@.contains(adj@[v]@[k2]) by {}
            }
        } else {
            proof {
                assert(work@ == old_work.drop_last());
                assert forall|v: int, k2: int|
                    0 <= v < n && visited@[v] && 0 <= k2 < adj@[v]@.len() implies visited@[
                    #[trigger] adj@[v]@[k2] as int
                ] || work@.contains(adj@[v]@[k2]) by {
                    let d = adj@[v]@[k2];
                    if !visited@[d as int] {
                        assert(old_work.contains(d));
                        let t = choose|t: int| 0 <= t < old_work.len() && old_work[t] == d;
                        if t < old_work.len() - 1 {
                            assert(work@[t] == d);
                            assert(work@.contains(d));
                        } else {
                            assert(d == u);
                            assert(visited@[u as int]);
                        }
                    }
                }
                if !visited@[ri as int] {
                    assert(old_work.contains(ri));
                    let t = choose|t: int| 0 <= t < old_work.len() && old_work[t] == ri;
                    if t < old_work.len() - 1 {
                        assert(work@[t] == ri);
                        assert(work@.contains(ri));
                    } else {
                        assert(ri == u);
                    }
                }
            }
        }
    }
    proof {
        // translate adjacency closure to dependency-edge closure
        assert forall|u: int, d: int|
            0 <= u < visited@.len() && 0 <= d < visited@.len() && visited@[u] && #[trigger] dep_edge(
            meta@,
            u,
            d,
        ) implies visited@[d] by {
            let k = choose|k: int|
                0 <= k < meta@.packages[u].deps.len() && #[trigger] meta@.packages[u].deps[k]
                    == meta@.packages[d].id;
            let j = adj@[u]@[k] as int;
            assert(meta@.packages[j].id == meta@.packages[u].deps[k]);
            assert(visited@[j]);
            if j != d {
                if j < d {
                    assert(meta@.packages[j].id != meta@.packages[d].id);
                } else {
                    assert(meta@.packages[d].id != meta@.packages[j].id);
                }
            }
        }
    }
    visited
}

/// The index stands somewhere in the placement order.
pub open spec fn in_order(order: Seq<usize>, idx: int) -> bool {
    exists|t: int| 0 <= t < order.len() && order[t] as int == idx
}

/// The placement loop's state: `order` holds distinct visited non-root
/// indices, each after all of its dependencies; `placed` marks exactly the
/// ordered indices; `pos` inverts `order` on them.
pub open spec fn kahn_inv(
    m: MetadataV,
    adjv: Seq<Vec<usize>>,
    visited: Seq<bool>,
    placed: Seq<bool>,
    order: Seq<usize>,
    pos: Seq<usize>,
    ri: int,
    n: int,
) -> bool {
    &&& placed.len() == n
    &&& pos.len() == n
    &&& order.len() == count_true(placed)
    &&& 0 <= count_true(placed) <= n
    &&& forall|t: int|
        0 <= t < order.len() ==> (#[trigger] order[t] as int) < n && visited[order[t] as int]
            && order[t] as int != ri
    &&& forall|t1: int, t2: int|
        0 <= t1 < t2 < order.len() ==> order[t1] as int != order[t2] as int
    &&& forall|idx: int| 0 <= idx < n ==> (#[trigger] placed[idx] <==> in_order(order, idx))
    &&& !placed[ri]
    &&& forall|t: int, k: int|
        0 <= t < order.len() && 0 <= k < adjv[order[t] as int]@.len() ==> placed[#[trigger] adjv[
            order[t] as int
        ]@[k] as int] && (pos[adjv[order[t] as int]@[k] as int] as int) < t
    &&& forall|idx: int|
        0 <= idx < n && #[trigger] placed[idx] ==> (pos[idx] as int) < order.len()
            && order[pos[idx] as int] as int == idx
}

/// Rebuilds the placement invariant from its parts.
proof fn lemma_kahn_intro(
    m: MetadataV,
    adjv: Seq<Vec<usize>>,
    visited: Seq<bool>,
    placed: Seq<bool>,
    order: Seq<usize>,
    pos: Seq<usize>,
    ri: int,
    n: int,
)
    requires
        placed.len() == n,
        pos.len() == n,
        order.len() == count_true(placed),
        0 <= count_true(placed) <= n,
        forall|t: int|
            0 <= t < order.len() ==> (#[trigger] order[t] as int) < n && visited[order[t] as int]
                && order[t] as int != ri,
        forall|t1: int, t2: int|
            0 <= t1 < t2 < order.len() ==> order[t1] as int != order[t2] as int,
        forall|idx: int| 0 <= idx < n ==> (#[trigger] placed[idx] <==> in_order(order, idx)),
        !placed[ri],
        forall|t: int, k: int|
            0 <= t < order.len() && 0 <= k < adjv[order[t] as int]@.len() ==> placed[#[trigger] adjv[
                order[t] as int
            ]@[k] as int] && (pos[adjv[order[t] as int]@[k] as int] as int) < t,
        forall|idx: int|
            0 <= idx < n && #[trigger] placed[idx] ==> (pos[idx] as int) < order.len()
                && order[pos[idx] as int] as int == idx,
    ensures
        kahn_inv(m, adjv, visited, placed, order, pos, ri, n),
{
}

/// Every dependency index of the list is already placed.
fn all_deps_placed(deps: &Vec<usize>, placed: &Vec<bool>) -> (r: bool)
    requires
        forall|k: int| 0 <= k < deps@.len() ==> (#[trigger] deps@[k] as int) < placed@.len(),
    ensures
        r == (forall|k: int| 0 <= k < deps@.len() ==> placed@[#[trigger] deps@[k] as int]),
{
    let mut k: usize = 0;
    while k < deps.len()
        invariant
            0 <= k <= deps@.len(),
            forall|k2: int| 0 <= k2 < deps@.len() ==> (#[trigger] deps@[k2] as int) < placed@.len(),
            forall|k2: int| 0 <= k2 < k ==> placed@[#[trigger] deps@[k2] as int],
        decreases deps@.len() - k,
    {
        if !placed[deps[k]] {
            return false;
        }
        k = k + 1;
    }
    true
}

/// The chosen index of a package identity is the index of any package that
/// carries it, when identities are distinct.
pub proof fn lemma_idx_of_unique(m: MetadataV, id: PackageIdV, i: int)
    requires
        ids_distinct(m),
        0 <= i < m.packages.len(),
        m.packages[i].id == id,
    ensures
        idx_of(m, id) == i,
{
    assert(0 <= i < m.packages.len() && m.packages[i].id == id);
    let j = idx_of(m, id);
    assert(0 <= j < m.packages.len() && m.packages[j].id == id) by {
        assert(exists|x: int| 0 <= x < m.packages.len() && m.packages[x].id == id);
    }
    if j != i {
        if j < i {
            assert(m.packages[j].id != m.packages[i].id);
        } else {
            assert(m.packages[i].id != m.packages[j].id);
        }
    }
}

/// Places every reachable non-root package after all of its dependencies
/// (Kahn-style rounds). When the returned placement leaves a reachable
/// non-root package unplaced, that package waits, along every chain of
/// pending dependencies, inside the pending set — evidence of a cycle.
#[verifier::loop_isolation(false)]
#[verifier::rlimit(100)]
#[verifier::spinoff_prover]
fn place_packages(meta: &Metadata, adj: &Vec<Vec<usize>>, visited: &Vec<bool>, ri: usize) -> (r: (
    Vec<bool>,
    Vec<usize>,
    Vec<usize>,
))
    requires
        meta_wf(meta@),
        (ri as int) < meta@.packages.len(),
        adj@.len() == meta@.packages.len(),
        forall|i: int|
            0 <= i < adj@.len() ==> #[trigger] adj@[i]@.len() == meta@.packages[i].deps.len(),
        forall|i: int, k: int|
            0 <= i < adj@.len() && 0 <= k < adj@[i]@.len() ==> (#[trigger] adj@[i]@[k] as int)
                < meta@.packages.len() && meta@.packages[adj@[i]@[k] as int].id
                == meta@.packages[i].deps[k],
        visited@.len() == meta@.packages.len(),
    ensures
        kahn_inv(
            meta@,
            adj@,
            visited@,
            r.0@,
            r.1@,
            r.2@,
            ri as int,
            meta@.packages.len() as int,
        ),
        forall|u: int|
            0 <= u < meta@.packages.len() && visited@[u] && !r.0@[u] && u != ri as int
                ==> exists|k: int|
                0 <= k < adj@[u]@.len() && !r.0@[#[trigger] adj@[u]@[k] as int],
{
    let n = meta.packages.len();
    // place every reachable non-root package after its dependencies
    let mut placed: Vec<bool> = Vec::new();
    let mut pos: Vec<usize> = Vec::new();
    let mut z: usize = 0;
    while z < n
        invariant
            0 <= z <= n,
            placed@.len() == z,
            pos@.len() == z,
            forall|u: int| 0 <= u < z ==> !placed@[u],
        decreases n - z,
    {
        placed.push(false);
        pos.push(0);
        z = z + 1;
    }
    let mut order: Vec<usize> = Vec::new();
    proof {
        lemma_count_true_zero(placed@);
    }
    let mut progress: usize = 1;
    while progress == 1
        invariant
            kahn_inv(meta@, adj@, visited@, placed@, order@, pos@, ri as int, n as int),
            progress == 0 || progress == 1,
            progress == 0 ==> forall|u: int|
                0 <= u < n && visited@[u] && !placed@[u] && u != ri as int ==> exists|k: int|
                    0 <= k < adj@[u]@.len() && !placed@[#[trigger] adj@[u]@[k] as int],
        decreases n - count_true(placed@), progress,
    {
        progress = 0;
        let ghost old_count = count_true(placed@);
        let mut i: usize = 0;
        while i < n
            invariant
                kahn_inv(meta@, adj@, visited@, placed@, order@, pos@, ri as int, n as int),
                progress == 0 || progress == 1,
                progress == 0 ==> forall|u: int|
                    0 <= u < i && visited@[u] && !placed@[u] && u != ri as int ==> exists|k: int|
                        0 <= k < adj@[u]@.len() && !placed@[#[trigger] adj@[u]@[k] as int],
                count_true(placed@) >= old_count,
                progress == 1 ==> count_true(placed@) > old_count,
            decreases n - i,
        {
            if visited[i] && !placed[i] && i != ri {
                if all_deps_placed(&adj[i], &placed) {
                    let ghost old_placed = placed@;
                    let ghost old_order = order@;
                    let ghost old_pos = pos@;
                    order.push(i);
                    placed.set(i, true);
                    pos.set(i, order.len() - 1);
                    progress = 1;
                    proof {
                        lemma_count_true_update(old_placed, i as int);
                        lemma_count_true_le(placed@);
                        assert(order@ == old_order.push(i));
                        assert(order@.len() == old_order.len() + 1);
                        assert(order@[old_order.len() as int] == i);
                        assert forall|t: int| 0 <= t < old_order.len() implies order@[t]
                            == old_order[t] by {}
                        assert forall|t: int| 0 <= t < order@.len() implies (
                        #[trigger] order@[t] as int) < n && visited@[order@[t] as int] && order@[
                            t
                        ] as int != ri as int by {
                            if t < old_order.len() {
                                assert(order@[t] == old_order[t]);
                            } else {
                                assert(order@[t] == i);
                            }
                        }
                        // distinctness: i was not placed, so not in the old order
                        assert forall|t1: int, t2: int|
                            0 <= t1 < t2 < order@.len() implies order@[t1] as int
                            != order@[t2] as int by {
                            if t2 == old_order.len() {
                                if order@[t1] as int == i as int {
                                    assert(in_order(old_order, i as int));
                                    assert(old_placed[i as int]);
                                }
                            }
                        }
                        // placed <==> in order
                        assert forall|idx: int| 0 <= idx < n implies (#[trigger] placed@[idx]
                            <==> in_order(order@, idx)) by {
                            if idx == i as int {
                                assert(order@[old_order.len() as int] as int == idx);
                                assert(in_order(order@, idx));
                            } else {
                                if old_placed[idx] {
                                    let t = choose|t: int|
                                        0 <= t < old_order.len() && old_order[t] as int == idx;
                                    assert(order@[t] as int == idx);
                                    assert(in_order(order@, idx));
                                }
                                if in_order(order@, idx) {
                                    let t = choose|t: int|
                                        0 <= t < order@.len() && order@[t] as int == idx;
                                    assert(t < old_order.len());
                                    assert(in_order(old_order, idx));
                                }
                            }
                        }
                        // dependencies stand earlier
                        assert forall|t: int, k: int|
                            0 <= t < order@.len() && 0 <= k < adj@[order@[t] as int]@.len()
                            implies placed@[#[trigger] adj@[order@[t] as int]@[k] as int] && (pos@[
                            adj@[order@[t] as int]@[k] as int
                        ] as int) < t by {
                            let d = adj@[order@[t] as int]@[k] as int;
                            if t < old_order.len() {
                                assert(order@[t] == old_order[t]);
                                assert(old_placed[d] && (old_pos[d] as int) < t);
                                assert(d != i as int);
                                assert(pos@[d] == old_pos[d]);
                            } else {
                                assert(order@[t] == i);
                                assert(old_placed[d]);
                                assert(d != i as int);
                                assert(pos@[d] == old_pos[d]);
                                assert((old_pos[d] as int) < old_order.len());
                            }
                        }
                        // pos inverts order
                        assert forall|idx: int| 0 <= idx < n && #[trigger] placed@[idx] implies (
                        pos@[idx] as int) < order@.len() && order@[pos@[idx] as int] as int
                            == idx by {
                            if idx == i as int {
                                assert(pos@[idx] as int == old_order.len());
                            } else {
                                assert(old_placed[idx]);
                                assert(pos@[idx] == old_pos[idx]);
                            }
                        }
                        assert(placed@.len() == n as int);
                        assert(pos@.len() == n as int);
                        assert(order@.len() == count_true(placed@));
                        assert(0 <= count_true(placed@) <= n as int);
                        assert(!placed@[ri as int]);
                        lemma_kahn_intro(
                            meta@,
                            adj@,
                            visited@,
                            placed@,
                            order@,
                            pos@,
                            ri as int,
                            n as int,
                        );
                    }
                }
            }
            i = i + 1;
        }
    }

    (placed, order, pos)
}

/// Builds the dependency graph of the root package with the given
/// identity: the root plus everything transitively reachable from it,
/// one node per package identity, in bottom-up order with the root last.
///
/// Fails with `MalformedMetadata` exactly when the document is not
/// well-formed or the root identity is absent; fails with
/// `CyclicDependency` only when some reachable package depends on a chain
/// that returns into the pending set or onto the root, which happens only
/// on a cyclic graph.
#[verifier::loop_isolation(false)]
#[verifier::rlimit(100)]
#[verifier::spinoff_prover]
pub fn build_graph(meta: &Metadata, root_id: &PackageId) -> (r: Result<
    DependencyGraph,
    TagsError,
>)
    ensures
        (r matches Err(e) && e is MalformedMetadata) <==> !(meta_wf(meta@) && exists|i: int|
            0 <= i < meta@.packages.len() && meta@.packages[i].id == root_id@),
        r matches Err(e) ==> e is MalformedMetadata || e is CyclicDependency,
        r matches Err(e) && e is CyclicDependency ==> exists|mask: Seq<bool>|
            cyclic_from(meta@, idx_of(meta@, root_id@), mask),
        r matches Ok(g) ==> graph_wf(g@) && g@.nodes[g@.root].id == root_id@
            && g@.nodes[g@.root].is_root == meta@.packages[idx_of(meta@, root_id@)].is_root,
        r matches Ok(g) ==> forall|t: int|
            0 <= t < g@.nodes.len() ==> exists|i: int|
                0 <= i < meta@.packages.len() && node_matches(#[trigger] g@.nodes[t],
                meta@.packages[i]) && reachable(meta@, idx_of(meta@, root_id@), i),
        r matches Ok(g) ==> forall|i: int|
            0 <= i < meta@.packages.len() && reachable(meta@, idx_of(meta@, root_id@), i)
                ==> exists|t: int|
                0 <= t < g@.nodes.len() && g@.nodes[t].id == #[trigger] meta@.packages[i].id,
        r matches Ok(g) ==> forall|t: int, k: int|
            0 <= t < g@.nodes.len() && 0 <= k < g@.deps[t].len() ==> id_dep(meta@,
            g@.nodes[t].id, g@.nodes[#[trigger] g@.deps[t][k] as int].id),
        r matches Ok(g) ==> forall|t: int, i: int, k: int|
            #![trigger g@.nodes[t].id, meta@.packages[i].deps[k]]
            0 <= t < g@.nodes.len() && 0 <= i < meta@.packages.len() && g@.nodes[t].id
                == meta@.packages[i].id && 0 <= k < meta@.packages[i].deps.len() ==> g@.deps[
                t
            ].len() == meta@.packages[i].deps.len() && g@.nodes[g@.deps[t][k] as int].id
                == meta@.packages[i].deps[k],
{
    if !metadata_wf_exec(meta) {
        return Err(TagsError::MalformedMetadata(Vec::new()));
    }
    let ri = match find_package(meta, root_id) {
        Some(i) => i,
        None => {
            return Err(TagsError::MalformedMetadata(Vec::new()));
        },
    };
    let n = meta.packages.len();
    let adj = resolve_adj(meta);
    let visited = bfs_reachable(meta, &adj, ri);
    proof {
        lemma_idx_of_unique(meta@, root_id@, ri as int);
    }

    let trio = place_packages(meta, &adj, &visited, ri);
    let placed = trio.0;
    let order = trio.1;
    let pos = trio.2;

    match check_acyclic(meta, &adj, &visited, &placed, ri) {
        Ok(unit) => {
            let _ = unit;
        },
        Err(e) => {
            return Err(e);
        },
    }

    let g = assemble_graph(meta, &adj, &visited, &placed, &order, &pos, ri);
    Ok(g)
}

/// Checks that the placement covered every reachable package: a reachable
/// non-root package that could not be placed waits, along every chain of
/// pending dependencies, inside the pending set or on the root, and the
/// root depending on itself is the one cycle the placement loop cannot
/// see — either is reported as `CyclicDependency` with a witness.
#[verifier::loop_isolation(false)]
#[verifier::rlimit(100)]
#[verifier::spinoff_prover]
fn check_acyclic(
    meta: &Metadata,
    adj: &Vec<Vec<usize>>,
    visited: &Vec<bool>,
    placed: &Vec<bool>,
    ri: usize,
) -> (r: Result<(), TagsError>)
    requires
        meta_wf(meta@),
        (ri as int) < meta@.packages.len(),
        adj@.len() == meta@.packages.len(),
        forall|i: int|
            0 <= i < adj@.len() ==> #[trigger] adj@[i]@.len() == meta@.packages[i].deps.len(),
        forall|i: int, k: int|
            0 <= i < adj@.len() && 0 <= k < adj@[i]@.len() ==> (#[trigger] adj@[i]@[k] as int)
                < meta@.packages.len() && meta@.packages[adj@[i]@[k] as int].id
                == meta@.packages[i].deps[k],
        visited@.len() == meta@.packages.len(),
        placed@.len() == meta@.packages.len(),
        visited@[ri as int],
        forall|u: int|
            0 <= u < visited@.len() && visited@[u] ==> reachable(meta@, ri as int, u),
        forall|u: int, k: int|
            0 <= u < visited@.len() && visited@[u] && 0 <= k < adj@[u]@.len() ==> visited@[
                #[trigger] adj@[u]@[k] as int
            ],
        forall|u: int|
            0 <= u < visited@.len() && visited@[u] && !placed@[u] && u != ri as int
                ==> exists|k: int|
                0 <= k < adj@[u]@.len() && !placed@[#[trigger] adj@[u]@[k] as int],
    ensures
        r is Ok ==> (forall|u: int|
            0 <= u < visited@.len() && visited@[u] && u != ri as int ==> placed@[u]) && (forall|
            k3: int,
        |
            0 <= k3 < adj@[ri as int]@.len() ==> #[trigger] adj@[ri as int]@[k3] != ri),
        r matches Err(e) ==> e is CyclicDependency && exists|mask: Seq<bool>|
            cyclic_from(meta@, ri as int, mask),
{
    let n = meta.packages.len();
    // a reachable non-root package that could not be placed waits, along
    // every chain of pending dependencies, inside the pending set or on
    // the root: the graph is cyclic
    let mut i: usize = 0;
    while i < n
        invariant
            0 <= i <= n,
            forall|u: int| 0 <= u < i && visited@[u] && u != ri as int ==> placed@[u],
        decreases n - i,
    {
        if visited[i] && !placed[i] && i != ri {
            proof {
                let m = meta@;
                let mask = Seq::new(n as nat, |x: int| visited@[x] && !placed@[x] && x != ri as int);
                assert(mask[i as int]);
                assert forall|u: int| 0 <= u < mask.len() && mask[u] implies reachable(
                    m,
                    ri as int,
                    u,
                ) && exists|d: int| #[trigger] dep_edge(m, u, d) && (mask[d] || d == ri as int) by {
                    let k = choose|k: int|
                        0 <= k < adj@[u]@.len() && !placed@[#[trigger] adj@[u]@[k] as int];
                    let d = adj@[u]@[k] as int;
                    assert(m.packages[d].id == m.packages[u].deps[k]);
                    assert(dep_edge(m, u, d));
                    assert(visited@[d]);
                    assert(mask[d] || d == ri as int);
                }
                assert(cyclic_from(m, ri as int, mask));
            }
            return Err(TagsError::CyclicDependency(clone_bytes(&meta.packages[i].id.name)));
        }
        i = i + 1;
    }
    // the root depending on itself is the one cycle the placement loop
    // cannot see, since the root is never placed
    let root_deps = &adj[ri];
    let mut k: usize = 0;
    while k < root_deps.len()
        invariant
            0 <= k <= root_deps@.len(),
            root_deps@ == adj@[ri as int]@,
            forall|k2: int| 0 <= k2 < k ==> #[trigger] root_deps@[k2] != ri,
        decreases root_deps@.len() - k,
    {
        if root_deps[k] == ri {
            proof {
                let m = meta@;
                let mask = Seq::new(n as nat, |x: int| x == ri as int);
                assert(mask[ri as int]);
                assert(reaches(m, ri as int, ri as int, 0));
                assert forall|u: int| 0 <= u < mask.len() && mask[u] implies reachable(
                    m,
                    ri as int,
                    u,
                ) && exists|d: int| #[trigger] dep_edge(m, u, d) && (mask[d] || d == ri as int) by {
                    assert(m.packages[adj@[ri as int]@[k as int] as int].id == m.packages[
                        ri as int
                    ].deps[k as int]);
                    assert(dep_edge(m, ri as int, ri as int));
                }
                assert(cyclic_from(m, ri as int, mask));
            }
            return Err(TagsError::CyclicDependency(clone_bytes(&meta.packages[ri].id.name)));
        }
        k = k + 1;
    }

    Ok(())
}

/// From an order whose edges point, per node, at the positions of that
/// node's declared dependencies, the graph's edges are exactly those
/// dependencies.
proof fn lemma_edges_faithful(
    m: MetadataV,
    adjv: Seq<Vec<usize>>,
    order: Seq<usize>,
    ofull: Seq<usize>,
    gv: GraphV,
    ri: int,
)
    requires
        ids_distinct(m),
        0 <= ri < m.packages.len(),
        adjv.len() == m.packages.len(),
        forall|i: int|
            0 <= i < adjv.len() ==> #[trigger] adjv[i]@.len() == m.packages[i].deps.len(),
        forall|i: int, k: int|
            0 <= i < adjv.len() && 0 <= k < adjv[i]@.len() ==> (#[trigger] adjv[i]@[k] as int)
                < m.packages.len() && m.packages[adjv[i]@[k] as int].id == m.packages[i].deps[k],
        ofull.len() == order.len() + 1,
        forall|t: int| 0 <= t < order.len() ==> #[trigger] ofull[t] == order[t],
        ofull[order.len() as int] as int == ri,
        forall|t: int|
            0 <= t < ofull.len() ==> (#[trigger] ofull[t] as int) < m.packages.len(),
        gv.nodes.len() == ofull.len(),
        gv.deps.len() == ofull.len(),
        forall|t: int|
            0 <= t < gv.nodes.len() ==> node_matches(#[trigger] gv.nodes[t],
            m.packages[ofull[t] as int]),
        forall|t: int|
            0 <= t < gv.deps.len() ==> #[trigger] gv.deps[t].len() == adjv[ofull[t] as int]@.len(),
        forall|t: int, k: int|
            0 <= t < gv.deps.len() && 0 <= k < gv.deps[t].len() ==> (#[trigger] gv.deps[t][
                k
            ] as int) < order.len() && ofull[gv.deps[t][k] as int] as int == adjv[ofull[
                t
            ] as int]@[k] as int,
    ensures
        forall|t: int, k: int|
            0 <= t < gv.nodes.len() && 0 <= k < gv.deps[t].len() ==> id_dep(m, gv.nodes[t].id,
            gv.nodes[#[trigger] gv.deps[t][k] as int].id),
        forall|t: int, i: int, k: int|
            #![trigger gv.nodes[t].id, m.packages[i].deps[k]]
            0 <= t < gv.nodes.len() && 0 <= i < m.packages.len() && gv.nodes[t].id == m.packages[
                i
            ].id && 0 <= k < m.packages[i].deps.len() ==> gv.deps[t].len() == m.packages[
                i
            ].deps.len() && gv.nodes[gv.deps[t][k] as int].id == m.packages[i].deps[k],
{
    assert forall|t: int, k: int|
        0 <= t < gv.nodes.len() && 0 <= k < gv.deps[t].len() implies id_dep(
        m,
        gv.nodes[t].id,
        gv.nodes[#[trigger] gv.deps[t][k] as int].id,
    ) by {
        let i2 = ofull[t] as int;
        let ei = gv.deps[t][k] as int;
        let d = adjv[i2]@[k] as int;
        assert(ofull[ei] as int == d);
        assert(m.packages[d].id == m.packages[i2].deps[k]);
        assert(node_matches(gv.nodes[t], m.packages[i2]));
        assert(node_matches(gv.nodes[ei], m.packages[ofull[ei] as int]));
        assert(0 <= i2 < m.packages.len() && m.packages[i2].id == gv.nodes[t].id && 0 <= k
            < m.packages[i2].deps.len() && m.packages[i2].deps[k] == gv.nodes[ei].id);
    }
    assert forall|t: int, i: int, k: int|
        #![trigger gv.nodes[t].id, m.packages[i].deps[k]]
        0 <= t < gv.nodes.len() && 0 <= i < m.packages.len() && gv.nodes[t].id == m.packages[
            i
        ].id && 0 <= k < m.packages[i].deps.len() implies gv.deps[t].len() == m.packages[
            i
        ].deps.len() && gv.nodes[gv.deps[t][k] as int].id == m.packages[i].deps[k] by {
        let o2 = ofull[t] as int;
        assert(node_matches(gv.nodes[t], m.packages[o2]));
        assert(i == o2) by {
            if i != o2 {
                if i < o2 {
                    assert(m.packages[i].id != m.packages[o2].id);
                } else {
                    assert(m.packages[o2].id != m.packages[i].id);
                }
            }
        }
        assert(gv.deps[t].len() == adjv[o2]@.len());
        let ei = gv.deps[t][k] as int;
        assert(ofull[ei] as int == adjv[o2]@[k] as int);
        assert(m.packages[adjv[o2]@[k] as int].id == m.packages[o2].deps[k]);
        assert(node_matches(gv.nodes[ei], m.packages[ofull[ei] as int]));
    }
}

/// Assembles the graph from a completed placement: the placed packages in
/// order, the root last, each node's edges pointing at the (earlier)
/// positions of its dependencies.
#[verifier::loop_isolation(false)]
#[verifier::rlimit(100)]
#[verifier::spinoff_prover]
fn assemble_graph(
    meta: &Metadata,
    adj: &Vec<Vec<usize>>,
    visited: &Vec<bool>,
    placed: &Vec<bool>,
    order: &Vec<usize>,
    pos: &Vec<usize>,
    ri: usize,
) -> (g: DependencyGraph)
    requires
        meta_wf(meta@),
        (ri as int) < meta@.packages.len(),
        adj@.len() == meta@.packages.len(),
        forall|i: int|
            0 <= i < adj@.len() ==> #[trigger] adj@[i]@.len() == meta@.packages[i].deps.len(),
        forall|i: int, k: int|
            0 <= i < adj@.len() && 0 <= k < adj@[i]@.len() ==> (#[trigger] adj@[i]@[k] as int)
                < meta@.packages.len() && meta@.packages[adj@[i]@[k] as int].id
                == meta@.packages[i].deps[k],
        visited@.len() == meta@.packages.len(),
        visited@[ri as int],
        forall|u: int|
            0 <= u < visited@.len() && visited@[u] ==> reachable(meta@, ri as int, u),
        forall|u: int, k: int|
            0 <= u < visited@.len() && visited@[u] && 0 <= k < adj@[u]@.len() ==> visited@[
                #[trigger] adj@[u]@[k] as int
            ],
        forall|u: int, d: int|
            0 <= u < visited@.len() && 0 <= d < visited@.len() && visited@[u] && #[trigger] dep_edge(
                meta@,
                u,
                d,
            ) ==> visited@[d],
        kahn_inv(
            meta@,
            adj@,
            visited@,
            placed@,
            order@,
            pos@,
            ri as int,
            meta@.packages.len() as int,
        ),
        forall|u: int|
            0 <= u < visited@.len() && visited@[u] && u != ri as int ==> placed@[u],
        forall|k3: int| 0 <= k3 < adj@[ri as int]@.len() ==> #[trigger] adj@[ri as int]@[k3] != ri,
    ensures
        graph_wf(g@),
        g@.nodes[g@.root].id == meta@.packages[ri as int].id,
        g@.nodes[g@.root].is_root == meta@.packages[ri as int].is_root,
        forall|t: int|
            0 <= t < g@.nodes.len() ==> exists|i: int|
                0 <= i < meta@.packages.len() && node_matches(#[trigger] g@.nodes[t],
                meta@.packages[i]) && reachable(meta@, ri as int, i),
        forall|i: int|
            0 <= i < meta@.packages.len() && reachable(meta@, ri as int, i) ==> exists|t: int|
                0 <= t < g@.nodes.len() && g@.nodes[t].id == #[trigger] meta@.packages[i].id,
        forall|t: int, k: int|
            0 <= t < g@.nodes.len() && 0 <= k < g@.deps[t].len() ==> id_dep(meta@,
            g@.nodes[t].id, g@.nodes[#[trigger] g@.deps[t][k] as int].id),
        forall|t: int, i: int, k: int|
            #![trigger g@.nodes[t].id, meta@.packages[i].deps[k]]
            0 <= t < g@.nodes.len() && 0 <= i < meta@.packages.len() && g@.nodes[t].id
                == meta@.packages[i].id && 0 <= k < meta@.packages[i].deps.len() ==> g@.deps[
                t
            ].len() == meta@.packages[i].deps.len() && g@.nodes[g@.deps[t][k] as int].id
                == meta@.packages[i].deps[k],
{
    let n = meta.packages.len();
    // assemble: the placed packages in order, the root last
    let mut nodes: Vec<PackageNode> = Vec::new();
    let mut edges: Vec<Vec<usize>> = Vec::new();
    let ghost order_full = order@.push(ri);
    let mut t: usize = 0;
    while t < order.len()
        invariant
            0 <= t <= order@.len(),
            kahn_inv(meta@, adj@, visited@, placed@, order@, pos@, ri as int, n as int),
            forall|u: int| 0 <= u < n && visited@[u] && u != ri as int ==> placed@[u],
            nodes@.len() == t,
            edges@.len() == t,
            forall|t2: int|
                0 <= t2 < t ==> node_matches(#[trigger] nodes@[t2]@, meta@.packages[order@[
                    t2
                ] as int]),
            forall|t2: int|
                0 <= t2 < t ==> #[trigger] edges@[t2]@.len() == adj@[order@[t2] as int]@.len(),
            forall|t2: int, k2: int|
                0 <= t2 < t && 0 <= k2 < edges@[t2]@.len() ==> (#[trigger] edges@[t2]@[k2] as int)
                    < t2 && order@[edges@[t2]@[k2] as int] as int == adj@[order@[t2] as int]@[
                    k2
                ] as int,
        decreases order@.len() - t,
    {
        let mi = order[t];
        let pkg = &meta.packages[mi];
        nodes.push(
            PackageNode {
                id: id_clone(&pkg.id),
                src_dir: clone_bytes(&pkg.src_dir),
                is_root: pkg.is_root,
            },
        );
        let row = &adj[mi];
        let mut e: Vec<usize> = Vec::new();
        let mut k2: usize = 0;
        while k2 < row.len()
            invariant
                0 <= k2 <= row@.len(),
                0 <= t < order@.len(),
                mi == order@[t as int],
                row@ == adj@[mi as int]@,
                kahn_inv(meta@, adj@, visited@, placed@, order@, pos@, ri as int, n as int),
                e@.len() == k2,
                forall|k3: int|
                    0 <= k3 < k2 ==> (#[trigger] e@[k3] as int) < t && order@[e@[k3] as int] as int
                        == adj@[mi as int]@[k3] as int,
            decreases row@.len() - k2,
        {
            let d = row[k2];
            proof {
                assert(adj@[order@[t as int] as int]@[k2 as int] == d);
                assert(placed@[d as int] && (pos@[d as int] as int) < t as int);
                assert(order@[pos@[d as int] as int] as int == d as int);
            }
            e.push(pos[d]);
            k2 = k2 + 1;
        }
        edges.push(e);
        t = t + 1;
    }
    // the root node
    let rpkg = &meta.packages[ri];
    nodes.push(
        PackageNode {
            id: id_clone(&rpkg.id),
            src_dir: clone_bytes(&rpkg.src_dir),
            is_root: rpkg.is_root,
        },
    );
    let row = &adj[ri];
    let mut e: Vec<usize> = Vec::new();
    let mut k2: usize = 0;
    while k2 < row.len()
        invariant
            0 <= k2 <= row@.len(),
            row@ == adj@[ri as int]@,
            kahn_inv(meta@, adj@, visited@, placed@, order@, pos@, ri as int, n as int),
            forall|u: int| 0 <= u < n && visited@[u] && u != ri as int ==> placed@[u],
            forall|k3: int| 0 <= k3 < row@.len() ==> #[trigger] row@[k3] != ri,
            e@.len() == k2,
            forall|k3: int|
                0 <= k3 < k2 ==> (#[trigger] e@[k3] as int) < order@.len() && order@[
                    e@[k3] as int
                ] as int == adj@[ri as int]@[k3] as int,
        decreases row@.len() - k2,
    {
        let d = row[k2];
        proof {
            assert(visited@[d as int]);
            assert(d != ri);
            assert(placed@[d as int]);
            assert(order@[pos@[d as int] as int] as int == d as int);
        }
        e.push(pos[d]);
        k2 = k2 + 1;
    }
    let ghost root_row = e@;
    edges.push(e);
    let root_t = nodes.len() - 1;
    let g = DependencyGraph { nodes, deps: edges, root: root_t };
    proof {
        let m = meta@;
        let gv = g@;
        let ci = ri as int;
        assert(gv.nodes.len() == order_full.len());
        assert(gv.deps.len() == order_full.len());
        assert(order_full[order_full.len() - 1] as int == ci);
        assert forall|t2: int| 0 <= t2 < gv.nodes.len() implies node_matches(
            #[trigger] gv.nodes[t2],
            m.packages[order_full[t2] as int],
        ) by {
            if t2 < order_full.len() - 1 {
                assert(order_full[t2] == order@[t2]);
            }
        }
        // the order is injective, so identities are distinct
        assert forall|t1: int, t2: int|
            0 <= t1 < t2 < gv.nodes.len() implies gv.nodes[t1].id != gv.nodes[t2].id by {
            let a = order_full[t1] as int;
            let b = order_full[t2] as int;
            assert(a != b) by {
                if t2 == order_full.len() - 1 {
                    assert(order_full[t1] == order@[t1]);
                    assert(order@[t1] as int != ci);
                } else {
                    assert(order_full[t1] == order@[t1]);
                    assert(order_full[t2] == order@[t2]);
                }
            }
            if a < b {
                assert(m.packages[a].id != m.packages[b].id);
            } else {
                assert(m.packages[b].id != m.packages[a].id);
            }
        }
        // every node is a reachable package
        assert forall|t2: int| 0 <= t2 < gv.nodes.len() implies exists|i2: int|
            0 <= i2 < m.packages.len() && node_matches(#[trigger] gv.nodes[t2], m.packages[i2])
                && reachable(m, ri as int, i2) by {
            let i2 = order_full[t2] as int;
            if t2 < order_full.len() - 1 {
                assert(visited@[i2]);
            } else {
                assert(i2 == ci);
                assert(reaches(m, ci, ci, 0));
            }
            assert(reachable(m, ci, i2));
            assert(node_matches(gv.nodes[t2], m.packages[i2]));
        }
        // every reachable package is a node
        assert forall|i2: int|
            0 <= i2 < m.packages.len() && reachable(m, ri as int, i2) implies exists|
            t2: int,
        |
            0 <= t2 < gv.nodes.len() && gv.nodes[t2].id == #[trigger] m.packages[i2].id by {
            let n0 = choose|n0: nat| reaches(m, ci, i2, n0);
            lemma_closed_reachable(m, visited@, ci, i2, n0);
            if i2 == ci {
                assert(gv.nodes[order_full.len() - 1].id == m.packages[i2].id);
            } else {
                assert(placed@[i2]);
                let t2 = choose|t2: int| 0 <= t2 < order@.len() && order@[t2] as int == i2;
                assert(order_full[t2] == order@[t2]);
                assert(gv.nodes[t2].id == m.packages[i2].id);
            }
        }
        // unified shape of all edge rows, the root's last row included
        assert forall|t2: int|
            0 <= t2 < gv.deps.len() implies #[trigger] gv.deps[t2].len() == adj@[order_full[
            t2
        ] as int]@.len() by {
            if t2 < order_full.len() - 1 {
                assert(order_full[t2] == order@[t2]);
                assert(gv.deps[t2] == edges@[t2]@);
                assert(edges@[t2]@.len() == adj@[order@[t2] as int]@.len());
            } else {
                assert(gv.deps[t2] == root_row);
            }
        }
        assert forall|t2: int, k3: int|
            0 <= t2 < gv.deps.len() && 0 <= k3 < gv.deps[t2].len() implies (#[trigger] gv.deps[
            t2
        ][k3] as int) < order@.len() && order_full[gv.deps[t2][k3] as int] as int == adj@[
            order_full[t2] as int
        ]@[k3] as int by {
            let ei = gv.deps[t2][k3] as int;
            if t2 < order_full.len() - 1 {
                assert(order_full[t2] == order@[t2]);
                assert(gv.deps[t2] == edges@[t2]@);
                assert((edges@[t2]@[k3] as int) < t2);
                assert(order@[edges@[t2]@[k3] as int] as int == adj@[order@[t2] as int]@[
                    k3
                ] as int);
                assert(order_full[ei] == order@[ei]);
            } else {
                assert(gv.deps[t2] == root_row);
                assert((root_row[k3] as int) < order@.len());
                assert(order@[root_row[k3] as int] as int == adj@[ri as int]@[k3] as int);
                assert(order_full[ei] == order@[ei]);
            }
        }
        assert forall|t2: int|
            0 <= t2 < order_full.len() implies (#[trigger] order_full[t2] as int)
                < m.packages.len() by {
            if t2 < order_full.len() - 1 {
                assert(order_full[t2] == order@[t2]);
            }
        }
        lemma_edges_faithful(m, adj@, order@, order_full, gv, ri as int);
        assert(graph_wf(gv));
    }
    g
}

/// An all-false mask counts zero.
proof fn lemma_count_true_zero(s: Seq<bool>)
    requires
        forall|u: int| 0 <= u < s.len() ==> !s[u],
    ensures
        count_true(s) == 0,
    decreases s.len(),
{
    if s.len() > 0 {
        lemma_count_true_zero(s.drop_last());
    }
}

} // verus!
