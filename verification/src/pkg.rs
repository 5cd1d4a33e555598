//! Package identities, graph vertices, and cache keys.

use vstd::prelude::*;
use crate::bytes::lex_lt;
use crate::bytes::bytes_eq;
use crate::bytes::clone_bytes;

verus! {

/// Where a package's source comes from. Two packages are only
/// interchangeable in the cache when their origin is immutable, which a
/// local path never is.
pub enum Origin {
    /// Source on the local filesystem: mutable, never cacheable.
    LocalPath(Vec<u8>),
    /// A registry release: immutable per version.
    Registry(Vec<u8>),
    /// A pinned version-control reference: immutable per reference.
    Vcs(Vec<u8>),
}

/// Mathematical value of an [`Origin`].
pub enum OriginV {
    LocalPath(Seq<u8>),
    Registry(Seq<u8>),
    Vcs(Seq<u8>),
}

impl View for Origin {
    type V = OriginV;

    open spec fn view(&self) -> OriginV {
        match self {
            Origin::LocalPath(p) => OriginV::LocalPath(p@),
            Origin::Registry(u) => OriginV::Registry(u@),
            Origin::Vcs(r) => OriginV::Vcs(r@),
        }
    }
}

/// Uniquely identifies a package: name, version, and source origin.
/// Two identities are equal exactly when all three fields match.
pub struct PackageId {
    pub name: Vec<u8>,
    pub version: Vec<u8>,
    pub origin: Origin,
}

/// Mathematical value of a [`PackageId`].
pub struct PackageIdV {
    pub name: Seq<u8>,
    pub version: Seq<u8>,
    pub origin: OriginV,
}

impl View for PackageId {
    type V = PackageIdV;

    open spec fn view(&self) -> PackageIdV {
        PackageIdV { name: self.name@, version: self.version@, origin: self.origin@ }
    }
}

/// One vertex of a dependency graph: a package identity, its resolved
/// source directory, and whether it is owned by the workspace (a root
/// package, never cached) or an external dependency.
pub struct PackageNode {
    pub id: PackageId,
    pub src_dir: Vec<u8>,
    pub is_root: bool,
}

/// Mathematical value of a [`PackageNode`].
pub struct PackageNodeV {
    pub id: PackageIdV,
    pub src_dir: Seq<u8>,
    pub is_root: bool,
}

impl View for PackageNode {
    type V = PackageNodeV;

    open spec fn view(&self) -> PackageNodeV {
        PackageNodeV { id: self.id@, src_dir: self.src_dir@, is_root: self.is_root }
    }
}

/// Tests two origins for equality of variant and payload.
pub fn origin_eq(a: &Origin, b: &Origin) -> (r: bool)
    ensures
        r == (a@ == b@),
{
    match (a, b) {
        (Origin::LocalPath(p), Origin::LocalPath(q)) => bytes_eq(p, q),
        (Origin::Registry(p), Origin::Registry(q)) => bytes_eq(p, q),
        (Origin::Vcs(p), Origin::Vcs(q)) => bytes_eq(p, q),
        _ => false,
    }
}

/// Tests two package identities for equality: all three fields must match.
pub fn id_eq(a: &PackageId, b: &PackageId) -> (r: bool)
    ensures
        r == (a@ == b@),
{
    bytes_eq(&a.name, &b.name) && bytes_eq(&a.version, &b.version) && origin_eq(
        &a.origin,
        &b.origin,
    )
}

/// Normalized form of an origin, used inside a cache key: one marker byte
/// for the origin kind, then the origin's own text. Distinct origins map
/// to distinct normal forms.
pub open spec fn origin_norm(o: OriginV) -> Seq<u8> {
    match o {
        OriginV::LocalPath(p) => seq![112u8] + p,
        OriginV::Registry(u) => seq![114u8] + u,
        OriginV::Vcs(r) => seq![103u8] + r,
    }
}

/// Returns the normalized form of an origin.
pub fn origin_norm_exec(o: &Origin) -> (r: Vec<u8>)
    ensures
        r@ == origin_norm(o@),
{
    let mut r: Vec<u8> = Vec::new();
    match o {
        Origin::LocalPath(p) => {
            r.push(112);
            crate::bytes::append_to(&mut r, p);
            proof {
                assert(r@ =~= seq![112u8] + p@);
            }
        },
        Origin::Registry(u) => {
            r.push(114);
            crate::bytes::append_to(&mut r, u);
            proof {
                assert(r@ =~= seq![114u8] + u@);
            }
        },
        Origin::Vcs(v) => {
            r.push(103);
            crate::bytes::append_to(&mut r, v);
            proof {
                assert(r@ =~= seq![103u8] + v@);
            }
        },
    }
    r
}

/// Returns a copy of an origin.
pub fn origin_clone(o: &Origin) -> (r: Origin)
    ensures
        r@ == o@,
{
    match o {
        Origin::LocalPath(p) => Origin::LocalPath(clone_bytes(p)),
        Origin::Registry(u) => Origin::Registry(clone_bytes(u)),
        Origin::Vcs(v) => Origin::Vcs(clone_bytes(v)),
    }
}

/// Returns a copy of a package identity.
pub fn id_clone(id: &PackageId) -> (r: PackageId)
    ensures
        r@ == id@,
{
    PackageId {
        name: clone_bytes(&id.name),
        version: clone_bytes(&id.version),
        origin: origin_clone(&id.origin),
    }
}

/// Addresses a package's cached index: derived deterministically from a
/// package identity alone.
pub struct CacheKey {
    pub name: Vec<u8>,
    pub version: Vec<u8>,
    pub origin_tag: Vec<u8>,
}

/// Mathematical value of a [`CacheKey`].
pub struct CacheKeyV {
    pub name: Seq<u8>,
    pub version: Seq<u8>,
    pub origin_tag: Seq<u8>,
}

impl View for CacheKey {
    type V = CacheKeyV;

    open spec fn view(&self) -> CacheKeyV {
        CacheKeyV { name: self.name@, version: self.version@, origin_tag: self.origin_tag@ }
    }
}

/// The cache key a package identity derives to.
pub open spec fn cache_key_of(id: PackageIdV) -> CacheKeyV {
    CacheKeyV { name: id.name, version: id.version, origin_tag: origin_norm(id.origin) }
}

/// Derives the cache key of a package identity.
pub fn cache_key(id: &PackageId) -> (k: CacheKey)
    ensures
        k@ == cache_key_of(id@),
{
    CacheKey {
        name: clone_bytes(&id.name),
        version: clone_bytes(&id.version),
        origin_tag: origin_norm_exec(&id.origin),
    }
}

/// Tests two cache keys for equality.
pub fn key_eq(a: &CacheKey, b: &CacheKey) -> (r: bool)
    ensures
        r == (a@ == b@),
{
    bytes_eq(&a.name, &b.name) && bytes_eq(&a.version, &b.version) && bytes_eq(
        &a.origin_tag,
        &b.origin_tag,
    )
}

/// Two package identities derive the same cache key only when they are the
/// same identity: the key keeps the name, the version, and the origin
/// (through its injective normal form).
pub proof fn lemma_cache_key_injective(a: PackageIdV, b: PackageIdV)
    requires
        cache_key_of(a) == cache_key_of(b),
    ensures
        a == b,
{
    let na = origin_norm(a.origin);
    let nb = origin_norm(b.origin);
    assert(na == nb);
    assert(na[0] == nb[0]);
    assert(na.drop_first() =~= nb.drop_first());
    match (a.origin, b.origin) {
        (OriginV::LocalPath(p), OriginV::LocalPath(q)) => {
            assert((seq![112u8] + p).drop_first() =~= p);
            assert((seq![112u8] + q).drop_first() =~= q);
        },
        (OriginV::Registry(p), OriginV::Registry(q)) => {
            assert((seq![114u8] + p).drop_first() =~= p);
            assert((seq![114u8] + q).drop_first() =~= q);
        },
        (OriginV::Vcs(p), OriginV::Vcs(q)) => {
            assert((seq![103u8] + p).drop_first() =~= p);
            assert((seq![103u8] + q).drop_first() =~= q);
        },
        _ => {},
    }
}

} // verus!
