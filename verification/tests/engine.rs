//! End-to-end scenarios over the graph builder, cache policy, and merge
//! engine.

use rusty_tags::cache::{extraction_plan, merge_graph, CacheStore};
use rusty_tags::dirs::{cargo_dir, home_dir, rusty_tags_cache_dir, rusty_tags_dir, std_lib_plan,
    OverrideProbe, StdLibPlan};
use rusty_tags::error::TagsError;
use rusty_tags::graph::build_graph;
use rusty_tags::index::{IndexFile, IndexFormat, Record, Section};
use rusty_tags::metadata::{Metadata, PackageMeta};
use rusty_tags::pkg::{cache_key, Origin, PackageId};

fn id(name: &str, version: &str, origin: Origin) -> PackageId {
    PackageId { name: name.as_bytes().to_vec(), version: version.as_bytes().to_vec(), origin }
}

fn reg(name: &str, version: &str) -> PackageId {
    id(name, version, Origin::Registry(b"crates-io".to_vec()))
}

fn pkg(pid: PackageId, dir: &str, is_root: bool, deps: Vec<PackageId>) -> PackageMeta {
    PackageMeta { id: pid, src_dir: dir.as_bytes().to_vec(), is_root, deps }
}

fn rec(sym: &str, file: &str, pat: &str) -> Record {
    Record {
        symbol: sym.as_bytes().to_vec(),
        file: file.as_bytes().to_vec(),
        pattern: pat.as_bytes().to_vec(),
    }
}

fn sec(path: &str, content: &str) -> Section {
    Section { path: path.as_bytes().to_vec(), content: content.as_bytes().to_vec() }
}

fn flat(recs: Vec<Record>) -> IndexFile {
    IndexFile::SortedFlat(recs)
}

/// The example scenario: app depends on libfoo which depends on libbar;
/// the first run extracts everything, the second run extracts only the
/// root, and both merges hold all three packages' symbols.
#[test]
fn scenario_two_runs() {
    let meta = Metadata {
        packages: vec![
            pkg(id("app", "0.1", Origin::LocalPath(b"/w/app".to_vec())), "/w/app", true,
                vec![reg("libfoo", "1.0")]),
            pkg(reg("libfoo", "1.0"), "/r/libfoo", false, vec![reg("libbar", "2.0")]),
            pkg(reg("libbar", "2.0"), "/r/libbar", false, vec![]),
        ],
    };
    let root = id("app", "0.1", Origin::LocalPath(b"/w/app".to_vec()));
    let g = build_graph(&meta, &root).unwrap();
    assert_eq!(g.nodes.len(), 3);
    assert_eq!(g.root, 2);
    assert_eq!(g.nodes[2].id.name, b"app".to_vec());
    // bottom-up: libbar before libfoo before app
    assert_eq!(g.nodes[0].id.name, b"libbar".to_vec());
    assert_eq!(g.nodes[1].id.name, b"libfoo".to_vec());

    let mut cache = CacheStore::new();
    let plan1 = extraction_plan(&g, &cache, false);
    assert_eq!(plan1, vec![0, 1, 2]); // first run: everything is extracted

    // the extractor's (simulated) output per node, cached for non-roots
    let out_bar = vec![rec("bar_sym", "b.rs", "/bar/")];
    let out_foo = vec![rec("foo_sym", "f.rs", "/foo/")];
    let out_app = vec![rec("app_sym", "a.rs", "/app/")];
    cache.store(cache_key(&g.nodes[0].id), flat(out_bar.clone()));
    cache.store(cache_key(&g.nodes[1].id), flat(out_foo.clone()));

    let files = vec![flat(out_bar.clone()), flat(out_foo.clone()), flat(out_app.clone())];
    let merged1 = merge_graph(&g, &files, IndexFormat::SortedFlat).unwrap();
    let recs1 = match &merged1 {
        IndexFile::SortedFlat(rs) => rs.clone(),
        _ => panic!("wrong format"),
    };
    assert_eq!(recs1.len(), 3);
    assert_eq!(recs1[0].symbol, b"app_sym".to_vec());
    assert_eq!(recs1[1].symbol, b"bar_sym".to_vec());
    assert_eq!(recs1[2].symbol, b"foo_sym".to_vec());

    // second run: only the root needs extraction
    let plan2 = extraction_plan(&g, &cache, false);
    assert_eq!(plan2, vec![2]);
    // force-recreate: everything again
    let plan3 = extraction_plan(&g, &cache, true);
    assert_eq!(plan3, vec![0, 1, 2]);

    // the merge re-run is byte-identical
    let files2 = vec![flat(out_bar), flat(out_foo), flat(out_app)];
    let merged2 = merge_graph(&g, &files2, IndexFormat::SortedFlat).unwrap();
    let recs2 = match &merged2 {
        IndexFile::SortedFlat(rs) => rs.clone(),
        _ => panic!("wrong format"),
    };
    assert_eq!(recs1.len(), recs2.len());
    for (a, b) in recs1.iter().zip(recs2.iter()) {
        assert_eq!(a.symbol, b.symbol);
        assert_eq!(a.file, b.file);
        assert_eq!(a.pattern, b.pattern);
    }
}

/// A diamond: both mid nodes depend on the same base, which appears once
/// in the graph and once in the merged output.
#[test]
fn diamond_dedup() {
    let meta = Metadata {
        packages: vec![
            pkg(id("top", "1", Origin::LocalPath(b"/w/top".to_vec())), "/w/top", true,
                vec![reg("left", "1"), reg("right", "1")]),
            pkg(reg("left", "1"), "/r/left", false, vec![reg("base", "1")]),
            pkg(reg("right", "1"), "/r/right", false, vec![reg("base", "1")]),
            pkg(reg("base", "1"), "/r/base", false, vec![]),
        ],
    };
    let root = id("top", "1", Origin::LocalPath(b"/w/top".to_vec()));
    let g = build_graph(&meta, &root).unwrap();
    assert_eq!(g.nodes.len(), 4); // base appears once, not once per path
    let base_count = g.nodes.iter().filter(|n| n.id.name == b"base".to_vec()).count();
    assert_eq!(base_count, 1);
    let cache = CacheStore::new();
    let plan = extraction_plan(&g, &cache, false);
    assert_eq!(plan.len(), 4); // each node extracted exactly once
    let shared = vec![rec("base_sym", "base.rs", "/b/")];
    let files = vec![
        flat(shared.clone()),
        flat(vec![rec("left_sym", "l.rs", "/l/")]),
        flat(vec![rec("right_sym", "r.rs", "/r/")]),
        flat(vec![rec("top_sym", "t.rs", "/t/")]),
    ];
    let merged = merge_graph(&g, &files, IndexFormat::SortedFlat).unwrap();
    let recs = match &merged {
        IndexFile::SortedFlat(rs) => rs.clone(),
        _ => panic!("wrong format"),
    };
    let n_base = recs.iter().filter(|r| r.symbol == b"base_sym".to_vec()).count();
    assert_eq!(n_base, 1);
}

/// A cycle yields `CyclicDependency` and no graph at all.
#[test]
fn cycle_is_fatal() {
    let meta = Metadata {
        packages: vec![
            pkg(id("a", "1", Origin::LocalPath(b"/w/a".to_vec())), "/w/a", true,
                vec![reg("b", "1")]),
            pkg(reg("b", "1"), "/r/b", false, vec![reg("c", "1")]),
            pkg(reg("c", "1"), "/r/c", false, vec![reg("b", "1")]),
        ],
    };
    let root = id("a", "1", Origin::LocalPath(b"/w/a".to_vec()));
    match build_graph(&meta, &root) {
        Err(TagsError::CyclicDependency(_)) => {},
        _ => panic!("expected a cycle error"),
    }
}

/// A local-path package is never served from cache, even on a key match.
#[test]
fn local_path_never_cached() {
    let meta = Metadata {
        packages: vec![
            pkg(id("root", "1", Origin::LocalPath(b"/w/root".to_vec())), "/w/root", true,
                vec![id("dep", "1", Origin::LocalPath(b"/w/dep".to_vec()))]),
            pkg(id("dep", "1", Origin::LocalPath(b"/w/dep".to_vec())), "/w/dep", false, vec![]),
        ],
    };
    let root = id("root", "1", Origin::LocalPath(b"/w/root".to_vec()));
    let g = build_graph(&meta, &root).unwrap();
    let mut cache = CacheStore::new();
    cache.store(cache_key(&g.nodes[0].id), flat(vec![rec("dep_sym", "d.rs", "/d/")]));
    let plan = extraction_plan(&g, &cache, false);
    assert_eq!(plan, vec![0, 1]); // the cached entry is ignored for a local path
}

/// Sorted-flat merge output is sorted by the case-normalized symbol and
/// holds no duplicate record.
#[test]
fn flat_merge_sorted_no_duplicates() {
    let meta = Metadata {
        packages: vec![
            pkg(id("r", "1", Origin::LocalPath(b"/w/r".to_vec())), "/w/r", true,
                vec![reg("d", "1")]),
            pkg(reg("d", "1"), "/r/d", false, vec![]),
        ],
    };
    let root = id("r", "1", Origin::LocalPath(b"/w/r".to_vec()));
    let g = build_graph(&meta, &root).unwrap();
    let shared = rec("Alpha", "a.rs", "/A/");
    let files = vec![
        flat(vec![rec("zeta", "z.rs", "/z/"), shared.clone(), rec("beta", "b.rs", "/b/")]),
        flat(vec![shared.clone(), rec("Gamma", "g.rs", "/G/")]),
    ];
    let merged = merge_graph(&g, &files, IndexFormat::SortedFlat).unwrap();
    let recs = match &merged {
        IndexFile::SortedFlat(rs) => rs.clone(),
        _ => panic!("wrong format"),
    };
    assert_eq!(recs.len(), 4); // the shared record was merged into one
    let syms: Vec<&[u8]> = recs.iter().map(|r| r.symbol.as_slice()).collect();
    assert_eq!(syms, vec![b"Alpha".as_slice(), b"beta", b"Gamma", b"zeta"]);
}

/// File-sectioned merge keeps only the root's section for a shared path.
#[test]
fn sectioned_merge_root_wins() {
    let meta = Metadata {
        packages: vec![
            pkg(id("r", "1", Origin::LocalPath(b"/w/r".to_vec())), "/w/r", true,
                vec![reg("d", "1")]),
            pkg(reg("d", "1"), "/r/d", false, vec![]),
        ],
    };
    let root = id("r", "1", Origin::LocalPath(b"/w/r".to_vec()));
    let g = build_graph(&meta, &root).unwrap();
    let files = vec![
        IndexFile::FileSectioned(vec![sec("a.rs", "dep version"), sec("d.rs", "dep only")]),
        IndexFile::FileSectioned(vec![sec("a.rs", "root version")]),
    ];
    let merged = merge_graph(&g, &files, IndexFormat::FileSectioned).unwrap();
    let secs = match &merged {
        IndexFile::FileSectioned(ss) => ss.clone(),
        _ => panic!("wrong format"),
    };
    assert_eq!(secs.len(), 2);
    let a: Vec<&Section> = secs.iter().filter(|s| s.path == b"a.rs".to_vec()).collect();
    assert_eq!(a.len(), 1);
    assert_eq!(a[0].content, b"root version".to_vec());
}

/// A malformed document (an unresolvable dependency) is rejected before
/// any graph is built.
#[test]
fn malformed_metadata_rejected() {
    let meta = Metadata {
        packages: vec![
            pkg(id("a", "1", Origin::LocalPath(b"/w/a".to_vec())), "/w/a", true,
                vec![reg("ghost-dep", "9")]),
        ],
    };
    let root = id("a", "1", Origin::LocalPath(b"/w/a".to_vec()));
    match build_graph(&meta, &root) {
        Err(TagsError::MalformedMetadata(_)) => {},
        _ => panic!("expected a malformed-metadata error"),
    }
}

/// The location decisions: home, tag directory, cache directory, cargo
/// directory with its fallbacks, and the standard-library plan.
#[test]
fn location_decisions() {
    assert!(matches!(home_dir(&None), Err(TagsError::MissingExpectedDirectory(_))));
    let home = home_dir(&Some(b"/home/dev".to_vec())).unwrap();
    assert_eq!(rusty_tags_dir(&home), b"/home/dev/.rusty-tags".to_vec());
    assert_eq!(rusty_tags_cache_dir(&home), b"/home/dev/.rusty-tags/cache".to_vec());

    let probe = OverrideProbe::Location { path: b"/tc/cargo".to_vec(), is_dir: true };
    assert_eq!(cargo_dir(&probe, &None, &home).unwrap(), b"/tc/cargo".to_vec());
    let probe = OverrideProbe::Location { path: b"/tc/cargo".to_vec(), is_dir: false };
    assert_eq!(cargo_dir(&probe, &Some(b"/ch".to_vec()), &home).unwrap(), b"/ch".to_vec());
    assert_eq!(cargo_dir(&OverrideProbe::Unavailable, &None, &home).unwrap(),
        b"/home/dev/.cargo".to_vec());
    assert!(matches!(
        cargo_dir(&OverrideProbe::NoLocation(b"junk".to_vec()), &None, &home),
        Err(TagsError::MissingExpectedDirectory(_))
    ));

    assert!(matches!(std_lib_plan(false, false, false, false), StdLibPlan::Skip));
    assert!(matches!(std_lib_plan(true, false, false, false), StdLibPlan::MissingSource));
    assert!(matches!(std_lib_plan(true, true, true, false), StdLibPlan::UpToDate));
    assert!(matches!(std_lib_plan(true, true, true, true), StdLibPlan::Rebuild));
    assert!(matches!(std_lib_plan(true, true, false, false), StdLibPlan::Rebuild));
}
