//! Filesystem locations as pure path computations: where the tag cache
//! lives under the home directory, where cargo's own directory is found
//! (an override-aware probe with environment and default fallbacks), and
//! the standard-library indexing decision. Reading the environment and
//! touching the disk stay with the caller; every decision is made here.

use vstd::prelude::*;
use crate::bytes::path_join;
use crate::bytes::clone_bytes;
use crate::error::TagsError;

verus! {

/// The bytes of `.rusty-tags`.
pub open spec fn rusty_tags_dir_name() -> Seq<u8> {
    seq![46u8, 114u8, 117u8, 115u8, 116u8, 121u8, 45u8, 116u8, 97u8, 103u8, 115u8]
}

/// The bytes of `cache`.
pub open spec fn cache_dir_name() -> Seq<u8> {
    seq![99u8, 97u8, 99u8, 104u8, 101u8]
}

/// The bytes of `.cargo`.
pub open spec fn cargo_dir_name() -> Seq<u8> {
    seq![46u8, 99u8, 97u8, 114u8, 103u8, 111u8]
}

/// The home directory, from the environment's answer: absent is an error.
pub fn home_dir(env_home: &Option<Vec<u8>>) -> (r: Result<Vec<u8>, TagsError>)
    ensures
        r matches Ok(p) ==> env_home@ matches Some(h) && p@ == h@,
        r is Err <==> env_home is None,
        r matches Err(e) ==> e is MissingExpectedDirectory,
{
    match env_home {
        Some(h) => Ok(clone_bytes(h)),
        None => Err(TagsError::MissingExpectedDirectory(Vec::new())),
    }
}

/// Where all of the tag cache's state lives: `.rusty-tags` under the home
/// directory. The caller creates the directory if it is absent.
pub fn rusty_tags_dir(home: &Vec<u8>) -> (r: Vec<u8>)
    ensures
        r@ == home@ + seq![47u8] + rusty_tags_dir_name(),
{
    let mut name: Vec<u8> = Vec::new();
    name.push(46);
    name.push(114);
    name.push(117);
    name.push(115);
    name.push(116);
    name.push(121);
    name.push(45);
    name.push(116);
    name.push(97);
    name.push(103);
    name.push(115);
    proof {
        assert(name@ =~= rusty_tags_dir_name());
    }
    path_join(home, &name)
}

/// Where cached tag files live: the `cache` directory under
/// [`rusty_tags_dir`]. The caller creates it if it is absent.
pub fn rusty_tags_cache_dir(home: &Vec<u8>) -> (r: Vec<u8>)
    ensures
        r@ == home@ + seq![47u8] + rusty_tags_dir_name() + seq![47u8] + cache_dir_name(),
{
    let base = rusty_tags_dir(home);
    let mut name: Vec<u8> = Vec::new();
    name.push(99);
    name.push(97);
    name.push(99);
    name.push(104);
    name.push(101);
    proof {
        assert(name@ =~= cache_dir_name());
    }
    path_join(&base, &name)
}

/// What the toolchain-manager override probe reported, with the one disk
/// check the decision needs already made by the caller.
pub enum OverrideProbe {
    /// The probe command could not be run at all.
    Unavailable,
    /// It ran, but its output named no toolchain location; the output is
    /// kept for the error report.
    NoLocation(Vec<u8>),
    /// It named a location; `path` is that location's `cargo` directory,
    /// and `is_dir` says whether that directory exists.
    Location { path: Vec<u8>, is_dir: bool },
}

/// The root directory of cargo, decided from the override probe with pure
/// fallbacks: a probed location with an existing `cargo` directory wins;
/// a probed location without one falls back (kept compatibility behavior)
/// to the `CARGO_HOME` environment value, or to `.cargo` under the home
/// directory; a probe that ran but named no location is an error.
pub fn cargo_dir(probe: &OverrideProbe, cargo_home: &Option<Vec<u8>>, home: &Vec<u8>) -> (r: Result<
    Vec<u8>,
    TagsError,
>)
    ensures
        probe matches OverrideProbe::Location { path, is_dir: true } ==> r matches Ok(p) && p@
            == path@,
        probe matches OverrideProbe::NoLocation(_) ==> r matches Err(e)
            && e is MissingExpectedDirectory,
        (probe is Unavailable || probe matches OverrideProbe::Location {
            path: _,
            is_dir: false,
        }) ==> (r matches Ok(p) && (cargo_home@ matches Some(ch) ==> p@ == ch@) && (
        cargo_home is None ==> p@ == home@ + seq![47u8] + cargo_dir_name())),
{
    match probe {
        OverrideProbe::Location { path, is_dir } => {
            if *is_dir {
                return Ok(clone_bytes(path));
            }
            cargo_dir_fallback(cargo_home, home)
        },
        OverrideProbe::NoLocation(out) => {
            Err(TagsError::MissingExpectedDirectory(clone_bytes(out)))
        },
        OverrideProbe::Unavailable => cargo_dir_fallback(cargo_home, home),
    }
}

/// The fallback chain for cargo's directory: `CARGO_HOME` if set, else
/// `.cargo` under the home directory.
fn cargo_dir_fallback(cargo_home: &Option<Vec<u8>>, home: &Vec<u8>) -> (r: Result<
    Vec<u8>,
    TagsError,
>)
    ensures
        r matches Ok(p) && (cargo_home@ matches Some(ch) ==> p@ == ch@) && (cargo_home is None
            ==> p@ == home@ + seq![47u8] + cargo_dir_name()),
{
    match cargo_home {
        Some(ch) => Ok(clone_bytes(ch)),
        None => {
            let mut name: Vec<u8> = Vec::new();
            name.push(46);
            name.push(99);
            name.push(97);
            name.push(114);
            name.push(103);
            name.push(111);
            proof {
                assert(name@ =~= cargo_dir_name());
            }
            Ok(path_join(home, &name))
        },
    }
}

/// What the standard-library indexing step should do.
pub enum StdLibPlan {
    /// The source-tree variable is unset: the step is skipped, no error.
    Skip,
    /// The variable names a path that is not a directory: a hard error.
    MissingSource,
    /// A cached index is already present and no force-recreate directive
    /// was given: nothing to do.
    UpToDate,
    /// The index must be (re)built.
    Rebuild,
}

/// Decides the standard-library indexing step from plain facts: whether
/// the source-tree variable is set, whether the named path is a directory,
/// whether its index file already exists, and the force-recreate
/// directive.
pub fn std_lib_plan(
    src_path_set: bool,
    src_path_is_dir: bool,
    tags_file_present: bool,
    force_recreate: bool,
) -> (r: StdLibPlan)
    ensures
        !src_path_set ==> r is Skip,
        src_path_set && !src_path_is_dir ==> r is MissingSource,
        src_path_set && src_path_is_dir && tags_file_present && !force_recreate ==> r is UpToDate,
        src_path_set && src_path_is_dir && (!tags_file_present || force_recreate)
            ==> r is Rebuild,
{
    if !src_path_set {
        StdLibPlan::Skip
    } else if !src_path_is_dir {
        StdLibPlan::MissingSource
    } else if tags_file_present && !force_recreate {
        StdLibPlan::UpToDate
    } else {
        StdLibPlan::Rebuild
    }
}

/// The values of a list of byte vectors.
pub open spec fn paths_view(s: Seq<Vec<u8>>) -> Seq<Seq<u8>> {
    s.map_values(|v: Vec<u8>| v@)
}

/// The flagged names, each joined under the source tree, in order.
pub open spec fn selected_dirs(src: Seq<u8>, names: Seq<Seq<u8>>, flags: Seq<bool>) -> Seq<Seq<u8>>
    decreases names.len(),
{
    if names.len() == 0 || flags.len() != names.len() {
        Seq::empty()
    } else {
        let pre = selected_dirs(src, names.drop_last(), flags.drop_last());
        if flags[names.len() - 1] {
            pre.push(src + seq![47u8] + names.last())
        } else {
            pre
        }
    }
}

/// Picks, of the candidate standard-library subdirectories, those the
/// caller found on disk, each joined under the source tree: one entry of
/// `exists_flags` per entry of `names`.
pub fn select_src_dirs(src_path: &Vec<u8>, names: &Vec<Vec<u8>>, exists_flags: &Vec<bool>) -> (r:
    Vec<Vec<u8>>)
    requires
        names@.len() == exists_flags@.len(),
    ensures
        paths_view(r@) == selected_dirs(src_path@, paths_view(names@), exists_flags@),
{
    let ghost nv = paths_view(names@);
    let mut r: Vec<Vec<u8>> = Vec::new();
    proof {
        assert(nv.take(0) =~= Seq::<Seq<u8>>::empty());
        assert(paths_view(r@) =~= Seq::<Seq<u8>>::empty());
    }
    let mut i: usize = 0;
    while i < names.len()
        invariant
            0 <= i <= names@.len(),
            names@.len() == exists_flags@.len(),
            nv == paths_view(names@),
            nv.len() == names@.len(),
            paths_view(r@) == selected_dirs(src_path@, nv.take(i as int), exists_flags@.take(
                i as int,
            )),
        decreases names@.len() - i,
    {
        let ghost old_view = paths_view(r@);
        if exists_flags[i] {
            r.push(path_join(src_path, &names[i]));
            proof {
                assert(paths_view(r@) =~= old_view.push(src_path@ + seq![47u8] + nv[i as int]));
            }
        }
        proof {
            let pre_n = nv.take(i as int);
            let post_n = nv.take(i as int + 1);
            let pre_f = exists_flags@.take(i as int);
            let post_f = exists_flags@.take(i as int + 1);
            assert(post_n.drop_last() =~= pre_n);
            assert(post_f.drop_last() =~= pre_f);
            assert(post_n.last() == nv[i as int]);
            assert(post_f[post_n.len() - 1] == exists_flags@[i as int]);
            assert(selected_dirs(src_path@, post_n, post_f) == if exists_flags@[i as int] {
                selected_dirs(src_path@, pre_n, pre_f).push(src_path@ + seq![47u8] + nv[i as int])
            } else {
                selected_dirs(src_path@, pre_n, pre_f)
            });
        }
        i = i + 1;
    }
    proof {
        assert(nv.take(names@.len() as int) =~= nv);
        assert(exists_flags@.take(names@.len() as int) =~= exists_flags@);
    }
    r
}

} // verus!
