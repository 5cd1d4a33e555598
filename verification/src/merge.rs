//! The merge engine: combines the index files of a root package and all of
//! its transitively reachable dependencies into one output index.
//!
//! The sorted-flat strategy concatenates all contributed records, drops
//! exact duplicates, and orders the result by the format's sort key. The
//! file-sectioned strategy keeps one section per source-file path, a later
//! (higher-priority) contribution replacing an earlier one for the same
//! path. Both are deterministic: the output is a function of the
//! contributions alone.

use vstd::prelude::*;
use crate::index::Record;
use crate::index::RecordV;
use crate::index::Section;
use crate::index::SectionV;
use crate::index::recs_view;
use crate::index::secs_view;
use crate::index::rec_lt;
use crate::index::rec_lt_exec;
use crate::index::rec_eq;
use crate::index::rec_clone;
use crate::index::lemma_rec_lt_trichotomy;
use crate::index::section_clone;
use crate::bytes::bytes_eq;
use vstd::pervasive::VecAdditionalExecFns;

verus! {

/// A sequence of records is strictly sorted in the format's order (which
/// also means it holds no duplicate record).
pub open spec fn sorted_strict(s: Seq<RecordV>) -> bool {
    forall|i: int, j: int| 0 <= i < j < s.len() ==> rec_lt(s[i], s[j])
}

/// The values of a sequence of record tables.
pub open spec fn recss_view(s: Seq<Vec<Record>>) -> Seq<Seq<RecordV>> {
    s.map_values(|v: Vec<Record>| recs_view(v@))
}

/// Some contribution holds the record `x`.
pub open spec fn rec_in_contribs(cs: Seq<Seq<RecordV>>, x: RecordV) -> bool {
    exists|i: int| 0 <= i < cs.len() && cs[i].contains(x)
}

/// Finds the position before the first entry not below `rec`.
fn find_pos(out: &Vec<Record>, rec: &Record) -> (i: usize)
    ensures
        0 <= i <= out@.len(),
        forall|j: int| 0 <= j < i ==> rec_lt(recs_view(out@)[j], rec@),
        i < out@.len() ==> !rec_lt(recs_view(out@)[i as int], rec@),
{
    let mut i: usize = 0;
    while i < out.len()
        invariant
            0 <= i <= out@.len(),
            forall|j: int| 0 <= j < i ==> rec_lt(recs_view(out@)[j], rec@),
        decreases out@.len() - i,
    {
        if !rec_lt_exec(&out[i], rec) {
            return i;
        }
        i = i + 1;
    }
    i
}

/// Inserts a record into a strictly sorted table, keeping it sorted and
/// dropping the record if an identical one is already present.
fn insert_sorted(out: &mut Vec<Record>, rec: &Record)
    requires
        sorted_strict(recs_view(old(out)@)),
    ensures
        sorted_strict(recs_view(final(out)@)),
        forall|x: RecordV|
            recs_view(final(out)@).contains(x) <==> (recs_view(old(out)@).contains(x) || x
                == rec@),
{
    let ghost s = recs_view(out@);
    let i = find_pos(out, rec);
    if i < out.len() && rec_eq(&out[i], rec) {
        proof {
            assert(recs_view(out@)[i as int] == rec@);
            assert(recs_view(out@).contains(rec@));
        }
        return ;
    }
    proof {
        if i < out@.len() {
            lemma_rec_lt_trichotomy(s[i as int], rec@);
            assert(rec_lt(rec@, s[i as int]));
        }
    }
    out.insert(i, rec_clone(rec));
    proof {
        let t = recs_view(out@);
        assert(out@ == old(out)@.insert(i as int, out@[i as int]));
        assert(out@[i as int]@ == rec@);
        assert forall|k: int| 0 <= k < t.len() implies #[trigger] t[k] == s.insert(
            i as int,
            rec@,
        )[k] by {
            s.insert_ensures(i as int, rec@);
            if k < i {
                assert(out@[k] == old(out)@[k]);
            } else if k == i {
            } else {
                assert(out@[k] == old(out)@[k - 1]);
            }
        }
        assert(t =~= s.insert(i as int, rec@));
        s.insert_ensures(i as int, rec@);
        // sortedness
        assert forall|p: int, q: int| 0 <= p < q < t.len() implies rec_lt(t[p], t[q]) by {
            if q < i {
                assert(t[p] == s[p] && t[q] == s[q]);
            } else if p > i {
                assert(t[p] == s[p - 1] && t[q] == s[q - 1]);
            } else if p < i && q == i {
                assert(t[p] == s[p] && t[q] == rec@);
            } else if p == i && q > i {
                assert(t[p] == rec@ && t[q] == s[q - 1]);
                if i < s.len() {
                    if q - 1 == i {
                        assert(rec_lt(rec@, s[i as int]));
                    } else {
                        lemma_rec_lt_trichotomy(rec@, s[q - 1]);
                        assert(rec_lt(s[i as int], s[q - 1]));
                        crate::index::lemma_rec_lt_transitive(rec@, s[i as int], s[q - 1]);
                    }
                }
            } else if p < i && q > i {
                assert(t[p] == s[p] && t[q] == s[q - 1]);
                assert(p < q - 1);
            }
        }
        // membership
        assert forall|x: RecordV| t.contains(x) implies (s.contains(x) || x == rec@) by {
            let k = choose|k: int| 0 <= k < t.len() && t[k] == x;
            if k < i {
                assert(s[k] == x);
            } else if k > i {
                assert(s[k - 1] == x);
            }
        }
        assert forall|x: RecordV| s.contains(x) implies t.contains(x) by {
            let k = choose|k: int| 0 <= k < s.len() && s[k] == x;
            if k < i {
                assert(t[k] == x);
            } else {
                assert(t[k + 1] == x);
            }
        }
        assert(t.contains(rec@)) by {
            assert(t[i as int] == rec@);
        }
    }
}

/// Merges record tables into one strictly sorted table holding exactly the
/// records that occur in some contribution, each once.
pub fn merge_sorted_flat(contribs: &Vec<Vec<Record>>) -> (out: Vec<Record>)
    ensures
        sorted_strict(recs_view(out@)),
        forall|x: RecordV|
            recs_view(out@).contains(x) <==> rec_in_contribs(recss_view(contribs@), x),
{
    let ghost cs = recss_view(contribs@);
    let mut out: Vec<Record> = Vec::new();
    let mut ci: usize = 0;
    proof {
        assert(recs_view(out@) =~= Seq::<RecordV>::empty());
    }
    while ci < contribs.len()
        invariant
            0 <= ci <= contribs@.len(),
            cs == recss_view(contribs@),
            cs.len() == contribs@.len(),
            sorted_strict(recs_view(out@)),
            forall|x: RecordV|
                recs_view(out@).contains(x) <==> rec_in_contribs(cs.take(ci as int), x),
        decreases contribs@.len() - ci,
    {
        let tbl = &contribs[ci];
        let mut rj: usize = 0;
        while rj < tbl.len()
            invariant
                0 <= ci < contribs@.len(),
                0 <= rj <= tbl@.len(),
                tbl@ == contribs@[ci as int]@,
                cs == recss_view(contribs@),
                cs.len() == contribs@.len(),
                sorted_strict(recs_view(out@)),
                forall|x: RecordV|
                    recs_view(out@).contains(x) <==> (rec_in_contribs(cs.take(ci as int), x)
                        || recs_view(tbl@).take(rj as int).contains(x)),
            decreases tbl@.len() - rj,
        {
            insert_sorted(&mut out, &tbl[rj]);
            proof {
                let pre = recs_view(tbl@).take(rj as int);
                let post = recs_view(tbl@).take(rj as int + 1);
                assert(post =~= pre.push(recs_view(tbl@)[rj as int]));
                assert forall|x: RecordV| post.contains(x) implies (pre.contains(x) || x
                    == recs_view(tbl@)[rj as int]) by {
                    let k = choose|k: int| 0 <= k < post.len() && post[k] == x;
                    if k < rj {
                        assert(pre[k] == x);
                    }
                }
                assert forall|x: RecordV| pre.contains(x) implies post.contains(x) by {
                    let k = choose|k: int| 0 <= k < pre.len() && pre[k] == x;
                    assert(post[k] == x);
                }
                assert(post[rj as int] == recs_view(tbl@)[rj as int]);
                assert(post.contains(recs_view(tbl@)[rj as int]));
            }
            rj = rj + 1;
        }
        proof {
            assert(recs_view(tbl@).take(tbl@.len() as int) =~= recs_view(tbl@));
            let pre = cs.take(ci as int);
            let post = cs.take(ci as int + 1);
            assert(cs[ci as int] == recs_view(tbl@));
            assert forall|x: RecordV| rec_in_contribs(post, x) implies (rec_in_contribs(pre, x)
                || recs_view(tbl@).contains(x)) by {
                let k = choose|k: int| 0 <= k < post.len() && post[k].contains(x);
                if k < ci {
                    assert(pre[k].contains(x));
                } else {
                    assert(post[k] == cs[ci as int]);
                }
            }
            assert forall|x: RecordV| rec_in_contribs(pre, x) || recs_view(tbl@).contains(
                x,
            ) implies rec_in_contribs(post, x) by {
                if rec_in_contribs(pre, x) {
                    let k = choose|k: int| 0 <= k < pre.len() && pre[k].contains(x);
                    assert(post[k].contains(x));
                } else {
                    assert(post[ci as int].contains(x));
                }
            }
        }
        ci = ci + 1;
    }
    proof {
        assert(cs.take(contribs@.len() as int) =~= cs);
    }
    out
}

/// Merging is deterministic: any two strictly sorted tables holding the
/// same records are the same table, so re-running the merge over the same
/// contributions gives byte-identical output.
pub proof fn lemma_sorted_unique(s: Seq<RecordV>, t: Seq<RecordV>)
    requires
        sorted_strict(s),
        sorted_strict(t),
        forall|x: RecordV| s.contains(x) <==> t.contains(x),
    ensures
        s == t,
    decreases s.len(),
{
    if s.len() == 0 {
        if t.len() > 0 {
            assert(t.contains(t[0]));
            assert(s.contains(t[0]));
        }
        assert(s =~= t);
    } else {
        assert(s.contains(s[0]));
        assert(t.contains(s[0]));
        let j = choose|j: int| 0 <= j < t.len() && t[j] == s[0];
        assert(t.contains(t[0]));
        assert(s.contains(t[0]));
        let i = choose|i: int| 0 <= i < s.len() && s[i] == t[0];
        if j > 0 {
            assert(rec_lt(t[0], t[j]));
            if i > 0 {
                assert(rec_lt(s[0], s[i]));
                lemma_rec_lt_trichotomy(s[0], t[0]);
            } else {
                lemma_rec_lt_trichotomy(s[0], t[0]);
            }
        }
        assert(s[0] == t[0]);
        let s1 = s.drop_first();
        let t1 = t.drop_first();
        assert forall|x: RecordV| s1.contains(x) implies t1.contains(x) by {
            let k = choose|k: int| 0 <= k < s1.len() && s1[k] == x;
            assert(s[k + 1] == x);
            assert(s.contains(x));
            assert(t.contains(x));
            let m = choose|m: int| 0 <= m < t.len() && t[m] == x;
            assert(rec_lt(s[0], s[k + 1]));
            lemma_rec_lt_trichotomy(s[0], x);
            if m == 0 {
                assert(x == t[0]);
            }
            assert(m > 0);
            assert(t1[m - 1] == x);
        }
        assert forall|x: RecordV| t1.contains(x) implies s1.contains(x) by {
            let k = choose|k: int| 0 <= k < t1.len() && t1[k] == x;
            assert(t[k + 1] == x);
            assert(t.contains(x));
            assert(s.contains(x));
            let m = choose|m: int| 0 <= m < s.len() && s[m] == x;
            assert(rec_lt(t[0], t[k + 1]));
            lemma_rec_lt_trichotomy(t[0], x);
            if m == 0 {
                assert(x == s[0]);
            }
            assert(m > 0);
            assert(s1[m - 1] == x);
        }
        assert(sorted_strict(s1)) by {
            assert forall|p: int, q: int| 0 <= p < q < s1.len() implies rec_lt(s1[p], s1[q]) by {
                assert(s1[p] == s[p + 1] && s1[q] == s[q + 1]);
            }
        }
        assert(sorted_strict(t1)) by {
            assert forall|p: int, q: int| 0 <= p < q < t1.len() implies rec_lt(t1[p], t1[q]) by {
                assert(t1[p] == t[p + 1] && t1[q] == t[q + 1]);
            }
        }
        lemma_sorted_unique(s1, t1);
        assert(s =~= t) by {
            assert forall|k: int| 0 <= k < s.len() implies s[k] == t[k] by {
                if k > 0 {
                    assert(s1[k - 1] == t1[k - 1]);
                    assert(s[k] == s1[k - 1] && t[k] == t1[k - 1]);
                }
            }
        }
    }
}

/// No two sections of the sequence are for the same source-file path.
pub open spec fn sec_paths_distinct(s: Seq<SectionV>) -> bool {
    forall|i: int, j: int| 0 <= i < j < s.len() ==> s[i].path != s[j].path
}

/// The values of a sequence of section tables.
pub open spec fn secss_view(s: Seq<Vec<Section>>) -> Seq<Seq<SectionV>> {
    s.map_values(|v: Vec<Section>| secs_view(v@))
}

/// The first index whose section is for path `p`, or `-1` if there is none.
pub open spec fn find_path(s: Seq<SectionV>, p: Seq<u8>) -> int
    decreases s.len(),
{
    if s.len() == 0 {
        -1
    } else if s[0].path == p {
        0
    } else {
        let r = find_path(s.drop_first(), p);
        if r == -1 {
            -1
        } else {
            r + 1
        }
    }
}

/// What [`find_path`] returns: `-1` exactly when no section is for `p`,
/// otherwise the first index that is.
pub proof fn lemma_find_path(s: Seq<SectionV>, p: Seq<u8>)
    ensures
        find_path(s, p) == -1 ==> forall|j: int| 0 <= j < s.len() ==> s[j].path != p,
        find_path(s, p) != -1 ==> 0 <= find_path(s, p) < s.len() && s[find_path(s, p)].path == p
            && forall|j: int| 0 <= j < find_path(s, p) ==> s[j].path != p,
    decreases s.len(),
{
    if s.len() == 0 {
    } else if s[0].path == p {
    } else {
        let s1 = s.drop_first();
        lemma_find_path(s1, p);
        let r = find_path(s1, p);
        if r == -1 {
            assert forall|j: int| 0 <= j < s.len() implies s[j].path != p by {
                if j > 0 {
                    assert(s1[j - 1] == s[j]);
                }
            }
        } else {
            assert(s[r + 1] == s1[r]);
            assert forall|j: int| 0 <= j < r + 1 implies s[j].path != p by {
                if j > 0 {
                    assert(s1[j - 1] == s[j]);
                }
            }
        }
    }
}

/// The last index whose section is for path `p`, or `-1` if there is none.
pub open spec fn find_last(s: Seq<SectionV>, p: Seq<u8>) -> int
    decreases s.len(),
{
    if s.len() == 0 {
        -1
    } else {
        let r = find_last(s.drop_first(), p);
        if r != -1 {
            r + 1
        } else if s[0].path == p {
            0
        } else {
            -1
        }
    }
}

/// What [`find_last`] returns: `-1` exactly when no section is for `p`,
/// otherwise the last index that is.
pub proof fn lemma_find_last(s: Seq<SectionV>, p: Seq<u8>)
    ensures
        find_last(s, p) == -1 ==> forall|j: int| 0 <= j < s.len() ==> s[j].path != p,
        find_last(s, p) != -1 ==> 0 <= find_last(s, p) < s.len() && s[find_last(s, p)].path == p
            && forall|j: int| find_last(s, p) < j < s.len() ==> s[j].path != p,
    decreases s.len(),
{
    if s.len() == 0 {
    } else {
        let s1 = s.drop_first();
        lemma_find_last(s1, p);
        let r = find_last(s1, p);
        if r != -1 {
            assert(s[r + 1] == s1[r]);
            assert forall|j: int| r + 1 < j < s.len() implies s[j].path != p by {
                assert(s1[j - 1] == s[j]);
            }
        } else {
            assert forall|j: int| 0 < j < s.len() implies s[j].path != p by {
                assert(s1[j - 1] == s[j]);
            }
        }
    }
}

/// One step of the file-sectioned merge: a later contribution for a path
/// replaces the earlier section for that path in place; a new path is
/// appended.
pub open spec fn upsert(s: Seq<SectionV>, sec: SectionV) -> Seq<SectionV> {
    let i = find_path(s, sec.path);
    if i == -1 {
        s.push(sec)
    } else {
        s.update(i, sec)
    }
}

/// After an upsert the paths stay distinct, the new section is present,
/// it is the only section for its path, and every other path's section is
/// untouched.
pub proof fn lemma_upsert(s: Seq<SectionV>, sec: SectionV)
    requires
        sec_paths_distinct(s),
    ensures
        sec_paths_distinct(upsert(s, sec)),
        upsert(s, sec).contains(sec),
        forall|k: int|
            0 <= k < upsert(s, sec).len() && upsert(s, sec)[k].path == sec.path ==> upsert(s, sec)[k]
                == sec,
        forall|x: SectionV| upsert(s, sec).contains(x) && x.path != sec.path ==> s.contains(x),
        forall|x: SectionV| s.contains(x) && x.path != sec.path ==> upsert(s, sec).contains(x),
{
    lemma_find_path(s, sec.path);
    let i = find_path(s, sec.path);
    let t = upsert(s, sec);
    if i == -1 {
        assert(t == s.push(sec));
        assert(t[s.len() as int] == sec);
        assert(t.contains(sec));
        assert forall|x: SectionV| t.contains(x) && x.path != sec.path implies s.contains(x) by {
            let k = choose|k: int| 0 <= k < t.len() && t[k] == x;
            if k < s.len() {
                assert(s[k] == x);
            }
        }
        assert forall|x: SectionV| s.contains(x) && x.path != sec.path implies t.contains(x) by {
            let k = choose|k: int| 0 <= k < s.len() && s[k] == x;
            assert(t[k] == x);
        }
    } else {
        assert(t == s.update(i, sec));
        assert(t[i] == sec);
        assert(t.contains(sec));
        assert(s[i].path == sec.path);
        assert forall|p: int, q: int| 0 <= p < q < t.len() implies t[p].path != t[q].path by {
            if p != i && q != i {
                assert(t[p] == s[p] && t[q] == s[q]);
            } else if p == i {
                assert(t[q] == s[q]);
                assert(s[i].path != s[q].path);
            } else {
                assert(t[p] == s[p]);
                assert(s[p].path != s[i].path);
            }
        }
        assert forall|k: int| 0 <= k < t.len() && t[k].path == sec.path implies t[k] == sec by {
            if k != i {
                assert(t[k] == s[k]);
                assert(s[k].path != s[i].path);
            }
        }
        assert forall|x: SectionV| t.contains(x) && x.path != sec.path implies s.contains(x) by {
            let k = choose|k: int| 0 <= k < t.len() && t[k] == x;
            assert(k != i);
            assert(s[k] == x);
        }
        assert forall|x: SectionV| s.contains(x) && x.path != sec.path implies t.contains(x) by {
            let k = choose|k: int| 0 <= k < s.len() && s[k] == x;
            assert(k != i);
            assert(t[k] == x);
        }
    }
}

/// Folds one contribution's sections into the accumulated output, first
/// section first.
pub open spec fn merge_secs(acc: Seq<SectionV>, rest: Seq<SectionV>) -> Seq<SectionV>
    decreases rest.len(),
{
    if rest.len() == 0 {
        acc
    } else {
        merge_secs(upsert(acc, rest[0]), rest.drop_first())
    }
}

/// Unrolls [`merge_secs`] at its right end.
pub proof fn lemma_merge_secs_snoc(acc: Seq<SectionV>, rest: Seq<SectionV>, x: SectionV)
    ensures
        merge_secs(acc, rest.push(x)) == upsert(merge_secs(acc, rest), x),
    decreases rest.len(),
{
    let e = rest.push(x);
    if rest.len() == 0 {
        assert(e[0] == x);
        assert(e.drop_first() =~= Seq::<SectionV>::empty());
        assert(merge_secs(acc, e) == merge_secs(upsert(acc, x), e.drop_first()));
        assert(merge_secs(upsert(acc, x), Seq::<SectionV>::empty()) == upsert(acc, x));
        assert(merge_secs(acc, rest) == acc);
    } else {
        assert(e[0] == rest[0]);
        assert(e.drop_first() =~= rest.drop_first().push(x));
        assert(merge_secs(acc, e) == merge_secs(upsert(acc, rest[0]), e.drop_first()));
        lemma_merge_secs_snoc(upsert(acc, rest[0]), rest.drop_first(), x);
        assert(merge_secs(acc, rest) == merge_secs(upsert(acc, rest[0]), rest.drop_first()));
    }
}

/// Folding keeps paths distinct.
pub proof fn lemma_merge_secs_distinct(acc: Seq<SectionV>, rest: Seq<SectionV>)
    requires
        sec_paths_distinct(acc),
    ensures
        sec_paths_distinct(merge_secs(acc, rest)),
    decreases rest.len(),
{
    if rest.len() > 0 {
        lemma_upsert(acc, rest[0]);
        lemma_merge_secs_distinct(upsert(acc, rest[0]), rest.drop_first());
    }
}

/// A path that a contribution never mentions keeps exactly the sections the
/// accumulator already had for it.
pub proof fn lemma_merge_secs_absent(acc: Seq<SectionV>, rest: Seq<SectionV>, p: Seq<u8>)
    requires
        sec_paths_distinct(acc),
        forall|k: int| 0 <= k < rest.len() ==> rest[k].path != p,
    ensures
        forall|x: SectionV|
            x.path == p ==> (merge_secs(acc, rest).contains(x) <==> acc.contains(x)),
    decreases rest.len(),
{
    if rest.len() > 0 {
        lemma_upsert(acc, rest[0]);
        let acc1 = upsert(acc, rest[0]);
        let rest1 = rest.drop_first();
        assert(rest[0].path != p);
        assert forall|k: int| 0 <= k < rest1.len() implies rest1[k].path != p by {
            assert(rest1[k] == rest[k + 1]);
        }
        lemma_merge_secs_absent(acc1, rest1, p);
        assert forall|x: SectionV| x.path == p implies (merge_secs(acc, rest).contains(x)
            <==> acc.contains(x)) by {
            assert(merge_secs(acc, rest) == merge_secs(acc1, rest1));
            assert(merge_secs(acc1, rest1).contains(x) <==> acc1.contains(x));
            if acc1.contains(x) {
                assert(x.path != rest[0].path);
                assert(acc.contains(x));
            }
            if acc.contains(x) {
                assert(acc1.contains(x));
            }
        }
    }
}

/// The section kept for a path is the contribution's own last section for
/// it: later contributions take priority.
pub proof fn lemma_merge_secs_last_wins(acc: Seq<SectionV>, rest: Seq<SectionV>, p: Seq<u8>)
    requires
        sec_paths_distinct(acc),
        find_last(rest, p) != -1,
    ensures
        ({
            let j = find_last(rest, p);
            let m = merge_secs(acc, rest);
            m.contains(rest[j]) && forall|k: int|
                0 <= k < m.len() && m[k].path == p ==> m[k] == rest[j]
        }),
    decreases rest.len(),
{
    lemma_find_last(rest, p);
    let j = find_last(rest, p);
    assert(rest.len() > 0);
    lemma_upsert(acc, rest[0]);
    let acc1 = upsert(acc, rest[0]);
    let rest1 = rest.drop_first();
    let m = merge_secs(acc, rest);
    assert(m == merge_secs(acc1, rest1));
    if find_last(rest1, p) != -1 {
        lemma_merge_secs_last_wins(acc1, rest1, p);
        assert(j == find_last(rest1, p) + 1);
        assert(rest1[j - 1] == rest[j]);
    } else {
        lemma_find_last(rest1, p);
        assert(rest[0].path == p);
        assert(j == 0);
        lemma_merge_secs_absent(acc1, rest1, p);
        assert(acc1.contains(rest[0]));
        assert(m.contains(rest[0])) by {
            assert(m.contains(rest[0]) <==> acc1.contains(rest[0]));
        }
        assert forall|k: int| 0 <= k < m.len() && m[k].path == p implies m[k] == rest[0] by {
            assert(m.contains(m[k]));
            assert(acc1.contains(m[k]));
            let idx = choose|idx: int| 0 <= idx < acc1.len() && acc1[idx] == m[k];
            assert(acc1[idx].path == rest[0].path);
        }
    }
}

/// Folds a whole ordered sequence of contributions, first contribution
/// first, so that a later contribution takes priority for a shared path.
pub open spec fn merge_files_from(acc: Seq<SectionV>, cs: Seq<Seq<SectionV>>) -> Seq<SectionV>
    decreases cs.len(),
{
    if cs.len() == 0 {
        acc
    } else {
        merge_files_from(merge_secs(acc, cs[0]), cs.drop_first())
    }
}

/// The file-sectioned merge of an ordered sequence of contributions.
pub open spec fn merge_all_secs(cs: Seq<Seq<SectionV>>) -> Seq<SectionV> {
    merge_files_from(Seq::empty(), cs)
}

/// Unrolls [`merge_files_from`] at its right end.
pub proof fn lemma_merge_files_snoc(acc: Seq<SectionV>, cs: Seq<Seq<SectionV>>, ss: Seq<SectionV>)
    ensures
        merge_files_from(acc, cs.push(ss)) == merge_secs(merge_files_from(acc, cs), ss),
    decreases cs.len(),
{
    let e = cs.push(ss);
    if cs.len() == 0 {
        assert(e[0] == ss);
        assert(e.drop_first() =~= Seq::<Seq<SectionV>>::empty());
        assert(merge_files_from(acc, e) == merge_files_from(merge_secs(acc, ss), e.drop_first()));
        assert(merge_files_from(merge_secs(acc, ss), Seq::<Seq<SectionV>>::empty()) == merge_secs(
            acc,
            ss,
        ));
        assert(merge_files_from(acc, cs) == acc);
    } else {
        assert(e[0] == cs[0]);
        assert(e.drop_first() =~= cs.drop_first().push(ss));
        assert(merge_files_from(acc, e) == merge_files_from(merge_secs(acc, cs[0]), e.drop_first()));
        lemma_merge_files_snoc(merge_secs(acc, cs[0]), cs.drop_first(), ss);
        assert(merge_files_from(acc, cs) == merge_files_from(merge_secs(acc, cs[0]), cs.drop_first()));
    }
}

/// Replaces the section for `sec`'s path, or appends `sec` if its path is
/// new.
fn upsert_section(out: &mut Vec<Section>, sec: &Section)
    ensures
        secs_view(final(out)@) == upsert(secs_view(old(out)@), sec@),
{
    let ghost s = secs_view(out@);
    proof {
        lemma_find_path(s, sec@.path);
    }
    let mut i: usize = 0;
    while i < out.len()
        invariant
            0 <= i <= out@.len(),
            s == secs_view(out@),
            out@ == old(out)@,
            forall|j: int| 0 <= j < i ==> s[j].path != sec@.path,
        decreases out@.len() - i,
    {
        if bytes_eq(&out[i].path, &sec.path) {
            proof {
                lemma_find_path(s, sec@.path);
                assert(s[i as int].path == sec@.path);
                let r = find_path(s, sec@.path);
                if r == -1 {
                    assert(s[i as int].path != sec@.path);
                }
                if r < i as int {
                    assert(s[r].path != sec@.path);
                }
                if r > i as int {
                    assert(s[i as int].path != sec@.path);
                }
                assert(r == i as int);
            }
            out.set(i, section_clone(sec));
            proof {
                assert(secs_view(out@) =~= s.update(i as int, sec@));
            }
            return ;
        }
        i = i + 1;
    }
    proof {
        assert(find_path(s, sec@.path) != -1 ==> s[find_path(s, sec@.path)].path == sec@.path);
        assert(find_path(s, sec@.path) == -1);
    }
    out.push(section_clone(sec));
    proof {
        assert(secs_view(out@) =~= s.push(sec@));
    }
}

/// Merges section tables in priority order (lowest priority first, the
/// root's own table last): one section per path survives, a later table's
/// section replacing an earlier one for the same path.
pub fn merge_file_sectioned(contribs: &Vec<Vec<Section>>) -> (out: Vec<Section>)
    ensures
        secs_view(out@) == merge_all_secs(secss_view(contribs@)),
        sec_paths_distinct(secs_view(out@)),
{
    let ghost css = secss_view(contribs@);
    let mut out: Vec<Section> = Vec::new();
    let mut ci: usize = 0;
    proof {
        assert(secs_view(out@) =~= Seq::<SectionV>::empty());
        assert(css.take(0) =~= Seq::<Seq<SectionV>>::empty());
    }
    while ci < contribs.len()
        invariant
            0 <= ci <= contribs@.len(),
            css == secss_view(contribs@),
            css.len() == contribs@.len(),
            secs_view(out@) == merge_files_from(Seq::empty(), css.take(ci as int)),
        decreases contribs@.len() - ci,
    {
        let tbl = &contribs[ci];
        let ghost acc = merge_files_from(Seq::empty(), css.take(ci as int));
        let mut sj: usize = 0;
        proof {
            assert(secs_view(tbl@).take(0) =~= Seq::<SectionV>::empty());
        }
        while sj < tbl.len()
            invariant
                0 <= ci < contribs@.len(),
                0 <= sj <= tbl@.len(),
                tbl@ == contribs@[ci as int]@,
                css == secss_view(contribs@),
                acc == merge_files_from(Seq::empty(), css.take(ci as int)),
                secs_view(out@) == merge_secs(acc, secs_view(tbl@).take(sj as int)),
            decreases tbl@.len() - sj,
        {
            upsert_section(&mut out, &tbl[sj]);
            proof {
                let pre = secs_view(tbl@).take(sj as int);
                let post = secs_view(tbl@).take(sj as int + 1);
                assert(post =~= pre.push(secs_view(tbl@)[sj as int]));
                lemma_merge_secs_snoc(acc, pre, secs_view(tbl@)[sj as int]);
            }
            sj = sj + 1;
        }
        proof {
            assert(secs_view(tbl@).take(tbl@.len() as int) =~= secs_view(tbl@));
            assert(css.take(ci as int + 1) =~= css.take(ci as int).push(css[ci as int]));
            assert(css[ci as int] == secs_view(tbl@));
            lemma_merge_files_snoc(Seq::empty(), css.take(ci as int), secs_view(tbl@));
        }
        ci = ci + 1;
    }
    proof {
        assert(css.take(contribs@.len() as int) =~= css);
        lemma_merge_all_distinct(css);
    }
    out
}

/// The file-sectioned merge never leaves two sections for one path.
pub proof fn lemma_merge_all_distinct(cs: Seq<Seq<SectionV>>)
    ensures
        sec_paths_distinct(merge_all_secs(cs)),
{
    lemma_merge_files_from_distinct(Seq::empty(), cs);
}

/// Helper for [`lemma_merge_all_distinct`], generalized over the
/// accumulator.
pub proof fn lemma_merge_files_from_distinct(acc: Seq<SectionV>, cs: Seq<Seq<SectionV>>)
    requires
        sec_paths_distinct(acc),
    ensures
        sec_paths_distinct(merge_files_from(acc, cs)),
    decreases cs.len(),
{
    if cs.len() > 0 {
        lemma_merge_secs_distinct(acc, cs[0]);
        lemma_merge_files_from_distinct(merge_secs(acc, cs[0]), cs.drop_first());
    }
}

/// Law: when two file-sectioned contributions both carry a section for one
/// source-file path, the merged output keeps only the later (higher
/// priority) contribution's section for it — the root package's, since the
/// root is contributed last.
pub proof fn lemma_sectioned_priority(a: Seq<SectionV>, b: Seq<SectionV>, i: int, j: int)
    requires
        sec_paths_distinct(a),
        sec_paths_distinct(b),
        0 <= i < a.len(),
        0 <= j < b.len(),
        a[i].path == b[j].path,
    ensures
        ({
            let m = merge_all_secs(seq![a, b]);
            m.contains(b[j]) && forall|k: int|
                0 <= k < m.len() && m[k].path == b[j].path ==> m[k] == b[j]
        }),
{
    let p = b[j].path;
    let cs = seq![a, b];
    let acc1 = merge_secs(Seq::empty(), a);
    assert(cs[0] == a);
    assert(cs.drop_first() =~= seq![b]);
    assert(seq![b][0] == b);
    assert(seq![b].drop_first() =~= Seq::<Seq<SectionV>>::empty());
    assert(merge_files_from(Seq::<SectionV>::empty(), cs) == merge_files_from(
        acc1,
        cs.drop_first(),
    ));
    assert(merge_files_from(acc1, seq![b]) == merge_files_from(
        merge_secs(acc1, b),
        seq![b].drop_first(),
    ));
    assert(merge_files_from(merge_secs(acc1, b), Seq::<Seq<SectionV>>::empty()) == merge_secs(
        acc1,
        b,
    ));
    assert(merge_all_secs(cs) == merge_secs(acc1, b));
    assert(sec_paths_distinct(Seq::<SectionV>::empty()));
    lemma_merge_secs_distinct(Seq::empty(), a);
    lemma_find_last(b, p);
    if find_last(b, p) == -1 {
        assert(b[j].path != p);
        assert(false);
    }
    let r = find_last(b, p);
    if r != j {
        if r < j {
            assert(b[r].path != b[j].path);
        } else {
            assert(b[j].path != p);
        }
        assert(false);
    }
    lemma_merge_secs_last_wins(acc1, b, p);
}

/// Law: the file-sectioned merge is a function of the contributions alone,
/// so re-running it over the same contributions gives byte-identical
/// output.
pub proof fn lemma_sectioned_merge_deterministic(
    cs: Seq<Seq<SectionV>>,
    out1: Seq<SectionV>,
    out2: Seq<SectionV>,
)
    requires
        out1 == merge_all_secs(cs),
        out2 == merge_all_secs(cs),
    ensures
        out1 == out2,
{
}

/// Law: the sorted-flat merge is deterministic: any two strictly sorted
/// tables holding exactly the contributed records are the same table, so
/// re-running the merge over the same contributions gives byte-identical
/// output.
pub proof fn lemma_flat_merge_deterministic(
    cs: Seq<Seq<RecordV>>,
    out1: Seq<RecordV>,
    out2: Seq<RecordV>,
)
    requires
        sorted_strict(out1),
        sorted_strict(out2),
        forall|x: RecordV| out1.contains(x) <==> rec_in_contribs(cs, x),
        forall|x: RecordV| out2.contains(x) <==> rec_in_contribs(cs, x),
    ensures
        out1 == out2,
{
    lemma_sorted_unique(out1, out2);
}

} // verus!
