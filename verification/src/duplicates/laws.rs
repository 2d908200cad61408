//! Properties of the duplicate-detection engine.
//!
//! The statements here pin the grouping down: files land in one group
//! exactly when their contents are byte-identical, every emitted group has
//! at least two members, no path appears twice, and the family of groups,
//! taken as a set of path sets, does not depend on the order in which the
//! candidates were fed in.

use vstd::prelude::*;

use crate::duplicates::content::FileModel;
use crate::duplicates::grouping::bucket_groups;
use crate::duplicates::grouping::candidate_matches;
use crate::duplicates::grouping::is_complete;
use crate::duplicates::grouping::is_opened;
use crate::duplicates::grouping::matched_of;
use crate::duplicates::grouping::opened_of;
use crate::duplicates::grouping::pass_group;
use crate::duplicates::grouping::pass_rest;
use crate::duplicates::grouping::paths_of;
use crate::duplicates::grouping::unmatched_of;
use crate::duplicates::content::lemma_match_iff_bytes_eq;

verus! {

/// No two candidates carry the same path.
pub open spec fn distinct_paths(cands: Seq<FileModel>) -> bool {
    forall|i: int, j: int|
        0 <= i < j < cands.len() ==> (#[trigger] cands[i]).path != (#[trigger] cands[j]).path
}

/// Some group of `gs` holds the path `x`.
pub open spec fn in_some_group(gs: Seq<Seq<Seq<char>>>, x: Seq<char>) -> bool {
    exists|i: int| 0 <= i < gs.len() && (#[trigger] gs[i]).contains(x)
}

/// One group of `gs` holds both `x` and `y`.
pub open spec fn in_same_group(gs: Seq<Seq<Seq<char>>>, x: Seq<char>, y: Seq<char>) -> bool {
    exists|i: int| 0 <= i < gs.len() && (#[trigger] gs[i]).contains(x) && gs[i].contains(y)
}

/// The candidate `f` is the file at path `x`, read completely, with content `b`.
pub open spec fn completed(f: FileModel, x: Seq<char>, b: Seq<u8>) -> bool {
    f.path == x && is_complete(f) && f.source.unwrap().bytes == b
}

/// Among the candidates there is a fully readable file at path `x` whose
/// content is `b`.
pub open spec fn holds_file(cands: Seq<FileModel>, x: Seq<char>, b: Seq<u8>) -> bool {
    exists|f: FileModel| #[trigger] cands.contains(f) && completed(f, x, b)
}

/// The candidates hold fully readable files at `x` and at `y` with the same
/// content.
pub open spec fn dup_pair(cands: Seq<FileModel>, x: Seq<char>, y: Seq<char>) -> bool {
    exists|b: Seq<u8>| #[trigger] holds_file(cands, x, b) && holds_file(cands, y, b)
}

/// The path `x` belongs to a fully readable candidate whose content equals
/// that of another candidate.
pub open spec fn duplicated(cands: Seq<FileModel>, x: Seq<char>) -> bool {
    exists|y: Seq<char>| #![auto] y != x && dup_pair(cands, x, y)
}

/// Matching the pivot means: both files were read completely and hold the
/// same bytes.
pub proof fn lemma_matches_iff_same_bytes(p: FileModel, c: FileModel)
    ensures
        candidate_matches(p, c) <==> (is_complete(p) && is_complete(c) && p.source.unwrap().bytes
            == c.source.unwrap().bytes),
{
    if is_opened(p) && is_opened(c) {
        lemma_match_iff_bytes_eq(p.source.unwrap(), c.source.unwrap());
    }
}

/// A sequence holds an element exactly when its front holds it or it is the
/// last element.
proof fn lemma_contains_split(s: Seq<FileModel>, f: FileModel)
    requires
        s.len() > 0,
    ensures
        s.contains(f) <==> (s.drop_last().contains(f) || s.last() == f),
{
    if s.contains(f) {
        let i = choose|i: int| 0 <= i < s.len() && s[i] == f;
        if i < s.len() - 1 {
            assert(s.drop_last()[i] == f);
        }
    }
    if s.drop_last().contains(f) {
        let i = choose|i: int| 0 <= i < s.drop_last().len() && s.drop_last()[i] == f;
        assert(s[i] == f);
    }
    if s.last() == f {
        assert(s[s.len() - 1] == f);
    }
}

/// Membership in the opened filter.
pub proof fn lemma_opened_contains(s: Seq<FileModel>, f: FileModel)
    ensures
        opened_of(s).contains(f) <==> (s.contains(f) && is_opened(f)),
    decreases s.len(),
{
    reveal(Seq::filter);
    if s.len() == 0 {
        assert(!s.contains(f));
    } else {
        let dl = s.drop_last();
        lemma_opened_contains(dl, f);
        lemma_contains_split(s, f);
        if is_opened(s.last()) {
            assert(opened_of(s) == opened_of(dl).push(s.last()));
            lemma_contains_split(opened_of(s), f);
            assert(opened_of(s).drop_last() =~= opened_of(dl));
        } else {
            assert(opened_of(s) == opened_of(dl));
        }
    }
}

/// Membership in the matched filter.
pub proof fn lemma_matched_contains(p: FileModel, s: Seq<FileModel>, f: FileModel)
    ensures
        matched_of(p, s).contains(f) <==> (s.contains(f) && candidate_matches(p, f)),
    decreases s.len(),
{
    reveal(Seq::filter);
    if s.len() == 0 {
        assert(!s.contains(f));
    } else {
        let dl = s.drop_last();
        lemma_matched_contains(p, dl, f);
        lemma_contains_split(s, f);
        if candidate_matches(p, s.last()) {
            assert(matched_of(p, s) == matched_of(p, dl).push(s.last()));
            lemma_contains_split(matched_of(p, s), f);
            assert(matched_of(p, s).drop_last() =~= matched_of(p, dl));
        } else {
            assert(matched_of(p, s) == matched_of(p, dl));
        }
    }
}

/// Membership in the unmatched filter.
pub proof fn lemma_unmatched_contains(p: FileModel, s: Seq<FileModel>, f: FileModel)
    ensures
        unmatched_of(p, s).contains(f) <==> (s.contains(f) && !candidate_matches(p, f)),
    decreases s.len(),
{
    reveal(Seq::filter);
    if s.len() == 0 {
        assert(!s.contains(f));
    } else {
        let dl = s.drop_last();
        lemma_unmatched_contains(p, dl, f);
        lemma_contains_split(s, f);
        if !candidate_matches(p, s.last()) {
            assert(unmatched_of(p, s) == unmatched_of(p, dl).push(s.last()));
            lemma_contains_split(unmatched_of(p, s), f);
            assert(unmatched_of(p, s).drop_last() =~= unmatched_of(p, dl));
        } else {
            assert(unmatched_of(p, s) == unmatched_of(p, dl));
        }
    }
}

/// Distinct paths survive dropping the last element.
proof fn lemma_distinct_drop_last(s: Seq<FileModel>)
    requires
        s.len() > 0,
        distinct_paths(s),
    ensures
        distinct_paths(s.drop_last()),
{
    assert forall|i: int, j: int|
        0 <= i < j < s.drop_last().len() implies (#[trigger] s.drop_last()[i]).path
        != (#[trigger] s.drop_last()[j]).path by {
        assert(s.drop_last()[i] == s[i]);
        assert(s.drop_last()[j] == s[j]);
    }
}

/// Distinct paths survive the opened filter.
pub proof fn lemma_opened_distinct(s: Seq<FileModel>)
    requires
        distinct_paths(s),
    ensures
        distinct_paths(opened_of(s)),
    decreases s.len(),
{
    reveal(Seq::filter);
    if s.len() > 0 {
        let dl = s.drop_last();
        lemma_distinct_drop_last(s);
        lemma_opened_distinct(dl);
        if is_opened(s.last()) {
            let o = opened_of(dl).push(s.last());
            assert(opened_of(s) == o);
            assert forall|i: int, j: int|
                0 <= i < j < o.len() implies (#[trigger] o[i]).path != (#[trigger] o[j]).path by {
                if j == o.len() - 1 {
                    assert(o[i] == opened_of(dl)[i]);
                    assert(opened_of(dl).contains(opened_of(dl)[i]));
                    lemma_opened_contains(dl, opened_of(dl)[i]);
                    let k = choose|k: int| 0 <= k < dl.len() && dl[k] == opened_of(dl)[i];
                    assert(s[k] == dl[k]);
                    assert(s[k].path != s[s.len() - 1].path);
                } else {
                    assert(o[i] == opened_of(dl)[i]);
                    assert(o[j] == opened_of(dl)[j]);
                }
            }
        }
    }
}

/// Distinct paths survive the unmatched filter.
pub proof fn lemma_unmatched_distinct(p: FileModel, s: Seq<FileModel>)
    requires
        distinct_paths(s),
    ensures
        distinct_paths(unmatched_of(p, s)),
    decreases s.len(),
{
    reveal(Seq::filter);
    if s.len() > 0 {
        let dl = s.drop_last();
        lemma_distinct_drop_last(s);
        lemma_unmatched_distinct(p, dl);
        if !candidate_matches(p, s.last()) {
            let o = unmatched_of(p, dl).push(s.last());
            assert(unmatched_of(p, s) == o);
            assert forall|i: int, j: int|
                0 <= i < j < o.len() implies (#[trigger] o[i]).path != (#[trigger] o[j]).path by {
                if j == o.len() - 1 {
                    assert(o[i] == unmatched_of(p, dl)[i]);
                    assert(unmatched_of(p, dl).contains(unmatched_of(p, dl)[i]));
                    lemma_unmatched_contains(p, dl, unmatched_of(p, dl)[i]);
                    let k = choose|k: int| 0 <= k < dl.len() && dl[k] == unmatched_of(p, dl)[i];
                    assert(s[k] == dl[k]);
                    assert(s[k].path != s[s.len() - 1].path);
                } else {
                    assert(o[i] == unmatched_of(p, dl)[i]);
                    assert(o[j] == unmatched_of(p, dl)[j]);
                }
            }
        }
    }
}

/// Distinct paths survive the matched filter.
pub proof fn lemma_matched_distinct(p: FileModel, s: Seq<FileModel>)
    requires
        distinct_paths(s),
    ensures
        distinct_paths(matched_of(p, s)),
    decreases s.len(),
{
    reveal(Seq::filter);
    if s.len() > 0 {
        let dl = s.drop_last();
        lemma_distinct_drop_last(s);
        lemma_matched_distinct(p, dl);
        if candidate_matches(p, s.last()) {
            let o = matched_of(p, dl).push(s.last());
            assert(matched_of(p, s) == o);
            assert forall|i: int, j: int|
                0 <= i < j < o.len() implies (#[trigger] o[i]).path != (#[trigger] o[j]).path by {
                if j == o.len() - 1 {
                    assert(o[i] == matched_of(p, dl)[i]);
                    assert(matched_of(p, dl).contains(matched_of(p, dl)[i]));
                    lemma_matched_contains(p, dl, matched_of(p, dl)[i]);
                    let k = choose|k: int| 0 <= k < dl.len() && dl[k] == matched_of(p, dl)[i];
                    assert(s[k] == dl[k]);
                    assert(s[k].path != s[s.len() - 1].path);
                } else {
                    assert(o[i] == matched_of(p, dl)[i]);
                    assert(o[j] == matched_of(p, dl)[j]);
                }
            }
        }
    }
}

/// What one pivot pass yields, for candidates with distinct paths of which
/// at least one could be opened: the group starts with the pivot's path and
/// holds exactly the paths of the candidates matching the pivot; the
/// leftover candidates are exactly the opened non-matching ones; when the
/// group has two or more members, all of them are fully readable files with
/// the pivot's content.
pub proof fn lemma_pass(cands: Seq<FileModel>)
    requires
        distinct_paths(cands),
        opened_of(cands).len() >= 1,
    ensures
        ({
            let pivot = opened_of(cands)[0];
            let grp = pass_group(cands);
            let um = pass_rest(cands);
            &&& grp.len() >= 1
            &&& grp[0] == pivot.path
            &&& cands.contains(pivot) && is_opened(pivot)
            &&& distinct_paths(um)
            &&& forall|i: int, j: int| 0 <= i < j < grp.len() ==> grp[i] != grp[j]
            &&& forall|x: Seq<char>|
                #[trigger] grp.contains(x) <==> (x == pivot.path || exists|f: FileModel|
                    #[trigger] cands.contains(f) && f.path == x && f.path != pivot.path
                        && candidate_matches(pivot, f))
            &&& forall|f: FileModel|
                #[trigger] um.contains(f) <==> (cands.contains(f) && is_opened(f) && f != pivot
                    && !candidate_matches(pivot, f))
            &&& (grp.len() >= 2 ==> is_complete(pivot))
            &&& (grp.len() >= 2 ==> forall|x: Seq<char>|
                #[trigger] grp.contains(x) ==> holds_file(
                    cands,
                    x,
                    pivot.source.unwrap().bytes,
                ))
        }),
{
    let opened = opened_of(cands);
    let pivot = opened[0];
    let rest_all = opened.skip(1);
    let matched = matched_of(pivot, rest_all);
    let um = unmatched_of(pivot, rest_all);
    let grp = pass_group(cands);
    lemma_opened_distinct(cands);
    assert(distinct_paths(rest_all)) by {
        assert forall|i: int, j: int|
            0 <= i < j < rest_all.len() implies (#[trigger] rest_all[i]).path
            != (#[trigger] rest_all[j]).path by {
            assert(rest_all[i] == opened[i + 1]);
            assert(rest_all[j] == opened[j + 1]);
        }
    }
    lemma_unmatched_distinct(pivot, rest_all);
    lemma_matched_distinct(pivot, rest_all);
    assert(opened.contains(pivot));
    lemma_opened_contains(cands, pivot);
    // Every element of `rest_all` is an opened candidate other than the
    // pivot, and the other way round.
    assert forall|f: FileModel|
        #[trigger] rest_all.contains(f) <==> (opened.contains(f) && f != pivot) by {
        if rest_all.contains(f) {
            let i = choose|i: int| 0 <= i < rest_all.len() && rest_all[i] == f;
            assert(opened[i + 1] == f);
            assert(opened.contains(f));
            assert(opened[0].path != opened[i + 1].path);
        }
        if opened.contains(f) && f != pivot {
            let k = choose|k: int| 0 <= k < opened.len() && opened[k] == f;
            assert(k != 0);
            assert(rest_all[k - 1] == f);
            assert(rest_all.contains(f));
        }
    }
    // An element of `opened` other than the pivot carries another path.
    assert forall|f: FileModel|
        opened.contains(f) && f != pivot implies (#[trigger] f.path) != pivot.path by {
        let k = choose|k: int| 0 <= k < opened.len() && opened[k] == f;
        assert(k != 0);
        assert(opened[0].path != opened[k].path);
    }
    assert(grp == seq![pivot.path] + paths_of(matched));
    assert(grp[0] == pivot.path);
    // Group membership.
    assert forall|x: Seq<char>|
        #[trigger] grp.contains(x) <==> (x == pivot.path || exists|f: FileModel|
            #[trigger] cands.contains(f) && f.path == x && f.path != pivot.path
                && candidate_matches(pivot, f)) by {
        if grp.contains(x) {
            let i = choose|i: int| 0 <= i < grp.len() && grp[i] == x;
            if i > 0 {
                let f = matched[i - 1];
                assert(grp[i] == paths_of(matched)[i - 1]);
                assert(f.path == x);
                assert(matched.contains(f));
                lemma_matched_contains(pivot, rest_all, f);
                assert(rest_all.contains(f));
                lemma_opened_contains(cands, f);
                assert(cands.contains(f));
            }
        }
        if x == pivot.path {
            assert(grp[0] == x);
            assert(grp.contains(x));
        } else if exists|f: FileModel|
            #[trigger] cands.contains(f) && f.path == x && f.path != pivot.path
                && candidate_matches(pivot, f) {
            let f = choose|f: FileModel|
                #[trigger] cands.contains(f) && f.path == x && f.path != pivot.path
                    && candidate_matches(pivot, f);
            lemma_opened_contains(cands, f);
            assert(opened.contains(f));
            assert(f != pivot);
            assert(rest_all.contains(f));
            lemma_matched_contains(pivot, rest_all, f);
            assert(matched.contains(f));
            let m = choose|m: int| 0 <= m < matched.len() && matched[m] == f;
            assert(grp[1 + m] == paths_of(matched)[m]);
            assert(grp[1 + m] == x);
            assert(grp.contains(x));
        }
    }
    // Group paths are pairwise distinct.
    assert forall|i: int, j: int| 0 <= i < j < grp.len() implies grp[i] != grp[j] by {
        if i == 0 {
            let f = matched[j - 1];
            assert(grp[j] == paths_of(matched)[j - 1]);
            assert(matched.contains(f));
            lemma_matched_contains(pivot, rest_all, f);
            assert(rest_all.contains(f));
            assert(f != pivot);
            assert(f.path != pivot.path);
        } else {
            assert(grp[i] == paths_of(matched)[i - 1]);
            assert(grp[j] == paths_of(matched)[j - 1]);
            assert(matched[i - 1].path != matched[j - 1].path);
        }
    }
    // Leftover membership.
    assert forall|f: FileModel|
        #[trigger] um.contains(f) <==> (cands.contains(f) && is_opened(f) && f != pivot
            && !candidate_matches(pivot, f)) by {
        lemma_unmatched_contains(pivot, rest_all, f);
        if um.contains(f) {
            lemma_opened_contains(cands, f);
        }
        if cands.contains(f) && is_opened(f) && f != pivot && !candidate_matches(pivot, f) {
            lemma_opened_contains(cands, f);
            assert(opened.contains(f));
            assert(rest_all.contains(f));
        }
    }
    // A group with two or more members certifies the pivot's content.
    if grp.len() >= 2 {
        let m0 = matched[0];
        assert(matched.contains(m0));
        lemma_matched_contains(pivot, rest_all, m0);
        lemma_matches_iff_same_bytes(pivot, m0);
        assert(is_complete(pivot));
        assert forall|x: Seq<char>| #[trigger] grp.contains(x) implies holds_file(
            cands,
            x,
            pivot.source.unwrap().bytes,
        ) by {
            if x == pivot.path {
                assert(cands.contains(pivot) && completed(
                    pivot,
                    x,
                    pivot.source.unwrap().bytes,
                ));
            } else {
                let f = choose|f: FileModel|
                    #[trigger] cands.contains(f) && f.path == x && f.path != pivot.path
                        && candidate_matches(pivot, f);
                lemma_matches_iff_same_bytes(pivot, f);
                assert(cands.contains(f) && completed(f, x, pivot.source.unwrap().bytes));
            }
        }
    }
}

/// Two candidates with one path are one candidate.
proof fn lemma_same_path_same(cands: Seq<FileModel>, f: FileModel, g: FileModel)
    requires
        distinct_paths(cands),
        cands.contains(f),
        cands.contains(g),
        f.path == g.path,
    ensures
        f == g,
{
    let i = choose|i: int| 0 <= i < cands.len() && cands[i] == f;
    let j = choose|j: int| 0 <= j < cands.len() && cands[j] == g;
    if i < j {
        assert(cands[i].path != cands[j].path);
    }
    if j < i {
        assert(cands[j].path != cands[i].path);
    }
}

/// Being in some group of a list with one group prepended.
proof fn lemma_in_some_group_cons(g: Seq<Seq<char>>, gs: Seq<Seq<Seq<char>>>, x: Seq<char>)
    ensures
        in_some_group(seq![g] + gs, x) <==> (g.contains(x) || in_some_group(gs, x)),
{
    let r = seq![g] + gs;
    assert(r[0] == g);
    if in_some_group(r, x) {
        let i = choose|i: int| 0 <= i < r.len() && (#[trigger] r[i]).contains(x);
        if i > 0 {
            assert(r[i] == gs[i - 1]);
            assert(0 <= i - 1 < gs.len() && gs[i - 1].contains(x));
        }
    }
    if g.contains(x) {
        assert(0 <= 0 < r.len() && r[0].contains(x));
    }
    if in_some_group(gs, x) {
        let i = choose|i: int| 0 <= i < gs.len() && (#[trigger] gs[i]).contains(x);
        assert(r[i + 1] == gs[i]);
        assert(0 <= i + 1 < r.len() && r[i + 1].contains(x));
    }
}

/// Sharing a group of a list with one group prepended.
proof fn lemma_in_same_group_cons(
    g: Seq<Seq<char>>,
    gs: Seq<Seq<Seq<char>>>,
    x: Seq<char>,
    y: Seq<char>,
)
    ensures
        in_same_group(seq![g] + gs, x, y) <==> ((g.contains(x) && g.contains(y))
            || in_same_group(gs, x, y)),
{
    let r = seq![g] + gs;
    assert(r[0] == g);
    if in_same_group(r, x, y) {
        let i = choose|i: int|
            0 <= i < r.len() && (#[trigger] r[i]).contains(x) && r[i].contains(y);
        if i > 0 {
            assert(r[i] == gs[i - 1]);
            assert(0 <= i - 1 < gs.len() && gs[i - 1].contains(x) && gs[i - 1].contains(y));
        }
    }
    if g.contains(x) && g.contains(y) {
        assert(0 <= 0 < r.len() && r[0].contains(x) && r[0].contains(y));
    }
    if in_same_group(gs, x, y) {
        let i = choose|i: int|
            0 <= i < gs.len() && (#[trigger] gs[i]).contains(x) && gs[i].contains(y);
        assert(r[i + 1] == gs[i]);
        assert(0 <= i + 1 < r.len() && r[i + 1].contains(x) && r[i + 1].contains(y));
    }
}

/// Every emitted group has at least two members.
pub proof fn lemma_groups_min_len(cands: Seq<FileModel>)
    ensures
        forall|i: int|
            0 <= i < bucket_groups(cands).len() ==> (#[trigger] bucket_groups(cands)[i]).len()
                >= 2,
    decreases cands.len(),
{
    if cands.len() < 2 {
    } else {
        crate::duplicates::grouping::lemma_pass_rest_smaller(cands);
        lemma_groups_min_len(pass_rest(cands));
        let grp = pass_group(cands);
        let rest = bucket_groups(pass_rest(cands));
        if grp.len() >= 2 {
            let r = seq![grp] + rest;
            assert(bucket_groups(cands) == r);
            assert forall|i: int| 0 <= i < r.len() implies (#[trigger] r[i]).len() >= 2 by {
                if i == 0 {
                    assert(r[0] == grp);
                } else {
                    assert(r[i] == rest[i - 1]);
                }
            }
        }
    }
}

/// Every path in a group belongs to a fully readable candidate.
pub proof fn lemma_groups_members(cands: Seq<FileModel>)
    requires
        distinct_paths(cands),
    ensures
        forall|x: Seq<char>|
            #[trigger] in_some_group(bucket_groups(cands), x) ==> exists|b: Seq<u8>|
                #[trigger] holds_file(cands, x, b),
    decreases cands.len(),
{
    if cands.len() < 2 {
        assert(forall|x: Seq<char>| !in_some_group(bucket_groups(cands), x));
    } else if opened_of(cands).len() == 0 {
        assert(pass_group(cands).len() == 0);
        assert(bucket_groups(cands) == bucket_groups(pass_rest(cands)));
        assert(pass_rest(cands).len() == 0);
        assert(forall|x: Seq<char>| !in_some_group(bucket_groups(cands), x));
    } else {
        lemma_pass(cands);
        crate::duplicates::grouping::lemma_pass_rest_smaller(cands);
        let pivot = opened_of(cands)[0];
        let grp = pass_group(cands);
        let um = pass_rest(cands);
        let rest = bucket_groups(um);
        lemma_groups_members(um);
        assert forall|x: Seq<char>|
            #[trigger] in_some_group(bucket_groups(cands), x) implies exists|b: Seq<u8>|
            #[trigger] holds_file(cands, x, b) by {
            let in_grp: bool = grp.len() >= 2 && grp.contains(x);
            if grp.len() >= 2 {
                assert(bucket_groups(cands) == seq![grp] + rest);
                lemma_in_some_group_cons(grp, rest, x);
            } else {
                assert(bucket_groups(cands) == rest);
            }
            if in_grp {
                assert(holds_file(cands, x, pivot.source.unwrap().bytes));
            } else {
                assert(in_some_group(rest, x));
                let b = choose|b: Seq<u8>| #[trigger] holds_file(um, x, b);
                let f = choose|f: FileModel| #[trigger] um.contains(f) && completed(f, x, b);
                assert(cands.contains(f) && completed(f, x, b));
                assert(holds_file(cands, x, b));
            }
        }
    }
}

/// Files of one bucket share a group exactly when both could be read
/// completely and hold identical bytes; a file lands in some group exactly
/// when another fully readable file shares its content.  Candidates that
/// could not be opened or read never appear in a group.
pub proof fn lemma_groups_pairing(cands: Seq<FileModel>)
    requires
        distinct_paths(cands),
    ensures
        forall|x: Seq<char>, y: Seq<char>|
            #![trigger in_same_group(bucket_groups(cands), x, y)]
            #![trigger dup_pair(cands, x, y)]
            x != y ==> (in_same_group(bucket_groups(cands), x, y) <==> dup_pair(cands, x, y)),
        forall|x: Seq<char>|
            #![trigger in_some_group(bucket_groups(cands), x)]
            #![trigger duplicated(cands, x)]
            in_some_group(bucket_groups(cands), x) <==> duplicated(cands, x),
    decreases cands.len(),
{
    let gs = bucket_groups(cands);
    if cands.len() < 2 {
        assert(gs =~= Seq::<Seq<Seq<char>>>::empty());
        assert forall|x: Seq<char>, y: Seq<char>| x != y implies !dup_pair(cands, x, y) by {
            if dup_pair(cands, x, y) {
                let b = choose|b: Seq<u8>|
                    #[trigger] holds_file(cands, x, b) && holds_file(cands, y, b);
                let fx = choose|f: FileModel| #[trigger] cands.contains(f) && completed(f, x, b);
                let fy = choose|f: FileModel| #[trigger] cands.contains(f) && completed(f, y, b);
                let i = choose|i: int| 0 <= i < cands.len() && cands[i] == fx;
                let j = choose|j: int| 0 <= j < cands.len() && cands[j] == fy;
                assert(i != j);
                assert(false);
            }
        }
        assert forall|x: Seq<char>| !duplicated(cands, x) by {
            if duplicated(cands, x) {
                let y = choose|y: Seq<char>| #![auto] y != x && dup_pair(cands, x, y);
                assert(!dup_pair(cands, x, y));
            }
        }
    } else if opened_of(cands).len() == 0 {
        assert(pass_group(cands).len() == 0);
        assert(pass_rest(cands).len() == 0);
        assert(gs == bucket_groups(pass_rest(cands)));
        assert(gs =~= Seq::<Seq<Seq<char>>>::empty());
        assert forall|x: Seq<char>, y: Seq<char>| x != y implies !dup_pair(cands, x, y) by {
            if dup_pair(cands, x, y) {
                let b = choose|b: Seq<u8>|
                    #[trigger] holds_file(cands, x, b) && holds_file(cands, y, b);
                let fx = choose|f: FileModel| #[trigger] cands.contains(f) && completed(f, x, b);
                lemma_opened_contains(cands, fx);
                assert(opened_of(cands).contains(fx));
                assert(false);
            }
        }
        assert forall|x: Seq<char>| !duplicated(cands, x) by {
            if duplicated(cands, x) {
                let y = choose|y: Seq<char>| #![auto] y != x && dup_pair(cands, x, y);
                assert(!dup_pair(cands, x, y));
            }
        }
    } else {
        lemma_pass(cands);
        crate::duplicates::grouping::lemma_pass_rest_smaller(cands);
        let pivot = opened_of(cands)[0];
        let grp = pass_group(cands);
        let um = pass_rest(cands);
        let rest = bucket_groups(um);
        let bb = pivot.source.unwrap().bytes;
        lemma_groups_pairing(um);
        // Content certificates of the leftover candidates also hold of the
        // full candidate list.
        assert forall|x: Seq<char>, b: Seq<u8>| #[trigger] holds_file(um, x, b) implies holds_file(
            cands,
            x,
            b,
        ) by {
            let f = choose|f: FileModel| #[trigger] um.contains(f) && completed(f, x, b);
            assert(cands.contains(f) && completed(f, x, b));
        }
        // Sharing a group means sharing content.
        assert forall|x: Seq<char>, y: Seq<char>|
            x != y && in_same_group(gs, x, y) implies dup_pair(cands, x, y) by {
            if grp.len() >= 2 {
                assert(gs == seq![grp] + rest);
                lemma_in_same_group_cons(grp, rest, x, y);
            } else {
                assert(gs == rest);
            }
            if grp.len() >= 2 && grp.contains(x) && grp.contains(y) {
                assert(holds_file(cands, x, bb));
                assert(holds_file(cands, y, bb));
                assert(dup_pair(cands, x, y));
            } else {
                assert(in_same_group(rest, x, y));
                assert(dup_pair(um, x, y));
                let b = choose|b: Seq<u8>|
                    #[trigger] holds_file(um, x, b) && holds_file(um, y, b);
                assert(holds_file(cands, x, b) && holds_file(cands, y, b));
                assert(dup_pair(cands, x, y));
            }
        }
        // Sharing content means sharing a group.
        assert forall|x: Seq<char>, y: Seq<char>|
            x != y && dup_pair(cands, x, y) implies in_same_group(gs, x, y) by {
            let b = choose|b: Seq<u8>|
                #[trigger] holds_file(cands, x, b) && holds_file(cands, y, b);
            let fx = choose|f: FileModel| #[trigger] cands.contains(f) && completed(f, x, b);
            let fy = choose|f: FileModel| #[trigger] cands.contains(f) && completed(f, y, b);
            lemma_matches_iff_same_bytes(pivot, fx);
            lemma_matches_iff_same_bytes(pivot, fy);
            if candidate_matches(pivot, fx) {
                assert(is_complete(pivot) && bb == b);
                assert(candidate_matches(pivot, fy));
                if x != pivot.path {
                    assert(cands.contains(fx) && fx.path == x && fx.path != pivot.path
                        && candidate_matches(pivot, fx));
                }
                assert(grp.contains(x));
                if y != pivot.path {
                    assert(cands.contains(fy) && fy.path == y && fy.path != pivot.path
                        && candidate_matches(pivot, fy));
                }
                assert(grp.contains(y));
                let i = choose|i: int| 0 <= i < grp.len() && grp[i] == x;
                let j = choose|j: int| 0 <= j < grp.len() && grp[j] == y;
                assert(i != j);
                assert(grp.len() >= 2);
                assert(gs == seq![grp] + rest);
                lemma_in_same_group_cons(grp, rest, x, y);
            } else {
                if fx == pivot {
                    assert(candidate_matches(pivot, fx));
                    assert(false);
                }
                if candidate_matches(pivot, fy) {
                    assert(is_complete(pivot) && bb == b);
                    assert(candidate_matches(pivot, fx));
                    assert(false);
                }
                if fy == pivot {
                    assert(candidate_matches(pivot, fy));
                    assert(false);
                }
                assert(um.contains(fx));
                assert(um.contains(fy));
                assert(holds_file(um, x, b) && holds_file(um, y, b));
                assert(dup_pair(um, x, y));
                assert(in_same_group(rest, x, y));
                if grp.len() >= 2 {
                    assert(gs == seq![grp] + rest);
                    lemma_in_same_group_cons(grp, rest, x, y);
                } else {
                    assert(gs == rest);
                }
            }
        }
        // Group membership means having a duplicate partner.
        assert forall|x: Seq<char>| in_some_group(gs, x) implies duplicated(cands, x) by {
            if grp.len() >= 2 {
                assert(gs == seq![grp] + rest);
                lemma_in_some_group_cons(grp, rest, x);
            } else {
                assert(gs == rest);
            }
            if grp.len() >= 2 && grp.contains(x) {
                let i = choose|i: int| 0 <= i < grp.len() && grp[i] == x;
                let j: int = if i == 0 {
                    1
                } else {
                    0
                };
                let y = grp[j];
                assert(y != x);
                assert(grp.contains(y));
                assert(holds_file(cands, x, bb) && holds_file(cands, y, bb));
                assert(dup_pair(cands, x, y));
                assert(duplicated(cands, x));
            } else {
                assert(in_some_group(rest, x));
                assert(duplicated(um, x));
                let y = choose|y: Seq<char>| #![auto] y != x && dup_pair(um, x, y);
                let b = choose|b: Seq<u8>| #[trigger] holds_file(um, x, b) && holds_file(um, y, b);
                assert(holds_file(cands, x, b) && holds_file(cands, y, b));
                assert(dup_pair(cands, x, y));
                assert(duplicated(cands, x));
            }
        }
        // Having a duplicate partner means lying in some group.
        assert forall|x: Seq<char>| duplicated(cands, x) implies in_some_group(gs, x) by {
            let y = choose|y: Seq<char>| #![auto] y != x && dup_pair(cands, x, y);
            assert(in_same_group(gs, x, y));
            let i = choose|i: int|
                0 <= i < gs.len() && (#[trigger] gs[i]).contains(x) && gs[i].contains(y);
            assert(in_some_group(gs, x));
        }
    }
}

/// No path appears twice among the emitted groups: within one group every
/// entry is distinct, and no two groups share a path.
pub proof fn lemma_groups_no_duplicate_path(cands: Seq<FileModel>)
    requires
        distinct_paths(cands),
    ensures
        forall|gi: int, pi: int, pj: int|
            #![trigger bucket_groups(cands)[gi][pi], bucket_groups(cands)[gi][pj]]
            0 <= gi < bucket_groups(cands).len() && 0 <= pi < pj < bucket_groups(cands)[gi].len()
                ==> bucket_groups(cands)[gi][pi] != bucket_groups(cands)[gi][pj],
        forall|gi: int, gj: int, x: Seq<char>|
            #![trigger bucket_groups(cands)[gi].contains(x), bucket_groups(cands)[gj].contains(x)]
            0 <= gi < gj < bucket_groups(cands).len() ==> !(bucket_groups(cands)[gi].contains(x)
                && bucket_groups(cands)[gj].contains(x)),
    decreases cands.len(),
{
    let gs = bucket_groups(cands);
    if cands.len() < 2 {
        assert(gs =~= Seq::<Seq<Seq<char>>>::empty());
    } else if opened_of(cands).len() == 0 {
        assert(pass_group(cands).len() == 0);
        assert(pass_rest(cands).len() == 0);
        assert(gs == bucket_groups(pass_rest(cands)));
        assert(gs =~= Seq::<Seq<Seq<char>>>::empty());
    } else {
        lemma_pass(cands);
        crate::duplicates::grouping::lemma_pass_rest_smaller(cands);
        let pivot = opened_of(cands)[0];
        let grp = pass_group(cands);
        let um = pass_rest(cands);
        let rest = bucket_groups(um);
        lemma_groups_no_duplicate_path(um);
        lemma_groups_members(um);
        if grp.len() < 2 {
            assert(gs == rest);
        } else {
            assert(gs == seq![grp] + rest);
            assert(gs[0] == grp);
            assert(forall|i: int| 0 <= i < rest.len() ==> gs[i + 1] == rest[i]);
            assert forall|gi: int, pi: int, pj: int|
                #![trigger gs[gi][pi], gs[gi][pj]]
                0 <= gi < gs.len() && 0 <= pi < pj < gs[gi].len() implies gs[gi][pi]
                != gs[gi][pj] by {
                if gi > 0 {
                    assert(gs[gi] == rest[gi - 1]);
                }
            }
            // The fresh group shares no path with the later groups.
            assert forall|gj: int, x: Seq<char>|
                #![trigger gs[gj].contains(x)]
                0 < gj < gs.len() && gs[gj].contains(x) implies !grp.contains(x) by {
                assert(gs[gj] == rest[gj - 1]);
                assert(in_some_group(rest, x));
                let b = choose|b: Seq<u8>| #[trigger] holds_file(um, x, b);
                let f = choose|f: FileModel| #[trigger] um.contains(f) && completed(f, x, b);
                assert(cands.contains(f));
                if grp.contains(x) {
                    if x == pivot.path {
                        lemma_same_path_same(cands, f, pivot);
                        assert(f != pivot);
                        assert(false);
                    } else {
                        let g = choose|g: FileModel|
                            #[trigger] cands.contains(g) && g.path == x && g.path != pivot.path
                                && candidate_matches(pivot, g);
                        lemma_same_path_same(cands, f, g);
                        assert(!candidate_matches(pivot, f));
                        assert(false);
                    }
                }
            }
            assert forall|gi: int, gj: int, x: Seq<char>|
                #![trigger gs[gi].contains(x), gs[gj].contains(x)]
                0 <= gi < gj < gs.len() implies !(gs[gi].contains(x) && gs[gj].contains(x)) by {
                if gi == 0 {
                    assert(gs[gi] == grp);
                } else {
                    assert(gs[gi] == rest[gi - 1]);
                    assert(gs[gj] == rest[gj - 1]);
                }
            }
        }
    }
}

/// The family of group sets of a bucket.
pub open spec fn group_sets(gs: Seq<Seq<Seq<char>>>) -> Set<Set<Seq<char>>> {
    Set::new(
        |s: Set<Seq<char>>|
            exists|i: int| 0 <= i < gs.len() && (#[trigger] gs[i]).to_set() == s,
    )
}

/// Feeding the same candidates in another order yields the same groups, as
/// a set of path sets: the engine's outcome does not depend on scheduling
/// or on the order of the traversal feed.
pub proof fn lemma_groups_order_independent(c1: Seq<FileModel>, c2: Seq<FileModel>)
    requires
        distinct_paths(c1),
        distinct_paths(c2),
        c1.to_set() == c2.to_set(),
    ensures
        group_sets(bucket_groups(c1)) == group_sets(bucket_groups(c2)),
{
    assert forall|f: FileModel|
        is_complete(f) implies (#[trigger] c1.contains(f) <==> c2.contains(f)) by {
        if c1.contains(f) {
            assert(c1.to_set().contains(f));
        }
        if c2.contains(f) {
            assert(c2.to_set().contains(f));
        }
    }
    lemma_groups_depend_on_readable(c1, c2);
}

/// The groups depend only on the fully readable candidates: two candidate
/// lists holding the same complete files yield the same groups, as a set of
/// path sets.  Candidates that could not be opened, or whose reads failed,
/// disturb nothing.
pub proof fn lemma_groups_depend_on_readable(c1: Seq<FileModel>, c2: Seq<FileModel>)
    requires
        distinct_paths(c1),
        distinct_paths(c2),
        forall|f: FileModel|
            is_complete(f) ==> (#[trigger] c1.contains(f) <==> c2.contains(f)),
    ensures
        group_sets(bucket_groups(c1)) == group_sets(bucket_groups(c2)),
{
    let r1 = bucket_groups(c1);
    let r2 = bucket_groups(c2);
    lemma_groups_pairing(c1);
    lemma_groups_pairing(c2);
    lemma_groups_min_len(c1);
    lemma_groups_min_len(c2);
    lemma_groups_no_duplicate_path(c1);
    lemma_groups_no_duplicate_path(c2);
    assert forall|x: Seq<char>, b: Seq<u8>| #[trigger] holds_file(c1, x, b) <==> #[trigger]
    holds_file(c2, x, b) by {
        if holds_file(c1, x, b) {
            let f = choose|f: FileModel| #[trigger] c1.contains(f) && completed(f, x, b);
            assert(is_complete(f));
            assert(c2.contains(f) && completed(f, x, b));
        }
        if holds_file(c2, x, b) {
            let f = choose|f: FileModel| #[trigger] c2.contains(f) && completed(f, x, b);
            assert(is_complete(f));
            assert(c1.contains(f) && completed(f, x, b));
        }
    }
    assert forall|x: Seq<char>, y: Seq<char>| #[trigger] dup_pair(c1, x, y) <==> #[trigger]
    dup_pair(c2, x, y) by {
        if dup_pair(c1, x, y) {
            let b = choose|b: Seq<u8>| #[trigger] holds_file(c1, x, b) && holds_file(c1, y, b);
            assert(holds_file(c2, x, b) && holds_file(c2, y, b));
        }
        if dup_pair(c2, x, y) {
            let b = choose|b: Seq<u8>| #[trigger] holds_file(c2, x, b) && holds_file(c2, y, b);
            assert(holds_file(c1, x, b) && holds_file(c1, y, b));
        }
    }
    lemma_group_sets_subset(c1, c2, r1, r2);
    lemma_group_sets_subset(c2, c1, r2, r1);
    assert(group_sets(r1) =~= group_sets(r2));
}

/// One direction of the order-independence argument: every group set of the
/// first run appears among the group sets of the second.
proof fn lemma_group_sets_subset(
    ca: Seq<FileModel>,
    cb: Seq<FileModel>,
    ra: Seq<Seq<Seq<char>>>,
    rb: Seq<Seq<Seq<char>>>,
)
    requires
        ra == bucket_groups(ca),
        rb == bucket_groups(cb),
        distinct_paths(ca),
        distinct_paths(cb),
        forall|x: Seq<char>, y: Seq<char>| #[trigger] dup_pair(ca, x, y) <==> #[trigger] dup_pair(
            cb,
            x,
            y,
        ),
        forall|x: Seq<char>, y: Seq<char>|
            #![trigger in_same_group(ra, x, y)]
            #![trigger dup_pair(ca, x, y)]
            x != y ==> (in_same_group(ra, x, y) <==> dup_pair(ca, x, y)),
        forall|x: Seq<char>|
            #![trigger in_some_group(ra, x)]
            #![trigger duplicated(ca, x)]
            in_some_group(ra, x) <==> duplicated(ca, x),
        forall|x: Seq<char>, y: Seq<char>|
            #![trigger in_same_group(rb, x, y)]
            #![trigger dup_pair(cb, x, y)]
            x != y ==> (in_same_group(rb, x, y) <==> dup_pair(cb, x, y)),
        forall|x: Seq<char>|
            #![trigger in_some_group(rb, x)]
            #![trigger duplicated(cb, x)]
            in_some_group(rb, x) <==> duplicated(cb, x),
        forall|i: int| 0 <= i < ra.len() ==> (#[trigger] ra[i]).len() >= 2,
        forall|gi: int, gj: int, x: Seq<char>|
            #![trigger ra[gi].contains(x), ra[gj].contains(x)]
            0 <= gi < gj < ra.len() ==> !(ra[gi].contains(x) && ra[gj].contains(x)),
        forall|gi: int, gj: int, x: Seq<char>|
            #![trigger rb[gi].contains(x), rb[gj].contains(x)]
            0 <= gi < gj < rb.len() ==> !(rb[gi].contains(x) && rb[gj].contains(x)),
    ensures
        forall|s: Set<Seq<char>>|
            #[trigger] group_sets(ra).contains(s) ==> group_sets(rb).contains(s),
{
    assert forall|s: Set<Seq<char>>|
        #[trigger] group_sets(ra).contains(s) implies group_sets(rb).contains(s) by {
        let i1 = choose|i: int| 0 <= i < ra.len() && (#[trigger] ra[i]).to_set() == s;
        let g = ra[i1];
        let x = g[0];
        assert(g.contains(x));
        assert(in_some_group(ra, x));
        assert(duplicated(ca, x));
        // The path also lies in some group of the other run.
        let yw = choose|y: Seq<char>| #![auto] y != x && dup_pair(ca, x, y);
        assert(dup_pair(cb, x, yw));
        assert(duplicated(cb, x));
        assert(in_some_group(rb, x));
        let j = choose|j: int| 0 <= j < rb.len() && (#[trigger] rb[j]).contains(x);
        let h = rb[j];
        // Both groups hold exactly the paths sharing content with `x`.
        assert forall|z: Seq<char>| #[trigger] g.contains(z) implies h.contains(z) by {
            if z != x {
                assert(in_same_group(ra, x, z));
                assert(dup_pair(ca, x, z));
                assert(dup_pair(cb, x, z));
                assert(in_same_group(rb, x, z));
                let k = choose|k: int|
                    0 <= k < rb.len() && (#[trigger] rb[k]).contains(x) && rb[k].contains(z);
                assert(k == j);
            }
        }
        assert forall|z: Seq<char>| #[trigger] h.contains(z) implies g.contains(z) by {
            if z != x {
                assert(in_same_group(rb, x, z));
                assert(dup_pair(cb, x, z));
                assert(dup_pair(ca, x, z));
                assert(in_same_group(ra, x, z));
                let k = choose|k: int|
                    0 <= k < ra.len() && (#[trigger] ra[k]).contains(x) && ra[k].contains(z);
                assert(k == i1);
            }
        }
        assert(h.to_set() =~= s);
        assert(0 <= j < rb.len() && rb[j].to_set() == s);
    }
}

/// Zero-length files that were read completely are always grouped
/// together: the first comparison round reads nothing from either side and
/// finds both ends at once.
pub proof fn lemma_empty_files_group(cands: Seq<FileModel>, x: Seq<char>, y: Seq<char>)
    requires
        distinct_paths(cands),
        x != y,
        holds_file(cands, x, Seq::<u8>::empty()),
        holds_file(cands, y, Seq::<u8>::empty()),
    ensures
        in_same_group(bucket_groups(cands), x, y),
{
    lemma_groups_pairing(cands);
    assert(dup_pair(cands, x, y));
}

/// Fully readable files whose contents differ anywhere are never grouped,
/// however long their common prefix: the comparison walks chunk after
/// chunk until the difference is reached.
pub proof fn lemma_different_content_never_grouped(cands: Seq<FileModel>, i: int, j: int)
    requires
        distinct_paths(cands),
        0 <= i < cands.len(),
        0 <= j < cands.len(),
        i != j,
        is_complete(cands[i]),
        is_complete(cands[j]),
        cands[i].source.unwrap().bytes != cands[j].source.unwrap().bytes,
    ensures
        !in_same_group(bucket_groups(cands), cands[i].path, cands[j].path),
{
    lemma_groups_pairing(cands);
    let x = cands[i].path;
    let y = cands[j].path;
    assert(x != y);
    if in_same_group(bucket_groups(cands), x, y) {
        assert(dup_pair(cands, x, y));
        let b = choose|b: Seq<u8>| #[trigger] holds_file(cands, x, b) && holds_file(cands, y, b);
        let fx = choose|f: FileModel| #[trigger] cands.contains(f) && completed(f, x, b);
        let fy = choose|f: FileModel| #[trigger] cands.contains(f) && completed(f, y, b);
        assert(cands.contains(cands[i]));
        assert(cands.contains(cands[j]));
        lemma_same_path_same(cands, fx, cands[i]);
        lemma_same_path_same(cands, fy, cands[j]);
        assert(false);
    }
}

/// A file whose candidate could not be opened, or whose reads failed before
/// a clean end of file, never appears in a group; the remaining candidates
/// are grouped as if it had not been offered.
pub proof fn lemma_unreadable_excluded(cands: Seq<FileModel>, x: Seq<char>)
    requires
        distinct_paths(cands),
        forall|i: int|
            0 <= i < cands.len() && (#[trigger] cands[i]).path == x ==> !is_complete(cands[i]),
    ensures
        !in_some_group(bucket_groups(cands), x),
{
    lemma_groups_pairing(cands);
    if in_some_group(bucket_groups(cands), x) {
        assert(duplicated(cands, x));
        let y = choose|y: Seq<char>| #![auto] y != x && dup_pair(cands, x, y);
        let b = choose|b: Seq<u8>| #[trigger] holds_file(cands, x, b) && holds_file(cands, y, b);
        let f = choose|f: FileModel| #[trigger] cands.contains(f) && completed(f, x, b);
        let i = choose|i: int| 0 <= i < cands.len() && cands[i] == f;
        assert(!is_complete(cands[i]));
        assert(false);
    }
}

/// Grouping only ever relates files of one size: every path grouped out of
/// the bucket of size `s` belongs to a record of exactly that size, so
/// files of differing size never share a group.
pub proof fn lemma_grouped_paths_have_size(
    records: Seq<crate::duplicates::index::RecordModel>,
    s: u64,
    cands: Seq<FileModel>,
    x: Seq<char>,
)
    requires
        distinct_paths(cands),
        crate::duplicates::index::size_index(records).dom().contains(s),
        paths_of(cands) == crate::duplicates::index::size_index(records)[s],
        in_some_group(bucket_groups(cands), x),
    ensures
        exists|i: int|
            0 <= i < records.len() && (#[trigger] records[i]).path == x && records[i].size == s,
{
    lemma_groups_members(cands);
    let b = choose|b: Seq<u8>| #[trigger] holds_file(cands, x, b);
    let f = choose|f: FileModel| #[trigger] cands.contains(f) && completed(f, x, b);
    let c = choose|c: int| 0 <= c < cands.len() && cands[c] == f;
    assert(paths_of(cands)[c] == x);
    crate::duplicates::index::lemma_size_index_members(records, s, c);
}

/// The headline guarantee, size included: within the bucket that the size
/// index built for size `s`, two paths share a group exactly when both
/// name fully readable candidates with identical byte sequences; and every
/// path so grouped belongs to a record of exactly the size `s`.
pub proof fn lemma_same_size_pairing(
    records: Seq<crate::duplicates::index::RecordModel>,
    s: u64,
    cands: Seq<FileModel>,
    x: Seq<char>,
    y: Seq<char>,
)
    requires
        distinct_paths(cands),
        crate::duplicates::index::size_index(records).dom().contains(s),
        paths_of(cands) == crate::duplicates::index::size_index(records)[s],
        x != y,
    ensures
        in_same_group(bucket_groups(cands), x, y) <==> dup_pair(cands, x, y),
        in_same_group(bucket_groups(cands), x, y) ==> exists|i: int|
            0 <= i < records.len() && (#[trigger] records[i]).path == x && records[i].size == s,
        in_same_group(bucket_groups(cands), x, y) ==> exists|i: int|
            0 <= i < records.len() && (#[trigger] records[i]).path == y && records[i].size == s,
{
    lemma_groups_pairing(cands);
    if in_same_group(bucket_groups(cands), x, y) {
        let gi = choose|gi: int|
            0 <= gi < bucket_groups(cands).len() && (#[trigger] bucket_groups(cands)[gi]).contains(
                x,
            ) && bucket_groups(cands)[gi].contains(y);
        assert(in_some_group(bucket_groups(cands), x));
        assert(in_some_group(bucket_groups(cands), y));
        lemma_grouped_paths_have_size(records, s, cands, x);
        lemma_grouped_paths_have_size(records, s, cands, y);
    }
}

} // verus!
