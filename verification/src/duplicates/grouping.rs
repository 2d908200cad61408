//! The content grouper: partition the candidates of one size bucket into
//! groups of byte-identical files.
//!
//! One pass drops the candidates that could not be opened, designates the
//! first opened candidate as the pivot, and splits the others into those
//! matching the pivot under the lockstep chunked comparison and those not.
//! The pivot's pass yields a group when at least two files matched; the
//! non-matching candidates feed the next pass.  The whole bucket is handled
//! by an explicit loop carrying (candidates, groups) state, so the stack
//! depth does not grow with the number of duplicates.

use vstd::prelude::*;

use crate::duplicates::content::CandidateFile;
use crate::duplicates::content::FileModel;
use crate::duplicates::content::content_matches;
use crate::duplicates::content::data_matches;

verus! {

/// The candidate's file could be opened.
pub open spec fn is_opened(f: FileModel) -> bool {
    f.source is Some
}

/// The candidate's file was opened and read to a clean end of file.
pub open spec fn is_complete(f: FileModel) -> bool {
    f.source is Some && f.source.unwrap().complete
}

/// The candidate `c` matches the pivot `p` under the lockstep comparison.
pub open spec fn candidate_matches(p: FileModel, c: FileModel) -> bool {
    is_opened(p) && is_opened(c) && data_matches(p.source.unwrap(), c.source.unwrap())
}

/// The candidates whose files could be opened, in order.
pub open spec fn opened_of(s: Seq<FileModel>) -> Seq<FileModel> {
    s.filter(|c: FileModel| is_opened(c))
}

/// The candidates of `s` that match the pivot `p`, in order.
pub open spec fn matched_of(p: FileModel, s: Seq<FileModel>) -> Seq<FileModel> {
    s.filter(|c: FileModel| candidate_matches(p, c))
}

/// The candidates of `s` that do not match the pivot `p`, in order.
pub open spec fn unmatched_of(p: FileModel, s: Seq<FileModel>) -> Seq<FileModel> {
    s.filter(|c: FileModel| !candidate_matches(p, c))
}

/// The paths of the candidates of `s`, in order.
pub open spec fn paths_of(s: Seq<FileModel>) -> Seq<Seq<char>> {
    s.map_values(|c: FileModel| c.path)
}

/// The pivot pass over `cands`: the pivot's path followed by the paths of
/// the candidates matching it.  Empty when no candidate could be opened.
pub open spec fn pass_group(cands: Seq<FileModel>) -> Seq<Seq<char>> {
    let opened = opened_of(cands);
    if opened.len() == 0 {
        Seq::empty()
    } else {
        seq![opened[0].path] + paths_of(matched_of(opened[0], opened.skip(1)))
    }
}

/// What the pivot pass over `cands` leaves for the next pass: the opened
/// candidates that did not match the pivot.
pub open spec fn pass_rest(cands: Seq<FileModel>) -> Seq<FileModel> {
    let opened = opened_of(cands);
    if opened.len() == 0 {
        Seq::empty()
    } else {
        unmatched_of(opened[0], opened.skip(1))
    }
}

/// Each pass consumes at least the pivot, so the candidate list shrinks.
pub proof fn lemma_pass_rest_smaller(cands: Seq<FileModel>)
    requires
        cands.len() >= 1,
    ensures
        pass_rest(cands).len() < cands.len(),
{
    broadcast use vstd::seq_lib::group_filter_ensures;

    let opened = opened_of(cands);
    if opened.len() == 0 {
    } else {
        assert(opened.len() <= cands.len());
        assert(opened.skip(1).len() == opened.len() - 1);
        assert(unmatched_of(opened[0], opened.skip(1)).len() <= opened.skip(1).len());
    }
}

/// The groups of one size bucket: repeat the pivot pass until fewer than two
/// candidates remain, keeping each pass's group when it has at least two
/// members.
pub open spec fn bucket_groups(cands: Seq<FileModel>) -> Seq<Seq<Seq<char>>>
    decreases cands.len() via bucket_groups_decreases
{
    if cands.len() < 2 {
        Seq::empty()
    } else {
        let grp = pass_group(cands);
        let rest = bucket_groups(pass_rest(cands));
        if grp.len() >= 2 {
            seq![grp] + rest
        } else {
            rest
        }
    }
}

#[via_fn]
proof fn bucket_groups_decreases(cands: Seq<FileModel>) {
    if cands.len() >= 2 {
        lemma_pass_rest_smaller(cands);
    }
}

/// One filter step: filtering a sequence extended by one element.
proof fn lemma_opened_push(s: Seq<FileModel>, x: FileModel)
    ensures
        opened_of(s.push(x)) == if is_opened(x) {
            opened_of(s).push(x)
        } else {
            opened_of(s)
        },
{
    reveal(Seq::filter);
    assert(s.push(x).drop_last() =~= s);
    assert(s.push(x).last() == x);
}

proof fn lemma_matched_push(p: FileModel, s: Seq<FileModel>, x: FileModel)
    ensures
        matched_of(p, s.push(x)) == if candidate_matches(p, x) {
            matched_of(p, s).push(x)
        } else {
            matched_of(p, s)
        },
{
    reveal(Seq::filter);
    assert(s.push(x).drop_last() =~= s);
    assert(s.push(x).last() == x);
}

proof fn lemma_unmatched_push(p: FileModel, s: Seq<FileModel>, x: FileModel)
    ensures
        unmatched_of(p, s.push(x)) == if !candidate_matches(p, x) {
            unmatched_of(p, s).push(x)
        } else {
            unmatched_of(p, s)
        },
{
    reveal(Seq::filter);
    assert(s.push(x).drop_last() =~= s);
    assert(s.push(x).last() == x);
}

proof fn lemma_paths_push(s: Seq<FileModel>, x: FileModel)
    ensures
        paths_of(s.push(x)) == paths_of(s).push(x.path),
{
    assert(paths_of(s.push(x)) =~= paths_of(s).push(x.path));
}

/// Compare every candidate's content with the first one that could be
/// opened.  The matching candidates' paths come back in the first vector
/// (with the pivot's path first); the opened candidates that did not match
/// come back in the second, for the next pass.  Candidates that could not be
/// opened are dropped.
pub fn group_same_content(cands: Vec<CandidateFile>) -> (r: (Vec<String>, Vec<CandidateFile>))
    ensures
        r.0.deep_view() == pass_group(cands.deep_view()),
        r.1.deep_view() == pass_rest(cands.deep_view()),
{
    let ghost cs = cands.deep_view();
    let mut input = cands;
    let mut opened: Vec<CandidateFile> = Vec::new();
    let ghost mut done: Seq<FileModel> = Seq::empty();
    while input.len() > 0
        invariant
            cs == done + input.deep_view(),
            opened.deep_view() == opened_of(done),
        decreases input.len(),
    {
        let ghost in0 = input.deep_view();
        let ghost op0 = opened.deep_view();
        let c = input.remove(0);
        proof {
            assert(c@ == in0[0]);
            assert(input.deep_view() =~= in0.skip(1));
            assert(done.push(c@) + input.deep_view() =~= done + in0);
            lemma_opened_push(done, c@);
            done = done.push(c@);
        }
        if c.source.is_some() {
            assert(is_opened(c@));
            opened.push(c);
            assert(opened.deep_view() =~= op0.push(c@));
        } else {
            assert(!is_opened(c@));
        }
    }
    proof {
        assert(input.deep_view() =~= Seq::<FileModel>::empty());
        assert(done =~= cs);
    }
    if opened.len() == 0 {
        let r: (Vec<String>, Vec<CandidateFile>) = (Vec::new(), Vec::new());
        proof {
            assert(opened_of(cs).len() == 0);
            assert(r.0.deep_view() =~= Seq::<Seq<char>>::empty());
            assert(r.1.deep_view() =~= Seq::<FileModel>::empty());
        }
        return r;
    }
    let ghost all_opened = opened_of(cs);
    proof {
        broadcast use vstd::seq_lib::group_filter_ensures;

        assert(forall|i: int|
            0 <= i < all_opened.len() ==> is_opened(#[trigger] all_opened[i]));
    }
    let pivot = opened.remove(0);
    proof {
        assert(pivot@ == all_opened[0]);
        assert(opened.deep_view() =~= all_opened.skip(1));
    }
    let ghost pv = pivot@;
    let CandidateFile { path: pivot_path, source: pivot_source_opt } = pivot;
    let pivot_source = match pivot_source_opt {
        Some(s) => s,
        None => vstd::pervasive::unreached(),
    };
    let mut matching: Vec<String> = Vec::new();
    matching.push(pivot_path);
    assert(matching.deep_view() =~= seq![pv.path]);
    let mut not_matching: Vec<CandidateFile> = Vec::new();
    let mut others = opened;
    let ghost mut seen: Seq<FileModel> = Seq::empty();
    proof {
        assert(all_opened.skip(1) =~= seen + others.deep_view());
        assert(matching.deep_view() =~= seq![pv.path] + paths_of(matched_of(pv, seen))) by {
            reveal(Seq::filter);
            assert(matched_of(pv, seen) =~= Seq::<FileModel>::empty());
            assert(paths_of(matched_of(pv, seen)) =~= Seq::<Seq<char>>::empty());
        }
        assert(not_matching.deep_view() =~= unmatched_of(pv, seen)) by {
            reveal(Seq::filter);
            assert(unmatched_of(pv, seen) =~= Seq::<FileModel>::empty());
        }
    }
    while others.len() > 0
        invariant
            all_opened.skip(1) == seen + others.deep_view(),
            matching.deep_view() == seq![pv.path] + paths_of(matched_of(pv, seen)),
            not_matching.deep_view() == unmatched_of(pv, seen),
            pivot_source@ == pv.source.unwrap(),
            is_opened(pv),
            forall|i: int|
                0 <= i < others.deep_view().len() ==> is_opened(#[trigger] others.deep_view()[i]),
        decreases others.len(),
    {
        let ghost ot0 = others.deep_view();
        let c = others.remove(0);
        proof {
            assert(c@ == ot0[0]);
            assert(others.deep_view() =~= ot0.skip(1));
            assert(seen.push(c@) + others.deep_view() =~= seen + ot0);
            lemma_matched_push(pv, seen, c@);
            lemma_unmatched_push(pv, seen, c@);
            lemma_paths_push(matched_of(pv, seen), c@);
        }
        let is_match = match &c.source {
            Some(s) => content_matches(&pivot_source, s),
            None => vstd::pervasive::unreached(),
        };
        proof {
            assert(is_match == candidate_matches(pv, c@));
        }
        if is_match {
            let ghost mold = matching.deep_view();
            matching.push(c.path);
            proof {
                assert(matching.deep_view() =~= mold.push(c@.path));
                assert(mold.push(c@.path) =~= seq![pv.path] + paths_of(
                    matched_of(pv, seen.push(c@)),
                ));
            }
        } else {
            let ghost nold = not_matching.deep_view();
            not_matching.push(c);
            assert(not_matching.deep_view() =~= nold.push(c@));
        }
        proof {
            seen = seen.push(c@);
        }
    }
    proof {
        assert(others.deep_view() =~= Seq::<FileModel>::empty());
        assert(seen =~= all_opened.skip(1));
        assert(all_opened.len() >= 1);
    }
    (matching, not_matching)
}

/// Partition one size bucket into its content groups: run pivot passes until
/// fewer than two candidates remain, keeping every group with at least two
/// members.
pub fn group_bucket(cands: Vec<CandidateFile>) -> (groups: Vec<Vec<String>>)
    ensures
        groups.deep_view() == bucket_groups(cands.deep_view()),
{
    let ghost cs = cands.deep_view();
    let mut pending = cands;
    let mut out: Vec<Vec<String>> = Vec::new();
    while pending.len() >= 2
        invariant
            bucket_groups(cs) == out.deep_view() + bucket_groups(pending.deep_view()),
        decreases pending.len(),
    {
        let ghost pd = pending.deep_view();
        let (grp, rest) = group_same_content(pending);
        proof {
            lemma_pass_rest_smaller(pd);
        }
        if grp.len() >= 2 {
            let ghost oold = out.deep_view();
            out.push(grp);
            proof {
                assert(out.deep_view() =~= oold.push(grp.deep_view()));
                assert(oold.push(grp.deep_view()) =~= oold + seq![grp.deep_view()]);
                assert((oold + seq![pass_group(pd)]) + bucket_groups(pass_rest(pd)) =~= oold + (
                seq![pass_group(pd)] + bucket_groups(pass_rest(pd))));
            }
        }
        pending = rest;
    }
    proof {
        assert(pending.deep_view().len() < 2);
        assert(bucket_groups(pending.deep_view()) =~= Seq::<Seq<Seq<char>>>::empty());
        assert(out.deep_view() + bucket_groups(pending.deep_view()) =~= out.deep_view());
    }
    out
}

} // verus!
