//! The bucket scheduler and the result set.
//!
//! The retained size buckets are independent, so the content grouper runs
//! over them with data parallelism; the per-bucket group lists are then
//! concatenated into one result set, which offers counts, a deterministic
//! sort, and an export of the groups as plain path lists.

use vstd::prelude::*;

use rayon::iter::IntoParallelIterator;
use rayon::iter::ParallelIterator;

use crate::duplicates::content::CandidateFile;
use crate::duplicates::content::FileModel;
use crate::duplicates::grouping::bucket_groups;
use crate::duplicates::grouping::group_bucket;

verus! {

use vstd::multiset::Multiset;
use vstd::string::StringSliceAdditionalSpecFns;

/// Relies on rayon's parallel iterator over a vector: `map` applies the
/// given function to every bucket and `collect` keeps the bucket order, so
/// the result holds exactly the groups of each bucket, bucket by bucket.
#[verifier::external_body]
fn par_group_buckets(buckets: Vec<Vec<CandidateFile>>) -> (r: Vec<Vec<Vec<String>>>)
    ensures
        r.deep_view() == buckets.deep_view().map_values(|b: Seq<FileModel>| bucket_groups(b)),
{
    buckets.into_par_iter().map(group_bucket).collect()
}

/// All content groups of a run: the groups of every bucket, concatenated in
/// bucket order.
pub open spec fn all_groups(buckets: Seq<Seq<FileModel>>) -> Seq<Seq<Seq<char>>> {
    buckets.map_values(|b: Seq<FileModel>| bucket_groups(b)).flatten()
}

/// Byte-wise lexicographic order.
pub open spec fn bytes_le(a: Seq<u8>, b: Seq<u8>) -> bool
    decreases a.len(),
{
    if a.len() == 0 {
        true
    } else if b.len() == 0 {
        false
    } else if a[0] < b[0] {
        true
    } else if a[0] > b[0] {
        false
    } else {
        bytes_le(a.drop_first(), b.drop_first())
    }
}

/// The key a group is sorted by: the UTF-8 bytes of its first path.
pub open spec fn group_key(g: Seq<Seq<char>>) -> Seq<u8> {
    if g.len() == 0 {
        Seq::empty()
    } else {
        vstd::utf8::encode_utf8(g[0])
    }
}

/// Group order: by first path, byte-wise.
pub open spec fn group_le(a: Seq<Seq<char>>, b: Seq<Seq<char>>) -> bool {
    bytes_le(group_key(a), group_key(b))
}

/// The groups stand in ascending order of their first paths.
pub open spec fn sorted_groups(gs: Seq<Seq<Seq<char>>>) -> bool {
    forall|i: int, j: int| 0 <= i < j < gs.len() ==> group_le(gs[i], gs[j])
}

/// The byte-wise order is total.
pub proof fn lemma_bytes_le_total(a: Seq<u8>, b: Seq<u8>)
    ensures
        bytes_le(a, b) || bytes_le(b, a),
    decreases a.len(),
{
    if a.len() == 0 || b.len() == 0 {
    } else if a[0] == b[0] {
        lemma_bytes_le_total(a.drop_first(), b.drop_first());
    }
}

/// The byte-wise order is transitive.
pub proof fn lemma_bytes_le_trans(a: Seq<u8>, b: Seq<u8>, c: Seq<u8>)
    requires
        bytes_le(a, b),
        bytes_le(b, c),
    ensures
        bytes_le(a, c),
    decreases a.len(),
{
    if a.len() == 0 || b.len() == 0 || c.len() == 0 {
    } else if a[0] == b[0] && b[0] == c[0] {
        lemma_bytes_le_trans(a.drop_first(), b.drop_first(), c.drop_first());
    }
}

/// Compare two byte slices in the byte-wise lexicographic order.
fn slice_bytes_le(a: &[u8], b: &[u8]) -> (r: bool)
    ensures
        r == bytes_le(a@, b@),
{
    let alen: usize = a.len();
    let blen: usize = b.len();
    let mut i: usize = 0;
    proof {
        assert(a@.skip(0) =~= a@);
        assert(b@.skip(0) =~= b@);
    }
    loop
        invariant
            i <= alen,
            i <= blen,
            alen == a@.len(),
            blen == b@.len(),
            bytes_le(a@, b@) == bytes_le(a@.skip(i as int), b@.skip(i as int)),
        decreases alen - i,
    {
        if i == alen {
            assert(a@.skip(i as int).len() == 0);
            return true;
        }
        if i == blen {
            assert(a@.skip(i as int).len() > 0);
            assert(b@.skip(i as int).len() == 0);
            return false;
        }
        let x = a[i];
        let y = b[i];
        proof {
            assert(a@.skip(i as int)[0] == a@[i as int]);
            assert(b@.skip(i as int)[0] == b@[i as int]);
        }
        if x < y {
            return true;
        }
        if x > y {
            return false;
        }
        proof {
            assert(a@.skip(i as int).drop_first() =~= a@.skip(i + 1));
            assert(b@.skip(i as int).drop_first() =~= b@.skip(i + 1));
        }
        i = i + 1;
    }
}

/// Compare two groups by their first paths.
fn group_le_exec(a: &Vec<String>, b: &Vec<String>) -> (r: bool)
    ensures
        r == group_le(a.deep_view(), b.deep_view()),
{
    proof {
        reveal_strlit("");
        assert(vstd::utf8::encode_utf8(""@) =~= Seq::<u8>::empty());
    }
    let ka: &str = if a.len() == 0 {
        ""
    } else {
        a[0].as_str()
    };
    let kb: &str = if b.len() == 0 {
        ""
    } else {
        b[0].as_str()
    };
    proof {
        assert(ka.spec_bytes() == group_key(a.deep_view()));
        assert(kb.spec_bytes() == group_key(b.deep_view()));
    }
    slice_bytes_le(ka.as_bytes(), kb.as_bytes())
}

/// The index of a group no other group precedes.
fn min_group_index(v: &Vec<Vec<String>>) -> (k: usize)
    requires
        v@.len() > 0,
    ensures
        k < v@.len(),
        forall|i: int|
            0 <= i < v.deep_view().len() ==> group_le(
                v.deep_view()[k as int],
                #[trigger] v.deep_view()[i],
            ),
{
    let mut best: usize = 0;
    let mut j: usize = 1;
    proof {
        lemma_bytes_le_total(group_key(v.deep_view()[0]), group_key(v.deep_view()[0]));
    }
    while j < v.len()
        invariant
            1 <= j <= v@.len(),
            best < j,
            forall|i: int|
                0 <= i < j ==> group_le(v.deep_view()[best as int], #[trigger] v.deep_view()[i]),
        decreases v@.len() - j,
    {
        let takes_over = group_le_exec(&v[j], &v[best]);
        proof {
            assert(v[j as int].deep_view() == v.deep_view()[j as int]);
            assert(v[best as int].deep_view() == v.deep_view()[best as int]);
            if takes_over {
                assert forall|i: int|
                    0 <= i < j + 1 implies group_le(
                    v.deep_view()[j as int],
                    #[trigger] v.deep_view()[i],
                ) by {
                    if i < j {
                        lemma_bytes_le_trans(
                            group_key(v.deep_view()[j as int]),
                            group_key(v.deep_view()[best as int]),
                            group_key(v.deep_view()[i]),
                        );
                    } else {
                        lemma_bytes_le_total(
                            group_key(v.deep_view()[j as int]),
                            group_key(v.deep_view()[j as int]),
                        );
                    }
                }
            } else {
                lemma_bytes_le_total(
                    group_key(v.deep_view()[j as int]),
                    group_key(v.deep_view()[best as int]),
                );
            }
        }
        if takes_over {
            best = j;
        }
        j = j + 1;
    }
    best
}

/// The byte-wise order is antisymmetric.
pub proof fn lemma_bytes_le_antisym(a: Seq<u8>, b: Seq<u8>)
    requires
        bytes_le(a, b),
        bytes_le(b, a),
    ensures
        a == b,
    decreases a.len(),
{
    if a.len() == 0 {
        assert(b.len() == 0);
        assert(a =~= b);
    } else {
        assert(b.len() > 0);
        assert(a[0] == b[0]);
        lemma_bytes_le_antisym(a.drop_first(), b.drop_first());
        assert forall|k: int| 0 <= k < a.len() implies a[k] == b[k] by {
            if k > 0 {
                assert(a.drop_first()[k - 1] == b.drop_first()[k - 1]);
            }
        }
        assert(a =~= b);
    }
}

/// After the sort, the output is determined by the groups alone: two
/// sorted group lists that hold the same groups, each group non-empty and
/// no two groups of one list opening with the same path, are identical.
/// With the engine's groups, whose first paths are pairwise distinct, the
/// sorted output of a run is therefore reproducible however the buckets
/// were scheduled.
pub proof fn lemma_sorted_groups_unique(a: Seq<Seq<Seq<char>>>, b: Seq<Seq<Seq<char>>>)
    requires
        sorted_groups(a),
        sorted_groups(b),
        a.to_multiset() == b.to_multiset(),
        forall|i: int| 0 <= i < a.len() ==> (#[trigger] a[i]).len() >= 1,
        forall|i: int, j: int|
            0 <= i < j < a.len() ==> (#[trigger] a[i])[0] != (#[trigger] a[j])[0],
        forall|i: int, j: int|
            0 <= i < j < b.len() ==> (#[trigger] b[i])[0] != (#[trigger] b[j])[0],
    ensures
        a == b,
    decreases a.len(),
{
    broadcast use vstd::utf8::encode_utf8_decode_utf8;

    vstd::seq_lib::to_multiset_len(a);
    vstd::seq_lib::to_multiset_len(b);
    assert(a.len() == b.len());
    if a.len() == 0 {
        assert(a =~= b);
    } else {
        assert(a.contains(a[0]));
        vstd::seq_lib::to_multiset_contains(a, a[0]);
        vstd::seq_lib::to_multiset_contains(b, a[0]);
        assert(b.contains(a[0]));
        let j = choose|j: int| 0 <= j < b.len() && b[j] == a[0];
        assert(b.contains(b[0]));
        vstd::seq_lib::to_multiset_contains(b, b[0]);
        vstd::seq_lib::to_multiset_contains(a, b[0]);
        assert(a.contains(b[0]));
        let i = choose|i: int| 0 <= i < a.len() && a[i] == b[0];
        if j > 0 {
            assert(group_le(b[0], b[j]));
        }
        if i > 0 {
            assert(group_le(a[0], a[i]));
        }
        lemma_bytes_le_total(group_key(a[0]), group_key(a[0]));
        lemma_bytes_le_antisym(group_key(a[0]), group_key(b[0]));
        if j > 0 {
            // Two groups of `b` would open with the same path.
            assert(vstd::utf8::encode_utf8(b[0][0]) == vstd::utf8::encode_utf8(b[j][0]));
            assert(vstd::utf8::decode_utf8(vstd::utf8::encode_utf8(b[0][0])) == b[0][0]);
            assert(vstd::utf8::decode_utf8(vstd::utf8::encode_utf8(b[j][0])) == b[j][0]);
            assert(b[0][0] == b[j][0]);
            assert(false);
        }
        assert(a[0] == b[0]);
        let a1 = a.drop_first();
        let b1 = b.drop_first();
        assert(a.remove(0) =~= a1);
        assert(b.remove(0) =~= b1);
        vstd::seq_lib::to_multiset_remove(a, 0);
        vstd::seq_lib::to_multiset_remove(b, 0);
        assert(a1.to_multiset() == b1.to_multiset());
        assert forall|k: int, l: int|
            0 <= k < l < a1.len() implies group_le(a1[k], a1[l]) by {
            assert(a1[k] == a[k + 1]);
            assert(a1[l] == a[l + 1]);
            assert(group_le(a[k + 1], a[l + 1]));
        }
        assert forall|k: int, l: int|
            0 <= k < l < b1.len() implies group_le(b1[k], b1[l]) by {
            assert(b1[k] == b[k + 1]);
            assert(b1[l] == b[l + 1]);
            assert(group_le(b[k + 1], b[l + 1]));
        }
        assert forall|k: int| 0 <= k < a1.len() implies (#[trigger] a1[k]).len() >= 1 by {
            assert(a1[k] == a[k + 1]);
        }
        assert forall|k: int, l: int|
            0 <= k < l < a1.len() implies (#[trigger] a1[k])[0] != (#[trigger] a1[l])[0] by {
            assert(a1[k] == a[k + 1]);
            assert(a1[l] == a[l + 1]);
        }
        assert forall|k: int, l: int|
            0 <= k < l < b1.len() implies (#[trigger] b1[k])[0] != (#[trigger] b1[l])[0] by {
            assert(b1[k] == b[k + 1]);
            assert(b1[l] == b[l + 1]);
        }
        lemma_sorted_groups_unique(a1, b1);
        assert forall|k: int| 0 <= k < a.len() implies a[k] == b[k] by {
            if k > 0 {
                assert(a1[k - 1] == b1[k - 1]);
            }
        }
        assert(a =~= b);
    }
}

/// The number of paths over all groups.
pub open spec fn total_paths(gs: Seq<Seq<Seq<char>>>) -> int
    decreases gs.len(),
{
    if gs.len() == 0 {
        0int
    } else {
        total_paths(gs.drop_last()) + gs.last().len()
    }
}

/// The path count is never negative.
pub proof fn lemma_total_paths_nonneg(gs: Seq<Seq<Seq<char>>>)
    ensures
        total_paths(gs) >= 0,
    decreases gs.len(),
{
    if gs.len() > 0 {
        lemma_total_paths_nonneg(gs.drop_last());
    }
}

/// The final collection of content groups of one run.
pub struct MatchingFilesGroups {
    groups: Vec<Vec<String>>,
}

impl View for MatchingFilesGroups {
    type V = Seq<Seq<Seq<char>>>;

    closed spec fn view(&self) -> Seq<Seq<Seq<char>>> {
        self.groups.deep_view()
    }
}

impl MatchingFilesGroups {
    /// Run the content grouper over every retained bucket, in parallel, and
    /// concatenate the groups.
    pub fn from_size_groups(buckets: Vec<Vec<CandidateFile>>) -> (r: Self)
        ensures
            r@ == all_groups(buckets.deep_view()),
    {
        broadcast use Seq::group_seq_flatten;

        let ghost bs = buckets.deep_view();
        let ghost mapped = bs.map_values(|b: Seq<FileModel>| bucket_groups(b));
        let mut per_bucket = par_group_buckets(buckets);
        let mut groups: Vec<Vec<String>> = Vec::new();
        let ghost mut taken: Seq<Seq<Seq<Seq<char>>>> = Seq::empty();
        proof {
            assert(taken.flatten() =~= Seq::<Seq<Seq<char>>>::empty());
            assert(groups.deep_view() =~= taken.flatten());
        }
        while per_bucket.len() > 0
            invariant
                taken + per_bucket.deep_view() == mapped,
                groups.deep_view() == taken.flatten(),
            decreases per_bucket.len(),
        {
            let ghost pb0 = per_bucket.deep_view();
            let ghost gd0 = groups.deep_view();
            let mut one = per_bucket.remove(0);
            let ghost od = one.deep_view();
            proof {
                assert(od == pb0[0]);
                assert(per_bucket.deep_view() =~= pb0.skip(1));
                assert(taken.push(od) + per_bucket.deep_view() =~= taken + pb0);
                taken.lemma_flatten_push(od);
                assert(taken.push(od).flatten() == taken.flatten() + od);
            }
            groups.append(&mut one);
            proof {
                assert(groups.deep_view() =~= gd0 + od);
                taken = taken.push(od);
            }
        }
        proof {
            assert(per_bucket.deep_view() =~= Seq::<Seq<Seq<Seq<char>>>>::empty());
            assert(taken =~= mapped);
        }
        let r = MatchingFilesGroups { groups };
        r
    }

    /// The number of groups.
    pub fn len(&self) -> (n: usize)
        ensures
            n == self@.len(),
    {
        self.groups.len()
    }

    /// The number of files over all groups, saturating at the machine limit.
    pub fn total_files(&self) -> (n: usize)
        ensures
            total_paths(self@) <= usize::MAX ==> n == total_paths(self@),
            total_paths(self@) > usize::MAX ==> n == usize::MAX,
    {
        let ghost gs = self.groups.deep_view();
        let mut acc: usize = 0;
        let mut i: usize = 0;
        while i < self.groups.len()
            invariant
                i <= gs.len(),
                gs == self.groups.deep_view(),
                total_paths(gs.take(i as int)) <= usize::MAX ==> acc == total_paths(
                    gs.take(i as int),
                ),
                total_paths(gs.take(i as int)) > usize::MAX ==> acc == usize::MAX,
            decreases gs.len() - i,
        {
            let glen = self.groups[i].len();
            proof {
                assert(gs.take(i + 1).drop_last() =~= gs.take(i as int));
                assert(gs.take(i + 1).last() == gs[i as int]);
                assert(self.groups[i as int].deep_view() == gs[i as int]);
                lemma_total_paths_nonneg(gs.take(i as int));
            }
            if usize::MAX - acc >= glen {
                acc = acc + glen;
            } else {
                acc = usize::MAX;
            }
            i = i + 1;
        }
        proof {
            assert(gs.take(gs.len() as int) =~= gs);
        }
        acc
    }

    /// The groups, each an ordered list of path strings, for serialization
    /// or interactive selection.
    pub fn as_string_iters(&self) -> (r: &Vec<Vec<String>>)
        ensures
            r.deep_view() == self@,
    {
        &self.groups
    }

    /// Order the groups by their first paths, so that the output of a run
    /// does not depend on how the buckets were scheduled.
    pub fn sort(&mut self)
        ensures
            final(self)@.to_multiset() == old(self)@.to_multiset(),
            sorted_groups(final(self)@),
    {
        broadcast use vstd::seq_lib::group_to_multiset_ensures;

        let ghost gs0 = self.groups.deep_view();
        let mut rest: Vec<Vec<String>> = Vec::new();
        core::mem::swap(&mut self.groups, &mut rest);
        let mut sorted: Vec<Vec<String>> = Vec::new();
        proof {
            assert(rest.deep_view() == gs0);
            assert(sorted.deep_view() =~= Seq::<Seq<Seq<char>>>::empty());
            assert(sorted.deep_view().to_multiset().add(rest.deep_view().to_multiset())
                =~= gs0.to_multiset());
        }
        while rest.len() > 0
            invariant
                sorted.deep_view().to_multiset().add(rest.deep_view().to_multiset())
                    == gs0.to_multiset(),
                sorted_groups(sorted.deep_view()),
                forall|i: int, j: int|
                    0 <= i < sorted.deep_view().len() && 0 <= j < rest.deep_view().len()
                        ==> group_le(
                        #[trigger] sorted.deep_view()[i],
                        #[trigger] rest.deep_view()[j],
                    ),
            decreases rest.len(),
        {
            let k = min_group_index(&rest);
            let ghost rd = rest.deep_view();
            let ghost sd = sorted.deep_view();
            let g = rest.remove(k);
            proof {
                assert(g.deep_view() == rd[k as int]);
                assert(rest.deep_view() =~= rd.remove(k as int));
                vstd::seq_lib::to_multiset_remove(rd, k as int);
                assert(rd.remove(k as int).to_multiset() == rd.to_multiset().remove(
                    rd[k as int],
                ));
            }
            sorted.push(g);
            proof {
                assert(sorted.deep_view() =~= sd.push(rd[k as int]));
                vstd::seq_lib::to_multiset_build(sd, rd[k as int]);
                assert(sd.push(rd[k as int]).to_multiset() == sd.to_multiset().insert(
                    rd[k as int],
                ));
                broadcast use vstd::multiset::group_multiset_axioms;

                vstd::seq_lib::to_multiset_contains(rd, rd[k as int]);
                assert(rd.contains(rd[k as int]));
                assert(rd.to_multiset().count(rd[k as int]) > 0);
                assert(sorted.deep_view().to_multiset().add(rest.deep_view().to_multiset())
                    =~= gs0.to_multiset());
                assert forall|i: int, j: int|
                    0 <= i < j < sorted.deep_view().len() implies group_le(
                    sorted.deep_view()[i],
                    sorted.deep_view()[j],
                ) by {
                    if j == sd.len() {
                        assert(sorted.deep_view()[i] == sd[i]);
                        assert(sorted.deep_view()[j] == rd[k as int]);
                    }
                }
                assert forall|i: int, j: int|
                    0 <= i < sorted.deep_view().len() && 0 <= j < rest.deep_view().len()
                        implies group_le(
                    #[trigger] sorted.deep_view()[i],
                    #[trigger] rest.deep_view()[j],
                ) by {
                    let jj: int = if j < k { j } else { j + 1 };
                    assert(rest.deep_view()[j] == rd[jj]);
                    if i < sd.len() {
                        assert(sorted.deep_view()[i] == sd[i]);
                    } else {
                        assert(sorted.deep_view()[i] == rd[k as int]);
                    }
                }
            }
        }
        self.groups = sorted;
        proof {
            assert(rest.deep_view().to_multiset() =~= Multiset::<Seq<Seq<char>>>::empty());
            assert(self.groups.deep_view().to_multiset() =~= gs0.to_multiset());
        }
    }
}

} // verus!
