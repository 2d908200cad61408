//! The arithmetic behind disk-usage reporting: summing the sizes of the
//! files a walk yielded, saturating at the machine limit.

use vstd::prelude::*;

verus! {

/// The total of a list of sizes.
pub open spec fn spec_sum(sizes: Seq<u64>) -> int
    decreases sizes.len(),
{
    if sizes.len() == 0 {
        0int
    } else {
        spec_sum(sizes.drop_last()) + sizes.last()
    }
}

/// The total is never negative.
pub proof fn lemma_spec_sum_nonneg(sizes: Seq<u64>)
    ensures
        spec_sum(sizes) >= 0,
    decreases sizes.len(),
{
    if sizes.len() > 0 {
        lemma_spec_sum_nonneg(sizes.drop_last());
    }
}

/// Sum the sizes of the files under a tree, saturating at `u64::MAX`.
pub fn sum_sizes(sizes: &Vec<u64>) -> (total: u64)
    ensures
        spec_sum(sizes@) <= u64::MAX ==> total == spec_sum(sizes@),
        spec_sum(sizes@) > u64::MAX ==> total == u64::MAX,
{
    let mut acc: u64 = 0;
    let mut i: usize = 0;
    while i < sizes.len()
        invariant
            i <= sizes@.len(),
            spec_sum(sizes@.take(i as int)) <= u64::MAX ==> acc == spec_sum(sizes@.take(i as int)),
            spec_sum(sizes@.take(i as int)) > u64::MAX ==> acc == u64::MAX,
        decreases sizes@.len() - i,
    {
        proof {
            assert(sizes@.take(i + 1).drop_last() =~= sizes@.take(i as int));
            assert(sizes@.take(i + 1).last() == sizes@[i as int]);
            lemma_spec_sum_nonneg(sizes@.take(i as int));
        }
        let s = sizes[i];
        if u64::MAX - acc >= s {
            acc = acc + s;
        } else {
            acc = u64::MAX;
        }
        i = i + 1;
    }
    proof {
        assert(sizes@.take(sizes@.len() as int) =~= sizes@);
    }
    acc
}

} // verus!
