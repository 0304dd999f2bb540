//! The dimension bookkeeping of the venue sheaf: where each stalk sits in the
//! concatenated stalk space, and the (simplified) cohomology dimensions.

use vstd::prelude::*;

verus! {

/// Sum of the first `i` entries of `dims`.
pub open spec fn prefix_sum(dims: Seq<usize>, i: int) -> int
    decreases i,
{
    if i <= 0 {
        0
    } else {
        prefix_sum(dims, i - 1) + dims[i - 1]
    }
}

/// Sum of all entries of `dims`.
pub open spec fn total(dims: Seq<usize>) -> int {
    prefix_sum(dims, dims.len() as int)
}

/// The sum of no dimensions is 0.
pub proof fn lemma_total_empty()
    ensures
        total(Seq::<usize>::empty()) == 0,
{
}

/// Adding one more dimension adds it to the sum.
pub proof fn lemma_total_push(dims: Seq<usize>, d: usize)
    ensures
        total(dims.push(d)) == total(dims) + d,
{
    lemma_prefix_sum_prefix(dims.push(d), dims, dims.len() as int);
}

/// Prefix sums only see the prefix.
proof fn lemma_prefix_sum_prefix(a: Seq<usize>, b: Seq<usize>, i: int)
    requires
        0 <= i <= a.len(),
        i <= b.len(),
        forall|k: int| 0 <= k < i ==> a[k] == b[k],
    ensures
        prefix_sum(a, i) == prefix_sum(b, i),
    decreases i,
{
    if i > 0 {
        lemma_prefix_sum_prefix(a, b, i - 1);
    }
}

/// Prefix sums never decrease.
pub proof fn lemma_prefix_sum_monotone(dims: Seq<usize>, i: int, j: int)
    requires
        0 <= i <= j <= dims.len(),
    ensures
        0 <= prefix_sum(dims, i) <= prefix_sum(dims, j),
    decreases j,
{
    if i < j {
        lemma_prefix_sum_monotone(dims, i, j - 1);
    } else if j > 0 {
        lemma_prefix_sum_monotone(dims, j - 1, j - 1);
    }
}

/// Offsets of the stalks in the concatenated stalk space: `offsets[0] == 0`
/// and `offsets[i + 1] == offsets[i] + dims[i]`, so the last entry is the
/// total dimension.
pub fn stalk_offsets(dims: &Vec<usize>) -> (offsets: Vec<usize>)
    requires
        total(dims@) <= usize::MAX,
    ensures
        offsets.len() == dims.len() + 1,
        forall|i: int| 0 <= i <= dims.len() ==> #[trigger] offsets[i] as int == prefix_sum(dims@, i),
        offsets[0] == 0,
        forall|i: int| 0 <= i < dims.len() ==> #[trigger] offsets[i + 1] == offsets[i] + dims[i],
{
    let mut offsets: Vec<usize> = Vec::new();
    offsets.push(0);
    let mut i: usize = 0;
    while i < dims.len()
        invariant
            i <= dims.len(),
            total(dims@) <= usize::MAX,
            offsets.len() == i + 1,
            forall|j: int| 0 <= j <= i ==> #[trigger] offsets[j] as int == prefix_sum(dims@, j),
        decreases dims.len() - i,
    {
        proof {
            lemma_prefix_sum_monotone(dims@, i as int + 1, dims.len() as int);
        }
        let next = offsets[i] + dims[i];
        offsets.push(next);
        i = i + 1;
    }
    offsets
}

/// Dimension of H⁰: the stalk dimension of the first venue when the sheaf is
/// consistent, and 0 when it is not or when there is no venue.
pub open spec fn h0_dimension(consistent: bool, stalk_dims: Seq<usize>) -> int {
    if consistent && stalk_dims.len() > 0 {
        stalk_dims[0] as int
    } else {
        0
    }
}

/// Dimension of H¹: the total target dimension of the restriction maps less
/// the dimension of H⁰, floored at 0.
pub open spec fn h1_dimension(consistent: bool, stalk_dims: Seq<usize>, target_dims: Seq<usize>) -> int {
    if total(target_dims) >= h0_dimension(consistent, stalk_dims) {
        total(target_dims) - h0_dimension(consistent, stalk_dims)
    } else {
        0
    }
}

/// The (simplified) cohomology dimensions `(dim H⁰, dim H¹)` of a sheaf whose
/// stalks have dimensions `stalk_dims` and whose restriction maps have target
/// dimensions `target_dims`; `consistent` says whether the stalk data agree
/// along every restriction map.
pub fn cohomology_dimensions(consistent: bool, stalk_dims: &Vec<usize>, target_dims: &Vec<usize>) -> (dims: (
    usize,
    usize,
))
    requires
        total(target_dims@) <= usize::MAX,
    ensures
        dims.0 as int == h0_dimension(consistent, stalk_dims@),
        dims.1 as int == h1_dimension(consistent, stalk_dims@, target_dims@),
        // dim H⁰: the first stalk's dimension when consistent, else 0.
        consistent && stalk_dims.len() > 0 ==> dims.0 == stalk_dims[0],
        !consistent || stalk_dims.len() == 0 ==> dims.0 == 0,
        // dim H¹ = max(0, Σ target dimensions - dim H⁰).
        total(target_dims@) <= dims.0 ==> dims.1 == 0,
        total(target_dims@) > dims.0 ==> dims.1 + dims.0 == total(target_dims@),
{
    let h0: usize = if consistent && stalk_dims.len() > 0 {
        stalk_dims[0]
    } else {
        0
    };
    let mut sum: usize = 0;
    let mut i: usize = 0;
    while i < target_dims.len()
        invariant
            i <= target_dims.len(),
            total(target_dims@) <= usize::MAX,
            sum as int == prefix_sum(target_dims@, i as int),
        decreases target_dims.len() - i,
    {
        proof {
            lemma_prefix_sum_monotone(target_dims@, i as int + 1, target_dims.len() as int);
        }
        sum = sum + target_dims[i];
        i = i + 1;
    }
    let h1: usize = if sum >= h0 {
        sum - h0
    } else {
        0
    };
    (h0, h1)
}

} // verus!
