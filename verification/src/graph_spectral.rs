//! The integer half of spectral clustering on a cellular graph: once the
//! vertices have been ranked (by degree, as a proxy for the Fiedler vector),
//! consecutive runs of equal size form the clusters.

use vstd::prelude::*;

verus! {

/// `order` lists each of `0..order.len()` exactly once.
pub open spec fn is_permutation(order: Seq<usize>) -> bool {
    &&& forall|r: int| 0 <= r < order.len() ==> (#[trigger] order[r] as int) < order.len()
    &&& forall|r1: int, r2: int|
        0 <= r1 < r2 < order.len() ==> #[trigger] order[r1] != #[trigger] order[r2]
}

/// Size of each cluster when `n` vertices are split into `k` clusters: `⌈n / k⌉`.
pub open spec fn cluster_size(n: int, k: int) -> int {
    (n + k - 1) / k
}

/// The cluster of the vertex of rank `r` among `n` vertices split into `k`
/// clusters: runs of `⌈n / k⌉` ranks, the last cluster taking any overflow.
/// With at most one cluster, everything is in cluster 0.
pub open spec fn cluster_of_rank(r: int, n: int, k: int) -> int {
    if k <= 1 || n == 0 {
        0
    } else if r / cluster_size(n, k) < k - 1 {
        r / cluster_size(n, k)
    } else {
        k - 1
    }
}

/// `s` is the ceiling of n / k: the least s with s · k >= n.
pub open spec fn is_ceiling(s: int, n: int, k: int) -> bool {
    (s - 1) * k < n && n <= s * k
}

/// The cluster size is the ceiling of n / k.
pub proof fn lemma_cluster_size_is_ceiling(n: int, k: int, s: int)
    requires
        k > 0,
        is_ceiling(s, n, k),
    ensures
        cluster_size(n, k) == s,
{
    assert((s - 1) * k == s * k - k) by (nonlinear_arith);
    vstd::arithmetic::div_mod::lemma_fundamental_div_mod_converse(n + k - 1, k, s, n + k - 1 - s * k);
}

/// Cluster labels grow with the rank.
pub proof fn lemma_cluster_of_rank_monotone(r1: int, r2: int, n: int, k: int)
    requires
        0 <= r1 <= r2,
        0 <= n,
    ensures
        cluster_of_rank(r1, n, k) <= cluster_of_rank(r2, n, k),
{
    if k > 1 && n > 0 {
        assert(cluster_size(n, k) >= 1) by {
            vstd::arithmetic::div_mod::lemma_div_is_ordered(k, n + k - 1, k);
            vstd::arithmetic::div_mod::lemma_div_by_self(k);
        }
        vstd::arithmetic::div_mod::lemma_div_is_ordered(r1, r2, cluster_size(n, k));
    }
}

/// Assign each vertex its cluster from its rank: the vertex `order[r]` goes to
/// cluster `min(r / ⌈n / k⌉, k - 1)`, where `n` is the number of vertices.
/// With `k <= 1` (or no vertices) every vertex is in cluster 0.
pub fn assign_clusters(order: &Vec<usize>, k: usize) -> (clusters: Vec<usize>)
    requires
        is_permutation(order@),
        k <= 1 || order.len() + k <= usize::MAX,
    ensures
        clusters.len() == order.len(),
        forall|r: int|
            0 <= r < order.len() ==> clusters[#[trigger] order[r] as int] as int
                == cluster_of_rank(r, order.len() as int, k as int),
        forall|i: int| 0 <= i < clusters.len() ==> (#[trigger] clusters[i] as int) < if k <= 1 {
            1
        } else {
            k as int
        },
        // With s the ceiling of n / k, rank r goes to cluster min(r / s, k - 1): every
        // cluster but the last holds exactly s consecutive ranks.
        forall|s: int, r: int|
            #![trigger is_ceiling(s, order.len() as int, k as int), clusters[order[r] as int]]
            k > 1 && is_ceiling(s, order.len() as int, k as int) && 0 <= r < order.len() ==> clusters[order[r] as int]
                as int == if r / s < k - 1 {
                r / s
            } else {
                k - 1
            },
        k <= 1 ==> forall|i: int| 0 <= i < clusters.len() ==> #[trigger] clusters[i] == 0,
{
    let n = order.len();
    let mut clusters: Vec<usize> = Vec::new();
    let mut i: usize = 0;
    while i < n
        invariant
            i <= n,
            clusters.len() == i,
            forall|j: int| 0 <= j < i ==> clusters[j] == 0,
        decreases n - i,
    {
        clusters.push(0);
        i = i + 1;
    }
    if k <= 1 || n == 0 {
        return clusters;
    }
    let size = (n + k - 1) / k;
    assert(size >= 1) by {
        vstd::arithmetic::div_mod::lemma_div_is_ordered(k as int, (n + k - 1) as int, k as int);
        vstd::arithmetic::div_mod::lemma_div_by_self(k as int);
    }
    let mut r: usize = 0;
    while r < n
        invariant
            n == order.len(),
            is_permutation(order@),
            k > 1,
            n > 0,
            size as int == cluster_size(n as int, k as int),
            size >= 1,
            r <= n,
            clusters.len() == n,
            forall|q: int|
                0 <= q < r ==> clusters[#[trigger] order[q] as int] as int == cluster_of_rank(
                    q,
                    n as int,
                    k as int,
                ),
            forall|j: int| 0 <= j < n ==> (#[trigger] clusters[j] as int) < k,
        decreases n - r,
    {
        let idx = order[r];
        let block = r / size;
        let label = if block < k - 1 {
            block
        } else {
            k - 1
        };
        clusters.set(idx, label);
        assert forall|q: int| 0 <= q < r + 1 implies clusters[#[trigger] order[q] as int] as int
            == cluster_of_rank(q, n as int, k as int) by {
            if q < r {
                assert(order[q] != order[r as int]);
            }
        }
        r = r + 1;
    }
    proof {
        assert forall|s: int, r: int|
            #![trigger is_ceiling(s, n as int, k as int), clusters[order[r] as int]]
            k > 1 && is_ceiling(s, n as int, k as int) && 0 <= r < n implies cluster_of_rank(r, n as int, k as int)
                == if r / s < k - 1 {
                r / s
            } else {
                k - 1
            } by {
            lemma_cluster_size_is_ceiling(n as int, k as int, s);
        }
    }
    clusters
}

/// The clusters follow the ranking: a vertex ranked no higher than another
/// never lands in a later cluster.
pub proof fn lemma_clusters_follow_ranking(order: Seq<usize>, clusters: Seq<usize>, k: int, r1: int, r2: int)
    requires
        is_permutation(order),
        clusters.len() == order.len(),
        forall|r: int|
            0 <= r < order.len() ==> clusters[#[trigger] order[r] as int] as int
                == cluster_of_rank(r, order.len() as int, k),
        0 <= r1 <= r2 < order.len(),
    ensures
        clusters[order[r1] as int] <= clusters[order[r2] as int],
{
    lemma_cluster_of_rank_monotone(r1, r2, order.len() as int, k);
}

} // verus!
