//! Connected components of the graph formed by the vertices and edges of a
//! pattern complex.

use vstd::prelude::*;

verus! {

/// `u` and `v` are the two ends of some edge, in either order.
pub open spec fn adjacent(edges: Seq<(usize, usize)>, u: int, v: int) -> bool {
    exists|e: int|
        0 <= e < edges.len() && ((#[trigger] edges[e].0 == u && edges[e].1 == v) || (edges[e].0 == v
            && edges[e].1 == u))
}

/// Step `k` of `path` follows an edge.
pub open spec fn step(edges: Seq<(usize, usize)>, path: Seq<int>, k: int) -> bool {
    adjacent(edges, path[k], path[k + 1])
}

/// `path` is a walk from `u` to `v`.
pub open spec fn is_walk(edges: Seq<(usize, usize)>, path: Seq<int>, u: int, v: int) -> bool {
    &&& path.len() > 0
    &&& path[0] == u
    &&& path.last() == v
    &&& forall|k: int| 0 <= k < path.len() - 1 ==> #[trigger] step(edges, path, k)
}

/// `u` and `v` lie in the same connected component: a walk joins them.
pub open spec fn connected(edges: Seq<(usize, usize)>, u: int, v: int) -> bool {
    exists|path: Seq<int>| #[trigger] is_walk(edges, path, u, v)
}

/// `v` is the smallest vertex of its connected component.
pub open spec fn is_component_root(edges: Seq<(usize, usize)>, v: int) -> bool {
    forall|u: int| 0 <= u < v ==> !#[trigger] connected(edges, u, v)
}

/// The number of connected components that contain one of the vertices 0 .. n:
/// the number of those vertices that are the smallest of their component.
pub open spec fn component_count(edges: Seq<(usize, usize)>, n: nat) -> nat
    decreases n,
{
    if n == 0 {
        0
    } else {
        component_count(edges, (n - 1) as nat) + if is_component_root(edges, n - 1) {
            1nat
        } else {
            0nat
        }
    }
}

/// Every vertex is connected to itself.
pub proof fn lemma_connected_refl(edges: Seq<(usize, usize)>, u: int)
    ensures
        connected(edges, u, u),
{
    assert(is_walk(edges, seq![u], u, u));
}

/// The two ends of an edge are connected.
pub proof fn lemma_connected_edge(edges: Seq<(usize, usize)>, e: int)
    requires
        0 <= e < edges.len(),
    ensures
        connected(edges, edges[e].0 as int, edges[e].1 as int),
{
    let path = seq![edges[e].0 as int, edges[e].1 as int];
    assert(step(edges, path, 0));
    assert(is_walk(edges, path, edges[e].0 as int, edges[e].1 as int));
}

/// Connectivity is symmetric.
pub proof fn lemma_connected_symm(edges: Seq<(usize, usize)>, u: int, v: int)
    requires
        connected(edges, u, v),
    ensures
        connected(edges, v, u),
{
    let path = choose|path: Seq<int>| #[trigger] is_walk(edges, path, u, v);
    let l = path.len();
    let back = Seq::new(l, |i: int| path[l - 1 - i]);
    assert forall|k: int| 0 <= k < back.len() - 1 implies #[trigger] step(edges, back, k) by {
        assert(step(edges, path, l - 2 - k));
        let e = choose|e: int|
            0 <= e < edges.len() && ((#[trigger] edges[e].0 == path[l - 2 - k] && edges[e].1 == path[l - 1 - k])
                || (edges[e].0 == path[l - 1 - k] && edges[e].1 == path[l - 2 - k]));
        assert(edges[e].0 == edges[e].0);
    }
    assert(is_walk(edges, back, v, u));
}

/// Connectivity is transitive.
pub proof fn lemma_connected_trans(edges: Seq<(usize, usize)>, u: int, v: int, w: int)
    requires
        connected(edges, u, v),
        connected(edges, v, w),
    ensures
        connected(edges, u, w),
{
    let p1 = choose|path: Seq<int>| #[trigger] is_walk(edges, path, u, v);
    let p2 = choose|path: Seq<int>| #[trigger] is_walk(edges, path, v, w);
    let joined = p1 + p2.drop_first();
    assert forall|k: int| 0 <= k < joined.len() - 1 implies #[trigger] step(edges, joined, k) by {
        if k < p1.len() - 1 {
            assert(step(edges, p1, k));
        } else {
            assert(step(edges, p2, k - (p1.len() - 1)));
        }
    }
    assert(is_walk(edges, joined, u, w));
}

/// Every vertex is connected to the smallest vertex of its component.
pub proof fn lemma_root_exists(edges: Seq<(usize, usize)>, u: int)
    requires
        0 <= u,
    ensures
        exists|r: int| 0 <= r <= u && is_component_root(edges, r) && #[trigger] connected(edges, r, u),
    decreases u,
{
    lemma_connected_refl(edges, u);
    if !is_component_root(edges, u) {
        let w = choose|w: int| 0 <= w < u && #[trigger] connected(edges, w, u);
        lemma_root_exists(edges, w);
        let r = choose|r: int| 0 <= r <= w && is_component_root(edges, r) && #[trigger] connected(edges, r, w);
        lemma_connected_trans(edges, r, w, u);
    }
}

/// A component has one smallest vertex.
pub proof fn lemma_roots_unique(edges: Seq<(usize, usize)>, r1: int, r2: int)
    requires
        0 <= r1,
        0 <= r2,
        is_component_root(edges, r1),
        is_component_root(edges, r2),
        connected(edges, r1, r2),
    ensures
        r1 == r2,
{
    lemma_connected_symm(edges, r1, r2);
    if r1 < r2 {
        assert(!connected(edges, r1, r2));
    } else if r2 < r1 {
        assert(!connected(edges, r2, r1));
    }
}

/// The vertices among 0 .. n that are not the smallest of their component, in
/// increasing order.
pub open spec fn non_roots(edges: Seq<(usize, usize)>, n: nat) -> Seq<int>
    decreases n,
{
    if n == 0 {
        Seq::empty()
    } else if is_component_root(edges, n - 1) {
        non_roots(edges, (n - 1) as nat)
    } else {
        non_roots(edges, (n - 1) as nat).push(n - 1)
    }
}

/// `non_roots` lists, in increasing order, exactly the vertices below n that are
/// not roots, and there are n less the number of components of them.
pub proof fn lemma_non_roots(edges: Seq<(usize, usize)>, n: nat)
    ensures
        non_roots(edges, n).len() == n - component_count(edges, n),
        forall|k: int|
            0 <= k < non_roots(edges, n).len() ==> 0 <= #[trigger] non_roots(edges, n)[k] < n
                && !is_component_root(edges, non_roots(edges, n)[k]),
        forall|k1: int, k2: int|
            0 <= k1 < k2 < non_roots(edges, n).len() ==> #[trigger] non_roots(edges, n)[k1]
                < #[trigger] non_roots(edges, n)[k2],
        forall|u: int|
            0 <= u < n && !is_component_root(edges, u) ==> exists|k: int|
                0 <= k < non_roots(edges, n).len() && #[trigger] non_roots(edges, n)[k] == u,
    decreases n,
{
    if n > 0 {
        lemma_non_roots(edges, (n - 1) as nat);
        let prev = non_roots(edges, (n - 1) as nat);
        if !is_component_root(edges, n - 1) {
            let cur = non_roots(edges, n);
            assert(cur == prev.push(n - 1));
            assert forall|u: int| 0 <= u < n && !is_component_root(edges, u) implies exists|k: int|
                0 <= k < cur.len() && #[trigger] cur[k] == u by {
                if u == n - 1 {
                    assert(cur[prev.len() as int] == u);
                } else {
                    let k = choose|k: int| 0 <= k < prev.len() && #[trigger] prev[k] == u;
                    assert(cur[k] == u);
                }
            }
        } else {
            let cur = non_roots(edges, n);
            assert(cur == prev);
            assert forall|u: int| 0 <= u < n && !is_component_root(edges, u) implies exists|k: int|
                0 <= k < cur.len() && #[trigger] cur[k] == u by {
                assert(u != n - 1);
                let k = choose|k: int| 0 <= k < prev.len() && #[trigger] prev[k] == u;
                assert(cur[k] == u);
            }
        }
    }
}

} // verus!
