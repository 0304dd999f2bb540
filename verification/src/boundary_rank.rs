//! Ranks of the boundary matrices. For a loop-free graph, the rows of ∂₁ of the
//! vertices that are not the smallest of their connected component form a basis
//! of its row space, so rank ∂₁ is the number of vertices less the number of
//! components. When every triangle is filled in by its edges, ∂₁ ∂₂ = 0 and so
//! rank ∂₁ + rank ∂₂ is at most the number of edges.

use vstd::prelude::*;
use vstd::arithmetic::div_mod::*;
use vstd::arithmetic::mul::*;
use crate::connectivity::{
    component_count, connected, is_component_root, is_walk, lemma_connected_edge,
    lemma_connected_refl, lemma_connected_symm, lemma_connected_trans, lemma_non_roots,
    lemma_root_exists, lemma_roots_unique, non_roots, step,
};
use crate::row_reduction::{
    comb_terms, in_row_space, is_residue_matrix, is_row_basis, lemma_sum_update, lemma_sum_zeros,
    lemma_unit_comb, lin_comb, modp, reduce_rows, row_space_dimension_is, sum,
    unit_vector, zero_vector, RANK_MODULUS,
};
use crate::row_space::{lemma_comb_compose, mix};
use crate::topology_homology::{
    boundary_1_entry, boundary_1_matrix, boundary_2_entry, boundary_2_matrix, edge_hit, last_index_of,
    ordered_pair,
};

verus! {

/// Every edge joins two distinct vertices among 0 .. n.
pub open spec fn simple_edges(n: nat, edges: Seq<(usize, usize)>) -> bool {
    forall|e: int|
        0 <= e < edges.len() ==> (#[trigger] edges[e]).0 < n && edges[e].1 < n && edges[e].0 != edges[e].1
}

/// ∂₁ reduced over the field has residue entries.
proof fn lemma_boundary_residues(n: nat, edges: Seq<(usize, usize)>)
    ensures
        is_residue_matrix(reduce_rows(boundary_1_matrix(n, edges)), edges.len()),
        reduce_rows(boundary_1_matrix(n, edges)).len() == n,
{
}

/// Entry e of the combination Σ_u D[u] · ∂₁[u] is D[j] - D[i] for the edge (i, j).
proof fn lemma_boundary_column(n: nat, edges: Seq<(usize, usize)>, d: Seq<int>, e: int)
    requires
        simple_edges(n, edges),
        d.len() == n,
        0 <= e < edges.len(),
    ensures
        lin_comb(reduce_rows(boundary_1_matrix(n, edges)), d, edges.len())[e] == modp(
            d[edges[e].1 as int] - d[edges[e].0 as int],
        ),
{
    let p = RANK_MODULUS as int;
    let r = reduce_rows(boundary_1_matrix(n, edges));
    let i = edges[e].0 as int;
    let j = edges[e].1 as int;
    let terms = comb_terms(r, d, e);
    let zeros = Seq::new(n, |u: int| 0int);
    assert(modp(-1) == p - 1);
    assert(modp(1) == 1);
    assert(modp(0) == 0);
    lemma_mul_basics(d[j]);
    assert forall|u: int| 0 <= u < n implies #[trigger] terms[u] == zeros.update(i, d[i] * (p - 1)).update(
        j,
        d[j],
    )[u] by {
        assert(r[u][e] == modp(boundary_1_entry(edges[e], u)));
        lemma_mul_basics(d[u]);
    }
    assert(terms =~= zeros.update(i, d[i] * (p - 1)).update(j, d[j]));
    lemma_sum_zeros(zeros);
    lemma_sum_update(zeros, i, d[i] * (p - 1));
    lemma_sum_update(zeros.update(i, d[i] * (p - 1)), j, d[j]);
    assert(d[i] * (p - 1) == p * d[i] - d[i]) by (nonlinear_arith);
    lemma_mod_multiples_vanish(d[i], d[j] - d[i], p);
    assert(d[i] * (p - 1) + d[j] == p * d[i] + (d[j] - d[i]));
}

/// A coefficient vector that agrees (over the field) at the two ends of every edge
/// agrees along every walk.
proof fn lemma_constant_along_walk(edges: Seq<(usize, usize)>, d: Seq<int>, path: Seq<int>, u: int, v: int)
    requires
        forall|e: int|
            0 <= e < edges.len() ==> modp(d[(#[trigger] edges[e]).1 as int] - d[edges[e].0 as int]) == 0,
        is_walk(edges, path, u, v),
    ensures
        modp(d[u]) == modp(d[v]),
    decreases path.len(),
{
    let p = RANK_MODULUS as int;
    if path.len() > 1 {
        let front = path.drop_last();
        let w = front.last();
        assert forall|k: int| 0 <= k < front.len() - 1 implies #[trigger] step(edges, front, k) by {
            assert(step(edges, path, k));
        }
        assert(is_walk(edges, front, u, w));
        lemma_constant_along_walk(edges, d, front, u, w);
        assert(step(edges, path, path.len() - 2));
        let e = choose|e: int|
            0 <= e < edges.len() && ((#[trigger] edges[e].0 == w && edges[e].1 == v) || (edges[e].0 == v
                && edges[e].1 == w));
        assert(modp(d[edges[e].1 as int] - d[edges[e].0 as int]) == 0);
        lemma_sub_mod_noop(d[edges[e].1 as int], d[edges[e].0 as int], p);
        assert(modp(d[w]) == modp(d[v]));
    }
}

/// Every triangle lists three increasing vertices, and each of its three sides is
/// an edge of the complex.
pub open spec fn filled_triangles(edges: Seq<(usize, usize)>, triangles: Seq<(usize, usize, usize)>) -> bool {
    forall|t: int| 0 <= t < triangles.len() ==> {
        &&& (#[trigger] triangles[t]).0 < triangles[t].1
        &&& triangles[t].1 < triangles[t].2
        &&& last_index_of(edges, (triangles[t].0, triangles[t].1)) is Some
        &&& last_index_of(edges, (triangles[t].0, triangles[t].2)) is Some
        &&& last_index_of(edges, (triangles[t].1, triangles[t].2)) is Some
    }
}

/// The last index of a pair holds that pair.
pub(crate) proof fn lemma_last_index_of(edges: Seq<(usize, usize)>, pair: (usize, usize))
    ensures
        last_index_of(edges, pair) matches Some(r) ==> 0 <= r < edges.len() && edges[r] == pair,
    decreases edges.len(),
{
    if edges.len() > 0 && edges.last() != pair {
        lemma_last_index_of(edges.drop_last(), pair);
    }
}

/// Entry (v, t) of the integer product ∂₁ ∂₂.
pub open spec fn boundary_composite_entry(
    n: nat,
    edges: Seq<(usize, usize)>,
    triangles: Seq<(usize, usize, usize)>,
    v: int,
    t: int,
) -> int {
    sum(
        Seq::new(
            edges.len(),
            |e: int| boundary_1_matrix(n, edges)[v][e] * boundary_2_matrix(edges, triangles)[e][t],
        ),
    )
}

/// ∂₁ ∂₂ = 0 over the integers when the triangles are filled: the boundary of a
/// triangle's boundary is empty.
pub proof fn lemma_boundary_composite_zero(
    n: nat,
    edges: Seq<(usize, usize)>,
    triangles: Seq<(usize, usize, usize)>,
    v: int,
    t: int,
)
    requires
        filled_triangles(edges, triangles),
        0 <= v < n,
        0 <= t < triangles.len(),
    ensures
        boundary_composite_entry(n, edges, triangles, v, t) == 0,
{
    let tri = triangles[t];
    let (a, b, c) = tri;
    lemma_last_index_of(edges, (a, b));
    lemma_last_index_of(edges, (a, c));
    lemma_last_index_of(edges, (b, c));
    let rab = last_index_of(edges, (a, b))->0;
    let rac = last_index_of(edges, (a, c))->0;
    let rbc = last_index_of(edges, (b, c))->0;
    assert(ordered_pair(a, b) == (a, b));
    assert(ordered_pair(a, c) == (a, c));
    assert(ordered_pair(b, c) == (b, c));
    let raw = Seq::new(
        edges.len(),
        |e: int| boundary_1_matrix(n, edges)[v][e] * boundary_2_matrix(edges, triangles)[e][t],
    );
    let zeros = Seq::new(edges.len(), |e: int| 0int);
    let xab = boundary_1_entry((a, b), v);
    let xac = boundary_1_entry((a, c), v);
    let xbc = boundary_1_entry((b, c), v);
    let target = zeros.update(rab, xab).update(rac, -xac).update(rbc, xbc);
    assert forall|e: int| 0 <= e < edges.len() implies #[trigger] raw[e] == target[e] by {
        assert(raw[e] == boundary_1_entry(edges[e], v) * boundary_2_entry(edges, tri, e));
        lemma_mul_basics(boundary_1_entry(edges[e], v));
        assert(boundary_2_entry(edges, tri, e) == edge_hit(edges, (a, b), e) - edge_hit(edges, (a, c), e)
            + edge_hit(edges, (b, c), e));
        if e == rab {
            assert(edges[e] == (a, b));
        } else if e == rac {
            assert(edges[e] == (a, c));
        } else if e == rbc {
            assert(edges[e] == (b, c));
        }
        assert(boundary_1_entry(edges[e], v) * -1 == -boundary_1_entry(edges[e], v));
    }
    assert(raw =~= target);
    lemma_sum_zeros(zeros);
    lemma_sum_update(zeros, rab, xab);
    lemma_sum_update(zeros.update(rab, xab), rac, -xac);
    lemma_sum_update(zeros.update(rab, xab).update(rac, -xac), rbc, xbc);
    assert(xab - xac + xbc == 0);
}

/// ∂₁ ∂₂ = 0 over the field: every row of ∂₁, as coefficients on the rows of ∂₂,
/// gives zero when the triangles are filled.
pub proof fn lemma_boundary_composite(n: nat, edges: Seq<(usize, usize)>, triangles: Seq<(usize, usize, usize)>, v: int)
    requires
        filled_triangles(edges, triangles),
        0 <= v < n,
    ensures
        lin_comb(
            reduce_rows(boundary_2_matrix(edges, triangles)),
            reduce_rows(boundary_1_matrix(n, edges))[v],
            triangles.len(),
        ) == zero_vector(triangles.len()),
{
    let p = RANK_MODULUS as int;
    let nm = reduce_rows(boundary_2_matrix(edges, triangles));
    let row = reduce_rows(boundary_1_matrix(n, edges))[v];
    let nt = triangles.len();
    assert forall|t: int| 0 <= t < nt implies #[trigger] lin_comb(nm, row, nt)[t] == 0 by {
        let tri = triangles[t];
        let terms = comb_terms(nm, row, t);
        let raw = Seq::new(
            edges.len(),
            |e: int| boundary_1_matrix(n, edges)[v][e] * boundary_2_matrix(edges, triangles)[e][t],
        );
        assert forall|e: int| 0 <= e < edges.len() implies modp(#[trigger] terms[e]) == modp(raw[e]) by {
            lemma_mul_mod_noop_left(boundary_1_entry(edges[e], v), modp(boundary_2_entry(edges, tri, e)), p);
            lemma_mul_mod_noop_right(boundary_1_entry(edges[e], v), boundary_2_entry(edges, tri, e), p);
            lemma_mul_is_commutative(row[e], nm[e][t]);
        }
        crate::row_space::lemma_sum_mod(terms, raw);
        lemma_boundary_composite_zero(n, edges, triangles, v, t);
        assert(modp(0) == 0);
    }
    assert(lin_comb(nm, row, nt) =~= zero_vector(nt));
}

/// When the triangles are filled, rank ∂₁ + rank ∂₂ never exceeds the number of
/// edges: the image of ∂₂ lies in the kernel of ∂₁.
pub proof fn lemma_boundary_ranks_bound(
    n: nat,
    edges: Seq<(usize, usize)>,
    triangles: Seq<(usize, usize, usize)>,
    r1: nat,
    r2: nat,
)
    requires
        filled_triangles(edges, triangles),
        row_space_dimension_is(boundary_1_matrix(n, edges), edges.len(), r1),
        row_space_dimension_is(boundary_2_matrix(edges, triangles), triangles.len(), r2),
    ensures
        r1 + r2 <= edges.len(),
{
    let m = edges.len();
    let nt = triangles.len();
    let r1m = reduce_rows(boundary_1_matrix(n, edges));
    let nm = reduce_rows(boundary_2_matrix(edges, triangles));
    let y = choose|b: Seq<Seq<int>>| b.len() == r1 && #[trigger] is_row_basis(b, r1m, m);
    let bb = choose|b: Seq<Seq<int>>| b.len() == r2 && #[trigger] is_row_basis(b, nm, nt);
    crate::row_space::lemma_span_rows_are_residues(y, r1m, m);
    let images = Seq::new(r1m.len(), |v: int| lin_comb(nm, r1m[v], nt));
    assert forall|v: int| 0 <= v < r1m.len() implies #[trigger] images[v] == zero_vector(nt) by {
        lemma_boundary_composite(n, edges, triangles, v);
    }
    assert forall|i: int| 0 <= i < y.len() implies lin_comb(nm, #[trigger] y[i], nt) == zero_vector(nt) by {
        assert(in_row_space(r1m, y[i], m));
        let c = choose|c: Seq<int>| c.len() == r1m.len() && #[trigger] lin_comb(r1m, c, m) == y[i];
        assert forall|k: int| 0 <= k < r1m.len() implies (#[trigger] r1m[k]).len() == nm.len() by {}
        lemma_comb_compose(nm, r1m, c, nt);
        let mx = mix(r1m, c, m);
        assert forall|e: int| 0 <= e < m implies modp(#[trigger] y[i][e]) == modp(mx[e]) by {
            assert(comb_terms(r1m, c, e) =~= Seq::new(r1m.len(), |k: int| c[k] * r1m[k][e]));
            lemma_mod_twice(sum(comb_terms(r1m, c, e)), RANK_MODULUS as int);
        }
        crate::row_space::lemma_coefficients_mod(nm, y[i], mx, nt);
        assert forall|j: int| 0 <= j < nt implies #[trigger] lin_comb(images, c, nt)[j] == 0 by {
            let terms = comb_terms(images, c, j);
            assert forall|k: int| 0 <= k < terms.len() implies #[trigger] terms[k] == 0 by {
                assert(images[k] == zero_vector(nt));
                lemma_mul_basics(c[k]);
            }
            lemma_sum_zeros(terms);
        }
        assert(lin_comb(images, c, nt) =~= zero_vector(nt));
    }
    crate::row_space::lemma_annihilator_bound(y, nm, bb, m, nt);
}

/// The coefficient vectors that pick out the rows of the non-root vertices.
pub open spec fn non_root_selectors(edges: Seq<(usize, usize)>, n: nat) -> Seq<Seq<int>> {
    Seq::new(non_roots(edges, n).len(), |k: int| unit_vector(n, non_roots(edges, n)[k]))
}

/// Mixing the selectors with coefficients d puts d[k] at the k-th non-root vertex
/// and 0 at every root.
proof fn lemma_mix_selectors(edges: Seq<(usize, usize)>, n: nat, d: Seq<int>)
    requires
        d.len() == non_roots(edges, n).len(),
    ensures
        forall|k: int|
            0 <= k < d.len() ==> mix(non_root_selectors(edges, n), d, n)[#[trigger] non_roots(edges, n)[k]]
                == d[k],
        forall|u: int|
            0 <= u < n && #[trigger] is_component_root(edges, u) ==> mix(non_root_selectors(edges, n), d, n)[u]
                == 0,
{
    let nr = non_roots(edges, n);
    let g = non_root_selectors(edges, n);
    lemma_non_roots(edges, n);
    assert forall|k: int| 0 <= k < d.len() implies mix(g, d, n)[#[trigger] nr[k]] == d[k] by {
        let u = nr[k];
        let terms = Seq::new(g.len(), |k2: int| d[k2] * g[k2][u]);
        let zeros = Seq::new(g.len(), |k2: int| 0int);
        assert forall|k2: int| 0 <= k2 < g.len() implies #[trigger] terms[k2] == zeros.update(k, d[k])[k2] by {
            lemma_mul_basics(d[k2]);
            if k2 < k {
                assert(nr[k2] < nr[k]);
            } else if k2 > k {
                assert(nr[k] < nr[k2]);
            }
        }
        assert(terms =~= zeros.update(k, d[k]));
        lemma_sum_zeros(zeros);
        lemma_sum_update(zeros, k, d[k]);
    }
    assert forall|u: int| 0 <= u < n && #[trigger] is_component_root(edges, u) implies mix(g, d, n)[u] == 0 by {
        let terms = Seq::new(g.len(), |k2: int| d[k2] * g[k2][u]);
        assert forall|k2: int| 0 <= k2 < terms.len() implies #[trigger] terms[k2] == 0 by {
            lemma_mul_basics(d[k2]);
            assert(!is_component_root(edges, nr[k2]));
        }
        lemma_sum_zeros(terms);
    }
}

/// The rows of the non-root vertices form a basis of the row space of ∂₁: its
/// dimension is the number of vertices less the number of connected components.
pub proof fn lemma_boundary_1_dimension(n: nat, edges: Seq<(usize, usize)>)
    requires
        simple_edges(n, edges),
    ensures
        row_space_dimension_is(
            boundary_1_matrix(n, edges),
            edges.len(),
            (n - component_count(edges, n)) as nat,
        ),
{
    let p = RANK_MODULUS as int;
    let r = reduce_rows(boundary_1_matrix(n, edges));
    let m = edges.len();
    let nr = non_roots(edges, n);
    let l = nr.len();
    lemma_non_roots(edges, n);
    lemma_boundary_residues(n, edges);
    let g = non_root_selectors(edges, n);
    let b = Seq::new(l, |k: int| r[nr[k]]);
    assert forall|k: int| 0 <= k < l implies #[trigger] lin_comb(r, g[k], m) == b[k] by {
        lemma_unit_comb(r, nr[k], m);
    }
    assert forall|k: int| 0 <= k < g.len() implies (#[trigger] g[k]).len() == r.len() by {}
    assert(Seq::new(g.len(), |k: int| lin_comb(r, g[k], m)) =~= b);
    assert forall|k: int| 0 <= k < l implies in_row_space(r, #[trigger] b[k], m) by {
        assert(lin_comb(r, g[k], m) == b[k]);
    }
    assert(is_residue_matrix(b, m));
    // The rows are independent.
    assert forall|d: Seq<int>| d.len() == b.len() && #[trigger] lin_comb(b, d, m) == zero_vector(m) implies forall|k: int|
        0 <= k < d.len() ==> #[trigger] modp(d[k]) == 0 by {
        lemma_comb_compose(r, g, d, m);
        let dd = mix(g, d, n);
        lemma_mix_selectors(edges, n, d);
        assert(lin_comb(r, dd, m) == zero_vector(m));
        assert forall|e: int| 0 <= e < m implies modp(dd[(#[trigger] edges[e]).1 as int] - dd[edges[e].0 as int]) == 0 by {
            lemma_boundary_column(n, edges, dd, e);
            assert(lin_comb(r, dd, m)[e] == zero_vector(m)[e]);
        }
        assert forall|k: int| 0 <= k < d.len() implies #[trigger] modp(d[k]) == 0 by {
            let u = nr[k];
            lemma_root_exists(edges, u);
            let root = choose|root: int|
                0 <= root <= u && is_component_root(edges, root) && #[trigger] connected(edges, root, u);
            let path = choose|path: Seq<int>| #[trigger] is_walk(edges, path, root, u);
            lemma_constant_along_walk(edges, dd, path, root, u);
            assert(dd[root] == 0);
            assert(dd[u] == d[k]);
        }
    }
    // Every row of ∂₁ is a combination of them.
    assert forall|v: int| 0 <= v < n implies in_row_space(b, #[trigger] r[v], m) by {
        if !is_component_root(edges, v) {
            let k = choose|k: int| 0 <= k < l && #[trigger] nr[k] == v;
            lemma_unit_comb(b, k, m);
            assert(lin_comb(b, unit_vector(l, k), m) == r[v]);
        } else {
            let d = Seq::new(l, |k: int| if connected(edges, v, nr[k]) { -1int } else { 0int });
            lemma_comb_compose(r, g, d, m);
            lemma_mix_selectors(edges, n, d);
            let dd = mix(g, d, n);
            assert forall|u: int| 0 <= u < n implies #[trigger] dd[u] == if !is_component_root(edges, u)
                && connected(edges, v, u) {
                -1int
            } else {
                0int
            } by {
                if !is_component_root(edges, u) {
                    let k = choose|k: int| 0 <= k < l && #[trigger] nr[k] == u;
                    assert(dd[nr[k]] == d[k]);
                }
            }
            lemma_connected_refl(edges, v);
            assert forall|e: int| 0 <= e < m implies #[trigger] lin_comb(r, dd, m)[e] == r[v][e] by {
                lemma_boundary_column(n, edges, dd, e);
                let i = edges[e].0 as int;
                let j = edges[e].1 as int;
                lemma_connected_edge(edges, e);
                lemma_connected_symm(edges, i, j);
                if connected(edges, v, i) {
                    lemma_connected_trans(edges, v, i, j);
                } else if connected(edges, v, j) {
                    lemma_connected_trans(edges, v, j, i);
                }
                assert(r[v][e] == modp(boundary_1_entry(edges[e], v)));
                if connected(edges, v, i) {
                    if is_component_root(edges, i) {
                        lemma_roots_unique(edges, v, i);
                        if is_component_root(edges, j) {
                            lemma_roots_unique(edges, v, j);
                        }
                    } else if is_component_root(edges, j) {
                        lemma_roots_unique(edges, v, j);
                    }
                }
            }
            assert(lin_comb(r, dd, m) =~= r[v]);
            assert(Seq::new(g.len(), |k: int| lin_comb(r, g[k], m)) =~= b);
            assert(lin_comb(b, d, m) == r[v]);
        }
    }
    assert(is_row_basis(b, r, m));
    assert(b.len() == n - component_count(edges, n));
}

} // verus!
