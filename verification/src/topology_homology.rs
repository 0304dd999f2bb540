//! Homology groups of the Grand Pattern topology.
//! Cycles = redundant paths, boundaries = trivial.

use vstd::prelude::*;
use vstd::string::*;
use vstd::arithmetic::div_mod::*;
use crate::boundary_rank::{filled_triangles, lemma_boundary_1_dimension, lemma_boundary_ranks_bound};
use crate::connectivity::{component_count, lemma_non_roots};
use crate::row_reduction::{
    comb_terms, in_row_space, lin_comb, lemma_matrix_rank_bounds, matrix_rank, modp, rank, reduce_rows, row_space_dimension_is, sum,
    IntMatrix, RANK_MODULUS,
};
use crate::row_space::lemma_push_row_dimension;
use crate::row_space::lemma_row_space_dimension_unique;

verus! {

/// Column of ∂₁ for the edge (i, j): -1 at vertex i, then +1 at vertex j
/// (so a loop (i, i) has a single +1).
pub open spec fn boundary_1_entry(edge: (usize, usize), v: int) -> int {
    if v == edge.1 as int {
        1
    } else if v == edge.0 as int {
        -1
    } else {
        0
    }
}

/// The boundary matrix ∂₁: one row per vertex, one column per edge.
pub open spec fn boundary_1_matrix(n_vertices: nat, edges: Seq<(usize, usize)>) -> Seq<Seq<int>> {
    Seq::new(n_vertices, |v: int| Seq::new(edges.len(), |e: int| boundary_1_entry(edges[e], v)))
}

/// Index of the last occurrence of `pair` in `edges`.
pub open spec fn last_index_of(edges: Seq<(usize, usize)>, pair: (usize, usize)) -> Option<int>
    decreases edges.len(),
{
    if edges.len() == 0 {
        None
    } else if edges.last() == pair {
        Some(edges.len() - 1)
    } else {
        last_index_of(edges.drop_last(), pair)
    }
}

/// The pair (a, b) with its smaller element first.
pub open spec fn ordered_pair(a: usize, b: usize) -> (usize, usize) {
    if a <= b {
        (a, b)
    } else {
        (b, a)
    }
}

/// An optional position as an optional integer.
pub open spec fn opt_index(o: Option<usize>) -> Option<int> {
    match o {
        Some(x) => Some(x as int),
        None => None,
    }
}

/// 1 when `row` is the (last) index of the edge `pair`, else 0.
pub open spec fn edge_hit(edges: Seq<(usize, usize)>, pair: (usize, usize), row: int) -> int {
    if last_index_of(edges, pair) == Some(row) {
        1
    } else {
        0
    }
}

/// Column of ∂₂ for the triangle (i, j, k): ∂(ijk) = (jk) - (ik) + (ij), each edge
/// looked up by its last index in the edge list; edges that are absent contribute nothing.
pub open spec fn boundary_2_entry(edges: Seq<(usize, usize)>, t: (usize, usize, usize), row: int) -> int {
    edge_hit(edges, ordered_pair(t.0, t.1), row) - edge_hit(edges, ordered_pair(t.0, t.2), row)
        + edge_hit(edges, ordered_pair(t.1, t.2), row)
}

/// The boundary matrix ∂₂: one row per edge, one column per triangle.
pub open spec fn boundary_2_matrix(
    edges: Seq<(usize, usize)>,
    triangles: Seq<(usize, usize, usize)>,
) -> Seq<Seq<int>> {
    Seq::new(edges.len(), |r: int| Seq::new(triangles.len(), |c: int| boundary_2_entry(edges, triangles[c], r)))
}

/// (a - b) clipped at zero.
pub open spec fn clipped_sub(a: int, b: int) -> int {
    if a >= b {
        a - b
    } else {
        0
    }
}

/// `t` lists i, j, k in nondecreasing order.
pub open spec fn sorts(t: (usize, usize, usize), i: usize, j: usize, k: usize) -> bool {
    &&& t.0 <= t.1 <= t.2
    &&& {
        ||| t == (i, j, k)
        ||| t == (i, k, j)
        ||| t == (j, i, k)
        ||| t == (j, k, i)
        ||| t == (k, i, j)
        ||| t == (k, j, i)
    }
}

/// Walking the listed edges in order from vertex v: the sign with which each edge is
/// traversed (+1 from its first vertex to its second, -1 the other way) and the
/// vertex reached; None when a listed edge is missing or does not start where the
/// walk stands.
pub open spec fn walk_signs(edges: Seq<(usize, usize)>, idx: Seq<usize>, v: int) -> Option<(Seq<int>, int)>
    decreases idx.len(),
{
    if idx.len() == 0 {
        Some((Seq::empty(), v))
    } else if idx[0] >= edges.len() {
        None
    } else {
        let e = edges[idx[0] as int];
        if e.0 as int == v {
            match walk_signs(edges, idx.drop_first(), e.1 as int) {
                Some(sw) => Some((seq![1int] + sw.0, sw.1)),
                None => None,
            }
        } else if e.1 as int == v {
            match walk_signs(edges, idx.drop_first(), e.0 as int) {
                Some(sw) => Some((seq![-1int] + sw.0, sw.1)),
                None => None,
            }
        } else {
            None
        }
    }
}

/// The listed edges as a cycle: the signs of the walk through them in order that
/// returns to its start, starting from the first vertex of the first edge or, failing
/// that, from its second; None when neither walk closes. The empty list is the empty
/// cycle.
pub open spec fn cycle_signs(edges: Seq<(usize, usize)>, idx: Seq<usize>) -> Option<Seq<int>> {
    if idx.len() == 0 {
        Some(Seq::empty())
    } else if idx[0] >= edges.len() {
        None
    } else {
        let a = edges[idx[0] as int].0 as int;
        let b = edges[idx[0] as int].1 as int;
        match closed_walk(walk_signs(edges, idx, a), a) {
            Some(sg) => Some(sg),
            None => closed_walk(walk_signs(edges, idx, b), b),
        }
    }
}

/// The signs of a walk that ends where it started at v.
pub open spec fn closed_walk(w: Option<(Seq<int>, int)>, v: int) -> Option<Seq<int>> {
    match w {
        Some(sw) => if sw.1 == v {
            Some(sw.0)
        } else {
            None
        },
        None => None,
    }
}

/// The walks through the same edges from the two distinct ends of the first edge,
/// when both go through, are mirror images: every sign is flipped.
proof fn lemma_walks_mirror(edges: Seq<(usize, usize)>, idx: Seq<usize>, u: int, v: int)
    requires
        u != v,
        walk_signs(edges, idx, u) is Some,
        walk_signs(edges, idx, v) is Some,
    ensures
        ({
            let s = walk_signs(edges, idx, u)->0;
            let t = walk_signs(edges, idx, v)->0;
            &&& s.0.len() == idx.len()
            &&& t.0.len() == idx.len()
            &&& forall|q: int| 0 <= q < idx.len() ==> #[trigger] t.0[q] == -s.0[q]
        }),
    decreases idx.len(),
{
    if idx.len() > 0 {
        let e = edges[idx[0] as int];
        let rest = idx.drop_first();
        if e.0 as int == u {
            lemma_walks_mirror(edges, rest, e.1 as int, e.0 as int);
        } else {
            lemma_walks_mirror(edges, rest, e.0 as int, e.1 as int);
        }
        let s = walk_signs(edges, idx, u)->0;
        let t = walk_signs(edges, idx, v)->0;
        let su = walk_signs(edges, rest, if e.0 as int == u { e.1 as int } else { e.0 as int })->0;
        let tv = walk_signs(edges, rest, if e.0 as int == u { e.0 as int } else { e.1 as int })->0;
        assert forall|q: int| 0 <= q < idx.len() implies #[trigger] t.0[q] == -s.0[q] by {
            if q > 0 {
                assert(s.0[q] == su.0[q - 1]);
                assert(t.0[q] == tv.0[q - 1]);
            }
        }
    }
}

/// Flipping every sign of a chain keeps it a combination of the given rows.
proof fn lemma_negated_chain_in_span(r: Seq<Seq<int>>, m: nat, idx: Seq<usize>, s: Seq<int>, t: Seq<int>)
    requires
        s.len() == idx.len(),
        t.len() == idx.len(),
        forall|q: int| 0 <= q < idx.len() ==> #[trigger] t[q] == -s[q],
        in_row_space(r, chain_residues(m, idx, s), m),
    ensures
        in_row_space(r, chain_residues(m, idx, t), m),
{
    let p = RANK_MODULUS as int;
    let c = choose|c: Seq<int>| c.len() == r.len() && #[trigger] lin_comb(r, c, m) == chain_residues(m, idx, s);
    let c2 = Seq::new(r.len(), |i: int| -1 * c[i]);
    assert forall|e: int| 0 <= e < m implies #[trigger] lin_comb(r, c2, m)[e] == chain_residues(m, idx, t)[e] by {
        let n = idx.len() as int;
        let ts = Seq::new(n as nat, |k: int| if idx[k] as int == e { s[k] } else { 0 });
        let tt = Seq::new(n as nat, |k: int| if idx[k] as int == e { t[k] } else { 0 });
        crate::row_space::lemma_sum_scale(ts, -1);
        assert(tt =~= Seq::new(ts.len(), |k: int| -1 * ts[k]));
        let ct = comb_terms(r, c, e);
        crate::row_space::lemma_sum_scale(ct, -1);
        assert forall|i: int| 0 <= i < r.len() implies #[trigger] comb_terms(r, c2, e)[i] == -1 * ct[i] by {
            assert(-1 * c[i] * r[i][e] == -1 * (c[i] * r[i][e])) by (nonlinear_arith);
        }
        assert(comb_terms(r, c2, e) =~= Seq::new(ct.len(), |i: int| -1 * ct[i]));
        assert(lin_comb(r, c, m)[e] == chain_residues(m, idx, s)[e]);
        // modp(-x) depends only on modp(x).
        lemma_sub_mod_noop(0, sum(ct), p);
        lemma_sub_mod_noop(0, sum(ts), p);
        assert(-1 * sum(ct) == 0 - sum(ct));
        assert(-1 * sum(ts) == 0 - sum(ts));
    }
    assert(lin_comb(r, c2, m) =~= chain_residues(m, idx, t));
}

/// Whether the listed edges form a boundary does not depend on the end of the first
/// edge the walk starts from.
proof fn lemma_boundary_direction_free(
    edges: Seq<(usize, usize)>,
    triangles: Seq<(usize, usize, usize)>,
    idx: Seq<usize>,
)
    ensures
        forall|start: int, sg: Seq<int>|
            #![trigger closed_walk(walk_signs(edges, idx, start), start), chain_residues(edges.len(), idx, sg)]
            idx.len() > 0 && idx[0] < edges.len() && (start == edges[idx[0] as int].0 || start
                == edges[idx[0] as int].1) && closed_walk(walk_signs(edges, idx, start), start) == Some(sg)
                && in_row_space(
                reduce_rows(triangle_boundaries(edges, triangles)),
                chain_residues(edges.len(), idx, sg),
                edges.len(),
            ) ==> is_boundary_spec(edges, triangles, idx),
        is_boundary_spec(edges, triangles, idx) ==> idx.len() == 0 || exists|start: int, sg: Seq<int>|
            #![trigger closed_walk(walk_signs(edges, idx, start), start), chain_residues(edges.len(), idx, sg)]
            idx[0] < edges.len() && (start == edges[idx[0] as int].0 || start == edges[idx[0] as int].1)
                && closed_walk(walk_signs(edges, idx, start), start) == Some(sg) && in_row_space(
                reduce_rows(triangle_boundaries(edges, triangles)),
                chain_residues(edges.len(), idx, sg),
                edges.len(),
            ),
{
    let r = reduce_rows(triangle_boundaries(edges, triangles));
    let m = edges.len();
    assert forall|start: int, sg: Seq<int>|
        #![trigger closed_walk(walk_signs(edges, idx, start), start), chain_residues(edges.len(), idx, sg)]
        idx.len() > 0 && idx[0] < edges.len() && (start == edges[idx[0] as int].0 || start
            == edges[idx[0] as int].1) && closed_walk(walk_signs(edges, idx, start), start) == Some(sg)
            && in_row_space(r, chain_residues(m, idx, sg), m) implies is_boundary_spec(edges, triangles, idx) by {
        let a = edges[idx[0] as int].0 as int;
        let b = edges[idx[0] as int].1 as int;
        let ca = closed_walk(walk_signs(edges, idx, a), a);
        if start == a || a == b {
            assert(cycle_signs(edges, idx) == Some(sg));
        } else if ca is None {
            assert(cycle_signs(edges, idx) == Some(sg));
        } else {
            // Both ends close: the walk from a is the mirror image of the one from b.
            lemma_walks_mirror(edges, idx, b, a);
            let sa = ca->0;
            assert(cycle_signs(edges, idx) == Some(sa));
            lemma_negated_chain_in_span(r, m, idx, sg, sa);
        }
    }
    if is_boundary_spec(edges, triangles, idx) && idx.len() > 0 {
        let a = edges[idx[0] as int].0 as int;
        let b = edges[idx[0] as int].1 as int;
        let sg = cycle_signs(edges, idx)->0;
        if closed_walk(walk_signs(edges, idx, a), a) is Some {
            assert(closed_walk(walk_signs(edges, idx, a), a) == Some(sg));
            assert(in_row_space(r, chain_residues(m, idx, sg), m));
        } else {
            assert(closed_walk(walk_signs(edges, idx, b), b) == Some(sg));
            assert(in_row_space(r, chain_residues(m, idx, sg), m));
        }
    }
}

/// The triangle lists three increasing vertices and each of its sides is an edge.
pub open spec fn filled_triangle(edges: Seq<(usize, usize)>, tri: (usize, usize, usize)) -> bool {
    &&& tri.0 < tri.1
    &&& tri.1 < tri.2
    &&& last_index_of(edges, (tri.0, tri.1)) is Some
    &&& last_index_of(edges, (tri.0, tri.2)) is Some
    &&& last_index_of(edges, (tri.1, tri.2)) is Some
}

/// Edge number e is where one of the sides of the triangle is (last) found.
pub open spec fn is_side_index(edges: Seq<(usize, usize)>, tri: (usize, usize, usize), e: int) -> bool {
    ||| last_index_of(edges, (tri.0, tri.1)) == Some(e)
    ||| last_index_of(edges, (tri.0, tri.2)) == Some(e)
    ||| last_index_of(edges, (tri.1, tri.2)) == Some(e)
}

/// The list names the three sides of the triangle, each once, in some order.
pub open spec fn lists_sides(edges: Seq<(usize, usize)>, tri: (usize, usize, usize), idx: Seq<usize>) -> bool {
    &&& idx.len() == 3
    &&& idx[0] != idx[1]
    &&& idx[0] != idx[2]
    &&& idx[1] != idx[2]
    &&& forall|k: int| 0 <= k < 3 ==> is_side_index(edges, tri, #[trigger] idx[k] as int)
}

proof fn lemma_sum3(x: Seq<int>)
    requires
        x.len() == 3,
    ensures
        sum(x) == x[0] + x[1] + x[2],
{
    assert(x.drop_first().drop_first().drop_first() =~= Seq::<int>::empty());
    assert(sum(Seq::<int>::empty()) == 0);
    assert(sum(x.drop_first().drop_first()) == x[2] + sum(x.drop_first().drop_first().drop_first()));
    assert(sum(x.drop_first()) == x[1] + sum(x.drop_first().drop_first()));
}

/// A chain equal to ± the boundary of triangle t is a combination of triangle boundaries.
proof fn lemma_triangle_chain_in_span(
    edges: Seq<(usize, usize)>,
    triangles: Seq<(usize, usize, usize)>,
    t: int,
    idx: Seq<usize>,
    sg: Seq<int>,
    sigma: int,
)
    requires
        0 <= t < triangles.len(),
        sigma == 1 || sigma == -1,
        forall|e: int| 0 <= e < edges.len() ==> #[trigger] chain_entry(idx, sg, idx.len() as int, e) == sigma
            * boundary_2_entry(edges, triangles[t], e),
    ensures
        in_row_space(reduce_rows(triangle_boundaries(edges, triangles)), chain_residues(edges.len(), idx, sg), edges.len()),
{
    let p = RANK_MODULUS as int;
    let r = reduce_rows(triangle_boundaries(edges, triangles));
    let m = edges.len();
    let c = Seq::new(triangles.len(), |t2: int| if t2 == t { sigma } else { 0int });
    assert forall|e: int| 0 <= e < m implies #[trigger] lin_comb(r, c, m)[e] == chain_residues(m, idx, sg)[e] by {
        let terms = comb_terms(r, c, e);
        let zeros = Seq::new(triangles.len(), |t2: int| 0int);
        assert forall|t2: int| 0 <= t2 < triangles.len() implies #[trigger] terms[t2] == zeros.update(t, sigma * r[t][e])[t2] by {
            vstd::arithmetic::mul::lemma_mul_basics(r[t2][e]);
        }
        assert(terms =~= zeros.update(t, sigma * r[t][e]));
        crate::row_reduction::lemma_sum_zeros(zeros);
        crate::row_reduction::lemma_sum_update(zeros, t, sigma * r[t][e]);
        assert(r[t][e] == modp(boundary_2_entry(edges, triangles[t], e)));
        lemma_mul_mod_noop_right(sigma, boundary_2_entry(edges, triangles[t], e), p);
        lemma_mod_twice(sigma * r[t][e], p);
    }
    assert(lin_comb(r, c, m) =~= chain_residues(m, idx, sg));
}

/// The three sides of a filled triangle, listed in any order, form a boundary.
proof fn lemma_triangle_sides_are_boundary(
    edges: Seq<(usize, usize)>,
    triangles: Seq<(usize, usize, usize)>,
    t: int,
    idx: Seq<usize>,
)
    requires
        0 <= t < triangles.len(),
        filled_triangle(edges, triangles[t]),
        lists_sides(edges, triangles[t], idx),
    ensures
        is_boundary_spec(edges, triangles, idx),
{
    let tri = triangles[t];
    let (a, b, c) = tri;
    crate::boundary_rank::lemma_last_index_of(edges, (a, b));
    crate::boundary_rank::lemma_last_index_of(edges, (a, c));
    crate::boundary_rank::lemma_last_index_of(edges, (b, c));
    let iab = last_index_of(edges, (a, b))->0;
    let iac = last_index_of(edges, (a, c))->0;
    let ibc = last_index_of(edges, (b, c))->0;
    assert(ordered_pair(a, b) == (a, b));
    assert(ordered_pair(a, c) == (a, c));
    assert(ordered_pair(b, c) == (b, c));
    assert(is_side_index(edges, tri, idx[0] as int));
    assert(is_side_index(edges, tri, idx[1] as int));
    assert(is_side_index(edges, tri, idx[2] as int));
    lemma_boundary_direction_free(edges, triangles, idx);
    reveal_with_fuel(walk_signs, 4);
    // The closed walk's start, its signs and its orientation against the triangle's.
    let (start, sg, sigma): (int, Seq<int>, int) = if idx[0] == iab && idx[1] == iac {
        (b as int, seq![-1int, 1, -1], -1int)
    } else if idx[0] == iab {
        (a as int, seq![1int, 1, -1], 1int)
    } else if idx[0] == iac && idx[1] == iab {
        (c as int, seq![-1int, 1, 1], 1int)
    } else if idx[0] == iac {
        (a as int, seq![1int, -1, -1], -1int)
    } else if idx[1] == iab {
        (c as int, seq![-1int, -1, 1], -1int)
    } else {
        (b as int, seq![1int, -1, 1], 1int)
    };
    let rest1 = idx.drop_first();
    let rest2 = rest1.drop_first();
    assert(rest2.drop_first() =~= Seq::<usize>::empty());
    assert(rest1[0] == idx[1] && rest2[0] == idx[2]);
    assert(closed_walk(walk_signs(edges, idx, start), start) == Some(sg)) by {
        assert(seq![sg[2]] + Seq::<int>::empty() =~= seq![sg[2]]);
        assert(seq![sg[1]] + seq![sg[2]] =~= seq![sg[1], sg[2]]);
        assert(seq![sg[0]] + seq![sg[1], sg[2]] =~= sg);
    }
    assert forall|e: int| 0 <= e < edges.len() implies #[trigger] chain_entry(idx, sg, idx.len() as int, e) == sigma
        * boundary_2_entry(edges, tri, e) by {
        lemma_sum3(Seq::new(3, |k: int| if idx[k] as int == e { sg[k] } else { 0 }));
    }
    lemma_triangle_chain_in_span(edges, triangles, t, idx, sg, sigma);
}

/// The chain Σ_q s[q] · e_{idx[q]} on m edges, with its entries reduced over the field.
pub open spec fn chain_residues(m: nat, idx: Seq<usize>, s: Seq<int>) -> Seq<int> {
    Seq::new(m, |e: int| modp(chain_entry(idx, s, idx.len() as int, e)))
}

/// Entry e of the chain made of the first q listed edges with their signs.
pub open spec fn chain_entry(idx: Seq<usize>, s: Seq<int>, q: int, e: int) -> int {
    sum(Seq::new(q as nat, |k: int| if idx[k] as int == e { s[k] } else { 0 }))
}

/// The boundaries of the triangles, one row per triangle: the columns of ∂₂.
pub open spec fn triangle_boundaries(
    edges: Seq<(usize, usize)>,
    triangles: Seq<(usize, usize, usize)>,
) -> Seq<Seq<int>> {
    Seq::new(triangles.len(), |t: int| Seq::new(edges.len(), |e: int| boundary_2_entry(edges, triangles[t], e)))
}

/// The listed edges form a cycle whose chain is a boundary: a combination (over the
/// field) of the boundaries of the triangles.
pub open spec fn is_boundary_spec(
    edges: Seq<(usize, usize)>,
    triangles: Seq<(usize, usize, usize)>,
    idx: Seq<usize>,
) -> bool {
    match cycle_signs(edges, idx) {
        Some(s) => in_row_space(
            reduce_rows(triangle_boundaries(edges, triangles)),
            chain_residues(edges.len(), idx, s),
            edges.len(),
        ),
        None => false,
    }
}

/// Walk the listed edges in order from `start`.
fn walk_edges(edges: &Vec<(usize, usize)>, idx: &[usize], start: usize) -> (r: Option<(Vec<i64>, usize)>)
    ensures
        match r {
            Some(sw) => {
                &&& walk_signs(edges@, idx@, start as int) == Some((sw.0@.map_values(|x: i64| x as int), sw.1 as int))
                &&& sw.0@.len() == idx@.len()
                &&& forall|q: int| 0 <= q < idx@.len() ==> (#[trigger] idx@[q]) < edges@.len()
                &&& forall|q: int| 0 <= q < sw.0@.len() ==> #[trigger] sw.0@[q] == 1 || sw.0@[q] == -1
            },
            None => walk_signs(edges@, idx@, start as int) is None,
        },
{
    let mut signs: Vec<i64> = Vec::new();
    let mut cur = start;
    let mut q: usize = 0;
    proof {
        assert(idx@.skip(0) =~= idx@);
    }
    while q < idx.len()
        invariant
            q <= idx@.len(),
            signs@.len() == q,
            forall|k: int| 0 <= k < q ==> (#[trigger] idx@[k]) < edges@.len(),
            forall|k: int| 0 <= k < q ==> #[trigger] signs@[k] == 1 || signs@[k] == -1,
            walk_signs(edges@, idx@, start as int) == match walk_signs(edges@, idx@.skip(q as int), cur as int) {
                Some(sw) => Some((signs@.map_values(|x: i64| x as int) + sw.0, sw.1)),
                None => None::<(Seq<int>, int)>,
            },
        decreases idx@.len() - q,
    {
        let e = idx[q];
        proof {
            assert(idx@.skip(q as int)[0] == idx@[q as int]);
            assert(idx@.skip(q as int).drop_first() =~= idx@.skip(q + 1));
        }
        if e >= edges.len() {
            return None;
        }
        let (a, b) = edges[e];
        let ghost before = signs@.map_values(|x: i64| x as int);
        if a == cur {
            signs.push(1);
            cur = b;
        } else if b == cur {
            signs.push(-1);
            cur = a;
        } else {
            return None;
        }
        proof {
            let after = signs@.map_values(|x: i64| x as int);
            assert(after =~= before.push(signs@[q as int] as int));
            match walk_signs(edges@, idx@.skip(q + 1), cur as int) {
                Some(sw) => {
                    assert(before + (seq![signs@[q as int] as int] + sw.0) =~= after + sw.0);
                },
                None => {},
            }
        }
        q = q + 1;
    }
    proof {
        assert(idx@.skip(q as int) =~= Seq::<usize>::empty());
        assert(signs@.map_values(|x: i64| x as int) + Seq::<int>::empty() =~= signs@.map_values(|x: i64| x as int));
    }
    Some((signs, cur))
}

/// The pair (a, b) as one integer: a · 2⁶⁴ + b.
pub open spec fn pair_key(a: usize, b: usize) -> int {
    a * 0x1_0000_0000_0000_0000int + b
}

/// Distinct pairs have distinct keys.
proof fn lemma_pair_key_injective(a: usize, b: usize, c: usize, d: usize)
    requires
        pair_key(a, b) == pair_key(c, d),
    ensures
        a == c && b == d,
{
    let m = 0x1_0000_0000_0000_0000int;
    assert(b < m && d < m);
    vstd::arithmetic::div_mod::lemma_fundamental_div_mod_converse(pair_key(a, b), m, a as int, b as int);
    vstd::arithmetic::div_mod::lemma_fundamental_div_mod_converse(pair_key(c, d), m, c as int, d as int);
}

/// The key of a pair, as stored in the edge index.
fn edge_key(a: usize, b: usize) -> (k: u128)
    ensures
        k as int == pair_key(a, b),
{
    assert(a <= 0xffff_ffff_ffff_ffff && b <= 0xffff_ffff_ffff_ffff);
    (a as u128) * 0x1_0000_0000_0000_0000u128 + (b as u128)
}

/// What a map of keys to positions holds for a key.
pub open spec fn lookup(m: Map<u128, usize>, k: int) -> Option<int> {
    if m.contains_key(k as u128) {
        Some(m[k as u128] as int)
    } else {
        None
    }
}

/// Map each edge, by its key, to the last position at which it occurs.
fn index_edges(edges: &Vec<(usize, usize)>) -> (index: std::collections::HashMap<u128, usize>)
    ensures
        forall|a: usize, b: usize| #[trigger] lookup(index@, pair_key(a, b)) == last_index_of(edges@, (a, b)),
{
    broadcast use vstd::std_specs::hash::group_hash_axioms;
    let mut index: std::collections::HashMap<u128, usize> = std::collections::HashMap::new();
    let mut idx: usize = 0;
    while idx < edges.len()
        invariant
            idx <= edges@.len(),
            forall|a: usize, b: usize| #[trigger] lookup(index@, pair_key(a, b)) == last_index_of(edges@.take(idx as int), (a, b)),
        decreases edges@.len() - idx,
    {
        let (a0, b0) = edges[idx];
        let key = edge_key(a0, b0);
        let ghost old_index = index@;
        index.insert(key, idx);
        proof {
            assert(edges@.take(idx + 1).drop_last() =~= edges@.take(idx as int));
            assert(edges@.take(idx + 1).last() == (a0, b0));
            assert forall|a: usize, b: usize| #[trigger] lookup(index@, pair_key(a, b)) == last_index_of(edges@.take(idx + 1), (a, b)) by {
                assert(pair_key(a, b) < 0x1_0000_0000_0000_0000int * 0x1_0000_0000_0000_0000int) by (nonlinear_arith)
                    requires
                        a <= 0xffff_ffff_ffff_ffff,
                        b <= 0xffff_ffff_ffff_ffff,
                ;
                if (a, b) == (a0, b0) {
                } else {
                    if pair_key(a, b) == pair_key(a0, b0) {
                        lemma_pair_key_injective(a, b, a0, b0);
                    }
                    assert(lookup(old_index, pair_key(a, b)) == last_index_of(edges@.take(idx as int), (a, b)));
                }
            }
        }
        idx = idx + 1;
    }
    proof {
        assert(edges@.take(edges@.len() as int) =~= edges@);
    }
    index
}

/// The last position of `pair` in the edge list, looked up in the edge index.
fn find_edge(index: &std::collections::HashMap<u128, usize>, pair: (usize, usize)) -> (r: Option<usize>)
    ensures
        opt_index(r) == lookup(index@, pair_key(pair.0, pair.1)),
{
    broadcast use vstd::std_specs::hash::group_hash_axioms;
    let key = edge_key(pair.0, pair.1);
    match index.get(&key) {
        Some(v) => Some(*v),
        None => None,
    }
}

/// A simplicial complex representing the Grand Pattern topology.
#[derive(Debug, Clone)]
pub struct PatternComplex {
    /// Vertices.
    pub vertices: Vec<String>,
    /// Edges: pairs of vertex indices.
    pub edges: Vec<(usize, usize)>,
    /// Triangles: triples of vertex indices.
    pub triangles: Vec<(usize, usize, usize)>,
}

/// Homology computation result.
#[derive(Debug, Clone, Copy)]
pub struct HomologyResult {
    pub betti: (usize, usize, usize),
    pub euler_characteristic: i64,
    pub n_vertices: usize,
    pub n_edges: usize,
    pub n_triangles: usize,
}

impl PatternComplex {
    /// Every edge joins two existing vertices.
    pub open spec fn edges_in_range(self) -> bool {
        forall|e: int| 0 <= e < self.edges@.len() ==>
            (#[trigger] self.edges@[e]).0 < self.vertices@.len() && self.edges@[e].1 < self.vertices@.len()
    }

    /// The complex is small enough for its Euler characteristic to be an `i64`.
    pub open spec fn fits_i64(self) -> bool {
        self.vertices@.len() + self.edges@.len() + self.triangles@.len() <= i64::MAX
    }

    /// No edge joins a vertex to itself.
    pub open spec fn loop_free(self) -> bool {
        forall|e: int| 0 <= e < self.edges@.len() ==> (#[trigger] self.edges@[e]).0 != self.edges@[e].1
    }

    /// Every triangle lists three increasing vertices and each of its sides is an edge.
    pub open spec fn triangles_filled(self) -> bool {
        filled_triangles(self.edges@, self.triangles@)
    }

    /// Number of connected components of the graph formed by the vertices and edges.
    pub open spec fn components(self) -> nat {
        component_count(self.edges@, self.vertices@.len())
    }

    /// Rank of ∂₁.
    pub open spec fn rank_1(self) -> nat {
        matrix_rank(boundary_1_matrix(self.vertices@.len(), self.edges@), self.edges@.len())
    }

    /// Rank of ∂₂.
    pub open spec fn rank_2(self) -> nat {
        matrix_rank(boundary_2_matrix(self.edges@, self.triangles@), self.triangles@.len())
    }

    /// β₀ = n_vertices - rank ∂₁.
    pub open spec fn betti_0(self) -> int {
        clipped_sub(self.vertices@.len() as int, self.rank_1() as int)
    }

    /// β₁ = (n_edges - rank ∂₁) - rank ∂₂.
    pub open spec fn betti_1(self) -> int {
        clipped_sub(clipped_sub(self.edges@.len() as int, self.rank_1() as int), self.rank_2() as int)
    }

    /// β₂ = n_triangles - rank ∂₂.
    pub open spec fn betti_2(self) -> int {
        clipped_sub(self.triangles@.len() as int, self.rank_2() as int)
    }

    /// Create an empty complex.
    pub fn new() -> (c: Self)
        ensures
            c.vertices@.len() == 0,
            c.edges@.len() == 0,
            c.triangles@.len() == 0,
    {
        PatternComplex { vertices: Vec::new(), edges: Vec::new(), triangles: Vec::new() }
    }

    /// Add a vertex; returns its index.
    pub fn add_vertex(&mut self, name: &str) -> (idx: usize)
        ensures
            idx == old(self).vertices@.len(),
            final(self).vertices@.len() == old(self).vertices@.len() + 1,
            final(self).vertices@[idx as int]@ == name@,
            forall|k: int| 0 <= k < idx ==> #[trigger] final(self).vertices@[k] == old(self).vertices@[k],
            final(self).edges@ == old(self).edges@,
            final(self).triangles@ == old(self).triangles@,
            old(self).edges_in_range() ==> final(self).edges_in_range(),
    {
        let idx = self.vertices.len();
        self.vertices.push(String::from_str(name));
        idx
    }

    /// Add an edge, stored with its smaller endpoint first.
    pub fn add_edge(&mut self, i: usize, j: usize)
        requires
            i < old(self).vertices@.len(),
            j < old(self).vertices@.len(),
        ensures
            final(self).edges@ == old(self).edges@.push(ordered_pair(i, j)),
            final(self).vertices@ == old(self).vertices@,
            final(self).triangles@ == old(self).triangles@,
            old(self).edges_in_range() ==> final(self).edges_in_range(),
    {
        if i <= j {
            self.edges.push((i, j));
        } else {
            self.edges.push((j, i));
        }
    }

    /// Add a triangle, stored with its vertices in nondecreasing order.
    pub fn add_triangle(&mut self, i: usize, j: usize, k: usize)
        requires
            i < old(self).vertices@.len(),
            j < old(self).vertices@.len(),
            k < old(self).vertices@.len(),
        ensures
            final(self).triangles@.len() == old(self).triangles@.len() + 1,
            final(self).triangles@.drop_last() == old(self).triangles@,
            sorts(final(self).triangles@.last(), i, j, k),
            final(self).vertices@ == old(self).vertices@,
            final(self).edges@ == old(self).edges@,
    {
        let (mut a, mut b, mut c) = (i, j, k);
        if a > b {
            let t = a;
            a = b;
            b = t;
        }
        if b > c {
            let t = b;
            b = c;
            c = t;
        }
        if a > b {
            let t = a;
            a = b;
            b = t;
        }
        self.triangles.push((a, b, c));
        proof {
            assert(final(self).triangles@.drop_last() =~= old(self).triangles@);
        }
    }

    /// Compute the boundary matrix ∂₁: edges → vertices.
    /// ∂₁(e) = v_j - v_i for edge (i,j).
    pub fn boundary_1(&self) -> (m: IntMatrix)
        ensures
            m.num_rows() == self.vertices@.len(),
            m.num_cols() == self.edges@.len(),
            m.entries() == boundary_1_matrix(self.vertices@.len(), self.edges@),
    {
        let n_v = self.vertices.len();
        let n_e = self.edges.len();
        let mut rows: Vec<Vec<i64>> = Vec::new();
        let mut v: usize = 0;
        while v < n_v
            invariant
                v <= n_v,
                n_v == self.vertices@.len(),
                n_e == self.edges@.len(),
                rows@.len() == v,
                forall|r: int| 0 <= r < v ==> #[trigger] rows@[r]@.len() == n_e,
                forall|r: int, e: int| 0 <= r < v && 0 <= e < n_e ==>
                    (#[trigger] rows@[r]@[e]) as int == boundary_1_entry(self.edges@[e], r),
            decreases n_v - v,
        {
            let mut row: Vec<i64> = Vec::new();
            let mut e: usize = 0;
            while e < n_e
                invariant
                    v < n_v,
                    e <= n_e,
                    n_e == self.edges@.len(),
                    row@.len() == e,
                    forall|q: int| 0 <= q < e ==> (#[trigger] row@[q]) as int == boundary_1_entry(self.edges@[q], v as int),
                decreases n_e - e,
            {
                let (a, b) = self.edges[e];
                let x: i64 = if v == b {
                    1
                } else if v == a {
                    -1
                } else {
                    0
                };
                row.push(x);
                e = e + 1;
            }
            rows.push(row);
            v = v + 1;
        }
        let m = IntMatrix::from_rows(n_v, n_e, rows);
        proof {
            let want = boundary_1_matrix(self.vertices@.len(), self.edges@);
            assert forall|r: int| 0 <= r < n_v implies #[trigger] m.entries()[r] =~= want[r] by {}
            assert(m.entries() =~= want);
        }
        m
    }

    /// Compute the boundary matrix ∂₂: triangles → edges.
    /// ∂₂(Δ) = e_jk - e_ik + e_ij for triangle (i,j,k).
    pub fn boundary_2(&self) -> (m: IntMatrix)
        ensures
            m.num_rows() == self.edges@.len(),
            m.num_cols() == self.triangles@.len(),
            m.entries() == boundary_2_matrix(self.edges@, self.triangles@),
    {
        let n_e = self.edges.len();
        let n_t = self.triangles.len();
        // Where each side of each triangle sits in the edge list.
        let index = index_edges(&self.edges);
        let mut sides: Vec<(Option<usize>, Option<usize>, Option<usize>)> = Vec::new();
        let mut c: usize = 0;
        while c < n_t
            invariant
                c <= n_t,
                n_t == self.triangles@.len(),
                forall|a: usize, b: usize| #[trigger] lookup(index@, pair_key(a, b)) == last_index_of(self.edges@, (a, b)),
                sides@.len() == c,
                forall|q: int| 0 <= q < c ==> {
                    let t = #[trigger] self.triangles@[q];
                    &&& opt_index(sides@[q].0) == last_index_of(self.edges@, ordered_pair(t.0, t.1))
                    &&& opt_index(sides@[q].1) == last_index_of(self.edges@, ordered_pair(t.0, t.2))
                    &&& opt_index(sides@[q].2) == last_index_of(self.edges@, ordered_pair(t.1, t.2))
                },
            decreases n_t - c,
        {
            let (i, j, k) = self.triangles[c];
            let ij = find_edge(&index, if i <= j { (i, j) } else { (j, i) });
            let ik = find_edge(&index, if i <= k { (i, k) } else { (k, i) });
            let jk = find_edge(&index, if j <= k { (j, k) } else { (k, j) });
            sides.push((ij, ik, jk));
            c = c + 1;
        }
        let mut rows: Vec<Vec<i64>> = Vec::new();
        let mut r: usize = 0;
        while r < n_e
            invariant
                r <= n_e,
                n_e == self.edges@.len(),
                n_t == self.triangles@.len(),
                sides@.len() == n_t,
                forall|q: int| 0 <= q < n_t ==> {
                    let t = #[trigger] self.triangles@[q];
                    &&& opt_index(sides@[q].0) == last_index_of(self.edges@, ordered_pair(t.0, t.1))
                    &&& opt_index(sides@[q].1) == last_index_of(self.edges@, ordered_pair(t.0, t.2))
                    &&& opt_index(sides@[q].2) == last_index_of(self.edges@, ordered_pair(t.1, t.2))
                },
                rows@.len() == r,
                forall|rr: int| 0 <= rr < r ==> #[trigger] rows@[rr]@.len() == n_t,
                forall|rr: int, q: int| 0 <= rr < r && 0 <= q < n_t ==>
                    (#[trigger] rows@[rr]@[q]) as int == boundary_2_entry(self.edges@, self.triangles@[q], rr),
            decreases n_e - r,
        {
            let mut row: Vec<i64> = Vec::new();
            let mut q: usize = 0;
            while q < n_t
                invariant
                    r < n_e,
                    q <= n_t,
                    n_t == self.triangles@.len(),
                    sides@.len() == n_t,
                    forall|q2: int| 0 <= q2 < n_t ==> {
                        let t = #[trigger] self.triangles@[q2];
                        &&& opt_index(sides@[q2].0) == last_index_of(self.edges@, ordered_pair(t.0, t.1))
                        &&& opt_index(sides@[q2].1) == last_index_of(self.edges@, ordered_pair(t.0, t.2))
                        &&& opt_index(sides@[q2].2) == last_index_of(self.edges@, ordered_pair(t.1, t.2))
                    },
                    row@.len() == q,
                    forall|q2: int| 0 <= q2 < q ==>
                        (#[trigger] row@[q2]) as int == boundary_2_entry(self.edges@, self.triangles@[q2], r as int),
                decreases n_t - q,
            {
                let (ij, ik, jk) = sides[q];
                let mut x: i64 = 0;
                if ij == Some(r) {
                    x = x + 1;
                }
                if ik == Some(r) {
                    x = x - 1;
                }
                if jk == Some(r) {
                    x = x + 1;
                }
                proof {
                    let t = self.triangles@[q as int];
                    assert(opt_index(sides@[q as int].0) == last_index_of(self.edges@, ordered_pair(t.0, t.1)));
                }
                row.push(x);
                q = q + 1;
            }
            rows.push(row);
            r = r + 1;
        }
        let m = IntMatrix::from_rows(n_e, n_t, rows);
        proof {
            let want = boundary_2_matrix(self.edges@, self.triangles@);
            assert forall|rr: int| 0 <= rr < n_e implies #[trigger] m.entries()[rr] =~= want[rr] by {}
            assert(m.entries() =~= want);
        }
        m
    }

    /// Compute Betti numbers: β_k = dim(H_k) = dim(ker ∂_k) - dim(im ∂_{k+1}).
    /// Returns (β₀, β₁, β₂), with ranks taken over the field of `RANK_MODULUS` elements.
    /// Without loops, β₀ is the number of connected components, and without
    /// triangles β₁ is the cycle rank E - V + β₀. When every triangle is filled
    /// in by its three edges, β₀ - β₁ + β₂ = V - E + T (Euler–Poincaré).
    pub fn betti_numbers(&self) -> (b: (usize, usize, usize))
        requires
            self.edges_in_range(),
        ensures
            b.0 == self.betti_0(),
            b.1 == self.betti_1(),
            b.2 == self.betti_2(),
            self.loop_free() ==> b.0 == self.components(),
            self.loop_free() && self.triangles@.len() == 0 ==> b.1 + self.vertices@.len()
                == self.edges@.len() + self.components(),
            self.triangles_filled() ==> b.0 - b.1 + b.2 == self.vertices@.len() - self.edges@.len()
                + self.triangles@.len(),
            row_space_dimension_is(
                boundary_1_matrix(self.vertices@.len(), self.edges@),
                self.edges@.len(),
                self.rank_1(),
            ),
            row_space_dimension_is(
                boundary_2_matrix(self.edges@, self.triangles@),
                self.triangles@.len(),
                self.rank_2(),
            ),
    {
        let d1 = self.boundary_1();
        let rank_d1 = rank(&d1);
        proof {
            if self.loop_free() {
                let n = self.vertices@.len();
                lemma_non_roots(self.edges@, n);
                lemma_boundary_1_dimension(n, self.edges@);
                lemma_row_space_dimension_unique(
                    d1.entries(),
                    d1.num_cols(),
                    rank_d1 as nat,
                    (n - self.components()) as nat,
                );
                lemma_matrix_rank_bounds(boundary_1_matrix(n, self.edges@), self.edges@.len());
                lemma_matrix_rank_bounds(boundary_2_matrix(self.edges@, self.triangles@), self.triangles@.len());
            }
        }
        let beta0 = self.vertices.len().saturating_sub(rank_d1);
        let d2 = self.boundary_2();
        let rank_d2 = rank(&d2);
        let null_d1 = self.edges.len().saturating_sub(rank_d1);
        let beta1 = null_d1.saturating_sub(rank_d2);
        let beta2 = self.triangles.len().saturating_sub(rank_d2);
        proof {
            if self.triangles_filled() {
                lemma_boundary_ranks_bound(
                    self.vertices@.len(),
                    self.edges@,
                    self.triangles@,
                    rank_d1 as nat,
                    rank_d2 as nat,
                );
                lemma_euler_poincare(*self);
            }
        }
        (beta0, beta1, beta2)
    }

    /// Euler characteristic: χ = β₀ - β₁ + β₂, which is V - E + T when every
    /// triangle is filled in by its three edges.
    pub fn euler_characteristic(&self) -> (chi: i64)
        requires
            self.edges_in_range(),
            self.fits_i64(),
        ensures
            chi == self.betti_0() - self.betti_1() + self.betti_2(),
            self.triangles_filled() ==> chi == self.vertices@.len() - self.edges@.len() + self.triangles@.len(),
    {
        let (b0, b1, b2) = self.betti_numbers();
        b0 as i64 - b1 as i64 + b2 as i64
    }

    /// Check if a cycle is a boundary (trivial in homology). The listed edges, walked in
    /// order, must close up into a cycle, and its signed chain must be a combination of
    /// the triangles' boundaries: adding it to them leaves the rank unchanged. Ranks are
    /// taken over the field of `RANK_MODULUS` elements.
    pub fn is_boundary_cycle(&self, edge_indices: &[usize]) -> (b: bool)
        ensures
            b == is_boundary_spec(self.edges@, self.triangles@, edge_indices@),
            // Walked in order from either end of the first edge, a closed walk whose signed
            // chain is a combination of triangle boundaries makes the answer true.
            forall|start: int, sg: Seq<int>|
                #![trigger closed_walk(walk_signs(self.edges@, edge_indices@, start), start), chain_residues(self.edges@.len(), edge_indices@, sg)]
                edge_indices@.len() > 0 && edge_indices@[0] < self.edges@.len() && (start
                    == self.edges@[edge_indices@[0] as int].0 || start == self.edges@[edge_indices@[0] as int].1)
                    && closed_walk(walk_signs(self.edges@, edge_indices@, start), start) == Some(sg) && in_row_space(
                    reduce_rows(triangle_boundaries(self.edges@, self.triangles@)),
                    chain_residues(self.edges@.len(), edge_indices@, sg),
                    self.edges@.len(),
                ) ==> b,
            // In particular the three sides of a filled triangle, in any order, form a boundary.
            forall|t: int|
                0 <= t < self.triangles@.len() && filled_triangle(self.edges@, #[trigger] self.triangles@[t])
                    && lists_sides(self.edges@, self.triangles@[t], edge_indices@) ==> b,
            // And only such a walk (or the empty list) makes it true.
            b ==> edge_indices@.len() == 0 || exists|start: int, sg: Seq<int>|
                #![trigger closed_walk(walk_signs(self.edges@, edge_indices@, start), start), chain_residues(self.edges@.len(), edge_indices@, sg)]
                edge_indices@[0] < self.edges@.len() && (start == self.edges@[edge_indices@[0] as int].0
                    || start == self.edges@[edge_indices@[0] as int].1) && closed_walk(
                    walk_signs(self.edges@, edge_indices@, start),
                    start,
                ) == Some(sg) && in_row_space(
                    reduce_rows(triangle_boundaries(self.edges@, self.triangles@)),
                    chain_residues(self.edges@.len(), edge_indices@, sg),
                    self.edges@.len(),
                ),
    {
        proof {
            lemma_boundary_direction_free(self.edges@, self.triangles@, edge_indices@);
            assert forall|t: int|
                0 <= t < self.triangles@.len() && filled_triangle(self.edges@, #[trigger] self.triangles@[t])
                    && lists_sides(self.edges@, self.triangles@[t], edge_indices@) implies is_boundary_spec(
                self.edges@,
                self.triangles@,
                edge_indices@,
            ) by {
                lemma_triangle_sides_are_boundary(self.edges@, self.triangles@, t, edge_indices@);
            }
        }
        let n_e = self.edges.len();
        let n_t = self.triangles.len();
        // The signs of the cycle.
        let mut found: Option<Vec<i64>> = None;
        if edge_indices.len() == 0 {
            found = Some(Vec::new());
        } else {
            let first = edge_indices[0];
            if first >= n_e {
                return false;
            }
            let (a, b) = self.edges[first];
            match walk_edges(&self.edges, edge_indices, a) {
                Some((s, w)) => {
                    if w == a {
                        found = Some(s);
                    }
                },
                None => {},
            }
            if found.is_none() {
                match walk_edges(&self.edges, edge_indices, b) {
                    Some((s, w)) => {
                        if w == b {
                            found = Some(s);
                        }
                    },
                    None => {},
                }
            }
        }
        let signs = match found {
            Some(s) => s,
            None => {
                return false;
            },
        };
        let ghost sv = signs@.map_values(|x: i64| x as int);
        proof {
            if edge_indices@.len() == 0 {
                assert(sv =~= Seq::<int>::empty());
            }
            assert(cycle_signs(self.edges@, edge_indices@) == Some(sv));
        }
        // The chain of the cycle, with entries reduced over the field.
        let mut z: Vec<i64> = Vec::new();
        let mut e: usize = 0;
        while e < n_e
            invariant
                e <= n_e,
                z@.len() == e,
                forall|k: int| 0 <= k < e ==> #[trigger] z@[k] == 0,
            decreases n_e - e,
        {
            z.push(0);
            e = e + 1;
        }
        let mut q: usize = 0;
        while q < edge_indices.len()
            invariant
                n_e == self.edges@.len(),
                q <= edge_indices@.len(),
                z@.len() == n_e,
                signs@.len() == edge_indices@.len(),
                sv == signs@.map_values(|x: i64| x as int),
                forall|k: int| 0 <= k < edge_indices@.len() ==> (#[trigger] edge_indices@[k]) < n_e,
                forall|k: int| 0 <= k < signs@.len() ==> #[trigger] signs@[k] == 1 || signs@[k] == -1,
                forall|f: int| 0 <= f < n_e ==> #[trigger] z@[f] as int == modp(chain_entry(edge_indices@, sv, q as int, f)),
            decreases edge_indices@.len() - q,
        {
            let f = edge_indices[q];
            let add: i64 = if signs[q] == 1 { 1 } else { 2147483646 };
            let ghost old_z = z@;
            let cur = z[f];
            let next = (cur + add) % 2147483647;
            z.set(f, next);
            proof {
                let p = RANK_MODULUS as int;
                assert forall|g: int| 0 <= g < n_e implies #[trigger] z@[g] as int == modp(chain_entry(edge_indices@, sv, q + 1, g)) by {
                    let terms = Seq::new(q as nat, |k: int| if edge_indices@[k] as int == g { sv[k] } else { 0 });
                    let extra = if edge_indices@[q as int] as int == g { sv[q as int] } else { 0 };
                    assert(Seq::new((q + 1) as nat, |k: int| if edge_indices@[k] as int == g { sv[k] } else { 0 })
                        =~= terms.push(extra));
                    crate::row_space::lemma_sum_push(terms, extra);
                    if g == f as int {
                        assert(modp(sv[q as int]) == add as int);
                        lemma_add_mod_noop(sum(terms), sv[q as int], p);
                        lemma_mod_twice(sum(terms), p);
                    } else {
                        assert(z@[g] == old_z[g]);
                    }
                }
            }
            q = q + 1;
        }
        // The triangles' boundaries, without and with the chain.
        let d2 = self.boundary_2();
        let mut rows: Vec<Vec<i64>> = Vec::new();
        let mut rows2: Vec<Vec<i64>> = Vec::new();
        let mut t: usize = 0;
        while t < n_t
            invariant
                t <= n_t,
                n_t == self.triangles@.len(),
                n_e == self.edges@.len(),
                d2.num_rows() == n_e,
                d2.num_cols() == n_t,
                d2.entries() == boundary_2_matrix(self.edges@, self.triangles@),
                rows@.len() == t,
                rows2@.len() == t,
                forall|k: int| 0 <= k < t ==> (#[trigger] rows@[k])@.len() == n_e && rows2@[k]@ == rows@[k]@,
                forall|k: int, g: int| 0 <= k < t && 0 <= g < n_e ==>
                    (#[trigger] rows@[k]@[g]) as int == boundary_2_entry(self.edges@, self.triangles@[k], g),
            decreases n_t - t,
        {
            let mut row: Vec<i64> = Vec::new();
            let mut row2: Vec<i64> = Vec::new();
            let mut g: usize = 0;
            while g < n_e
                invariant
                    g <= n_e,
                    t < n_t,
                    n_t == self.triangles@.len(),
                    n_e == self.edges@.len(),
                    d2.num_rows() == n_e,
                    d2.num_cols() == n_t,
                    d2.entries() == boundary_2_matrix(self.edges@, self.triangles@),
                    row@.len() == g,
                    row2@ == row@,
                    forall|h: int| 0 <= h < g ==> (#[trigger] row@[h]) as int == boundary_2_entry(
                        self.edges@,
                        self.triangles@[t as int],
                        h,
                    ),
                decreases n_e - g,
            {
                let x = d2.entry(g, t);
                row.push(x);
                row2.push(x);
                g = g + 1;
            }
            rows.push(row);
            rows2.push(row2);
            t = t + 1;
        }
        let ghost zint = z@.map_values(|x: i64| x as int);
        let ghost zv = z@;
        rows2.push(z);
        let n_rows2 = rows2.len();
        proof {
            assert forall|i: int| 0 <= i < n_rows2 implies #[trigger] rows2@[i]@.len() == n_e by {
                if i < n_t {
                    assert(rows2@[i]@ == rows@[i]@);
                } else {
                    assert(rows2@[i]@ == zv);
                }
            }
        }
        let ghost rows_v = rows@;
        let ghost rows2_v = rows2@;
        let m1 = IntMatrix::from_rows(n_t, n_e, rows);
        let m2 = IntMatrix::from_rows(n_rows2, n_e, rows2);
        let r1 = rank(&m1);
        let r2 = rank(&m2);
        proof {
            let tb = triangle_boundaries(self.edges@, self.triangles@);
            assert forall|k: int| 0 <= k < n_t implies #[trigger] m1.entries()[k] =~= tb[k] by {
                assert forall|g: int| 0 <= g < n_e implies m1.entries()[k][g] == tb[k][g] by {
                    assert(m1.entries()[k][g] == rows_v[k]@[g] as int);
                }
            }
            assert(m1.entries() =~= tb);
            assert forall|k: int| 0 <= k < n_rows2 implies #[trigger] m2.entries()[k] =~= m1.entries().push(zint)[k] by {
                if k < n_t {
                    assert(rows2_v[k]@ == rows_v[k]@);
                } else {
                    assert(rows2_v[k]@ == zv);
                }
            }
            assert(m2.entries() =~= m1.entries().push(zint));
            lemma_push_row_dimension(m1.entries(), zint, n_e as nat, r1 as nat, r2 as nat);
            let zr = zint.map_values(|x: int| modp(x));
            assert forall|g: int| 0 <= g < n_e implies #[trigger] zr[g]
                == chain_residues(self.edges@.len(), edge_indices@, sv)[g] by {
                lemma_mod_twice(chain_entry(edge_indices@, sv, edge_indices@.len() as int, g), RANK_MODULUS as int);
            }
            assert(zr =~= chain_residues(self.edges@.len(), edge_indices@, sv));
        }
        r1 == r2
    }

    /// Full homology analysis.
    pub fn homology(&self) -> (h: HomologyResult)
        requires
            self.edges_in_range(),
            self.fits_i64(),
        ensures
            h.betti.0 == self.betti_0(),
            self.loop_free() ==> h.betti.0 == self.components(),
            self.triangles_filled() ==> h.euler_characteristic == self.vertices@.len() - self.edges@.len()
                + self.triangles@.len(),
            h.betti.1 == self.betti_1(),
            h.betti.2 == self.betti_2(),
            h.euler_characteristic == self.betti_0() - self.betti_1() + self.betti_2(),
            h.n_vertices == self.vertices@.len(),
            h.n_edges == self.edges@.len(),
            h.n_triangles == self.triangles@.len(),
    {
        let betti = self.betti_numbers();
        HomologyResult {
            betti,
            euler_characteristic: self.euler_characteristic(),
            n_vertices: self.vertices.len(),
            n_edges: self.edges.len(),
            n_triangles: self.triangles.len(),
        }
    }
}

/// Euler–Poincaré: when the ranks of ∂₁ and ∂₂ together do not exceed the number of
/// edges (so no Betti number is clipped at zero), β₀ - β₁ + β₂ = V - E + T.
pub proof fn lemma_euler_poincare(c: PatternComplex)
    requires
        c.rank_1() + c.rank_2() <= c.edges@.len(),
    ensures
        c.betti_0() - c.betti_1() + c.betti_2() == c.vertices@.len() - c.edges@.len() + c.triangles@.len(),
{
    lemma_matrix_rank_bounds(boundary_1_matrix(c.vertices@.len(), c.edges@), c.edges@.len());
    lemma_matrix_rank_bounds(boundary_2_matrix(c.edges@, c.triangles@), c.triangles@.len());
}

} // verus!
