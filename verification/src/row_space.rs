//! Row spaces over the prime field of `RANK_MODULUS` elements: combinations of
//! combinations, the exchange lemma, and the uniqueness of dimension.

use vstd::prelude::*;
use vstd::arithmetic::div_mod::*;
use vstd::arithmetic::mul::*;
use crate::row_reduction::{
    comb_terms, in_row_space, is_residue_matrix, is_row_basis, lemma_comb_linear,
    lemma_inverse_exists, lemma_sum_linear, lemma_sum_zeros, lemma_unit_comb, lin_comb,
    linearly_independent, modp, reduce_rows, row_space_dimension_is, sum, unit_vector,
    zero_vector, RANK_MODULUS,
};

verus! {

/// The sum of a scaled sequence is the scaled sum.
pub(crate) proof fn lemma_sum_scale(s: Seq<int>, a: int)
    ensures
        sum(Seq::new(s.len(), |i: int| a * s[i])) == a * sum(s),
{
    lemma_sum_linear(s, s, a, 0);
    assert(Seq::new(s.len(), |i: int| a * s[i] + 0 * s[i]) =~= Seq::new(s.len(), |i: int| a * s[i]));
}

/// The sum of a pointwise sum is the sum of the sums.
pub(crate) proof fn lemma_sum_add(s: Seq<int>, t: Seq<int>)
    requires
        s.len() == t.len(),
    ensures
        sum(Seq::new(s.len(), |i: int| s[i] + t[i])) == sum(s) + sum(t),
{
    lemma_sum_linear(s, t, 1, 1);
    assert(Seq::new(s.len(), |i: int| 1 * s[i] + 1 * t[i]) =~= Seq::new(s.len(), |i: int| s[i] + t[i]));
}

/// Sums agree term by term modulo `RANK_MODULUS` when their terms do.
pub(crate) proof fn lemma_sum_mod(s: Seq<int>, t: Seq<int>)
    requires
        s.len() == t.len(),
        forall|i: int| 0 <= i < s.len() ==> modp(#[trigger] s[i]) == modp(t[i]),
    ensures
        modp(sum(s)) == modp(sum(t)),
    decreases s.len(),
{
    if s.len() > 0 {
        let p = RANK_MODULUS as int;
        lemma_sum_mod(s.drop_first(), t.drop_first());
        lemma_add_mod_noop(s[0], sum(s.drop_first()), p);
        lemma_add_mod_noop(t[0], sum(t.drop_first()), p);
    }
}

/// The row sums and the column sums of a table have the same total.
pub(crate) proof fn lemma_sum_swap(t: Seq<Seq<int>>, m: nat)
    requires
        forall|k: int| 0 <= k < t.len() ==> (#[trigger] t[k]).len() == m,
    ensures
        sum(Seq::new(t.len(), |k: int| sum(t[k]))) == sum(
            Seq::new(m, |i: int| sum(Seq::new(t.len(), |k: int| t[k][i]))),
        ),
    decreases t.len(),
{
    let rows = Seq::new(t.len(), |k: int| sum(t[k]));
    let cols = Seq::new(m, |i: int| sum(Seq::new(t.len(), |k: int| t[k][i])));
    if t.len() == 0 {
        assert forall|i: int| 0 <= i < cols.len() implies cols[i] == 0 by {
            assert(Seq::new(t.len(), |k: int| t[k][i]) =~= Seq::<int>::empty());
        }
        lemma_sum_zeros(cols);
    } else {
        let rest = t.drop_first();
        lemma_sum_swap(rest, m);
        let rest_rows = Seq::new(rest.len(), |k: int| sum(rest[k]));
        let rest_cols = Seq::new(m, |i: int| sum(Seq::new(rest.len(), |k: int| rest[k][i])));
        assert(rows.drop_first() =~= rest_rows);
        assert forall|i: int| 0 <= i < m implies #[trigger] cols[i] == t[0][i] + rest_cols[i] by {
            assert(Seq::new(t.len(), |k: int| t[k][i]).drop_first() =~= Seq::new(rest.len(), |k: int| rest[k][i]));
        }
        assert(cols =~= Seq::new(t[0].len(), |i: int| t[0][i] + rest_cols[i]));
        lemma_sum_add(t[0], rest_cols);
    }
}

/// The coefficients Σ_k d[k] · g[k], for coefficient vectors g[k] of length m.
pub open spec fn mix(g: Seq<Seq<int>>, d: Seq<int>, m: nat) -> Seq<int> {
    Seq::new(m, |i: int| sum(Seq::new(g.len(), |k: int| d[k] * g[k][i])))
}

/// A combination of combinations is a combination: when y[k] = Σ_i g[k][i] · x[i],
/// Σ_k d[k] · y[k] = Σ_i mix(g, d)[i] · x[i].
pub proof fn lemma_comb_compose(x: Seq<Seq<int>>, g: Seq<Seq<int>>, d: Seq<int>, n: nat)
    requires
        d.len() == g.len(),
        forall|k: int| 0 <= k < g.len() ==> (#[trigger] g[k]).len() == x.len(),
    ensures
        lin_comb(Seq::new(g.len(), |k: int| lin_comb(x, g[k], n)), d, n) == lin_comb(
            x,
            mix(g, d, x.len()),
            n,
        ),
{
    let p = RANK_MODULUS as int;
    let y = Seq::new(g.len(), |k: int| lin_comb(x, g[k], n));
    let c = mix(g, d, x.len());
    assert forall|j: int| 0 <= j < n implies #[trigger] lin_comb(y, d, n)[j] == lin_comb(x, c, n)[j] by {
        let t = Seq::new(
            g.len(),
            |k: int| Seq::new(x.len(), |i: int| d[k] * (g[k][i] * x[i][j])),
        );
        let lhs_terms = comb_terms(y, d, j);
        let raw = Seq::new(g.len(), |k: int| sum(t[k]));
        assert forall|k: int| 0 <= k < g.len() implies modp(#[trigger] lhs_terms[k]) == modp(raw[k]) by {
            let ct = comb_terms(x, g[k], j);
            lemma_mul_mod_noop_right(d[k], sum(ct), p);
            lemma_sum_scale(ct, d[k]);
            assert(Seq::new(ct.len(), |i: int| d[k] * ct[i]) =~= t[k]);
        }
        lemma_sum_mod(lhs_terms, raw);
        lemma_sum_swap(t, x.len());
        let cols = Seq::new(x.len(), |i: int| sum(Seq::new(t.len(), |k: int| t[k][i])));
        assert forall|i: int| 0 <= i < x.len() implies #[trigger] cols[i] == c[i] * x[i][j] by {
            let s = Seq::new(g.len(), |k: int| d[k] * g[k][i]);
            lemma_sum_scale(s, x[i][j]);
            assert forall|k: int| 0 <= k < g.len() implies #[trigger] t[k][i] == x[i][j] * s[k] by {
                assert(d[k] * (g[k][i] * x[i][j]) == x[i][j] * (d[k] * g[k][i])) by (nonlinear_arith);
            }
            assert(Seq::new(t.len(), |k: int| t[k][i]) =~= Seq::new(s.len(), |k: int| x[i][j] * s[k]));
            lemma_mul_is_commutative(c[i], x[i][j]);
        }
        assert(cols =~= comb_terms(x, c, j));
        assert(raw =~= Seq::new(t.len(), |k: int| sum(t[k])));
    }
    assert(lin_comb(y, d, n) =~= lin_comb(x, c, n));
}

/// Spans are transitive: what lies in the span of `m` lies in the span of `b` when
/// every row of `m` does.
pub proof fn lemma_span_transitive(m: Seq<Seq<int>>, b: Seq<Seq<int>>, v: Seq<int>, n: nat)
    requires
        in_row_space(m, v, n),
        forall|i: int| 0 <= i < m.len() ==> in_row_space(b, #[trigger] m[i], n),
    ensures
        in_row_space(b, v, n),
{
    let c = choose|c: Seq<int>| c.len() == m.len() && #[trigger] lin_comb(m, c, n) == v;
    let g = Seq::new(
        m.len(),
        |i: int| choose|gi: Seq<int>| gi.len() == b.len() && #[trigger] lin_comb(b, gi, n) == m[i],
    );
    assert forall|i: int| 0 <= i < m.len() implies (#[trigger] g[i]).len() == b.len() && lin_comb(b, g[i], n)
        == m[i] by {
        assert(in_row_space(b, m[i], n));
    }
    lemma_comb_compose(b, g, c, n);
    assert(Seq::new(g.len(), |k: int| lin_comb(b, g[k], n)) =~= m);
    let w = mix(g, c, b.len());
    assert(lin_comb(b, w, n) == v);
}

/// The sum of a sequence with one more term.
pub(crate) proof fn lemma_sum_push(s: Seq<int>, x: int)
    ensures
        sum(s.push(x)) == sum(s) + x,
{
    crate::row_reduction::lemma_sum_split(s.push(x), s.len() as int);
    assert(s.push(x).take(s.len() as int) =~= s);
    assert(s.push(x).skip(s.len() as int) =~= seq![x]);
    assert(seq![x].drop_first() =~= Seq::<int>::empty());
    assert(sum(Seq::<int>::empty()) == 0);
    assert(sum(seq![x]) == x + sum(seq![x].drop_first()));
}

/// A last coefficient that vanishes over the field can be dropped with the last row.
pub(crate) proof fn lemma_drop_last_coefficient(b: Seq<Seq<int>>, c: Seq<int>, n: nat)
    requires
        b.len() > 0,
        c.len() == b.len(),
        modp(c.last()) == 0,
    ensures
        lin_comb(b, c, n) == lin_comb(b.drop_last(), c.drop_last(), n),
{
    let p = RANK_MODULUS as int;
    assert forall|j: int| 0 <= j < n implies #[trigger] lin_comb(b, c, n)[j] == lin_comb(
        b.drop_last(),
        c.drop_last(),
        n,
    )[j] by {
        let front = comb_terms(b.drop_last(), c.drop_last(), j);
        let last = c.last() * b.last()[j];
        assert(comb_terms(b, c, j) =~= front.push(last));
        lemma_sum_push(front, last);
        lemma_mul_mod_noop_left(c.last(), b.last()[j], p);
        assert(modp(0 * b.last()[j]) == 0);
        lemma_add_mod_noop(sum(front), last, p);
        lemma_mod_twice(sum(front), p);
    }
    assert(lin_comb(b, c, n) =~= lin_comb(b.drop_last(), c.drop_last(), n));
}

/// Vectors in a span have n residue entries.
pub(crate) proof fn lemma_span_rows_are_residues(a: Seq<Seq<int>>, b: Seq<Seq<int>>, n: nat)
    requires
        forall|i: int| 0 <= i < a.len() ==> in_row_space(b, #[trigger] a[i], n),
    ensures
        is_residue_matrix(a, n),
{
    assert forall|i: int| 0 <= i < a.len() implies {
        &&& (#[trigger] a[i]).len() == n
        &&& forall|j: int| 0 <= j < n ==> 0 <= #[trigger] a[i][j] < RANK_MODULUS
    } by {
        assert(in_row_space(b, a[i], n));
        let c = choose|c: Seq<int>| c.len() == b.len() && #[trigger] lin_comb(b, c, n) == a[i];
        assert(lin_comb(b, c, n) == a[i]);
    }
}

/// Clearing the last coefficient: when mu inverts y over the field,
/// x - (x mod p)·mu·y vanishes over the field.
proof fn lemma_clear_coefficient(x: int, y: int, mu: int)
    requires
        modp(modp(y) * mu) == 1,
    ensures
        modp(1 * x - (modp(x) * mu) * y) == 0,
{
    let p = RANK_MODULUS as int;
    let xr = modp(x);
    assert((xr * mu) * y == xr * (mu * y)) by (nonlinear_arith);
    lemma_mul_mod_noop_right(mu, y, p);
    lemma_mul_is_commutative(modp(y), mu);
    assert(modp(mu * y) == 1);
    lemma_mul_mod_noop_right(xr, mu * y, p);
    assert(modp(xr * (mu * y)) == modp(xr * 1));
    lemma_mod_twice(x, p);
    lemma_sub_mod_noop(x, xr * (mu * y), p);
    assert(modp(x - xr * (mu * y)) == modp(xr - xr));
}

/// The exchange lemma: independent vectors that lie in the span of `b` are no more
/// numerous than the rows of `b`.
pub proof fn lemma_independent_in_span(a: Seq<Seq<int>>, b: Seq<Seq<int>>, n: nat)
    requires
        linearly_independent(a, n),
        forall|i: int| 0 <= i < a.len() ==> in_row_space(b, #[trigger] a[i], n),
    ensures
        a.len() <= b.len(),
    decreases b.len(),
{
    let p = RANK_MODULUS as int;
    lemma_span_rows_are_residues(a, b, n);
    if a.len() > 0 && b.len() == 0 {
        assert(in_row_space(b, a[0], n));
        let c0 = choose|c: Seq<int>| c.len() == b.len() && #[trigger] lin_comb(b, c, n) == a[0];
        assert forall|j: int| 0 <= j < n implies #[trigger] a[0][j] == 0 by {
            assert(comb_terms(b, c0, j) =~= Seq::<int>::empty());
            assert(sum(Seq::<int>::empty()) == 0);
            assert(lin_comb(b, c0, n)[j] == modp(sum(comb_terms(b, c0, j))));
        }
        assert(a[0] =~= zero_vector(n));
        let e = unit_vector(a.len(), 0);
        lemma_unit_comb(a, 0, n);
        assert(lin_comb(a, e, n) == zero_vector(n));
        assert(modp(e[0]) == 0);
        lemma_small_mod(1, p as nat);
    } else if a.len() > 0 {
        let last = b.len() - 1;
        let b1 = b.drop_last();
        let g = Seq::new(
            a.len(),
            |i: int| choose|gi: Seq<int>| gi.len() == b.len() && #[trigger] lin_comb(b, gi, n) == a[i],
        );
        assert forall|i: int| 0 <= i < a.len() implies (#[trigger] g[i]).len() == b.len() && lin_comb(
            b,
            g[i],
            n,
        ) == a[i] by {
            assert(in_row_space(b, a[i], n));
        }
        if forall|i: int| 0 <= i < a.len() ==> #[trigger] modp(g[i][last]) == 0 {
            assert forall|i: int| 0 <= i < a.len() implies in_row_space(b1, #[trigger] a[i], n) by {
                assert(modp(g[i][last]) == 0);
                lemma_drop_last_coefficient(b, g[i], n);
                assert(lin_comb(b1, g[i].drop_last(), n) == a[i]);
            }
            lemma_independent_in_span(a, b1, n);
        } else {
            let i0 = choose|i: int| 0 <= i < a.len() && modp(#[trigger] g[i][last]) != 0;
            let l0 = modp(g[i0][last]);
            lemma_inverse_exists(l0);
            let mu = choose|mu: int| #[trigger] modp(l0 * mu) == 1;
            let m = (a.len() - 1) as nat;
            let h = Seq::new(
                m,
                |k: int|
                    Seq::new(
                        a.len(),
                        |i: int|
                            1 * unit_vector(a.len(), if k < i0 { k } else { k + 1 })[i] - (modp(
                                g[if k < i0 { k } else { k + 1 }][last],
                            ) * mu) * unit_vector(a.len(), i0)[i],
                    ),
            );
            let a2 = Seq::new(m, |k: int| lin_comb(a, h[k], n));
            assert forall|k: int| 0 <= k < m implies in_row_space(b1, #[trigger] a2[k], n) by {
                let ik = if k < i0 { k } else { k + 1 };
                let s = modp(g[ik][last]) * mu;
                lemma_comb_linear(a, unit_vector(a.len(), ik), unit_vector(a.len(), i0), 1, s, n);
                lemma_unit_comb(a, ik, n);
                lemma_unit_comb(a, i0, n);
                assert(h[k] =~= Seq::new(
                    a.len(),
                    |i: int| 1 * unit_vector(a.len(), ik)[i] - s * unit_vector(a.len(), i0)[i],
                ));
                let gk = Seq::new(b.len(), |i: int| 1 * g[ik][i] - s * g[i0][i]);
                lemma_comb_linear(b, g[ik], g[i0], 1, s, n);
                assert(lin_comb(b, gk, n) =~= a2[k]);
                lemma_clear_coefficient(g[ik][last], g[i0][last], mu);
                assert(modp(gk.last()) == 0);
                lemma_drop_last_coefficient(b, gk, n);
                assert(lin_comb(b1, gk.drop_last(), n) == a2[k]);
            }
            assert forall|d: Seq<int>|
                d.len() == a2.len() && #[trigger] lin_comb(a2, d, n) == zero_vector(n) implies forall|k: int|
                0 <= k < d.len() ==> #[trigger] modp(d[k]) == 0 by {
                assert forall|k: int| 0 <= k < h.len() implies (#[trigger] h[k]).len() == a.len() by {}
                lemma_comb_compose(a, h, d, n);
                assert(Seq::new(h.len(), |k: int| lin_comb(a, h[k], n)) =~= a2);
                let w = mix(h, d, a.len());
                assert(lin_comb(a, w, n) == zero_vector(n));
                assert forall|k: int| 0 <= k < d.len() implies #[trigger] modp(d[k]) == 0 by {
                    let ik = if k < i0 { k } else { k + 1 };
                    let terms = Seq::new(h.len(), |k2: int| d[k2] * h[k2][ik]);
                    let zeros = Seq::new(h.len(), |k2: int| 0int);
                    assert forall|k2: int| 0 <= k2 < h.len() implies #[trigger] terms[k2] == zeros.update(
                        k,
                        d[k],
                    )[k2] by {
                        let ik2 = if k2 < i0 { k2 } else { k2 + 1 };
                        let s2 = modp(g[ik2][last]) * mu;
                        assert(h[k2][ik] == 1 * unit_vector(a.len(), ik2)[ik] - s2 * unit_vector(a.len(), i0)[ik]);
                        assert(unit_vector(a.len(), i0)[ik] == 0);
                        lemma_mul_basics(s2);
                        lemma_mul_basics(d[k2]);
                        if k2 == k {
                            assert(unit_vector(a.len(), ik2)[ik] == 1);
                            assert(h[k2][ik] == 1);
                            assert(terms[k2] == d[k2] * 1);
                        } else {
                            assert(ik2 != ik);
                            assert(unit_vector(a.len(), ik2)[ik] == 0);
                            assert(h[k2][ik] == 0);
                            assert(terms[k2] == d[k2] * 0);
                        }
                    }
                    assert(terms =~= zeros.update(k, d[k]));
                    lemma_sum_zeros(zeros);
                    crate::row_reduction::lemma_sum_update(zeros, k, d[k]);
                    assert(w[ik] == d[k]);
                    assert(modp(w[ik]) == 0);
                }
            }
            lemma_independent_in_span(a2, b1, n);
        }
    }
}

/// The dimension of a row space is well defined: any two bases have the same size.
pub proof fn lemma_basis_size_unique(m: Seq<Seq<int>>, b1: Seq<Seq<int>>, b2: Seq<Seq<int>>, n: nat)
    requires
        is_row_basis(b1, m, n),
        is_row_basis(b2, m, n),
    ensures
        b1.len() == b2.len(),
{
    assert forall|i: int| 0 <= i < b1.len() implies in_row_space(b2, #[trigger] b1[i], n) by {
        lemma_span_transitive(m, b2, b1[i], n);
    }
    assert forall|i: int| 0 <= i < b2.len() implies in_row_space(b1, #[trigger] b2[i], n) by {
        lemma_span_transitive(m, b1, b2[i], n);
    }
    lemma_independent_in_span(b1, b2, n);
    lemma_independent_in_span(b2, b1, n);
}

/// Coefficients matter only modulo `RANK_MODULUS`.
pub proof fn lemma_coefficients_mod(x: Seq<Seq<int>>, w: Seq<int>, w2: Seq<int>, n: nat)
    requires
        w.len() == x.len(),
        w2.len() == x.len(),
        forall|i: int| 0 <= i < x.len() ==> modp(#[trigger] w[i]) == modp(w2[i]),
    ensures
        lin_comb(x, w, n) == lin_comb(x, w2, n),
{
    let p = RANK_MODULUS as int;
    assert forall|j: int| 0 <= j < n implies #[trigger] lin_comb(x, w, n)[j] == lin_comb(x, w2, n)[j] by {
        let s = comb_terms(x, w, j);
        let t = comb_terms(x, w2, j);
        assert forall|i: int| 0 <= i < s.len() implies modp(#[trigger] s[i]) == modp(t[i]) by {
            lemma_mul_mod_noop_left(w[i], x[i][j], p);
            lemma_mul_mod_noop_left(w2[i], x[i][j], p);
        }
        lemma_sum_mod(s, t);
    }
    assert(lin_comb(x, w, n) =~= lin_comb(x, w2, n));
}

/// A combination of the rows of `a` followed by those of `b` splits into the two parts.
proof fn lemma_lin_comb_concat(a: Seq<Seq<int>>, b: Seq<Seq<int>>, c: Seq<int>, n: nat, j: int)
    requires
        c.len() == a.len() + b.len(),
        0 <= j < n,
    ensures
        lin_comb(a + b, c, n)[j] == modp(
            sum(comb_terms(a, c.take(a.len() as int), j)) + sum(comb_terms(b, c.skip(a.len() as int), j)),
        ),
{
    let terms = comb_terms(a + b, c, j);
    crate::row_reduction::lemma_sum_split(terms, a.len() as int);
    assert(terms.take(a.len() as int) =~= comb_terms(a, c.take(a.len() as int), j));
    assert(terms.skip(a.len() as int) =~= comb_terms(b, c.skip(a.len() as int), j));
}

/// The unit vectors of length m, as rows.
pub open spec fn identity_rows(m: nat) -> Seq<Seq<int>> {
    Seq::new(m, |i: int| unit_vector(m, i))
}

/// Every residue vector of length m is a combination of the unit rows.
proof fn lemma_identity_span(v: Seq<int>, m: nat)
    requires
        v.len() == m,
        forall|i: int| 0 <= i < m ==> 0 <= #[trigger] v[i] < RANK_MODULUS,
    ensures
        in_row_space(identity_rows(m), v, m),
{
    let id = identity_rows(m);
    assert forall|j: int| 0 <= j < m implies #[trigger] lin_comb(id, v, m)[j] == v[j] by {
        let terms = comb_terms(id, v, j);
        let zeros = Seq::new(m, |i: int| 0int);
        assert forall|i: int| 0 <= i < m implies #[trigger] terms[i] == zeros.update(j, v[j])[i] by {
            lemma_mul_basics(v[i]);
        }
        assert(terms =~= zeros.update(j, v[j]));
        lemma_sum_zeros(zeros);
        crate::row_reduction::lemma_sum_update(zeros, j, v[j]);
        lemma_small_mod(v[j] as nat, RANK_MODULUS as nat);
    }
    assert(lin_comb(id, v, m) =~= v);
}

/// When independent vectors `y` of length m annihilate the m rows of `nm`
/// (Σ_e y[e] · nm[e] = 0), they and a basis of the row space of `nm` are together
/// at most m in number: rank(nm) + |y| <= m.
pub proof fn lemma_annihilator_bound(y: Seq<Seq<int>>, nm: Seq<Seq<int>>, bb: Seq<Seq<int>>, m: nat, t: nat)
    requires
        nm.len() == m,
        is_residue_matrix(y, m),
        linearly_independent(y, m),
        forall|i: int| 0 <= i < y.len() ==> lin_comb(nm, #[trigger] y[i], t) == zero_vector(t),
        is_row_basis(bb, nm, t),
    ensures
        y.len() + bb.len() <= m,
{
    let p = RANK_MODULUS as int;
    let ny = y.len() as int;
    // Residue preimages of the basis vectors.
    let x = Seq::new(
        bb.len(),
        |k: int|
            (choose|c: Seq<int>| c.len() == nm.len() && #[trigger] lin_comb(nm, c, t) == bb[k]).map_values(
                |v: int| modp(v),
            ),
    );
    assert forall|k: int| 0 <= k < bb.len() implies (#[trigger] x[k]).len() == m && lin_comb(nm, x[k], t)
        == bb[k] && forall|e: int| 0 <= e < m ==> 0 <= #[trigger] x[k][e] < RANK_MODULUS by {
        assert(in_row_space(nm, bb[k], t));
        let c = choose|c: Seq<int>| c.len() == nm.len() && #[trigger] lin_comb(nm, c, t) == bb[k];
        assert forall|i: int| 0 <= i < nm.len() implies modp(#[trigger] x[k][i]) == modp(c[i]) by {
            lemma_mod_twice(c[i], p);
        }
        lemma_coefficients_mod(nm, x[k], c, t);
    }
    let z = y + x;
    // Images of z under the rows of nm: zero for y, the basis for x.
    let w = Seq::new(z.len(), |i: int| lin_comb(nm, z[i], t));
    assert forall|gam: Seq<int>| gam.len() == z.len() && #[trigger] lin_comb(z, gam, m) == zero_vector(m) implies forall|i: int|
        0 <= i < gam.len() ==> #[trigger] modp(gam[i]) == 0 by {
        assert forall|i: int| 0 <= i < z.len() implies (#[trigger] z[i]).len() == nm.len() by {
            if i >= ny {
                assert(z[i] == x[i - ny]);
            }
        }
        lemma_comb_compose(nm, z, gam, t);
        let mx = mix(z, gam, m);
        assert forall|e: int| 0 <= e < m implies modp(#[trigger] mx[e]) == modp(0int) by {
            assert(comb_terms(z, gam, e) =~= Seq::new(z.len(), |k: int| gam[k] * z[k][e]));
            assert(lin_comb(z, gam, m)[e] == zero_vector(m)[e]);
            lemma_mul_basics(gam[0]);
        }
        let zeros_m = Seq::new(m, |e: int| 0int);
        lemma_coefficients_mod(nm, mx, zeros_m, t);
        assert forall|j: int| 0 <= j < t implies #[trigger] lin_comb(nm, zeros_m, t)[j] == 0 by {
            let terms = comb_terms(nm, zeros_m, j);
            assert forall|i: int| 0 <= i < terms.len() implies #[trigger] terms[i] == 0 by {
                lemma_mul_basics(nm[i][j]);
            }
            lemma_sum_zeros(terms);
        }
        assert(Seq::new(z.len(), |k: int| lin_comb(nm, z[k], t)) =~= w);
        // So Σ gam[i] w[i] = 0, and the y-part of w is zero.
        assert(w =~= Seq::new(y.len(), |i: int| lin_comb(nm, y[i], t)) + Seq::new(
            x.len(),
            |k: int| lin_comb(nm, x[k], t),
        ));
        let wy = Seq::new(y.len(), |i: int| lin_comb(nm, y[i], t));
        let wx = Seq::new(x.len(), |k: int| lin_comb(nm, x[k], t));
        assert(wx =~= bb);
        assert forall|j: int| 0 <= j < t implies #[trigger] lin_comb(bb, gam.skip(ny), t)[j] == 0 by {
            lemma_lin_comb_concat(wy, wx, gam, t, j);
            let front = comb_terms(wy, gam.take(ny), j);
            assert forall|i: int| 0 <= i < front.len() implies #[trigger] front[i] == 0 by {
                assert(wy[i] == zero_vector(t));
                lemma_mul_basics(gam[i]);
            }
            lemma_sum_zeros(front);
            assert(lin_comb(w, gam, t)[j] == lin_comb(nm, mx, t)[j]);
            assert(lin_comb(nm, mx, t)[j] == 0);
        }
        assert(lin_comb(bb, gam.skip(ny), t) =~= zero_vector(t));
        assert forall|k: int| 0 <= k < x.len() implies #[trigger] modp(gam[ny + k]) == 0 by {
            assert(modp(gam.skip(ny)[k]) == 0);
        }
        // The x-part of the combination vanishes over the field.
        let gam2 = Seq::new(gam.len(), |i: int| if i < ny { gam[i] } else { 0int });
        assert forall|i: int| 0 <= i < z.len() implies modp(#[trigger] gam[i]) == modp(gam2[i]) by {
            if i >= ny {
                assert(modp(gam[ny + (i - ny)]) == 0);
            }
        }
        lemma_coefficients_mod(z, gam, gam2, m);
        assert forall|e: int| 0 <= e < m implies #[trigger] lin_comb(y, gam.take(ny), m)[e] == 0 by {
            lemma_lin_comb_concat(y, x, gam2, m, e);
            let back = comb_terms(x, gam2.skip(ny), e);
            assert forall|k: int| 0 <= k < back.len() implies #[trigger] back[k] == 0 by {
                lemma_mul_basics(x[k][e]);
            }
            lemma_sum_zeros(back);
            assert(gam2.take(ny) =~= gam.take(ny));
            assert(lin_comb(z, gam2, m)[e] == lin_comb(z, gam, m)[e]);
        }
        assert(lin_comb(y, gam.take(ny), m) =~= zero_vector(m));
        assert forall|i: int| 0 <= i < gam.len() implies #[trigger] modp(gam[i]) == 0 by {
            if i < ny {
                assert(modp(gam.take(ny)[i]) == 0);
            } else {
                assert(modp(gam[ny + (i - ny)]) == 0);
            }
        }
    }
    assert forall|i: int| 0 <= i < z.len() implies in_row_space(identity_rows(m), #[trigger] z[i], m) by {
        if i < ny {
            assert(z[i] == y[i]);
        } else {
            assert(z[i] == x[i - ny]);
        }
        lemma_identity_span(z[i], m);
    }
    lemma_independent_in_span(z, identity_rows(m), m);
}

/// A row space has one dimension.
pub proof fn lemma_row_space_dimension_unique(m: Seq<Seq<int>>, n: nat, d1: nat, d2: nat)
    requires
        row_space_dimension_is(m, n, d1),
        row_space_dimension_is(m, n, d2),
    ensures
        d1 == d2,
{
    let b1 = choose|b: Seq<Seq<int>>| b.len() == d1 && #[trigger] is_row_basis(b, reduce_rows(m), n);
    let b2 = choose|b: Seq<Seq<int>>| b.len() == d2 && #[trigger] is_row_basis(b, reduce_rows(m), n);
    lemma_basis_size_unique(reduce_rows(m), b1, b2, n);
}

/// Solving for the last vector of a vanishing combination: when S + g·z vanishes
/// over the field, z is a residue and mu inverts g, then z is -mu·S over the field.
proof fn lemma_solve_last(s: int, g: int, z: int, mu: int)
    requires
        modp(s + g * z) == 0,
        modp(modp(g) * mu) == 1,
        0 <= z < RANK_MODULUS,
    ensures
        modp(-mu * s) == z,
{
    let p = RANK_MODULUS as int;
    lemma_mul_mod_noop_right(mu, s + g * z, p);
    assert(modp(mu * 0) == 0);
    assert(mu * (s + g * z) == mu * s + (mu * g) * z) by (nonlinear_arith);
    lemma_mul_mod_noop_right(mu, g, p);
    lemma_mul_is_commutative(modp(g), mu);
    assert(modp(mu * g) == 1);
    lemma_mul_mod_noop_left(mu * g, z, p);
    assert(modp(1 * z) == z) by {
        lemma_small_mod(z as nat, p as nat);
    }
    lemma_add_mod_noop(mu * s, (mu * g) * z, p);
    // modp(mu * s) + z is 0 or p.
    let x = modp(mu * s);
    assert(modp(x + z) == 0) by {
        lemma_mod_twice(mu * s, p);
        lemma_small_mod(z as nat, p as nat);
    }
    assert(-mu * s == -(mu * s)) by (nonlinear_arith);
    lemma_sub_mod_noop(0, mu * s, p);
    assert(modp(0) == 0);
    assert(modp(-mu * s) == modp(0 - x));
    if x + z == 0 {
        assert(x == 0 && z == 0);
    } else {
        assert(x + z == p);
        lemma_mod_add_multiples_vanish(0 - x, p);
        lemma_small_mod(z as nat, p as nat);
    }
}

/// Adding a vector v to a matrix keeps the dimension of its row space exactly when v
/// (reduced over the field) already lies in that row space.
pub proof fn lemma_push_row_dimension(m: Seq<Seq<int>>, v: Seq<int>, n: nat, r: nat, r2: nat)
    requires
        v.len() == n,
        row_space_dimension_is(m, n, r),
        row_space_dimension_is(m.push(v), n, r2),
    ensures
        r2 == r <==> in_row_space(reduce_rows(m), v.map_values(|x: int| modp(x)), n),
{
    let p = RANK_MODULUS as int;
    let rm = reduce_rows(m);
    let zr = v.map_values(|x: int| modp(x));
    let r2m = reduce_rows(m.push(v));
    assert(r2m =~= rm.push(zr));
    let b = choose|b: Seq<Seq<int>>| b.len() == r && #[trigger] is_row_basis(b, rm, n);
    let b2 = choose|b: Seq<Seq<int>>| b.len() == r2 && #[trigger] is_row_basis(b, r2m, n);
    lemma_span_rows_are_residues(rm, b, n);
    assert forall|i: int| 0 <= i < b.len() implies in_row_space(r2m, #[trigger] b[i], n) by {
        assert(in_row_space(rm, b[i], n));
        let c = choose|c: Seq<int>| c.len() == rm.len() && #[trigger] lin_comb(rm, c, n) == b[i];
        lemma_drop_last_coefficient(r2m, c.push(0), n);
        assert(c.push(0).drop_last() =~= c);
        assert(r2m.drop_last() =~= rm);
    }
    if in_row_space(rm, zr, n) {
        assert forall|i: int| 0 <= i < r2m.len() implies in_row_space(b, #[trigger] r2m[i], n) by {
            if i < rm.len() {
                assert(r2m[i] == rm[i]);
            } else {
                assert(r2m[i] == zr);
                lemma_span_transitive(rm, b, zr, n);
            }
        }
        assert(is_row_basis(b, r2m, n));
        lemma_basis_size_unique(r2m, b, b2, n);
    } else {
        let bz = b.push(zr);
        assert forall|i: int| 0 <= i < n implies 0 <= #[trigger] zr[i] < RANK_MODULUS by {}
        assert(is_residue_matrix(r2m, n)) by {
            assert forall|i: int| 0 <= i < r2m.len() implies {
                &&& (#[trigger] r2m[i]).len() == n
                &&& forall|j: int| 0 <= j < n ==> 0 <= #[trigger] r2m[i][j] < RANK_MODULUS
            } by {
                if i < rm.len() {
                    assert(r2m[i] == rm[i]);
                }
            }
        }
        // bz lies in the span of the rows of m.push(v).
        assert forall|i: int| 0 <= i < bz.len() implies in_row_space(r2m, #[trigger] bz[i], n) by {
            if i < b.len() {
                assert(bz[i] == b[i]);
            } else {
                lemma_unit_comb(r2m, rm.len() as int, n);
                assert(r2m[rm.len() as int] == zr);
                assert(bz[i] == zr);
            }
        }
        // bz is independent: otherwise zr would be a combination of b.
        assert forall|gam: Seq<int>| gam.len() == bz.len() && #[trigger] lin_comb(bz, gam, n) == zero_vector(n) implies forall|i: int|
            0 <= i < gam.len() ==> #[trigger] modp(gam[i]) == 0 by {
            let front = gam.drop_last();
            if modp(gam.last()) == 0 {
                lemma_drop_last_coefficient(bz, gam, n);
                assert(bz.drop_last() =~= b);
                assert(lin_comb(b, front, n) == zero_vector(n));
                assert forall|i: int| 0 <= i < gam.len() implies #[trigger] modp(gam[i]) == 0 by {
                    if i < front.len() {
                        assert(modp(front[i]) == 0);
                    }
                }
            } else {
                let l = modp(gam.last());
                lemma_inverse_exists(l);
                let mu = choose|mu: int| #[trigger] modp(l * mu) == 1;
                let c = Seq::new(b.len(), |i: int| -mu * front[i]);
                assert forall|j: int| 0 <= j < n implies #[trigger] lin_comb(b, c, n)[j] == zr[j] by {
                    let ft = comb_terms(b, front, j);
                    assert(comb_terms(bz, gam, j) =~= ft.push(gam.last() * zr[j]));
                    lemma_sum_push(ft, gam.last() * zr[j]);
                    assert(lin_comb(bz, gam, n)[j] == zero_vector(n)[j]);
                    lemma_sum_scale(ft, -mu);
                    assert forall|i: int| 0 <= i < ft.len() implies #[trigger] comb_terms(b, c, j)[i] == -mu * ft[i] by {
                        assert(-mu * front[i] * b[i][j] == -mu * (front[i] * b[i][j])) by (nonlinear_arith);
                    }
                    assert(comb_terms(b, c, j) =~= Seq::new(ft.len(), |i: int| -mu * ft[i]));
                    lemma_solve_last(sum(ft), gam.last(), zr[j], mu);
                }
                assert(lin_comb(b, c, n) =~= zr);
                assert(in_row_space(b, zr, n));
                lemma_span_transitive(b, rm, zr, n);
                assert(false);
            }
        }
        // bz lies in the span of b2, so it is no larger than b2.
        assert forall|i: int| 0 <= i < bz.len() implies in_row_space(b2, #[trigger] bz[i], n) by {
            lemma_span_transitive(r2m, b2, bz[i], n);
        }
        lemma_independent_in_span(bz, b2, n);
    }
}

} // verus!
