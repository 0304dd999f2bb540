//! Exact row reduction of integer matrices over the prime field of
//! `RANK_MODULUS` elements, and the rank it computes.

use vstd::prelude::*;
use vstd::arithmetic::div_mod::*;
use vstd::arithmetic::mul::*;

verus! {

/// The prime 2³¹ - 1: ranks are taken over the field of this many elements.
pub const RANK_MODULUS: u64 = 2147483647;

/// Reduction of an integer into [0, RANK_MODULUS).
pub open spec fn modp(x: int) -> int {
    x % (RANK_MODULUS as int)
}

/// No integer in [2, 46341) divides RANK_MODULUS (and 46341² > RANK_MODULUS).
#[verifier::rlimit(100)]
proof fn lemma_no_small_divisor(e: u32)
    requires
        1 < e < 46341u32,
    ensures
        2147483647u32 % e != 0,
{
    assert(2147483647u32 % e != 0) by (bit_vector)
        requires
            1 < e < 46341u32,
    ;
}

/// RANK_MODULUS is prime: nothing strictly between 1 and it divides it.
pub proof fn lemma_modulus_is_prime(d: int)
    requires
        1 < d < RANK_MODULUS,
    ensures
        (RANK_MODULUS as int) % d != 0,
{
    let p = RANK_MODULUS as int;
    if d < 46341 {
        lemma_no_small_divisor(d as u32);
    } else if p % d == 0 {
        // The cofactor p / d would be a divisor below 46341.
        lemma_fundamental_div_mod(p, d);
        let q = p / d;
        assert(p == d * q);
        assert(1 < q < 46341) by (nonlinear_arith)
            requires
                p == d * q,
                46341 <= d < 2147483647,
                p == 2147483647,
        ;
        lemma_mod_multiples_basic(d, q);
        lemma_mul_is_commutative(d, q);
        lemma_no_small_divisor(q as u32);
    }
}

/// The extended Euclidean algorithm: (g, x, y) with g = gcd(a, b) = a*x + b*y.
spec fn euclid(a: nat, b: nat) -> (nat, int, int)
    decreases b,
{
    if b == 0 {
        (a, 1, 0)
    } else {
        let r = euclid(b, a % b);
        (r.0, r.2, r.1 - (a / b) as int * r.2)
    }
}

proof fn lemma_euclid(a: nat, b: nat)
    ensures
        a * euclid(a, b).1 + b * euclid(a, b).2 == euclid(a, b).0,
        euclid(a, b).0 > 0 ==> a % euclid(a, b).0 == 0 && b % euclid(a, b).0 == 0,
        a > 0 || b > 0 ==> euclid(a, b).0 > 0,
    decreases b,
{
    if b > 0 {
        let r = a % b;
        let q = a / b;
        lemma_euclid(b, r);
        let (g, x, y) = euclid(b, r);
        lemma_fundamental_div_mod(a as int, b as int);
        assert(a == b * q + r);
        assert(a * y + b * (x - q * y) == b * x + r * y) by (nonlinear_arith)
            requires
                a == b * q + r,
        ;
        if g > 0 {
            // g divides b and r, hence a = b*q + r.
            lemma_fundamental_div_mod(b as int, g as int);
            lemma_fundamental_div_mod(r as int, g as int);
            let kb = b / g;
            let kr = r / g;
            assert(a == g * (kb * q + kr)) by (nonlinear_arith)
                requires
                    a == b * q + r,
                    b == g * kb,
                    r == g * kr,
            ;
            lemma_mod_multiples_basic((kb * q + kr) as int, g as int);
            lemma_mul_is_commutative((kb * q + kr) as int, g as int);
        }
    }
}

/// Every nonzero residue has a multiplicative inverse modulo RANK_MODULUS.
pub proof fn lemma_inverse_exists(a: int)
    requires
        0 < a < RANK_MODULUS,
    ensures
        exists|b: int| #[trigger] modp(a * b) == 1,
{
    let p = RANK_MODULUS as int;
    lemma_euclid(a as nat, p as nat);
    let (g, x, y) = euclid(a as nat, p as nat);
    assert(g > 0);
    // g divides a, so g <= a < p; g divides p, so g == 1.
    lemma_fundamental_div_mod(a, g as int);
    assert(g <= a) by (nonlinear_arith)
        requires
            a == g * (a / g as int) + 0,
            a > 0,
            g > 0,
    ;
    if g > 1 {
        lemma_modulus_is_prime(g as int);
    }
    assert(g == 1);
    assert(a * x + p * y == 1);
    lemma_mod_multiples_vanish(y, a * x, p);
    lemma_mul_is_commutative(p, y);
    assert(modp(a * x) == 1);
}

/// In the field, a * d is zero only when d is.
pub proof fn lemma_no_zero_divisors(a: int, d: int)
    requires
        0 < a < RANK_MODULUS,
        modp(a * d) == 0,
    ensures
        modp(d) == 0,
{
    let p = RANK_MODULUS as int;
    lemma_inverse_exists(a);
    let b = choose|b: int| #[trigger] modp(a * b) == 1;
    // d == d * (a * b) == (a * d) * b modulo p.
    lemma_mul_mod_noop_right(d, a * b, p);
    assert(modp(d * (a * b)) == modp(d * 1));
    assert(d * (a * b) == (a * d) * b) by (nonlinear_arith);
    lemma_mul_mod_noop_left(a * d, b, p);
    assert(modp((a * d) * b) == modp(0 * b));
}

/// Sum of a sequence of integers.
pub open spec fn sum(s: Seq<int>) -> int
    decreases s.len(),
{
    if s.len() == 0 {
        0
    } else {
        s[0] + sum(s.drop_first())
    }
}

/// The terms c[i] * rows[i][j] that make up entry j of a linear combination of rows.
pub open spec fn comb_terms(rows: Seq<Seq<int>>, c: Seq<int>, j: int) -> Seq<int> {
    Seq::new(rows.len(), |i: int| c[i] * rows[i][j])
}

/// The linear combination Σ c[i] · rows[i] over the field, as a vector of n residues.
pub open spec fn lin_comb(rows: Seq<Seq<int>>, c: Seq<int>, n: nat) -> Seq<int> {
    Seq::new(n, |j: int| modp(sum(comb_terms(rows, c, j))))
}

/// The zero vector of length n.
pub open spec fn zero_vector(n: nat) -> Seq<int> {
    Seq::new(n, |j: int| 0)
}

/// `v` is a linear combination of `rows` over the field.
pub open spec fn in_row_space(rows: Seq<Seq<int>>, v: Seq<int>, n: nat) -> bool {
    exists|c: Seq<int>| c.len() == rows.len() && #[trigger] lin_comb(rows, c, n) == v
}

/// Only the trivial combination of `rows` is zero over the field.
pub open spec fn linearly_independent(rows: Seq<Seq<int>>, n: nat) -> bool {
    forall|c: Seq<int>|
        c.len() == rows.len() && #[trigger] lin_comb(rows, c, n) == zero_vector(n) ==> forall|i: int|
            0 <= i < c.len() ==> #[trigger] modp(c[i]) == 0
}

/// `b` is a basis of the row space of `m`: its rows are independent, lie in the row
/// space of `m`, and every row of `m` is a combination of them.
pub open spec fn is_row_basis(b: Seq<Seq<int>>, m: Seq<Seq<int>>, n: nat) -> bool {
    &&& linearly_independent(b, n)
    &&& forall|i: int| 0 <= i < m.len() ==> in_row_space(b, #[trigger] m[i], n)
    &&& forall|i: int| 0 <= i < b.len() ==> in_row_space(m, #[trigger] b[i], n)
}

/// Every row has n entries, each a residue.
pub open spec fn is_residue_matrix(m: Seq<Seq<int>>, n: nat) -> bool {
    forall|i: int| 0 <= i < m.len() ==> {
        &&& (#[trigger] m[i]).len() == n
        &&& forall|j: int| 0 <= j < n ==> 0 <= #[trigger] m[i][j] < RANK_MODULUS
    }
}

/// The k-th unit coefficient vector of length len.
pub open spec fn unit_vector(len: nat, k: int) -> Seq<int> {
    Seq::new(len, |i: int| if i == k { 1int } else { 0int })
}

pub(crate) proof fn lemma_sum_update(s: Seq<int>, i: int, x: int)
    requires
        0 <= i < s.len(),
    ensures
        sum(s.update(i, x)) == sum(s) - s[i] + x,
    decreases s.len(),
{
    if i == 0 {
        assert(s.update(i, x).drop_first() =~= s.drop_first());
    } else {
        assert(s.update(i, x).drop_first() =~= s.drop_first().update(i - 1, x));
        lemma_sum_update(s.drop_first(), i - 1, x);
    }
}

pub(crate) proof fn lemma_sum_zeros(s: Seq<int>)
    requires
        forall|i: int| 0 <= i < s.len() ==> s[i] == 0,
    ensures
        sum(s) == 0,
    decreases s.len(),
{
    if s.len() > 0 {
        lemma_sum_zeros(s.drop_first());
    }
}

pub(crate) proof fn lemma_sum_split(s: Seq<int>, k: int)
    requires
        0 <= k <= s.len(),
    ensures
        sum(s) == sum(s.take(k)) + sum(s.skip(k)),
    decreases k,
{
    if k > 0 {
        lemma_sum_split(s.drop_first(), k - 1);
        assert(s.take(k).drop_first() =~= s.drop_first().take(k - 1));
        assert(s.skip(k) =~= s.drop_first().skip(k - 1));
    } else {
        assert(s.skip(0) =~= s);
    }
}

pub(crate) proof fn lemma_sum_linear(s: Seq<int>, t: Seq<int>, a: int, b: int)
    requires
        s.len() == t.len(),
    ensures
        sum(Seq::new(s.len(), |i: int| a * s[i] + b * t[i])) == a * sum(s) + b * sum(t),
    decreases s.len(),
{
    let u = Seq::new(s.len(), |i: int| a * s[i] + b * t[i]);
    if s.len() > 0 {
        lemma_sum_linear(s.drop_first(), t.drop_first(), a, b);
        assert(u.drop_first() =~= Seq::new(
            s.drop_first().len(),
            |i: int| a * s.drop_first()[i] + b * t.drop_first()[i],
        ));
        assert(a * (s[0] + sum(s.drop_first())) + b * (t[0] + sum(t.drop_first())) == (a * s[0] + b
            * t[0]) + (a * sum(s.drop_first()) + b * sum(t.drop_first()))) by (nonlinear_arith);
    }
}

/// A residue matrix's k-th row is the combination with the k-th unit coefficients.
pub(crate) proof fn lemma_unit_comb(m: Seq<Seq<int>>, k: int, n: nat)
    requires
        is_residue_matrix(m, n),
        0 <= k < m.len(),
    ensures
        lin_comb(m, unit_vector(m.len(), k), n) == m[k],
{
    assert forall|j: int| 0 <= j < n implies #[trigger] lin_comb(m, unit_vector(m.len(), k), n)[j] == m[k][j] by {
        let terms = comb_terms(m, unit_vector(m.len(), k), j);
        let zeros = Seq::new(m.len(), |i: int| 0int);
        assert(terms =~= zeros.update(k, m[k][j]));
        lemma_sum_zeros(zeros);
        lemma_sum_update(zeros, k, m[k][j]);
        lemma_small_mod(m[k][j] as nat, RANK_MODULUS as nat);
    }
    assert(lin_comb(m, unit_vector(m.len(), k), n) =~= m[k]);
}

/// Swapping two rows and the matching two coefficients leaves a combination unchanged.
proof fn lemma_swap_comb(w: Seq<Seq<int>>, c: Seq<int>, a: int, b: int, n: nat)
    requires
        0 <= a < w.len(),
        0 <= b < w.len(),
        c.len() == w.len(),
    ensures
        lin_comb(swap_rows(w, a, b), c.update(a, c[b]).update(b, c[a]), n) == lin_comb(w, c, n),
{
    let w2 = swap_rows(w, a, b);
    let c2 = c.update(a, c[b]).update(b, c[a]);
    assert forall|j: int| 0 <= j < n implies #[trigger] lin_comb(w2, c2, n)[j] == lin_comb(w, c, n)[j] by {
        let t = comb_terms(w, c, j);
        if a != b {
            assert(comb_terms(w2, c2, j) =~= t.update(a, t[b]).update(b, t[a]));
            lemma_sum_update(t, a, t[b]);
            lemma_sum_update(t.update(a, t[b]), b, t[a]);
        } else {
            assert(comb_terms(w2, c2, j) =~= t);
        }
    }
    assert(lin_comb(w2, c2, n) =~= lin_comb(w, c, n));
}

/// modp(k * modp(x) + y) == modp(k * x + y).
pub(crate) proof fn lemma_mod_scaled_inner(k: int, x: int, y: int)
    ensures
        modp(k * modp(x) + y) == modp(k * x + y),
{
    let p = RANK_MODULUS as int;
    lemma_mul_mod_noop_right(k, x, p);
    lemma_add_mod_noop(k * modp(x), y, p);
    lemma_add_mod_noop(k * x, y, p);
}

/// The combination with coefficients a·x - b·y is a·(Σ x) - b·(Σ y) over the field.
pub(crate) proof fn lemma_comb_linear(m: Seq<Seq<int>>, x: Seq<int>, y: Seq<int>, a: int, b: int, n: nat)
    requires
        x.len() == m.len(),
        y.len() == m.len(),
    ensures
        lin_comb(m, Seq::new(m.len(), |i: int| a * x[i] - b * y[i]), n) == Seq::new(
            n,
            |j: int| modp(a * lin_comb(m, x, n)[j] - b * lin_comb(m, y, n)[j]),
        ),
{
    let z = Seq::new(m.len(), |i: int| a * x[i] - b * y[i]);
    let want = Seq::new(n, |j: int| modp(a * lin_comb(m, x, n)[j] - b * lin_comb(m, y, n)[j]));
    assert forall|j: int| 0 <= j < n implies #[trigger] lin_comb(m, z, n)[j] == want[j] by {
        let tx = comb_terms(m, x, j);
        let ty = comb_terms(m, y, j);
        assert(comb_terms(m, z, j) =~= Seq::new(tx.len(), |i: int| a * tx[i] + (-b) * ty[i])) by {
            assert forall|i: int| 0 <= i < m.len() implies #[trigger] comb_terms(m, z, j)[i] == a * tx[i] + (-b)
                * ty[i] by {
                assert((a * x[i] - b * y[i]) * m[i][j] == a * (x[i] * m[i][j]) + (-b) * (y[i] * m[i][j]))
                    by (nonlinear_arith);
            }
        }
        lemma_sum_linear(tx, ty, a, -b);
        lemma_mod_scaled_inner(a, sum(tx), -b * modp(sum(ty)));
        lemma_mod_scaled_inner(-b, sum(ty), a * sum(tx));
        assert(a * modp(sum(tx)) - b * modp(sum(ty)) == a * modp(sum(tx)) + -b * modp(sum(ty))) by (nonlinear_arith);
        assert(-b * modp(sum(ty)) + a * sum(tx) == a * sum(tx) + -b * modp(sum(ty)));
    }
    assert(lin_comb(m, z, n) =~= want);
}

proof fn lemma_elimination_identity(a: int, i: int, piv: int, f: int, w: int, v: int, c: int, s: int)
    ensures
        a * i * (piv * w - f * v) + (s - a * w - c * v + (c + a * i * f) * v) == s + (a * w) * (piv * i
            - 1),
{
    assert(a * i * (piv * w - f * v) == a * i * piv * w - a * i * f * v) by (nonlinear_arith);
    assert((c + a * i * f) * v == c * v + a * i * f * v) by (nonlinear_arith);
    assert((a * w) * (piv * i - 1) == a * i * piv * w - a * w) by (nonlinear_arith);
}

/// Undoing a row elimination: after row r of w is replaced by piv·w[r] - f·w[t] (with
/// inv an inverse of piv), a combination of the old rows is the combination of the new
/// rows whose coefficients at r and t are adjusted.
proof fn lemma_eliminate_back(
    w: Seq<Seq<int>>,
    new_row: Seq<int>,
    r: int,
    t: int,
    piv: int,
    f: int,
    inv: int,
    c: Seq<int>,
    n: nat,
)
    requires
        0 <= r < w.len(),
        0 <= t < w.len(),
        r != t,
        c.len() == w.len(),
        modp(piv * inv) == 1,
        new_row.len() == n,
        w[r].len() == n,
        w[t].len() == n,
        forall|j: int| 0 <= j < n ==> #[trigger] new_row[j] == modp(piv * w[r][j] - f * w[t][j]),
    ensures
        lin_comb(w.update(r, new_row), c.update(r, c[r] * inv).update(t, c[t] + c[r] * inv * f), n)
            == lin_comb(w, c, n),
{
    let w2 = w.update(r, new_row);
    let c2 = c.update(r, c[r] * inv).update(t, c[t] + c[r] * inv * f);
    let p = RANK_MODULUS as int;
    assert forall|j: int| 0 <= j < n implies #[trigger] lin_comb(w2, c2, n)[j] == lin_comb(w, c, n)[j] by {
        let terms = comb_terms(w, c, j);
        let x = piv * w[r][j] - f * w[t][j];
        let tr = c[r] * inv * modp(x);
        let tt = (c[t] + c[r] * inv * f) * w[t][j];
        assert(comb_terms(w2, c2, j) =~= terms.update(r, tr).update(t, tt));
        lemma_sum_update(terms, r, tr);
        lemma_sum_update(terms.update(r, tr), t, tt);
        let s = sum(terms);
        let rest = s - terms[r] - terms[t] + tt;
        // sum(new) == rest + c[r]*inv*modp(x)
        lemma_mod_scaled_inner(c[r] * inv, x, rest);
        // c[r]*inv*x + rest == s + c[r]*w[r][j]*(piv*inv - 1)
        lemma_elimination_identity(c[r], inv, piv, f, w[r][j], w[t][j], c[t], s);
        assert(c[r] * inv * x + rest == s + (c[r] * w[r][j]) * (piv * inv - 1));
        // piv*inv - 1 is a multiple of p.
        lemma_sub_mod_noop(piv * inv, 1, p);
        lemma_small_mod(1, p as nat);
        lemma_mul_mod_noop_right(c[r] * w[r][j], piv * inv - 1, p);
        lemma_add_mod_noop(s, (c[r] * w[r][j]) * (piv * inv - 1), p);
        lemma_mod_twice(s, p);
        assert(modp((c[r] * w[r][j]) * 0) == 0);
    }
    assert(lin_comb(w2, c2, n) =~= lin_comb(w, c, n));
}

/// Rows past k that are zero contribute nothing to a combination.
proof fn lemma_drop_zero_rows(w: Seq<Seq<int>>, c: Seq<int>, k: int, n: nat)
    requires
        0 <= k <= w.len(),
        c.len() == w.len(),
        forall|i: int, j: int| k <= i < w.len() && 0 <= j < n ==> #[trigger] w[i][j] == 0,
    ensures
        lin_comb(w, c, n) == lin_comb(w.take(k), c.take(k), n),
{
    assert forall|j: int| 0 <= j < n implies #[trigger] lin_comb(w, c, n)[j] == lin_comb(w.take(k), c.take(k), n)[j] by {
        let terms = comb_terms(w, c, j);
        lemma_sum_split(terms, k);
        assert forall|i: int| 0 <= i < terms.skip(k).len() implies terms.skip(k)[i] == 0 by {
            assert(w[i + k][j] == 0);
        }
        lemma_sum_zeros(terms.skip(k));
        assert(terms.take(k) =~= comb_terms(w.take(k), c.take(k), j));
    }
    assert(lin_comb(w, c, n) =~= lin_comb(w.take(k), c.take(k), n));
}

/// Rows in echelon form are independent: row k has a nonzero entry in column pc[k], and
/// every later row is zero in that column.
proof fn lemma_echelon_independent(b: Seq<Seq<int>>, pc: Seq<int>, n: nat)
    requires
        is_residue_matrix(b, n),
        pc.len() == b.len(),
        forall|k: int| 0 <= k < b.len() ==> 0 <= #[trigger] pc[k] < n,
        forall|k: int| 0 <= k < b.len() ==> #[trigger] b[k][pc[k]] != 0,
        forall|k: int, k2: int| 0 <= k < k2 < b.len() ==> #[trigger] b[k2][pc[k]] == 0,
    ensures
        linearly_independent(b, n),
    decreases b.len(),
{
    assert forall|c: Seq<int>|
        c.len() == b.len() && #[trigger] lin_comb(b, c, n) == zero_vector(n) implies forall|i: int|
        0 <= i < c.len() ==> #[trigger] modp(c[i]) == 0 by {
        if b.len() > 0 {
            let p = RANK_MODULUS as int;
            // Column pc[0] sees only row 0.
            let j0 = pc[0];
            let terms0 = comb_terms(b, c, j0);
            let zeros = Seq::new(b.len(), |i: int| 0int);
            assert(terms0 =~= zeros.update(0, c[0] * b[0][j0]));
            lemma_sum_zeros(zeros);
            lemma_sum_update(zeros, 0, c[0] * b[0][j0]);
            assert(lin_comb(b, c, n)[j0] == 0);
            lemma_mul_is_commutative(c[0], b[0][j0]);
            lemma_no_zero_divisors(b[0][j0], c[0]);
            // The rest is a zero combination of the remaining rows.
            let b1 = b.drop_first();
            let c1 = c.drop_first();
            assert forall|j: int| 0 <= j < n implies #[trigger] lin_comb(b1, c1, n)[j] == 0 by {
                let terms = comb_terms(b, c, j);
                assert(terms.drop_first() =~= comb_terms(b1, c1, j));
                assert(lin_comb(b, c, n)[j] == 0);
                lemma_mul_mod_noop_left(c[0], b[0][j], p);
                assert(modp(c[0] * b[0][j]) == modp(0 * b[0][j]));
                lemma_add_mod_noop(c[0] * b[0][j], sum(comb_terms(b1, c1, j)), p);
                lemma_mod_twice(sum(comb_terms(b1, c1, j)), p);
            }
            assert(lin_comb(b1, c1, n) =~= zero_vector(n));
            lemma_echelon_independent(b1, pc.drop_first(), n);
            assert forall|i: int| 0 <= i < c.len() implies #[trigger] modp(c[i]) == 0 by {
                if i > 0 {
                    assert(c[i] == c1[i - 1]);
                }
            }
        }
    }
}

/// The residue of `x` modulo `RANK_MODULUS`.
fn residue(x: i64) -> (r: u64)
    ensures
        r == modp(x as int),
        r < RANK_MODULUS,
{
    let ghost p = RANK_MODULUS as int;
    if x >= 0 {
        (x as u64) % RANK_MODULUS
    } else {
        let y: u64 = (-(x as i128)) as u64;
        let a = y % RANK_MODULUS;
        proof {
            lemma_sub_mod_noop(p, y as int, p);
            lemma_mod_add_multiples_vanish(-(y as int), p);
            lemma_mod_add_multiples_vanish(-(a as int), p);
            lemma_mod_self_0(p);
        }
        (RANK_MODULUS - a) % RANK_MODULUS
    }
}

/// (a * b - c * d) modulo `RANK_MODULUS`, for residues a, b, c, d.
fn mul_sub_mod(a: u64, b: u64, c: u64, d: u64) -> (r: u64)
    requires
        a < RANK_MODULUS,
        b < RANK_MODULUS,
        c < RANK_MODULUS,
        d < RANK_MODULUS,
    ensures
        r == modp(a * b - c * d),
        r < RANK_MODULUS,
{
    let ghost p = RANK_MODULUS as int;
    assert(a * b < 0x4000_0000_0000_0000) by (nonlinear_arith)
        requires
            a < 2147483647,
            b < 2147483647,
    ;
    assert(c * d < 0x4000_0000_0000_0000) by (nonlinear_arith)
        requires
            c < 2147483647,
            d < 2147483647,
    ;
    let u = (a * b) % RANK_MODULUS;
    let v = (c * d) % RANK_MODULUS;
    proof {
        lemma_sub_mod_noop((a * b) as int, (c * d) as int, p);
        lemma_mod_add_multiples_vanish(u - v, p);
    }
    (u + RANK_MODULUS - v) % RANK_MODULUS
}

/// An integer matrix, stored row by row.
#[derive(Debug)]
pub struct IntMatrix {
    nrows: usize,
    ncols: usize,
    rows: Vec<Vec<i64>>,
}

impl IntMatrix {
    #[verifier::type_invariant]
    spec fn well_shaped(self) -> bool {
        &&& self.rows@.len() == self.nrows
        &&& forall|i: int| 0 <= i < self.rows@.len() ==> #[trigger] self.rows@[i]@.len() == self.ncols
    }

    /// Number of rows.
    pub closed spec fn num_rows(self) -> nat {
        self.nrows as nat
    }

    /// Number of columns.
    pub closed spec fn num_cols(self) -> nat {
        self.ncols as nat
    }

    /// The entries, row by row.
    pub closed spec fn entries(self) -> Seq<Seq<int>> {
        Seq::new(self.nrows as nat, |i: int| Seq::new(self.ncols as nat, |j: int| self.rows@[i]@[j] as int))
    }

    /// The matrix with the given rows, each of `ncols` entries.
    pub fn from_rows(nrows: usize, ncols: usize, rows: Vec<Vec<i64>>) -> (m: Self)
        requires
            rows@.len() == nrows,
            forall|i: int| 0 <= i < nrows ==> #[trigger] rows@[i]@.len() == ncols,
        ensures
            m.num_rows() == nrows,
            m.num_cols() == ncols,
            m.entries() == Seq::new(nrows as nat, |i: int| Seq::new(ncols as nat, |j: int| rows@[i]@[j] as int)),
    {
        IntMatrix { nrows, ncols, rows }
    }

    /// Number of rows.
    pub fn nrows(&self) -> (n: usize)
        ensures
            n == self.num_rows(),
    {
        self.nrows
    }

    /// Number of columns.
    pub fn ncols(&self) -> (n: usize)
        ensures
            n == self.num_cols(),
    {
        self.ncols
    }

    /// The entry in row `i`, column `j`.
    pub fn entry(&self, i: usize, j: usize) -> (x: i64)
        requires
            i < self.num_rows(),
            j < self.num_cols(),
        ensures
            x == self.entries()[i as int][j as int],
    {
        proof {
            use_type_invariant(self);
        }
        self.rows[i][j]
    }
}

/// Swap rows `i` and `j`.
pub open spec fn swap_rows(m: Seq<Seq<int>>, i: int, j: int) -> Seq<Seq<int>> {
    m.update(i, m[j]).update(j, m[i])
}

/// Clear column `c` of `row` against the pivot row `top`, without division:
/// top[c] * row - row[c] * top, reduced modulo `RANK_MODULUS`.
pub open spec fn combine(top: Seq<int>, row: Seq<int>, c: int) -> Seq<int> {
    Seq::new(row.len(), |j: int| modp(top[c] * row[j] - row[c] * top[j]))
}

/// Clear column `c` of every row below the first one.
pub open spec fn eliminate_below(m: Seq<Seq<int>>, c: int) -> Seq<Seq<int>> {
    Seq::new(m.len(), |r: int| if r == 0 { m[0] } else { combine(m[0], m[r], c) })
}

/// The first row at index `i` or later whose entry in column `c` is nonzero.
pub open spec fn first_nonzero_from(m: Seq<Seq<int>>, c: int, i: int) -> Option<int>
    decreases m.len() - i,
{
    if i < 0 || i >= m.len() {
        None
    } else if m[i][c] != 0 {
        Some(i)
    } else {
        first_nonzero_from(m, c, i + 1)
    }
}

/// Number of pivots that Gaussian elimination finds in columns `c` .. `ncols` of `m`
/// (entries are residues): the first row with a nonzero entry in the column is moved to
/// the top, the column is cleared below it, and elimination goes on in the rows below.
pub open spec fn rank_from(m: Seq<Seq<int>>, c: nat, ncols: nat) -> nat
    decreases ncols - c,
{
    if m.len() == 0 || c >= ncols {
        0
    } else {
        match first_nonzero_from(m, c as int, 0) {
            None => rank_from(m, c + 1, ncols),
            Some(r) => 1 + rank_from(
                eliminate_below(swap_rows(m, 0, r), c as int).drop_first(),
                c + 1,
                ncols,
            ),
        }
    }
}

/// Every entry reduced modulo `RANK_MODULUS`.
pub open spec fn reduce_rows(m: Seq<Seq<int>>) -> Seq<Seq<int>> {
    m.map_values(|row: Seq<int>| row.map_values(|x: int| modp(x)))
}

/// Rank of an integer matrix with `ncols` columns over the field of `RANK_MODULUS` elements.
pub open spec fn matrix_rank(m: Seq<Seq<int>>, ncols: nat) -> nat {
    rank_from(reduce_rows(m), 0, ncols)
}

/// The rows of a working matrix of residues, as integers.
spec fn residue_rows(w: Seq<Vec<u64>>) -> Seq<Seq<int>> {
    w.map_values(|row: Vec<u64>| row@.map_values(|x: u64| x as int))
}

proof fn lemma_first_nonzero_in_range(m: Seq<Seq<int>>, c: int, i: int)
    ensures
        first_nonzero_from(m, c, i) matches Some(r) ==> 0 <= i <= r < m.len() && m[r][c] != 0,
    decreases m.len() - i,
{
    if 0 <= i < m.len() && m[i][c] == 0 {
        lemma_first_nonzero_in_range(m, c, i + 1);
    }
}

/// Gaussian elimination finds no more pivots than the matrix has rows, or columns left.
pub proof fn lemma_rank_from_bounds(m: Seq<Seq<int>>, c: nat, ncols: nat)
    ensures
        rank_from(m, c, ncols) <= m.len(),
        c <= ncols ==> rank_from(m, c, ncols) <= ncols - c,
    decreases ncols - c,
{
    if m.len() == 0 || c >= ncols {
    } else {
        lemma_first_nonzero_in_range(m, c as int, 0);
        match first_nonzero_from(m, c as int, 0) {
            None => {
                lemma_rank_from_bounds(m, c + 1, ncols);
            },
            Some(r) => {
                let next = eliminate_below(swap_rows(m, 0, r), c as int).drop_first();
                lemma_rank_from_bounds(next, c + 1, ncols);
            },
        }
    }
}

/// The rank of a matrix is at most its number of rows and at most its number of columns.
pub proof fn lemma_matrix_rank_bounds(m: Seq<Seq<int>>, ncols: nat)
    ensures
        matrix_rank(m, ncols) <= m.len(),
        matrix_rank(m, ncols) <= ncols,
{
    lemma_rank_from_bounds(reduce_rows(m), 0, ncols);
}

/// `m` (reduced modulo RANK_MODULUS) has a row space with a basis of d vectors of length n,
/// that is, its row space has dimension d over the field.
pub open spec fn row_space_dimension_is(m: Seq<Seq<int>>, n: nat, d: nat) -> bool {
    exists|b: Seq<Seq<int>>| b.len() == d && #[trigger] is_row_basis(b, reduce_rows(m), n)
}

/// Rank of `m` over the field of `RANK_MODULUS` elements, by Gaussian elimination:
/// the number of pivots, which is the dimension of the row space.
pub fn rank(m: &IntMatrix) -> (r: usize)
    ensures
        r == matrix_rank(m.entries(), m.num_cols()),
        row_space_dimension_is(m.entries(), m.num_cols(), r as nat),
{
    proof {
        use_type_invariant(m);
    }
    let nrows = m.nrows;
    let ncols = m.ncols;
    let ghost start = reduce_rows(m.entries());
    let mut work: Vec<Vec<u64>> = Vec::new();
    let mut i: usize = 0;
    while i < nrows
        invariant
            i <= nrows,
            nrows == m.num_rows(),
            ncols == m.num_cols(),
            m.rows@.len() == nrows,
            forall|k: int| 0 <= k < nrows ==> #[trigger] m.rows@[k]@.len() == ncols,
            start == reduce_rows(m.entries()),
            work@.len() == i,
            forall|k: int| 0 <= k < i ==> #[trigger] work@[k]@.len() == ncols,
            forall|k: int, j: int| 0 <= k < i && 0 <= j < ncols ==>
                (#[trigger] work@[k]@[j]) as int == start[k][j] && work@[k]@[j] < RANK_MODULUS,
        decreases nrows - i,
    {
        let mut row: Vec<u64> = Vec::new();
        let mut j: usize = 0;
        while j < ncols
            invariant
                i < nrows,
                j <= ncols,
                nrows == m.num_rows(),
                ncols == m.num_cols(),
                m.rows@.len() == nrows,
                forall|k: int| 0 <= k < nrows ==> #[trigger] m.rows@[k]@.len() == ncols,
                start == reduce_rows(m.entries()),
                row@.len() == j,
                forall|jj: int| 0 <= jj < j ==> (#[trigger] row@[jj]) as int == start[i as int][jj]
                    && row@[jj] < RANK_MODULUS,
            decreases ncols - j,
        {
            let x = residue(m.rows[i][j]);
            row.push(x);
            j = j + 1;
        }
        work.push(row);
        i = i + 1;
    }
    proof {
        assert forall|k: int| 0 <= k < nrows implies #[trigger] residue_rows(work@)[k] =~= start[k] by {}
        assert(residue_rows(work@) =~= start);
        assert(residue_rows(work@).subrange(0, nrows as int) =~= start);
    }
    let ghost n = ncols as nat;
    let ghost mut sg: Seq<Seq<int>> = Seq::new(nrows as nat, |k: int| unit_vector(nrows as nat, k));
    let ghost mut tg: Seq<Seq<int>> = Seq::new(nrows as nat, |k: int| unit_vector(nrows as nat, k));
    let ghost mut pc: Seq<int> = seq![];
    proof {
        assert(is_residue_matrix(start, n));
        assert forall|k: int| 0 <= k < nrows implies (#[trigger] sg[k]).len() == nrows && residue_rows(work@)[k]
            == lin_comb(start, sg[k], n) by {
            lemma_unit_comb(start, k, n);
        }
        assert forall|k: int| 0 <= k < nrows implies (#[trigger] tg[k]).len() == nrows && start[k]
            == lin_comb(residue_rows(work@), tg[k], n) by {
            lemma_unit_comb(start, k, n);
        }
    }
    let mut row: usize = 0;
    let mut col: usize = 0;
    while col < ncols && row < nrows
        invariant
            row <= nrows,
            col <= ncols,
            n == ncols,
            ncols == m.num_cols(),
            start == reduce_rows(m.entries()),
            start.len() == nrows,
            is_residue_matrix(start, n),
            work@.len() == nrows,
            forall|k: int| 0 <= k < nrows ==> #[trigger] work@[k]@.len() == ncols,
            forall|k: int, j: int| 0 <= k < nrows && 0 <= j < ncols ==> #[trigger] work@[k]@[j] < RANK_MODULUS,
            rank_from(start, 0, ncols as nat) == row + rank_from(
                residue_rows(work@).subrange(row as int, nrows as int),
                col as nat,
                ncols as nat,
            ),
            sg.len() == nrows,
            forall|k: int| 0 <= k < nrows ==> (#[trigger] sg[k]).len() == nrows && residue_rows(work@)[k]
                == lin_comb(start, sg[k], n),
            tg.len() == nrows,
            forall|k: int| 0 <= k < nrows ==> (#[trigger] tg[k]).len() == nrows && start[k] == lin_comb(
                residue_rows(work@),
                tg[k],
                n,
            ),
            pc.len() == row,
            forall|k: int| 0 <= k < row ==> 0 <= #[trigger] pc[k] < col,
            forall|k: int| 0 <= k < row ==> #[trigger] work@[k]@[pc[k]] != 0,
            forall|k: int, k2: int| 0 <= k < row && k < k2 < nrows ==> #[trigger] work@[k2]@[pc[k]] == 0,
            forall|k2: int, j: int| row <= k2 < nrows && 0 <= j < col ==> #[trigger] work@[k2]@[j] == 0,
        decreases ncols - col,
    {
        let ghost sub = residue_rows(work@).subrange(row as int, nrows as int);
        let mut pr = row;
        while pr < nrows && work[pr][col] == 0
            invariant
                row <= pr <= nrows,
                col < ncols,
                work@.len() == nrows,
                forall|k: int| 0 <= k < nrows ==> #[trigger] work@[k]@.len() == ncols,
                sub == residue_rows(work@).subrange(row as int, nrows as int),
                first_nonzero_from(sub, col as int, 0) == first_nonzero_from(sub, col as int, pr - row),
                forall|k: int| row <= k < pr ==> #[trigger] work@[k]@[col as int] == 0,
            decreases nrows - pr,
        {
            assert(sub[pr - row][col as int] == work@[pr as int]@[col as int]);
            pr = pr + 1;
        }
        if pr < nrows {
            proof {
                assert(sub[pr - row][col as int] == work@[pr as int]@[col as int]);
                assert(first_nonzero_from(sub, col as int, 0) == Some((pr - row) as int));
            }
            if pr != row {
                let ghost w0 = residue_rows(work@);
                let a = work[row].clone();
                let b = work[pr].clone();
                proof {
                    assert(a@ =~= work@[row as int]@);
                    assert(b@ =~= work@[pr as int]@);
                }
                work.set(row, b);
                work.set(pr, a);
                proof {
                    assert(residue_rows(work@) =~= swap_rows(w0, row as int, pr as int));
                    let tg1 = Seq::new(
                        nrows as nat,
                        |i: int| tg[i].update(row as int, tg[i][pr as int]).update(pr as int, tg[i][row as int]),
                    );
                    assert forall|k: int| 0 <= k < nrows implies (#[trigger] tg1[k]).len() == nrows && start[k]
                        == lin_comb(residue_rows(work@), tg1[k], n) by {
                        lemma_swap_comb(w0, tg[k], row as int, pr as int, n);
                    }
                    let sg1 = swap_rows(sg, row as int, pr as int);
                    assert forall|k: int| 0 <= k < nrows implies (#[trigger] sg1[k]).len() == nrows
                        && residue_rows(work@)[k] == lin_comb(start, sg1[k], n) by {
                        if k == row {
                            assert(residue_rows(work@)[k] == w0[pr as int]);
                        } else if k == pr {
                            assert(residue_rows(work@)[k] == w0[row as int]);
                        } else {
                            assert(residue_rows(work@)[k] == w0[k]);
                        }
                    }
                    tg = tg1;
                    sg = sg1;
                }
            }
            let ghost swapped = residue_rows(work@).subrange(row as int, nrows as int);
            proof {
                assert(swapped =~= swap_rows(sub, 0, (pr - row) as int));
            }
            let top = work[row].clone();
            proof {
                assert(top@ =~= work@[row as int]@);
            }
            let piv = top[col];
            proof {
                lemma_inverse_exists(piv as int);
            }
            let ghost inv = choose|b: int| #[trigger] modp(piv * b) == 1;
            let mut r = row + 1;
            let ghost before = work@;
            let ghost target = eliminate_below(swapped, col as int);
            while r < nrows
                invariant
                    row < r <= nrows,
                    col < ncols,
                    n == ncols,
                    ncols == m.num_cols(),
                    start.len() == nrows,
                    is_residue_matrix(start, n),
                    work@.len() == nrows,
                    before.len() == nrows,
                    top@ == before[row as int]@,
                    piv == top@[col as int],
                    0 < piv < RANK_MODULUS,
                    modp(piv * inv) == 1,
                    swapped == residue_rows(before).subrange(row as int, nrows as int),
                    target == eliminate_below(swapped, col as int),
                    forall|k: int| 0 <= k < nrows ==> #[trigger] before[k]@.len() == ncols,
                    forall|k: int, j: int| 0 <= k < nrows && 0 <= j < ncols ==> #[trigger] before[k]@[j] < RANK_MODULUS,
                    forall|k: int| 0 <= k < nrows ==> #[trigger] work@[k]@.len() == ncols,
                    forall|k: int, j: int| 0 <= k < nrows && 0 <= j < ncols ==> #[trigger] work@[k]@[j] < RANK_MODULUS,
                    forall|k: int| (0 <= k <= row || r <= k < nrows) ==> #[trigger] work@[k] == before[k],
                    forall|k: int| row < k < r ==> #[trigger] residue_rows(work@)[k] == target[k - row],
                    sg.len() == nrows,
                    forall|k: int| 0 <= k < nrows ==> (#[trigger] sg[k]).len() == nrows && residue_rows(work@)[k]
                        == lin_comb(start, sg[k], n),
                    tg.len() == nrows,
                    forall|k: int| 0 <= k < nrows ==> (#[trigger] tg[k]).len() == nrows && start[k] == lin_comb(
                        residue_rows(work@),
                        tg[k],
                        n,
                    ),
                    pc.len() == row,
                    forall|k: int| 0 <= k < row ==> 0 <= #[trigger] pc[k] < col,
                    forall|k: int, k2: int| 0 <= k < row && k < k2 < nrows ==> #[trigger] work@[k2]@[pc[k]] == 0,
                    forall|k2: int, j: int| row <= k2 < nrows && 0 <= j < col ==> #[trigger] work@[k2]@[j] == 0,
                    forall|k2: int| row < k2 < r ==> #[trigger] work@[k2]@[col as int] == 0,
                decreases nrows - r,
            {
                let f = work[r][col];
                let mut newrow: Vec<u64> = Vec::new();
                let mut j: usize = 0;
                while j < ncols
                    invariant
                        row < r < nrows,
                        j <= ncols,
                        col < ncols,
                        work@.len() == nrows,
                        work@[r as int] == before[r as int],
                        before[r as int]@.len() == ncols,
                        top@ == before[row as int]@,
                        top@.len() == ncols,
                        forall|jj: int| 0 <= jj < ncols ==> #[trigger] before[r as int]@[jj] < RANK_MODULUS,
                        forall|jj: int| 0 <= jj < ncols ==> #[trigger] top@[jj] < RANK_MODULUS,
                        piv == top@[col as int],
                        f == before[r as int]@[col as int],
                        newrow@.len() == j,
                        forall|jj: int| 0 <= jj < j ==> (#[trigger] newrow@[jj]) as int == modp(
                            piv * before[r as int]@[jj] - f * top@[jj],
                        ) && newrow@[jj] < RANK_MODULUS,
                    decreases ncols - j,
                {
                    let x = mul_sub_mod(piv, work[r][j], f, top[j]);
                    newrow.push(x);
                    j = j + 1;
                }
                let ghost wprev = residue_rows(work@);
                proof {
                    let tr = swapped[0];
                    let rr = swapped[r - row];
                    assert(tr =~= residue_rows(before)[row as int]);
                    assert(rr =~= residue_rows(before)[r as int]);
                    assert(residue_rows(work@.update(r as int, newrow))[r as int] =~= combine(tr, rr, col as int));
                    assert(target[r - row] == combine(swapped[0], swapped[r - row], col as int));
                }
                let ghost prev = work@;
                work.set(r, newrow);
                proof {
                    let nv = residue_rows(work@)[r as int];
                    assert(residue_rows(work@) =~= wprev.update(r as int, nv));
                    assert(wprev[r as int] =~= residue_rows(before)[r as int]);
                    assert(wprev[row as int] =~= residue_rows(before)[row as int]);
                    assert forall|jj: int| 0 <= jj < n implies #[trigger] nv[jj] == modp(
                        piv * wprev[r as int][jj] - f * wprev[row as int][jj],
                    ) by {}
                    assert forall|k: int| row < k < r + 1 implies #[trigger] residue_rows(work@)[k] == target[k - row] by {
                        if k < r {
                            assert(work@[k] == prev[k]);
                            assert(residue_rows(work@)[k] == residue_rows(prev)[k]);
                        }
                    }
                    // Row r of the working matrix is still a combination of the input rows.
                    lemma_comb_linear(start, sg[r as int], sg[row as int], piv as int, f as int, n);
                    let sr = Seq::new(nrows as nat, |i: int| piv * sg[r as int][i] - f * sg[row as int][i]);
                    assert(lin_comb(start, sr, n) =~= nv);
                    let sg1 = sg.update(r as int, sr);
                    assert forall|k: int| 0 <= k < nrows implies (#[trigger] sg1[k]).len() == nrows
                        && residue_rows(work@)[k] == lin_comb(start, sg1[k], n) by {}
                    // Every input row is still a combination of the working rows.
                    let tg1 = Seq::new(
                        nrows as nat,
                        |i: int| tg[i].update(r as int, tg[i][r as int] * inv).update(
                            row as int,
                            tg[i][row as int] + tg[i][r as int] * inv * f,
                        ),
                    );
                    assert forall|k: int| 0 <= k < nrows implies (#[trigger] tg1[k]).len() == nrows && start[k]
                        == lin_comb(residue_rows(work@), tg1[k], n) by {
                        lemma_eliminate_back(wprev, nv, r as int, row as int, piv as int, f as int, inv, tg[k], n);
                    }
                    // Earlier pivot columns, and the columns before col, stay zero below.
                    assert forall|k: int, k2: int| 0 <= k < row && k < k2 < nrows implies #[trigger] work@[k2]@[pc[k]]
                        == 0 by {
                        if k2 == r {
                            assert(prev[r as int]@[pc[k]] == 0);
                            assert(prev[row as int]@[pc[k]] == 0);
                            assert(nv[pc[k]] == modp(piv * 0 - f * 0));
                        } else {
                            assert(work@[k2] == prev[k2]);
                        }
                    }
                    assert forall|k2: int, j: int| row <= k2 < nrows && 0 <= j < col implies #[trigger] work@[k2]@[j]
                        == 0 by {
                        if k2 == r {
                            assert(prev[r as int]@[j] == 0);
                            assert(prev[row as int]@[j] == 0);
                            assert(nv[j] == modp(piv * 0 - f * 0));
                        } else {
                            assert(work@[k2] == prev[k2]);
                        }
                    }
                    assert(nv[col as int] == modp(piv * f - f * piv));
                    assert(piv * f - f * piv == 0) by (nonlinear_arith);
                    assert forall|k2: int| row < k2 < r + 1 implies #[trigger] work@[k2]@[col as int] == 0 by {
                        if k2 < r {
                            assert(work@[k2] == prev[k2]);
                        }
                    }
                    sg = sg1;
                    tg = tg1;
                }
                r = r + 1;
            }
            proof {
                let after = residue_rows(work@).subrange(row as int, nrows as int);
                assert forall|k: int| 0 <= k < after.len() implies #[trigger] after[k] == target[k] by {
                    if k == 0 {
                        assert(work@[row as int] == before[row as int]);
                        assert(target[0] == swapped[0]);
                    } else {
                        assert(after[k] == residue_rows(work@)[k + row]);
                    }
                }
                assert(after =~= target);
                assert(after.drop_first() =~= residue_rows(work@).subrange(row + 1, nrows as int));
                assert(work@[row as int]@[col as int] == piv);
                pc = pc.push(col as int);
            }
            row = row + 1;
        } else {
            proof {
                assert(first_nonzero_from(sub, col as int, 0) == None::<int>);
            }
        }
        col = col + 1;
    }
    proof {
        let w = residue_rows(work@);
        let b = w.take(row as int);
        assert forall|i: int, j: int| row <= i < nrows && 0 <= j < n implies #[trigger] w[i][j] == 0 by {
            assert(work@[i]@[j] == 0);
        }
        assert(is_residue_matrix(w, n));
        lemma_echelon_independent(b, pc, n);
        assert forall|i: int| 0 <= i < start.len() implies in_row_space(b, #[trigger] start[i], n) by {
            lemma_drop_zero_rows(w, tg[i], row as int, n);
            assert(lin_comb(b, tg[i].take(row as int), n) == start[i]);
        }
        assert forall|i: int| 0 <= i < b.len() implies in_row_space(start, #[trigger] b[i], n) by {
            assert(lin_comb(start, sg[i], n) == b[i]);
        }
        assert(is_row_basis(b, start, n));
    }
    row
}
} // verus!
