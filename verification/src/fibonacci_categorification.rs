//! Fibonacci growth as a categorical construction.
//! Fibonacci numbers arise as the free monoid on 2 generators
//! with the relation F(n+2) = F(n+1) + F(n).

use vstd::prelude::*;
use vstd::arithmetic::power2::*;
use vstd::string::*;

verus! {

/// The Fibonacci numbers: F(0) = 0, F(1) = 1, F(n + 2) = F(n + 1) + F(n).
pub open spec fn fib(n: nat) -> nat
    decreases n,
{
    if n == 0 {
        0
    } else if n == 1 {
        1
    } else {
        fib((n - 2) as nat) + fib((n - 1) as nat)
    }
}

/// The Fibonacci numbers never decrease.
pub proof fn lemma_fib_monotone(i: nat, j: nat)
    requires
        i <= j,
    ensures
        fib(i) <= fib(j),
    decreases j - i,
{
    if j < 2 {
    } else if i == j {
    } else {
        lemma_fib_monotone(i, (j - 1) as nat);
    }
}

/// Fibonacci sequence generator.
#[derive(Debug)]
pub struct FibonacciSequence {
    /// Cached values.
    values: Vec<u64>,
}

impl Clone for FibonacciSequence {
    fn clone(&self) -> (c: Self)
        ensures
            c.len() == self.len(),
    {
        proof {
            use_type_invariant(self);
        }
        let values = self.values.clone();
        proof {
            assert forall|i: int| 0 <= i < values@.len() implies #[trigger] values@[i] == fib(i as nat) by {
                assert(values@[i] == self.values@[i]);
            }
        }
        FibonacciSequence { values }
    }
}

impl FibonacciSequence {
    /// The cache always holds at least F(0) and F(1), and holds F(i) at index i.
    #[verifier::type_invariant]
    spec fn cache_is_fibonacci(self) -> bool {
        &&& self.values@.len() >= 2
        &&& forall|i: int| 0 <= i < self.values@.len() ==> #[trigger] self.values@[i] == fib(i as nat)
    }

    /// Number of cached terms: the cache holds F(0), ..., F(len - 1).
    pub closed spec fn len(self) -> nat {
        self.values@.len()
    }

    /// Create a new Fibonacci sequence, precomputing up to `n` terms
    /// (at least the two seed terms F(0) and F(1)).
    pub fn new(n: usize) -> (s: Self)
        requires
            n <= 2 || fib((n - 1) as nat) <= u64::MAX,
        ensures
            s.len() == if n < 2 { 2 } else { n as nat },
    {
        let mut values: Vec<u64> = Vec::new();
        values.push(0);
        values.push(1);
        while values.len() < n
            invariant
                2 <= values@.len(),
                values@.len() <= n || values@.len() == 2,
                n <= 2 || fib((n - 1) as nat) <= u64::MAX,
                forall|i: int| 0 <= i < values@.len() ==> #[trigger] values@[i] == fib(i as nat),
            decreases n - values@.len(),
        {
            let len = values.len();
            proof {
                lemma_fib_monotone(len as nat, (n - 1) as nat);
                assert(fib(len as nat) == fib((len - 2) as nat) + fib((len - 1) as nat));
            }
            let next = values[len - 1] + values[len - 2];
            values.push(next);
        }
        FibonacciSequence { values }
    }

    /// Get the k-th Fibonacci number (0-indexed), extending past the cache when needed.
    pub fn get(&self, k: usize) -> (v: u64)
        requires
            fib(k as nat) <= u64::MAX,
        ensures
            v == fib(k as nat),
    {
        proof {
            use_type_invariant(self);
        }
        if k < self.values.len() {
            self.values[k]
        } else {
            // Walk forward from the last two cached terms.
            let mut idx = self.values.len() - 1;
            let mut prev = self.values[idx - 1];
            let mut cur = self.values[idx];
            assert(prev == fib((idx - 1) as nat));
            assert(cur == fib(idx as nat));
            while idx < k
                invariant
                    1 <= idx <= k,
                    fib(k as nat) <= u64::MAX,
                    prev == fib((idx - 1) as nat),
                    cur == fib(idx as nat),
                decreases k - idx,
            {
                proof {
                    lemma_fib_monotone((idx + 1) as nat, k as nat);
                    assert(fib((idx + 1) as nat) == fib((idx - 1) as nat) + fib(idx as nat));
                }
                let next = prev + cur;
                prev = cur;
                cur = next;
                idx = idx + 1;
            }
            cur
        }
    }

    /// The cached terms F(0), ..., F(len - 1).
    pub fn cached_terms(&self) -> (t: Vec<u64>)
        ensures
            t@.len() == self.len(),
            forall|i: int| 0 <= i < t@.len() ==> #[trigger] t@[i] == fib(i as nat),
    {
        proof {
            use_type_invariant(self);
        }
        let t = self.values.clone();
        proof {
            assert forall|i: int| 0 <= i < t@.len() implies #[trigger] t@[i] == fib(i as nat) by {
                assert(t@[i] == self.values@[i]);
            }
        }
        t
    }

    /// The terms F(0), ..., F(n), in order.
    pub fn terms_up_to(&self, n: usize) -> (t: Vec<u64>)
        requires
            fib(n as nat) <= u64::MAX,
        ensures
            t.len() == n + 1,
            forall|i: int| 0 <= i <= n ==> #[trigger] t[i] == fib(i as nat),
    {
        proof {
            lemma_fib_u64_index_bound(n as nat);
        }
        let mut t: Vec<u64> = Vec::new();
        let mut i: usize = 0;
        while i <= n
            invariant
                i <= n + 1,
                n < 131,
                fib(n as nat) <= u64::MAX,
                t.len() == i,
                forall|j: int| 0 <= j < i ==> #[trigger] t[j] == fib(j as nat),
            decreases n + 1 - i,
        {
            proof {
                lemma_fib_monotone(i as nat, n as nat);
            }
            let v = self.get(i);
            t.push(v);
            i = i + 1;
        }
        t
    }

    /// The two terms whose ratio approximates the golden ratio: the last and
    /// second-to-last cached terms, `(F(len - 1), F(len - 2))`. With fewer than
    /// three cached terms there is no meaningful ratio and the result is `None`.
    pub fn golden_ratio_terms(&self) -> (t: Option<(u64, u64)>)
        ensures
            t == if self.len() < 3 {
                None::<(u64, u64)>
            } else {
                Some(((fib((self.len() - 1) as nat)) as u64, (fib((self.len() - 2) as nat)) as u64))
            },
    {
        proof {
            use_type_invariant(self);
        }
        let n = self.values.len();
        if n < 3 {
            None
        } else {
            Some((self.values[n - 1], self.values[n - 2]))
        }
    }
}

/// F(2k + 1) is at least 2^k: the sequence at least doubles every two steps.
proof fn lemma_fib_odd_lower_bound(k: nat)
    ensures
        fib(2 * k + 1) >= pow2(k),
    decreases k,
{
    if k == 0 {
        lemma2_to64();
    } else {
        lemma_fib_odd_lower_bound((k - 1) as nat);
        lemma_fib_monotone((2 * k - 1) as nat, (2 * k) as nat);
        assert(fib(2 * k + 1) == fib((2 * k - 1) as nat) + fib(2 * k));
        lemma_pow2_unfold(k);
    }
}

/// Only the Fibonacci numbers of index below 131 fit in a `u64`.
pub proof fn lemma_fib_u64_index_bound(n: nat)
    requires
        fib(n) <= u64::MAX,
    ensures
        n < 131,
{
    if n >= 131 {
        lemma_fib_odd_lower_bound(65);
        lemma_fib_monotone(131, n);
        lemma2_to64();
        lemma_pow2_unfold(65);
    }
}

/// Greedy choice of Fibonacci indices, scanning from index `k` down to 1 and
/// taking every F(i) that still fits in the remainder.
pub open spec fn greedy_indices(k: nat, rem: nat) -> Seq<nat>
    decreases k,
{
    if k == 0 {
        seq![]
    } else if fib(k) <= rem {
        seq![k] + greedy_indices((k - 1) as nat, (rem - fib(k)) as nat)
    } else {
        greedy_indices((k - 1) as nat, rem)
    }
}

/// Sum of the Fibonacci numbers at the given indices.
pub open spec fn sum_fib(idx: Seq<nat>) -> nat
    decreases idx.len(),
{
    if idx.len() == 0 {
        0
    } else {
        fib(idx[0]) + sum_fib(idx.drop_first())
    }
}

/// Zeckendorf's theorem (existence): when n < F(k + 1), the greedy choice from
/// index k writes n as a sum of Fibonacci numbers F(i) with i >= 2, in strictly
/// decreasing order of index, no two of them consecutive.
pub proof fn lemma_zeckendorf(k: nat, n: nat)
    requires
        n < fib(k + 1),
    ensures
        sum_fib(greedy_indices(k, n)) == n,
        forall|j: int| 0 <= j < greedy_indices(k, n).len() ==> 2 <= #[trigger] greedy_indices(k, n)[j] <= k,
        forall|j: int| 0 <= j < greedy_indices(k, n).len() - 1 ==>
            #[trigger] greedy_indices(k, n)[j] >= greedy_indices(k, n)[j + 1] + 2,
    decreases k,
{
    let g = greedy_indices(k, n);
    if k == 0 {
    } else if fib(k) <= n {
        assert(fib(2) == fib(0) + fib(1));
        assert(k >= 2);
        let rem = (n - fib(k)) as nat;
        assert(fib(k + 1) == fib((k - 1) as nat) + fib(k));
        assert(rem < fib((k - 1) as nat));
        assert(greedy_indices((k - 1) as nat, rem) == greedy_indices((k - 2) as nat, rem));
        lemma_zeckendorf((k - 2) as nat, rem);
        let rest = greedy_indices((k - 2) as nat, rem);
        assert(g == seq![k] + rest);
        assert(g.drop_first() =~= rest);
        assert forall|j: int| 0 <= j < g.len() implies 2 <= #[trigger] g[j] <= k by {
            if j > 0 {
                assert(g[j] == rest[j - 1]);
            }
        }
        assert forall|j: int| 0 <= j < g.len() - 1 implies #[trigger] g[j] >= g[j + 1] + 2 by {
            assert(g[j + 1] == rest[j]);
            if j > 0 {
                assert(g[j] == rest[j - 1]);
            }
        }
    } else {
        lemma_zeckendorf((k - 1) as nat, n);
    }
}

/// The Fibonacci category: objects are natural numbers,
/// morphisms n → m are given by F(m)/F(n).
#[derive(Debug, Clone)]
pub struct FibonacciCategory {
    pub fib: FibonacciSequence,
    pub n_objects: usize,
}

impl FibonacciCategory {
    /// Create a Fibonacci category with `n` objects; its cache holds F(0), ..., F(n + 1).
    pub fn new(n_objects: usize) -> (c: Self)
        requires
            fib(n_objects as nat + 1) <= u64::MAX,
        ensures
            c.n_objects == n_objects,
            c.fib.len() == n_objects + 2,
    {
        proof {
            lemma_fib_u64_index_bound(n_objects as nat + 1);
        }
        FibonacciCategory { fib: FibonacciSequence::new(n_objects + 2), n_objects }
    }

    /// Zeckendorf representation: express a number as sum of non-consecutive Fibonacci numbers.
    /// The Fibonacci numbers up to `n` (the cached ones, extended past the cache as far as
    /// needed) are scanned from the largest down, and each one that still fits in the
    /// remainder is taken.
    pub fn zeckendorf(&self, n: u64) -> (rep: Vec<u64>)
        ensures
            rep@.len() == zeckendorf_indices(n as nat).len(),
            forall|j: int| 0 <= j < rep@.len() ==>
                #[trigger] rep@[j] == fib(zeckendorf_indices(n as nat)[j]),
            sum_fib(zeckendorf_indices(n as nat)) == n,
            forall|j: int| 0 <= j < rep@.len() ==> 2 <= #[trigger] zeckendorf_indices(n as nat)[j],
            forall|j: int| 0 <= j < rep@.len() - 1 ==>
                #[trigger] zeckendorf_indices(n as nat)[j] >= zeckendorf_indices(n as nat)[j + 1] + 2,
    {
        proof {
            use_type_invariant(&self.fib);
        }
        // The cached terms, extended until a term exceeds n or no longer fits in a u64.
        let mut vals: Vec<u64> = self.fib.values.clone();
        proof {
            assert forall|i: int| 0 <= i < vals@.len() implies #[trigger] vals@[i] == fib(i as nat) by {
                assert(vals@[i] == self.fib.values@[i]);
            }
        }
        proof {
            assert(vals@[vals@.len() - 1] == fib((vals@.len() - 1) as nat));
            lemma_fib_u64_index_bound((vals@.len() - 1) as nat);
        }
        let mut growing = true;
        while growing && vals[vals.len() - 1] <= n
            invariant
                vals@.len() >= 2,
                forall|i: int| 0 <= i < vals@.len() ==> #[trigger] vals@[i] == fib(i as nat),
                vals@.len() <= 132,
                !growing ==> fib(vals@.len() as nat) > u64::MAX,
            decreases 2 * (200 - vals@.len()) + if growing { 1int } else { 0int },
        {
            let len = vals.len();
            proof {
                lemma_fib_u64_index_bound((len - 1) as nat);
                assert(fib(len as nat) == fib((len - 2) as nat) + fib((len - 1) as nat));
            }
            match vals[len - 1].checked_add(vals[len - 2]) {
                Some(next) => {
                    proof {
                        lemma_fib_u64_index_bound(len as nat);
                    }
                    vals.push(next);
                },
                None => {
                    growing = false;
                },
            }
        }
        let top = vals.len() - 1;
        proof {
            lemma_fib_monotone(top as nat, top as nat + 1);
            assert(n < fib(top as nat + 1));
        }
        let ghost target = greedy_indices(top as nat, n as nat);
        let mut rep: Vec<u64> = Vec::new();
        let ghost mut taken: Seq<nat> = seq![];
        let mut remaining = n;
        let mut k = top;
        while k > 0
            invariant
                k <= top,
                top == vals@.len() - 1,
                vals@.len() >= 2,
                forall|i: int| 0 <= i < vals@.len() ==> #[trigger] vals@[i] == fib(i as nat),
                target == greedy_indices(top as nat, n as nat),
                target == taken + greedy_indices(k as nat, remaining as nat),
                rep@.len() == taken.len(),
                forall|j: int| 0 <= j < rep@.len() ==> #[trigger] rep@[j] == fib(taken[j]),
            decreases k,
        {
            let f = vals[k];
            if f <= remaining {
                proof {
                    assert(taken + greedy_indices(k as nat, remaining as nat) =~= taken.push(k as nat)
                        + greedy_indices((k - 1) as nat, (remaining - f) as nat));
                    taken = taken.push(k as nat);
                }
                remaining = remaining - f;
                rep.push(f);
            }
            k = k - 1;
        }
        proof {
            assert(target =~= taken);
            lemma_fib_exceeds_index(n as nat);
            if top as nat <= n as nat + 1 {
                lemma_greedy_from_higher(n as nat + 1, top as nat, n as nat);
            } else {
                lemma_greedy_from_higher(top as nat, n as nat + 1, n as nat);
            }
            lemma_zeckendorf(n as nat + 1, n as nat);
        }
        rep
    }
}

/// F(n + 2) exceeds n.
proof fn lemma_fib_exceeds_index(n: nat)
    ensures
        fib(n + 2) > n,
    decreases n,
{
    assert(fib(2) == fib(0) + fib(1));
    if n >= 1 {
        lemma_fib_exceeds_index((n - 1) as nat);
        assert(fib(n + 2) == fib(n) + fib(n + 1));
        lemma_fib_monotone(1, n);
    }
}

/// Starting the greedy scan higher up changes nothing when the extra terms all exceed n.
proof fn lemma_greedy_from_higher(k: nat, j: nat, n: nat)
    requires
        j <= k,
        n < fib(j + 1),
    ensures
        greedy_indices(k, n) == greedy_indices(j, n),
    decreases k,
{
    if k > j {
        lemma_fib_monotone(j + 1, k);
        lemma_greedy_from_higher((k - 1) as nat, j, n);
    }
}

/// The Zeckendorf representation of n, as Fibonacci indices in decreasing order:
/// the greedy choice from index n + 1 (F(n + 2) > n, so no larger term can fit).
pub open spec fn zeckendorf_indices(n: nat) -> Seq<nat> {
    greedy_indices(n + 1, n)
}

/// One step of growth: after 'a' either letter may follow, after 'b' only 'a'.
pub open spec fn extend_word(w: Seq<char>) -> Seq<Seq<char>> {
    if w.len() == 0 {
        seq![]
    } else if w.last() == 'a' {
        seq![w.push('a'), w.push('b')]
    } else if w.last() == 'b' {
        seq![w.push('a')]
    } else {
        seq![]
    }
}

/// Grow every word of `ws` by one letter, keeping the order of `ws`.
pub open spec fn extend_all(ws: Seq<Seq<char>>) -> Seq<Seq<char>>
    decreases ws.len(),
{
    if ws.len() == 0 {
        seq![]
    } else {
        extend_all(ws.drop_last()) + extend_word(ws.last())
    }
}

/// The words of length n over {a, b} in which 'b' is never followed by 'b',
/// in the order in which the monoid generates them.
pub open spec fn words_of_length(n: nat) -> Seq<Seq<char>>
    decreases n,
{
    if n == 0 {
        seq![seq![]]
    } else if n == 1 {
        seq![seq!['a'], seq!['b']]
    } else {
        extend_all(words_of_length((n - 1) as nat))
    }
}

/// The characters of each string of a list.
pub open spec fn string_views(v: Seq<String>) -> Seq<Seq<char>> {
    v.map_values(|s: String| s@)
}

/// Whether the last letter of `w` is `c`.
pub open spec fn ends_with(w: Seq<char>, c: char) -> bool {
    w.len() > 0 && w.last() == c
}

/// How many words of `ws` end with the letter `c`.
pub open spec fn count_ending(ws: Seq<Seq<char>>, c: char) -> nat
    decreases ws.len(),
{
    if ws.len() == 0 {
        0
    } else {
        count_ending(ws.drop_last(), c) + if ends_with(ws.last(), c) { 1nat } else { 0nat }
    }
}

/// Every word of `ws` ends with 'a' or with 'b'.
pub open spec fn all_end_in_ab(ws: Seq<Seq<char>>) -> bool {
    forall|i: int| 0 <= i < ws.len() ==> ends_with(#[trigger] ws[i], 'a') || ends_with(ws[i], 'b')
}

proof fn lemma_count_ending_concat(x: Seq<Seq<char>>, y: Seq<Seq<char>>, c: char)
    ensures
        count_ending(x + y, c) == count_ending(x, c) + count_ending(y, c),
    decreases y.len(),
{
    if y.len() == 0 {
        assert(x + y =~= x);
    } else {
        assert((x + y).drop_last() =~= x + y.drop_last());
        lemma_count_ending_concat(x, y.drop_last(), c);
    }
}

proof fn lemma_count_ab(ws: Seq<Seq<char>>)
    requires
        all_end_in_ab(ws),
    ensures
        ws.len() == count_ending(ws, 'a') + count_ending(ws, 'b'),
    decreases ws.len(),
{
    if ws.len() > 0 {
        assert(ends_with(ws[ws.len() - 1], 'a') || ends_with(ws[ws.len() - 1], 'b'));
        lemma_count_ab(ws.drop_last());
    }
}

/// Growing a list of words ending in 'a' or 'b': each 'a'-word gives two words and each
/// 'b'-word one; the new 'a'-words number all old words, the new 'b'-words the old 'a'-words.
proof fn lemma_extend_all_counts(ws: Seq<Seq<char>>)
    requires
        all_end_in_ab(ws),
    ensures
        all_end_in_ab(extend_all(ws)),
        count_ending(extend_all(ws), 'a') == count_ending(ws, 'a') + count_ending(ws, 'b'),
        count_ending(extend_all(ws), 'b') == count_ending(ws, 'a'),
    decreases ws.len(),
{
    if ws.len() > 0 {
        let front = ws.drop_last();
        let w = ws.last();
        lemma_extend_all_counts(front);
        let ext = extend_word(w);
        lemma_count_ending_concat(extend_all(front), ext, 'a');
        lemma_count_ending_concat(extend_all(front), ext, 'b');
        assert(ends_with(ws[ws.len() - 1], 'a') || ends_with(ws[ws.len() - 1], 'b'));
        assert(ws.drop_last() == front);
        assert(count_ending(ws, 'a') == count_ending(front, 'a') + if ends_with(w, 'a') { 1nat } else { 0nat });
        assert(count_ending(ws, 'b') == count_ending(front, 'b') + if ends_with(w, 'b') { 1nat } else { 0nat });
        let wa = w.push('a');
        let wb = w.push('b');
        assert(ends_with(wa, 'a') && !ends_with(wa, 'b'));
        assert(ends_with(wb, 'b') && !ends_with(wb, 'a'));
        reveal_with_fuel(count_ending, 3);
        let single = seq![wa];
        assert(single.drop_last() =~= Seq::<Seq<char>>::empty());
        assert(single.last() == wa);
        assert(count_ending(single, 'a') == 1);
        assert(count_ending(single, 'b') == 0);
        if w.last() == 'a' {
            assert(ext == seq![wa, wb]);
            assert(ext.drop_last() =~= single);
            assert(ext.last() == wb);
            assert(count_ending(ext, 'a') == 1);
            assert(count_ending(ext, 'b') == 1);
        } else {
            assert(ext == single);
            assert(count_ending(ext, 'a') == 1);
            assert(count_ending(ext, 'b') == 0);
        }
        let all = extend_all(ws);
        assert(all == extend_all(front) + ext);
        assert forall|i: int| 0 <= i < all.len() implies ends_with(#[trigger] all[i], 'a') || ends_with(all[i], 'b') by {
            if i >= extend_all(front).len() {
                assert(all[i] == ext[i - extend_all(front).len()]);
            } else {
                assert(all[i] == extend_all(front)[i]);
            }
        }
    }
}

/// Words of each length n >= 1: F(n + 1) of them end in 'a', F(n) end in 'b',
/// and there are F(n + 2) of them in all (also for n = 0: the empty word).
pub proof fn lemma_words_of_length_count(n: nat)
    ensures
        words_of_length(n).len() == fib(n + 2),
        n >= 1 ==> all_end_in_ab(words_of_length(n)),
        n >= 1 ==> count_ending(words_of_length(n), 'a') == fib(n + 1),
        n >= 1 ==> count_ending(words_of_length(n), 'b') == fib(n),
    decreases n,
{
    assert(fib(2) == fib(0) + fib(1));
    if n == 0 {
    } else if n == 1 {
        reveal_with_fuel(count_ending, 3);
        let ws = words_of_length(1);
        assert(ws.drop_last() =~= seq![seq!['a']]);
        assert(ws.drop_last().drop_last() =~= Seq::<Seq<char>>::empty());
        assert(fib(3) == fib(1) + fib(2));
    } else {
        lemma_words_of_length_count((n - 1) as nat);
        lemma_extend_all_counts(words_of_length((n - 1) as nat));
        assert(fib(n + 1) == fib((n - 1) as nat) + fib(n));
        assert(fib(n + 2) == fib(n) + fib(n + 1));
        lemma_count_ab(words_of_length(n));
    }
}

/// Every letter of `w` is 'a' or 'b'.
pub open spec fn over_ab(w: Seq<char>) -> bool {
    forall|i: int| 0 <= i < w.len() ==> #[trigger] w[i] == 'a' || w[i] == 'b'
}

/// Positions i and i + 1 of `w` are both 'b'.
pub open spec fn bb_at(w: Seq<char>, i: int) -> bool {
    w[i] == 'b' && w[i + 1] == 'b'
}

/// `w` has no "bb" substring.
pub open spec fn no_bb(w: Seq<char>) -> bool {
    forall|i: int| 0 <= i < w.len() - 1 ==> !#[trigger] bb_at(w, i)
}

/// `u` comes before `v` in lexicographic order, with 'a' before 'b': they agree up to
/// some position, where `u` has 'a' and `v` has 'b'.
pub open spec fn lex_before(u: Seq<char>, v: Seq<char>) -> bool {
    exists|k: int| 0 <= k < u.len() && k < v.len() && #[trigger] u.take(k) == v.take(k) && u[k] == 'a' && v[k] == 'b'
}

/// `ws` lists exactly the words of length n over {a, b} with no "bb", each once, in
/// strictly increasing lexicographic order.
pub open spec fn lists_fibonacci_words(ws: Seq<Seq<char>>, n: nat) -> bool {
    &&& forall|i: int| 0 <= i < ws.len() ==> (#[trigger] ws[i]).len() == n && over_ab(ws[i]) && no_bb(ws[i])
    &&& forall|i: int, j: int| 0 <= i < j < ws.len() ==> lex_before(#[trigger] ws[i], #[trigger] ws[j])
    &&& forall|w: Seq<char>| w.len() == n && over_ab(w) && no_bb(w) ==> #[trigger] ws.contains(w)
}

/// Every word produced by growing `ws` is a word x of `ws` followed by 'a', or by 'b'
/// when x ends with 'a'.
proof fn lemma_extend_all_origin(ws: Seq<Seq<char>>)
    ensures
        forall|p: int| 0 <= p < extend_all(ws).len() ==> exists|j: int| 0 <= j < ws.len() && ws[j].len() > 0 && {
            ||| (#[trigger] extend_all(ws)[p] == ws[j].push('a') && (ws[j].last() == 'a' || ws[j].last() == 'b'))
            ||| (extend_all(ws)[p] == ws[j].push('b') && ws[j].last() == 'a')
        },
    decreases ws.len(),
{
    if ws.len() > 0 {
        let front = ws.drop_last();
        let w = ws.last();
        lemma_extend_all_origin(front);
        let a = extend_all(front);
        let b = extend_word(w);
        assert(extend_all(ws) == a + b);
        assert forall|p: int| 0 <= p < extend_all(ws).len() implies exists|j: int| 0 <= j < ws.len() && ws[j].len() > 0 && {
            ||| (#[trigger] extend_all(ws)[p] == ws[j].push('a') && (ws[j].last() == 'a' || ws[j].last() == 'b'))
            ||| (extend_all(ws)[p] == ws[j].push('b') && ws[j].last() == 'a')
        } by {
            if p < a.len() {
                let j = choose|j: int| 0 <= j < front.len() && front[j].len() > 0 && {
                    ||| (#[trigger] a[p] == front[j].push('a') && (front[j].last() == 'a' || front[j].last() == 'b'))
                    ||| (a[p] == front[j].push('b') && front[j].last() == 'a')
                };
                assert(ws[j] == front[j]);
                assert(extend_all(ws)[p] == a[p]);
            } else {
                let jl = ws.len() - 1;
                assert(ws[jl] == w);
                assert(extend_all(ws)[p] == b[p - a.len()]);
            }
        }
    }
}

/// Growing `ws` produces every word that growing one of its words produces.
proof fn lemma_extend_all_contains(ws: Seq<Seq<char>>, j: int)
    requires
        0 <= j < ws.len(),
    ensures
        forall|q: int| 0 <= q < extend_word(ws[j]).len() ==> extend_all(ws).contains(#[trigger] extend_word(ws[j])[q]),
    decreases ws.len(),
{
    let front = ws.drop_last();
    let a = extend_all(front);
    let b = extend_word(ws.last());
    assert(extend_all(ws) == a + b);
    if j < ws.len() - 1 {
        lemma_extend_all_contains(front, j);
        assert(ws[j] == front[j]);
        assert forall|q: int| 0 <= q < extend_word(ws[j]).len() implies extend_all(ws).contains(#[trigger] extend_word(ws[j])[q]) by {
            let y = extend_word(ws[j])[q];
            assert(a.contains(y));
            let p = choose|p: int| 0 <= p < a.len() && a[p] == y;
            assert(extend_all(ws)[p] == y);
        }
    } else {
        assert forall|q: int| 0 <= q < extend_word(ws[j]).len() implies extend_all(ws).contains(#[trigger] extend_word(ws[j])[q]) by {
            assert(extend_all(ws)[a.len() + q] == b[q]);
        }
    }
}

/// Appending letters keeps the lexicographic order of words of equal length.
proof fn lemma_lex_before_push(u: Seq<char>, v: Seq<char>, c: char, d: char)
    requires
        lex_before(u, v),
        u.len() == v.len(),
    ensures
        lex_before(u.push(c), v.push(d)),
{
    let k = choose|k: int| 0 <= k < u.len() && k < v.len() && #[trigger] u.take(k) == v.take(k) && u[k] == 'a' && v[k] == 'b';
    assert(u.push(c).take(k) =~= u.take(k));
    assert(v.push(d).take(k) =~= v.take(k));
    assert(u.push(c)[k] == u[k] && v.push(d)[k] == v[k]);
}

/// Growing a list of words of length n >= 1, sorted lexicographically, keeps it sorted.
proof fn lemma_extend_all_sorted(ws: Seq<Seq<char>>, n: nat)
    requires
        n >= 1,
        forall|i: int| 0 <= i < ws.len() ==> (#[trigger] ws[i]).len() == n,
        forall|i: int, j: int| 0 <= i < j < ws.len() ==> lex_before(#[trigger] ws[i], #[trigger] ws[j]),
    ensures
        forall|i: int, j: int| 0 <= i < j < extend_all(ws).len() ==> lex_before(#[trigger] extend_all(ws)[i], #[trigger] extend_all(ws)[j]),
    decreases ws.len(),
{
    if ws.len() > 0 {
        let front = ws.drop_last();
        let w = ws.last();
        lemma_extend_all_sorted(front, n);
        lemma_extend_all_origin(front);
        let a = extend_all(front);
        let b = extend_word(w);
        let e = extend_all(ws);
        assert(e == a + b);
        // The two words grown from the last word are in order.
        assert forall|i: int, j: int| 0 <= i < j < b.len() implies lex_before(#[trigger] b[i], #[trigger] b[j]) by {
            assert(b[i] == w.push('a') && b[j] == w.push('b'));
            assert(w.push('a').take(n as int) =~= w);
            assert(w.push('b').take(n as int) =~= w);
            assert(w.push('a').take(n as int) == w.push('b').take(n as int));
        }
        // Everything grown from the front comes before everything grown from the last word.
        assert forall|i: int, q: int| 0 <= i < a.len() && 0 <= q < b.len() implies lex_before(a[i], b[q]) by {
            let j = choose|j: int| 0 <= j < front.len() && front[j].len() > 0 && {
                ||| (#[trigger] a[i] == front[j].push('a') && (front[j].last() == 'a' || front[j].last() == 'b'))
                ||| (a[i] == front[j].push('b') && front[j].last() == 'a')
            };
            assert(front[j] == ws[j]);
            assert(lex_before(ws[j], ws[ws.len() - 1]));
            if b[q] == w.push('a') {
                if a[i] == front[j].push('a') {
                    lemma_lex_before_push(ws[j], w, 'a', 'a');
                } else {
                    lemma_lex_before_push(ws[j], w, 'b', 'a');
                }
            } else {
                assert(b[q] == w.push('b'));
                if a[i] == front[j].push('a') {
                    lemma_lex_before_push(ws[j], w, 'a', 'b');
                } else {
                    lemma_lex_before_push(ws[j], w, 'b', 'b');
                }
            }
        }
        assert forall|i: int, j: int| 0 <= i < j < e.len() implies lex_before(#[trigger] e[i], #[trigger] e[j]) by {
            if j < a.len() {
                assert(e[i] == a[i] && e[j] == a[j]);
            } else if i >= a.len() {
                assert(e[i] == b[i - a.len()] && e[j] == b[j - a.len()]);
            } else {
                assert(e[i] == a[i] && e[j] == b[j - a.len()]);
            }
        }
    }
}

/// The words of length n generated by the monoid are exactly the words over {a, b}
/// with no "bb", each once, in strictly increasing lexicographic order.
pub proof fn lemma_words_of_length_exact(n: nat)
    ensures
        lists_fibonacci_words(words_of_length(n), n),
    decreases n,
{
    let ws = words_of_length(n);
    if n == 0 {
        assert forall|w: Seq<char>| w.len() == n && over_ab(w) && no_bb(w) implies #[trigger] ws.contains(w) by {
            assert(w =~= ws[0]);
        }
    } else if n == 1 {
        assert(lex_before(ws[0], ws[1])) by {
            assert(ws[0].take(0) =~= ws[1].take(0));
        }
        assert forall|w: Seq<char>| w.len() == n && over_ab(w) && no_bb(w) implies #[trigger] ws.contains(w) by {
            assert(w[0] == 'a' || w[0] == 'b');
            if w[0] == 'a' {
                assert(w =~= ws[0]);
            } else {
                assert(w =~= ws[1]);
            }
        }
    } else {
        let prev = words_of_length((n - 1) as nat);
        lemma_words_of_length_exact((n - 1) as nat);
        assert(ws == extend_all(prev));
        lemma_extend_all_origin(prev);
        assert forall|p: int| 0 <= p < ws.len() implies (#[trigger] ws[p]).len() == n && over_ab(ws[p]) && no_bb(ws[p]) by {
            let j = choose|j: int| 0 <= j < prev.len() && prev[j].len() > 0 && {
                ||| (#[trigger] ws[p] == prev[j].push('a') && (prev[j].last() == 'a' || prev[j].last() == 'b'))
                ||| (ws[p] == prev[j].push('b') && prev[j].last() == 'a')
            };
            let x = prev[j];
            assert(over_ab(x) && no_bb(x) && x.len() == n - 1);
            assert forall|i: int| 0 <= i < ws[p].len() implies #[trigger] ws[p][i] == 'a' || ws[p][i] == 'b' by {
                if i < x.len() {
                    assert(ws[p][i] == x[i]);
                }
            }
            assert forall|i: int| 0 <= i < ws[p].len() - 1 implies !#[trigger] bb_at(ws[p], i) by {
                if i < x.len() - 1 {
                    assert(!bb_at(x, i));
                    assert(ws[p][i] == x[i] && ws[p][i + 1] == x[i + 1]);
                } else {
                    assert(ws[p][i] == x.last());
                }
            }
        }
        lemma_extend_all_sorted(prev, (n - 1) as nat);
        assert forall|w: Seq<char>| w.len() == n && over_ab(w) && no_bb(w) implies #[trigger] ws.contains(w) by {
            let x = w.drop_last();
            assert forall|i: int| 0 <= i < x.len() implies #[trigger] x[i] == 'a' || x[i] == 'b' by {
                assert(x[i] == w[i]);
            }
            assert forall|i: int| 0 <= i < x.len() - 1 implies !#[trigger] bb_at(x, i) by {
                assert(!bb_at(w, i));
            }
            assert(prev.contains(x));
            let j = choose|j: int| 0 <= j < prev.len() && prev[j] == x;
            lemma_extend_all_contains(prev, j);
            assert(w =~= x.push(w.last()));
            assert(x.last() == w[n - 2]);
            assert(x.last() == 'a' || x.last() == 'b');
            if w.last() == 'a' {
                assert(extend_word(x)[0] == x.push('a'));
            } else {
                assert(w.last() == 'b');
                assert(!bb_at(w, n - 2));
                assert(extend_word(x)[1] == x.push('b'));
            }
        }
    }
}

/// Free monoid on 2 generators {a, b} with Fibonacci growth.
#[derive(Debug, Clone)]
pub struct FreeFibonacciMonoid {
    /// Words of length n: count = F(n+2).
    pub words_by_length: Vec<Vec<String>>,
}

impl FreeFibonacciMonoid {
    /// Number of words stored for length n (zero past the stored lengths).
    pub open spec fn word_count(self, n: nat) -> nat {
        if n < self.words_by_length@.len() {
            self.words_by_length@[n as int]@.len()
        } else {
            0
        }
    }

    /// Every stored length n >= 2 holds as many words as lengths n - 1 and n - 2 together.
    pub open spec fn grows_like_fibonacci(self) -> bool {
        forall|n: nat| 2 <= n < self.words_by_length@.len() ==>
            #[trigger] self.word_count(n) == self.word_count((n - 1) as nat) + self.word_count((n - 2) as nat)
    }

    /// Generate all words up to length `max_len`: for each length, the words over
    /// {a, b} with no "bb", in lexicographic order.
    pub fn new(max_len: usize) -> (m: Self)
        requires
            max_len < usize::MAX,
        ensures
            m.words_by_length@.len() == max_len + 1,
            forall|n: int| 0 <= n < m.words_by_length@.len() ==>
                string_views(#[trigger] m.words_by_length@[n]@) == words_of_length(n as nat),
            forall|n: nat| n < m.words_by_length@.len() ==> #[trigger] m.word_count(n) == fib(n + 2),
            forall|n: int| 0 <= n < m.words_by_length@.len() ==>
                lists_fibonacci_words(string_views(#[trigger] m.words_by_length@[n]@), n as nat),
            m.grows_like_fibonacci(),
    {
        proof {
            reveal_strlit("a");
            reveal_strlit("b");
            assert("a"@ =~= seq!['a']);
            assert("b"@ =~= seq!['b']);
        }
        let mut words_by_length: Vec<Vec<String>> = Vec::new();
        let mut empty_words: Vec<String> = Vec::new();
        empty_words.push(String::new());
        words_by_length.push(empty_words);
        proof {
            assert(string_views(words_by_length@[0]@) =~= words_of_length(0));
        }
        if max_len >= 1 {
            let mut generators: Vec<String> = Vec::new();
            generators.push(String::from_str("a"));
            generators.push(String::from_str("b"));
            words_by_length.push(generators);
            proof {
                assert(string_views(words_by_length@[1]@) =~= words_of_length(1));
            }
        }
        let mut len: usize = words_by_length.len();
        while len <= max_len
            invariant
                1 <= len,
                max_len >= 1 ==> 2 <= len,
                len <= max_len + 1,
                max_len < usize::MAX,
                words_by_length@.len() == len,
                forall|n: int| 0 <= n < len ==>
                    string_views(#[trigger] words_by_length@[n]@) == words_of_length(n as nat),
            decreases max_len + 1 - len,
        {
            let mut words: Vec<String> = Vec::new();
            let prev = &words_by_length[len - 1];
            let ghost prev_view = string_views(prev@);
            let mut i: usize = 0;
            while i < prev.len()
                invariant
                    i <= prev@.len(),
                    prev_view == string_views(prev@),
                    string_views(words@) == extend_all(prev_view.take(i as int)),
                decreases prev@.len() - i,
            {
                let word = &prev[i];
                let text = word.as_str();
                let l = text.unicode_len();
                let ghost before = words@;
                proof {
                    reveal_strlit("a");
                    reveal_strlit("b");
                    assert("a"@ =~= seq!['a']);
                    assert("b"@ =~= seq!['b']);
                }
                if l > 0 {
                    let c = text.get_char(l - 1);
                    assert(c == word@.last());
                    if c == 'a' {
                        let wa = word.clone().concat("a");
                        let wb = word.clone().concat("b");
                        assert(wa@ =~= word@.push('a'));
                        assert(wb@ =~= word@.push('b'));
                        words.push(wa);
                        words.push(wb);
                    } else if c == 'b' {
                        let wa = word.clone().concat("a");
                        assert(wa@ =~= word@.push('a'));
                        words.push(wa);
                    }
                }
                proof {
                    assert(prev_view.take(i + 1).drop_last() =~= prev_view.take(i as int));
                    assert(prev_view.take(i + 1).last() == word@);
                    assert(string_views(words@) =~= string_views(before) + extend_word(word@));
                }
                i = i + 1;
            }
            proof {
                assert(prev_view.take(prev@.len() as int) =~= prev_view);
            }
            words_by_length.push(words);
            len = len + 1;
        }
        let m = FreeFibonacciMonoid { words_by_length };
        proof {
            assert forall|n: int| 0 <= n < m.words_by_length@.len() implies lists_fibonacci_words(
                string_views(#[trigger] m.words_by_length@[n]@),
                n as nat,
            ) by {
                lemma_words_of_length_exact(n as nat);
            }
            assert forall|n: nat| n < m.words_by_length@.len() implies #[trigger] m.word_count(n) == fib(n + 2) by {
                lemma_words_of_length_count(n);
                assert(string_views(m.words_by_length@[n as int]@).len() == m.words_by_length@[n as int]@.len());
            }
            assert forall|n: nat| 2 <= n < m.words_by_length@.len() implies #[trigger] m.word_count(n)
                == m.word_count((n - 1) as nat) + m.word_count((n - 2) as nat) by {
                assert(m.word_count((n - 1) as nat) == fib(n + 1));
                assert(m.word_count((n - 2) as nat) == fib(n));
                assert(fib(n + 2) == fib(n) + fib(n + 1));
            }
        }
        m
    }

    /// Count of words of length n (F(n+2) for a monoid built by `new`).
    pub fn count(&self, n: usize) -> (c: usize)
        ensures
            c == self.word_count(n as nat),
    {
        if n < self.words_by_length.len() {
            self.words_by_length[n].len()
        } else {
            0
        }
    }

    /// Verify Fibonacci growth.
    pub fn verify_fibonacci_growth(&self) -> (ok: bool)
        ensures
            ok == self.grows_like_fibonacci(),
    {
        let mut n: usize = 2;
        while n < self.words_by_length.len()
            invariant
                2 <= n,
                forall|k: nat| 2 <= k < n && k < self.words_by_length@.len() ==>
                    #[trigger] self.word_count(k) == self.word_count((k - 1) as nat)
                        + self.word_count((k - 2) as nat),
            decreases self.words_by_length@.len() - n,
        {
            let c = self.count(n);
            let c1 = self.count(n - 1);
            let c2 = self.count(n - 2);
            if c < c1 || c - c1 != c2 {
                assert(self.word_count(n as nat) != self.word_count((n - 1) as nat) + self.word_count(
                    (n - 2) as nat,
                ));
                return false;
            }
            n = n + 1;
        }
        true
    }
}

/// F(0) - F(1) + F(2) - ... ± F(n).
pub open spec fn alternating_fib_sum(n: nat) -> int
    decreases n,
{
    if n == 0 {
        0
    } else {
        alternating_fib_sum((n - 1) as nat) + if n % 2 == 0 {
            fib(n) as int
        } else {
            -(fib(n) as int)
        }
    }
}

/// Closed form of the alternating sum: for n >= 1 it is (-1)^n F(n - 1) - 1.
pub proof fn lemma_alternating_fib_sum(n: nat)
    requires
        n >= 1,
    ensures
        alternating_fib_sum(n) == (if n % 2 == 0 {
            fib((n - 1) as nat) as int
        } else {
            -(fib((n - 1) as nat) as int)
        }) - 1,
    decreases n,
{
    if n == 1 {
        assert(alternating_fib_sum(1) == alternating_fib_sum(0) - fib(1));
    } else {
        lemma_alternating_fib_sum((n - 1) as nat);
        assert(fib(n) == fib((n - 2) as nat) + fib((n - 1) as nat));
        if n % 2 == 0 {
            assert((n - 1) as nat % 2 == 1);
        } else {
            assert((n - 1) as nat % 2 == 0);
        }
    }
}

/// Categorified Fibonacci: the Fibonacci numbers as dimensions of
/// Hom-spaces in a category.
#[derive(Debug, Clone)]
pub struct CategorifiedFibonacci {
    pub fib: FibonacciSequence,
}

impl CategorifiedFibonacci {
    /// The Euler characteristic of the Fibonacci complex:
    /// the alternating sum F(0) - F(1) + F(2) - ... ± F(n).
    pub fn euler_characteristic(&self, n: usize) -> (chi: i64)
        requires
            fib(n as nat) <= i64::MAX,
        ensures
            chi == alternating_fib_sum(n as nat),
    {
        proof {
            lemma_fib_u64_index_bound(n as nat);
        }
        let mut chi: i64 = 0;
        let mut i: usize = 1;
        while i <= n
            invariant
                1 <= i <= n + 1,
                n < 131,
                fib(n as nat) <= i64::MAX,
                chi == alternating_fib_sum((i - 1) as nat),
            decreases n + 1 - i,
        {
            proof {
                lemma_fib_monotone(i as nat, n as nat);
                lemma_fib_monotone((i - 1) as nat, n as nat);
                lemma_alternating_fib_sum(i as nat);
            }
            let f = self.fib.get(i) as i64;
            if i % 2 == 0 {
                chi = chi + f;
            } else {
                chi = chi - f;
            }
            i = i + 1;
        }
        chi
    }
}

} // verus!
