//! Index enumerations (combinations, combinations with replacement,
//! orderings, pairs) taken from itertools, and the counts they have.
use itertools::Itertools;
use vstd::prelude::*;

verus! {

/// Binomial coefficient by Pascal's rule; 0 where `k > n`.
pub open spec fn binomial(n: int, k: int) -> int
    decreases n,
{
    if k <= 0 {
        1
    } else if n <= 0 {
        0
    } else {
        binomial(n - 1, k - 1) + binomial(n - 1, k)
    }
}

/// `x` put in front of each sequence of `ss`.
pub open spec fn prepend_all(x: int, ss: Seq<Seq<int>>) -> Seq<Seq<int>> {
    ss.map_values(|s: Seq<int>| seq![x] + s)
}

/// The strictly increasing `k`-element sequences over `lo..n`, in lexicographic order.
pub open spec fn combs_from(lo: int, n: int, k: int) -> Seq<Seq<int>>
    decreases n - lo,
{
    if k <= 0 {
        seq![Seq::empty()]
    } else if lo >= n {
        Seq::empty()
    } else {
        prepend_all(lo, combs_from(lo + 1, n, k - 1)) + combs_from(lo + 1, n, k)
    }
}

/// The nondecreasing `k`-element sequences over `lo..n` (multisets), in lexicographic order.
pub open spec fn multisets_from(lo: int, n: int, k: int) -> Seq<Seq<int>>
    decreases n - lo + k,
{
    if k <= 0 {
        seq![Seq::empty()]
    } else if lo >= n {
        Seq::empty()
    } else {
        prepend_all(lo, multisets_from(lo, n, k - 1)) + multisets_from(lo + 1, n, k)
    }
}

/// The orderings of all elements of `avail`, in lexicographic order of positions.
pub open spec fn orderings(avail: Seq<int>) -> Seq<Seq<int>>
    decreases avail.len(), avail.len() + 1,
{
    if avail.len() == 0 {
        seq![Seq::empty()]
    } else {
        orderings_from(avail, 0)
    }
}

/// The orderings of `avail` whose first element is at position `i` or later.
pub open spec fn orderings_from(avail: Seq<int>, i: int) -> Seq<Seq<int>>
    decreases avail.len(), avail.len() - i,
{
    if i < 0 || i >= avail.len() {
        Seq::empty()
    } else {
        prepend_all(avail[i], orderings(avail.remove(i))) + orderings_from(avail, i + 1)
    }
}

/// `0, 1, ..., n - 1`.
pub open spec fn range_seq(n: int) -> Seq<int> {
    Seq::new(n as nat, |i: int| i)
}

/// Index vectors as integer sequences.
pub open spec fn index_seqs(v: Seq<Vec<usize>>) -> Seq<Seq<int>> {
    v.map_values(|x: Vec<usize>| x@.map_values(|i: usize| i as int))
}

/// Relies on `Itertools::combinations` over `0..n`: the `k`-element
/// combinations of positions, each once, in lexicographic order.
#[verifier::external_body]
pub(crate) fn index_combinations(n: usize, k: usize) -> (r: Vec<Vec<usize>>)
    ensures
        index_seqs(r@) == combs_from(0, n as int, k as int),
{
    (0..n).combinations(k).collect()
}

/// Relies on `Itertools::combinations_with_replacement` over `0..n`: the
/// `k`-element multisets of positions as nondecreasing sequences, each once,
/// in lexicographic order.
#[verifier::external_body]
pub(crate) fn index_multisets(n: usize, k: usize) -> (r: Vec<Vec<usize>>)
    ensures
        index_seqs(r@) == multisets_from(0, n as int, k as int),
{
    (0..n).combinations_with_replacement(k).collect()
}

/// Relies on `Itertools::permutations` over `0..n` with length `n`: every
/// ordering of the positions, each once, in lexicographic order.
#[verifier::external_body]
pub(crate) fn index_orderings(n: usize) -> (r: Vec<Vec<usize>>)
    ensures
        index_seqs(r@) == orderings(range_seq(n as int)),
{
    (0..n).permutations(n).collect()
}

/// Relies on `Itertools::cartesian_product` of `0..a` with `0..b`: all pairs,
/// the first component varying slowest.
#[verifier::external_body]
pub(crate) fn index_pairs(a: usize, b: usize) -> (r: Vec<(usize, usize)>)
    ensures
        r@.len() == a * b,
        forall|t: int|
            0 <= t < r@.len() ==> (#[trigger] r@[t]).0 as int == t / (b as int) && r@[t].1 as int
                == t % (b as int),
{
    (0..a).cartesian_product(0..b).collect()
}

pub proof fn lemma_binomial_above(m: int, k: int)
    requires
        0 <= m < k,
    ensures
        binomial(m, k) == 0,
    decreases m,
{
    if m > 0 {
        lemma_binomial_above(m - 1, k - 1);
        lemma_binomial_above(m - 1, k);
    }
}

/// There are `binomial(n - lo, k)` combinations of size `k` over `lo..n`.
pub proof fn lemma_combs_len(lo: int, n: int, k: int)
    requires
        0 <= lo <= n,
        0 <= k,
    ensures
        combs_from(lo, n, k).len() == binomial(n - lo, k),
    decreases n - lo,
{
    if k > 0 && lo < n {
        lemma_combs_len(lo + 1, n, k - 1);
        lemma_combs_len(lo + 1, n, k);
    }
}

/// There are `binomial(n - lo + k - 1, k)` multisets of size `k` over `lo..n`.
pub proof fn lemma_multisets_len(lo: int, n: int, k: int)
    requires
        0 <= lo <= n,
        0 <= k,
    ensures
        multisets_from(lo, n, k).len() == binomial(n - lo + k - 1, k),
    decreases n - lo + k,
{
    if k > 0 {
        if lo >= n {
            lemma_binomial_above(k - 1, k);
        } else {
            lemma_multisets_len(lo, n, k - 1);
            lemma_multisets_len(lo + 1, n, k);
        }
    }
}

/// Closed form of the number of `k`-multisets over four bins.
pub proof fn lemma_binomial_four_bins(k: int)
    requires
        0 <= k,
    ensures
        6 * binomial(k + 3, k) == (k + 1) * (k + 2) * (k + 3),
        binomial(k + 3, k) >= 1,
    decreases k,
{
    lemma_binomial_three_bins(k);
    if k > 0 {
        lemma_binomial_four_bins(k - 1);
        assert(binomial(k + 3, k) == binomial(k + 2, k - 1) + binomial(k + 2, k));
        assert(6 * (binomial(k + 2, k - 1) + binomial(k + 2, k)) == (k + 1) * (k + 2) * (k + 3))
            by (nonlinear_arith)
            requires
                6 * binomial(k + 2, k - 1) == k * (k + 1) * (k + 2),
                2 * binomial(k + 2, k) == (k + 1) * (k + 2),
        ;
    }
}

proof fn lemma_binomial_three_bins(k: int)
    requires
        0 <= k,
    ensures
        2 * binomial(k + 2, k) == (k + 1) * (k + 2),
    decreases k,
{
    lemma_binomial_two_bins(k);
    if k > 0 {
        lemma_binomial_three_bins(k - 1);
        assert(binomial(k + 2, k) == binomial(k + 1, k - 1) + binomial(k + 1, k));
        assert(2 * (binomial(k + 1, k - 1) + binomial(k + 1, k)) == (k + 1) * (k + 2))
            by (nonlinear_arith)
            requires
                2 * binomial(k + 1, k - 1) == k * (k + 1),
                binomial(k + 1, k) == k + 1,
        ;
    } else {
        assert(binomial(2, 0) == 1);
    }
}

proof fn lemma_binomial_two_bins(k: int)
    requires
        0 <= k,
    ensures
        binomial(k + 1, k) == k + 1,
        binomial(k, k) == 1,
    decreases k,
{
    if k > 0 {
        lemma_binomial_two_bins(k - 1);
        lemma_binomial_above(k - 1, k);
        assert(binomial(k, k) == binomial(k - 1, k - 1) + binomial(k - 1, k));
        assert(binomial(k + 1, k) == binomial(k, k - 1) + binomial(k, k));
    }
}

} // verus!

verus! {

/// Each ordering of `avail` has `avail`'s length and takes its elements from `avail`.
pub proof fn lemma_orderings_shape(avail: Seq<int>)
    ensures
        forall|t: int|
            0 <= t < orderings(avail).len() ==> (#[trigger] orderings(avail)[t]).len()
                == avail.len() && forall|m: int|
                0 <= m < avail.len() ==> avail.contains(#[trigger] orderings(avail)[t][m]),
    decreases avail.len(), avail.len() + 1,
{
    if avail.len() > 0 {
        lemma_orderings_from_shape(avail, 0);
        assert(orderings(avail) == orderings_from(avail, 0));
    } else {
        assert(orderings(avail) == seq![Seq::<int>::empty()]);
        assert(orderings(avail)[0].len() == 0);
    }
}

proof fn lemma_orderings_from_shape(avail: Seq<int>, i: int)
    requires
        avail.len() > 0,
    ensures
        forall|t: int|
            0 <= t < orderings_from(avail, i).len() ==> (#[trigger] orderings_from(avail, i)[t]).len()
                == avail.len() && forall|m: int|
                0 <= m < avail.len() ==> avail.contains(
                    #[trigger] orderings_from(avail, i)[t][m],
                ),
    decreases avail.len(), avail.len() - i,
{
    if 0 <= i < avail.len() {
        let rest = avail.remove(i);
        lemma_orderings_shape(rest);
        lemma_orderings_from_shape(avail, i + 1);
        let head = prepend_all(avail[i], orderings(rest));
        let tail = orderings_from(avail, i + 1);
        assert(orderings_from(avail, i) == head + tail);
        assert forall|t: int| 0 <= t < orderings_from(avail, i).len() implies (
        #[trigger] orderings_from(avail, i)[t]).len() == avail.len() && forall|m: int|
            0 <= m < avail.len() ==> avail.contains(
                #[trigger] orderings_from(avail, i)[t][m],
            ) by {
            if t < head.len() {
                let s = orderings(rest)[t];
                assert(orderings_from(avail, i)[t] == seq![avail[i]] + s);
                assert forall|m: int| 0 <= m < avail.len() implies avail.contains(
                    #[trigger] orderings_from(avail, i)[t][m],
                ) by {
                    if m == 0 {
                        assert(avail[i] == avail[i]);
                    } else {
                        assert(rest.contains(s[m - 1]));
                        let q = choose|q: int| 0 <= q < rest.len() && rest[q] == s[m - 1];
                        if q < i {
                            assert(avail[q] == rest[q]);
                        } else {
                            assert(avail[q + 1] == rest[q]);
                        }
                    }
                }
            } else {
                assert(orderings_from(avail, i)[t] == tail[t - head.len()]);
            }
        }
    }
}

} // verus!

verus! {

/// Each combination of size `k` over `lo..n` has `k` elements, all in `lo..n`.
pub proof fn lemma_combs_shape(lo: int, n: int, k: int)
    requires
        0 <= k,
    ensures
        forall|t: int|
            0 <= t < combs_from(lo, n, k).len() ==> (#[trigger] combs_from(lo, n, k)[t]).len()
                == k && forall|m: int|
                0 <= m < k ==> lo <= #[trigger] combs_from(lo, n, k)[t][m] < n,
    decreases n - lo,
{
    if k == 0 {
        assert(combs_from(lo, n, k) == seq![Seq::<int>::empty()]);
        assert(combs_from(lo, n, k)[0].len() == 0);
    } else if lo < n {
        lemma_combs_shape(lo + 1, n, k - 1);
        lemma_combs_shape(lo + 1, n, k);
        let head = prepend_all(lo, combs_from(lo + 1, n, k - 1));
        let tail = combs_from(lo + 1, n, k);
        assert(combs_from(lo, n, k) == head + tail);
        assert forall|t: int| 0 <= t < combs_from(lo, n, k).len() implies (
        #[trigger] combs_from(lo, n, k)[t]).len() == k && forall|m: int|
            0 <= m < k ==> lo <= #[trigger] combs_from(lo, n, k)[t][m] < n by {
            if t < head.len() {
                assert(combs_from(lo, n, k)[t] == seq![lo] + combs_from(lo + 1, n, k - 1)[t]);
            } else {
                assert(combs_from(lo, n, k)[t] == tail[t - head.len()]);
            }
        }
    }
}

/// Each multiset of size `k` over `lo..n` has `k` elements, all in `lo..n`.
pub proof fn lemma_multisets_shape(lo: int, n: int, k: int)
    requires
        0 <= k,
    ensures
        forall|t: int|
            0 <= t < multisets_from(lo, n, k).len() ==> (#[trigger] multisets_from(
                lo,
                n,
                k,
            )[t]).len() == k && forall|m: int|
                0 <= m < k ==> lo <= #[trigger] multisets_from(lo, n, k)[t][m] < n,
    decreases n - lo + k,
{
    if k == 0 {
        assert(multisets_from(lo, n, k) == seq![Seq::<int>::empty()]);
        assert(multisets_from(lo, n, k)[0].len() == 0);
    } else if lo < n {
        lemma_multisets_shape(lo, n, k - 1);
        lemma_multisets_shape(lo + 1, n, k);
        let head = prepend_all(lo, multisets_from(lo, n, k - 1));
        let tail = multisets_from(lo + 1, n, k);
        assert(multisets_from(lo, n, k) == head + tail);
        assert forall|t: int| 0 <= t < multisets_from(lo, n, k).len() implies (
        #[trigger] multisets_from(lo, n, k)[t]).len() == k && forall|m: int|
            0 <= m < k ==> lo <= #[trigger] multisets_from(lo, n, k)[t][m] < n by {
            if t < head.len() {
                assert(multisets_from(lo, n, k)[t] == seq![lo] + multisets_from(lo, n, k - 1)[t]);
            } else {
                assert(multisets_from(lo, n, k)[t] == tail[t - head.len()]);
            }
        }
    }
}

} // verus!

verus! {

/// A strictly increasing sequence.
pub open spec fn increasing(s: Seq<int>) -> bool {
    forall|a: int, b: int| 0 <= a < b < s.len() ==> s[a] < s[b]
}

/// The combinations over `lo..n` are strictly increasing and pairwise different.
pub proof fn lemma_combs_distinct(lo: int, n: int, k: int)
    requires
        0 <= k,
    ensures
        forall|t: int| 0 <= t < combs_from(lo, n, k).len() ==> increasing(#[trigger] combs_from(lo, n, k)[t]),
        forall|t: int, u: int|
            0 <= t < u < combs_from(lo, n, k).len() ==> #[trigger] combs_from(lo, n, k)[t]
                != #[trigger] combs_from(lo, n, k)[u],
    decreases n - lo,
{
    lemma_combs_shape(lo, n, k);
    if k == 0 {
        assert(combs_from(lo, n, k) == seq![Seq::<int>::empty()]);
    } else if lo < n {
        lemma_combs_distinct(lo + 1, n, k - 1);
        lemma_combs_distinct(lo + 1, n, k);
        lemma_combs_shape(lo + 1, n, k - 1);
        lemma_combs_shape(lo + 1, n, k);
        let head = prepend_all(lo, combs_from(lo + 1, n, k - 1));
        let tail = combs_from(lo + 1, n, k);
        let all = combs_from(lo, n, k);
        assert(all == head + tail);
        assert forall|t: int| 0 <= t < all.len() implies increasing(#[trigger] all[t]) by {
            if t < head.len() {
                let c = combs_from(lo + 1, n, k - 1)[t];
                assert(all[t] == seq![lo] + c);
                assert forall|a: int, b: int| 0 <= a < b < all[t].len() implies all[t][a]
                    < all[t][b] by {
                    if a == 0 {
                        assert(lo + 1 <= c[b - 1]);
                    } else {
                        assert(c[a - 1] < c[b - 1]);
                    }
                }
            } else {
                assert(all[t] == tail[t - head.len()]);
            }
        }
        assert forall|t: int, u: int| 0 <= t < u < all.len() implies #[trigger] all[t]
            != #[trigger] all[u] by {
            if u < head.len() {
                let c = combs_from(lo + 1, n, k - 1)[t];
                let d = combs_from(lo + 1, n, k - 1)[u];
                assert(all[t] == seq![lo] + c);
                assert(all[u] == seq![lo] + d);
                if all[t] == all[u] {
                    assert(c =~= all[t].drop_first());
                    assert(d =~= all[u].drop_first());
                }
            } else if t >= head.len() {
                assert(all[t] == tail[t - head.len()]);
                assert(all[u] == tail[u - head.len()]);
            } else {
                assert(all[t] == seq![lo] + combs_from(lo + 1, n, k - 1)[t]);
                assert(all[u] == tail[u - head.len()]);
                assert(all[u][0] >= lo + 1);
                assert(all[t][0] == lo);
            }
        }
    }
}

/// Two strictly increasing sequences with the same elements are equal.
pub proof fn lemma_increasing_same_elements(a: Seq<int>, b: Seq<int>)
    requires
        increasing(a),
        increasing(b),
        forall|x: int| a.contains(x) <==> b.contains(x),
    ensures
        a == b,
    decreases a.len(),
{
    if a.len() == 0 {
        if b.len() > 0 {
            assert(b.contains(b[0]));
        }
        assert(a =~= b);
    } else {
        assert(a.contains(a[0]));
        assert(b.contains(a[0]));
        assert(b.len() > 0);
        assert(b.contains(b[0]));
        assert(a.contains(b[0]));
        let p = choose|p: int| 0 <= p < b.len() && b[p] == a[0];
        let q = choose|q: int| 0 <= q < a.len() && a[q] == b[0];
        assert(a[0] == b[0]) by {
            if p > 0 {
                assert(b[0] < b[p]);
                assert(a[0] <= a[q]);
            }
        }
        let ra = a.drop_first();
        let rb = b.drop_first();
        assert forall|x: int| ra.contains(x) <==> rb.contains(x) by {
            if ra.contains(x) {
                let i = choose|i: int| 0 <= i < ra.len() && ra[i] == x;
                assert(a[i + 1] == x && a[0] < a[i + 1]);
                assert(a.contains(x));
                let j = choose|j: int| 0 <= j < b.len() && b[j] == x;
                assert(j != 0);
                assert(rb[j - 1] == x);
            }
            if rb.contains(x) {
                let i = choose|i: int| 0 <= i < rb.len() && rb[i] == x;
                assert(b[i + 1] == x && b[0] < b[i + 1]);
                assert(b.contains(x));
                let j = choose|j: int| 0 <= j < a.len() && a[j] == x;
                assert(j != 0);
                assert(ra[j - 1] == x);
            }
        }
        lemma_increasing_same_elements(ra, rb);
        assert(a =~= seq![a[0]] + ra);
        assert(b =~= seq![b[0]] + rb);
    }
}

} // verus!
