//! Weighted sampling without replacement: the probabilities of all sets of
//! `k` draws, each summed over its orderings, add up to 1.
use vstd::prelude::*;

use crate::combinatorics::{
    combs_from, lemma_orderings_shape, orderings, orderings_from, prepend_all, range_seq,
};
use crate::laws::{lemma_draw_nonneg, sum_upto, total, value_of};
use crate::outcomes::pool_without;
use crate::relic::{arrange, draw_frac, initial_lines, initial_terms, pool_weight};
use crate::stat::RelicStat;

verus! {

/// `h(i) + h(i + 1) + ... + h(m - 1)`.
pub open spec fn sum_range(h: spec_fn(int) -> real, i: int, m: int) -> real
    decreases m - i,
{
    if i >= m {
        0real
    } else {
        h(i) + sum_range(h, i + 1, m)
    }
}

/// `g` added over the sequences of `xs`.
pub open spec fn sum_seqs(xs: Seq<Seq<int>>, g: spec_fn(Seq<int>) -> real) -> real {
    sum_range(|i: int| g(xs[i]), 0, xs.len() as int)
}

pub proof fn lemma_sum_range_congruent(f: spec_fn(int) -> real, g: spec_fn(int) -> real, i: int, m: int)
    requires
        forall|j: int| i <= j < m ==> #[trigger] f(j) == g(j),
    ensures
        sum_range(f, i, m) == sum_range(g, i, m),
    decreases m - i,
{
    if i < m {
        lemma_sum_range_congruent(f, g, i + 1, m);
    }
}

/// Shifting the index range by `d`.
pub proof fn lemma_sum_range_shift(f: spec_fn(int) -> real, d: int, i: int, m: int)
    ensures
        sum_range(f, i + d, m + d) == sum_range(|j: int| f(j + d), i, m),
    decreases m - i,
{
    if i < m {
        lemma_sum_range_shift(f, d, i + 1, m);
    }
}

pub proof fn lemma_sum_range_add(f: spec_fn(int) -> real, g: spec_fn(int) -> real, i: int, m: int)
    ensures
        sum_range(|j: int| f(j) + g(j), i, m) == sum_range(f, i, m) + sum_range(g, i, m),
    decreases m - i,
{
    if i < m {
        lemma_sum_range_add(f, g, i + 1, m);
    }
}

pub proof fn lemma_sum_range_scale(f: spec_fn(int) -> real, c: real, i: int, m: int)
    ensures
        sum_range(|j: int| c * f(j), i, m) == c * sum_range(f, i, m),
    decreases m - i,
{
    if i < m {
        lemma_sum_range_scale(f, c, i + 1, m);
        assert(c * f(i) + c * sum_range(f, i + 1, m) == c * (f(i) + sum_range(f, i + 1, m)))
            by (nonlinear_arith);
    } else {
        assert(c * 0real == 0real) by (nonlinear_arith);
    }
}

pub proof fn lemma_sum_range_split(f: spec_fn(int) -> real, i: int, k: int, m: int)
    requires
        i <= k <= m,
    ensures
        sum_range(f, i, m) == sum_range(f, i, k) + sum_range(f, k, m),
    decreases k - i,
{
    if i < k {
        lemma_sum_range_split(f, i + 1, k, m);
    }
}

pub proof fn lemma_sum_seqs_congruent(xs: Seq<Seq<int>>, f: spec_fn(Seq<int>) -> real, g: spec_fn(Seq<int>) -> real)
    requires
        forall|i: int| 0 <= i < xs.len() ==> #[trigger] f(xs[i]) == g(xs[i]),
    ensures
        sum_seqs(xs, f) == sum_seqs(xs, g),
{
    let a = |i: int| f(xs[i]);
    let b = |i: int| g(xs[i]);
    assert forall|j: int| 0 <= j < xs.len() implies #[trigger] a(j) == b(j) by {
        assert(f(xs[j]) == g(xs[j]));
    }
    lemma_sum_range_congruent(a, b, 0, xs.len() as int);
}

pub proof fn lemma_sum_seqs_concat(xs: Seq<Seq<int>>, ys: Seq<Seq<int>>, g: spec_fn(Seq<int>) -> real)
    ensures
        sum_seqs(xs + ys, g) == sum_seqs(xs, g) + sum_seqs(ys, g),
{
    let n = xs.len() as int;
    let m = ys.len() as int;
    let f = |i: int| g((xs + ys)[i]);
    lemma_sum_range_split(f, 0, n, n + m);
    lemma_sum_range_congruent(f, |i: int| g(xs[i]), 0, n);
    lemma_sum_range_shift(f, n, 0, m);
    let shifted = |j: int| f(j + n);
    assert forall|j: int| 0 <= j < m implies #[trigger] shifted(j) == g(ys[j]) by {
        assert((xs + ys)[j + n] == ys[j]);
    }
    lemma_sum_range_congruent(shifted, |i: int| g(ys[i]), 0, m);
}

pub proof fn lemma_sum_seqs_prepend(x: int, xs: Seq<Seq<int>>, g: spec_fn(Seq<int>) -> real)
    ensures
        sum_seqs(prepend_all(x, xs), g) == sum_seqs(xs, |s: Seq<int>| g(seq![x] + s)),
{
    let p = prepend_all(x, xs);
    let a = |i: int| g(p[i]);
    let b = |i: int| (|s: Seq<int>| g(seq![x] + s))(xs[i]);
    assert forall|j: int| 0 <= j < xs.len() implies #[trigger] a(j) == b(j) by {
        assert(p[j] == seq![x] + xs[j]);
    }
    lemma_sum_range_congruent(a, b, 0, xs.len() as int);
}

pub proof fn lemma_sum_seqs_add(xs: Seq<Seq<int>>, f: spec_fn(Seq<int>) -> real, g: spec_fn(Seq<int>) -> real)
    ensures
        sum_seqs(xs, |s: Seq<int>| f(s) + g(s)) == sum_seqs(xs, f) + sum_seqs(xs, g),
{
    let n = xs.len() as int;
    let a = |i: int| f(xs[i]);
    let b = |i: int| g(xs[i]);
    lemma_sum_range_add(a, b, 0, n);
    lemma_sum_range_congruent(
        |i: int| (|s: Seq<int>| f(s) + g(s))(xs[i]),
        |j: int| a(j) + b(j),
        0,
        n,
    );
}

pub proof fn lemma_sum_seqs_scale(xs: Seq<Seq<int>>, f: spec_fn(Seq<int>) -> real, c: real)
    ensures
        sum_seqs(xs, |s: Seq<int>| c * f(s)) == c * sum_seqs(xs, f),
{
    let n = xs.len() as int;
    let a = |i: int| f(xs[i]);
    lemma_sum_range_scale(a, c, 0, n);
    lemma_sum_range_congruent(
        |i: int| (|s: Seq<int>| c * f(s))(xs[i]),
        |j: int| c * a(j),
        0,
        n,
    );
}

/// The `k`-element subsequences of `avail`, in lexicographic order of positions.
pub open spec fn combs_of(avail: Seq<int>, k: int) -> Seq<Seq<int>>
    decreases avail.len(),
{
    if k <= 0 {
        seq![Seq::empty()]
    } else if avail.len() == 0 {
        Seq::empty()
    } else {
        prepend_all(avail[0], combs_of(avail.drop_first(), k - 1)) + combs_of(
            avail.drop_first(),
            k,
        )
    }
}

/// `lo, lo + 1, ..., n - 1`.
pub open spec fn range_from(lo: int, n: int) -> Seq<int> {
    Seq::new((n - lo) as nat, |i: int| lo + i)
}

pub proof fn lemma_combs_from_is_combs_of(lo: int, n: int, k: int)
    requires
        lo <= n,
    ensures
        combs_from(lo, n, k) == combs_of(range_from(lo, n), k),
    decreases n - lo,
{
    if k > 0 && lo < n {
        lemma_combs_from_is_combs_of(lo + 1, n, k - 1);
        lemma_combs_from_is_combs_of(lo + 1, n, k);
        assert(range_from(lo, n).drop_first() =~= range_from(lo + 1, n));
    } else if k > 0 {
        assert(range_from(lo, n).len() == 0);
    }
}

/// Each `k`-element subsequence has `k` elements.
pub proof fn lemma_combs_of_len(avail: Seq<int>, k: int)
    requires
        0 <= k,
    ensures
        forall|t: int|
            0 <= t < combs_of(avail, k).len() ==> (#[trigger] combs_of(avail, k)[t]).len() == k,
    decreases avail.len(),
{
    if k == 0 {
        assert(combs_of(avail, k) == seq![Seq::<int>::empty()]);
        assert(combs_of(avail, k)[0].len() == 0);
    } else if avail.len() > 0 {
        let rest = avail.drop_first();
        lemma_combs_of_len(rest, k - 1);
        lemma_combs_of_len(rest, k);
        let head = prepend_all(avail[0], combs_of(rest, k - 1));
        assert forall|t: int| 0 <= t < combs_of(avail, k).len() implies (
        #[trigger] combs_of(avail, k)[t]).len() == k by {
            if t < head.len() {
                assert(combs_of(avail, k)[t] == seq![avail[0]] + combs_of(rest, k - 1)[t]);
            } else {
                assert(combs_of(avail, k)[t] == combs_of(rest, k)[t - head.len()]);
            }
        }
    }
}

/// `F(c[j], c without c[j])` added over the positions `j` of `c`.
pub open spec fn split_sum(f: spec_fn(int, Seq<int>) -> real, c: Seq<int>) -> real {
    sum_range(|j: int| f(c[j], c.remove(j)), 0, c.len() as int)
}

/// `F(avail[i], d)` added over the `(k - 1)`-element subsequences `d` of `avail` without `avail[i]`, then over `i`.
pub open spec fn pick_sum(f: spec_fn(int, Seq<int>) -> real, avail: Seq<int>, k: int) -> real {
    sum_range(
        |i: int| sum_seqs(combs_of(avail.remove(i), k - 1), |d: Seq<int>| f(avail[i], d)),
        0,
        avail.len() as int,
    )
}

/// Choosing a `k`-subset and then one of its elements is choosing an element
/// and then a `(k - 1)`-subset of the others.
pub proof fn lemma_swap(avail: Seq<int>, k: int, f: spec_fn(int, Seq<int>) -> real)
    requires
        k >= 1,
    ensures
        sum_seqs(combs_of(avail, k), |c: Seq<int>| split_sum(f, c)) == pick_sum(f, avail, k),
    decreases avail.len(),
{
    if avail.len() == 0 {
        assert(combs_of(avail, k) == Seq::<Seq<int>>::empty());
    } else {
        let a = avail[0];
        let rest = avail.drop_first();
        let fa = |x: int, s: Seq<int>| f(x, seq![a] + s);
        let g = |c: Seq<int>| split_sum(f, c);
        // left: the subsets with `a`, then those without
        lemma_sum_seqs_concat(prepend_all(a, combs_of(rest, k - 1)), combs_of(rest, k), g);
        lemma_sum_seqs_prepend(a, combs_of(rest, k - 1), g);
        let with_a = |c: Seq<int>| g(seq![a] + c);
        let first = |c: Seq<int>| f(a, c);
        let others = |c: Seq<int>| split_sum(fa, c);
        assert forall|t: int| 0 <= t < combs_of(rest, k - 1).len() implies #[trigger] with_a(
            combs_of(rest, k - 1)[t],
        ) == first(combs_of(rest, k - 1)[t]) + others(combs_of(rest, k - 1)[t]) by {
            let c = combs_of(rest, k - 1)[t];
            lemma_split_sum_prepend(f, a, c);
        }
        lemma_sum_seqs_congruent(
            combs_of(rest, k - 1),
            with_a,
            |c: Seq<int>| first(c) + others(c),
        );
        lemma_sum_seqs_add(combs_of(rest, k - 1), first, others);
        // right: `a` picked first, then the others
        let pick = |i: int| sum_seqs(combs_of(avail.remove(i), k - 1), |d: Seq<int>| f(avail[i], d));
        lemma_sum_range_split(pick, 0, 1, avail.len() as int);
        assert(avail.remove(0) =~= rest);
        assert(sum_range(pick, 0, 1) == sum_seqs(combs_of(rest, k - 1), first)) by {
            lemma_sum_seqs_congruent(
                combs_of(rest, k - 1),
                |d: Seq<int>| f(avail[0], d),
                first,
            );
        }
        lemma_sum_range_shift(pick, 1, 0, rest.len() as int);
        let pick_rest = |i: int| pick(i + 1);
        if k == 1 {
            lemma_swap(rest, 1, f);
            assert(combs_of(rest, 0) == seq![Seq::<int>::empty()]);
            reveal_with_fuel(sum_range, 2);
            assert(sum_seqs(combs_of(rest, 0), others) == others(Seq::<int>::empty()));
            assert(others(Seq::<int>::empty()) == 0real);
            let rest_pick = |i: int| sum_seqs(combs_of(rest.remove(i), 0), |d: Seq<int>| f(rest[i], d));
            assert forall|i: int| 0 <= i < rest.len() implies #[trigger] pick_rest(i) == rest_pick(
                i,
            ) by {
                assert(combs_of(avail.remove(i + 1), 0) == combs_of(rest.remove(i), 0));
                assert(avail[i + 1] == rest[i]);
                lemma_sum_seqs_congruent(
                    combs_of(rest.remove(i), 0),
                    |d: Seq<int>| f(avail[i + 1], d),
                    |d: Seq<int>| f(rest[i], d),
                );
            }
            lemma_sum_range_congruent(pick_rest, rest_pick, 0, rest.len() as int);
        } else {
            lemma_swap(rest, k - 1, fa);
            lemma_swap(rest, k, f);
            let pa = |i: int| sum_seqs(combs_of(rest.remove(i), k - 2), |d: Seq<int>| fa(rest[i], d));
            let pb = |i: int| sum_seqs(combs_of(rest.remove(i), k - 1), |d: Seq<int>| f(rest[i], d));
            assert forall|i: int| 0 <= i < rest.len() implies #[trigger] pick_rest(i) == pa(i) + pb(
                i,
            ) by {
                let r = rest.remove(i);
                assert(avail.remove(i + 1) =~= seq![a] + r);
                assert((seq![a] + r).drop_first() =~= r);
                assert((seq![a] + r)[0] == a);
                assert(avail[i + 1] == rest[i]);
                let x = rest[i];
                let h = |d: Seq<int>| f(x, d);
                lemma_sum_seqs_concat(prepend_all(a, combs_of(r, k - 2)), combs_of(r, k - 1), h);
                lemma_sum_seqs_prepend(a, combs_of(r, k - 2), h);
                lemma_sum_seqs_congruent(
                    combs_of(r, k - 2),
                    |s: Seq<int>| h(seq![a] + s),
                    |d: Seq<int>| fa(x, d),
                );
                lemma_sum_seqs_congruent(
                    combs_of(avail.remove(i + 1), k - 1),
                    |d: Seq<int>| f(avail[i + 1], d),
                    h,
                );
            }
            lemma_sum_range_congruent(pick_rest, |i: int| pa(i) + pb(i), 0, rest.len() as int);
            lemma_sum_range_add(pa, pb, 0, rest.len() as int);
        }
    }
}

/// Splitting `a` followed by `c`: the term for `a`, then those for the elements of `c`.
proof fn lemma_split_sum_prepend(f: spec_fn(int, Seq<int>) -> real, a: int, c: Seq<int>)
    ensures
        split_sum(f, seq![a] + c) == f(a, c) + split_sum(
            |x: int, s: Seq<int>| f(x, seq![a] + s),
            c,
        ),
{
    let ac = seq![a] + c;
    let h = |j: int| f(ac[j], ac.remove(j));
    let n = c.len() as int;
    assert(ac.remove(0) =~= c);
    lemma_sum_range_shift(h, 1, 0, n);
    let fa = |x: int, s: Seq<int>| f(x, seq![a] + s);
    let g = |j: int| fa(c[j], c.remove(j));
    let shifted = |j: int| h(j + 1);
    assert forall|j: int| 0 <= j < n implies #[trigger] shifted(j) == g(j) by {
        assert(ac[j + 1] == c[j]);
        assert(ac.remove(j + 1) =~= seq![a] + c.remove(j));
    }
    lemma_sum_range_congruent(shifted, g, 0, n);
}

/// Probability, as a real number, of drawing the pool positions of `s` one
/// after another from a pool of weight `remaining`.
pub open spec fn draw_value(pool: Seq<RelicStat>, s: Seq<int>, remaining: int) -> real {
    value_of(draw_frac(s.map_values(|j: int| pool[j]), remaining))
}

/// The first draw, then the rest from what is left.
pub proof fn lemma_draw_step(pool: Seq<RelicStat>, s: Seq<int>, remaining: int)
    requires
        s.len() >= 1,
        remaining >= 10 * s.len(),
    ensures
        draw_value(pool, s, remaining) == (pool[s[0]].weight() as real / remaining as real)
            * draw_value(pool, s.drop_first(), remaining - pool[s[0]].weight()),
{
    let stats = s.map_values(|j: int| pool[j]);
    let w = pool[s[0]].weight();
    assert(stats.drop_first() =~= s.drop_first().map_values(|j: int| pool[j]));
    let r = draw_frac(stats.drop_first(), remaining - w);
    lemma_draw_nonneg(stats.drop_first(), remaining - w);
    assert(draw_frac(stats, remaining) == (w * r.0, remaining * r.1));
    assert((w * r.0) as real / (remaining * r.1) as real == (w as real / remaining as real) * (
    r.0 as real / r.1 as real)) by (nonlinear_arith)
        requires
            remaining > 0,
            r.1 > 0,
    ;
}

/// Probability that the first draws are exactly the positions of `c`, in any order.
pub open spec fn set_value(pool: Seq<RelicStat>, c: Seq<int>, remaining: int) -> real {
    sum_seqs(orderings(c), |s: Seq<int>| draw_value(pool, s, remaining))
}

/// The first draw picks `x` with probability `weight(x) / remaining`; the
/// rest is then drawn from a lighter pool.
pub open spec fn first_draw(pool: Seq<RelicStat>, remaining: int) -> spec_fn(int, Seq<int>) -> real {
    |x: int, rest: Seq<int>|
        (pool[x].weight() as real / remaining as real) * set_value(
            pool,
            rest,
            remaining - pool[x].weight(),
        )
}

pub proof fn lemma_set_value_first_draw(pool: Seq<RelicStat>, c: Seq<int>, remaining: int)
    requires
        c.len() >= 1,
        remaining >= 10 * c.len(),
    ensures
        set_value(pool, c, remaining) == split_sum(first_draw(pool, remaining), c),
{
    lemma_orderings_from_first_draw(pool, c, remaining, 0);
    assert(orderings(c) == orderings_from(c, 0));
}

proof fn lemma_orderings_from_first_draw(pool: Seq<RelicStat>, c: Seq<int>, remaining: int, i: int)
    requires
        c.len() >= 1,
        remaining >= 10 * c.len(),
        0 <= i,
    ensures
        sum_seqs(orderings_from(c, i), |s: Seq<int>| draw_value(pool, s, remaining)) == sum_range(
            |j: int| first_draw(pool, remaining)(c[j], c.remove(j)),
            i,
            c.len() as int,
        ),
    decreases c.len() - i,
{
    let d = |s: Seq<int>| draw_value(pool, s, remaining);
    if i < c.len() {
        lemma_orderings_from_first_draw(pool, c, remaining, i + 1);
        let x = c[i];
        let r = c.remove(i);
        let w = pool[x].weight();
        let tail = orderings(r);
        lemma_orderings_shape(r);
        assert(orderings_from(c, i) == prepend_all(x, tail) + orderings_from(c, i + 1));
        lemma_sum_seqs_concat(prepend_all(x, tail), orderings_from(c, i + 1), d);
        lemma_sum_seqs_prepend(x, tail, d);
        let lighter = |s: Seq<int>| draw_value(pool, s, remaining - w);
        let scaled = |s: Seq<int>| (w as real / remaining as real) * lighter(s);
        let headed = |s: Seq<int>| d(seq![x] + s);
        assert forall|t: int| 0 <= t < tail.len() implies #[trigger] headed(tail[t]) == scaled(
            tail[t],
        ) by {
            let s = seq![x] + tail[t];
            assert(s.drop_first() =~= tail[t]);
            lemma_draw_step(pool, s, remaining);
        }
        lemma_sum_seqs_congruent(tail, headed, scaled);
        lemma_sum_seqs_scale(tail, lighter, w as real / remaining as real);
    }
}

/// Probability that the first `k` draws are some `k` of the positions of
/// `avail`, in any order.
pub open spec fn subsets_value(pool: Seq<RelicStat>, avail: Seq<int>, k: int, remaining: int) -> real {
    sum_seqs(combs_of(avail, k), |c: Seq<int>| set_value(pool, c, remaining))
}

/// Total weight of the pool positions in `avail`.
pub open spec fn weight_of(pool: Seq<RelicStat>, avail: Seq<int>) -> int
    decreases avail.len(),
{
    if avail.len() == 0 {
        0
    } else {
        pool[avail[0]].weight() + weight_of(pool, avail.drop_first())
    }
}

proof fn lemma_weight_of_remove(pool: Seq<RelicStat>, avail: Seq<int>, i: int)
    requires
        0 <= i < avail.len(),
    ensures
        weight_of(pool, avail.remove(i)) == weight_of(pool, avail) - pool[avail[i]].weight(),
    decreases avail.len(),
{
    if i > 0 {
        let rest = avail.drop_first();
        lemma_weight_of_remove(pool, rest, i - 1);
        assert(avail.remove(i).drop_first() =~= rest.remove(i - 1));
        assert(avail.remove(i)[0] == avail[0]);
        assert(rest[i - 1] == avail[i]);
    } else {
        assert(avail.remove(0) =~= avail.drop_first());
    }
}

/// The weights of the positions of `avail`, from `i` on, as a real sum.
proof fn lemma_weight_sum(pool: Seq<RelicStat>, avail: Seq<int>, i: int)
    requires
        0 <= i <= avail.len(),
    ensures
        sum_range(|j: int| pool[avail[j]].weight() as real, i, avail.len() as int) == weight_of(
            pool,
            avail.subrange(i, avail.len() as int),
        ) as real,
    decreases avail.len() - i,
{
    if i < avail.len() {
        lemma_weight_sum(pool, avail, i + 1);
        let sub = avail.subrange(i, avail.len() as int);
        assert(sub.drop_first() =~= avail.subrange(i + 1, avail.len() as int));
        assert(sub[0] == avail[i]);
    } else {
        assert(avail.subrange(i, avail.len() as int).len() == 0);
    }
}

/// Splitting on the first draw.
pub proof fn lemma_subsets_first_draw(pool: Seq<RelicStat>, avail: Seq<int>, k: int, remaining: int)
    requires
        k >= 1,
        remaining >= 10 * k,
    ensures
        subsets_value(pool, avail, k, remaining) == sum_range(
            |i: int|
                (pool[avail[i]].weight() as real / remaining as real) * subsets_value(
                    pool,
                    avail.remove(i),
                    k - 1,
                    remaining - pool[avail[i]].weight(),
                ),
            0,
            avail.len() as int,
        ),
{
    let f = first_draw(pool, remaining);
    let cs = combs_of(avail, k);
    lemma_combs_of_len(avail, k);
    let by_set = |c: Seq<int>| set_value(pool, c, remaining);
    let by_split = |c: Seq<int>| split_sum(f, c);
    assert forall|t: int| 0 <= t < cs.len() implies #[trigger] by_set(cs[t]) == by_split(cs[t]) by {
        lemma_set_value_first_draw(pool, cs[t], remaining);
    }
    lemma_sum_seqs_congruent(cs, by_set, by_split);
    lemma_swap(avail, k, f);
    let pick = |i: int| sum_seqs(combs_of(avail.remove(i), k - 1), |d: Seq<int>| f(avail[i], d));
    let target = |i: int|
        (pool[avail[i]].weight() as real / remaining as real) * subsets_value(
            pool,
            avail.remove(i),
            k - 1,
            remaining - pool[avail[i]].weight(),
        );
    assert forall|i: int| 0 <= i < avail.len() implies #[trigger] pick(i) == target(i) by {
        let w = pool[avail[i]].weight();
        let inner = |d: Seq<int>| set_value(pool, d, remaining - w);
        lemma_sum_seqs_congruent(
            combs_of(avail.remove(i), k - 1),
            |d: Seq<int>| f(avail[i], d),
            |d: Seq<int>| (w as real / remaining as real) * inner(d),
        );
        lemma_sum_seqs_scale(combs_of(avail.remove(i), k - 1), inner, w as real / remaining as real);
    }
    lemma_sum_range_congruent(pick, target, 0, avail.len() as int);
}

/// Drawing `k` of the positions of `avail`, from a pool that holds exactly
/// those positions, is certain.
pub proof fn lemma_subsets_certain(pool: Seq<RelicStat>, avail: Seq<int>, k: int, remaining: int)
    requires
        0 <= k <= avail.len(),
        remaining == weight_of(pool, avail),
        remaining >= 10 * k,
    ensures
        subsets_value(pool, avail, k, remaining) == 1real,
    decreases k,
{
    if k == 0 {
        reveal_with_fuel(sum_range, 2);
        assert(combs_of(avail, 0) == seq![Seq::<int>::empty()]);
        assert(orderings(Seq::<int>::empty()) == seq![Seq::<int>::empty()]);
        assert(Seq::<int>::empty().map_values(|j: int| pool[j]) =~= Seq::<RelicStat>::empty());
        assert(set_value(pool, Seq::<int>::empty(), remaining) == draw_value(
            pool,
            Seq::<int>::empty(),
            remaining,
        ));
        assert(draw_frac(Seq::<RelicStat>::empty(), remaining) == (1int, 1int));
        assert(1int as real / 1int as real == 1real);
        assert(subsets_value(pool, avail, 0, remaining) == set_value(
            pool,
            Seq::<int>::empty(),
            remaining,
        ));
    } else {
        lemma_subsets_first_draw(pool, avail, k, remaining);
        let r = remaining as real;
        let each = |i: int|
            (pool[avail[i]].weight() as real / r) * subsets_value(
                pool,
                avail.remove(i),
                k - 1,
                remaining - pool[avail[i]].weight(),
            );
        let weights = |i: int| pool[avail[i]].weight() as real;
        assert forall|i: int| 0 <= i < avail.len() implies #[trigger] each(i) == (1real / r)
            * weights(i) by {
            let w = pool[avail[i]].weight();
            lemma_weight_of_remove(pool, avail, i);
            lemma_subsets_certain(pool, avail.remove(i), k - 1, remaining - w);
            assert((w as real / r) * 1real == (1real / r) * (w as real)) by (nonlinear_arith)
                requires
                    r > 0real,
            ;
        }
        lemma_sum_range_congruent(
            |i: int|
                (pool[avail[i]].weight() as real / remaining as real) * subsets_value(
                    pool,
                    avail.remove(i),
                    k - 1,
                    remaining - pool[avail[i]].weight(),
                ),
            |i: int| (1real / r) * weights(i),
            0,
            avail.len() as int,
        );
        lemma_sum_range_scale(weights, 1real / r, 0, avail.len() as int);
        lemma_weight_sum(pool, avail, 0);
        assert(avail.subrange(0, avail.len() as int) =~= avail);
        assert((1real / r) * (remaining as real) == 1real) by (nonlinear_arith)
            requires
                r == remaining as real,
                remaining > 0,
        ;
    }
}

/// Once the main stat is out, the pool weighs what the main stat leaves of 100.
pub proof fn lemma_pool_weight(main: RelicStat)
    ensures
        weight_of(pool_without(main), range_from(0, pool_without(main).len() as int))
            == pool_weight(main),
        pool_without(main).len() == if main.is_sub_stat() {
            11int
        } else {
            12int
        },
{
    let pool = pool_without(main);
    reveal_with_fuel(Seq::filter, 13);
    assert(pool.len() == if main.is_sub_stat() {
        11int
    } else {
        12int
    });
    let n = pool.len() as int;
    lemma_weight_sum(pool, range_from(0, n), 0);
    assert(range_from(0, n).subrange(0, n) =~= range_from(0, n));
    reveal_with_fuel(sum_range, 13);
    let f = |j: int| pool[range_from(0, n)[j]].weight() as real;
    assert(sum_range(f, 0, n) == (100 - main.weight()) as real);
}

/// Each sequence of `xs`, its elements read as positions in `avail`.
pub open spec fn relabel_all(xs: Seq<Seq<int>>, avail: Seq<int>) -> Seq<Seq<int>> {
    xs.map_values(|p: Seq<int>| p.map_values(|j: int| avail[j]))
}

/// The orderings of any sequence are those of its positions, relabelled.
pub proof fn lemma_orderings_relabel(avail: Seq<int>)
    ensures
        orderings(avail) == relabel_all(orderings(range_seq(avail.len() as int)), avail),
    decreases avail.len(), avail.len() + 1,
{
    let m = avail.len() as int;
    if m == 0 {
        assert(range_seq(0).len() == 0);
        assert(relabel_all(orderings(range_seq(0)), avail) =~= seq![Seq::<int>::empty()]) by {
            assert(Seq::<int>::empty().map_values(|j: int| avail[j]) =~= Seq::<int>::empty());
        }
    } else {
        lemma_orderings_from_relabel(avail, 0);
        assert(orderings(range_seq(m)) == orderings_from(range_seq(m), 0));
    }
}

proof fn lemma_orderings_from_relabel(avail: Seq<int>, i: int)
    requires
        avail.len() > 0,
        0 <= i,
    ensures
        orderings_from(avail, i) == relabel_all(
            orderings_from(range_seq(avail.len() as int), i),
            avail,
        ),
    decreases avail.len(), avail.len() - i,
{
    let m = avail.len() as int;
    let ids = range_seq(m);
    if i < m {
        lemma_orderings_from_relabel(avail, i + 1);
        let sub = ids.remove(i);
        let rest = avail.remove(i);
        lemma_orderings_relabel(sub);
        lemma_orderings_relabel(rest);
        assert(sub.len() == m - 1);
        let base = orderings(range_seq(m - 1));
        lemma_orderings_shape(range_seq(m - 1));
        // relabelling twice is relabelling by the composition
        assert(relabel_all(relabel_all(base, sub), avail) =~= relabel_all(base, rest)) by {
            assert forall|t: int| 0 <= t < base.len() implies #[trigger] relabel_all(
                relabel_all(base, sub),
                avail,
            )[t] =~= relabel_all(base, rest)[t] by {
                let p = base[t];
                assert forall|q: int| 0 <= q < p.len() implies avail[sub[p[q]]] == rest[p[q]] by {
                    assert(range_seq(m - 1).contains(p[q]));
                }
            }
        }
        let head_ids = prepend_all(i, orderings(sub));
        assert(relabel_all(head_ids, avail) =~= prepend_all(avail[i], orderings(rest))) by {
            assert forall|t: int| 0 <= t < head_ids.len() implies #[trigger] relabel_all(
                head_ids,
                avail,
            )[t] =~= prepend_all(avail[i], orderings(rest))[t] by {
                assert(ids[i] == i);
            }
        }
        assert(orderings_from(ids, i) == head_ids + orderings_from(ids, i + 1));
        assert(relabel_all(head_ids + orderings_from(ids, i + 1), avail) =~= relabel_all(
            head_ids,
            avail,
        ) + relabel_all(orderings_from(ids, i + 1), avail));
    } else {
        assert(orderings_from(ids, i) == Seq::<Seq<int>>::empty());
        assert(relabel_all(Seq::<Seq<int>>::empty(), avail) =~= Seq::<Seq<int>>::empty());
    }
}

/// A sum added from the back is the same sum added from the front.
pub proof fn lemma_sum_upto_is_sum_range(f: spec_fn(int) -> real, n: int)
    requires
        0 <= n,
    ensures
        sum_upto(f, n) == sum_range(f, 0, n),
    decreases n,
{
    if n > 0 {
        lemma_sum_upto_is_sum_range(f, n - 1);
        lemma_sum_range_split(f, 0, n - 1, n);
        reveal_with_fuel(sum_range, 2);
    }
}

/// The value of a sum of fractions, added from the front.
pub proof fn lemma_total_is_sum_range(s: Seq<(int, int)>)
    ensures
        total(s) == sum_range(|i: int| value_of(s[i]), 0, s.len() as int),
    decreases s.len(),
{
    let n = s.len() as int;
    if n > 0 {
        let p = s.drop_last();
        lemma_total_is_sum_range(p);
        let f = |i: int| value_of(s[i]);
        lemma_sum_range_split(f, 0, n - 1, n);
        reveal_with_fuel(sum_range, 2);
        lemma_sum_range_congruent(|i: int| value_of(p[i]), f, 0, n - 1);
    }
}

/// The initial-line probability of the stats at pool positions `c` is the
/// probability that the first draws are those positions.
pub proof fn lemma_initial_terms_value(pool: Seq<RelicStat>, c: Seq<int>, main: RelicStat)
    requires
        c.len() <= 4,
    ensures
        total(initial_terms(c.map_values(|j: int| pool[j]), main)) == set_value(
            pool,
            c,
            pool_weight(main),
        ),
{
    let lines = c.map_values(|j: int| pool[j]);
    let m = c.len() as int;
    let r = pool_weight(main);
    let base = orderings(range_seq(m));
    lemma_orderings_shape(range_seq(m));
    lemma_orderings_relabel(c);
    assert(initial_lines(lines) == lines);
    let terms = initial_terms(lines, main);
    lemma_total_is_sum_range(terms);
    let by_terms = |i: int| value_of(terms[i]);
    let oc = orderings(c);
    let by_draws = |i: int| (|s: Seq<int>| draw_value(pool, s, r))(oc[i]);
    assert forall|i: int| 0 <= i < base.len() implies #[trigger] by_terms(i) == by_draws(i) by {
        let p = base[i];
        assert(oc[i] == p.map_values(|j: int| c[j]));
        assert forall|q: int| 0 <= q < p.len() implies lines[p[q]] == pool[c[p[q]]] by {
            assert(range_seq(m).contains(p[q]));
        }
        assert(arrange(lines, p) =~= oc[i].map_values(|j: int| pool[j]));
    }
    lemma_sum_range_congruent(by_terms, by_draws, 0, base.len() as int);
}

} // verus!
