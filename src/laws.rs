//! Properties that relate the enumeration, the probability models and the filters.
use vstd::prelude::*;

use crate::combinatorics::{
    binomial, combs_from, lemma_binomial_four_bins, lemma_combs_distinct, lemma_combs_len,
    lemma_combs_shape, lemma_increasing_same_elements, lemma_multisets_len,
    lemma_multisets_shape, lemma_orderings_shape, multisets_from, orderings, range_seq,
};
use crate::outcomes::{join_outcome, outcomes_with, pool_without, relic_outcomes};
use crate::probability::{
    all_terms, count_lines_in, filtered_terms, masked_terms, AnyRelic, AtLeastLines, RelicFilter,
};
use crate::ratio::{
    all_nonneg, frac_add, frac_eq, frac_le, frac_mul, frac_nonneg, lemma_le_add_both,
    lemma_le_add_right, lemma_sum_nonneg, sum_fracs,
};
use crate::relic::{
    arrange, draw_frac, initial_lines, initial_terms, line_frac, main_stat_frac, pool_weight,
    sub_terms, upgrade_count, upgrade_frac,
};
use crate::sampling::{
    lemma_combs_from_is_combs_of, lemma_initial_terms_value, lemma_pool_weight,
    lemma_subsets_certain, lemma_sum_range_congruent, lemma_sum_upto_is_sum_range, range_from,
    set_value,
};
use crate::stat::{RelicSlot, RelicStat};

verus! {

/// Every multiset of `k` upgrades over four lines gets probability
/// `1 / binomial(k + 3, k)`, and these probabilities add up to 1.
pub proof fn lemma_upgrade_mass_is_one(k: int)
    requires
        0 <= k,
    ensures
        frac_eq(
            sum_fracs(multisets_from(0, 4, k).map_values(|u: Seq<int>| upgrade_frac(k))),
            (1, 1),
        ),
{
    let c = binomial(k + 3, k);
    lemma_binomial_four_bins(k);
    lemma_multisets_len(0, 4, k);
    let s = multisets_from(0, 4, k).map_values(|u: Seq<int>| upgrade_frac(k));
    lemma_constant_sum(s, c);
    let t = sum_fracs(s);
    assert(t.0 == t.1) by (nonlinear_arith)
        requires
            t.0 * c == c * t.1,
            c >= 1,
    ;
}

/// A sum of `n` copies of `1 / c`, added up without reduction, is `n / c`.
proof fn lemma_constant_sum(s: Seq<(int, int)>, c: int)
    requires
        c >= 1,
        forall|i: int| 0 <= i < s.len() ==> #[trigger] s[i] == (1int, c),
    ensures
        sum_fracs(s).0 * c == s.len() * sum_fracs(s).1,
        sum_fracs(s).1 >= 1,
    decreases s.len(),
{
    if s.len() > 0 {
        let p = s.drop_last();
        lemma_constant_sum(p, c);
        let q = sum_fracs(p);
        assert(s.last() == (1int, c));
        assert(sum_fracs(s) == (q.0 * c + 1 * q.1, q.1 * c));
        assert((q.0 * c + 1 * q.1) * c == (p.len() + 1) * (q.1 * c)) by (nonlinear_arith)
            requires
                q.0 * c == p.len() * q.1,
        ;
        assert(q.1 * c >= 1) by (nonlinear_arith)
            requires
                q.1 >= 1,
                c >= 1,
        ;
    }
}

/// With a filter that accepts everything, the filtered terms are the terms
/// of every outcome: the conditional probability is the unconditional one.
pub proof fn lemma_accept_all_is_unconditional(rarity: usize, slot: RelicSlot, main: RelicStat)
    ensures
        filtered_terms(AnyRelic, rarity, slot, main) == all_terms(
            rarity,
            main,
            relic_outcomes(main, rarity as int),
        ),
        sum_fracs(filtered_terms(AnyRelic, rarity, slot, main)) == sum_fracs(
            all_terms(rarity, main, relic_outcomes(main, rarity as int)),
        ),
{
    lemma_masked_all(rarity, slot, main, relic_outcomes(main, rarity as int));
}

proof fn lemma_masked_all(rarity: usize, slot: RelicSlot, main: RelicStat, outs: Seq<Seq<RelicStat>>)
    ensures
        masked_terms(AnyRelic, rarity, slot, main, outs) == all_terms(rarity, main, outs),
    decreases outs.len(),
{
    if outs.len() > 0 {
        lemma_masked_all(rarity, slot, main, outs.drop_last());
    }
}

/// Drawing up to four stats from a pool of weight at least ten per draw has
/// positive probability denominators.
pub proof fn lemma_draw_nonneg(order: Seq<RelicStat>, remaining: int)
    requires
        remaining >= 10 * order.len(),
    ensures
        frac_nonneg(draw_frac(order, remaining)),
    decreases order.len(),
{
    if order.len() > 0 {
        let w = order[0].weight();
        lemma_draw_nonneg(order.drop_first(), remaining - w);
        let rest = draw_frac(order.drop_first(), remaining - w);
        assert(w * rest.0 >= 0 && remaining * rest.1 > 0) by (nonlinear_arith)
            requires
                0 <= w,
                rest.0 >= 0,
                rest.1 > 0,
                remaining >= 10,
        ;
    }
}

proof fn lemma_mul_nonneg(a: (int, int), b: (int, int))
    requires
        frac_nonneg(a),
        frac_nonneg(b),
    ensures
        frac_nonneg(frac_mul(a, b)),
{
    assert(a.0 * b.0 >= 0 && a.1 * b.1 > 0) by (nonlinear_arith)
        requires
            a.0 >= 0,
            a.1 > 0,
            b.0 >= 0,
            b.1 > 0,
    ;
}

/// Every ordering term of the initial-line probability is a nonnegative fraction.
pub proof fn lemma_initial_terms_nonneg(subs: Seq<RelicStat>, main: RelicStat)
    ensures
        all_nonneg(initial_terms(subs, main)),
{
    let lines = initial_lines(subs);
    let all = orderings(range_seq(lines.len() as int));
    lemma_orderings_shape(range_seq(lines.len() as int));
    let terms = initial_terms(subs, main);
    assert forall|i: int| 0 <= i < terms.len() implies frac_nonneg(#[trigger] terms[i]) by {
        let p = all[i];
        let order = arrange(lines, p);
        assert(order.len() == p.len());
        lemma_draw_nonneg(order, pool_weight(main));
    }
}

/// Every term of every outcome's probability is a nonnegative fraction.
pub proof fn lemma_sub_terms_nonneg(rarity: int, subs: Seq<RelicStat>, main: RelicStat)
    ensures
        all_nonneg(sub_terms(rarity, subs, main)),
{
    lemma_initial_terms_nonneg(subs, main);
    let k = upgrade_count(subs.len() as int);
    lemma_binomial_four_bins(k);
    let terms = sub_terms(rarity, subs, main);
    assert forall|i: int| 0 <= i < terms.len() implies frac_nonneg(#[trigger] terms[i]) by {
        let f = initial_terms(subs, main)[i];
        lemma_mul_nonneg(line_frac(rarity, subs.len() as int), f);
        lemma_mul_nonneg(frac_mul(line_frac(rarity, subs.len() as int), f), upgrade_frac(k));
    }
}

proof fn lemma_masked_nonneg<F: RelicFilter>(
    filter: F,
    rarity: usize,
    slot: RelicSlot,
    main: RelicStat,
    outs: Seq<Seq<RelicStat>>,
)
    ensures
        all_nonneg(masked_terms(filter, rarity, slot, main, outs)),
    decreases outs.len(),
{
    if outs.len() > 0 {
        lemma_masked_nonneg(filter, rarity, slot, main, outs.drop_last());
        lemma_sub_terms_nonneg(rarity as int, outs.last(), main);
    }
}

/// Appending the same nonnegative terms to two ordered sums keeps their order.
proof fn lemma_sum_append_both(a: Seq<(int, int)>, b: Seq<(int, int)>, t: Seq<(int, int)>)
    requires
        all_nonneg(a),
        all_nonneg(b),
        all_nonneg(t),
        frac_le(sum_fracs(a), sum_fracs(b)),
    ensures
        frac_le(sum_fracs(a + t), sum_fracs(b + t)),
    decreases t.len(),
{
    if t.len() == 0 {
        assert(a + t =~= a);
        assert(b + t =~= b);
    } else {
        let u = t.drop_last();
        lemma_sum_append_both(a, b, u);
        assert((a + t).drop_last() =~= a + u);
        assert((b + t).drop_last() =~= b + u);
        assert((a + t).last() == t.last());
        assert((b + t).last() == t.last());
        lemma_sum_nonneg(a + u);
        lemma_sum_nonneg(b + u);
        lemma_le_add_both(sum_fracs(a + u), sum_fracs(b + u), t.last());
    }
}

/// Appending nonnegative terms to the larger of two ordered sums keeps their order.
proof fn lemma_sum_append_right(a: Seq<(int, int)>, b: Seq<(int, int)>, t: Seq<(int, int)>)
    requires
        all_nonneg(a),
        all_nonneg(b),
        all_nonneg(t),
        frac_le(sum_fracs(a), sum_fracs(b)),
    ensures
        frac_le(sum_fracs(a), sum_fracs(b + t)),
    decreases t.len(),
{
    if t.len() == 0 {
        assert(b + t =~= b);
    } else {
        let u = t.drop_last();
        lemma_sum_append_right(a, b, u);
        assert((b + t).drop_last() =~= b + u);
        assert((b + t).last() == t.last());
        lemma_sum_nonneg(a);
        lemma_sum_nonneg(b + u);
        lemma_le_add_right(sum_fracs(a), sum_fracs(b + u), t.last());
    }
}

/// A filter that accepts no more outcomes than another gives no larger probability.
pub proof fn lemma_stricter_filter_less_likely<F: RelicFilter, G: RelicFilter>(
    strict: F,
    loose: G,
    rarity: usize,
    slot: RelicSlot,
    main: RelicStat,
    outs: Seq<Seq<RelicStat>>,
)
    requires
        forall|i: int|
            0 <= i < outs.len() ==> strict.accepts(rarity, slot, main, #[trigger] outs[i])
                ==> loose.accepts(rarity, slot, main, outs[i]),
    ensures
        frac_le(
            sum_fracs(masked_terms(strict, rarity, slot, main, outs)),
            sum_fracs(masked_terms(loose, rarity, slot, main, outs)),
        ),
    decreases outs.len(),
{
    if outs.len() == 0 {
    } else {
        let p = outs.drop_last();
        let o = outs.last();
        assert(o == outs[outs.len() - 1]);
        assert forall|i: int|
            0 <= i < p.len() && strict.accepts(
                rarity,
                slot,
                main,
                #[trigger] p[i],
            ) implies loose.accepts(rarity, slot, main, p[i]) by {
            assert(p[i] == outs[i]);
        }
        lemma_stricter_filter_less_likely(strict, loose, rarity, slot, main, p);
        let a = masked_terms(strict, rarity, slot, main, p);
        let b = masked_terms(loose, rarity, slot, main, p);
        let t = sub_terms(rarity as int, o, main);
        lemma_masked_nonneg(strict, rarity, slot, main, p);
        lemma_masked_nonneg(loose, rarity, slot, main, p);
        lemma_sub_terms_nonneg(rarity as int, o, main);
        if strict.accepts(rarity, slot, main, o) {
            lemma_sum_append_both(a, b, t);
        } else if loose.accepts(rarity, slot, main, o) {
            lemma_sum_append_right(a, b, t);
        }
    }
}

/// Asking for at least `n` lines from a set of stats is no more likely for a
/// larger `n`.
pub proof fn lemma_more_lines_less_likely(
    fewer: AtLeastLines,
    more: AtLeastLines,
    rarity: usize,
    slot: RelicSlot,
    main: RelicStat,
)
    requires
        fewer.stats@ == more.stats@,
        fewer.n <= more.n,
    ensures
        frac_le(
            sum_fracs(filtered_terms(more, rarity, slot, main)),
            sum_fracs(filtered_terms(fewer, rarity, slot, main)),
        ),
{
    let outs = relic_outcomes(main, rarity as int);
    lemma_stricter_filter_less_likely(more, fewer, rarity, slot, main, outs);
}

/// A relic with four initial lines and no upgrades has one outcome per
/// four-line combination of the pool: 330 for a substat-eligible main stat
/// (eleven stats left), 495 for a main-only stat (twelve); no two outcomes
/// hold the same set of lines.
pub proof fn lemma_initial_combination_count(main: RelicStat)
    ensures
        outcomes_with(main, 4, 0).len() == if main.is_sub_stat() {
            330int
        } else {
            495int
        },
        forall|i: int, j: int|
            0 <= i < j < outcomes_with(main, 4, 0).len() ==> (#[trigger] outcomes_with(
                main,
                4,
                0,
            )[i]).to_set() != (#[trigger] outcomes_with(main, 4, 0)[j]).to_set(),
{
    lemma_initial_combinations_distinct(main);
    let pool = pool_without(main);
    reveal_with_fuel(Seq::filter, 13);
    assert(pool.len() == if main.is_sub_stat() {
        11int
    } else {
        12int
    });
    lemma_combs_len(0, pool.len() as int, 4);
    assert(multisets_from(0, 4, 0).len() == 1);
    reveal_with_fuel(binomial, 13);
    assert(binomial(11, 4) == 330);
    assert(binomial(12, 4) == 495);
    let cs = combs_from(0, pool.len() as int, 4);
    assert(outcomes_with(main, 4, 0).len() == cs.len() * 1);
}

/// No stat stands twice in the pool.
proof fn lemma_pool_distinct(main: RelicStat)
    ensures
        forall|a: int, b: int|
            0 <= a < b < pool_without(main).len() ==> #[trigger] pool_without(main)[a]
                != #[trigger] pool_without(main)[b],
{
    reveal_with_fuel(Seq::filter, 13);
    let pool = pool_without(main);
    assert(pool.len() <= 12);
}

proof fn lemma_initial_combinations_distinct(main: RelicStat)
    ensures
        forall|i: int, j: int|
            0 <= i < j < outcomes_with(main, 4, 0).len() ==> (#[trigger] outcomes_with(
                main,
                4,
                0,
            )[i]).to_set() != (#[trigger] outcomes_with(main, 4, 0)[j]).to_set(),
{
    let pool = pool_without(main);
    let n = pool.len() as int;
    let cs = combs_from(0, n, 4);
    let outs = outcomes_with(main, 4, 0);
    lemma_pool_distinct(main);
    lemma_combs_shape(0, n, 4);
    lemma_combs_distinct(0, n, 4);
    assert(multisets_from(0, 4, 0) == seq![Seq::<int>::empty()]);
    assert(crate::outcomes::fill_initial(4, 0) == 4);
    assert(crate::outcomes::fill_upgrades(4, 0) == 0);
    assert(cs.len() * 1 == cs.len());
    assert(outs.len() == cs.len());
    assert forall|i: int| 0 <= i < outs.len() implies #[trigger] outs[i] == cs[i].map_values(
        |x: int| pool[x],
    ) by {
        assert(i / 1 == i && i % 1 == 0);
        assert(outs[i] == join_outcome(pool, cs[i], us0()));
        assert(outs[i] =~= cs[i].map_values(|x: int| pool[x]));
    }
    assert forall|i: int, j: int| 0 <= i < j < outs.len() implies (#[trigger] outs[i]).to_set()
        != (#[trigger] outs[j]).to_set() by {
        if outs[i].to_set() == outs[j].to_set() {
            let a = cs[i];
            let b = cs[j];
            assert forall|x: int| a.contains(x) implies b.contains(x) by {
                let m = choose|m: int| 0 <= m < a.len() && a[m] == x;
                assert(outs[i][m] == pool[x]);
                assert(outs[i].to_set().contains(pool[x]));
                assert(outs[j].to_set().contains(pool[x]));
                let q = choose|q: int| 0 <= q < outs[j].len() && outs[j][q] == pool[x];
                assert(pool[b[q]] == pool[x]);
                assert(b[q] == x);
            }
            assert forall|x: int| b.contains(x) implies a.contains(x) by {
                let m = choose|m: int| 0 <= m < b.len() && b[m] == x;
                assert(outs[j][m] == pool[x]);
                assert(outs[j].to_set().contains(pool[x]));
                assert(outs[i].to_set().contains(pool[x]));
                let q = choose|q: int| 0 <= q < outs[i].len() && outs[i][q] == pool[x];
                assert(pool[a[q]] == pool[x]);
                assert(a[q] == x);
            }
            lemma_increasing_same_elements(a, b);
        }
    }
}

} // verus!

verus! {

/// The value of a fraction as a real number.
pub open spec fn value_of(f: (int, int)) -> real {
    f.0 as real / f.1 as real
}

/// The value of a finite sum of fractions.
pub open spec fn total(s: Seq<(int, int)>) -> real
    decreases s.len(),
{
    if s.len() == 0 {
        0real
    } else {
        total(s.drop_last()) + value_of(s.last())
    }
}

/// `g(0) + g(1) + ... + g(n - 1)`.
pub open spec fn sum_upto(g: spec_fn(int) -> real, n: int) -> real
    decreases n,
{
    if n <= 0 {
        0real
    } else {
        sum_upto(g, n - 1) + g(n - 1)
    }
}

/// Probability mass of the initial lines of each outcome, added over the outcomes.
pub open spec fn initial_mass(outs: Seq<Seq<RelicStat>>, main: RelicStat) -> real {
    sum_upto(|i: int| total(initial_terms(outs[i], main)), outs.len() as int)
}

/// Probability mass of the initial lines times that of the upgrade
/// distribution of each outcome, added over the outcomes.
pub open spec fn upgraded_mass(outs: Seq<Seq<RelicStat>>, main: RelicStat) -> real {
    sum_upto(
        |i: int|
            total(initial_terms(outs[i], main)) * value_of(
                upgrade_frac(upgrade_count(outs[i].len() as int)),
            ),
        outs.len() as int,
    )
}

proof fn lemma_sum_upto_congruent(f: spec_fn(int) -> real, g: spec_fn(int) -> real, n: int)
    requires
        forall|i: int| 0 <= i < n ==> #[trigger] f(i) == g(i),
    ensures
        sum_upto(f, n) == sum_upto(g, n),
    decreases n,
{
    if n > 0 {
        lemma_sum_upto_congruent(f, g, n - 1);
    }
}

proof fn lemma_sum_upto_split(f: spec_fn(int) -> real, a: int, b: int)
    requires
        0 <= a,
        0 <= b,
    ensures
        sum_upto(f, a + b) == sum_upto(f, a) + sum_upto(|j: int| f(a + j), b),
    decreases b,
{
    if b > 0 {
        lemma_sum_upto_split(f, a, b - 1);
        let g = |j: int| f(a + j);
        assert(g(b - 1) == f(a + b - 1));
    }
}

proof fn lemma_sum_upto_constant(f: spec_fn(int) -> real, x: real, n: int)
    requires
        0 <= n,
        forall|i: int| 0 <= i < n ==> #[trigger] f(i) == x,
    ensures
        sum_upto(f, n) == n as real * x,
    decreases n,
{
    if n > 0 {
        lemma_sum_upto_constant(f, x, n - 1);
        assert(f(n - 1) == x);
        assert((n - 1) as real * x + x == n as real * x) by (nonlinear_arith);
    } else {
        assert(0 as real * x == 0real) by (nonlinear_arith);
    }
}

/// Adding `x(t / u) / u` over `t < n * u` gives the sum of `x(c)` over `c < n`.
proof fn lemma_sum_blocks(x: spec_fn(int) -> real, u: int, n: int)
    requires
        u >= 1,
        n >= 0,
    ensures
        sum_upto(|t: int| x(t / u) / (u as real), n * u) == sum_upto(x, n),
    decreases n,
{
    let f = |t: int| x(t / u) / (u as real);
    if n > 0 {
        lemma_sum_blocks(x, u, n - 1);
        let a = (n - 1) * u;
        assert(a + u == n * u) by (nonlinear_arith)
            requires
                a == (n - 1) * u,
        ;
        assert(a >= 0) by (nonlinear_arith)
            requires
                a == (n - 1) * u,
                n >= 1,
                u >= 1,
        ;
        lemma_sum_upto_split(f, a, u);
        let g = |j: int| f(a + j);
        assert forall|j: int| 0 <= j < u implies #[trigger] g(j) == x(n - 1) / (u as real) by {
            assert((a + j) / u == n - 1) by (nonlinear_arith)
                requires
                    a == (n - 1) * u,
                    0 <= j < u,
                    n >= 1,
            ;
        }
        lemma_sum_upto_constant(g, x(n - 1) / (u as real), u);
        assert(u as real * (x(n - 1) / (u as real)) == x(n - 1)) by (nonlinear_arith)
            requires
                u >= 1,
        ;
        assert(sum_upto(f, n * u) == sum_upto(f, a) + sum_upto(g, u));
        assert(sum_upto(f, a) == sum_upto(x, n - 1));
        assert(sum_upto(x, n) == sum_upto(x, n - 1) + x(n - 1));
    } else {
        assert(n * u == 0) by (nonlinear_arith)
            requires
                n == 0,
        ;
    }
}

/// The upgrade model spreads each set of initial lines evenly over its
/// upgrade distributions: over the outcomes with four initial lines and `k`
/// upgrades, initial-line probability times upgrade probability adds up to
/// the same total as the initial-line probability over the outcomes with no
/// upgrade.
pub proof fn lemma_upgrades_keep_initial_mass(main: RelicStat, k: int)
    requires
        0 <= k,
    ensures
        upgraded_mass(outcomes_with(main, 4, k), main) == initial_mass(
            outcomes_with(main, 4, 0),
            main,
        ),
{
    let pool = pool_without(main);
    let n = pool.len() as int;
    let cs = combs_from(0, n, 4);
    let us = multisets_from(0, 4, k);
    let u = us.len() as int;
    let outs = outcomes_with(main, 4, k);
    let plain = outcomes_with(main, 4, 0);
    lemma_multisets_len(0, 4, k);
    lemma_binomial_four_bins(k);
    lemma_combs_shape(0, n, 4);
    lemma_multisets_shape(0, 4, k);
    let c = binomial(k + 3, k);
    assert(u == c);
    assert(multisets_from(0, 4, 0) == seq![Seq::<int>::empty()]);
    assert(crate::outcomes::fill_initial(4, 0) == 4);
    assert(crate::outcomes::fill_upgrades(4, 0) == 0);
    assert(cs.len() * 1 == cs.len());
    assert(plain.len() == cs.len());
    assert(outs.len() == cs.len() * u);
    let x = |i: int| total(initial_terms(plain[i], main));
    let h = |i: int|
        total(initial_terms(outs[i], main)) * value_of(
            upgrade_frac(upgrade_count(outs[i].len() as int)),
        );
    let f = |t: int| x(t / u) / (u as real);
    assert forall|t: int| 0 <= t < outs.len() implies #[trigger] h(t) == f(t) by {
        let a = t / u;
        let b = t % u;
        assert(0 <= a < cs.len() && 0 <= b < u) by (nonlinear_arith)
            requires
                a == t / u,
                b == t % u,
                0 <= t < cs.len() * u,
                u >= 1,
        ;
        let lines = cs[a].map_values(|y: int| pool[y]);
        assert(outs[t] == join_outcome(pool, cs[a], us[b]));
        assert(plain[a] == join_outcome(pool, cs[a], us0()));
        assert(lines.len() == 4);
        assert(initial_lines(outs[t]) =~= lines);
        assert(initial_lines(plain[a]) =~= lines);
        assert(initial_terms(outs[t], main) == initial_terms(plain[a], main));
        assert(outs[t].len() == 4 + k);
        assert(upgrade_count(outs[t].len() as int) == k);
        let y = total(initial_terms(outs[t], main));
        assert(y * ((1int as real) / (c as real)) == y / (c as real)) by (nonlinear_arith)
            requires
                c >= 1,
        ;
    }
    lemma_sum_upto_congruent(h, f, outs.len() as int);
    lemma_sum_blocks(x, u, cs.len() as int);
}

/// Probability mass of each outcome (line count, initial lines and
/// upgrades), added over the outcomes.
pub open spec fn full_mass(outs: Seq<Seq<RelicStat>>, rarity: int, main: RelicStat) -> real {
    sum_upto(|i: int| total(sub_terms(rarity, outs[i], main)), outs.len() as int)
}

/// Scaling every term by `l` and `u` scales the value of the sum by both.
proof fn lemma_total_scaled(s: Seq<(int, int)>, l: (int, int), u: (int, int))
    requires
        all_nonneg(s),
        frac_nonneg(l),
        frac_nonneg(u),
    ensures
        total(s.map_values(|f: (int, int)| frac_mul(frac_mul(l, f), u))) == value_of(l) * total(
            s,
        ) * value_of(u),
    decreases s.len(),
{
    let m = s.map_values(|f: (int, int)| frac_mul(frac_mul(l, f), u));
    if s.len() == 0 {
        assert(value_of(l) * 0real * value_of(u) == 0real) by (nonlinear_arith);
    } else {
        let p = s.drop_last();
        lemma_total_scaled(p, l, u);
        assert(m.drop_last() =~= p.map_values(|f: (int, int)| frac_mul(frac_mul(l, f), u)));
        let f = s.last();
        assert(frac_nonneg(f));
        assert(m.last() == frac_mul(frac_mul(l, f), u));
        let (l0, l1) = l;
        let (f0, f1) = f;
        let (u0, u1) = u;
        assert(((l0 * f0) * u0) as real / ((l1 * f1) * u1) as real == (l0 as real / l1 as real) * (
        f0 as real / f1 as real) * (u0 as real / u1 as real)) by (nonlinear_arith)
            requires
                l1 > 0,
                f1 > 0,
                u1 > 0,
        ;
        let t = total(p);
        assert(value_of(l) * t * value_of(u) + value_of(l) * value_of(f) * value_of(u) == value_of(l)
            * (t + value_of(f)) * value_of(u)) by (nonlinear_arith);
    }
}

/// The full mass over `a + b` is that over `a` plus that over `b`.
proof fn lemma_full_mass_concat(
    a: Seq<Seq<RelicStat>>,
    b: Seq<Seq<RelicStat>>,
    rarity: int,
    main: RelicStat,
)
    ensures
        full_mass(a + b, rarity, main) == full_mass(a, rarity, main) + full_mass(b, rarity, main),
{
    let f = |i: int| total(sub_terms(rarity, (a + b)[i], main));
    let fa = |i: int| total(sub_terms(rarity, a[i], main));
    let fb = |i: int| total(sub_terms(rarity, b[i], main));
    let shifted = |j: int| f(a.len() + j);
    lemma_sum_upto_split(f, a.len() as int, b.len() as int);
    lemma_sum_upto_congruent(f, fa, a.len() as int);
    assert forall|j: int| 0 <= j < b.len() implies #[trigger] shifted(j) == fb(j) by {
        assert((a + b)[a.len() + j] == b[j]);
    }
    lemma_sum_upto_congruent(shifted, fb, b.len() as int);
}

/// Over outcomes that all have `len` lines, the full mass is the line-count
/// probability times the initial-and-upgrade mass.
proof fn lemma_full_mass_of_equal_lengths(
    outs: Seq<Seq<RelicStat>>,
    rarity: int,
    main: RelicStat,
    len: int,
)
    requires
        forall|i: int| 0 <= i < outs.len() ==> (#[trigger] outs[i]).len() == len,
    ensures
        full_mass(outs, rarity, main) == value_of(line_frac(rarity, len)) * upgraded_mass(
            outs,
            main,
        ),
    decreases outs.len(),
{
    let l = line_frac(rarity, len);
    let u = upgrade_frac(upgrade_count(len));
    lemma_binomial_four_bins(upgrade_count(len));
    let g = |i: int| total(sub_terms(rarity, outs[i], main));
    let h = |i: int|
        total(initial_terms(outs[i], main)) * value_of(
            upgrade_frac(upgrade_count(outs[i].len() as int)),
        );
    let vl = value_of(l);
    let lh = |i: int| vl * h(i);
    assert forall|i: int| 0 <= i < outs.len() implies #[trigger] g(i) == lh(i) by {
        lemma_initial_terms_nonneg(outs[i], main);
        lemma_total_scaled(initial_terms(outs[i], main), l, u);
        assert(sub_terms(rarity, outs[i], main) == initial_terms(outs[i], main).map_values(
            |f: (int, int)| frac_mul(frac_mul(l, f), u),
        ));
        let t = total(initial_terms(outs[i], main));
        assert(vl * t * value_of(u) == vl * (t * value_of(u))) by (nonlinear_arith);
    }
    lemma_sum_upto_congruent(g, lh, outs.len() as int);
    lemma_sum_upto_scaled(h, vl, outs.len() as int);
}

proof fn lemma_sum_upto_scaled(h: spec_fn(int) -> real, c: real, n: int)
    ensures
        sum_upto(|i: int| c * h(i), n) == c * sum_upto(h, n),
    decreases n,
{
    if n > 0 {
        lemma_sum_upto_scaled(h, c, n - 1);
        assert(c * sum_upto(h, n - 1) + c * h(n - 1) == c * (sum_upto(h, n - 1) + h(n - 1)))
            by (nonlinear_arith);
    } else {
        assert(c * 0real == 0real) by (nonlinear_arith);
    }
}

/// From rarity 3 on, where every outcome fills out four lines, the line
/// count, initial-line and upgrade probabilities over the whole enumeration
/// add up to the initial-line mass of the four-line combinations: the
/// 1/5 and 4/5 line-count split loses no mass.
pub proof fn lemma_full_mass_is_initial_mass(main: RelicStat, rarity: int)
    requires
        3 <= rarity,
    ensures
        full_mass(relic_outcomes(main, rarity), rarity, main) == initial_mass(
            outcomes_with(main, 4, 0),
            main,
        ),
{
    let fewer = outcomes_with(main, rarity - 2, rarity);
    let more = outcomes_with(main, rarity - 1, rarity);
    let ka = 2 * rarity - 6;
    let kb = 2 * rarity - 5;
    assert(fewer == outcomes_with(main, 4, ka));
    assert(more == outcomes_with(main, 4, kb));
    assert(relic_outcomes(main, rarity) == fewer + more);
    lemma_outcome_lengths(main, ka);
    lemma_outcome_lengths(main, kb);
    lemma_full_mass_of_equal_lengths(fewer, rarity, main, 4 + ka);
    lemma_full_mass_of_equal_lengths(more, rarity, main, 4 + kb);
    lemma_upgrades_keep_initial_mass(main, ka);
    lemma_upgrades_keep_initial_mass(main, kb);
    lemma_full_mass_concat(fewer, more, rarity, main);
    let m0 = initial_mass(outcomes_with(main, 4, 0), main);
    assert(line_frac(rarity, 4 + ka) == (4int, 5int));
    assert(line_frac(rarity, 4 + kb) == (1int, 5int));
    assert((4 as real / 5 as real) * m0 + (1 as real / 5 as real) * m0 == m0) by (nonlinear_arith);
}

/// Every outcome with four initial lines and `k` upgrades has `4 + k` lines.
proof fn lemma_outcome_lengths(main: RelicStat, k: int)
    requires
        0 <= k,
    ensures
        forall|i: int|
            0 <= i < outcomes_with(main, 4, k).len() ==> (#[trigger] outcomes_with(
                main,
                4,
                k,
            )[i]).len() == 4 + k,
{
    let pool = pool_without(main);
    let cs = combs_from(0, pool.len() as int, 4);
    let us = multisets_from(0, 4, k);
    lemma_combs_shape(0, pool.len() as int, 4);
    lemma_multisets_shape(0, 4, k);
    lemma_multisets_len(0, 4, k);
    lemma_binomial_four_bins(k);
    let outs = outcomes_with(main, 4, k);
    assert forall|i: int| 0 <= i < outs.len() implies (#[trigger] outs[i]).len() == 4 + k by {
        let u = us.len() as int;
        assert(0 <= i / u < cs.len() && 0 <= i % u < u) by (nonlinear_arith)
            requires
                0 <= i < cs.len() * u,
                u >= 1,
        ;
    }
}

/// For every main stat and every `k` up to four, the probabilities of all
/// `k`-line initial combinations of the pool (each summed over its
/// orderings) add up to 1.
pub proof fn lemma_initial_lines_sum_to_one(main: RelicStat, k: int)
    requires
        0 <= k <= 4,
    ensures
        initial_mass(outcomes_with(main, k, 0), main) == 1real,
{
    let pool = pool_without(main);
    let n = pool.len() as int;
    let r = pool_weight(main);
    lemma_pool_weight(main);
    let cs = combs_from(0, n, k);
    let plain = outcomes_with(main, k, 0);
    lemma_combs_shape(0, n, k);
    assert(multisets_from(0, 4, 0) == seq![Seq::<int>::empty()]);
    assert(crate::outcomes::fill_initial(k, 0) == k);
    assert(crate::outcomes::fill_upgrades(k, 0) == 0);
    assert(cs.len() * 1 == cs.len());
    assert(plain.len() == cs.len());
    let by_outcome = |i: int| total(initial_terms(plain[i], main));
    let by_set = |i: int| (|c: Seq<int>| set_value(pool, c, r))(cs[i]);
    assert forall|i: int| 0 <= i < cs.len() implies #[trigger] by_outcome(i) == by_set(i) by {
        let c = cs[i];
        assert(i / 1 == i && i % 1 == 0);
        assert(plain[i] == join_outcome(pool, c, us0()));
        assert(plain[i] =~= c.map_values(|j: int| pool[j]));
        lemma_initial_terms_value(pool, c, main);
    }
    lemma_sum_upto_is_sum_range(by_outcome, cs.len() as int);
    lemma_sum_range_congruent(by_outcome, by_set, 0, cs.len() as int);
    lemma_combs_from_is_combs_of(0, n, k);
    lemma_subsets_certain(pool, range_from(0, n), k, r);
}

/// For every main stat and every number `k` of upgrades, initial-line
/// probability times upgrade probability, over all outcomes with four
/// initial lines and `k` upgrades, adds up to 1.
pub proof fn lemma_initial_and_upgrades_sum_to_one(main: RelicStat, k: int)
    requires
        0 <= k,
    ensures
        upgraded_mass(outcomes_with(main, 4, k), main) == 1real,
{
    lemma_upgrades_keep_initial_mass(main, k);
    lemma_initial_lines_sum_to_one(main, 4);
}

/// From rarity 2 on, line-count, initial-line and upgrade probability over
/// the whole enumeration add up to 1. (Below rarity 2 every outcome has the
/// maximum line count, so only the 1/5 branch occurs.)
pub proof fn lemma_full_enumeration_sums_to_one(main: RelicStat, rarity: int)
    requires
        2 <= rarity,
    ensures
        full_mass(relic_outcomes(main, rarity), rarity, main) == 1real,
{
    if rarity >= 3 {
        lemma_full_mass_is_initial_mass(main, rarity);
        lemma_initial_lines_sum_to_one(main, 4);
    } else {
        // no line is rolled twice: two lines (4/5) or three lines (1/5)
        let two = outcomes_with(main, 0, 2);
        let three = outcomes_with(main, 1, 2);
        assert(two == outcomes_with(main, 2, 0));
        assert(three == outcomes_with(main, 3, 0));
        assert(relic_outcomes(main, 2) == two + three);
        lemma_short_outcome_lengths(main, 2);
        lemma_short_outcome_lengths(main, 3);
        lemma_full_mass_of_equal_lengths(two, 2, main, 2);
        lemma_full_mass_of_equal_lengths(three, 2, main, 3);
        lemma_upgraded_is_initial_without_upgrades(two, main);
        lemma_upgraded_is_initial_without_upgrades(three, main);
        lemma_initial_lines_sum_to_one(main, 2);
        lemma_initial_lines_sum_to_one(main, 3);
        lemma_full_mass_concat(two, three, 2, main);
        assert(line_frac(2, 2) == (4int, 5int));
        assert(line_frac(2, 3) == (1int, 5int));
        assert((4 as real / 5 as real) * 1real + (1 as real / 5 as real) * 1real == 1real)
            by (nonlinear_arith);
    }
}

/// Every outcome with `k` initial lines and no upgrade has `k` lines.
proof fn lemma_short_outcome_lengths(main: RelicStat, k: int)
    requires
        0 <= k <= 4,
    ensures
        forall|i: int|
            0 <= i < outcomes_with(main, k, 0).len() ==> (#[trigger] outcomes_with(
                main,
                k,
                0,
            )[i]).len() == k,
{
    let pool = pool_without(main);
    let cs = combs_from(0, pool.len() as int, k);
    lemma_combs_shape(0, pool.len() as int, k);
    assert(multisets_from(0, 4, 0) == seq![Seq::<int>::empty()]);
    assert(crate::outcomes::fill_initial(k, 0) == k);
    assert(crate::outcomes::fill_upgrades(k, 0) == 0);
    let outs = outcomes_with(main, k, 0);
    assert forall|i: int| 0 <= i < outs.len() implies (#[trigger] outs[i]).len() == k by {
        assert(cs.len() * 1 == cs.len());
        assert(i / 1 == i && i % 1 == 0);
        assert(outs[i] == join_outcome(pool, cs[i], us0()));
    }
}

/// Over outcomes of at most four lines the upgrade probability is 1.
proof fn lemma_upgraded_is_initial_without_upgrades(outs: Seq<Seq<RelicStat>>, main: RelicStat)
    requires
        forall|i: int| 0 <= i < outs.len() ==> (#[trigger] outs[i]).len() <= 4,
    ensures
        upgraded_mass(outs, main) == initial_mass(outs, main),
{
    let h = |i: int|
        total(initial_terms(outs[i], main)) * value_of(
            upgrade_frac(upgrade_count(outs[i].len() as int)),
        );
    let g = |i: int| total(initial_terms(outs[i], main));
    assert forall|i: int| 0 <= i < outs.len() implies #[trigger] h(i) == g(i) by {
        assert(upgrade_count(outs[i].len() as int) == 0);
        assert(binomial(3, 0) == 1);
        assert(upgrade_frac(0) == (1int, 1int));
        assert(1int as real / 1int as real == 1real);
        assert(value_of((1int, 1int)) == 1real);
        let t = total(initial_terms(outs[i], main));
        assert(t * 1real == t);
    }
    lemma_sum_upto_congruent(h, g, outs.len() as int);
}

/// Every stat, in declaration order.
pub open spec fn all_stats() -> Seq<RelicStat> {
    seq![
        RelicStat::Hp,
        RelicStat::Atk,
        RelicStat::Def,
        RelicStat::HpPercent,
        RelicStat::AtkPercent,
        RelicStat::DefPercent,
        RelicStat::Spd,
        RelicStat::CritRate,
        RelicStat::CritDmg,
        RelicStat::EffectHitRate,
        RelicStat::EffectRes,
        RelicStat::BreakEffect,
        RelicStat::EnergyRegenRate,
        RelicStat::HealingBoost,
        RelicStat::PhysDmgBoost,
        RelicStat::FireDmgBoost,
        RelicStat::IceDmgBoost,
        RelicStat::WindDmgBoost,
        RelicStat::LightningDmgBoost,
        RelicStat::QuantumDmgBoost,
        RelicStat::ImaginaryDmgBoost,
    ]
}

/// In each slot whose main stat is drawn, the main-stat probabilities of
/// all stats add up to 1.
pub proof fn lemma_main_stat_table_sums_to_one(slot: RelicSlot)
    requires
        slot != RelicSlot::Head,
        slot != RelicSlot::Hands,
    ensures
        total(all_stats().map_values(|s: RelicStat| main_stat_frac(slot, s))) == 1real,
{
    let fs = all_stats().map_values(|s: RelicStat| main_stat_frac(slot, s));
    let expected = match slot {
        RelicSlot::Body => seq![
            (0int, 1int), (0, 1), (0, 1), (1, 5), (1, 5), (1, 5), (0, 1), (1, 10), (1, 10),
            (1, 10), (0, 1), (0, 1), (0, 1), (1, 10), (0, 1), (0, 1), (0, 1), (0, 1), (0, 1),
            (0, 1), (0, 1),
        ],
        RelicSlot::Feet => seq![
            (0int, 1int), (0, 1), (0, 1), (3, 10), (3, 10), (3, 10), (1, 10), (0, 1), (0, 1),
            (0, 1), (0, 1), (0, 1), (0, 1), (0, 1), (0, 1), (0, 1), (0, 1), (0, 1), (0, 1),
            (0, 1), (0, 1),
        ],
        RelicSlot::Orb => seq![
            (0int, 1int), (0, 1), (0, 1), (7, 60), (7, 60), (7, 60), (0, 1), (0, 1), (0, 1),
            (0, 1), (0, 1), (0, 1), (0, 1), (0, 1), (13, 140), (13, 140), (13, 140), (13, 140),
            (13, 140), (13, 140), (13, 140),
        ],
        _ => seq![
            (0int, 1int), (0, 1), (0, 1), (4, 15), (4, 15), (4, 15), (0, 1), (0, 1), (0, 1),
            (0, 1), (0, 1), (3, 20), (1, 20), (0, 1), (0, 1), (0, 1), (0, 1), (0, 1), (0, 1),
            (0, 1), (0, 1),
        ],
    };
    assert(fs =~= expected);
    assert(fs.take(0) =~= Seq::<(int, int)>::empty());
    lemma_total_take(fs, 0);
    lemma_total_take(fs, 1);
    lemma_total_take(fs, 2);
    lemma_total_take(fs, 3);
    lemma_total_take(fs, 4);
    lemma_total_take(fs, 5);
    lemma_total_take(fs, 6);
    lemma_total_take(fs, 7);
    lemma_total_take(fs, 8);
    lemma_total_take(fs, 9);
    lemma_total_take(fs, 10);
    lemma_total_take(fs, 11);
    lemma_total_take(fs, 12);
    lemma_total_take(fs, 13);
    lemma_total_take(fs, 14);
    lemma_total_take(fs, 15);
    lemma_total_take(fs, 16);
    lemma_total_take(fs, 17);
    lemma_total_take(fs, 18);
    lemma_total_take(fs, 19);
    lemma_total_take(fs, 20);
    assert(fs.take(21) =~= fs);
    assert(0int as real / 1int as real == 0real) by (nonlinear_arith);
    assert(value_of((0, 1)) == 0real);
    assert(value_of((1, 5)) == 1real / 5real);
    assert(value_of((1, 10)) == 1real / 10real);
    assert(value_of((3, 10)) == 3real / 10real);
    assert(value_of((7, 60)) == 7real / 60real);
    assert(value_of((13, 140)) == 13real / 140real);
    assert(value_of((4, 15)) == 4real / 15real);
    assert(value_of((3, 20)) == 3real / 20real);
    assert(value_of((1, 20)) == 1real / 20real);
}

proof fn lemma_total_push(s: Seq<(int, int)>, x: (int, int))
    ensures
        total(s.push(x)) == total(s) + value_of(x),
{
    assert(s.push(x).drop_last() =~= s);
}

proof fn lemma_total_take(s: Seq<(int, int)>, i: int)
    requires
        0 <= i < s.len(),
    ensures
        total(s.take(i + 1)) == total(s.take(i)) + value_of(s[i]),
{
    assert(s.take(i + 1) =~= s.take(i).push(s[i]));
    lemma_total_push(s.take(i), s[i]);
}

spec fn us0() -> Seq<int> {
    multisets_from(0, 4, 0)[0]
}

} // verus!
