//! Enumeration of every way a relic's substats can roll.
use vstd::prelude::*;

use crate::combinatorics::{
    combs_from, index_combinations, index_multisets, index_pairs, index_seqs, lemma_combs_shape,
    lemma_multisets_shape, multisets_from,
};
use crate::relic::{max_lines, Relic};
use crate::stat::{sub_stat_pool, RelicStat};

verus! {

/// The substat pool without the main stat, in declaration order.
pub open spec fn pool_without(main: RelicStat) -> Seq<RelicStat> {
    sub_stat_pool().filter(other_than(main))
}

/// Holds of every stat but `main`.
pub open spec fn other_than(main: RelicStat) -> spec_fn(RelicStat) -> bool {
    |s: RelicStat| s != main
}

/// Number of distinct lines once `initial` lines get `upgrades` rolls:
/// new lines come first, up to four.
pub open spec fn fill_initial(initial: int, upgrades: int) -> int {
    if initial + upgrades < 4 {
        initial + upgrades
    } else {
        4
    }
}

/// Rolls left for existing lines once the relic has filled out its lines.
pub open spec fn fill_upgrades(initial: int, upgrades: int) -> int {
    upgrades - (fill_initial(initial, upgrades) - initial)
}

/// The outcome of choosing the pool positions `initial` as lines and giving
/// an extra roll to the line at each position of `upgrades`.
pub open spec fn join_outcome(pool: Seq<RelicStat>, initial: Seq<int>, upgrades: Seq<int>) -> Seq<
    RelicStat,
> {
    let lines = initial.map_values(|x: int| pool[x]);
    lines + upgrades.map_values(|j: int| lines[j])
}

/// Every outcome of a relic that starts with `initial` lines and gets
/// `upgrades` rolls: the choice of lines varies slowest.
pub open spec fn outcomes_with(main: RelicStat, initial: int, upgrades: int) -> Seq<
    Seq<RelicStat>,
> {
    let pool = pool_without(main);
    let cs = combs_from(0, pool.len() as int, fill_initial(initial, upgrades));
    let us = multisets_from(0, 4, fill_upgrades(initial, upgrades));
    Seq::new(
        (cs.len() * us.len()) as nat,
        |t: int| join_outcome(pool, cs[t / us.len() as int], us[t % us.len() as int]),
    )
}

/// Most initial lines a relic of this rarity starts with.
pub open spec fn max_initial(rarity: int) -> int {
    if rarity >= 1 {
        rarity - 1
    } else {
        0
    }
}

/// Every outcome of a relic of this rarity and main stat: those that start
/// with one line fewer than the maximum, then those that start with the maximum.
pub open spec fn relic_outcomes(main: RelicStat, rarity: int) -> Seq<Seq<RelicStat>> {
    let hi = max_initial(rarity);
    if hi == 0 {
        outcomes_with(main, 0, rarity)
    } else {
        outcomes_with(main, hi - 1, rarity) + outcomes_with(main, hi, rarity)
    }
}

/// A finite, re-readable list of substat outcomes.
pub struct SubstatIterator(pub Vec<Vec<RelicStat>>);

impl SubstatIterator {
    /// The outcomes as sequences of stats.
    pub open spec fn outcomes(&self) -> Seq<Seq<RelicStat>> {
        self.0@.map_values(|v: Vec<RelicStat>| v@)
    }

    /// Number of outcomes.
    pub fn count(&self) -> (r: usize)
        ensures
            r == self.outcomes().len(),
    {
        self.0.len()
    }

    pub fn new_from_relic(relic: &Relic) -> (r: SubstatIterator)
        requires
            relic.rarity <= 5,
        ensures
            r.outcomes() == relic_outcomes(relic.main, relic.rarity as int),
            forall|t: int|
                0 <= t < r.outcomes().len() ==> (#[trigger] r.outcomes()[t]).len() <= max_lines(
                    relic.rarity as int,
                ),
    {
        // a relic of rarity 5 starts with either 3 or 4 lines
        let max_initial: usize = if relic.rarity >= 1 {
            relic.rarity - 1
        } else {
            0
        };
        if max_initial == 0 {
            Self::with_params(relic.main, 0, relic.rarity)
        } else {
            let fewer = Self::with_params(relic.main, max_initial - 1, relic.rarity);
            let full = Self::with_params(relic.main, max_initial, relic.rarity);
            let ghost fa = fewer.outcomes();
            let ghost fb = full.outcomes();
            let mut all = fewer.0;
            let mut rest = full.0;
            all.append(&mut rest);
            let r = SubstatIterator(all);
            assert(r.outcomes() =~= relic_outcomes(relic.main, relic.rarity as int));
            assert forall|t: int| 0 <= t < r.outcomes().len() implies (
            #[trigger] r.outcomes()[t]).len() <= max_lines(relic.rarity as int) by {
                if t < fa.len() {
                    assert(r.outcomes()[t] == fa[t]);
                } else {
                    assert(r.outcomes()[t] == fb[t - fa.len()]);
                }
            }
            r
        }
    }

    pub fn with_params(main: RelicStat, initial: usize, num_upgrades: usize) -> (r:
        SubstatIterator)
        requires
            initial <= 4,
            initial + num_upgrades <= usize::MAX,
        ensures
            r.outcomes() == outcomes_with(main, initial as int, num_upgrades as int),
            forall|t: int|
                0 <= t < r.outcomes().len() ==> (#[trigger] r.outcomes()[t]).len() == initial
                    + num_upgrades,
    {
        let fill_initial: usize = if initial + num_upgrades < 4 {
            initial + num_upgrades
        } else {
            4
        };
        let fill_upgrades: usize = num_upgrades - (fill_initial - initial);
        let pool = pool_without_main(main);
        let combos = index_combinations(pool.len(), fill_initial);
        let ups = index_multisets(4, fill_upgrades);
        let pairs = index_pairs(combos.len(), ups.len());
        let ghost cs = combs_from(0, pool@.len() as int, fill_initial as int);
        let ghost us = multisets_from(0, 4, fill_upgrades as int);
        let ghost spec_all = outcomes_with(main, initial as int, num_upgrades as int);
        proof {
            lemma_combs_shape(0, pool@.len() as int, fill_initial as int);
            lemma_multisets_shape(0, 4, fill_upgrades as int);
        }
        let mut out: Vec<Vec<RelicStat>> = Vec::new();
        let mut t: usize = 0;
        while t < pairs.len()
            invariant
                t <= pairs@.len(),
                pairs@.len() == combos@.len() * ups@.len(),
                forall|q: int|
                    0 <= q < pairs@.len() ==> (#[trigger] pairs@[q]).0 as int == q / (
                    ups@.len() as int) && pairs@[q].1 as int == q % (ups@.len() as int),
                pool@ == pool_without(main),
                index_seqs(combos@) == cs,
                index_seqs(ups@) == us,
                cs == combs_from(0, pool@.len() as int, fill_initial as int),
                us == multisets_from(0, 4, fill_upgrades as int),
                fill_initial as int == crate::outcomes::fill_initial(
                    initial as int,
                    num_upgrades as int,
                ),
                fill_upgrades as int == crate::outcomes::fill_upgrades(
                    initial as int,
                    num_upgrades as int,
                ),
                fill_upgrades > 0 ==> fill_initial == 4,
                fill_initial + fill_upgrades == initial + num_upgrades,
                forall|q: int|
                    0 <= q < cs.len() ==> (#[trigger] cs[q]).len() == fill_initial && forall|
                        m: int,
                    | 0 <= m < fill_initial ==> 0 <= #[trigger] cs[q][m] < pool@.len(),
                forall|q: int|
                    0 <= q < us.len() ==> (#[trigger] us[q]).len() == fill_upgrades && forall|
                        m: int,
                    | 0 <= m < fill_upgrades ==> 0 <= #[trigger] us[q][m] < 4,
                spec_all == outcomes_with(main, initial as int, num_upgrades as int),
                out@.len() == t,
                forall|q: int| 0 <= q < t ==> (#[trigger] out@[q])@ == spec_all[q],
                forall|q: int| 0 <= q < t ==> (#[trigger] out@[q])@.len() == initial + num_upgrades,
            decreases pairs@.len() - t,
        {
            let (a, b) = pairs[t];
            proof {
                assert(0 <= a < combos@.len()) by (nonlinear_arith)
                    requires
                        a as int == t as int / (ups@.len() as int),
                        0 <= t < combos@.len() * ups@.len(),
                ;
                assert(0 <= b < ups@.len()) by (nonlinear_arith)
                    requires
                        b as int == t as int % (ups@.len() as int),
                        0 <= t < combos@.len() * ups@.len(),
                ;
            }
            let c = &combos[a];
            let u = &ups[b];
            let ghost ci = cs[a as int];
            let ghost ui = us[b as int];
            assert(ci == c@.map_values(|i: usize| i as int));
            assert(ui == u@.map_values(|i: usize| i as int));
            let ghost lines = ci.map_values(|x: int| pool@[x]);
            let mut o: Vec<RelicStat> = Vec::new();
            let mut i: usize = 0;
            while i < c.len()
                invariant
                    i <= c@.len(),
                    c@.len() == fill_initial,
                    ci == c@.map_values(|i: usize| i as int),
                    forall|m: int| 0 <= m < fill_initial ==> 0 <= #[trigger] ci[m] < pool@.len(),
                    lines == ci.map_values(|x: int| pool@[x]),
                    o@ == lines.take(i as int),
                decreases c@.len() - i,
            {
                assert(0 <= ci[i as int] < pool@.len());
                o.push(pool[c[i]]);
                assert(o@ =~= lines.take(i + 1));
                i = i + 1;
            }
            assert(o@ =~= lines);
            let ghost extra = ui.map_values(|j: int| lines[j]);
            let mut i: usize = 0;
            while i < u.len()
                invariant
                    i <= u@.len(),
                    u@.len() == fill_upgrades,
                    fill_upgrades > 0 ==> fill_initial == 4,
                    lines.len() == fill_initial,
                    ui == u@.map_values(|i: usize| i as int),
                    forall|m: int| 0 <= m < fill_upgrades ==> 0 <= #[trigger] ui[m] < 4,
                    extra == ui.map_values(|j: int| lines[j]),
                    o@ == lines + extra.take(i as int),
                decreases u@.len() - i,
            {
                assert(0 <= ui[i as int] < 4);
                let s = o[u[i]];
                o.push(s);
                assert(o@ =~= lines + extra.take(i + 1));
                i = i + 1;
            }
            assert(o@ =~= lines + extra);
            assert(o@ == spec_all[t as int]);
            out.push(o);
            t = t + 1;
        }
        let r = SubstatIterator(out);
        assert(r.outcomes() =~= spec_all);
        r
    }
}

/// The substat pool without `main`.
fn pool_without_main(main: RelicStat) -> (r: Vec<RelicStat>)
    ensures
        r@ == pool_without(main),
{
    let all = RelicStat::possible_sub_stats();
    let mut r: Vec<RelicStat> = Vec::new();
    let mut i: usize = 0;
    while i < all.len()
        invariant
            i <= all@.len(),
            all@ == sub_stat_pool(),
            r@ == all@.take(i as int).filter(other_than(main)),
        decreases all@.len() - i,
    {
        let s = all[i];
        assert(all@.take(i + 1).drop_last() =~= all@.take(i as int));
        assert(all@.take(i + 1).last() == s);
        let ghost prev = all@.take(i as int).filter(other_than(main));
        reveal(Seq::filter);
        assert(all@.take(i + 1).filter(other_than(main)) == if other_than(main)(s) {
            prev.push(s)
        } else {
            prev
        });
        if s != main {
            r.push(s);
        }
        i = i + 1;
    }
    assert(all@.take(i as int) =~= all@);
    r
}

} // verus!
