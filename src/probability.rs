//! Conditional substat probability: the mass of the outcomes that a filter accepts.
use vstd::prelude::*;

use crate::outcomes::{relic_outcomes, SubstatIterator};
use crate::ratio::{fracs, frac_mul, Ratio};
use crate::relic::{
    main_stat_frac, max_lines, set_frac, slot_frac, sub_terms, Relic, TERM_DEN_BOUND,
};
use crate::stat::{copy_stats, RelicSlot, RelicStat};

verus! {

/// A quality predicate over relics.
pub trait RelicFilter {
    /// Whether the filter accepts a relic with these fields.
    spec fn accepts(&self, rarity: usize, slot: RelicSlot, main: RelicStat, subs: Seq<RelicStat>) -> bool;

    fn matches(&self, relic: &Relic) -> (r: bool)
        ensures
            r == self.accepts(relic.rarity, relic.slot, relic.main, relic.subs@),
    ;
}

/// The terms of every outcome of `outs` that the filter accepts, outcome by outcome.
pub open spec fn masked_terms<F: RelicFilter>(
    filter: F,
    rarity: usize,
    slot: RelicSlot,
    main: RelicStat,
    outs: Seq<Seq<RelicStat>>,
) -> Seq<(int, int)>
    decreases outs.len(),
{
    if outs.len() == 0 {
        Seq::empty()
    } else {
        let before = masked_terms(filter, rarity, slot, main, outs.drop_last());
        if filter.accepts(rarity, slot, main, outs.last()) {
            before + sub_terms(rarity as int, outs.last(), main)
        } else {
            before
        }
    }
}

/// The terms of every outcome of `outs`, outcome by outcome.
pub open spec fn all_terms(rarity: usize, main: RelicStat, outs: Seq<Seq<RelicStat>>) -> Seq<
    (int, int),
>
    decreases outs.len(),
{
    if outs.len() == 0 {
        Seq::empty()
    } else {
        all_terms(rarity, main, outs.drop_last()) + sub_terms(rarity as int, outs.last(), main)
    }
}

/// The substat terms of a relic query whose outcomes pass the filter.
pub open spec fn filtered_terms<F: RelicFilter>(
    filter: F,
    rarity: usize,
    slot: RelicSlot,
    main: RelicStat,
) -> Seq<(int, int)> {
    masked_terms(filter, rarity, slot, main, relic_outcomes(main, rarity as int))
}

/// The terms of every outcome of `outs` whose verdict in `accepted` (same
/// position) is true, outcome by outcome.
pub open spec fn selected_terms(
    rarity: usize,
    main: RelicStat,
    outs: Seq<Seq<RelicStat>>,
    accepted: Seq<bool>,
) -> Seq<(int, int)>
    decreases outs.len(),
{
    if outs.len() == 0 {
        Seq::empty()
    } else {
        let before = selected_terms(rarity, main, outs.drop_last(), accepted);
        if accepted[outs.len() - 1] {
            before + sub_terms(rarity as int, outs.last(), main)
        } else {
            before
        }
    }
}

/// Selecting by a filter's verdicts is filtering by it.
pub proof fn lemma_selected_by_verdicts<F: RelicFilter>(
    filter: F,
    rarity: usize,
    slot: RelicSlot,
    main: RelicStat,
    outs: Seq<Seq<RelicStat>>,
    accepted: Seq<bool>,
)
    requires
        outs.len() <= accepted.len(),
        forall|i: int|
            0 <= i < outs.len() ==> accepted[i] == filter.accepts(rarity, slot, main, #[trigger] outs[i]),
    ensures
        selected_terms(rarity, main, outs, accepted) == masked_terms(filter, rarity, slot, main, outs),
    decreases outs.len(),
{
    if outs.len() > 0 {
        let p = outs.drop_last();
        assert forall|i: int| 0 <= i < p.len() implies accepted[i] == filter.accepts(
            rarity,
            slot,
            main,
            #[trigger] p[i],
        ) by {
            assert(p[i] == outs[i]);
        }
        lemma_selected_by_verdicts(filter, rarity, slot, main, p, accepted);
        assert(outs.last() == outs[outs.len() - 1]);
    }
}

impl Relic {
    /// The probability, as a sum of the returned fractions, that a relic with
    /// this rarity and main stat rolls substats that the filter accepts.
    pub fn filtered_p_sub<F: RelicFilter>(&self, filter: &F) -> (r: Vec<Ratio>)
        requires
            self.rarity <= 5,
        ensures
            fracs(r@) == filtered_terms(*filter, self.rarity, self.slot, self.main),
            forall|t: int|
                0 <= t < r@.len() ==> 1 <= (#[trigger] r@[t]).den <= TERM_DEN_BOUND && r@[t].num
                    <= 40_000,
    {
        let outs = SubstatIterator::new_from_relic(self);
        let ghost all = relic_outcomes(self.main, self.rarity as int);
        let mut accepted: Vec<bool> = Vec::new();
        let mut t: usize = 0;
        while t < outs.0.len()
            invariant
                t <= outs.0@.len(),
                outs.outcomes() == all,
                accepted@.len() == t,
                forall|q: int|
                    0 <= q < t ==> accepted@[q] == filter.accepts(
                        self.rarity,
                        self.slot,
                        self.main,
                        #[trigger] all[q],
                    ),
            decreases outs.0@.len() - t,
        {
            let candidate = self.copy_with_new_subs(copy_stats(&outs.0[t]));
            accepted.push(filter.matches(&candidate));
            t = t + 1;
        }
        proof {
            lemma_selected_by_verdicts(*filter, self.rarity, self.slot, self.main, all, accepted@);
        }
        self.terms_of_selected(&outs, &accepted)
    }

    /// The probability, as a sum of the returned fractions, of the outcomes
    /// of `SubstatIterator::new_from_relic(self)` whose verdict at the same
    /// position in `accepted` is true.
    pub fn selected_p_sub(&self, accepted: &Vec<bool>) -> (r: Vec<Ratio>)
        requires
            self.rarity <= 5,
            accepted@.len() == relic_outcomes(self.main, self.rarity as int).len(),
        ensures
            fracs(r@) == selected_terms(
                self.rarity,
                self.main,
                relic_outcomes(self.main, self.rarity as int),
                accepted@,
            ),
            forall|t: int|
                0 <= t < r@.len() ==> 1 <= (#[trigger] r@[t]).den <= TERM_DEN_BOUND && r@[t].num
                    <= 40_000,
    {
        let outs = SubstatIterator::new_from_relic(self);
        self.terms_of_selected(&outs, accepted)
    }

    fn terms_of_selected(&self, outs: &SubstatIterator, accepted: &Vec<bool>) -> (r: Vec<Ratio>)
        requires
            self.rarity <= 5,
            outs.outcomes() == relic_outcomes(self.main, self.rarity as int),
            forall|q: int|
                0 <= q < outs.outcomes().len() ==> (#[trigger] outs.outcomes()[q]).len()
                    <= max_lines(self.rarity as int),
            accepted@.len() == outs.outcomes().len(),
        ensures
            fracs(r@) == selected_terms(self.rarity, self.main, outs.outcomes(), accepted@),
            forall|t: int|
                0 <= t < r@.len() ==> 1 <= (#[trigger] r@[t]).den <= TERM_DEN_BOUND && r@[t].num
                    <= 40_000,
    {
        let ghost all = outs.outcomes();
        let mut r: Vec<Ratio> = Vec::new();
        let mut t: usize = 0;
        while t < outs.0.len()
            invariant
                t <= outs.0@.len(),
                outs.outcomes() == all,
                accepted@.len() == all.len(),
                forall|q: int|
                    0 <= q < outs.outcomes().len() ==> (#[trigger] outs.outcomes()[q]).len()
                        <= max_lines(self.rarity as int),
                self.rarity <= 5,
                fracs(r@) == selected_terms(self.rarity, self.main, all.take(t as int), accepted@),
                forall|q: int|
                    0 <= q < r@.len() ==> 1 <= (#[trigger] r@[q]).den <= TERM_DEN_BOUND
                        && r@[q].num <= 40_000,
            decreases outs.0@.len() - t,
        {
            assert(all.take(t + 1).drop_last() =~= all.take(t as int));
            assert(all.take(t + 1).last() == all[t as int]);
            if accepted[t] {
                let candidate = self.copy_with_new_subs(copy_stats(&outs.0[t]));
                let mut terms = candidate.p_sub();
                let ghost before = r@;
                r.append(&mut terms);
                assert(fracs(r@) =~= fracs(before) + sub_terms(
                    self.rarity as int,
                    all[t as int],
                    self.main,
                ));
            }
            t = t + 1;
        }
        assert(all.take(t as int) =~= all);
        r
    }
}

/// Accepts every relic.
pub struct AnyRelic;

impl RelicFilter for AnyRelic {
    open spec fn accepts(
        &self,
        rarity: usize,
        slot: RelicSlot,
        main: RelicStat,
        subs: Seq<RelicStat>,
    ) -> bool {
        true
    }

    fn matches(&self, relic: &Relic) -> (r: bool) {
        true
    }
}

/// How many lines of `subs` hold one of `stats`.
pub open spec fn count_lines_in(subs: Seq<RelicStat>, stats: Seq<RelicStat>) -> int
    decreases subs.len(),
{
    if subs.len() == 0 {
        0
    } else {
        count_lines_in(subs.drop_last(), stats) + if stats.contains(subs.last()) {
            1int
        } else {
            0
        }
    }
}

/// Accepts a relic with at least `n` lines (rolls counted) drawn from `stats`.
pub struct AtLeastLines {
    pub stats: Vec<RelicStat>,
    pub n: usize,
}

impl RelicFilter for AtLeastLines {
    open spec fn accepts(
        &self,
        rarity: usize,
        slot: RelicSlot,
        main: RelicStat,
        subs: Seq<RelicStat>,
    ) -> bool {
        count_lines_in(subs, self.stats@) >= self.n
    }

    fn matches(&self, relic: &Relic) -> (r: bool) {
        let mut count: usize = 0;
        let mut i: usize = 0;
        while i < relic.subs.len()
            invariant
                i <= relic.subs@.len(),
                count == count_lines_in(relic.subs@.take(i as int), self.stats@),
                count <= i,
            decreases relic.subs@.len() - i,
        {
            let s = relic.subs[i];
            let mut found = false;
            let mut j: usize = 0;
            while j < self.stats.len()
                invariant
                    j <= self.stats@.len(),
                    found == exists|k: int| 0 <= k < j && #[trigger] self.stats@[k] == s,
                decreases self.stats@.len() - j,
            {
                if self.stats[j] == s {
                    found = true;
                }
                j = j + 1;
            }
            assert(found == self.stats@.contains(s));
            assert(relic.subs@.take(i + 1).drop_last() =~= relic.subs@.take(i as int));
            assert(relic.subs@.take(i + 1).last() == s);
            if found {
                count = count + 1;
            }
            i = i + 1;
        }
        assert(relic.subs@.take(i as int) =~= relic.subs@);
        count >= self.n
    }
}

/// Which main-stat factors a conditional probability folds in.
#[derive(Clone, Copy, Debug)]
pub struct ConditionalRelicProbabilityCalculator {
    pub consider_set: bool,
    pub consider_slot: bool,
    pub consider_main: bool,
}

impl ConditionalRelicProbabilityCalculator {
    /// The product of the selected main-stat factors; 1 when none is selected.
    pub open spec fn factor(&self, slot: RelicSlot, main: RelicStat) -> (int, int) {
        let a = if self.consider_set {
            frac_mul((1, 1), set_frac())
        } else {
            (1, 1)
        };
        let b = if self.consider_slot {
            frac_mul(a, slot_frac(slot))
        } else {
            a
        };
        if self.consider_main {
            frac_mul(b, main_stat_frac(slot, main))
        } else {
            b
        }
    }

    pub fn new() -> (r: Self)
        ensures
            !r.consider_set,
            !r.consider_slot,
            !r.consider_main,
    {
        ConditionalRelicProbabilityCalculator {
            consider_set: false,
            consider_slot: false,
            consider_main: false,
        }
    }

    pub fn consider_set(self) -> (r: Self)
        ensures
            r.consider_set,
            r.consider_slot == self.consider_slot,
            r.consider_main == self.consider_main,
    {
        ConditionalRelicProbabilityCalculator { consider_set: true, ..self }
    }

    pub fn consider_slot(self) -> (r: Self)
        ensures
            r.consider_set == self.consider_set,
            r.consider_slot,
            r.consider_main == self.consider_main,
    {
        ConditionalRelicProbabilityCalculator { consider_slot: true, ..self }
    }

    pub fn consider_main(self) -> (r: Self)
        ensures
            r.consider_set == self.consider_set,
            r.consider_slot == self.consider_slot,
            r.consider_main,
    {
        ConditionalRelicProbabilityCalculator { consider_main: true, ..self }
    }

    /// The selected main-stat factors of a relic, multiplied together.
    fn main_factor(&self, relic: &Relic) -> (r: Ratio)
        ensures
            r.frac() == self.factor(relic.slot, relic.main),
            r.num <= 13,
            1 <= r.den <= 1120,
    {
        let mut r = Ratio { num: 1, den: 1 };
        if self.consider_set {
            let f = relic.p_main_set();
            r = Ratio { num: r.num * f.num, den: r.den * f.den };
        }
        if self.consider_slot {
            let f = relic.p_main_slot();
            r = Ratio { num: r.num * f.num, den: r.den * f.den };
        }
        if self.consider_main {
            let f = relic.p_main_stat();
            r = Ratio { num: r.num * f.num, den: r.den * f.den };
        }
        r
    }

    /// The probability, as a sum of the returned fractions, that a relic like
    /// this one has substats that the filter accepts, times the selected
    /// main-stat factors.
    pub fn calculate_for_relic<F: RelicFilter>(&self, relic: &Relic, filter: &F) -> (r: Vec<Ratio>)
        requires
            relic.rarity <= 5,
        ensures
            fracs(r@) == filtered_terms(*filter, relic.rarity, relic.slot, relic.main).map_values(
                |f: (int, int)| frac_mul(f, self.factor(relic.slot, relic.main)),
            ),
    {
        let p = relic.filtered_p_sub(filter);
        scale_terms(&p, self.main_factor(relic))
    }

    /// As `calculate_for_relic`, with the filter's verdict on each outcome of
    /// `SubstatIterator::new_from_relic(relic)` given at the same position of `accepted`.
    pub fn calculate_for_selection(&self, relic: &Relic, accepted: &Vec<bool>) -> (r: Vec<Ratio>)
        requires
            relic.rarity <= 5,
            accepted@.len() == relic_outcomes(relic.main, relic.rarity as int).len(),
        ensures
            fracs(r@) == selected_terms(
                relic.rarity,
                relic.main,
                relic_outcomes(relic.main, relic.rarity as int),
                accepted@,
            ).map_values(|f: (int, int)| frac_mul(f, self.factor(relic.slot, relic.main))),
    {
        let p = relic.selected_p_sub(accepted);
        scale_terms(&p, self.main_factor(relic))
    }
}

/// Each term multiplied by `factor`.
fn scale_terms(p: &Vec<Ratio>, factor: Ratio) -> (r: Vec<Ratio>)
    requires
        forall|q: int|
            0 <= q < p@.len() ==> 1 <= (#[trigger] p@[q]).den <= TERM_DEN_BOUND && p@[q].num
                <= 40_000,
        factor.num <= 13,
        1 <= factor.den <= 1120,
    ensures
        fracs(r@) == fracs(p@).map_values(|f: (int, int)| frac_mul(f, factor.frac())),
{
    let ghost terms = fracs(p@).map_values(|f: (int, int)| frac_mul(f, factor.frac()));
    let mut r: Vec<Ratio> = Vec::new();
    let mut t: usize = 0;
    while t < p.len()
        invariant
            t <= p@.len(),
            forall|q: int|
                0 <= q < p@.len() ==> 1 <= (#[trigger] p@[q]).den <= TERM_DEN_BOUND && p@[q].num
                    <= 40_000,
            factor.num <= 13,
            1 <= factor.den <= 1120,
            terms == fracs(p@).map_values(|f: (int, int)| frac_mul(f, factor.frac())),
            r@.len() == t,
            fracs(r@) == terms.take(t as int),
        decreases p@.len() - t,
    {
        let f = p[t];
        assert(f.num * factor.num <= 40_000 * 13) by (nonlinear_arith)
            requires
                f.num <= 40_000,
                factor.num <= 13,
        ;
        assert(f.den * factor.den <= TERM_DEN_BOUND * 1120) by (nonlinear_arith)
            requires
                f.den <= TERM_DEN_BOUND,
                factor.den <= 1120,
        ;
        let term = Ratio { num: f.num * factor.num, den: f.den * factor.den };
        let ghost before = r@;
        r.push(term);
        assert(r@ == before.push(term));
        assert(fracs(r@) =~= terms.take(t + 1));
        t = t + 1;
    }
    assert(fracs(r@) =~= terms);
    r
}

} // verus!
