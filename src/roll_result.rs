//! Outcomes of a relic that starts with four lines, as plain stat lists.
use vstd::prelude::*;

use crate::outcomes::{outcomes_with, SubstatIterator};
use crate::ratio::{fracs, frac_mul, Ratio};
use crate::relic::{
    combine_terms, initial_ratios, initial_terms, upgrade_count, upgrade_frac, upgrade_ratio,
    MAX_LINES,
};
use crate::stat::{copy_stats, RelicStat};

verus! {

/// The substat lines of one outcome, in roll order.
pub struct RollResult(pub Vec<RelicStat>);

/// Probability of the line count of a full-rarity outcome: 1/5 with nine lines, 4/5 otherwise.
pub open spec fn roll_line_frac(len: int) -> (int, int) {
    if len == 9 {
        (1, 5)
    } else {
        (4, 5)
    }
}

/// The terms whose sum is the probability of an outcome of a full-rarity relic.
pub open spec fn roll_terms(subs: Seq<RelicStat>, main: RelicStat) -> Seq<(int, int)> {
    initial_terms(subs, main).map_values(
        |f: (int, int)|
            frac_mul(
                frac_mul(roll_line_frac(subs.len() as int), f),
                upgrade_frac(upgrade_count(subs.len() as int)),
            ),
    )
}

impl RollResult {
    pub fn probability(&self, main_stat: RelicStat) -> (r: Vec<Ratio>)
        requires
            4 <= self.0@.len() <= MAX_LINES,
        ensures
            fracs(r@) == roll_terms(self.0@, main_stat),
    {
        let line = self.line_probability();
        let up = upgrade_ratio(self.0.len());
        let initial = initial_ratios(&self.0, main_stat);
        let r = combine_terms(line, &initial, up);
        assert(fracs(r@) =~= roll_terms(self.0@, main_stat));
        r
    }

    pub fn line_probability(&self) -> (r: Ratio)
        ensures
            r.frac() == roll_line_frac(self.0@.len() as int),
    {
        if self.0.len() == 9 {
            Ratio { num: 1, den: 5 }
        } else {
            Ratio { num: 4, den: 5 }
        }
    }

    pub fn initial_subs_probability(&self, main_stat: RelicStat) -> (r: Vec<Ratio>)
        ensures
            fracs(r@) == initial_terms(self.0@, main_stat),
    {
        initial_ratios(&self.0, main_stat)
    }

    pub fn upgrade_probability(&self) -> (r: Ratio)
        requires
            4 <= self.0@.len() <= MAX_LINES,
        ensures
            r.frac() == upgrade_frac(self.0@.len() - 4),
    {
        upgrade_ratio(self.0.len())
    }
}

/// Every outcome of a relic that starts with four lines and gets a given number of upgrades.
pub struct RollResultIterator(pub Vec<RollResult>);

impl RollResultIterator {
    /// The outcomes as sequences of stats.
    pub open spec fn outcomes(&self) -> Seq<Seq<RelicStat>> {
        self.0@.map_values(|x: RollResult| x.0@)
    }

    /// Number of outcomes.
    pub fn count(&self) -> (r: usize)
        ensures
            r == self.outcomes().len(),
    {
        self.0.len()
    }

    pub fn new(main_stat: RelicStat, num_upgrades: usize) -> (r: RollResultIterator)
        requires
            num_upgrades <= usize::MAX - 4,
        ensures
            r.outcomes() == outcomes_with(main_stat, 4, num_upgrades as int),
            forall|t: int|
                0 <= t < r.outcomes().len() ==> (#[trigger] r.outcomes()[t]).len() == 4
                    + num_upgrades,
    {
        let all = SubstatIterator::with_params(main_stat, 4, num_upgrades);
        let mut r: Vec<RollResult> = Vec::new();
        let mut t: usize = 0;
        while t < all.0.len()
            invariant
                t <= all.0@.len(),
                r@.len() == t,
                forall|q: int| 0 <= q < t ==> (#[trigger] r@[q]).0@ == all.outcomes()[q],
            decreases all.0@.len() - t,
        {
            r.push(RollResult(copy_stats(&all.0[t])));
            t = t + 1;
        }
        let out = RollResultIterator(r);
        assert(out.outcomes() =~= all.outcomes());
        out
    }
}

} // verus!
