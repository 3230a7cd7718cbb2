//! A relic and the probability factors of its main stat and substats.
use vstd::prelude::*;

use crate::combinatorics::{
    binomial, index_orderings, index_seqs, lemma_binomial_four_bins, lemma_orderings_shape,
    orderings, range_seq,
};
use crate::ratio::{fracs, frac_mul, Ratio};
use crate::stat::{RelicSlot, RelicStat};

verus! {

/// Longest substat list whose probabilities the exact arithmetic covers;
/// a relic holds at most `2 * rarity - 1` lines.
pub const MAX_LINES: usize = 1048576;

/// Largest denominator of one term of a substat probability.
pub const TERM_DEN_BOUND: u128 = 500_000_000_000_000_000_000_000_000;

/// A relic: rarity, slot, main stat, and its substat lines in roll order.
#[derive(Clone, Debug)]
pub struct Relic {
    pub rarity: usize,
    pub slot: RelicSlot,
    pub main: RelicStat,
    pub subs: Vec<RelicStat>,
}

/// Probability of the set's pick.
pub open spec fn set_frac() -> (int, int) {
    (1, 2)
}

/// Probability of the slot.
pub open spec fn slot_frac(slot: RelicSlot) -> (int, int) {
    match slot {
        RelicSlot::Head | RelicSlot::Hands | RelicSlot::Body | RelicSlot::Feet => (1, 4),
        RelicSlot::Orb | RelicSlot::Rope => (1, 2),
    }
}

/// Probability of the main stat given the slot; 0 for a pair that cannot occur.
pub open spec fn main_stat_frac(slot: RelicSlot, stat: RelicStat) -> (int, int) {
    match slot {
        RelicSlot::Head | RelicSlot::Hands => (1, 1),
        RelicSlot::Body => match stat {
            RelicStat::HpPercent | RelicStat::AtkPercent | RelicStat::DefPercent => (1, 5),
            RelicStat::CritRate | RelicStat::CritDmg | RelicStat::HealingBoost
            | RelicStat::EffectHitRate => (1, 10),
            _ => (0, 1),
        },
        RelicSlot::Feet => match stat {
            RelicStat::HpPercent | RelicStat::AtkPercent | RelicStat::DefPercent => (3, 10),
            RelicStat::Spd => (1, 10),
            _ => (0, 1),
        },
        RelicSlot::Orb => match stat {
            RelicStat::HpPercent | RelicStat::AtkPercent | RelicStat::DefPercent => (7, 60),
            RelicStat::PhysDmgBoost | RelicStat::FireDmgBoost | RelicStat::IceDmgBoost
            | RelicStat::WindDmgBoost | RelicStat::LightningDmgBoost
            | RelicStat::QuantumDmgBoost | RelicStat::ImaginaryDmgBoost => (13, 140),
            _ => (0, 1),
        },
        RelicSlot::Rope => match stat {
            RelicStat::HpPercent | RelicStat::AtkPercent | RelicStat::DefPercent => (4, 15),
            RelicStat::BreakEffect => (3, 20),
            RelicStat::EnergyRegenRate => (1, 20),
            _ => (0, 1),
        },
    }
}

/// Probability of the set, the slot and the main stat together.
pub open spec fn main_frac(slot: RelicSlot, stat: RelicStat) -> (int, int) {
    frac_mul(frac_mul(set_frac(), slot_frac(slot)), main_stat_frac(slot, stat))
}

/// Number of lines of a relic that reached the maximum for its rarity.
pub open spec fn max_lines(rarity: int) -> int {
    if rarity == 0 {
        0
    } else {
        2 * rarity - 1
    }
}

/// Probability of the relic's line count: 1/5 at the maximum, 4/5 otherwise.
pub open spec fn line_frac(rarity: int, len: int) -> (int, int) {
    if len == max_lines(rarity) {
        (1, 5)
    } else {
        (4, 5)
    }
}

/// Number of upgrade rolls: the lines beyond the fourth.
pub open spec fn upgrade_count(len: int) -> int {
    if len > 4 {
        len - 4
    } else {
        0
    }
}

/// Probability of one distribution of `k` upgrades over four lines, every
/// multiset of lines being equally likely.
pub open spec fn upgrade_frac(k: int) -> (int, int) {
    (1, binomial(k + 3, k))
}

/// The initial lines: the first four, or all if fewer.
pub open spec fn initial_lines(subs: Seq<RelicStat>) -> Seq<RelicStat> {
    if subs.len() <= 4 {
        subs
    } else {
        subs.take(4)
    }
}

/// Weight left in the substat pool once the main stat is taken out.
pub open spec fn pool_weight(main: RelicStat) -> int {
    100 - main.weight()
}

/// Probability of drawing the stats of `order` one after another without
/// replacement, from a pool that starts at weight `remaining`.
pub open spec fn draw_frac(order: Seq<RelicStat>, remaining: int) -> (int, int)
    decreases order.len(),
{
    if order.len() == 0 {
        (1, 1)
    } else {
        let rest = draw_frac(order.drop_first(), remaining - order[0].weight());
        (order[0].weight() * rest.0, remaining * rest.1)
    }
}

/// The stats of `lines` in the order given by `positions`.
pub open spec fn arrange(lines: Seq<RelicStat>, positions: Seq<int>) -> Seq<RelicStat> {
    positions.map_values(|j: int| lines[j])
}

/// One term per ordering of the initial lines: the probability of drawing
/// them in that order. Their sum is the probability of the initial lines.
pub open spec fn initial_terms(subs: Seq<RelicStat>, main: RelicStat) -> Seq<(int, int)> {
    let lines = initial_lines(subs);
    orderings(range_seq(lines.len() as int)).map_values(
        |p: Seq<int>| draw_frac(arrange(lines, p), pool_weight(main)),
    )
}

/// One term per ordering of the initial lines: the probability that the
/// relic rolls its line count, those initial lines in that order, and its upgrades.
pub open spec fn sub_terms(rarity: int, subs: Seq<RelicStat>, main: RelicStat) -> Seq<(int, int)> {
    initial_terms(subs, main).map_values(
        |f: (int, int)|
            frac_mul(
                frac_mul(line_frac(rarity, subs.len() as int), f),
                upgrade_frac(upgrade_count(subs.len() as int)),
            ),
    )
}

/// `b` to the power `e`.
pub open spec fn power(b: int, e: nat) -> int
    decreases e,
{
    if e == 0 {
        1
    } else {
        b * power(b, (e - 1) as nat)
    }
}

proof fn lemma_power_mono(b: int, e1: nat, e2: nat)
    requires
        b >= 1,
        e1 <= e2,
    ensures
        1 <= power(b, e1) <= power(b, e2),
    decreases e2,
{
    if e1 < e2 {
        lemma_power_mono(b, e1, (e2 - 1) as nat);
        assert(power(b, (e2 - 1) as nat) <= b * power(b, (e2 - 1) as nat)) by (nonlinear_arith)
            requires
                b >= 1,
                power(b, (e2 - 1) as nat) >= 1,
        ;
    } else if e1 > 0 {
        lemma_power_mono(b, (e1 - 1) as nat, (e1 - 1) as nat);
        assert(1 <= b * power(b, (e1 - 1) as nat)) by (nonlinear_arith)
            requires
                b >= 1,
                power(b, (e1 - 1) as nat) >= 1,
        ;
    }
}

impl Relic {
    pub fn new(rarity: usize, slot: RelicSlot, main: RelicStat) -> (r: Relic)
        ensures
            r.rarity == rarity,
            r.slot == slot,
            r.main == main,
            r.subs@.len() == 0,
    {
        Relic { rarity, slot, main, subs: Vec::new() }
    }

    pub fn p_main(&self) -> (r: Ratio)
        ensures
            r.frac() == main_frac(self.slot, self.main),
    {
        let set = self.p_main_set();
        let slot = self.p_main_slot();
        let stat = self.p_main_stat();
        Ratio { num: set.num * slot.num * stat.num, den: set.den * slot.den * stat.den }
    }

    pub fn p_main_set(&self) -> (r: Ratio)
        ensures
            r.frac() == set_frac(),
    {
        Ratio { num: 1, den: 2 }
    }

    pub fn p_main_slot(&self) -> (r: Ratio)
        ensures
            r.frac() == slot_frac(self.slot),
    {
        match self.slot {
            RelicSlot::Head | RelicSlot::Hands | RelicSlot::Body | RelicSlot::Feet => Ratio {
                num: 1,
                den: 4,
            },
            RelicSlot::Orb | RelicSlot::Rope => Ratio { num: 1, den: 2 },
        }
    }

    pub fn p_main_stat(&self) -> (r: Ratio)
        ensures
            r.frac() == main_stat_frac(self.slot, self.main),
    {
        let zero = Ratio { num: 0, den: 1 };
        match self.slot {
            RelicSlot::Head | RelicSlot::Hands => Ratio { num: 1, den: 1 },
            RelicSlot::Body => match self.main {
                RelicStat::HpPercent | RelicStat::AtkPercent | RelicStat::DefPercent => Ratio {
                    num: 1,
                    den: 5,
                },
                RelicStat::CritRate | RelicStat::CritDmg | RelicStat::HealingBoost
                | RelicStat::EffectHitRate => Ratio { num: 1, den: 10 },
                _ => zero,
            },
            RelicSlot::Feet => match self.main {
                RelicStat::HpPercent | RelicStat::AtkPercent | RelicStat::DefPercent => Ratio {
                    num: 3,
                    den: 10,
                },
                RelicStat::Spd => Ratio { num: 1, den: 10 },
                _ => zero,
            },
            RelicSlot::Orb => match self.main {
                RelicStat::HpPercent | RelicStat::AtkPercent | RelicStat::DefPercent => Ratio {
                    num: 7,
                    den: 60,
                },
                RelicStat::PhysDmgBoost | RelicStat::FireDmgBoost | RelicStat::IceDmgBoost
                | RelicStat::WindDmgBoost | RelicStat::LightningDmgBoost
                | RelicStat::QuantumDmgBoost | RelicStat::ImaginaryDmgBoost => Ratio {
                    num: 13,
                    den: 140,
                },
                _ => zero,
            },
            RelicSlot::Rope => match self.main {
                RelicStat::HpPercent | RelicStat::AtkPercent | RelicStat::DefPercent => Ratio {
                    num: 4,
                    den: 15,
                },
                RelicStat::BreakEffect => Ratio { num: 3, den: 20 },
                RelicStat::EnergyRegenRate => Ratio { num: 1, den: 20 },
                _ => zero,
            },
        }
    }

    pub fn p_sub_line(&self) -> (r: Ratio)
        ensures
            r.frac() == line_frac(self.rarity as int, self.subs@.len() as int),
    {
        let len = self.subs.len();
        let at_max = if self.rarity == 0 {
            len == 0
        } else {
            len >= self.rarity && len - self.rarity == self.rarity - 1
        };
        if at_max {
            Ratio { num: 1, den: 5 }
        } else {
            Ratio { num: 4, den: 5 }
        }
    }

    pub fn p_sub_u(&self) -> (r: Ratio)
        requires
            self.subs@.len() <= MAX_LINES,
        ensures
            r.frac() == upgrade_frac(upgrade_count(self.subs@.len() as int)),
    {
        upgrade_ratio(self.subs.len())
    }

    pub fn p_sub_i(&self) -> (r: Vec<Ratio>)
        ensures
            fracs(r@) == initial_terms(self.subs@, self.main),
    {
        initial_ratios(&self.subs, self.main)
    }

    pub fn p_sub(&self) -> (r: Vec<Ratio>)
        requires
            self.subs@.len() <= MAX_LINES,
        ensures
            fracs(r@) == sub_terms(self.rarity as int, self.subs@, self.main),
            forall|t: int|
                0 <= t < r@.len() ==> 1 <= (#[trigger] r@[t]).den <= TERM_DEN_BOUND && r@[t].num
                    <= 40_000,
    {
        let line = self.p_sub_line();
        let up = upgrade_ratio(self.subs.len());
        let initial = initial_ratios(&self.subs, self.main);
        let r = combine_terms(line, &initial, up);
        assert(fracs(r@) =~= sub_terms(self.rarity as int, self.subs@, self.main));
        r
    }

    pub fn copy_with_new_subs(&self, subs: Vec<RelicStat>) -> (r: Relic)
        ensures
            r.rarity == self.rarity,
            r.slot == self.slot,
            r.main == self.main,
            r.subs == subs,
    {
        Relic { rarity: self.rarity, slot: self.slot, main: self.main, subs }
    }
}

/// The probability of one distribution of upgrades over a list of `len` lines.
pub(crate) fn upgrade_ratio(len: usize) -> (r: Ratio)
    requires
        len <= MAX_LINES,
    ensures
        r.frac() == upgrade_frac(upgrade_count(len as int)),
        1 <= r.den <= 1_000_000_000_000_000_000,
        r.num == 1,
{
    let k: u128 = if len > 4 {
        (len - 4) as u128
    } else {
        0
    };
    proof {
        lemma_binomial_four_bins(k as int);
    }
    let a = k + 1;
    assert(a * (k + 2) <= 1048577 * 1048578) by (nonlinear_arith)
        requires
            a == k + 1,
            k <= 1048576,
    ;
    let ab = a * (k + 2);
    assert(ab * (k + 3) <= 1048577 * 1048578 * 1048579) by (nonlinear_arith)
        requires
            ab <= 1048577 * 1048578,
            k <= 1048576,
    ;
    let c = ab * (k + 3) / 6;
    Ratio { num: 1, den: c }
}

/// One ratio per ordering of the initial lines of `subs`: the probability of
/// drawing them in that order.
pub(crate) fn initial_ratios(subs: &Vec<RelicStat>, main: RelicStat) -> (r: Vec<Ratio>)
    ensures
        fracs(r@) == initial_terms(subs@, main),
        forall|t: int|
            0 <= t < r@.len() ==> 1 <= (#[trigger] r@[t]).den <= 100_000_000 && r@[t].num
                <= 10_000,
{
    let k: usize = if subs.len() < 4 {
        subs.len()
    } else {
        4
    };
    let ghost lines = initial_lines(subs@);
    let ghost all = orderings(range_seq(k as int));
    let orders = index_orderings(k);
    proof {
        lemma_orderings_shape(range_seq(k as int));
        reveal_with_fuel(power, 5);
    }
    let start: u128 = 100 - main.substat_probability_weight() as u128;
    let mut r: Vec<Ratio> = Vec::new();
    let mut t: usize = 0;
    while t < orders.len()
        invariant
            t <= orders@.len(),
            lines == initial_lines(subs@),
            lines.len() == k <= 4,
            k <= subs@.len(),
            all == orderings(range_seq(k as int)),
            index_seqs(orders@) == all,
            start as int == pool_weight(main),
            90 <= start <= 100,
            power(10, 4) == 10_000,
            power(100, 4) == 100_000_000,
            forall|q: int|
                0 <= q < all.len() ==> (#[trigger] all[q]).len() == k && forall|m: int|
                    0 <= m < k ==> range_seq(k as int).contains(#[trigger] all[q][m]),
            fracs(r@) == initial_terms(subs@, main).take(t as int),
            r@.len() == t,
            forall|q: int|
                0 <= q < r@.len() ==> 1 <= (#[trigger] r@[q]).den <= 100_000_000
                    && r@[q].num <= 10_000,
        decreases orders@.len() - t,
    {
        let order = &orders[t];
        let ghost ps = all[t as int];
        let ghost stats = arrange(lines, ps);
        assert(ps == order@.map_values(|i: usize| i as int));
        let mut num: u128 = 1;
        let mut den: u128 = 1;
        let mut rem: u128 = start;
        let mut i: usize = 0;
        assert(stats.skip(0) =~= stats);
        while i < order.len()
            invariant
                i <= order@.len(),
                order@.len() == k,
                lines.len() == k <= 4,
                k <= subs@.len(),
                lines == initial_lines(subs@),
                ps == order@.map_values(|i: usize| i as int),
                stats == arrange(lines, ps),
                forall|m: int| 0 <= m < k ==> range_seq(k as int).contains(#[trigger] ps[m]),
                90 <= start <= 100,
                90 - 10 * i <= rem <= 100,
                1 <= den <= power(100, i as nat),
                num <= power(10, i as nat),
                power(10, 4) == 10_000,
                power(100, 4) == 100_000_000,
                num * draw_frac(stats.skip(i as int), rem as int).0 == draw_frac(
                    stats,
                    start as int,
                ).0,
                den * draw_frac(stats.skip(i as int), rem as int).1 == draw_frac(
                    stats,
                    start as int,
                ).1,
            decreases order@.len() - i,
        {
            let j = order[i];
            assert(range_seq(k as int).contains(ps[i as int]));
            let w = subs[j].substat_probability_weight() as u128;
            let ghost rest = stats.skip(i as int);
            let ghost tail = draw_frac(stats.skip(i + 1), rem - w);
            proof {
                assert(rest.drop_first() =~= stats.skip(i + 1));
                assert(rest[0] == lines[j as int]);
                assert(lines[j as int] == subs@[j as int]);
                assert(draw_frac(rest, rem as int) == (w * tail.0, rem * tail.1));
                assert(num * (w * tail.0) == (num * w) * tail.0) by (nonlinear_arith);
                assert(den * (rem * tail.1) == (den * rem) * tail.1) by (nonlinear_arith);
                assert(num * w <= power(10, i as nat) * 10) by (nonlinear_arith)
                    requires
                        num <= power(10, i as nat),
                        w <= 10,
                ;
                assert(den * rem <= power(100, i as nat) * 100) by (nonlinear_arith)
                    requires
                        den <= power(100, i as nat),
                        rem <= 100,
                ;
                assert(1 <= den * rem) by (nonlinear_arith)
                    requires
                        1 <= den,
                        1 <= rem,
                ;
                assert(power(10, (i + 1) as nat) == 10 * power(10, i as nat));
                assert(power(100, (i + 1) as nat) == 100 * power(100, i as nat));
                lemma_power_mono(10, (i + 1) as nat, 4);
                lemma_power_mono(100, (i + 1) as nat, 4);
            }
            num = num * w;
            den = den * rem;
            rem = rem - w;
            i = i + 1;
        }
        proof {
            assert(stats.skip(i as int).len() == 0);
            lemma_power_mono(10, i as nat, 4);
            lemma_power_mono(100, i as nat, 4);
            let e = draw_frac(stats.skip(i as int), rem as int);
            assert(e == (1int, 1int));
            assert(num * e.0 == num) by (nonlinear_arith)
                requires
                    e.0 == 1,
            ;
            assert(den * e.1 == den) by (nonlinear_arith)
                requires
                    e.1 == 1,
            ;
            assert(initial_terms(subs@, main)[t as int] == draw_frac(
                stats,
                start as int,
            ));
            assert(num as int == draw_frac(stats, start as int).0);
            assert(den as int == draw_frac(stats, start as int).1);
        }
        let ghost before = r@;
        r.push(Ratio { num, den });
        assert(r@ == before.push(Ratio { num, den }));
        assert(fracs(r@)[t as int] == (num as int, den as int));
        assert(fracs(r@) =~= initial_terms(subs@, main).take(t + 1));
        t = t + 1;
    }
    assert(fracs(r@) =~= initial_terms(subs@, main));
    r
}

/// Each initial ratio multiplied by the line-count and upgrade probabilities.
pub(crate) fn combine_terms(line: Ratio, initial: &Vec<Ratio>, up: Ratio) -> (r: Vec<Ratio>)
    requires
        line.num <= 4,
        1 <= line.den <= 5,
        up.num == 1,
        1 <= up.den <= 1_000_000_000_000_000_000,
        forall|q: int|
            0 <= q < initial@.len() ==> 1 <= (#[trigger] initial@[q]).den <= 100_000_000
                && initial@[q].num <= 10_000,
    ensures
        fracs(r@) == fracs(initial@).map_values(
            |f: (int, int)| frac_mul(frac_mul(line.frac(), f), up.frac()),
        ),
        forall|t: int|
            0 <= t < r@.len() ==> 1 <= (#[trigger] r@[t]).den <= TERM_DEN_BOUND && r@[t].num
                <= 40_000,
{
    let ghost terms = fracs(initial@).map_values(
        |f: (int, int)| frac_mul(frac_mul(line.frac(), f), up.frac()),
    );
    let mut r: Vec<Ratio> = Vec::new();
    let mut t: usize = 0;
    while t < initial.len()
        invariant
            t <= initial@.len(),
            forall|q: int|
                0 <= q < initial@.len() ==> 1 <= (#[trigger] initial@[q]).den <= 100_000_000
                    && initial@[q].num <= 10_000,
            line.num <= 4,
            1 <= line.den <= 5,
            up.num == 1,
            1 <= up.den <= 1_000_000_000_000_000_000,
            terms == fracs(initial@).map_values(
                |f: (int, int)| frac_mul(frac_mul(line.frac(), f), up.frac()),
            ),
            r@.len() == t,
            fracs(r@) == terms.take(t as int),
            forall|q: int|
                0 <= q < r@.len() ==> 1 <= (#[trigger] r@[q]).den <= TERM_DEN_BOUND
                    && r@[q].num <= 40_000,
        decreases initial@.len() - t,
    {
        let f = initial[t];
        assert(line.num * f.num <= 40_000) by (nonlinear_arith)
            requires
                line.num <= 4,
                f.num <= 10_000,
        ;
        assert(1 <= line.den * f.den <= 500_000_000) by (nonlinear_arith)
            requires
                1 <= line.den <= 5,
                1 <= f.den <= 100_000_000,
        ;
        let ln = line.num * f.num;
        let ld = line.den * f.den;
        assert(1 <= ld * up.den <= TERM_DEN_BOUND) by (nonlinear_arith)
            requires
                1 <= ld <= 500_000_000,
                1 <= up.den <= 1_000_000_000_000_000_000,
        ;
        let term = Ratio { num: ln * up.num, den: ld * up.den };
        let ghost before = r@;
        r.push(term);
        assert(r@ == before.push(term));
        assert(fracs(r@) =~= terms.take(t + 1));
        t = t + 1;
    }
    assert(fracs(r@) =~= terms);
    r
}

} // verus!
