//! The stat and slot enumerations and their read-only tables.
use vstd::prelude::*;

verus! {

/// Every stat a relic can carry, as main stat or as substat.
#[derive(PartialEq, Eq, Structural, Hash, Ord, PartialOrd, Copy, Clone, Debug)]
pub enum RelicStat {
    Hp,
    Atk,
    Def,
    HpPercent,
    AtkPercent,
    DefPercent,
    Spd,
    CritRate,
    CritDmg,
    EffectHitRate,
    EffectRes,
    BreakEffect,
    // Main stat only
    EnergyRegenRate,
    HealingBoost,
    PhysDmgBoost,
    FireDmgBoost,
    IceDmgBoost,
    WindDmgBoost,
    LightningDmgBoost,
    QuantumDmgBoost,
    ImaginaryDmgBoost,
}

/// The six equipment positions.
#[derive(PartialEq, Eq, Structural, Copy, Clone, Debug)]
pub enum RelicSlot {
    Head,
    Hands,
    Body,
    Feet,
    Orb,
    Rope,
}

/// The twelve substat-eligible stats, in declaration order.
pub open spec fn sub_stat_pool() -> Seq<RelicStat> {
    seq![
        RelicStat::Hp,
        RelicStat::Atk,
        RelicStat::Def,
        RelicStat::HpPercent,
        RelicStat::AtkPercent,
        RelicStat::DefPercent,
        RelicStat::Spd,
        RelicStat::CritRate,
        RelicStat::CritDmg,
        RelicStat::EffectHitRate,
        RelicStat::EffectRes,
        RelicStat::BreakEffect,
    ]
}

impl RelicStat {
    /// Sampling weight of a stat as a substat; main-only stats weigh 0.
    pub open spec fn weight(self) -> int {
        match self {
            RelicStat::Hp | RelicStat::Atk | RelicStat::Def => 10,
            RelicStat::HpPercent | RelicStat::AtkPercent | RelicStat::DefPercent => 10,
            RelicStat::Spd => 4,
            RelicStat::CritRate | RelicStat::CritDmg => 6,
            RelicStat::EffectHitRate | RelicStat::EffectRes | RelicStat::BreakEffect => 8,
            _ => 0,
        }
    }

    /// Whether the stat can roll as a substat.
    pub open spec fn is_sub_stat(self) -> bool {
        self.weight() > 0
    }

    /// The substat-eligible stats in declaration order.
    pub fn possible_sub_stats() -> (r: Vec<RelicStat>)
        ensures
            r@ == sub_stat_pool(),
    {
        let r = vec![
            RelicStat::Hp,
            RelicStat::Atk,
            RelicStat::Def,
            RelicStat::HpPercent,
            RelicStat::AtkPercent,
            RelicStat::DefPercent,
            RelicStat::Spd,
            RelicStat::CritRate,
            RelicStat::CritDmg,
            RelicStat::EffectHitRate,
            RelicStat::EffectRes,
            RelicStat::BreakEffect,
        ];
        assert(r@ =~= sub_stat_pool());
        r
    }

    pub fn substat_probability_weight(&self) -> (r: u8)
        ensures
            r as int == self.weight(),
    {
        match self {
            RelicStat::Hp => 10,
            RelicStat::Atk => 10,
            RelicStat::Def => 10,
            RelicStat::HpPercent => 10,
            RelicStat::AtkPercent => 10,
            RelicStat::DefPercent => 10,
            RelicStat::Spd => 4,
            RelicStat::CritRate => 6,
            RelicStat::CritDmg => 6,
            RelicStat::EffectHitRate => 8,
            RelicStat::EffectRes => 8,
            RelicStat::BreakEffect => 8,
            _ => 0,
        }
    }
}

/// A copy of a list of stats.
pub(crate) fn copy_stats(v: &Vec<RelicStat>) -> (r: Vec<RelicStat>)
    ensures
        r@ == v@,
{
    let mut r: Vec<RelicStat> = Vec::new();
    let mut i: usize = 0;
    while i < v.len()
        invariant
            i <= v@.len(),
            r@ == v@.take(i as int),
        decreases v@.len() - i,
    {
        r.push(v[i]);
        assert(r@ =~= v@.take(i + 1));
        i = i + 1;
    }
    assert(r@ =~= v@);
    r
}

} // verus!
