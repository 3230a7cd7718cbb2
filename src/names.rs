//! The names that save files give to stats and slots.
use vstd::prelude::*;

use crate::stat::{RelicSlot, RelicStat};

verus! {

/// The save-file name of a stat.
pub open spec fn stat_label(s: RelicStat) -> Seq<char> {
    match s {
        RelicStat::Hp => "HP"@,
        RelicStat::HpPercent => "HP%"@,
        RelicStat::Atk => "ATK"@,
        RelicStat::AtkPercent => "ATK%"@,
        RelicStat::Def => "DEF"@,
        RelicStat::DefPercent => "DEF%"@,
        RelicStat::CritRate => "CRIT Rate"@,
        RelicStat::CritDmg => "CRIT DMG"@,
        RelicStat::BreakEffect => "Break Effect"@,
        RelicStat::EffectHitRate => "Effect Hit Rate"@,
        RelicStat::EnergyRegenRate => "Energy Regeneration Rate"@,
        RelicStat::FireDmgBoost => "Fire DMG Boost"@,
        RelicStat::IceDmgBoost => "Ice DMG Boost"@,
        RelicStat::ImaginaryDmgBoost => "Imaginary DMG Boost"@,
        RelicStat::LightningDmgBoost => "Lightning DMG Boost"@,
        RelicStat::HealingBoost => "Outgoing Healing Boost"@,
        RelicStat::PhysDmgBoost => "Physical DMG Boost"@,
        RelicStat::QuantumDmgBoost => "Quantum DMG Boost"@,
        RelicStat::EffectRes => "Effect RES"@,
        RelicStat::Spd => "SPD"@,
        RelicStat::WindDmgBoost => "Wind DMG Boost"@,
    }
}

/// The save-file name of a slot.
pub open spec fn slot_label(s: RelicSlot) -> Seq<char> {
    match s {
        RelicSlot::Orb => "PlanarSphere"@,
        RelicSlot::Hands => "Hands"@,
        RelicSlot::Body => "Body"@,
        RelicSlot::Rope => "LinkRope"@,
        RelicSlot::Head => "Head"@,
        RelicSlot::Feet => "Feet"@,
    }
}

/// Whether two strings hold the same characters.
fn same_text(a: &str, b: &str) -> (r: bool)
    ensures
        r == (a@ == b@),
{
    a.to_owned() == b.to_owned()
}

/// The stat with this save-file name, if any.
pub fn parse_stat(s: &str) -> (r: Option<RelicStat>)
    ensures
        r matches Some(st) ==> s@ == stat_label(st),
        r is None ==> forall|st: RelicStat| s@ != stat_label(st),
{
    if same_text(s, "HP") {
        return Some(RelicStat::Hp);
    }
    if same_text(s, "HP%") {
        return Some(RelicStat::HpPercent);
    }
    if same_text(s, "ATK") {
        return Some(RelicStat::Atk);
    }
    if same_text(s, "ATK%") {
        return Some(RelicStat::AtkPercent);
    }
    if same_text(s, "DEF") {
        return Some(RelicStat::Def);
    }
    if same_text(s, "DEF%") {
        return Some(RelicStat::DefPercent);
    }
    if same_text(s, "CRIT Rate") {
        return Some(RelicStat::CritRate);
    }
    if same_text(s, "CRIT DMG") {
        return Some(RelicStat::CritDmg);
    }
    if same_text(s, "Break Effect") {
        return Some(RelicStat::BreakEffect);
    }
    if same_text(s, "Effect Hit Rate") {
        return Some(RelicStat::EffectHitRate);
    }
    if same_text(s, "Energy Regeneration Rate") {
        return Some(RelicStat::EnergyRegenRate);
    }
    if same_text(s, "Fire DMG Boost") {
        return Some(RelicStat::FireDmgBoost);
    }
    if same_text(s, "Ice DMG Boost") {
        return Some(RelicStat::IceDmgBoost);
    }
    if same_text(s, "Imaginary DMG Boost") {
        return Some(RelicStat::ImaginaryDmgBoost);
    }
    if same_text(s, "Lightning DMG Boost") {
        return Some(RelicStat::LightningDmgBoost);
    }
    if same_text(s, "Outgoing Healing Boost") {
        return Some(RelicStat::HealingBoost);
    }
    if same_text(s, "Physical DMG Boost") {
        return Some(RelicStat::PhysDmgBoost);
    }
    if same_text(s, "Quantum DMG Boost") {
        return Some(RelicStat::QuantumDmgBoost);
    }
    if same_text(s, "Effect RES") {
        return Some(RelicStat::EffectRes);
    }
    if same_text(s, "SPD") {
        return Some(RelicStat::Spd);
    }
    if same_text(s, "Wind DMG Boost") {
        return Some(RelicStat::WindDmgBoost);
    }
    None
}

/// The slot with this save-file name, if any.
pub fn parse_slot(s: &str) -> (r: Option<RelicSlot>)
    ensures
        r matches Some(sl) ==> s@ == slot_label(sl),
        r is None ==> forall|sl: RelicSlot| s@ != slot_label(sl),
{
    if same_text(s, "PlanarSphere") {
        return Some(RelicSlot::Orb);
    }
    if same_text(s, "Hands") {
        return Some(RelicSlot::Hands);
    }
    if same_text(s, "Body") {
        return Some(RelicSlot::Body);
    }
    if same_text(s, "LinkRope") {
        return Some(RelicSlot::Rope);
    }
    if same_text(s, "Head") {
        return Some(RelicSlot::Head);
    }
    if same_text(s, "Feet") {
        return Some(RelicSlot::Feet);
    }
    None
}

} // verus!
