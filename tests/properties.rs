use est_tbp::{
    parse_slot, parse_stat, AnyRelic, AtLeastLines, ConditionalRelicProbabilityCalculator, Ratio,
    Relic, RelicSlot, RelicStat, RollResult, RollResultIterator, SubstatIterator,
};

const ALL_STATS: [RelicStat; 21] = [
    RelicStat::Hp,
    RelicStat::Atk,
    RelicStat::Def,
    RelicStat::HpPercent,
    RelicStat::AtkPercent,
    RelicStat::DefPercent,
    RelicStat::Spd,
    RelicStat::CritRate,
    RelicStat::CritDmg,
    RelicStat::EffectHitRate,
    RelicStat::EffectRes,
    RelicStat::BreakEffect,
    RelicStat::EnergyRegenRate,
    RelicStat::HealingBoost,
    RelicStat::PhysDmgBoost,
    RelicStat::FireDmgBoost,
    RelicStat::IceDmgBoost,
    RelicStat::WindDmgBoost,
    RelicStat::LightningDmgBoost,
    RelicStat::QuantumDmgBoost,
    RelicStat::ImaginaryDmgBoost,
];

fn value(terms: &[Ratio]) -> f64 {
    terms.iter().map(|r| r.num as f64 / r.den as f64).sum()
}

fn close(a: f64, b: f64) -> bool {
    (a - b).abs() < 0.00001
}

#[test]
fn initial_lines_sum_to_one_for_every_main_stat() {
    for main in ALL_STATS {
        let total: f64 = RollResultIterator::new(main, 0)
            .0
            .iter()
            .map(|r| value(&r.initial_subs_probability(main)))
            .sum();
        assert!(close(total, 1.0), "{main:?}: {total}");
    }
}

#[test]
fn combination_count_depends_on_main_eligibility() {
    for main in ALL_STATS {
        let expected = if main.substat_probability_weight() > 0 { 330 } else { 495 };
        assert_eq!(SubstatIterator::with_params(main, 4, 0).count(), expected);
    }
}

#[test]
fn initial_and_upgrades_sum_to_one_for_each_upgrade_count() {
    for main in [RelicStat::Hp, RelicStat::CritRate, RelicStat::IceDmgBoost] {
        for k in 0..6 {
            let total: f64 = RollResultIterator::new(main, k)
                .0
                .iter()
                .map(|r| {
                    let u = r.upgrade_probability();
                    value(&r.initial_subs_probability(main)) * (u.num as f64 / u.den as f64)
                })
                .sum();
            assert!(close(total, 1.0), "{main:?} {k}: {total}");
        }
    }
}

#[test]
fn full_enumeration_sums_to_one() {
    for main in [RelicStat::Hp, RelicStat::Spd, RelicStat::EnergyRegenRate] {
        for rarity in 2..=5 {
            let relic = Relic::new(rarity, RelicSlot::Feet, main);
            let total = value(&relic.filtered_p_sub(&AnyRelic));
            assert!(close(total, 1.0), "{main:?} rarity {rarity}: {total}");
        }
        // below rarity 2 only the maximum-line branch (1/5) exists
        let relic = Relic::new(0, RelicSlot::Feet, main);
        assert!(close(value(&relic.filtered_p_sub(&AnyRelic)), 0.2));
    }
}

#[test]
fn always_true_filter_gives_unconditional_probability() {
    let relic = Relic::new(5, RelicSlot::Head, RelicStat::Hp);
    let conditional = value(&relic.filtered_p_sub(&AnyRelic));
    let unconditional: f64 = SubstatIterator::new_from_relic(&relic)
        .0
        .iter()
        .map(|subs| value(&relic.copy_with_new_subs(subs.clone()).p_sub()))
        .sum();
    assert!(close(conditional, unconditional));
    let calc = ConditionalRelicProbabilityCalculator::new().consider_set().consider_slot().consider_main();
    let p = value(&calc.calculate_for_relic(&relic, &AnyRelic));
    assert!(close(p, 0.125));
}

#[test]
fn more_crit_lines_are_less_likely() {
    let relic = Relic::new(5, RelicSlot::Head, RelicStat::Hp);
    let mut previous = f64::INFINITY;
    for n in 0..=4 {
        let filter = AtLeastLines { stats: vec![RelicStat::CritRate, RelicStat::CritDmg], n };
        let p = value(&relic.filtered_p_sub(&filter));
        assert!(p <= previous + 1e-12, "n = {n}: {p} > {previous}");
        previous = p;
    }
    let none = AtLeastLines { stats: vec![RelicStat::CritRate, RelicStat::CritDmg], n: 0 };
    assert!(close(value(&relic.filtered_p_sub(&none)), 1.0));
    let impossible = AtLeastLines { stats: vec![RelicStat::CritRate], n: 10 };
    assert!(relic.filtered_p_sub(&impossible).is_empty());
}

#[test]
fn main_probability_head_hp() {
    let relic = Relic::new(5, RelicSlot::Head, RelicStat::Hp);
    let p = relic.p_main();
    assert_eq!(p, Ratio { num: 1, den: 8 });
    assert!(close(p.num as f64 / p.den as f64, 0.5 * 0.25 * 1.0));
}

#[test]
fn main_probability_body_crit_rate() {
    let relic = Relic::new(5, RelicSlot::Body, RelicStat::CritRate);
    let p = relic.p_main();
    assert_eq!(p, Ratio { num: 1, den: 80 });
    assert!(close(p.num as f64 / p.den as f64, 0.0125));
}

#[test]
fn main_probability_orb_ice() {
    let relic = Relic::new(5, RelicSlot::Orb, RelicStat::IceDmgBoost);
    let p = relic.p_main();
    assert_eq!(p, Ratio { num: 13, den: 560 });
    assert!(close(p.num as f64 / p.den as f64, 0.5 * 0.5 * (0.65 / 7.0)));
}

#[test]
fn main_stat_tables_sum_to_one() {
    for slot in [RelicSlot::Body, RelicSlot::Feet, RelicSlot::Orb, RelicSlot::Rope] {
        let total: f64 = ALL_STATS
            .iter()
            .map(|s| {
                let r = Relic::new(5, slot, *s).p_main_stat();
                r.num as f64 / r.den as f64
            })
            .sum();
        assert!((total - 1.0).abs() < 1e-9, "{slot:?}: {total}");
    }
    assert_eq!(Relic::new(5, RelicSlot::Orb, RelicStat::AtkPercent).p_main_stat(), Ratio { num: 7, den: 60 });
}

#[test]
fn main_stat_on_wrong_slot_is_zero() {
    let relic = Relic::new(5, RelicSlot::Feet, RelicStat::CritDmg);
    assert_eq!(relic.p_main_stat().num, 0);
    let rope = Relic::new(5, RelicSlot::Rope, RelicStat::AtkPercent);
    assert_eq!(rope.p_main_stat(), Ratio { num: 4, den: 15 });
    assert_eq!(rope.p_main_slot(), Ratio { num: 1, den: 2 });
    assert_eq!(rope.p_main_set(), Ratio { num: 1, den: 2 });
}

#[test]
fn calculator_factors_are_selected() {
    let relic = Relic::new(5, RelicSlot::Body, RelicStat::CritRate);
    let bare = value(&ConditionalRelicProbabilityCalculator::new().calculate_for_relic(&relic, &AnyRelic));
    assert!(close(bare, 1.0));
    let set = value(&ConditionalRelicProbabilityCalculator::new().consider_set().calculate_for_relic(&relic, &AnyRelic));
    assert!(close(set, 0.5));
    let slot_main = value(
        &ConditionalRelicProbabilityCalculator::new()
            .consider_slot()
            .consider_main()
            .calculate_for_relic(&relic, &AnyRelic),
    );
    assert!(close(slot_main, 0.025));
}

#[test]
fn line_count_probability() {
    let mut relic = Relic::new(5, RelicSlot::Head, RelicStat::Hp);
    relic.subs = vec![RelicStat::Atk; 9];
    assert_eq!(relic.p_sub_line(), Ratio { num: 1, den: 5 });
    relic.subs = vec![RelicStat::Atk; 8];
    assert_eq!(relic.p_sub_line(), Ratio { num: 4, den: 5 });
    let empty = Relic::new(0, RelicSlot::Head, RelicStat::Hp);
    assert_eq!(empty.p_sub_line(), Ratio { num: 1, den: 5 });
}

#[test]
fn upgrade_probability_is_uniform_over_multisets() {
    let mut relic = Relic::new(5, RelicSlot::Head, RelicStat::Hp);
    relic.subs = vec![RelicStat::Atk, RelicStat::Def, RelicStat::Spd, RelicStat::CritDmg];
    assert_eq!(relic.p_sub_u(), Ratio { num: 1, den: 1 });
    relic.subs.push(RelicStat::Atk);
    assert_eq!(relic.p_sub_u(), Ratio { num: 1, den: 4 });
    relic.subs.extend([RelicStat::Atk, RelicStat::Atk, RelicStat::Atk, RelicStat::Atk]);
    assert_eq!(relic.p_sub_u(), Ratio { num: 1, den: 56 });
    let r = RollResult(relic.subs.clone());
    assert_eq!(r.upgrade_probability(), Ratio { num: 1, den: 56 });
    assert_eq!(r.line_probability(), Ratio { num: 1, den: 5 });
}

#[test]
fn initial_probability_of_one_and_two_lines() {
    let mut relic = Relic::new(5, RelicSlot::Head, RelicStat::Hp);
    relic.subs = vec![RelicStat::Spd];
    assert_eq!(relic.p_sub_i(), vec![Ratio { num: 4, den: 90 }]);
    relic.subs = vec![RelicStat::Spd, RelicStat::CritRate];
    // Spd then CritRate, CritRate then Spd
    assert_eq!(
        relic.p_sub_i(),
        vec![Ratio { num: 24, den: 90 * 86 }, Ratio { num: 24, den: 90 * 84 }]
    );
    let no_main = Relic::new(5, RelicSlot::Orb, RelicStat::FireDmgBoost);
    assert_eq!(no_main.copy_with_new_subs(vec![RelicStat::Atk]).p_sub_i(), vec![Ratio { num: 10, den: 100 }]);
    // fewer than four lines: the orderings of the lines there are
    let short = RollResult(vec![RelicStat::Atk]);
    assert_eq!(short.initial_subs_probability(RelicStat::Hp), vec![Ratio { num: 10, den: 90 }]);
    let none = RollResult(vec![]);
    assert_eq!(none.initial_subs_probability(RelicStat::Hp), vec![Ratio { num: 1, den: 1 }]);
}

#[test]
fn small_rarities_enumerate_without_underflow() {
    let r0 = Relic::new(0, RelicSlot::Head, RelicStat::Hp);
    let outs = SubstatIterator::new_from_relic(&r0);
    assert_eq!(outs.count(), 1);
    assert!(outs.0[0].is_empty());
    let r1 = Relic::new(1, RelicSlot::Head, RelicStat::Hp);
    let outs = SubstatIterator::new_from_relic(&r1);
    assert_eq!(outs.count(), 11);
    // a single line is always the maximum for rarity 1, so only the 1/5 branch occurs
    assert!(close(value(&r1.filtered_p_sub(&AnyRelic)), 0.2));
    let r2 = Relic::new(2, RelicSlot::Head, RelicStat::Hp);
    // no initial line and two rolls fill two lines (55 pairs);
    // one initial line and two rolls fill three lines (165 triples)
    assert_eq!(SubstatIterator::new_from_relic(&r2).count(), 220);
}

#[test]
fn outcomes_put_initial_lines_before_upgrades() {
    let outs = SubstatIterator::with_params(RelicStat::Hp, 4, 1);
    assert_eq!(outs.count(), 330 * 4);
    assert_eq!(
        outs.0[0],
        vec![RelicStat::Atk, RelicStat::Def, RelicStat::HpPercent, RelicStat::AtkPercent, RelicStat::Atk]
    );
    assert_eq!(
        outs.0[3],
        vec![
            RelicStat::Atk,
            RelicStat::Def,
            RelicStat::HpPercent,
            RelicStat::AtkPercent,
            RelicStat::AtkPercent
        ]
    );
    for o in &outs.0 {
        assert_eq!(o.len(), 5);
        assert!(!o.contains(&RelicStat::Hp));
    }
}

#[test]
fn save_file_names() {
    assert_eq!(parse_stat("CRIT DMG"), Some(RelicStat::CritDmg));
    assert_eq!(parse_stat("HP%"), Some(RelicStat::HpPercent));
    assert_eq!(parse_stat("Outgoing Healing Boost"), Some(RelicStat::HealingBoost));
    assert_eq!(parse_stat("crit dmg"), None);
    assert_eq!(parse_slot("PlanarSphere"), Some(RelicSlot::Orb));
    assert_eq!(parse_slot("LinkRope"), Some(RelicSlot::Rope));
    assert_eq!(parse_slot("Neck"), None);
}

#[test]
fn weights_and_pool() {
    let pool = RelicStat::possible_sub_stats();
    assert_eq!(pool.len(), 12);
    let total: u32 = pool.iter().map(|s| s.substat_probability_weight() as u32).sum();
    assert_eq!(total, 100);
    assert_eq!(RelicStat::Spd.substat_probability_weight(), 4);
    assert_eq!(RelicStat::IceDmgBoost.substat_probability_weight(), 0);
}

#[test]
fn verdicts_select_the_same_outcomes_as_a_filter() {
    let relic = Relic::new(5, RelicSlot::Hands, RelicStat::Atk);
    let outs = SubstatIterator::new_from_relic(&relic);
    let crit = [RelicStat::CritRate, RelicStat::CritDmg];
    let accepted: Vec<bool> = outs
        .0
        .iter()
        .map(|subs| subs.iter().filter(|s| crit.contains(s)).count() >= 3)
        .collect();
    let by_verdicts = relic.selected_p_sub(&accepted);
    let filter = AtLeastLines { stats: crit.to_vec(), n: 3 };
    let by_filter = relic.filtered_p_sub(&filter);
    assert_eq!(by_verdicts, by_filter);
    let calc = ConditionalRelicProbabilityCalculator::new().consider_slot();
    let a = value(&calc.calculate_for_selection(&relic, &accepted));
    let b = value(&calc.calculate_for_relic(&relic, &filter));
    assert!(close(a, b));
    assert!(close(a, value(&by_filter) * 0.25));
    let none = vec![false; outs.count()];
    assert!(relic.selected_p_sub(&none).is_empty());
}

#[test]
fn orderings_of_three_lines_in_lexicographic_order() {
    let mut relic = Relic::new(5, RelicSlot::Head, RelicStat::Hp);
    relic.subs = vec![RelicStat::Spd, RelicStat::CritRate, RelicStat::BreakEffect];
    let dens: Vec<u128> = relic.p_sub_i().iter().map(|r| r.den).collect();
    assert_eq!(dens, vec![90 * 86 * 80, 90 * 86 * 78, 90 * 84 * 80, 90 * 84 * 76, 90 * 82 * 78, 90 * 82 * 76]);
    assert!(relic.p_sub_i().iter().all(|r| r.num == 4 * 6 * 8));
}

#[test]
fn sub_probability_combines_the_three_factors() {
    let mut relic = Relic::new(5, RelicSlot::Head, RelicStat::Hp);
    relic.subs = vec![RelicStat::Spd, RelicStat::Atk, RelicStat::Def, RelicStat::CritDmg, RelicStat::Spd];
    let initial = relic.p_sub_i();
    let terms = relic.p_sub();
    assert_eq!(terms.len(), 24);
    for (t, i) in terms.iter().zip(initial.iter()) {
        // four-fifths (five lines is below the maximum of nine), and one of four upgrade targets
        assert_eq!(*t, Ratio { num: 4 * i.num, den: 5 * i.den * 4 });
    }
}
