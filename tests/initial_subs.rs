use est_tbp::{Ratio, Relic, RelicSlot, RelicStat, RollResultIterator, SubstatIterator};

fn value(terms: &[Ratio]) -> f64 {
    terms.iter().map(|r| r.num as f64 / r.den as f64).sum()
}

fn ratio_value(r: Ratio) -> f64 {
    r.num as f64 / r.den as f64
}

fn assert_float_eq(a: f64, b: f64) {
    let epsilon = 0.00001;
    assert!(epsilon > (a - b).abs())
}

#[test]
fn lib_initial_subs() {
    // "0 upgrades" should list all possible initial substat combinations (binomial coefficient)
    {
        assert_eq!(
            SubstatIterator::with_params(RelicStat::Hp, 4, 0).count(),
            330 // 11 choose 4
        );
        assert_eq!(
            SubstatIterator::with_params(RelicStat::PhysDmgBoost, 4, 0).count(),
            495 // 12 choose 4
        );
    }

    // Initial substat probability sum of all results should add up to 1
    {
        let relic = Relic {
            rarity: 5,
            slot: RelicSlot::Head,
            main: RelicStat::Hp,
            subs: Vec::new(),
        };

        assert_float_eq(
            1.0,
            SubstatIterator::with_params(RelicStat::Hp, 4, 0)
                .0
                .iter()
                .map(|subs| value(&relic.copy_with_new_subs(subs.clone()).p_sub_i()))
                .sum::<f64>(),
        );
    }

    // Initial and upgrade probability should add up to 1
    {
        let relic = Relic {
            rarity: 5,
            slot: RelicSlot::Head,
            main: RelicStat::Hp,
            subs: Vec::new(),
        };

        assert_float_eq(
            1.0,
            SubstatIterator::with_params(RelicStat::Hp, 4, 5)
                .0
                .iter()
                .map(|subs| relic.copy_with_new_subs(subs.clone()))
                .map(|r| value(&r.p_sub_i()) * ratio_value(r.p_sub_u()))
                .sum::<f64>(),
        );
    }

    // chain implementation is correct
    {
        let relic = Relic {
            rarity: 5,
            slot: RelicSlot::Head,
            main: RelicStat::Hp,
            subs: Vec::new(),
        };

        assert_eq!(
            SubstatIterator::new_from_relic(&relic).count(),
            SubstatIterator::with_params(RelicStat::Hp, 3, 5).count()
                + SubstatIterator::with_params(RelicStat::Hp, 4, 5).count(),
        )
    }

    // Overall probability should add up to 1
    {
        let relic = Relic {
            rarity: 5,
            slot: RelicSlot::Head,
            main: RelicStat::Hp,
            subs: Vec::new(),
        };

        assert_float_eq(
            1.0,
            SubstatIterator::new_from_relic(&relic)
                .0
                .iter()
                .map(|subs| relic.copy_with_new_subs(subs.clone()))
                .map(|r| {
                    ratio_value(r.p_sub_line()) * value(&r.p_sub_i()) * ratio_value(r.p_sub_u())
                })
                .sum::<f64>(),
        );
    }
}

#[test]
fn main_initial_subs() {
    // "0 upgrades" should list all possible initial substat combinations (binomial coefficient)
    {
        assert_eq!(RollResultIterator::new(RelicStat::Hp, 0).count(), 330); // 11 choose 4
        assert_eq!(RollResultIterator::new(RelicStat::PhysDmgBoost, 0).count(), 495); // 12 choose 4
    }

    // Initial substat probability sum of all results should add up to 1
    {
        assert_float_eq(
            1.0,
            RollResultIterator::new(RelicStat::Hp, 0)
                .0
                .iter()
                .map(|r| value(&r.initial_subs_probability(RelicStat::Hp)))
                .sum::<f64>(),
        );
    }

    // Initial and upgrade probability should add up to 1
    {
        assert_float_eq(
            1.0,
            RollResultIterator::new(RelicStat::Hp, 4)
                .0
                .iter()
                .map(|r| {
                    value(&r.initial_subs_probability(RelicStat::Hp))
                        * ratio_value(r.upgrade_probability())
                })
                .sum::<f64>(),
        );
    }
}

#[test]
fn roll_result_initial_subs() {
    // "0 upgrades" should list all possible initial substat combinations (binomial coefficient)
    {
        assert_eq!(RollResultIterator::new(RelicStat::Hp, 0).count(), 330); // 11 choose 4
        assert_eq!(RollResultIterator::new(RelicStat::PhysDmgBoost, 0).count(), 495); // 12 choose 4
    }

    // Initial substat probability sum of all results should add up to 1
    {
        assert_float_eq(
            1.0,
            RollResultIterator::new(RelicStat::Hp, 0)
                .0
                .iter()
                .map(|r| value(&r.initial_subs_probability(RelicStat::Hp)))
                .sum::<f64>(),
        );
    }

    // Initial and upgrade probability should add up to 1
    {
        assert_float_eq(
            1.0,
            RollResultIterator::new(RelicStat::Hp, 4)
                .0
                .iter()
                .map(|r| {
                    value(&r.initial_subs_probability(RelicStat::Hp))
                        * ratio_value(r.upgrade_probability())
                })
                .sum::<f64>(),
        );
    }
}
