//! Exact fractions, and finite sums of them.
use vstd::prelude::*;

verus! {

/// The fraction `num / den`.
#[derive(PartialEq, Eq, Structural, Copy, Clone, Debug)]
pub struct Ratio {
    pub num: u128,
    pub den: u128,
}

impl Ratio {
    /// The fraction as a pair of integers.
    pub open spec fn frac(self) -> (int, int) {
        (self.num as int, self.den as int)
    }
}

/// The fractions of a sequence of ratios.
pub open spec fn fracs(s: Seq<Ratio>) -> Seq<(int, int)> {
    s.map_values(|r: Ratio| r.frac())
}

/// Product of two fractions, unreduced.
pub open spec fn frac_mul(a: (int, int), b: (int, int)) -> (int, int) {
    (a.0 * b.0, a.1 * b.1)
}

/// Sum of two fractions, unreduced.
pub open spec fn frac_add(a: (int, int), b: (int, int)) -> (int, int) {
    (a.0 * b.1 + b.0 * a.1, a.1 * b.1)
}

/// `a <= b` as rational numbers, for positive denominators.
pub open spec fn frac_le(a: (int, int), b: (int, int)) -> bool {
    a.0 * b.1 <= b.0 * a.1
}

/// `a == b` as rational numbers, for positive denominators.
pub open spec fn frac_eq(a: (int, int), b: (int, int)) -> bool {
    a.0 * b.1 == b.0 * a.1
}

/// A fraction with positive denominator and nonnegative numerator.
pub open spec fn frac_nonneg(a: (int, int)) -> bool {
    a.0 >= 0 && a.1 > 0
}

/// The sum of a finite sequence of fractions, added from the front.
pub open spec fn sum_fracs(s: Seq<(int, int)>) -> (int, int)
    decreases s.len(),
{
    if s.len() == 0 {
        (0, 1)
    } else {
        frac_add(sum_fracs(s.drop_last()), s.last())
    }
}

/// Every fraction of the sequence has a positive denominator and a nonnegative numerator.
pub open spec fn all_nonneg(s: Seq<(int, int)>) -> bool {
    forall|i: int| 0 <= i < s.len() ==> frac_nonneg(#[trigger] s[i])
}

pub proof fn lemma_sum_nonneg(s: Seq<(int, int)>)
    requires
        all_nonneg(s),
    ensures
        frac_nonneg(sum_fracs(s)),
    decreases s.len(),
{
    if s.len() > 0 {
        lemma_sum_nonneg(s.drop_last());
        let a = sum_fracs(s.drop_last());
        let b = s.last();
        assert(frac_nonneg(b));
        assert(a.0 * b.1 >= 0 && b.0 * a.1 >= 0 && a.1 * b.1 > 0) by (nonlinear_arith)
            requires
                a.0 >= 0,
                a.1 > 0,
                b.0 >= 0,
                b.1 > 0,
        ;
    }
}

/// Adding the same nonnegative fraction to both sides keeps `<=`.
pub proof fn lemma_le_add_both(a: (int, int), b: (int, int), t: (int, int))
    requires
        frac_nonneg(a),
        frac_nonneg(b),
        frac_nonneg(t),
        frac_le(a, b),
    ensures
        frac_le(frac_add(a, t), frac_add(b, t)),
{
    let (an, ad) = a;
    let (bn, bd) = b;
    let (tn, td) = t;
    assert((an * td + tn * ad) * (bd * td) <= (bn * td + tn * bd) * (ad * td)) by (nonlinear_arith)
        requires
            an * bd <= bn * ad,
            ad > 0,
            bd > 0,
            td > 0,
    ;
}

/// Adding a nonnegative fraction to the larger side keeps `<=`.
pub proof fn lemma_le_add_right(a: (int, int), b: (int, int), t: (int, int))
    requires
        frac_nonneg(a),
        frac_nonneg(b),
        frac_nonneg(t),
        frac_le(a, b),
    ensures
        frac_le(a, frac_add(b, t)),
{
    let (an, ad) = a;
    let (bn, bd) = b;
    let (tn, td) = t;
    assert(an * (bd * td) <= (bn * td + tn * bd) * ad) by (nonlinear_arith)
        requires
            an * bd <= bn * ad,
            ad > 0,
            bd > 0,
            td > 0,
            tn >= 0,
    ;
}

} // verus!
