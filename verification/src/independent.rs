//! Independent Kelly allocation over mutually exclusive outcomes.
//!
//! Each outcome gets its own single-wager Kelly fraction, computed against
//! odds derived from its market probability; if the fractions together
//! exceed the stake cap they are scaled down uniformly. This ignores the
//! coupling between mutually exclusive outcomes and is an approximation by
//! design; the exact allocator models the coupling.
use vstd::prelude::*;
use crate::fixed::SCALE;
use crate::fixed::spec_kelly_fraction;
use crate::fixed::spec_clamp;
use crate::fixed::kelly_fraction;
use crate::single::derive_market_odds;
use crate::sums::spec_sum;
use crate::sums::lemma_sum_push;
use crate::sums::lemma_sum_nonneg;
use crate::sums::lemma_sum_take_succ;
use crate::sums::lemma_sum_take_all;
use vstd::arithmetic::div_mod::lemma_fundamental_div_mod;

verus! {

/// Largest element `cap_fractions` accepts, in micro-units.
pub const ELEM_MAX: i64 = 1_000_000_000_000;

/// One leg of a mutually exclusive set: the market's probability for the
/// outcome and the bettor's own, both in micro-units. Values outside
/// `[0, SCALE]` are clamped before use.
#[derive(Clone, Copy)]
pub struct OutcomeProbs {
    pub market: i64,
    pub yours: i64,
}

/// The allocation for one outcome: the derived decimal odds, the unscaled
/// Kelly fraction and the recommended (possibly scaled-down) fraction, all
/// in micro-units.
#[derive(Clone, Copy)]
pub struct OutcomeStakes {
    pub odds: i64,
    pub fraction: i64,
    pub recommended: i64,
}

/// Odds derived from an outcome's market probability: `1/p`, with the
/// probability clamped into the open unit interval.
pub open spec fn spec_outcome_odds(o: OutcomeProbs) -> int {
    SCALE * SCALE / spec_clamp(o.market as int, 1, SCALE - 1)
}

/// The outcome's unscaled Kelly fraction at those odds.
pub open spec fn spec_outcome_fraction(o: OutcomeProbs) -> int {
    spec_kelly_fraction(spec_clamp(o.yours as int, 0, SCALE as int), spec_outcome_odds(o))
}

/// Scales stake fractions down to a total of at most `cap`.
///
/// When the fractions already sum to at most `cap` they are returned
/// unchanged; otherwise each is multiplied by `cap / total` (rounded down),
/// so the scaled sum never exceeds `cap`.
pub fn cap_fractions(f: &Vec<i64>, cap: i64) -> (r: Vec<i64>)
    requires
        1 <= cap <= SCALE,
        forall|i: int| 0 <= i < f@.len() ==> 0 <= #[trigger] f@[i] <= ELEM_MAX,
    ensures
        r@.len() == f@.len(),
        spec_sum(f@) <= cap ==> r@ == f@,
        spec_sum(f@) > cap ==> forall|i: int|
            0 <= i < r@.len() ==> #[trigger] r@[i] == f@[i] * cap / spec_sum(f@),
        spec_sum(r@) <= cap,
        forall|i: int| 0 <= i < r@.len() ==> 0 <= #[trigger] r@[i] <= f@[i],
{
    proof {
        lemma_sum_nonneg(f@);
    }
    let n = f.len();
    let mut total: i128 = 0;
    let mut i: usize = 0;
    while i < n
        invariant
            i <= n,
            n == f@.len(),
            total == spec_sum(f@.take(i as int)),
            0 <= total <= (i as int) * (ELEM_MAX as int),
            forall|k: int| 0 <= k < f@.len() ==> 0 <= #[trigger] f@[k] <= ELEM_MAX,
        decreases n - i,
    {
        proof {
            lemma_sum_take_succ(f@, i as int);
            assert((i as int) * (ELEM_MAX as int) + ELEM_MAX == ((i + 1) as int) * (ELEM_MAX as int))
                by (nonlinear_arith);
        }
        total = total + f[i] as i128;
        i = i + 1;
    }
    proof {
        lemma_sum_take_all(f@);
    }
    if total <= cap as i128 {
        let r = f.clone();
        proof {
            assert(r@ == f@);
        }
        return r;
    }
    let mut r: Vec<i64> = Vec::new();
    let mut j: usize = 0;
    while j < n
        invariant
            j <= n,
            n == f@.len(),
            r@.len() == j,
            total == spec_sum(f@),
            (cap as int) < total,
            1 <= cap <= SCALE,
            forall|k: int| 0 <= k < f@.len() ==> 0 <= #[trigger] f@[k] <= ELEM_MAX,
            forall|k: int| 0 <= k < j ==> #[trigger] r@[k] == f@[k] * cap / (total as int),
            forall|k: int| 0 <= k < j ==> 0 <= #[trigger] r@[k] <= f@[k],
            spec_sum(r@) * total <= spec_sum(f@.take(j as int)) * cap,
        decreases n - j,
    {
        let fj: i64 = f[j];
        proof {
            crate::fixed::lemma_mul_le(fj as int, ELEM_MAX as int, cap as int, SCALE as int);
        }
        let scaled_u: u128 = (fj as u128) * (cap as u128) / (total as u128);
        proof {
            lemma_fundamental_div_mod((fj as int) * (cap as int), total as int);
            assert(0 <= scaled_u <= fj && scaled_u * total <= fj * cap) by (nonlinear_arith)
                requires
                    scaled_u == (fj as int) * (cap as int) / (total as int),
                    (total as int) * ((fj as int) * (cap as int) / (total as int)) + ((fj as int)
                        * (cap as int)) % (total as int) == (fj as int) * (cap as int),
                    0 <= ((fj as int) * (cap as int)) % (total as int) < total,
                    0 <= fj,
                    1 <= cap,
                    cap < total,
            ;
        }
        let scaled: i64 = scaled_u as i64;
        proof {
            lemma_sum_push(r@, scaled);
            lemma_sum_take_succ(f@, j as int);
            assert(spec_sum(r@) * total + scaled * total == (spec_sum(r@) + scaled) * total)
                by (nonlinear_arith);
            assert(spec_sum(f@.take(j as int)) * cap + f@[j as int] * cap == (spec_sum(
                f@.take(j as int),
            ) + f@[j as int]) * cap) by (nonlinear_arith);
        }
        r.push(scaled);
        j = j + 1;
    }
    proof {
        lemma_sum_take_all(f@);
        assert(spec_sum(r@) <= cap) by (nonlinear_arith)
            requires
                spec_sum(r@) * total <= total * (cap as int),
                0 < total,
        ;
    }
    r
}

/// Computes the independent-Kelly allocation: per-outcome odds and Kelly
/// fractions, then a uniform scale-down whenever the fractions exceed the
/// cap. The recommended fractions never sum to more than `cap`, and when
/// the raw fractions already respect the cap they are passed through
/// unchanged.
pub fn independent_allocate(outcomes: &Vec<OutcomeProbs>, cap: i64) -> (r: Vec<OutcomeStakes>)
    requires
        1 <= cap <= SCALE,
    ensures
        r@.len() == outcomes@.len(),
        forall|i: int| 0 <= i < r@.len() ==> #[trigger] r@[i].odds == spec_outcome_odds(
            outcomes@[i],
        ),
        forall|i: int| 0 <= i < r@.len() ==> #[trigger] r@[i].fraction == spec_outcome_fraction(
            outcomes@[i],
        ),
        forall|i: int| 0 <= i < r@.len() ==> 0 <= #[trigger] r@[i].recommended <= r@[i].fraction
            <= SCALE,
        spec_sum(r@.map_values(|o: OutcomeStakes| o.recommended)) <= cap,
        spec_sum(r@.map_values(|o: OutcomeStakes| o.fraction)) <= cap ==> forall|i: int|
            0 <= i < r@.len() ==> #[trigger] r@[i].recommended == r@[i].fraction,
        spec_sum(r@.map_values(|o: OutcomeStakes| o.fraction)) > cap ==> forall|i: int|
            0 <= i < r@.len() ==> #[trigger] r@[i].recommended == r@[i].fraction * cap / spec_sum(
                r@.map_values(|o: OutcomeStakes| o.fraction),
            ),
{
    let n = outcomes.len();
    let mut odds: Vec<i64> = Vec::new();
    let mut fracs: Vec<i64> = Vec::new();
    let mut i: usize = 0;
    while i < n
        invariant
            i <= n,
            n == outcomes@.len(),
            odds@.len() == i,
            fracs@.len() == i,
            forall|k: int| 0 <= k < i ==> #[trigger] odds@[k] == spec_outcome_odds(outcomes@[k]),
            forall|k: int| 0 <= k < i ==> #[trigger] fracs@[k] == spec_outcome_fraction(
                outcomes@[k],
            ),
            forall|k: int| 0 <= k < i ==> 0 <= #[trigger] fracs@[k] <= SCALE,
        decreases n - i,
    {
        let o = outcomes[i];
        let yours: i64 = if o.yours < 0 {
            0
        } else if o.yours > SCALE {
            SCALE
        } else {
            o.yours
        };
        let d = derive_market_odds(o.market);
        let f = kelly_fraction(yours, d);
        odds.push(d);
        fracs.push(f);
        i = i + 1;
    }
    let recs = cap_fractions(&fracs, cap);
    let mut r: Vec<OutcomeStakes> = Vec::new();
    let mut j: usize = 0;
    while j < n
        invariant
            j <= n,
            n == outcomes@.len(),
            odds@.len() == n,
            fracs@.len() == n,
            recs@.len() == n,
            r@.len() == j,
            forall|k: int| 0 <= k < n ==> #[trigger] odds@[k] == spec_outcome_odds(outcomes@[k]),
            forall|k: int| 0 <= k < n ==> #[trigger] fracs@[k] == spec_outcome_fraction(
                outcomes@[k],
            ),
            forall|k: int| 0 <= k < n ==> 0 <= #[trigger] fracs@[k] <= SCALE,
            forall|k: int| 0 <= k < n ==> 0 <= #[trigger] recs@[k] <= fracs@[k],
            spec_sum(fracs@) <= cap ==> recs@ == fracs@,
            spec_sum(fracs@) > cap ==> forall|k: int|
                0 <= k < n ==> #[trigger] recs@[k] == fracs@[k] * cap / spec_sum(fracs@),
            spec_sum(recs@) <= cap,
            forall|k: int| 0 <= k < j ==> #[trigger] r@[k] == (OutcomeStakes {
                odds: odds@[k],
                fraction: fracs@[k],
                recommended: recs@[k],
            }),
        decreases n - j,
    {
        r.push(OutcomeStakes { odds: odds[j], fraction: fracs[j], recommended: recs[j] });
        j = j + 1;
    }
    proof {
        assert(r@.map_values(|o: OutcomeStakes| o.recommended) =~= recs@);
        assert(r@.map_values(|o: OutcomeStakes| o.fraction) =~= fracs@);
    }
    r
}

} // verus!
