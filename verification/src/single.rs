//! Single-wager Kelly sizing.
//!
//! Given the bettor's probability for the backed side, the decimal odds
//! offered on it and the bankroll, this module reports the Kelly stake
//! fraction, recommended stakes, expected value, implied probability, edge,
//! fair odds and the expected log-growth rate at full Kelly. Probabilities,
//! fractions and odds are micro-units; stakes are in the bankroll's own
//! (minor) currency unit.
use vstd::prelude::*;
use crate::fixed::SCALE;
use crate::fixed::ODDS_MAX;
use crate::fixed::spec_kelly_fraction;
use crate::fixed::spec_div_toward_zero;
use crate::fixed::kelly_fraction;
use crate::fixed::div_toward_zero;
use crate::fixed::lemma_kelly_fraction_range;
use crate::fixed::lemma_mul_le;
use crate::growth::PICO;
use crate::growth::spec_ln_pico;
use crate::growth::ln_pico;
use crate::growth::LN_MAG;
use vstd::arithmetic::div_mod::lemma_fundamental_div_mod;
use crate::odds::Odds;

verus! {

/// Largest bankroll accepted, in minor currency units.
pub const BANKROLL_MAX: i64 = 1_000_000_000_000_000;

/// Divisor that turns a summed `probability * ln` value (micro times pico)
/// into micro-basis-points.
pub const GROWTH_DIV: i128 = 100_000_000;

/// Expected profit per unit staked, in micro-units: `p*b - (1-p)`, which in
/// micro-units reduces to `(p*d - 1) / 1`.
pub open spec fn spec_expected_value(p: int, d: int) -> int {
    spec_div_toward_zero(p * d - SCALE * SCALE, SCALE as int)
}

/// Expected log growth of the bankroll at full Kelly, in micro-basis-points:
/// `p*ln(1 + f*b) + (1-p)*ln(1 - f)`, taken over the fixed-point logarithm;
/// defined as 0 when no stake is recommended.
pub open spec fn spec_log_growth_microbp(p: int, d: int) -> int {
    let f = spec_kelly_fraction(p, d);
    if f == 0 {
        0
    } else {
        let t1 = p * spec_ln_pico(PICO + f * (d - SCALE));
        let t0 = if p == SCALE {
            0
        } else {
            (SCALE - p) * spec_ln_pico(PICO - f * SCALE)
        };
        spec_div_toward_zero(t1 + t0, GROWTH_DIV as int)
    }
}

/// Everything the engine reports for one wager. Quantities that are
/// undefined at a degenerate price (`d <= 1`) or probability are `None`.
pub struct SingleBetResult {
    /// Kelly stake fraction in micro-units, in `[0, SCALE]`.
    pub fraction: i64,
    /// Stake at full Kelly, `bankroll * fraction`, rounded down.
    pub full_stake: i64,
    /// Stake at half Kelly.
    pub half_stake: i64,
    /// Stake at quarter Kelly.
    pub quarter_stake: i64,
    /// Expected profit per unit staked, micro-units; `None` when `d <= 1`.
    pub ev: Option<i64>,
    /// Probability implied by the price, `1/d`, micro-units; `None` when
    /// `d <= 1`.
    pub implied_prob: Option<i64>,
    /// `p` minus the implied probability, micro-units; `None` when `d <= 1`.
    pub edge: Option<i64>,
    /// The bettor's fair decimal odds `1/p`, micro-units; `None` when
    /// `p == 0` (an infinite price).
    pub fair_odds: Option<i64>,
    /// Expected log growth at full Kelly, micro-basis-points; 0 when no
    /// stake is recommended.
    pub log_growth_bp: i64,
}

/// No edge means no stake: whenever the bettor's probability does not exceed
/// the implied probability of the price, the Kelly fraction is zero; and the
/// fraction is a valid bankroll share on every input.
pub proof fn lemma_no_edge_no_stake(p: int, d: int)
    requires
        0 <= p <= SCALE,
        SCALE < d,
    ensures
        0 <= spec_kelly_fraction(p, d) <= SCALE,
        p - SCALE * SCALE / d <= 0 ==> spec_kelly_fraction(p, d) == 0,
{
    lemma_kelly_fraction_range(p, d);
    if p <= SCALE * SCALE / d {
        lemma_fundamental_div_mod(SCALE * SCALE, d);
        assert(p * d <= SCALE * SCALE) by (nonlinear_arith)
            requires
                p <= SCALE * SCALE / d,
                d * (SCALE * SCALE / d) + SCALE * SCALE % d == SCALE * SCALE,
                0 <= SCALE * SCALE % d,
                0 < d,
        ;
    }
}

/// Computes the full single-wager report. Every field is pinned to the spec
/// formulas; stakes are exact integer scalings of the Kelly fraction.
pub fn single_bet_kelly(p: i64, d: i64, bankroll: i64) -> (r: SingleBetResult)
    requires
        0 <= p <= SCALE,
        0 <= d <= ODDS_MAX,
        0 <= bankroll <= BANKROLL_MAX,
    ensures
        r.fraction == spec_kelly_fraction(p as int, d as int),
        0 <= r.fraction <= SCALE,
        r.full_stake == bankroll * r.fraction / (SCALE as int),
        r.half_stake == bankroll * r.fraction / (2 * SCALE as int),
        r.quarter_stake == bankroll * r.fraction / (4 * SCALE as int),
        r.ev is Some <==> d > SCALE,
        r.ev is Some ==> r.ev->0 == spec_expected_value(p as int, d as int),
        r.implied_prob is Some <==> d > SCALE,
        r.implied_prob is Some ==> r.implied_prob->0 == SCALE * SCALE / (d as int),
        r.edge is Some <==> d > SCALE,
        r.edge is Some ==> r.edge->0 == p - SCALE * SCALE / (d as int),
        r.fair_odds is Some <==> p > 0,
        r.fair_odds is Some ==> r.fair_odds->0 == SCALE * SCALE / (p as int),
        r.log_growth_bp == spec_log_growth_microbp(p as int, d as int),
{
    proof {
        lemma_kelly_fraction_range(p as int, d as int);
    }
    let fraction = kelly_fraction(p, d);

    proof {
        lemma_mul_le(bankroll as int, BANKROLL_MAX as int, fraction as int, SCALE as int);
    }
    let bf: u128 = (bankroll as u128) * (fraction as u128);
    proof {
        assert(bf / (SCALE as u128) <= bankroll) by (nonlinear_arith)
            requires
                bf == bankroll * fraction,
                0 <= fraction <= SCALE,
                0 <= bankroll,
                SCALE == 1_000_000i64,
        ;
        assert(bf / ((2 * SCALE) as u128) <= bf / (SCALE as u128) && bf / ((4 * SCALE) as u128)
            <= bf / (SCALE as u128)) by (nonlinear_arith)
            requires
                0 <= bf,
                SCALE == 1_000_000i64,
        ;
    }
    let full_stake: i64 = (bf / (SCALE as u128)) as i64;
    let half_stake: i64 = (bf / ((2 * SCALE) as u128)) as i64;
    let quarter_stake: i64 = (bf / ((4 * SCALE) as u128)) as i64;

    let whole: u128 = (SCALE as u128) * (SCALE as u128);
    let (ev, implied_prob, edge) = if d > SCALE {
        proof {
            lemma_mul_le(p as int, SCALE as int, d as int, ODDS_MAX as int);
        }
        let pd: i128 = (p as i128) * (d as i128);
        let ev_val: i128 = div_toward_zero(pd - (whole as i128), SCALE as i128);
        proof {
            if pd - whole >= 0 {
                assert((pd - whole) / (SCALE as int) <= ODDS_MAX) by (nonlinear_arith)
                    requires
                        0 <= pd - whole <= (SCALE as int) * (ODDS_MAX as int),
                        SCALE == 1_000_000i64,
                        ODDS_MAX == 1_000_000_000_000_000i64,
                ;
            }
        }
        let implied: i64 = (whole / (d as u128)) as i64;
        proof {
            assert(whole / (d as u128) < SCALE) by (nonlinear_arith)
                requires
                    whole == (SCALE as u128) * (SCALE as u128),
                    d > SCALE,
                    SCALE == 1_000_000i64,
            ;
            assert(-(SCALE * SCALE) <= pd - whole <= pd);
        }
        (Some(ev_val as i64), Some(implied), Some(p - implied))
    } else {
        (None, None, None)
    };

    let fair_odds = if p > 0 {
        proof {
            assert(whole / (p as u128) <= whole) by (nonlinear_arith)
                requires
                    p > 0,
                    whole > 0,
            ;
        }
        Some((whole / (p as u128)) as i64)
    } else {
        None
    };

    let log_growth_bp: i64 = if fraction == 0 {
        0
    } else {
        let b: i64 = d - SCALE;
        proof {
            lemma_mul_le(fraction as int, SCALE as int, b as int, ODDS_MAX as int);
        }
        let w1: u128 = PICO + (fraction as u128) * (b as u128);
        let l1: i64 = ln_pico(w1);
        proof {
            assert(-((SCALE as int) * (LN_MAG as int)) <= p * l1 <= (SCALE as int) * (LN_MAG as int))
                by (nonlinear_arith)
                requires
                    0 <= p <= SCALE,
                    -LN_MAG <= l1 <= LN_MAG,
                    0 <= SCALE,
                    0 <= LN_MAG,
            ;
        }
        let t1: i128 = (p as i128) * (l1 as i128);
        let t0: i128 = if p == SCALE {
            0
        } else {
            let w0: u128 = PICO - (fraction as u128) * (SCALE as u128);
            proof {
                lemma_mul_le(fraction as int, SCALE as int, SCALE as int, SCALE as int);
                assert(fraction * SCALE <= (SCALE - 1) * SCALE) by (nonlinear_arith)
                    requires
                        fraction <= SCALE - 1,
                        SCALE == 1_000_000i64,
                        fraction >= 0,
                ;
            }
            let l0: i64 = ln_pico(w0);
            proof {
                assert(-((SCALE as int) * (LN_MAG as int)) <= (SCALE - p) * l0
                    <= (SCALE as int) * (LN_MAG as int)) by (nonlinear_arith)
                    requires
                        0 <= SCALE - p <= SCALE,
                        -LN_MAG <= l0 <= LN_MAG,
                        0 <= SCALE,
                        0 <= LN_MAG,
                ;
            }
            let t: i128 = ((SCALE - p) as i128) * (l0 as i128);
            t
        };
        let tot: i128 = t1 + t0;
        let g: i128 = div_toward_zero(tot, GROWTH_DIV);
        proof {
            assert(-(2 * SCALE * (LN_MAG as int)) <= tot <= 2 * SCALE * (LN_MAG as int));
        }
        g as i64
    };

    SingleBetResult {
        fraction,
        full_stake,
        half_stake,
        quarter_stake,
        ev,
        implied_prob,
        edge,
        fair_odds,
        log_growth_bp,
    }
}

/// The bettor's fair price `1 / p` as an exact rational, convertible into
/// any odds notation. `None` when `p` is zero (an infinite price) or one
/// (no valid price above evens exists).
pub fn fair_odds_rational(p: i64) -> (r: Option<Odds>)
    requires
        0 <= p <= SCALE,
    ensures
        r is Some <==> 0 < p < SCALE,
        r is Some ==> r->0 == (Odds { num: SCALE, den: p }) && r->0.valid(),
{
    if 0 < p && p < SCALE {
        Some(Odds { num: SCALE, den: p })
    } else {
        None
    }
}

/// Decimal odds implied by a market probability under the no-vig assumption,
/// `1 / p`, with the probability clamped into `(0, 1)` first. Micro-units in
/// and out.
pub fn derive_market_odds(pm: i64) -> (d: i64)
    ensures
        d == SCALE * SCALE / crate::fixed::spec_clamp(pm as int, 1, SCALE - 1),
        SCALE < d <= SCALE * SCALE,
{
    let clamped: i64 = if pm < 1 {
        1
    } else if pm > SCALE - 1 {
        SCALE - 1
    } else {
        pm
    };
    let whole: u128 = (SCALE as u128) * (SCALE as u128);
    let d: u128 = whole / (clamped as u128);
    proof {
        assert(SCALE < whole / (clamped as u128) <= SCALE * SCALE) by (nonlinear_arith)
            requires
                whole == (SCALE as u128) * (SCALE as u128),
                1 <= clamped <= SCALE - 1,
                SCALE == 1_000_000i64,
        ;
    }
    d as i64
}

/// Switching the backed side replaces the bettor's probability with its
/// complement; the odds move to the complementary price separately.
pub fn flip_probability(p: i64) -> (q: i64)
    requires
        0 <= p <= SCALE,
    ensures
        q == SCALE - p,
{
    SCALE - p
}

} // verus!
