//! Fixed-point units and the single-outcome Kelly formula.
//!
//! The whole engine works in micro-units: the integer `n` stands for the real
//! number `n / 1_000_000`. Probabilities live in `[0, SCALE]`, stake
//! fractions and caps in `[0, SCALE]`, and decimal odds in `[0, ODDS_MAX]`
//! (a decimal-odds value `d` is worth a wager only when `d > SCALE`, i.e.
//! `d > 1.0`).
use vstd::prelude::*;

verus! {

/// One whole unit (1.0) in micro-units.
pub const SCALE: i64 = 1_000_000;

/// Largest decimal-odds value the engine accepts, in micro-units
/// (a billion-to-one price). Keeps every intermediate product within `i128`.
pub const ODDS_MAX: i64 = 1_000_000_000_000_000;

/// The Kelly fraction for one wager, in micro-units.
///
/// For net odds `b = d - 1` and win probability `p` the Kelly stake is
/// `clamp((b*p - (1-p)) / b, 0, 1)`; in micro-units the numerator of the
/// unclamped fraction reduces to `p*d - SCALE*SCALE`. Odds `d <= 1` admit no
/// wager, so the fraction is 0 there.
pub open spec fn spec_kelly_fraction(p: int, d: int) -> int {
    if d <= SCALE {
        0
    } else {
        let num = p * d - SCALE * SCALE;
        if num <= 0 {
            0
        } else {
            let f = num / (d - SCALE);
            if f > SCALE {
                SCALE as int
            } else {
                f
            }
        }
    }
}

/// The Kelly fraction is a valid stake fraction, there is no stake at all
/// whenever the bettor's probability does not beat the price's implied
/// probability (`p <= 1/d`, i.e. `p*d <= 1` in real terms), and the whole
/// bankroll is staked only on a certainty.
pub proof fn lemma_kelly_fraction_range(p: int, d: int)
    requires
        0 <= p <= SCALE,
    ensures
        0 <= spec_kelly_fraction(p, d) <= SCALE,
        p * d <= SCALE * SCALE ==> spec_kelly_fraction(p, d) == 0,
        p < SCALE ==> spec_kelly_fraction(p, d) < SCALE,
{
    if d > SCALE {
        let num = p * d - SCALE * SCALE;
        if num > 0 {
            assert(num / (d - SCALE) >= 0) by (nonlinear_arith)
                requires num > 0 && d - SCALE > 0;
            if p < SCALE {
                assert(num / (d - SCALE) < SCALE) by (nonlinear_arith)
                    requires
                        num == p * d - SCALE * SCALE,
                        p < SCALE,
                        d > SCALE,
                        SCALE == 1_000_000i64,
                ;
            }
        }
    }
}

/// Computes `spec_kelly_fraction` exactly.
///
/// `p` is the bettor's probability for the backed side and `d` the decimal
/// odds offered on it, both in micro-units.
pub fn kelly_fraction(p: i64, d: i64) -> (f: i64)
    requires
        0 <= p <= SCALE,
        0 <= d <= ODDS_MAX,
    ensures
        f == spec_kelly_fraction(p as int, d as int),
        0 <= f <= SCALE,
        p * d <= SCALE * SCALE ==> f == 0,
{
    proof {
        lemma_kelly_fraction_range(p as int, d as int);
    }
    if d <= SCALE {
        return 0;
    }
    proof {
        lemma_mul_le(p as int, SCALE as int, d as int, ODDS_MAX as int);
    }
    let pd: u128 = (p as u128) * (d as u128);
    let whole: u128 = (SCALE as u128) * (SCALE as u128);
    if pd <= whole {
        return 0;
    }
    let num: u128 = pd - whole;
    let b: u128 = (d - SCALE) as u128;
    let f: u128 = num / b;
    proof {
        assert((p * d - SCALE * SCALE) as u128 == num);
        lemma_u128_div_bound(num, b);
    }
    if f > SCALE as u128 {
        SCALE
    } else {
        f as i64
    }
}

/// Products of nonnegative values grow monotonically in both factors.
pub proof fn lemma_mul_le(a: int, amax: int, b: int, bmax: int)
    requires
        0 <= a <= amax,
        0 <= b <= bmax,
    ensures
        a * b <= amax * bmax,
{
    assert(a * b <= amax * bmax) by (nonlinear_arith)
        requires 0 <= a <= amax && 0 <= b <= bmax;
}

/// Floor division on nonnegative machine integers agrees with the
/// mathematical quotient and never exceeds the dividend.
pub proof fn lemma_u128_div_bound(a: u128, b: u128)
    requires
        b > 0,
    ensures
        a / b <= a,
        a / b == (a as int) / (b as int),
{
    assert(a / b <= a) by (nonlinear_arith)
        requires b > 0;
}

/// Clamps `x` into `[lo, hi]`.
pub open spec fn spec_clamp(x: int, lo: int, hi: int) -> int {
    if x < lo {
        lo
    } else if x > hi {
        hi
    } else {
        x
    }
}

/// Quotient rounded toward zero, the rounding the engine uses for signed
/// fixed-point quantities.
pub open spec fn spec_div_toward_zero(a: int, b: int) -> int {
    if a >= 0 {
        a / b
    } else {
        -((-a) / b)
    }
}

/// Executes `spec_div_toward_zero` on machine integers.
pub fn div_toward_zero(a: i128, b: i128) -> (q: i128)
    requires
        0 < b,
        -0x7fff_ffff_ffff_ffff_ffff_ffff_ffff_ffff <= a,
    ensures
        q == spec_div_toward_zero(a as int, b as int),
        a >= 0 ==> 0 <= q <= a,
        a < 0 ==> a <= q <= 0,
{
    if a >= 0 {
        let q: u128 = (a as u128) / (b as u128);
        proof {
            lemma_u128_div_bound(a as u128, b as u128);
        }
        q as i128
    } else {
        let m: u128 = (-a) as u128;
        let q: u128 = m / (b as u128);
        proof {
            lemma_u128_div_bound(m, b as u128);
        }
        -(q as i128)
    }
}

} // verus!
