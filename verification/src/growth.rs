//! Fixed-point natural logarithm.
//!
//! `ln_pico` evaluates `ln(x / PICO)` in pico-units (`1e-12`). The argument is
//! first normalized into `[PICO, 2*PICO)` by counting doublings and halvings,
//! then `ln` of the normalized mantissa is taken from the inverse hyperbolic
//! tangent series `ln(m) = 2 * (y + y^3/3 + y^5/5 + ...)` with
//! `y = (m-1)/(m+1)`, and the power-of-two exponent contributes multiples of
//! `ln 2`. Everything is integer arithmetic, so the result is a deterministic
//! function of the argument, pinned by `spec_ln_pico`.
use vstd::prelude::*;
use vstd::arithmetic::div_mod::lemma_fundamental_div_mod;
use vstd::arithmetic::power2::pow2;
use vstd::arithmetic::power2::lemma_pow2_unfold;
use vstd::arithmetic::power2::lemma_pow2_strictly_increases;
use vstd::arithmetic::power2::lemma2_to64_rest;
use crate::fixed::lemma_mul_le;

verus! {

/// One whole unit (1.0) at the logarithm's resolution.
pub const PICO: u128 = 1_000_000_000_000;

/// Working resolution of the series expansion.
pub const FEMTO: u128 = 1_000_000_000_000_000;

/// ln(2) in pico-units, rounded to nearest.
pub const LN2_PICO: i64 = 693_147_180_560;

/// Largest argument `ln_pico` accepts.
pub const LN_ARG_MAX: u128 = 10_000_000_000_000_000_000_000;

/// Bound on the magnitude of `ln_pico` over its whole domain.
pub const LN_MAG: i64 = 40_000_000_000_000;

/// Upper bound for the series variable `y`, one third of a unit.
const Y_MAX: u128 = 333_333_333_333_333;

/// Doubles `m` until it reaches `PICO`; returns the mantissa and the number
/// of doublings taken.
pub open spec fn spec_norm_up(m: int) -> (int, int)
    decreases 2 * (PICO as int) - m,
{
    if m < 1 {
        (PICO as int, 0)
    } else if m >= PICO {
        (m, 0)
    } else {
        let r = spec_norm_up(2 * m);
        (r.0, r.1 + 1)
    }
}

/// Halves `m` until it drops below `2*PICO`; returns the mantissa and the
/// number of halvings taken.
pub open spec fn spec_norm_down(m: int) -> (int, int)
    decreases m,
{
    if m < 2 * (PICO as int) {
        (m, 0)
    } else {
        let r = spec_norm_down(m / 2);
        (r.0, r.1 + 1)
    }
}

/// Tail of the arctanh series at `FEMTO` resolution: the terms
/// `y^(2j+1) / (2j+1)` for `j = 1 .. 9`, where `t` carries `y^(2j-1)` and
/// `y2` carries `y^2`.
pub open spec fn spec_atanh_tail(y2: int, t: int, j: int) -> int
    decreases 10 - j,
{
    if j < 1 || j > 9 {
        0
    } else {
        let tn = t * y2 / (FEMTO as int);
        tn / (2 * j + 1) + spec_atanh_tail(y2, tn, j + 1)
    }
}

/// `ln(x / PICO)` in pico-units, as computed by the fixed-point algorithm:
/// normalize to `[PICO, 2*PICO)`, expand the arctanh series there, and add
/// `ln 2` once per power of two removed.
pub open spec fn spec_ln_pico(x: int) -> int {
    let up = spec_norm_up(x);
    let down = spec_norm_down(up.0);
    let m = down.0;
    let y = (m - PICO) * FEMTO / (m + PICO as int);
    let s = y + spec_atanh_tail(y * y / (FEMTO as int), y, 1);
    2 * s / 1000 + (down.1 - up.1) * LN2_PICO
}

fn norm_up(m: u128) -> (r: (u128, u32))
    requires
        1 <= m < 2 * PICO,
    ensures
        r.0 as int == spec_norm_up(m as int).0,
        r.1 as int == spec_norm_up(m as int).1,
        PICO <= r.0 < 2 * PICO,
        r.0 as int == m * pow2(r.1 as nat),
        r.1 <= 40,
    decreases 2 * (PICO as int) - m,
{
    if m >= PICO {
        proof {
            vstd::arithmetic::power2::lemma2_to64();
            assert(m * pow2(0) == m * 1 == m);
        }
        (m, 0)
    } else {
        let r = norm_up(2 * m);
        proof {
            lemma_pow2_unfold((r.1 + 1) as nat);
            assert(r.0 as int == m * pow2((r.1 + 1) as nat)) by (nonlinear_arith)
                requires
                    r.0 as int == (2 * m) * pow2(r.1 as nat),
                    pow2((r.1 + 1) as nat) == 2 * pow2(r.1 as nat),
            ;
            if r.1 + 1 > 40 {
                lemma2_to64_rest();
                assert(r.0 as int >= pow2(41)) by (nonlinear_arith)
                    requires
                        r.0 as int == m * pow2(41),
                        m >= 1,
                        pow2(41) >= 0,
                ;
            }
        }
        (r.0, r.1 + 1)
    }
}

fn norm_down(m: u128) -> (r: (u128, u32))
    requires
        PICO <= m <= LN_ARG_MAX,
    ensures
        r.0 as int == spec_norm_down(m as int).0,
        r.1 as int == spec_norm_down(m as int).1,
        PICO <= r.0 < 2 * PICO,
        pow2(r.1 as nat) * PICO <= m,
        r.1 <= 33,
    decreases m,
{
    if m < 2 * PICO {
        proof {
            vstd::arithmetic::power2::lemma2_to64();
        }
        (m, 0)
    } else {
        proof {
            lemma_fundamental_div_mod(m as int, 2);
        }
        let r = norm_down(m / 2);
        proof {
            lemma_pow2_unfold((r.1 + 1) as nat);
            assert(pow2((r.1 + 1) as nat) * PICO == 2 * (pow2(r.1 as nat) * (PICO as int)))
                by (nonlinear_arith)
                requires pow2((r.1 + 1) as nat) == 2 * pow2(r.1 as nat);
            if r.1 + 1 > 33 {
                lemma2_to64_rest();
            }
        }
        (r.0, r.1 + 1)
    }
}

fn atanh_tail(y2: u128, t: u128, j: u32) -> (r: u128)
    requires
        1 <= j <= 10,
        y2 <= FEMTO / 8,
        t <= FEMTO,
    ensures
        r as int == spec_atanh_tail(y2 as int, t as int, j as int),
        r <= t,
    decreases 10 - j,
{
    if j > 9 {
        0
    } else {
        proof {
            lemma_mul_le(t as int, FEMTO as int, y2 as int, (FEMTO / 8) as int);
        }
        let tn: u128 = t * y2 / FEMTO;
        proof {
            assert(tn <= t / 8) by (nonlinear_arith)
                requires
                    tn == t * y2 / (FEMTO as int),
                    y2 <= FEMTO / 8,
                    0 <= t,
                    FEMTO == 1_000_000_000_000_000u128,
            ;
        }
        let rest = atanh_tail(y2, tn, j + 1);
        tn / (2 * j + 1) as u128 + rest
    }
}

/// `ln(x / PICO)` in pico-units. Exactly `spec_ln_pico(x)`, and bounded by
/// `LN_MAG` in magnitude for every accepted argument.
pub fn ln_pico(x: u128) -> (r: i64)
    requires
        1 <= x <= LN_ARG_MAX,
    ensures
        r as int == spec_ln_pico(x as int),
        -LN_MAG <= r <= LN_MAG,
        x >= PICO ==> r >= 0,
{
    let (m1, up): (u128, u32) = if x < PICO {
        norm_up(x)
    } else {
        (x, 0)
    };
    proof {
        assert(spec_norm_up(x as int).0 == m1 as int && spec_norm_up(x as int).1 == up as int);
        assert(m1 < 2 * PICO ==> spec_norm_down(m1 as int) == (m1 as int, 0int));
    }
    let (m, down): (u128, u32) = if m1 >= 2 * PICO {
        norm_down(m1)
    } else {
        (m1, 0)
    };
    let num: u128 = m - PICO;
    let den: u128 = m + PICO;
    proof {
        lemma_mul_le(num as int, PICO as int, FEMTO as int, FEMTO as int);
    }
    let y: u128 = num * FEMTO / den;
    proof {
        lemma_fundamental_div_mod((num * FEMTO) as int, den as int);
        assert(3 * y <= FEMTO) by (nonlinear_arith)
            requires
                y * den + (num * FEMTO) % (den as int) == num * (FEMTO as int),
                0 <= (num * FEMTO) % (den as int),
                3 * num <= den,
                0 < den,
                0 <= y,
                FEMTO == 1_000_000_000_000_000u128,
        ;
        lemma_mul_le(y as int, Y_MAX as int, y as int, Y_MAX as int);
    }
    let y2: u128 = y * y / FEMTO;
    let s: u128 = y + atanh_tail(y2, y, 1);
    let lnm: u128 = 2 * s / 1000;
    let k: i64 = down as i64 - up as i64;
    lnm as i64 + k * LN2_PICO
}

} // verus!
