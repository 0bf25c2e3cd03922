//! Exact Kelly allocation for mutually exclusive outcomes.
//!
//! For outcomes with probabilities `p` and decimal odds `d`, the allocator
//! searches for the stake vector maximizing expected log bankroll growth
//!   sum_i p_i * ln(W_i),   W_i = 1 - sum_j f_j + d_i * f_i,
//! over the capped simplex `{ f >= 0, sum f <= cap }`, by projected gradient
//! ascent with a backtracking step size. The starting point is the
//! independent-Kelly allocation scaled into the cap; a step is accepted only
//! when it improves the (fixed-point) objective, so the result is always
//! feasible and never worse than the start. All arithmetic is fixed-point:
//! fractions, probabilities, odds and the cap are micro-units, wealth
//! multipliers are pico-units, and objective values are in
//! probability-weighted pico-nats.
use vstd::prelude::*;
use crate::fixed::SCALE;
use crate::fixed::ODDS_MAX;
use crate::fixed::spec_kelly_fraction;
use crate::fixed::kelly_fraction;
use crate::fixed::lemma_mul_le;
use crate::growth::spec_ln_pico;
use crate::growth::ln_pico;
use crate::growth::LN_MAG;
use crate::independent::ELEM_MAX;
use crate::independent::cap_fractions;
use crate::sums::spec_sum;
use crate::sums::lemma_sum_push;
use crate::sums::lemma_sum_nonneg;
use crate::sums::lemma_sum_take_succ;
use crate::sums::lemma_sum_take_all;

verus! {

/// Most outcomes one call will size.
pub const N_MAX: usize = 1_000_000;

/// Iteration budget of the ascent loop.
pub const MAX_ITERS: usize = 300;

/// Minimum objective improvement for a step to be accepted, in
/// probability-weighted pico-nats (1e-9 in real terms).
pub const TOL: i128 = 1_000_000_000;

/// Reciprocal wealth used for the gradient when a candidate wealth
/// multiplier is not positive, in micro-units (1e12 in real terms).
pub const INV_CAP: i64 = 1_000_000_000_000_000_000;

/// Initial step size, in micro-units (0.25).
pub const STEP_INIT: i64 = 250_000;

/// Wealth multiplier of outcome `i` in pico-units: `1 - sum f + d_i * f_i`
/// with `fsum`, `d` and `f` in micro-units.
pub open spec fn spec_wealth_pico(fsum: int, d: int, f: int) -> int {
    SCALE * SCALE - fsum * SCALE + d * f
}

/// The objective terms from outcome `i` on: `None` stands for negative
/// infinity, reached as soon as any wealth multiplier is not positive.
pub open spec fn spec_obj_from(p: Seq<i64>, d: Seq<i64>, f: Seq<i64>, fsum: int, i: int) -> Option<
    int,
>
    decreases p.len() - i,
{
    if i < 0 || i >= p.len() {
        Some(0)
    } else {
        let w = spec_wealth_pico(fsum, d[i] as int, f[i] as int);
        if w <= 0 {
            None
        } else {
            match spec_obj_from(p, d, f, fsum, i + 1) {
                None => None,
                Some(v) => Some((p[i] as int) * spec_ln_pico(w) + v),
            }
        }
    }
}

/// Expected log growth of allocation `f`, in probability-weighted pico-nats;
/// `None` is negative infinity.
pub open spec fn spec_objective(p: Seq<i64>, d: Seq<i64>, f: Seq<i64>) -> Option<int> {
    spec_obj_from(p, d, f, spec_sum(f), 0)
}

/// Order on objective values where `None` is below everything.
pub open spec fn spec_obj_ge(a: Option<int>, b: Option<int>) -> bool {
    match b {
        None => true,
        Some(bv) => match a {
            None => false,
            Some(av) => av >= bv,
        },
    }
}

/// The per-outcome independent Kelly fractions.
pub open spec fn spec_kelly_seq(p: Seq<i64>, d: Seq<i64>) -> Seq<i64> {
    Seq::new(p.len(), |i: int| spec_kelly_fraction(p[i] as int, d[i] as int) as i64)
}

/// Fractions scaled into the cap, exactly as `cap_fractions` computes them.
pub open spec fn spec_capped_seq(f: Seq<i64>, cap: int) -> Seq<i64> {
    if spec_sum(f) <= cap {
        f
    } else {
        Seq::new(f.len(), |i: int| (f[i] * cap / spec_sum(f)) as i64)
    }
}

/// The ascent's starting point: independent Kelly scaled into the cap.
pub open spec fn spec_start(p: Seq<i64>, d: Seq<i64>, cap: int) -> Seq<i64> {
    spec_capped_seq(spec_kelly_seq(p, d), cap)
}

/// Nonincreasing order.
pub open spec fn spec_sorted_desc(s: Seq<i64>) -> bool {
    forall|i: int, j: int| 0 <= i < j < s.len() ==> s[i] >= s[j]
}

/// Exact copy of a fraction vector.
fn copy_vec(v: &Vec<i64>) -> (r: Vec<i64>)
    ensures
        r@ == v@,
{
    let mut r: Vec<i64> = Vec::new();
    let mut i: usize = 0;
    while i < v.len()
        invariant
            i <= v@.len(),
            r@ =~= v@.take(i as int),
        decreases v@.len() - i,
    {
        r.push(v[i]);
        proof {
            assert(r@ =~= v@.take(i + 1));
        }
        i = i + 1;
    }
    proof {
        assert(v@.take(v@.len() as int) =~= v@);
    }
    r
}

/// Sorts a copy of `v` into nonincreasing order by insertion; the result
/// holds exactly the elements of `v`.
fn sorted_copy_desc(v: &Vec<i64>) -> (r: Vec<i64>)
    requires
        forall|i: int| 0 <= i < v@.len() ==> 0 <= #[trigger] v@[i] <= ELEM_MAX,
    ensures
        r@.len() == v@.len(),
        spec_sorted_desc(r@),
        r@.to_multiset() == v@.to_multiset(),
        forall|i: int| 0 <= i < r@.len() ==> 0 <= #[trigger] r@[i] <= ELEM_MAX,
{
    let mut r: Vec<i64> = Vec::new();
    let mut i: usize = 0;
    proof {
        assert(r@ =~= Seq::<i64>::empty());
        assert(v@.take(0) =~= Seq::<i64>::empty());
    }
    while i < v.len()
        invariant
            i <= v@.len(),
            r@.len() == i,
            spec_sorted_desc(r@),
            r@.to_multiset() == v@.take(i as int).to_multiset(),
            forall|k: int| 0 <= k < r@.len() ==> 0 <= #[trigger] r@[k] <= ELEM_MAX,
            forall|k: int| 0 <= k < v@.len() ==> 0 <= #[trigger] v@[k] <= ELEM_MAX,
        decreases v@.len() - i,
    {
        let x = v[i];
        let mut pos: usize = 0;
        while pos < r.len() && r[pos] >= x
            invariant
                pos <= r@.len(),
                forall|k: int| 0 <= k < pos ==> #[trigger] r@[k] >= x,
            decreases r@.len() - pos,
        {
            pos = pos + 1;
        }
        let ghost old_r = r@;
        r.insert(pos, x);
        proof {
            vstd::seq_lib::to_multiset_insert(old_r, pos as int, x);
            assert(v@.take(i + 1).drop_last() =~= v@.take(i as int));
            assert(v@.take(i as int).push(v@[i as int]) =~= v@.take(i + 1));
            vstd::seq_lib::to_multiset_build(v@.take(i as int), v@[i as int]);
            assert forall|a: int, b: int| 0 <= a < b < r@.len() implies r@[a] >= r@[b] by {
                if a < pos && b == pos {
                } else if a == pos && b > pos {
                    assert(old_r[b - 1] < x || pos == old_r.len());
                } else if a < pos && b > pos {
                    assert(r@[a] == old_r[a] && r@[b] == old_r[b - 1]);
                } else if a > pos {
                    assert(r@[a] == old_r[a - 1] && r@[b] == old_r[b - 1]);
                } else if b < pos {
                    assert(r@[a] == old_r[a] && r@[b] == old_r[b]);
                }
            }
        }
        i = i + 1;
    }
    proof {
        assert(v@.take(v@.len() as int) =~= v@);
    }
    r
}

/// One projected component: `max(0, x - theta)` for the rational threshold
/// `theta = shift / rho1`, rounded down and held inside `ELEM_MAX`.
spec fn spec_clip(x: int, rho1: int, shift: int) -> int {
    if x * rho1 <= shift {
        0
    } else {
        let q = (x * rho1 - shift) / rho1;
        if q > ELEM_MAX {
            ELEM_MAX as int
        } else {
            q
        }
    }
}

/// Sum of the projected components of a sequence.
spec fn spec_clip_sum(s: Seq<i64>, rho1: int, shift: int) -> int
    decreases s.len(),
{
    if s.len() == 0 {
        0
    } else {
        spec_clip_sum(s.drop_last(), rho1, shift) + spec_clip(s.last() as int, rho1, shift)
    }
}

/// Removing one element removes its projected value from the sum.
proof fn lemma_clip_sum_remove(s: Seq<i64>, j: int, rho1: int, shift: int)
    requires
        0 <= j < s.len(),
    ensures
        spec_clip_sum(s.remove(j), rho1, shift) == spec_clip_sum(s, rho1, shift) - spec_clip(
            s[j] as int,
            rho1,
            shift,
        ),
    decreases s.len(),
{
    if j == s.len() - 1 {
        assert(s.remove(j) =~= s.drop_last());
    } else {
        assert(s.remove(j).drop_last() =~= s.drop_last().remove(j));
        assert(s.remove(j).last() == s.last());
        lemma_clip_sum_remove(s.drop_last(), j, rho1, shift);
        assert(s.drop_last()[j] == s[j]);
    }
}

/// The projected sum depends only on which elements occur, not their order.
proof fn lemma_clip_sum_permutation(s1: Seq<i64>, s2: Seq<i64>, rho1: int, shift: int)
    requires
        s1.to_multiset() == s2.to_multiset(),
    ensures
        spec_clip_sum(s1, rho1, shift) == spec_clip_sum(s2, rho1, shift),
    decreases s1.len(),
{
    broadcast use vstd::seq_lib::group_to_multiset_ensures;

    if s1.len() == 0 {
        assert(s1.to_multiset().len() == s1.len());
        assert(s2.to_multiset().len() == s2.len());
        assert(s2.len() == 0);
    } else {
        let x = s1.last();
        assert(s1.contains(x)) by {
            assert(s1[s1.len() - 1] == x);
        }
        assert(s1.to_multiset().count(x) > 0);
        assert(s2.to_multiset().count(x) > 0);
        assert(s2.contains(x));
        let j = choose|j: int| 0 <= j < s2.len() && s2[j] == x;
        assert(s1.drop_last() =~= s1.remove(s1.len() - 1));
        assert(s1.remove(s1.len() - 1).to_multiset() == s1.to_multiset().remove(x));
        assert(s2.remove(j).to_multiset() == s2.to_multiset().remove(x));
        lemma_clip_sum_permutation(s1.drop_last(), s2.remove(j), rho1, shift);
        lemma_clip_sum_remove(s2, j, rho1, shift);
    }
}

/// On the sorted candidate the threshold subtraction lands inside the cap:
/// the kept prefix gives away exactly its overshoot and everything after
/// the threshold index is clipped to zero.
proof fn lemma_clip_sum_le_cap(u: Seq<i64>, i: int, rho: int, shift: int, cap: int)
    requires
        0 <= rho < u.len(),
        0 <= i <= u.len(),
        0 <= shift,
        shift == spec_sum(u.take(rho + 1)) - cap,
        forall|t: int| 0 <= t < u.len() ==> 0 <= #[trigger] u[t] <= ELEM_MAX,
        forall|t: int| 0 <= t <= rho ==> (u[t] as int) * (rho + 1) > shift,
        forall|t: int| rho < t < u.len() ==> (u[t] as int) * (rho + 1) <= shift,
    ensures
        ({
            let m = if i <= rho + 1 { i } else { rho + 1 };
            &&& spec_clip_sum(u.take(i), rho + 1, shift) * (rho + 1) <= spec_sum(u.take(m)) * (rho
                + 1) - m * shift
            &&& spec_clip_sum(u.take(i), rho + 1, shift) * (rho + 1) >= spec_sum(u.take(m)) * (rho
                + 1) - m * shift - m * rho
        }),
    decreases i,
{
    let rho1 = rho + 1;
    if i == 0 {
        assert(u.take(0) =~= Seq::<i64>::empty());
        assert(spec_clip_sum(u.take(0), rho1, shift) == 0);
        assert(spec_sum(u.take(0)) == 0);
    } else {
        lemma_clip_sum_le_cap(u, i - 1, rho, shift, cap);
        assert(u.take(i).drop_last() =~= u.take(i - 1));
        assert(u.take(i).last() == u[i - 1]);
        let c = spec_clip(u[i - 1] as int, rho1, shift);
        assert(spec_clip_sum(u.take(i), rho1, shift) == spec_clip_sum(u.take(i - 1), rho1, shift)
            + c);
        assert((spec_clip_sum(u.take(i - 1), rho1, shift) + c) * rho1 == spec_clip_sum(
            u.take(i - 1),
            rho1,
            shift,
        ) * rho1 + c * rho1) by (nonlinear_arith);
        assert(i * shift == (i - 1) * shift + shift) by (nonlinear_arith);
        if i - 1 <= rho {
            // A kept component: its clipped value repays at most its
            // overshoot of the threshold.
            let x = u[i - 1] as int;
            let q = (x * rho1 - shift) / rho1;
            assert(x * rho1 > shift);
            assert(c == if q > ELEM_MAX {
                ELEM_MAX as int
            } else {
                q
            });
            vstd::arithmetic::div_mod::lemma_fundamental_div_mod(x * rho1 - shift, rho1);
            // The clip at ELEM_MAX cannot bind: the quotient is at most the
            // component itself.
            assert(q <= x) by (nonlinear_arith)
                requires
                    rho1 * q + (x * rho1 - shift) % rho1 == x * rho1 - shift,
                    0 <= (x * rho1 - shift) % rho1 < rho1,
                    0 <= shift,
                    0 < rho1,
            ;
            assert(c == q);
            assert(x * rho1 - shift - rho <= c * rho1 <= x * rho1 - shift) by (nonlinear_arith)
                requires
                    rho1 * q + (x * rho1 - shift) % rho1 == x * rho1 - shift,
                    0 <= (x * rho1 - shift) % rho1 < rho1,
                    c == q,
                    rho1 == rho + 1,
                    0 < rho1,
            ;
            lemma_sum_take_succ(u, i - 1);
            assert((spec_sum(u.take(i - 1)) + x) * rho1 == spec_sum(u.take(i - 1)) * rho1 + x
                * rho1) by (nonlinear_arith);
            assert(i * rho == (i - 1) * rho + rho) by (nonlinear_arith);
        } else {
            // Past the threshold index: clipped to zero.
            assert((u[i - 1] as int) * rho1 <= shift);
            assert(c == 0);
        }
    }
}

/// Projects a nonnegative candidate onto the capped simplex
/// `{ x >= 0, sum x <= cap }`.
///
/// A candidate already inside the cap is returned unchanged; otherwise the
/// standard Euclidean simplex projection runs: a threshold is read off the
/// descending-sorted components and subtracted from every component, with
/// clamping at zero. The threshold is chosen so that the clipped components
/// provably sum to at most the cap; the integer rounding only undershoots.
fn project_capped(v: &Vec<i64>, cap: i64) -> (r: Vec<i64>)
    requires
        1 <= cap <= SCALE,
        v@.len() <= N_MAX,
        forall|i: int| 0 <= i < v@.len() ==> 0 <= #[trigger] v@[i] <= ELEM_MAX,
    ensures
        r@.len() == v@.len(),
        forall|i: int| 0 <= i < r@.len() ==> 0 <= #[trigger] r@[i] <= cap,
        spec_sum(r@) <= cap,
        spec_sum(v@) <= cap ==> r@ == v@,
        spec_sum(v@) > cap ==> spec_sum(r@) >= cap - v@.len(),
{
    proof {
        lemma_sum_nonneg(v@);
    }
    let n = v.len();
    let mut total: i128 = 0;
    let mut i: usize = 0;
    while i < n
        invariant
            i <= n,
            n == v@.len(),
            total == spec_sum(v@.take(i as int)),
            0 <= total <= (i as int) * (ELEM_MAX as int),
            forall|k: int| 0 <= k < v@.len() ==> 0 <= #[trigger] v@[k] <= ELEM_MAX,
        decreases n - i,
    {
        proof {
            lemma_sum_take_succ(v@, i as int);
            assert((i as int) * (ELEM_MAX as int) + ELEM_MAX == ((i + 1) as int) * (
            ELEM_MAX as int)) by (nonlinear_arith);
        }
        total = total + v[i] as i128;
        i = i + 1;
    }
    proof {
        lemma_sum_take_all(v@);
    }
    if total <= cap as i128 {
        let r = copy_vec(v);
        proof {
            lemma_sum_nonneg(r@);
        }
        return r;
    }
    // Threshold from the sorted components: the largest prefix whose average
    // overshoot keeps its last element above the threshold.
    let u = sorted_copy_desc(v);
    let mut cssv: i128 = 0;
    let mut rho: usize = 0;
    let mut rho_prefix: i128 = 0;
    let mut seen: bool = false;
    let mut j: usize = 0;
    while j < n
        invariant
            j <= n,
            n == u@.len(),
            n <= N_MAX,
            1 <= cap,
            forall|k: int| 0 <= k < u@.len() ==> 0 <= #[trigger] u@[k] <= ELEM_MAX,
            cssv == spec_sum(u@.take(j as int)),
            0 <= cssv <= (j as int) * (ELEM_MAX as int),
            rho < n || n == 0,
            seen ==> rho < j,
            j > 0 ==> seen,
            seen ==> rho_prefix == spec_sum(u@.take(rho as int + 1)),
            seen ==> (u@[rho as int] as int) * (rho as int + 1) > rho_prefix - cap,
            seen && rho as int + 1 < j ==> (u@[rho as int + 1] as int) * (rho as int + 2)
                <= spec_sum(u@.take(rho as int + 2)) - cap,
            !seen ==> rho == 0 && rho_prefix == 0,
            0 <= rho_prefix <= (n as int) * (ELEM_MAX as int),
        decreases n - j,
    {
        proof {
            lemma_sum_take_succ(u@, j as int);
            assert((j as int) * (ELEM_MAX as int) + ELEM_MAX == ((j + 1) as int) * (
            ELEM_MAX as int)) by (nonlinear_arith);
            lemma_mul_le(u@[j as int] as int, ELEM_MAX as int, j as int + 1, N_MAX as int + 1);
            lemma_sum_nonneg(u@.take(j as int));
        }
        let uj = u[j];
        cssv = cssv + uj as i128;
        proof {
            assert(j == 0 ==> (uj as i128) * (j as i128 + 1) == uj as i128) by (nonlinear_arith);
        }
        if (uj as i128) * (j as i128 + 1) > cssv - cap as i128 {
            rho = j;
            rho_prefix = cssv;
            seen = true;
        }
        j = j + 1;
    }
    // theta = (rho_prefix - cap) / (rho + 1); each component becomes
    // max(0, x - theta), evaluated in integers with rounding down.
    proof {
        lemma_mul_le(n as int, N_MAX as int, ELEM_MAX as int, ELEM_MAX as int);
        if n == 0 {
            assert(spec_sum(v@) == 0);
        }
    }
    let rho1: i128 = rho as i128 + 1;
    let shift: i128 = rho_prefix - cap as i128;
    proof {
        // The kept prefix strictly clears the threshold...
        assert forall|t: int| 0 <= t <= rho implies (u@[t] as int) * (rho1 as int) > shift by {
            vstd::arithmetic::mul::lemma_mul_inequality(
                u@[rho as int] as int,
                u@[t] as int,
                rho1 as int,
            );
        }
        // ...and everything after it falls below the threshold.
        if rho as int + 1 < n {
            lemma_sum_take_succ(u@, rho as int + 1);
            assert((u@[rho as int + 1] as int) * (rho as int + 2) == (u@[rho as int + 1] as int) * (
            rho1 as int) + u@[rho as int + 1]) by (nonlinear_arith)
                requires rho1 == rho + 1;
        }
        assert forall|t: int| rho < t < n implies (u@[t] as int) * (rho1 as int) <= shift by {
            vstd::arithmetic::mul::lemma_mul_inequality(
                u@[t] as int,
                u@[rho as int + 1] as int,
                rho1 as int,
            );
        }
        // The threshold never adds: either some component sits below it, or
        // the whole (over-cap) candidate is kept.
        if rho as int + 1 < n {
            assert((u@[rho as int + 1] as int) * (rho1 as int) >= 0) by (nonlinear_arith)
                requires
                    u@[rho as int + 1] >= 0,
                    rho1 > 0,
            ;
        } else {
            crate::sums::lemma_sum_permutation(v@, u@);
            assert(u@.take(rho as int + 1) =~= u@);
        }
        assert(0 <= shift);
        lemma_clip_sum_le_cap(u@, n as int, rho as int, shift as int, cap as int);
        assert(u@.take(n as int) =~= u@);
        assert(cap - rho <= spec_clip_sum(u@, rho1 as int, shift as int) <= cap)
            by (nonlinear_arith)
            requires
                spec_clip_sum(u@, rho1 as int, shift as int) * (rho1 as int) <= spec_sum(
                    u@.take((rho + 1) as int),
                ) * (rho1 as int) - (rho1 as int) * (shift as int),
                spec_clip_sum(u@, rho1 as int, shift as int) * (rho1 as int) >= spec_sum(
                    u@.take((rho + 1) as int),
                ) * (rho1 as int) - (rho1 as int) * (shift as int) - (rho1 as int) * (rho as int),
                shift == spec_sum(u@.take((rho + 1) as int)) - cap,
                rho1 == rho + 1,
                0 < rho1,
        ;
        lemma_clip_sum_permutation(v@, u@, rho1 as int, shift as int);
    }
    let mut out: Vec<i64> = Vec::new();
    let mut osum: i128 = 0;
    let mut k: usize = 0;
    proof {
        assert(v@.take(0) =~= Seq::<i64>::empty());
    }
    while k < n
        invariant
            k <= n,
            n == v@.len(),
            n <= N_MAX,
            out@.len() == k,
            1 <= rho1 <= n as int,
            0 <= rho_prefix <= (n as int) * (ELEM_MAX as int),
            shift == rho_prefix - cap,
            (n as int) * (ELEM_MAX as int) <= (N_MAX as int) * (ELEM_MAX as int),
            forall|t: int| 0 <= t < v@.len() ==> 0 <= #[trigger] v@[t] <= ELEM_MAX,
            forall|t: int| 0 <= t < out@.len() ==> 0 <= #[trigger] out@[t] <= ELEM_MAX,
            osum == spec_sum(out@),
            spec_sum(out@) == spec_clip_sum(v@.take(k as int), rho1 as int, shift as int),
            0 <= osum <= (k as int) * (ELEM_MAX as int),
        decreases n - k,
    {
        proof {
            lemma_mul_le(v@[k as int] as int, ELEM_MAX as int, rho1 as int, N_MAX as int + 1);
            assert((k as int) * (ELEM_MAX as int) + ELEM_MAX == ((k + 1) as int) * (
            ELEM_MAX as int)) by (nonlinear_arith);
        }
        let scaled: i128 = (v[k] as i128) * rho1;
        let nk: i64 = if scaled <= shift {
            0
        } else {
            let q: u128 = ((scaled - shift) as u128) / (rho1 as u128);
            proof {
                crate::fixed::lemma_u128_div_bound((scaled - shift) as u128, rho1 as u128);
            }
            let q64: i64 = if q > ELEM_MAX as u128 {
                ELEM_MAX
            } else {
                q as i64
            };
            q64
        };
        proof {
            assert(nk == spec_clip(v@[k as int] as int, rho1 as int, shift as int));
            lemma_sum_push(out@, nk);
            assert(v@.take(k + 1).drop_last() =~= v@.take(k as int));
            assert(v@.take(k + 1).last() == v@[k as int]);
        }
        out.push(nk);
        osum = osum + nk as i128;
        k = k + 1;
    }
    proof {
        assert(v@.take(n as int) =~= v@);
        lemma_sum_nonneg(out@);
    }
    out
}

/// Evaluates the fixed-point objective of a feasible allocation; `None` is
/// negative infinity. The result is exactly `spec_objective`.
fn objective(p: &Vec<i64>, d: &Vec<i64>, f: &Vec<i64>) -> (o: Option<i128>)
    requires
        p@.len() == d@.len() && p@.len() == f@.len(),
        p@.len() <= N_MAX,
        forall|i: int| 0 <= i < p@.len() ==> 0 <= #[trigger] p@[i] <= SCALE,
        forall|i: int| 0 <= i < d@.len() ==> 0 <= #[trigger] d@[i] <= ODDS_MAX,
        forall|i: int| 0 <= i < f@.len() ==> 0 <= #[trigger] f@[i] <= SCALE,
        spec_sum(f@) <= SCALE,
    ensures
        o is Some <==> spec_objective(p@, d@, f@) is Some,
        o is Some ==> o->0 == spec_objective(p@, d@, f@)->0,
        o is Some ==> -((p@.len() as int) * ((SCALE as int) * (LN_MAG as int))) <= o->0 <= (
        p@.len() as int) * ((SCALE as int) * (LN_MAG as int)),
{
    let n = p.len();
    proof {
        lemma_sum_nonneg(f@);
    }
    let mut fsum: i128 = 0;
    let mut i: usize = 0;
    while i < n
        invariant
            i <= n,
            n == f@.len(),
            fsum == spec_sum(f@.take(i as int)),
            0 <= fsum <= (i as int) * (SCALE as int),
            forall|k: int| 0 <= k < f@.len() ==> 0 <= #[trigger] f@[k] <= SCALE,
        decreases n - i,
    {
        proof {
            lemma_sum_take_succ(f@, i as int);
            assert((i as int) * (SCALE as int) + SCALE == ((i + 1) as int) * (SCALE as int))
                by (nonlinear_arith);
        }
        fsum = fsum + f[i] as i128;
        i = i + 1;
    }
    proof {
        lemma_sum_take_all(f@);
    }
    let base: i128 = (SCALE as i128) * (SCALE as i128) - fsum * (SCALE as i128);
    let mut j: usize = n;
    let mut acc: Option<i128> = Some(0);
    while j > 0
        invariant
            j <= n,
            n == p@.len() && n == d@.len() && n == f@.len(),
            n <= N_MAX,
            fsum == spec_sum(f@),
            0 <= fsum <= SCALE,
            base == SCALE * SCALE - fsum * SCALE,
            forall|k: int| 0 <= k < p@.len() ==> 0 <= #[trigger] p@[k] <= SCALE,
            forall|k: int| 0 <= k < d@.len() ==> 0 <= #[trigger] d@[k] <= ODDS_MAX,
            forall|k: int| 0 <= k < f@.len() ==> 0 <= #[trigger] f@[k] <= SCALE,
            acc is Some <==> spec_obj_from(p@, d@, f@, fsum as int, j as int) is Some,
            acc is Some ==> acc->0 == spec_obj_from(p@, d@, f@, fsum as int, j as int)->0,
            acc is Some ==> -(((n - j) as int) * ((SCALE as int) * (LN_MAG as int))) <= acc->0
                <= ((n - j) as int) * ((SCALE as int) * (LN_MAG as int)),
        decreases j,
    {
        j = j - 1;
        proof {
            lemma_mul_le(d@[j as int] as int, ODDS_MAX as int, f@[j as int] as int, SCALE as int);
        }
        let w: i128 = base + (d[j] as i128) * (f[j] as i128);
        if w <= 0 {
            acc = None;
        } else {
            match acc {
                None => {},
                Some(v) => {
                    let l: i64 = ln_pico(w as u128);
                    proof {
                        assert(-((SCALE as int) * (LN_MAG as int)) <= p@[j as int] * l <= (
                        SCALE as int) * (LN_MAG as int)) by (nonlinear_arith)
                            requires
                                0 <= p@[j as int] <= SCALE,
                                -LN_MAG <= l <= LN_MAG,
                                0 <= SCALE,
                                0 <= LN_MAG,
                        ;
                        assert(((n - j) as int) * ((SCALE as int) * (LN_MAG as int)) == ((n - (j
                            + 1)) as int) * ((SCALE as int) * (LN_MAG as int)) + (SCALE as int) * (
                        LN_MAG as int)) by (nonlinear_arith);
                    }
                    let term: i128 = (p[j] as i128) * (l as i128);
                    proof {
                        lemma_mul_le(
                            (n - j) as int,
                            N_MAX as int,
                            (SCALE as int) * (LN_MAG as int),
                            (SCALE as int) * (LN_MAG as int),
                        );
                        assert((N_MAX as int) * ((SCALE as int) * (LN_MAG as int))
                            == 40_000_000_000_000_000_000_000_000int) by (nonlinear_arith)
                            requires
                                N_MAX == 1_000_000usize,
                                SCALE == 1_000_000i64,
                                LN_MAG == 40_000_000_000_000i64,
                        ;
                    }
                    proof {
                        assert(v + term <= ((n - j) as int) * ((SCALE as int) * (LN_MAG as int)));
                        assert(-(((n - j) as int) * ((SCALE as int) * (LN_MAG as int))) <= v
                            + term);
                        assert(((n - j) as int) * ((SCALE as int) * (LN_MAG as int))
                            <= 40_000_000_000_000_000_000_000_000int);
                    }
                    acc = Some(v + term);
                },
            }
        }
    }
    acc
}

/// One projected gradient-ascent step from `f` with the given step size:
/// move along the objective gradient, clamp, and project back onto the
/// capped simplex. Any result it returns is feasible; whether it improves
/// the objective is judged by the caller.
fn gradient_step(p: &Vec<i64>, d: &Vec<i64>, f: &Vec<i64>, step: i64, cap: i64) -> (r: Vec<i64>)
    requires
        p@.len() == d@.len() && p@.len() == f@.len(),
        p@.len() <= N_MAX,
        1 <= cap <= SCALE,
        0 <= step <= SCALE,
        forall|i: int| 0 <= i < p@.len() ==> 0 <= #[trigger] p@[i] <= SCALE,
        forall|i: int| 0 <= i < d@.len() ==> 0 <= #[trigger] d@[i] <= ODDS_MAX,
        forall|i: int| 0 <= i < f@.len() ==> 0 <= #[trigger] f@[i] <= SCALE,
        spec_sum(f@) <= SCALE,
    ensures
        r@.len() == f@.len(),
        forall|i: int| 0 <= i < r@.len() ==> 0 <= #[trigger] r@[i] <= cap,
        spec_sum(r@) <= cap,
{
    let n = p.len();
    proof {
        lemma_sum_nonneg(f@);
    }
    let mut fsum: i128 = 0;
    let mut i: usize = 0;
    while i < n
        invariant
            i <= n,
            n == f@.len(),
            fsum == spec_sum(f@.take(i as int)),
            0 <= fsum <= (i as int) * (SCALE as int),
            forall|k: int| 0 <= k < f@.len() ==> 0 <= #[trigger] f@[k] <= SCALE,
        decreases n - i,
    {
        proof {
            lemma_sum_take_succ(f@, i as int);
            assert((i as int) * (SCALE as int) + SCALE == ((i + 1) as int) * (SCALE as int))
                by (nonlinear_arith);
        }
        fsum = fsum + f[i] as i128;
        i = i + 1;
    }
    proof {
        lemma_sum_take_all(f@);
    }
    let base: i128 = (SCALE as i128) * (SCALE as i128) - fsum * (SCALE as i128);
    // Reciprocal wealth per outcome, micro-units, and the shared gradient
    // term sum_j p_j / W_j.
    let mut inv: Vec<i64> = Vec::new();
    let mut s_over: i128 = 0;
    let mut a: usize = 0;
    while a < n
        invariant
            a <= n,
            n == p@.len() && n == d@.len() && n == f@.len(),
            n <= N_MAX,
            0 <= fsum <= SCALE,
            base == SCALE * SCALE - fsum * SCALE,
            inv@.len() == a,
            0 <= s_over <= (a as int) * (INV_CAP as int),
            forall|k: int| 0 <= k < inv@.len() ==> 0 <= #[trigger] inv@[k] <= INV_CAP,
            forall|k: int| 0 <= k < p@.len() ==> 0 <= #[trigger] p@[k] <= SCALE,
            forall|k: int| 0 <= k < d@.len() ==> 0 <= #[trigger] d@[k] <= ODDS_MAX,
            forall|k: int| 0 <= k < f@.len() ==> 0 <= #[trigger] f@[k] <= SCALE,
        decreases n - a,
    {
        proof {
            lemma_mul_le(d@[a as int] as int, ODDS_MAX as int, f@[a as int] as int, SCALE as int);
        }
        let w: i128 = base + (d[a] as i128) * (f[a] as i128);
        let iv: i64 = if w <= 0 {
            INV_CAP
        } else {
            let q: u128 = (INV_CAP as u128) / (w as u128);
            proof {
                crate::fixed::lemma_u128_div_bound(INV_CAP as u128, w as u128);
            }
            q as i64
        };
        inv.push(iv);
        proof {
            lemma_mul_le(p@[a as int] as int, SCALE as int, iv as int, INV_CAP as int);
            assert((p@[a as int] as int) * (iv as int) / (SCALE as int) <= INV_CAP)
                by (nonlinear_arith)
                requires
                    0 <= p@[a as int] <= SCALE,
                    0 <= iv <= INV_CAP,
                    SCALE == 1_000_000i64,
                    INV_CAP == 1_000_000_000_000_000_000i64,
            ;
            assert((a as int) * (INV_CAP as int) + INV_CAP == ((a + 1) as int) * (INV_CAP as int))
                by (nonlinear_arith);
        }
        let share: u128 = ((p[a] as u128) * (iv as u128)) / (SCALE as u128);
        s_over = s_over + share as i128;
        a = a + 1;
    }
    // Candidate: f_k + step * g_k, where g_k = p_k * d_k / W_k - s_over,
    // clamped into [0, ELEM_MAX] before projection.
    let mut cand: Vec<i64> = Vec::new();
    let mut b: usize = 0;
    while b < n
        invariant
            b <= n,
            n == p@.len() && n == d@.len() && n == f@.len(),
            n <= N_MAX,
            inv@.len() == n,
            cand@.len() == b,
            0 <= s_over <= (n as int) * (INV_CAP as int),
            0 <= step <= SCALE,
            forall|k: int| 0 <= k < inv@.len() ==> 0 <= #[trigger] inv@[k] <= INV_CAP,
            forall|k: int| 0 <= k < p@.len() ==> 0 <= #[trigger] p@[k] <= SCALE,
            forall|k: int| 0 <= k < d@.len() ==> 0 <= #[trigger] d@[k] <= ODDS_MAX,
            forall|k: int| 0 <= k < f@.len() ==> 0 <= #[trigger] f@[k] <= SCALE,
            forall|k: int| 0 <= k < cand@.len() ==> 0 <= #[trigger] cand@[k] <= ELEM_MAX,
        decreases n - b,
    {
        proof {
            lemma_mul_le(p@[b as int] as int, SCALE as int, d@[b as int] as int, ODDS_MAX as int);
        }
        let pd: i128 = (p[b] as i128) * (d[b] as i128);
        let pd_s: i128 = ((pd as u128) / (SCALE as u128)) as i128;
        proof {
            assert(0 <= pd_s <= 1_000_000_000_000_000i128) by (nonlinear_arith)
                requires
                    0 <= pd <= (SCALE as int) * (ODDS_MAX as int),
                    pd_s == (pd as int) / (SCALE as int),
                    SCALE == 1_000_000i64,
                    ODDS_MAX == 1_000_000_000_000_000i64,
            ;
            lemma_mul_le(pd_s as int, 1_000_000_000_000_000, inv@[b as int] as int, INV_CAP as int);
        }
        let up: i128 = pd_s * (inv[b] as i128);
        let up_s: i128 = ((up as u128) / (SCALE as u128)) as i128;
        proof {
            assert(0 <= up_s <= 1_000_000_000_000_000_000_000_000_000i128) by (nonlinear_arith)
                requires
                    0 <= up <= 1_000_000_000_000_000 * (INV_CAP as int),
                    up_s == (up as int) / (SCALE as int),
                    SCALE == 1_000_000i64,
                    INV_CAP == 1_000_000_000_000_000_000i64,
            ;
            lemma_mul_le(n as int, N_MAX as int, INV_CAP as int, INV_CAP as int);
        }
        let g: i128 = up_s - s_over;
        proof {
            assert(-2_000_000_000_000_000_000_000_000_000i128 <= g
                <= 2_000_000_000_000_000_000_000_000_000i128);
            if g >= 0 {
                lemma_mul_le(step as int, SCALE as int, g as int,
                    2_000_000_000_000_000_000_000_000_000);
            } else {
                lemma_mul_le(step as int, SCALE as int, -(g as int),
                    2_000_000_000_000_000_000_000_000_000);
            }
        }
        let delta: i128 = if g >= 0 {
            let dv: u128 = ((step as u128) * (g as u128)) / (SCALE as u128);
            proof {
                crate::fixed::lemma_u128_div_bound(((step as u128) * (g as u128)) as u128,
                    SCALE as u128);
            }
            dv as i128
        } else {
            let dv: u128 = ((step as u128) * ((-g) as u128)) / (SCALE as u128);
            proof {
                crate::fixed::lemma_u128_div_bound(((step as u128) * ((-g) as u128)) as u128,
                    SCALE as u128);
            }
            -(dv as i128)
        };
        let raw: i128 = (f[b] as i128) + delta;
        let c: i64 = if raw <= 0 {
            0
        } else if raw >= ELEM_MAX as i128 {
            ELEM_MAX
        } else {
            raw as i64
        };
        cand.push(c);
        b = b + 1;
    }
    project_capped(&cand, cap)
}

/// Exact Kelly allocation over the capped simplex.
///
/// An empty or length-mismatched input yields an empty allocation. Otherwise
/// the result has one stake fraction per outcome, every fraction lies in
/// `[0, cap]`, the fractions sum to at most `cap`, and the allocation's
/// objective is never below that of the independent-Kelly starting point.
pub fn exact_allocate(p: &Vec<i64>, d: &Vec<i64>, cap: i64) -> (r: Vec<i64>)
    requires
        1 <= cap <= SCALE,
        p@.len() <= N_MAX,
        forall|i: int| 0 <= i < p@.len() ==> 0 <= #[trigger] p@[i] <= SCALE,
        forall|i: int| 0 <= i < d@.len() ==> 0 <= #[trigger] d@[i] <= ODDS_MAX,
    ensures
        (p@.len() == 0 || p@.len() != d@.len()) ==> r@.len() == 0,
        p@.len() > 0 && p@.len() == d@.len() ==> {
            &&& r@.len() == p@.len()
            &&& forall|i: int| 0 <= i < r@.len() ==> 0 <= #[trigger] r@[i] <= cap
            &&& spec_sum(r@) <= cap
            &&& spec_obj_ge(
                spec_objective(p@, d@, r@),
                spec_objective(p@, d@, spec_start(p@, d@, cap as int)),
            )
        },
{
    let n = p.len();
    if n == 0 || d.len() != n {
        return Vec::new();
    }
    // Independent Kelly, scaled into the cap: the feasible starting point.
    let mut kelly: Vec<i64> = Vec::new();
    let mut i: usize = 0;
    while i < n
        invariant
            i <= n,
            n == p@.len() && n == d@.len(),
            kelly@.len() == i,
            forall|k: int| 0 <= k < p@.len() ==> 0 <= #[trigger] p@[k] <= SCALE,
            forall|k: int| 0 <= k < d@.len() ==> 0 <= #[trigger] d@[k] <= ODDS_MAX,
            forall|k: int| 0 <= k < i ==> #[trigger] kelly@[k] == spec_kelly_fraction(
                p@[k] as int,
                d@[k] as int,
            ),
            forall|k: int| 0 <= k < i ==> 0 <= #[trigger] kelly@[k] <= SCALE,
        decreases n - i,
    {
        let fk = kelly_fraction(p[i], d[i]);
        kelly.push(fk);
        i = i + 1;
    }
    proof {
        assert(kelly@ =~= spec_kelly_seq(p@, d@));
    }
    let start = cap_fractions(&kelly, cap);
    proof {
        if spec_sum(kelly@) > cap {
            assert(start@ =~= spec_capped_seq(kelly@, cap as int));
        }
        assert(start@ =~= spec_start(p@, d@, cap as int));
        lemma_sum_nonneg(start@);
    }
    let mut cur = copy_vec(&start);
    let mut best = copy_vec(&start);
    let mut best_obj: Option<i128> = objective(p, d, &start);
    let mut step: i64 = STEP_INIT;
    let mut it: usize = 0;
    while it < MAX_ITERS
        invariant
            n == p@.len() && n == d@.len(),
            n <= N_MAX,
            1 <= cap <= SCALE,
            0 <= step <= SCALE,
            forall|k: int| 0 <= k < p@.len() ==> 0 <= #[trigger] p@[k] <= SCALE,
            forall|k: int| 0 <= k < d@.len() ==> 0 <= #[trigger] d@[k] <= ODDS_MAX,
            cur@.len() == n,
            best@.len() == n,
            forall|k: int| 0 <= k < cur@.len() ==> 0 <= #[trigger] cur@[k] <= cap,
            spec_sum(cur@) <= cap,
            forall|k: int| 0 <= k < best@.len() ==> 0 <= #[trigger] best@[k] <= cap,
            spec_sum(best@) <= cap,
            best_obj is Some <==> spec_objective(p@, d@, best@) is Some,
            best_obj is Some ==> best_obj->0 == spec_objective(p@, d@, best@)->0,
            best_obj is Some ==> -((n as int) * ((SCALE as int) * (LN_MAG as int))) <= best_obj->0
                <= (n as int) * ((SCALE as int) * (LN_MAG as int)),
            spec_obj_ge(
                spec_objective(p@, d@, best@),
                spec_objective(p@, d@, spec_start(p@, d@, cap as int)),
            ),
        decreases MAX_ITERS - it,
    {
        let cand = gradient_step(p, d, &cur, step, cap);
        let o = objective(p, d, &cand);
        proof {
            lemma_mul_le(
                n as int,
                N_MAX as int,
                (SCALE as int) * (LN_MAG as int),
                (SCALE as int) * (LN_MAG as int),
            );
        }
        let accept: bool = match (o, best_obj) {
            (Some(ov), Some(bv)) => ov > bv + TOL,
            (Some(_), None) => true,
            (None, _) => false,
        };
        if accept {
            cur = copy_vec(&cand);
            best = cand;
            best_obj = o;
            step = step + step / 20;
            if step > SCALE {
                step = SCALE;
            }
        } else {
            step = step / 2;
            if step < 1 {
                break ;
            }
        }
        it = it + 1;
    }
    best
}

} // verus!
