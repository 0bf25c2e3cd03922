//! Odds-notation parsing, formatting and the complementary price.
//!
//! A price is an exact rational `num / den > 1` (decimal odds: total payout
//! per unit staked). Texts in decimal ("2.10"), American ("+110" / "-110")
//! and fractional ("11/10") notation are parsed to and formatted from this
//! representation; the complementary side's no-vig price `d / (d - 1)` keeps
//! the numerator and replaces the denominator, which makes taking the
//! complement twice the identity, exactly.
use vstd::prelude::*;
use crate::numerals::is_digit;
use crate::numerals::all_digits;
use crate::numerals::digits_val;
use crate::numerals::pow10;
use crate::numerals::spec_first_pos;
use crate::numerals::parse_uint;

verus! {

/// Largest numerator or denominator a parsed price may have.
pub const RAT_MAX: i64 = 1_000_000_000_000_000;

/// Longest odds text accepted, in characters.
pub const TEXT_MAX: usize = 64;

/// Limit for each side of a fractional-notation price, keeping their cross
/// products inside `RAT_MAX`.
pub const FRAC_SIDE_MAX: u64 = 10_000_000;

/// Limit for the magnitude of an American-notation price.
pub const AMERICAN_MAX: u64 = 1_000_000_000_000;

/// A decimal-odds price as an exact rational `num / den`, strictly greater
/// than one.
#[derive(Clone, Copy, PartialEq, Eq, Structural, Debug)]
pub struct Odds {
    pub num: i64,
    pub den: i64,
}

impl Odds {
    /// A wager-worthy price: a rational strictly above one, with a bounded
    /// numerator.
    pub open spec fn valid(self) -> bool {
        0 < self.den < self.num <= RAT_MAX
    }
}

/// The three supported odds notations.
#[derive(Clone, Copy, PartialEq, Eq, Structural, Debug)]
pub enum OddsFormat {
    Decimal,
    American,
    Fractional,
}

impl OddsFormat {
    /// The supported notations, in the order they are offered.
    pub fn all() -> (r: Vec<OddsFormat>)
        ensures
            r@.len() == 3,
            r@[0] == OddsFormat::Decimal,
            r@[1] == OddsFormat::American,
            r@[2] == OddsFormat::Fractional,
    {
        let mut r: Vec<OddsFormat> = Vec::new();
        r.push(OddsFormat::Decimal);
        r.push(OddsFormat::American);
        r.push(OddsFormat::Fractional);
        r
    }
}

/// ASCII whitespace stripped from the ends of an odds text.
pub open spec fn is_space(c: char) -> bool {
    c == ' ' || c == '\t' || c == '\n' || c == '\r'
}

/// First index at or after `i` holding a non-space, or the length.
pub open spec fn spec_trim_lo(s: Seq<char>, i: int) -> int
    decreases s.len() - i,
{
    if i < 0 || i >= s.len() {
        s.len() as int
    } else if is_space(s[i]) {
        spec_trim_lo(s, i + 1)
    } else {
        i
    }
}

/// One past the last non-space strictly before `j`, or zero.
pub open spec fn spec_trim_hi(s: Seq<char>, j: int) -> int
    decreases j,
{
    if j <= 0 || j > s.len() {
        0
    } else if is_space(s[j - 1]) {
        spec_trim_hi(s, j - 1)
    } else {
        j
    }
}

/// The text with surrounding whitespace removed.
pub open spec fn spec_trimmed(s: Seq<char>) -> Seq<char> {
    let lo = spec_trim_lo(s, 0);
    let hi = spec_trim_hi(s, s.len() as int);
    if lo >= hi {
        Seq::empty()
    } else {
        s.subrange(lo, hi)
    }
}

/// A plain decimal numeral with an optional leading `+` and at most one
/// dot, as a fraction over a power of ten; `None` when the shape or the
/// `limit` is violated. The input is expected pre-trimmed.
pub open spec fn spec_dec_value(t: Seq<char>, limit: int) -> Option<(int, int)> {
    let u = if t.len() >= 1 && t[0] == '+' {
        t.subrange(1, t.len() as int)
    } else {
        t
    };
    let k = spec_first_pos(u, '.', 0);
    let ip = u.subrange(0, k);
    let fp = if k < u.len() {
        u.subrange(k + 1, u.len() as int)
    } else {
        Seq::empty()
    };
    if all_digits(ip) && all_digits(fp) && ip.len() + fp.len() >= 1 && digits_val(ip) <= limit
        && pow10(fp.len() as int) <= limit && digits_val(ip) * pow10(fp.len() as int) + digits_val(
        fp,
    ) <= limit {
        Some((digits_val(ip) * pow10(fp.len() as int) + digits_val(fp), pow10(fp.len() as int)))
    } else {
        None
    }
}

/// Decimal notation: the numeral's value, a valid price only above one.
pub open spec fn spec_parse_decimal(s: Seq<char>) -> Option<Odds> {
    match spec_dec_value(spec_trimmed(s), RAT_MAX as int) {
        None => None,
        Some((n, m)) => if n > m {
            Some(Odds { num: n as i64, den: m as i64 })
        } else {
            None
        },
    }
}

/// American notation: an integer with an optional sign; `+n` pays `n` per
/// 100 staked, `-n` asks `n` to win 100, and zero is rejected.
pub open spec fn spec_parse_american(s: Seq<char>) -> Option<Odds> {
    let t = spec_trimmed(s);
    if t.len() == 0 {
        None
    } else {
        let neg = t[0] == '-';
        let rest = if t[0] == '-' || t[0] == '+' {
            t.subrange(1, t.len() as int)
        } else {
            t
        };
        if rest.len() >= 1 && all_digits(rest) && 1 <= digits_val(rest) && digits_val(rest)
            <= AMERICAN_MAX {
            if neg {
                Some(Odds { num: (digits_val(rest) + 100) as i64, den: digits_val(rest) as i64 })
            } else {
                Some(Odds { num: (digits_val(rest) + 100) as i64, den: 100 })
            }
        } else {
            None
        }
    }
}

/// Fractional notation `a/b`: both sides plain numerals, the right one
/// positive, standing for a profit of `a/b` per unit staked.
pub open spec fn spec_parse_fractional(s: Seq<char>) -> Option<Odds> {
    let t = spec_trimmed(s);
    let k = spec_first_pos(t, '/', 0);
    if k >= t.len() {
        None
    } else {
        let left = spec_trimmed(t.subrange(0, k));
        let right = spec_trimmed(t.subrange(k + 1, t.len() as int));
        match (
            spec_dec_value(left, FRAC_SIDE_MAX as int),
            spec_dec_value(right, FRAC_SIDE_MAX as int),
        ) {
            (Some((an, ad)), Some((bn, bd))) => if an >= 1 && bn >= 1 {
                Some(Odds { num: (ad * bn + an * bd) as i64, den: (ad * bn) as i64 })
            } else {
                None
            },
            _ => None,
        }
    }
}

/// What `parse_odds` accepts in each notation; texts longer than `TEXT_MAX`
/// characters are rejected outright.
pub open spec fn spec_parse_odds(s: Seq<char>, fmt: OddsFormat) -> Option<Odds> {
    if s.len() > TEXT_MAX {
        None
    } else {
        match fmt {
            OddsFormat::Decimal => spec_parse_decimal(s),
            OddsFormat::American => spec_parse_american(s),
            OddsFormat::Fractional => spec_parse_fractional(s),
        }
    }
}

/// What `parse_any` accepts: the first notation that matches, trying
/// decimal, then American, then fractional.
pub open spec fn spec_parse_any(s: Seq<char>) -> Option<Odds> {
    if spec_parse_odds(s, OddsFormat::Decimal) is Some {
        spec_parse_odds(s, OddsFormat::Decimal)
    } else if spec_parse_odds(s, OddsFormat::American) is Some {
        spec_parse_odds(s, OddsFormat::American)
    } else {
        spec_parse_odds(s, OddsFormat::Fractional)
    }
}

/// First non-space position within `[i, to)` of the window `[from, to)`,
/// relative to the window's own trim function.
fn scan_lo(s: &str, from: usize, i: usize, to: usize) -> (r: usize)
    requires
        from <= i <= to <= s@.len(),
    ensures
        i <= r <= to,
        r - from == spec_trim_lo(s@.subrange(from as int, to as int), i - from),
    decreases to - i,
{
    if i >= to {
        to
    } else {
        let c = s.get_char(i);
        proof {
            assert(s@.subrange(from as int, to as int)[i - from] == s@[i as int]);
        }
        if c == ' ' || c == '\t' || c == '\n' || c == '\r' {
            scan_lo(s, from, i + 1, to)
        } else {
            i
        }
    }
}

/// One past the last non-space strictly before `j` within the window
/// `[from, to)`, relative to the window's own trim function.
fn scan_hi(s: &str, from: usize, j: usize, to: usize) -> (r: usize)
    requires
        from <= j <= to <= s@.len(),
    ensures
        from <= r <= j,
        r - from == spec_trim_hi(s@.subrange(from as int, to as int), j - from),
    decreases j,
{
    if j == from {
        from
    } else {
        let c = s.get_char(j - 1);
        proof {
            assert(s@.subrange(from as int, to as int)[j - 1 - from] == s@[j as int - 1]);
        }
        if c == ' ' || c == '\t' || c == '\n' || c == '\r' {
            scan_hi(s, from, j - 1, to)
        } else {
            j
        }
    }
}

/// First occurrence of `c` within `[i, to)`, or `to`; mirrors
/// `spec_first_pos` on the window `[base, to)`.
fn scan_char(s: &str, c: char, base: usize, i: usize, to: usize) -> (r: usize)
    requires
        base <= i <= to <= s@.len(),
    ensures
        i <= r <= to,
        r - base == spec_first_pos(s@.subrange(base as int, to as int), c, i - base),
    decreases to - i,
{
    if i >= to {
        to
    } else {
        let ch = s.get_char(i);
        proof {
            assert(s@.subrange(base as int, to as int)[i - base] == s@[i as int]);
        }
        if ch == c {
            i
        } else {
            scan_char(s, c, base, i + 1, to)
        }
    }
}

/// `pow10` when it stays within `limit`.
fn pow10_checked(k: usize, limit: u64) -> (r: Option<u64>)
    requires
        1 <= limit <= 10_000_000_000_000_000,
    ensures
        r is Some <==> pow10(k as int) <= limit,
        r is Some ==> r->0 == pow10(k as int) && 1 <= r->0 <= limit,
    decreases k,
{
    if k == 0 {
        Some(1)
    } else {
        match pow10_checked(k - 1, limit) {
            None => {
                proof {
                    lemma_pow10_mono(k as int - 1, k as int);
                }
                None
            },
            Some(v) => {
                if v > limit / 10 {
                    proof {
                        lemma_pow10_pos(k as int - 1);
                        vstd::arithmetic::div_mod::lemma_fundamental_div_mod(limit as int, 10);
                    }
                    None
                } else {
                    proof {
                        vstd::arithmetic::div_mod::lemma_fundamental_div_mod(limit as int, 10);
                    }
                    Some(v * 10)
                }
            },
        }
    }
}

/// `pow10` grows with the exponent.
proof fn lemma_pow10_mono(a: int, b: int)
    requires
        0 <= a <= b,
    ensures
        pow10(a) <= pow10(b),
    decreases b - a,
{
    if a < b {
        lemma_pow10_mono(a, b - 1);
        lemma_pow10_pos(b - 1);
    }
}

/// `pow10` is positive.
proof fn lemma_pow10_pos(a: int)
    ensures
        pow10(a) >= 1,
    decreases a,
{
    if a > 0 {
        lemma_pow10_pos(a - 1);
    }
}

/// Parses the window `s[from..to]` as a plain numeral (optional `+`, at
/// most one dot) against `spec_dec_value` of the window's trimmed text.
fn dec_value_in(s: &str, from: usize, to: usize, limit: u64) -> (r: Option<(u64, u64)>)
    requires
        from <= to <= s@.len(),
        1 <= limit <= 10_000_000_000_000_000,
    ensures
        ({
            let t = spec_trimmed(s@.subrange(from as int, to as int));
            &&& (r is Some <==> spec_dec_value(t, limit as int) is Some)
            &&& (r is Some ==> {
                let pair = r->0;
                spec_dec_value(t, limit as int) == Some((pair.0 as int, pair.1 as int)) && 0
                    <= pair.0 <= limit && 1 <= pair.1 <= limit
            })
        }),
{
    let ghost raw = s@.subrange(from as int, to as int);
    let ghost t = spec_trimmed(raw);
    let lo = scan_lo(s, from, from, to);
    let hi = scan_hi(s, from, to, to);
    if lo >= hi {
        proof {
            assert(t =~= Seq::<char>::empty());
            let u = t;
            assert(spec_first_pos(u, '.', 0) == 0);
            assert(u.subrange(0, 0) =~= Seq::<char>::empty());
            assert(spec_dec_value(t, limit as int) is None);
        }
        return None;
    }
    let tlo: usize = lo;
    let thi: usize = hi;
    proof {
        assert(t =~= s@.subrange(tlo as int, thi as int));
        assert(t.len() == thi - tlo);
        assert(t[0] == s@[tlo as int]);
    }
    let first = s.get_char(tlo);
    let dstart: usize = if first == '+' {
        tlo + 1
    } else {
        tlo
    };
    let ghost u = if t.len() >= 1 && t[0] == '+' {
        t.subrange(1, t.len() as int)
    } else {
        t
    };
    proof {
        assert(u =~= s@.subrange(dstart as int, thi as int));
    }
    let k = scan_char(s, '.', dstart, dstart, thi);
    let ghost krel = spec_first_pos(u, '.', 0);
    proof {
        assert(krel == k - dstart);
    }
    let ghost ipseq = u.subrange(0, krel);
    let ghost fpseq = if krel < u.len() {
        u.subrange(krel + 1, u.len() as int)
    } else {
        Seq::<char>::empty()
    };
    proof {
        assert(ipseq =~= s@.subrange(dstart as int, k as int));
        if krel < u.len() {
            assert(fpseq =~= s@.subrange(k as int + 1, thi as int));
        }
    }
    // Integer part.
    let ipv: u64 = if dstart == k {
        proof {
            assert(ipseq.len() == 0);
            assert(digits_val(ipseq) == 0);
        }
        0
    } else {
        match parse_uint(s, dstart, k, limit) {
            Some(v) => v,
            None => {
                proof {
                    assert(spec_dec_value(t, limit as int) is None);
                }
                return None;
            },
        }
    };
    // Fraction part.
    let (fpv, flen): (u64, usize) = if k < thi {
        if k + 1 == thi {
            proof {
                assert(fpseq.len() == 0);
                assert(digits_val(fpseq) == 0);
            }
            (0, 0)
        } else {
            match parse_uint(s, k + 1, thi, limit) {
                Some(v) => (v, thi - (k + 1)),
                None => {
                    proof {
                        if all_digits(fpseq) {
                            crate::numerals::lemma_digits_val_bound(fpseq);
                            if all_digits(ipseq) {
                                crate::numerals::lemma_digits_val_bound(ipseq);
                                lemma_pow10_pos(fpseq.len() as int);
                                assert(digits_val(ipseq) * pow10(fpseq.len() as int) >= 0)
                                    by (nonlinear_arith)
                                    requires
                                        digits_val(ipseq) >= 0,
                                        pow10(fpseq.len() as int) >= 1,
                                ;
                            }
                        }
                        assert(spec_dec_value(t, limit as int) is None);
                    }
                    return None;
                },
            }
        }
    } else {
        (0, 0)
    };
    if dstart == k && flen == 0 {
        // No digits at all.
        proof {
            assert(ipseq.len() + fpseq.len() == 0);
            assert(spec_dec_value(t, limit as int) is None);
        }
        return None;
    }
    let den: u64 = match pow10_checked(flen, limit) {
        Some(v) => v,
        None => {
            proof {
                assert(spec_dec_value(t, limit as int) is None);
            }
            return None;
        },
    };
    proof {
        crate::fixed::lemma_mul_le(ipv as int, limit as int, den as int, limit as int);
        crate::fixed::lemma_mul_le(
            limit as int,
            10_000_000_000_000_000,
            limit as int,
            10_000_000_000_000_000,
        );
    }
    let numv: u128 = (ipv as u128) * (den as u128) + (fpv as u128);
    if numv > limit as u128 {
        proof {
            assert(spec_dec_value(t, limit as int) is None);
        }
        return None;
    }
    proof {
        assert(spec_dec_value(t, limit as int) == Some((numv as int, den as int)));
    }
    Some((numv as u64, den))
}

/// Parses an odds text in the given notation; `None` on anything the
/// notation's grammar does not accept, on a price not above one, or on a
/// text longer than `TEXT_MAX` characters.
pub fn parse_odds(s: &str, fmt: OddsFormat) -> (r: Option<Odds>)
    ensures
        r == spec_parse_odds(s@, fmt),
        r is Some ==> r->0.valid(),
{
    let len = s.unicode_len();
    if len > TEXT_MAX {
        return None;
    }
    proof {
        assert(s@.subrange(0, s@.len() as int) =~= s@);
    }
    let r = match fmt {
        OddsFormat::Decimal => parse_decimal_whole(s, len),
        OddsFormat::American => parse_american_whole(s, len),
        OddsFormat::Fractional => parse_fractional_whole(s, len),
    };
    r
}

/// Tries decimal, then American, then fractional notation, returning the
/// first price accepted.
pub fn parse_any(s: &str) -> (r: Option<Odds>)
    ensures
        r == spec_parse_any(s@),
        r is Some ==> r->0.valid(),
{
    let d = parse_odds(s, OddsFormat::Decimal);
    if d.is_some() {
        return d;
    }
    let a = parse_odds(s, OddsFormat::American);
    if a.is_some() {
        return a;
    }
    parse_odds(s, OddsFormat::Fractional)
}

fn parse_decimal_whole(s: &str, len: usize) -> (r: Option<Odds>)
    requires
        len == s@.len(),
    ensures
        r == spec_parse_decimal(s@),
        r is Some ==> r->0.valid(),
{
    proof {
        assert(s@.subrange(0, s@.len() as int) =~= s@);
    }
    match dec_value_in(s, 0, len, RAT_MAX as u64) {
        None => None,
        Some((n, m)) => {
            if n > m {
                Some(Odds { num: n as i64, den: m as i64 })
            } else {
                None
            }
        },
    }
}

fn parse_american_whole(s: &str, len: usize) -> (r: Option<Odds>)
    requires
        len == s@.len(),
    ensures
        r == spec_parse_american(s@),
        r is Some ==> r->0.valid(),
{
    let ghost raw = s@.subrange(0, s@.len() as int);
    let ghost t = spec_trimmed(raw);
    proof {
        assert(raw =~= s@);
    }
    let lo = scan_lo(s, 0, 0, len);
    let hi = scan_hi(s, 0, len, len);
    if lo >= hi {
        proof {
            assert(t =~= Seq::<char>::empty());
        }
        return None;
    }
    proof {
        assert(t =~= s@.subrange(lo as int, hi as int));
        assert(t[0] == s@[lo as int]);
    }
    let first = s.get_char(lo);
    let neg = first == '-';
    let dstart: usize = if first == '-' || first == '+' {
        lo + 1
    } else {
        lo
    };
    let ghost rest = if t[0] == '-' || t[0] == '+' {
        t.subrange(1, t.len() as int)
    } else {
        t
    };
    proof {
        assert(rest =~= s@.subrange(dstart as int, hi as int));
    }
    if dstart == hi {
        proof {
            assert(rest.len() == 0);
        }
        return None;
    }
    match parse_uint(s, dstart, hi, AMERICAN_MAX) {
        None => None,
        Some(v) => {
            if v == 0 {
                None
            } else if neg {
                Some(Odds { num: (v + 100) as i64, den: v as i64 })
            } else {
                Some(Odds { num: (v + 100) as i64, den: 100 })
            }
        },
    }
}

fn parse_fractional_whole(s: &str, len: usize) -> (r: Option<Odds>)
    requires
        len == s@.len(),
    ensures
        r == spec_parse_fractional(s@),
        r is Some ==> r->0.valid(),
{
    let ghost raw = s@.subrange(0, s@.len() as int);
    let ghost t = spec_trimmed(raw);
    proof {
        assert(raw =~= s@);
    }
    let lo = scan_lo(s, 0, 0, len);
    let hi = scan_hi(s, 0, len, len);
    let (tlo, thi): (usize, usize) = if lo >= hi {
        (0, 0)
    } else {
        (lo, hi)
    };
    proof {
        if lo >= hi {
            assert(t =~= s@.subrange(0, 0));
        } else {
            assert(t =~= s@.subrange(tlo as int, thi as int));
        }
    }
    let k = scan_char(s, '/', tlo, tlo, thi);
    if k == thi {
        proof {
            assert(spec_first_pos(t, '/', 0) == t.len());
        }
        return None;
    }
    proof {
        assert(spec_first_pos(t, '/', 0) == k - tlo);
        assert(t.subrange(0, k - tlo) =~= s@.subrange(tlo as int, k as int));
        assert(t.subrange(k - tlo + 1, t.len() as int) =~= s@.subrange(k as int + 1, thi as int));
        assert(spec_trimmed(t.subrange(0, k - tlo)) =~= spec_trimmed(
            s@.subrange(tlo as int, k as int),
        ));
        assert(spec_trimmed(t.subrange(k - tlo + 1, t.len() as int)) =~= spec_trimmed(
            s@.subrange(k as int + 1, thi as int),
        ));
    }
    let a = dec_value_in(s, tlo, k, FRAC_SIDE_MAX);
    let b = dec_value_in(s, k + 1, thi, FRAC_SIDE_MAX);
    match (a, b) {
        (Some((an, ad)), Some((bn, bd))) => {
            if an >= 1 && bn >= 1 {
                proof {
                    crate::fixed::lemma_mul_le(
                        ad as int,
                        FRAC_SIDE_MAX as int,
                        bn as int,
                        FRAC_SIDE_MAX as int,
                    );
                    crate::fixed::lemma_mul_le(
                        an as int,
                        FRAC_SIDE_MAX as int,
                        bd as int,
                        FRAC_SIDE_MAX as int,
                    );
                    assert((ad as int) * (bn as int) >= 1) by (nonlinear_arith)
                        requires
                            ad >= 1,
                            bn >= 1,
                    ;
                    assert((an as int) * (bd as int) >= 1) by (nonlinear_arith)
                        requires
                            an >= 1,
                            bd >= 1,
                    ;
                }
                let den0: u64 = ad * bn;
                let num0: u64 = an * bd;
                Some(Odds { num: (den0 + num0) as i64, den: den0 as i64 })
            } else {
                None
            }
        },
        _ => None,
    }
}

/// The complementary side's no-vig price: `d / (d - 1)`.
pub open spec fn spec_complement(o: Odds) -> Odds {
    Odds { num: o.num, den: (o.num - o.den) as i64 }
}

/// Computes the complementary price. On a valid price the result is valid,
/// and taking the complement twice gives back exactly the price started
/// from.
pub fn complement(o: &Odds) -> (r: Odds)
    requires
        o.valid(),
    ensures
        r == spec_complement(*o),
        r.valid(),
{
    Odds { num: o.num, den: o.num - o.den }
}

/// Taking the complementary price twice is the identity: the no-vig
/// opposite of the opposite is the original price, with no rounding at all.
pub proof fn lemma_complement_involution(o: Odds)
    requires
        o.valid(),
    ensures
        spec_complement(o).valid(),
        spec_complement(spec_complement(o)) == o,
{
}


/// Cap on numerators of the continued-fraction convergents.
pub const CF_H_MAX: u64 = 2_000_000_000_000_000_000;

/// Largest denominator a formatted fraction may use.
pub const FRAC_DEN_MAX: u64 = 1000;

/// The 3-decimal rounding of the price: `round(1000 * num / den)`, half up.
pub open spec fn spec_round_k(o: Odds) -> int {
    (2000 * o.num + o.den) / (2 * o.den)
}

/// The decimal rendering: the rounded price over three decimal places.
pub open spec fn spec_format_decimal(o: Odds) -> Seq<char> {
    crate::numerals::spec_nat_string(spec_round_k(o) / 1000) + seq!['.']
        + crate::numerals::spec_pad3(spec_round_k(o) % 1000)
}

/// The American rendering: `+round(100*(d-1))` at evens or longer, else
/// `-round(100/(d-1))`.
pub open spec fn spec_format_american(o: Odds) -> Seq<char> {
    if o.num >= 2 * o.den {
        seq!['+'] + crate::numerals::spec_nat_string(
            (200 * (o.num - o.den) + o.den) / (2 * o.den),
        )
    } else {
        seq!['-'] + crate::numerals::spec_nat_string(
            (200 * o.den + (o.num - o.den)) / (2 * (o.num - o.den)),
        )
    }
}

/// One run of the continued-fraction expansion of `p/q`, carrying the last
/// two convergents `h0/k0` and `h1/k1`; stops on the iteration budget, a
/// negligible remainder, or a convergent past the denominator or numerator
/// caps.
pub open spec fn spec_cf(p: int, q: int, h0: int, k0: int, h1: int, k1: int, it: int) -> (
    int,
    int,
)
    decreases 100 - it,
{
    if it >= 100 || q <= 0 {
        (h1, k1)
    } else {
        let r = p % q;
        if r * 1_000_000_000 < q {
            (h1, k1)
        } else {
            let a = q / r;
            let h2 = h0 + a * h1;
            let k2 = k0 + a * k1;
            if k2 > FRAC_DEN_MAX || h2 > CF_H_MAX {
                (h1, k1)
            } else {
                spec_cf(q, r, h1, k1, h2, k2, it + 1)
            }
        }
    }
}

/// The best small fraction the expansion finds for `p/q`.
pub open spec fn spec_approx_frac(p: int, q: int) -> (int, int) {
    spec_cf(p, q, 1, 0, p / q, 1, 0)
}

/// The fractional rendering: the profit part `d - 1` as a small fraction.
pub open spec fn spec_format_fractional(o: Odds) -> Seq<char> {
    crate::numerals::spec_nat_string(spec_approx_frac(o.num - o.den, o.den as int).0) + seq!['/']
        + crate::numerals::spec_nat_string(spec_approx_frac(o.num - o.den, o.den as int).1)
}

/// The rendering of a price in the chosen notation.
pub open spec fn spec_format_odds(o: Odds, fmt: OddsFormat) -> Seq<char> {
    match fmt {
        OddsFormat::Decimal => spec_format_decimal(o),
        OddsFormat::American => spec_format_american(o),
        OddsFormat::Fractional => spec_format_fractional(o),
    }
}

fn cf_loop(p: u64, q: u64, h0: u64, k0: u64, h1: u64, k1: u64, it: u32) -> (r: (u64, u64))
    requires
        1 <= q <= RAT_MAX,
        p <= RAT_MAX,
        h0 <= CF_H_MAX,
        h1 <= CF_H_MAX,
        k0 <= FRAC_DEN_MAX,
        1 <= k1 <= FRAC_DEN_MAX,
        it <= 100,
    ensures
        r.0 == spec_cf(p as int, q as int, h0 as int, k0 as int, h1 as int, k1 as int, it as int).0,
        r.1 == spec_cf(p as int, q as int, h0 as int, k0 as int, h1 as int, k1 as int, it as int).1,
        r.0 <= CF_H_MAX,
        1 <= r.1 <= FRAC_DEN_MAX,
    decreases 100 - it,
{
    if it >= 100 {
        return (h1, k1);
    }
    let rem: u64 = p % q;
    if (rem as u128) * 1_000_000_000 < q as u128 {
        return (h1, k1);
    }
    let a: u64 = q / rem;
    proof {
        crate::fixed::lemma_mul_le(a as int, RAT_MAX as int, h1 as int, CF_H_MAX as int);
        crate::fixed::lemma_mul_le(a as int, RAT_MAX as int, k1 as int, FRAC_DEN_MAX as int);
    }
    let h2: u128 = h0 as u128 + (a as u128) * (h1 as u128);
    let k2: u128 = k0 as u128 + (a as u128) * (k1 as u128);
    if k2 > FRAC_DEN_MAX as u128 || h2 > CF_H_MAX as u128 {
        return (h1, k1);
    }
    proof {
        assert(1 <= rem <= RAT_MAX);
        assert(a >= 1) by (nonlinear_arith)
            requires
                a == (q as int) / (rem as int),
                1 <= rem <= q,
        ;
        assert((a as int) * (k1 as int) >= 1) by (nonlinear_arith)
            requires
                a >= 1,
                k1 >= 1,
        ;
    }
    cf_loop(q, rem, h1, k1, h2 as u64, k2 as u64, it + 1)
}

/// The best rational approximation of `p / q` with denominator at most
/// 1000, by continued-fraction expansion.
pub fn approx_fraction(p: i64, q: i64) -> (r: (i64, i64))
    requires
        0 <= p <= RAT_MAX,
        1 <= q <= RAT_MAX,
    ensures
        r.0 == spec_approx_frac(p as int, q as int).0,
        r.1 == spec_approx_frac(p as int, q as int).1,
        0 <= r.0 <= CF_H_MAX,
        1 <= r.1 <= FRAC_DEN_MAX,
{
    let h1: u64 = (p as u64) / (q as u64);
    let r = cf_loop(p as u64, q as u64, 1, 0, h1, 1, 0);
    (r.0 as i64, r.1 as i64)
}

/// Renders the price with three decimal places, rounding half up.
pub fn format_decimal(o: &Odds) -> (r: String)
    requires
        o.valid(),
    ensures
        r@ == spec_format_decimal(*o),
{
    proof {
        crate::fixed::lemma_mul_le(2000, 2000, o.num as int, RAT_MAX as int);
    }
    let n128: u128 = 2000 * (o.num as u128) + (o.den as u128);
    let k128: u128 = n128 / (2 * (o.den as u128));
    proof {
        crate::fixed::lemma_u128_div_bound(n128, (2 * (o.den as u128)) as u128);
        assert(k128 <= n128 / 2) by (nonlinear_arith)
            requires
                k128 == (n128 as int) / (2 * (o.den as int)),
                1 <= o.den,
                0 <= n128,
        ;
        vstd::arithmetic::div_mod::lemma_fundamental_div_mod(k128 as int, 1000);
    }
    let k: u64 = k128 as u64;
    let q: u64 = k / 1000;
    let r3: u64 = k % 1000;
    let mut out = crate::numerals::nat_to_string(q);
    proof {
        reveal_strlit(".");
    }
    let dot: &str = ".";
    out.append(dot);
    let tail = crate::numerals::pad3_to_string(r3);
    out.append(tail.as_str());
    proof {
        assert(dot@ =~= seq!['.']);
        assert(out@ =~= spec_format_decimal(*o));
    }
    out
}

/// Renders the price in American notation, rounding half up.
pub fn format_american(o: &Odds) -> (r: String)
    requires
        o.valid(),
    ensures
        r@ == spec_format_american(*o),
{
    if o.num >= 2 * o.den {
        proof {
            crate::fixed::lemma_mul_le(200, 200, (o.num - o.den) as int, RAT_MAX as int);
            reveal_strlit("+");
        }
        let n128: u128 = 200 * ((o.num - o.den) as u128) + (o.den as u128);
        let n: u128 = n128 / (2 * (o.den as u128));
        proof {
            crate::fixed::lemma_u128_div_bound(n128, (2 * (o.den as u128)) as u128);
            assert(n <= n128 / 2) by (nonlinear_arith)
                requires
                    n == (n128 as int) / (2 * (o.den as int)),
                    1 <= o.den,
                    0 <= n128,
            ;
        }
        let sign: &str = "+";
        let mut out = String::from_str(sign);
        let tail = crate::numerals::nat_to_string(n as u64);
        out.append(tail.as_str());
        proof {
            assert(sign@ =~= seq!['+']);
            assert(out@ =~= spec_format_american(*o));
        }
        out
    } else {
        proof {
            crate::fixed::lemma_mul_le(200, 200, o.den as int, RAT_MAX as int);
            reveal_strlit("-");
        }
        let n128: u128 = 200 * (o.den as u128) + ((o.num - o.den) as u128);
        let n: u128 = n128 / (2 * ((o.num - o.den) as u128));
        proof {
            crate::fixed::lemma_u128_div_bound(n128, (2 * ((o.num - o.den) as u128)) as u128);
            assert(n <= n128 / 2) by (nonlinear_arith)
                requires
                    n == (n128 as int) / (2 * ((o.num - o.den) as int)),
                    1 <= o.num - o.den,
                    0 <= n128,
            ;
        }
        let sign: &str = "-";
        let mut out = String::from_str(sign);
        let tail = crate::numerals::nat_to_string(n as u64);
        out.append(tail.as_str());
        proof {
            assert(sign@ =~= seq!['-']);
            assert(out@ =~= spec_format_american(*o));
        }
        out
    }
}

/// Renders the profit part of the price as a small fraction.
pub fn format_fractional(o: &Odds) -> (r: String)
    requires
        o.valid(),
    ensures
        r@ == spec_format_fractional(*o),
{
    let pair = approx_fraction(o.num - o.den, o.den);
    let mut out = crate::numerals::nat_to_string(pair.0 as u64);
    proof {
        reveal_strlit("/");
    }
    let slash: &str = "/";
    out.append(slash);
    let tail = crate::numerals::nat_to_string(pair.1 as u64);
    out.append(tail.as_str());
    proof {
        assert(slash@ =~= seq!['/']);
        assert(out@ =~= spec_format_fractional(*o));
    }
    out
}

/// Renders the price in the chosen notation.
pub fn format_odds(o: &Odds, fmt: OddsFormat) -> (r: String)
    requires
        o.valid(),
    ensures
        r@ == spec_format_odds(*o, fmt),
{
    match fmt {
        OddsFormat::Decimal => format_decimal(o),
        OddsFormat::American => format_american(o),
        OddsFormat::Fractional => format_fractional(o),
    }
}

/// The price in engine micro-units, rounded half up and saturated at the
/// engine's largest odds.
pub open spec fn spec_to_micro(o: Odds) -> int {
    let v = (2 * o.num * (crate::fixed::SCALE as int) + o.den) / (2 * o.den);
    if v > crate::fixed::ODDS_MAX {
        crate::fixed::ODDS_MAX as int
    } else {
        v
    }
}

/// Converts the exact price into the engine's micro-unit odds.
pub fn to_micro(o: &Odds) -> (d: i64)
    requires
        o.valid(),
    ensures
        d == spec_to_micro(*o),
        crate::fixed::SCALE <= d <= crate::fixed::ODDS_MAX,
{
    proof {
        crate::fixed::lemma_mul_le(
            2 * (o.num as int),
            2 * (RAT_MAX as int),
            crate::fixed::SCALE as int,
            crate::fixed::SCALE as int,
        );
    }
    let n128: u128 = 2 * (o.num as u128) * (crate::fixed::SCALE as u128) + (o.den as u128);
    let v: u128 = n128 / (2 * (o.den as u128));
    proof {
        vstd::arithmetic::div_mod::lemma_fundamental_div_mod(n128 as int, 2 * (o.den as int));
        assert(v >= crate::fixed::SCALE) by (nonlinear_arith)
            requires
                v == (n128 as int) / (2 * (o.den as int)),
                (2 * (o.den as int)) * v + (n128 as int) % (2 * (o.den as int)) == n128,
                0 <= (n128 as int) % (2 * (o.den as int)) < 2 * (o.den as int),
                n128 == 2 * (o.num as int) * (crate::fixed::SCALE as int) + o.den,
                o.den < o.num,
                0 < o.den,
                crate::fixed::SCALE == 1_000_000i64,
        ;
    }
    if v > crate::fixed::ODDS_MAX as u128 {
        crate::fixed::ODDS_MAX
    } else {
        v as i64
    }
}


/// A text that starts and ends with a non-space is already trimmed.
proof fn lemma_trim_id(s: Seq<char>)
    requires
        s.len() >= 1,
        !is_space(s[0]),
        !is_space(s[s.len() - 1]),
    ensures
        spec_trimmed(s) == s,
{
    assert(spec_trim_lo(s, 0) == 0);
    assert(spec_trim_hi(s, s.len() as int) == s.len());
    assert(s.subrange(0, s.len() as int) =~= s);
}

proof fn lemma_first_pos_from(s: Seq<char>, c: char, i: int, j: int)
    requires
        0 <= i <= j < s.len(),
        s[j] == c,
        forall|t: int| i <= t < j ==> s[t] != c,
    ensures
        spec_first_pos(s, c, i) == j,
    decreases j - i,
{
    if i < j {
        lemma_first_pos_from(s, c, i + 1, j);
    }
}

/// The length of a rendering is bounded by the power of ten above its
/// value.
proof fn lemma_digits_len(n: int, cap: int)
    requires
        0 <= n < pow10(cap),
        0 <= cap,
    ensures
        crate::numerals::spec_digits_rec(n).len() <= cap,
    decreases cap,
{
    if n > 0 {
        vstd::arithmetic::div_mod::lemma_fundamental_div_mod(n, 10);
        assert(cap >= 1);
        assert(n / 10 < pow10(cap - 1)) by (nonlinear_arith)
            requires
                n < 10 * pow10(cap - 1),
                10 * (n / 10) + n % 10 == n,
                0 <= n % 10 < 10,
        ;
        assert(0 <= n / 10) by (nonlinear_arith)
            requires n > 0;
        lemma_digits_len(n / 10, cap - 1);
    }
}

/// Three-decimal round trip: re-parsing the decimal rendering of a price
/// gives back the rounded thousandths exactly, and the rounded price is
/// within half a thousandth -- so well within 1% -- of the original.
///
/// Prices below 1.0005 are excluded: their rendering rounds down to
/// "1.000", which is no longer above one and is rejected by the parser.
/// Prices above a trillion are excluded by the parser's numeral limit.
pub proof fn lemma_decimal_round_trip(o: Odds)
    requires
        o.valid(),
        2000 * o.num >= 2001 * o.den,
        o.num <= 999_999_999_999 * o.den,
    ensures
        spec_parse_odds(spec_format_decimal(o), OddsFormat::Decimal) == Some(
            Odds { num: spec_round_k(o) as i64, den: 1000 },
        ),
        -(o.den as int) < 2 * (spec_round_k(o) * o.den - 1000 * o.num) <= o.den,
        -10 * o.num <= spec_round_k(o) * o.den - 1000 * o.num <= 10 * o.num,
{
    let n = o.num as int;
    let m = o.den as int;
    let k = spec_round_k(o);
    vstd::arithmetic::div_mod::lemma_fundamental_div_mod(2000 * n + m, 2 * m);
    assert(1001 <= k <= 999_999_999_999_001 && 2 * (k * m - 1000 * n) == m - ((2000 * n + m) % (2
        * m)) && 0 <= (2000 * n + m) % (2 * m) < 2 * m) by (nonlinear_arith)
        requires
            (2 * m) * k + (2000 * n + m) % (2 * m) == 2000 * n + m,
            0 <= (2000 * n + m) % (2 * m) < 2 * m,
            2000 * n >= 2001 * m,
            n <= 999_999_999_999 * m,
            0 < m < n,
    ;
    vstd::arithmetic::div_mod::lemma_fundamental_div_mod(k, 1000);
    let q = k / 1000;
    let r3 = k % 1000;
    crate::numerals::lemma_nat_string(q);
    crate::numerals::lemma_pad3(r3);
    let av = crate::numerals::spec_nat_string(q);
    let bv = crate::numerals::spec_pad3(r3);
    let s = spec_format_decimal(o);
    assert(s == av + seq!['.'] + bv);
    assert(q < pow10(13)) by {
        reveal_with_fuel(pow10, 14);
    }
    assert(q > 0);
    lemma_digits_len(q, 13);
    assert(av.len() <= 13);
    assert(s.len() == av.len() + 4);
    // Every character is a digit or the dot, so the text is already
    // trimmed and carries no sign.
    assert(s[0] == av[0] && is_digit(s[0]));
    assert(s[s.len() - 1] == bv[2] && is_digit(s[s.len() - 1]));
    assert(!is_space(s[0]) && !is_space(s[s.len() - 1]));
    lemma_trim_id(s);
    assert(s[0] != '+');
    let u = s;
    assert(u[av.len() as int] == '.');
    assert(forall|t: int| 0 <= t < av.len() ==> u[t] == av[t] && is_digit(#[trigger] u[t]));
    assert(forall|t: int| 0 <= t < av.len() ==> u[t] != '.');
    lemma_first_pos_from(u, '.', 0, av.len() as int);
    let kpos = spec_first_pos(u, '.', 0);
    assert(kpos == av.len());
    assert(u.subrange(0, kpos) =~= av);
    assert(u.subrange(kpos + 1, u.len() as int) =~= bv);
    assert(pow10(3) == 1000) by {
        reveal_with_fuel(pow10, 5);
    }
    assert(digits_val(av) * pow10(3) + digits_val(bv) == k);
    assert(k <= RAT_MAX);
    assert(spec_dec_value(u, RAT_MAX as int) == Some((k, 1000int)));
    assert(k > 1000);
    assert(spec_parse_decimal(s) == Some(Odds { num: k as i64, den: 1000 }));
    assert(s.len() <= TEXT_MAX);
    assert(-10 * n <= k * m - 1000 * n <= 10 * n) by (nonlinear_arith)
        requires
            -m < 2 * (k * m - 1000 * n) <= m,
            0 < m < n,
    ;
}

/// American round trip: re-parsing the American rendering of a price gives
/// a price within 1% (relative) of the original, in both the favorite and
/// the underdog direction.
///
/// Prices above ten billion, or within one part in ten billion of evens,
/// are excluded: their rounded American figure exceeds the parser's limit.
pub proof fn lemma_american_round_trip(o: Odds)
    requires
        o.valid(),
        o.num <= 10_000_000_000 * o.den,
        (o.num - o.den) * 10_000_000_000 >= o.den,
    ensures
        spec_parse_odds(spec_format_american(o), OddsFormat::American) is Some,
        ({
            let r = spec_parse_odds(spec_format_american(o), OddsFormat::American)->0;
            &&& r.valid()
            &&& -(r.den * o.num) <= 100 * (r.num * o.den - r.den * o.num) <= r.den * o.num
        }),
{
    let n0 = o.num as int;
    let m = o.den as int;
    let p = n0 - m;
    let s = spec_format_american(o);
    if o.num >= 2 * o.den {
        let nn = (200 * p + m) / (2 * m);
        vstd::arithmetic::div_mod::lemma_fundamental_div_mod(200 * p + m, 2 * m);
        assert(100 <= nn <= 1_000_000_000_000 && 2 * (nn * m - 100 * p) == m - ((200 * p + m) % (2
            * m))) by (nonlinear_arith)
            requires
                (2 * m) * nn + (200 * p + m) % (2 * m) == 200 * p + m,
                0 <= (200 * p + m) % (2 * m) < 2 * m,
                p >= m,
                p <= 10_000_000_000 * m,
                0 < m,
        ;
        crate::numerals::lemma_nat_string(nn);
        let av = crate::numerals::spec_nat_string(nn);
        assert(s == seq!['+'] + av);
        assert(nn < pow10(13)) by {
            reveal_with_fuel(pow10, 14);
        }
        lemma_digits_len(nn, 13);
        assert(s.len() == av.len() + 1);
        assert(s[0] == '+' && !is_space(s[0]));
        assert(s[s.len() - 1] == av[av.len() - 1] && is_digit(s[s.len() - 1]));
        lemma_trim_id(s);
        assert(s.subrange(1, s.len() as int) =~= av);
        assert(spec_parse_american(s) == Some(Odds { num: (nn + 100) as i64, den: 100 }));
        assert(s.len() <= TEXT_MAX);
        let r = Odds { num: (nn + 100) as i64, den: 100 };
        assert(r.num * o.den - r.den * o.num == nn * m - 100 * p) by (nonlinear_arith)
            requires
                r.num == nn + 100,
                r.den == 100,
                p == n0 - m,
                r.num * o.den - r.den * o.num == (nn + 100) * m - 100 * n0,
        ;
        assert(-(r.den * o.num) <= 100 * (r.num * o.den - r.den * o.num) <= r.den * o.num)
            by (nonlinear_arith)
            requires
                r.num * o.den - r.den * o.num == nn * m - 100 * p,
                r.den == 100,
                -m < 2 * (nn * m - 100 * p) <= m,
                0 < m < n0,
                o.num == n0,
        ;
    } else {
        let nn = (200 * m + p) / (2 * p);
        vstd::arithmetic::div_mod::lemma_fundamental_div_mod(200 * m + p, 2 * p);
        assert(100 <= nn <= 1_000_000_000_000 && 2 * (nn * p - 100 * m) == p - ((200 * m + p) % (2
            * p))) by (nonlinear_arith)
            requires
                (2 * p) * nn + (200 * m + p) % (2 * p) == 200 * m + p,
                0 <= (200 * m + p) % (2 * p) < 2 * p,
                0 < p < m,
                p * 10_000_000_000 >= m,
        ;
        crate::numerals::lemma_nat_string(nn);
        let av = crate::numerals::spec_nat_string(nn);
        assert(s == seq!['-'] + av);
        assert(nn < pow10(13)) by {
            reveal_with_fuel(pow10, 14);
        }
        lemma_digits_len(nn, 13);
        assert(s.len() == av.len() + 1);
        assert(s[0] == '-' && !is_space(s[0]));
        assert(s[s.len() - 1] == av[av.len() - 1] && is_digit(s[s.len() - 1]));
        lemma_trim_id(s);
        assert(s.subrange(1, s.len() as int) =~= av);
        assert(spec_parse_american(s) == Some(
            Odds { num: (nn + 100) as i64, den: nn as i64 },
        ));
        assert(s.len() <= TEXT_MAX);
        let r = Odds { num: (nn + 100) as i64, den: nn as i64 };
        assert(r.num * o.den - r.den * o.num == 100 * m - nn * p) by (nonlinear_arith)
            requires
                r.num == nn + 100,
                r.den == nn,
                p == n0 - m,
                r.num * o.den - r.den * o.num == (nn + 100) * m - nn * n0,
        ;
        assert(-(r.den * o.num) <= 100 * (r.num * o.den - r.den * o.num) <= r.den * o.num)
            by (nonlinear_arith)
            requires
                r.num * o.den - r.den * o.num == 100 * m - nn * p,
                r.den == nn,
                nn >= 100,
                -p < 2 * (nn * p - 100 * m) <= p,
                0 < p < m < n0,
                o.num == n0,
        ;
    }
}


proof fn lemma_first_pos_absent(s: Seq<char>, c: char, i: int)
    requires
        0 <= i <= s.len(),
        forall|t: int| i <= t < s.len() ==> s[t] != c,
    ensures
        spec_first_pos(s, c, i) == s.len(),
    decreases s.len() - i,
{
    if i < s.len() {
        lemma_first_pos_absent(s, c, i + 1);
    }
}

/// The convergents the expansion returns stay within the caps.
proof fn lemma_cf_bounds(p: int, q: int, h0: int, k0: int, h1: int, k1: int, it: int)
    requires
        0 <= h0,
        0 <= k0,
        0 <= h1 <= CF_H_MAX,
        1 <= k1 <= FRAC_DEN_MAX,
    ensures
        0 <= spec_cf(p, q, h0, k0, h1, k1, it).0 <= CF_H_MAX,
        1 <= spec_cf(p, q, h0, k0, h1, k1, it).1 <= FRAC_DEN_MAX,
    decreases 100 - it,
{
    if it >= 100 || q <= 0 {
    } else {
        let r = p % q;
        if r * 1_000_000_000 < q {
        } else {
            let a = q / r;
            let h2 = h0 + a * h1;
            let k2 = k0 + a * k1;
            if k2 > FRAC_DEN_MAX || h2 > CF_H_MAX {
            } else {
                vstd::arithmetic::div_mod::lemma_fundamental_div_mod(p, q);
                assert(h2 >= 0 && k2 >= 1) by (nonlinear_arith)
                    requires
                        h2 == h0 + a * h1,
                        k2 == k0 + a * k1,
                        a == q / r,
                        q * (p / q) + p % q == p,
                        0 <= p % q < q,
                        r == p % q,
                        r * 1_000_000_000 >= q,
                        0 < q,
                        0 <= h0 && 0 <= k0 && 0 <= h1 && 1 <= k1,
                ;
                lemma_cf_bounds(q, r, h1, k1, h2, k2, it + 1);
            }
        }
    }
}

/// Fractional round trip, exactness direction: re-parsing the fractional
/// rendering gives back precisely the price `1 + h/k` that the rendering
/// shows. How close `h/k` comes to the true profit is the approximation
/// side, exercised by the concrete cases in the test suite.
///
/// Prices whose profit part rounds to `0/1` are excluded (their rendering
/// is no longer above one and is rejected), as are numerators past the
/// fractional parser's limit.
pub proof fn lemma_fractional_round_trip(o: Odds)
    requires
        o.valid(),
        1 <= spec_approx_frac(o.num - o.den, o.den as int).0,
        spec_approx_frac(o.num - o.den, o.den as int).0 <= FRAC_SIDE_MAX,
    ensures
        ({
            let h = spec_approx_frac(o.num - o.den, o.den as int).0;
            let k = spec_approx_frac(o.num - o.den, o.den as int).1;
            spec_parse_odds(spec_format_fractional(o), OddsFormat::Fractional) == Some(
                Odds { num: (k + h) as i64, den: k as i64 },
            )
        }),
{
    let p0 = o.num - o.den;
    let q0 = o.den as int;
    vstd::arithmetic::div_mod::lemma_fundamental_div_mod(p0, q0);
    assert(0 <= p0 / q0 <= CF_H_MAX) by (nonlinear_arith)
        requires
            q0 * (p0 / q0) + p0 % q0 == p0,
            0 <= p0 % q0 < q0,
            0 < q0,
            0 <= p0 <= RAT_MAX,
            CF_H_MAX == 2_000_000_000_000_000_000u64,
    ;
    lemma_cf_bounds(p0, q0, 1, 0, p0 / q0, 1, 0);
    let h = spec_approx_frac(p0, q0).0;
    let k = spec_approx_frac(p0, q0).1;
    crate::numerals::lemma_nat_string(h);
    crate::numerals::lemma_nat_string(k);
    let av = crate::numerals::spec_nat_string(h);
    let bv = crate::numerals::spec_nat_string(k);
    let s = spec_format_fractional(o);
    assert(s == av + seq!['/'] + bv);
    assert(h < pow10(8)) by {
        reveal_with_fuel(pow10, 9);
    }
    assert(k < pow10(4)) by {
        reveal_with_fuel(pow10, 5);
    }
    assert(h > 0 && k > 0);
    lemma_digits_len(h, 8);
    lemma_digits_len(k, 4);
    assert(s.len() == av.len() + 1 + bv.len());
    assert(s.len() <= 13);
    assert(s[0] == av[0] && is_digit(s[0]));
    assert(s[s.len() - 1] == bv[bv.len() - 1] && is_digit(s[s.len() - 1]));
    lemma_trim_id(s);
    assert(forall|t: int| 0 <= t < av.len() ==> s[t] == av[t] && is_digit(#[trigger] s[t]));
    assert(forall|t: int| 0 <= t < av.len() ==> s[t] != '/');
    assert(s[av.len() as int] == '/');
    lemma_first_pos_from(s, '/', 0, av.len() as int);
    let kpos = spec_first_pos(s, '/', 0);
    assert(kpos == av.len());
    let left = s.subrange(0, kpos);
    let right = s.subrange(kpos + 1, s.len() as int);
    assert(left =~= av);
    assert(right =~= bv);
    assert(!is_space(av[0]) && !is_space(av[av.len() - 1]));
    assert(!is_space(bv[0]) && !is_space(bv[bv.len() - 1]));
    lemma_trim_id(av);
    lemma_trim_id(bv);
    // Each side is a dotless digit string, so it reads as an integer over
    // one.
    lemma_first_pos_absent(av, '.', 0);
    lemma_first_pos_absent(bv, '.', 0);
    assert(av[0] != '+' && bv[0] != '+');
    assert(av.subrange(0, av.len() as int) =~= av);
    assert(bv.subrange(0, bv.len() as int) =~= bv);
    assert(pow10(0) == 1);
    assert(spec_dec_value(av, FRAC_SIDE_MAX as int) == Some((h, 1int)));
    assert(spec_dec_value(bv, FRAC_SIDE_MAX as int) == Some((k, 1int)));
    assert(spec_parse_fractional(s) == Some(Odds { num: (k + h) as i64, den: k as i64 }));
}

} // verus!
