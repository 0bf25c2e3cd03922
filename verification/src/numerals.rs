//! Decimal numerals over character sequences.
//!
//! Spec-level grammar and value functions for strings of ASCII digits, with
//! executable parsing and formatting proved against them. These are the
//! building blocks of the odds-notation parser and formatter.
use vstd::prelude::*;

verus! {

/// An ASCII decimal digit.
pub open spec fn is_digit(c: char) -> bool {
    48 <= (c as u32) <= 57
}

/// Numeric value of a digit character.
pub open spec fn digit_val(c: char) -> int {
    (c as u32) - 48
}

/// The digit character for a value in `[0, 9]`.
pub open spec fn digit_char(d: int) -> char {
    if d == 0 {
        '0'
    } else if d == 1 {
        '1'
    } else if d == 2 {
        '2'
    } else if d == 3 {
        '3'
    } else if d == 4 {
        '4'
    } else if d == 5 {
        '5'
    } else if d == 6 {
        '6'
    } else if d == 7 {
        '7'
    } else if d == 8 {
        '8'
    } else {
        '9'
    }
}

/// Every character is a digit.
pub open spec fn all_digits(s: Seq<char>) -> bool {
    forall|i: int| 0 <= i < s.len() ==> is_digit(#[trigger] s[i])
}

/// Value of a digit string, most significant first.
pub open spec fn digits_val(s: Seq<char>) -> int
    decreases s.len(),
{
    if s.len() == 0 {
        0
    } else {
        digits_val(s.drop_last()) * 10 + digit_val(s.last())
    }
}

/// Powers of ten.
pub open spec fn pow10(k: int) -> int
    decreases k,
{
    if k <= 0 {
        1
    } else {
        10 * pow10(k - 1)
    }
}

/// The digit sequence of a positive number; empty for zero.
pub open spec fn spec_digits_rec(n: int) -> Seq<char>
    decreases n,
{
    if n <= 0 {
        Seq::empty()
    } else {
        spec_digits_rec(n / 10).push(digit_char(n % 10))
    }
}

/// The usual decimal rendering of a nonnegative number.
pub open spec fn spec_nat_string(n: int) -> Seq<char> {
    if n == 0 {
        seq!['0']
    } else {
        spec_digits_rec(n)
    }
}

/// A three-digit zero-padded rendering of a value in `[0, 999]`.
pub open spec fn spec_pad3(r: int) -> Seq<char> {
    seq![digit_char(r / 100), digit_char((r / 10) % 10), digit_char(r % 10)]
}

/// Index of the first occurrence of `c` at or after `i`, or the length if
/// there is none.
pub open spec fn spec_first_pos(s: Seq<char>, c: char, i: int) -> int
    decreases s.len() - i,
{
    if i < 0 || i >= s.len() {
        s.len() as int
    } else if s[i] == c {
        i
    } else {
        spec_first_pos(s, c, i + 1)
    }
}

/// A digit string's value is nonnegative and below `pow10` of its length.
pub proof fn lemma_digits_val_bound(s: Seq<char>)
    requires
        all_digits(s),
    ensures
        0 <= digits_val(s) < pow10(s.len() as int),
    decreases s.len(),
{
    if s.len() > 0 {
        assert(all_digits(s.drop_last())) by {
            assert(forall|i: int|
                0 <= i < s.len() - 1 ==> s.drop_last()[i] == #[trigger] s[i] && is_digit(s[i]));
        }
        lemma_digits_val_bound(s.drop_last());
        assert(digits_val(s.drop_last()) * 10 + 10 <= pow10(s.len() - 1) * 10)
            by (nonlinear_arith)
            requires
                digits_val(s.drop_last()) < pow10(s.len() - 1),
        ;
        assert(is_digit(s.last()));
    }
}

/// Digit prefixes never exceed the whole string's value.
pub proof fn lemma_digits_val_prefix(s: Seq<char>, i: int)
    requires
        all_digits(s),
        0 <= i <= s.len(),
    ensures
        digits_val(s.take(i)) <= digits_val(s),
    decreases s.len() - i,
{
    if i < s.len() {
        assert(s.take(i + 1).drop_last() =~= s.take(i));
        assert(s.take(i + 1).last() == s[i]);
        assert(is_digit(s[i]));
        lemma_digits_val_bound_take(s, i);
        assert(digits_val(s.take(i)) <= digits_val(s.take(i)) * 10 + digit_val(s[i]))
            by (nonlinear_arith)
            requires
                0 <= digit_val(s[i]),
                0 <= digits_val(s.take(i)),
        ;
        lemma_digits_val_prefix(s, i + 1);
    } else {
        assert(s.take(i) =~= s);
    }
}

/// Digit prefixes have nonnegative values.
pub proof fn lemma_digits_val_bound_take(s: Seq<char>, i: int)
    requires
        all_digits(s),
        0 <= i <= s.len(),
    ensures
        0 <= digits_val(s.take(i)),
{
    assert(all_digits(s.take(i))) by {
        assert(forall|k: int| 0 <= k < i ==> s.take(i)[k] == #[trigger] s[k] && is_digit(s[k]));
    }
    lemma_digits_val_bound(s.take(i));
}

/// The rendering of a positive number consists of digits and reads back to
/// the same value.
pub proof fn lemma_digits_rec(n: int)
    requires
        0 <= n,
    ensures
        all_digits(spec_digits_rec(n)),
        digits_val(spec_digits_rec(n)) == n,
        n > 0 ==> spec_digits_rec(n).len() >= 1,
    decreases n,
{
    if n > 0 {
        vstd::arithmetic::div_mod::lemma_fundamental_div_mod(n, 10);
        assert(0 <= n / 10 < n) by (nonlinear_arith)
            requires n > 0;
        lemma_digits_rec(n / 10);
        let s = spec_digits_rec(n);
        assert(s == spec_digits_rec(n / 10).push(digit_char(n % 10)));
        assert(s.drop_last() =~= spec_digits_rec(n / 10));
        assert(is_digit(digit_char(n % 10)) && digit_val(digit_char(n % 10)) == n % 10);
        assert(forall|i: int| 0 <= i < s.len() ==> is_digit(#[trigger] s[i])) by {
            assert(forall|i: int|
                0 <= i < s.len() - 1 ==> #[trigger] s[i] == spec_digits_rec(n / 10)[i]);
            assert(s[s.len() - 1] == digit_char(n % 10));
        }
    }
}

/// The standard rendering reads back to the value it was made from.
pub proof fn lemma_nat_string(n: int)
    requires
        0 <= n,
    ensures
        all_digits(spec_nat_string(n)),
        digits_val(spec_nat_string(n)) == n,
        spec_nat_string(n).len() >= 1,
{
    if n == 0 {
        let s = spec_nat_string(0);
        assert(s.len() == 1);
        assert(s.drop_last() =~= Seq::<char>::empty());
        assert(s.last() == '0');
        assert(digit_val('0') == 0);
        assert(digits_val(s) == digits_val(s.drop_last()) * 10 + digit_val(s.last()));
    } else {
        lemma_digits_rec(n);
    }
}

/// The three-digit padding of `r < 1000` consists of digits and reads back
/// to `r`.
pub proof fn lemma_pad3(r: int)
    requires
        0 <= r < 1000,
    ensures
        all_digits(spec_pad3(r)),
        digits_val(spec_pad3(r)) == r,
        spec_pad3(r).len() == 3,
{
    let s = spec_pad3(r);
    reveal_with_fuel(digits_val, 4);
    assert forall|d: int| 0 <= d <= 9 implies is_digit(#[trigger] digit_char(d)) && digit_val(
        digit_char(d),
    ) == d by {
    }
    vstd::arithmetic::div_mod::lemma_fundamental_div_mod(r, 100);
    vstd::arithmetic::div_mod::lemma_fundamental_div_mod(r / 10, 10);
    vstd::arithmetic::div_mod::lemma_fundamental_div_mod(r, 10);
    assert(0 <= r / 100 <= 9 && 0 <= (r / 10) % 10 <= 9 && 0 <= r % 10 <= 9);
    assert(s.drop_last() =~= seq![digit_char(r / 100), digit_char((r / 10) % 10)]);
    assert(s.drop_last().drop_last() =~= seq![digit_char(r / 100)]);
    assert(s.drop_last().drop_last().drop_last() =~= Seq::<char>::empty());
    assert(s.last() == digit_char(r % 10));
    assert(s.drop_last().last() == digit_char((r / 10) % 10));
    assert(s.drop_last().drop_last().last() == digit_char(r / 100));
    assert(digits_val(s.drop_last().drop_last()) == r / 100);
    assert(digits_val(s.drop_last()) == (r / 100) * 10 + (r / 10) % 10);
    assert(digits_val(s) == digits_val(s.drop_last()) * 10 + r % 10);
    assert((r / 100) * 10 + (r / 10) % 10 == r / 10) by (nonlinear_arith)
        requires
            100 * (r / 100) + r % 100 == r,
            10 * ((r / 10)) + r % 10 == r,
            10 * ((r / 10) / 10) + (r / 10) % 10 == r / 10,
            (r / 10) / 10 == r / 100,
            0 <= r % 10 < 10,
            0 <= r % 100 < 100,
            0 <= (r / 10) % 10 < 10,
    ;
    assert((r / 10) * 10 + r % 10 == r);
}

/// Parses the digit substring `s[from..to]` as an unsigned value of at most
/// `limit`. `None` exactly when the range is empty, holds a non-digit, or
/// its value exceeds `limit`.
pub fn parse_uint(s: &str, from: usize, to: usize, limit: u64) -> (r: Option<u64>)
    requires
        from <= to <= s@.len(),
        limit <= 10_000_000_000_000_000,
    ensures
        r is Some <==> (from < to && all_digits(s@.subrange(from as int, to as int)) && digits_val(
            s@.subrange(from as int, to as int),
        ) <= limit),
        r is Some ==> r->0 == digits_val(s@.subrange(from as int, to as int)),
{
    if from >= to {
        return None;
    }
    let ghost whole = s@.subrange(from as int, to as int);
    let mut acc: u64 = 0;
    let mut i: usize = from;
    while i < to
        invariant
            from <= i <= to <= s@.len(),
            limit <= 10_000_000_000_000_000,
            whole == s@.subrange(from as int, to as int),
            all_digits(whole.take(i - from)),
            acc == digits_val(whole.take(i - from)),
            acc <= limit,
        decreases to - i,
    {
        let c = s.get_char(i);
        let u: u32 = c as u32;
        proof {
            assert(whole[i - from] == s@[i as int]);
        }
        if u < 48 || u > 57 {
            proof {
                assert(!is_digit(whole[i - from]));
            }
            return None;
        }
        let dv: u64 = (u - 48) as u64;
        let acc2: u64 = acc * 10 + dv;
        proof {
            assert(whole.take(i - from + 1).drop_last() =~= whole.take(i - from));
            assert(whole.take(i - from + 1).last() == whole[i - from]);
        }
        if acc2 > limit {
            proof {
                if all_digits(whole) {
                    lemma_digits_val_prefix(whole, i - from + 1);
                    assert(whole.take((whole.len()) as int) =~= whole);
                }
            }
            return None;
        }
        acc = acc2;
        i = i + 1;
    }
    proof {
        assert(whole.take((to - from) as int) =~= whole);
    }
    Some(acc)
}

/// The ten digit strings.
fn digit_str(d: u64) -> (r: &'static str)
    requires
        d <= 9,
    ensures
        r@ =~= seq![digit_char(d as int)],
{
    proof {
        reveal_strlit("0");
        reveal_strlit("1");
        reveal_strlit("2");
        reveal_strlit("3");
        reveal_strlit("4");
        reveal_strlit("5");
        reveal_strlit("6");
        reveal_strlit("7");
        reveal_strlit("8");
        reveal_strlit("9");
    }
    if d == 0 {
        "0"
    } else if d == 1 {
        "1"
    } else if d == 2 {
        "2"
    } else if d == 3 {
        "3"
    } else if d == 4 {
        "4"
    } else if d == 5 {
        "5"
    } else if d == 6 {
        "6"
    } else if d == 7 {
        "7"
    } else if d == 8 {
        "8"
    } else {
        "9"
    }
}

/// Renders the digit sequence of a positive value; empty for zero.
fn digits_to_string(n: u64) -> (r: String)
    ensures
        r@ == spec_digits_rec(n as int),
    decreases n,
{
    if n == 0 {
        let r = String::new();
        proof {
            assert(r@ =~= spec_digits_rec(0));
        }
        r
    } else {
        proof {
            assert(n / 10 < n) by (nonlinear_arith)
                requires n > 0;
        }
        let mut r = digits_to_string(n / 10);
        let d = digit_str(n % 10);
        r.append(d);
        proof {
            assert(spec_digits_rec((n / 10) as int) + seq![digit_char((n % 10) as int)]
                =~= spec_digits_rec((n / 10) as int).push(digit_char((n % 10) as int)));
        }
        r
    }
}

/// Renders a nonnegative value in the usual decimal notation.
pub fn nat_to_string(n: u64) -> (r: String)
    ensures
        r@ == spec_nat_string(n as int),
{
    if n == 0 {
        proof {
            reveal_strlit("0");
        }
        let r = String::from_str("0");
        proof {
            assert(r@ =~= spec_nat_string(0));
        }
        r
    } else {
        digits_to_string(n)
    }
}

/// Renders a value below 1000 as exactly three digits.
pub fn pad3_to_string(r3: u64) -> (r: String)
    requires
        r3 < 1000,
    ensures
        r@ == spec_pad3(r3 as int),
{
    let mut s = String::new();
    s.append(digit_str(r3 / 100));
    s.append(digit_str((r3 / 10) % 10));
    s.append(digit_str(r3 % 10));
    proof {
        assert(s@ =~= spec_pad3(r3 as int));
    }
    s
}

} // verus!
