use edgerunner::odds::Odds;
use edgerunner::odds::OddsFormat;
use edgerunner::odds::parse_odds;
use edgerunner::odds::parse_any;
use edgerunner::odds::format_odds;
use edgerunner::odds::complement;
use edgerunner::odds::approx_fraction;
use edgerunner::odds::to_micro;

fn odds(num: i64, den: i64) -> Odds {
    Odds { num, den }
}

#[test]
fn parse_decimal_accepts_prices_above_one() {
    assert_eq!(parse_odds("2.10", OddsFormat::Decimal), Some(odds(210, 100)));
    assert_eq!(parse_odds("3", OddsFormat::Decimal), Some(odds(3, 1)));
    assert_eq!(parse_odds("+3", OddsFormat::Decimal), Some(odds(3, 1)));
    assert_eq!(parse_odds("2.", OddsFormat::Decimal), Some(odds(2, 1)));
    assert_eq!(parse_odds(" 2.5 ", OddsFormat::Decimal), Some(odds(25, 10)));
}

#[test]
fn parse_decimal_rejects_degenerate_prices() {
    assert_eq!(parse_odds("1.0", OddsFormat::Decimal), None);
    assert_eq!(parse_odds("1", OddsFormat::Decimal), None);
    assert_eq!(parse_odds("0.5", OddsFormat::Decimal), None);
    assert_eq!(parse_odds(".5", OddsFormat::Decimal), None);
    assert_eq!(parse_odds("-2.5", OddsFormat::Decimal), None);
    assert_eq!(parse_odds("", OddsFormat::Decimal), None);
    assert_eq!(parse_odds(".", OddsFormat::Decimal), None);
    assert_eq!(parse_odds("abc", OddsFormat::Decimal), None);
    assert_eq!(parse_odds("2.1.0", OddsFormat::Decimal), None);
}

#[test]
fn parse_american_both_signs() {
    assert_eq!(parse_odds("+110", OddsFormat::American), Some(odds(210, 100)));
    assert_eq!(parse_odds("-110", OddsFormat::American), Some(odds(210, 110)));
    assert_eq!(parse_odds("110", OddsFormat::American), Some(odds(210, 100)));
    assert_eq!(parse_odds(" -250 ", OddsFormat::American), Some(odds(350, 250)));
}

#[test]
fn parse_american_rejects_zero_and_junk() {
    assert_eq!(parse_odds("0", OddsFormat::American), None);
    assert_eq!(parse_odds("+0", OddsFormat::American), None);
    assert_eq!(parse_odds("-0", OddsFormat::American), None);
    assert_eq!(parse_odds("-", OddsFormat::American), None);
    assert_eq!(parse_odds("1.5", OddsFormat::American), None);
    assert_eq!(parse_odds("abc", OddsFormat::American), None);
    assert_eq!(parse_odds("", OddsFormat::American), None);
}

#[test]
fn parse_fractional_shapes() {
    assert_eq!(parse_odds("11/10", OddsFormat::Fractional), Some(odds(21, 10)));
    assert_eq!(parse_odds("1/1", OddsFormat::Fractional), Some(odds(2, 1)));
    // Numeric sides may carry decimals: 1.5/2 is a profit of 0.75.
    assert_eq!(parse_odds("1.5/2", OddsFormat::Fractional), Some(odds(35, 20)));
    assert_eq!(parse_odds(" 7 / 2 ", OddsFormat::Fractional), Some(odds(9, 2)));
}

#[test]
fn parse_fractional_rejects_bad_shapes() {
    assert_eq!(parse_odds("11", OddsFormat::Fractional), None);
    assert_eq!(parse_odds("5/0", OddsFormat::Fractional), None);
    assert_eq!(parse_odds("0/3", OddsFormat::Fractional), None);
    assert_eq!(parse_odds("/3", OddsFormat::Fractional), None);
    assert_eq!(parse_odds("3/", OddsFormat::Fractional), None);
    assert_eq!(parse_odds("a/b", OddsFormat::Fractional), None);
}

#[test]
fn parse_any_tries_decimal_then_american_then_fractional() {
    assert_eq!(parse_any("2.10"), Some(odds(210, 100)));
    // A plain "+110" is a valid decimal numeral for 110.0, as a float parse
    // would also find, so the decimal reading wins.
    assert_eq!(parse_any("+110"), Some(odds(110, 1)));
    assert_eq!(parse_any("-110"), Some(odds(210, 110)));
    assert_eq!(parse_any("11/10"), Some(odds(21, 10)));
    assert_eq!(parse_any("garbage"), None);
}

#[test]
fn format_decimal_three_places() {
    assert_eq!(format_odds(&odds(21, 10), OddsFormat::Decimal), "2.100");
    assert_eq!(format_odds(&odds(5, 3), OddsFormat::Decimal), "1.667");
    assert_eq!(format_odds(&odds(2, 1), OddsFormat::Decimal), "2.000");
    assert_eq!(format_odds(&odds(1999, 1000), OddsFormat::Decimal), "1.999");
}

#[test]
fn format_american_sign_split_at_evens() {
    assert_eq!(format_odds(&odds(21, 10), OddsFormat::American), "+110");
    assert_eq!(format_odds(&odds(2, 1), OddsFormat::American), "+100");
    assert_eq!(format_odds(&odds(210, 110), OddsFormat::American), "-110");
    assert_eq!(format_odds(&odds(3, 2), OddsFormat::American), "-200");
}

#[test]
fn format_fractional_small_denominator() {
    assert_eq!(format_odds(&odds(21, 10), OddsFormat::Fractional), "11/10");
    assert_eq!(format_odds(&odds(4, 1), OddsFormat::Fractional), "3/1");
    assert_eq!(format_odds(&odds(1333333, 1000000), OddsFormat::Fractional), "1/3");
}

#[test]
fn round_trip_each_format_within_one_percent() {
    let cases = [odds(21, 10), odds(3, 2), odds(7, 4), odds(2, 1), odds(5, 1), odds(101, 100)];
    let formats = [OddsFormat::Decimal, OddsFormat::American, OddsFormat::Fractional];
    for o in cases.iter() {
        for f in formats.iter() {
            let text = format_odds(o, *f);
            let back = parse_odds(&text, *f)
                .unwrap_or_else(|| panic!("no parse for {} in {:?}", text, f));
            // |back - o| <= o / 100, cross-multiplied.
            let lhs = 100 * (back.num * o.den - back.den * o.num).abs();
            let rhs = back.den * o.num;
            assert!(lhs <= rhs, "round trip off for {}/{} via {:?}: {}", o.num, o.den, f, text);
        }
    }
}

#[test]
fn complement_matches_no_vig_price() {
    let o = odds(21, 10);
    let c = complement(&o);
    assert_eq!(c, odds(21, 11));
    // Evens is its own complement.
    assert_eq!(complement(&odds(2, 1)), odds(2, 1));
}

#[test]
fn complement_twice_is_identity() {
    for o in [odds(21, 10), odds(3, 2), odds(1000001, 1000000), odds(500, 1)] {
        assert_eq!(complement(&complement(&o)), o);
    }
}

#[test]
fn approx_fraction_exact_for_small_rationals() {
    assert_eq!(approx_fraction(11, 10), (11, 10));
    assert_eq!(approx_fraction(3, 4), (3, 4));
    assert_eq!(approx_fraction(1, 2), (1, 2));
    assert_eq!(approx_fraction(0, 7), (0, 1));
    assert_eq!(approx_fraction(333333, 1000000), (1, 3));
}

#[test]
fn to_micro_rounds_to_engine_units() {
    assert_eq!(to_micro(&odds(21, 10)), 2_100_000);
    assert_eq!(to_micro(&odds(2, 1)), 2_000_000);
    assert_eq!(to_micro(&odds(5, 3)), 1_666_667);
}

#[test]
fn all_formats_listed_in_order() {
    let all = OddsFormat::all();
    assert_eq!(all.len(), 3);
    assert_eq!(all[0], OddsFormat::Decimal);
    assert_eq!(all[1], OddsFormat::American);
    assert_eq!(all[2], OddsFormat::Fractional);
}

#[test]
fn overlong_text_is_rejected() {
    let long = "2.".to_string() + &"0".repeat(70);
    assert_eq!(parse_odds(&long, OddsFormat::Decimal), None);
    assert_eq!(parse_any(&long), None);
}

#[test]
fn oversized_numerals_are_rejected() {
    // More precision than the parser's numeral limit carries.
    assert_eq!(parse_odds("2.000000000000000001", OddsFormat::Decimal), None);
    assert_eq!(parse_odds("+2000000000000", OddsFormat::American), None);
}

#[test]
fn to_micro_saturates_at_engine_bound() {
    assert_eq!(
        to_micro(&odds(1_000_000_000_000_000, 1)),
        1_000_000_000_000_000
    );
}
