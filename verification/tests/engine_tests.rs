use edgerunner::fixed::SCALE;
use edgerunner::fixed::kelly_fraction;
use edgerunner::single::single_bet_kelly;
use edgerunner::single::derive_market_odds;
use edgerunner::single::flip_probability;
use edgerunner::single::fair_odds_rational;
use edgerunner::odds::Odds;

#[test]
fn kelly_fraction_is_a_probability_share() {
    let probs = [0, 1, 250_000, 500_000, 750_000, 999_999, 1_000_000];
    let odds = [0, 900_000, 1_000_000, 1_500_000, 2_000_000, 10_000_000];
    for &p in probs.iter() {
        for &d in odds.iter() {
            let f = kelly_fraction(p, d);
            assert!(0 <= f && f <= SCALE);
        }
    }
}

#[test]
fn kelly_fraction_zero_without_edge() {
    // p equal to the implied probability: no stake.
    assert_eq!(kelly_fraction(500_000, 2_000_000), 0);
    // p below the implied probability: no stake.
    assert_eq!(kelly_fraction(400_000, 2_000_000), 0);
    // Degenerate price: no stake regardless of p.
    assert_eq!(kelly_fraction(990_000, 1_000_000), 0);
    assert_eq!(kelly_fraction(990_000, 500_000), 0);
    // The smallest edge the units resolve: a positive stake.
    assert!(kelly_fraction(500_001, 2_000_000) > 0);
}

#[test]
fn kelly_fraction_known_values() {
    // b=1, p=0.6: f = (0.6 - 0.4) / 1 = 0.2.
    assert_eq!(kelly_fraction(600_000, 2_000_000), 200_000);
    // b=3, p=0.5: f = (1.5 - 0.5) / 3 = 1/3.
    assert_eq!(kelly_fraction(500_000, 4_000_000), 333_333);
    // A certainty stakes the whole bankroll.
    assert_eq!(kelly_fraction(1_000_000, 2_000_000), 1_000_000);
}

#[test]
fn single_bet_even_money_scenario() {
    // Decimal odds 2.0, your probability 60%, bankroll 1000.
    let r = single_bet_kelly(600_000, 2_000_000, 1000);
    assert_eq!(r.fraction, 200_000);
    assert_eq!(r.full_stake, 200);
    assert_eq!(r.half_stake, 100);
    assert_eq!(r.quarter_stake, 50);
    assert_eq!(r.ev, Some(200_000));
    assert_eq!(r.implied_prob, Some(500_000));
    assert_eq!(r.edge, Some(100_000));
    assert_eq!(r.fair_odds, Some(1_666_666));
    // g = 0.6*ln(1.2) + 0.4*ln(0.8) = 0.0201355... -> 201.355 bp.
    assert!(201_354_000 <= r.log_growth_bp && r.log_growth_bp <= 201_356_000);
}

#[test]
fn single_bet_market_derived_odds_no_edge() {
    // Market probability 60% with no explicit odds gives decimal odds
    // 1/0.6; at your probability 55% the implied 60% beats you: no bet.
    let d = derive_market_odds(600_000);
    assert_eq!(d, 1_666_666);
    let r = single_bet_kelly(550_000, d, 1000);
    assert_eq!(r.fraction, 0);
    assert_eq!(r.full_stake, 0);
    assert_eq!(r.log_growth_bp, 0);
}

#[test]
fn single_bet_degenerate_price_reports_no_bet() {
    let r = single_bet_kelly(700_000, 900_000, 5000);
    assert_eq!(r.fraction, 0);
    assert_eq!(r.full_stake, 0);
    assert_eq!(r.ev, None);
    assert_eq!(r.implied_prob, None);
    assert_eq!(r.edge, None);
    // Fair odds depend only on p.
    assert_eq!(r.fair_odds, Some(1_428_571));
    assert_eq!(r.log_growth_bp, 0);
}

#[test]
fn single_bet_zero_probability_has_infinite_fair_odds() {
    let r = single_bet_kelly(0, 2_000_000, 1000);
    assert_eq!(r.fraction, 0);
    assert_eq!(r.fair_odds, None);
}

#[test]
fn derive_market_odds_clamps_probability() {
    // Extreme inputs are clamped into the open unit interval.
    assert_eq!(derive_market_odds(0), 1_000_000_000_000);
    assert_eq!(derive_market_odds(-50), 1_000_000_000_000);
    assert_eq!(derive_market_odds(2_000_000), 1_000_001);
    assert_eq!(derive_market_odds(500_000), 2_000_000);
}

#[test]
fn flip_probability_is_complementary() {
    assert_eq!(flip_probability(550_000), 450_000);
    assert_eq!(flip_probability(0), 1_000_000);
    assert_eq!(flip_probability(1_000_000), 0);
}

#[test]
fn fair_odds_rational_inverts_probability() {
    assert_eq!(fair_odds_rational(550_000), Some(Odds { num: 1_000_000, den: 550_000 }));
    assert_eq!(fair_odds_rational(0), None);
    assert_eq!(fair_odds_rational(1_000_000), None);
}
