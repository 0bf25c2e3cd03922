use edgerunner::independent::OutcomeProbs;
use edgerunner::independent::cap_fractions;
use edgerunner::independent::independent_allocate;
use edgerunner::exact::exact_allocate;

const CAP: i64 = 1_000_000;

#[test]
fn cap_fractions_no_op_under_cap() {
    let f = vec![100_000, 200_000, 300_000];
    let r = cap_fractions(&f, CAP);
    assert_eq!(r, f);
}

#[test]
fn cap_fractions_scales_over_cap() {
    let f = vec![600_000, 600_000];
    let r = cap_fractions(&f, CAP);
    assert_eq!(r, vec![500_000, 500_000]);
    let sum: i64 = r.iter().sum();
    assert!(sum <= CAP);
}

#[test]
fn cap_fractions_uneven_scaling_stays_under_cap() {
    let f = vec![900_000, 450_000, 150_000];
    let r = cap_fractions(&f, CAP);
    let sum: i64 = r.iter().sum();
    assert!(sum <= CAP);
    // 1.5x over: each scaled by 2/3, rounded down.
    assert_eq!(r, vec![600_000, 300_000, 100_000]);
}

#[test]
fn independent_no_scaling_when_total_fits() {
    let outcomes = vec![
        OutcomeProbs { market: 500_000, yours: 600_000 },
        OutcomeProbs { market: 500_000, yours: 400_000 },
    ];
    let r = independent_allocate(&outcomes, CAP);
    assert_eq!(r.len(), 2);
    assert_eq!(r[0].odds, 2_000_000);
    assert_eq!(r[0].fraction, 200_000);
    assert_eq!(r[0].recommended, 200_000);
    assert_eq!(r[1].fraction, 0);
    assert_eq!(r[1].recommended, 0);
}

#[test]
fn independent_scales_down_to_cap() {
    let outcomes = vec![
        OutcomeProbs { market: 200_000, yours: 800_000 },
        OutcomeProbs { market: 200_000, yours: 800_000 },
        OutcomeProbs { market: 200_000, yours: 800_000 },
    ];
    let r = independent_allocate(&outcomes, CAP);
    // Odds 5.0, Kelly (4*0.8 - 0.2)/4 = 0.75 each; 2.25 total scales to 1.
    assert_eq!(r[0].fraction, 750_000);
    assert_eq!(r[0].recommended, 333_333);
    let sum: i64 = r.iter().map(|o| o.recommended).sum();
    assert!(sum <= CAP);
}

#[test]
fn independent_clamps_wild_inputs() {
    let outcomes = vec![OutcomeProbs { market: -100, yours: 2_000_000 }];
    let r = independent_allocate(&outcomes, CAP);
    assert_eq!(r.len(), 1);
    // Market clamped to the smallest positive probability; yours to 1.
    assert_eq!(r[0].odds, 1_000_000_000_000);
    assert!(0 <= r[0].recommended && r[0].recommended <= CAP);
}

#[test]
fn exact_empty_and_mismatched_inputs() {
    let none: Vec<i64> = Vec::new();
    assert_eq!(exact_allocate(&none, &none, CAP), Vec::<i64>::new());
    let p = vec![600_000, 400_000];
    let d = vec![2_000_000];
    assert_eq!(exact_allocate(&p, &d, CAP), Vec::<i64>::new());
}

#[test]
fn exact_certainty_matches_closed_form() {
    // With the whole probability mass on one outcome the closed-form Kelly
    // stake is the entire cap, and the optimizer agrees.
    let p = vec![1_000_000];
    let d = vec![2_000_000];
    let r = exact_allocate(&p, &d, CAP);
    assert_eq!(r.len(), 1);
    assert!((r[0] - 1_000_000).abs() <= 100);
}

#[test]
fn exact_two_sided_market_matches_single_kelly() {
    // Backing both sides of an even-money market: the net position
    // f0 - f1 is the closed-form single Kelly stake 0.2.
    let p = vec![600_000, 400_000];
    let d = vec![2_000_000, 2_000_000];
    let r = exact_allocate(&p, &d, CAP);
    assert_eq!(r.len(), 2);
    let net = r[0] - r[1];
    assert!((net - 200_000).abs() <= 100, "net position {} off the Kelly stake", net);
}

#[test]
fn exact_no_edge_stays_at_zero() {
    // Market-implied probabilities equal the bettor's own: no stake at all.
    let p = vec![600_000, 400_000];
    let d = vec![1_666_666, 2_500_000];
    let r = exact_allocate(&p, &d, CAP);
    assert_eq!(r, vec![0, 0]);
}

#[test]
fn exact_three_way_market_feasible_and_backs_the_value_side() {
    // Market 40/30/30 against a 45/25/30 view: only the first leg has
    // value.
    let p = vec![450_000, 250_000, 300_000];
    let d = vec![2_500_000, 3_333_333, 3_333_333];
    let r = exact_allocate(&p, &d, CAP);
    assert_eq!(r.len(), 3);
    let mut sum: i64 = 0;
    for &x in r.iter() {
        assert!(0 <= x && x <= CAP);
        sum += x;
    }
    assert!(sum <= CAP);
    assert!(r[0] > 0);
}

#[test]
fn exact_feasible_under_adversarial_inputs() {
    // Degenerate odds, certainty mass, and a tight cap together still give
    // a feasible allocation.
    let p = vec![1_000_000, 0, 500_000];
    let d = vec![900_000, 50_000_000, 1_000_000];
    let cap = 250_000;
    let r = exact_allocate(&p, &d, cap);
    assert_eq!(r.len(), 3);
    let mut sum: i64 = 0;
    for &x in r.iter() {
        assert!(0 <= x && x <= cap);
        sum += x;
    }
    assert!(sum <= cap);
}

#[test]
fn exact_overcommitted_probabilities_stay_capped() {
    // Strong edges on every leg push the raw stakes far past the cap; the
    // simplex projection keeps the allocation feasible.
    let p = vec![800_000, 800_000, 800_000];
    let d = vec![5_000_000, 5_000_000, 5_000_000];
    let r = exact_allocate(&p, &d, CAP);
    assert_eq!(r.len(), 3);
    let mut sum: i64 = 0;
    for &x in r.iter() {
        assert!(0 <= x && x <= CAP);
        sum += x;
    }
    assert!(sum <= CAP);
}
