use minka_ledger::interest::{
    accrue, allocate, derive_level_payment, derive_periodic_rate, payment_amount, Amortised,
    InterestError, PaymentContext, RATE_SCALE,
};
use minka_ledger::money::MoneyError;

/// The periodic rate of an effective one, scaled and rounded, if it is finite.
fn root(quoted_e15: i64, periods: i64) -> Option<i64> {
    let r = quoted_e15 as f64 / RATE_SCALE as f64;
    let periodic = (1.0 + r).powf(1.0 / periods as f64) - 1.0;
    let scaled = (periodic * RATE_SCALE as f64).round();
    if scaled.is_finite() {
        Some(scaled as i64)
    } else {
        None
    }
}

fn periodic(quoted_e15: i64, basis: &str, periods: i64) -> Result<i64, InterestError> {
    derive_periodic_rate(quoted_e15, basis, periods, root(quoted_e15, periods))
}

/// `P·i / (1 - (1+i)^-n)`, rounded.
fn amortised(principal: i64, rate_e15: i64, term: i64) -> Amortised {
    let i = rate_e15 as f64 / RATE_SCALE as f64;
    let denom = 1.0 - (1.0 + i).powi(-(term as i32));
    if denom.abs() < f64::EPSILON {
        return Amortised::Degenerate;
    }
    let pmt = principal as f64 * i / denom;
    if !pmt.is_finite() {
        return Amortised::NotFinite;
    }
    Amortised::Payment(pmt.round() as i64)
}

fn level(principal: i64, rate_e15: i64, term: i64) -> Result<i64, InterestError> {
    derive_level_payment(principal, rate_e15, term, amortised(principal, rate_e15, term))
}

#[test]
fn effective_and_nominal_bases_differ_and_both_are_exact() {
    // 24.9% AER accrued daily. Verified independently: (1.249)^(1/365)-1 = 0.000609345112730
    assert_eq!(periodic(249_000_000_000_000, "effective", 365).unwrap(), 609_345_112_730);
    // 24.99% AER monthly
    assert_eq!(periodic(249_900_000_000_000, "effective", 12).unwrap(), 18_762_473_077_360);
    // the same figure quoted NOMINALLY is simple division, and is materially bigger
    assert_eq!(periodic(249_900_000_000_000, "nominal", 12).unwrap(), 20_825_000_000_000);
}

#[test]
fn a_zero_rate_is_zero_not_an_error() {
    assert_eq!(periodic(0, "effective", 12).unwrap(), 0);
    assert_eq!(periodic(0, "nominal", 12).unwrap(), 0);
}

#[test]
fn bad_rate_inputs_are_refused() {
    assert!(periodic(100, "weekly-ish", 12).is_err());
    assert!(periodic(100, "nominal", 0).is_err());
    assert!(periodic(-RATE_SCALE as i64 * 2, "effective", 12).is_err());
}

#[test]
fn accrual_is_integer_and_rounds_half_away() {
    // £1,000 at 1% for a period = £10.00 exactly
    assert_eq!(accrue(100_000, 10_000_000_000_000).unwrap(), 1_000);
    // a balance small enough to produce half a penny rounds up, not to even
    assert_eq!(accrue(100, 5_000_000_000_000).unwrap(), 1); // 0.5p -> 1p
    // and a debt (negative balance) accrues symmetrically
    assert_eq!(accrue(-100_000, 10_000_000_000_000).unwrap(), -1_000);
    assert_eq!(accrue(0, 10_000_000_000_000).unwrap(), 0);
}

#[test]
fn accrual_survives_a_balance_that_overflows_an_i64_product() {
    // £10m at 24.9% daily: 1e9 * 6.09e11 is ~6e20, past i64. This is the case i128 is for.
    let bal = 1_000_000_000;
    let got = accrue(bal, 609_345_112_730).unwrap();
    assert_eq!(got, 609_345);
    assert!(bal as i128 * 609_345_112_730i128 > i64::MAX as i128);
}

#[test]
fn the_level_payment_clears_the_loan_exactly() {
    // £10,000 over 60 months at 6% nominal -> £193.33/month. The hard oracle for amortisation
    // is that the balance lands on EXACTLY zero once the final payment absorbs the residual.
    let principal = 1_000_000;
    let rate = periodic(60_000_000_000_000, "nominal", 12).unwrap();
    assert_eq!(rate, 5_000_000_000_000); // 0.5% a month
    let pmt = level(principal, rate, 60).unwrap();
    assert_eq!(pmt, 19_333);

    let mut bal = principal;
    let mut total_interest = 0;
    for k in 0..60 {
        let interest = accrue(bal, rate).unwrap();
        total_interest += interest;
        let (_to_i, to_p) = allocate(pmt, interest);
        // the last instalment settles whatever is left rather than over/under-paying
        bal -= if k == 59 { bal } else { to_p };
    }
    assert_eq!(bal, 0, "an amortising loan must close at exactly zero");
    assert!(total_interest > 0);
}

#[test]
fn a_zero_rate_loan_is_plain_division() {
    assert_eq!(level(120_000, 0, 12).unwrap(), 10_000);
    assert!(level(120_000, 0, 0).is_err());
}

#[test]
fn allocation_pays_interest_before_principal() {
    // £200 against £50 of interest: £50 interest, £150 principal
    assert_eq!(allocate(20_000, 5_000), (5_000, 15_000));
    // a payment smaller than the interest pays NO principal -- the debt grows. Modelled, not
    // refused: that is what negative amortisation is and the forecast should show it.
    assert_eq!(allocate(3_000, 5_000), (3_000, 0));
    assert_eq!(allocate(0, 5_000), (0, 0));
}

#[test]
fn the_uk_minimum_payment_shape() {
    let ctx = PaymentContext {
        balance_minor: 120_000,   // £1,200 owed
        statement_minor: 100_000, // £1,000 on the statement
        interest_minor: 2_000,    // £20 interest
        fees_minor: 1_200,        // £12 fee
    };
    // interest + fees + 1% of the statement, floored at £5
    let got = payment_amount(
        "interest_fees_plus_pct", ctx, None, Some(10_000_000_000_000),
        Some(500), None, None,
    ).unwrap();
    assert_eq!(got, 2_000 + 1_200 + 1_000);

    // when the percentage is tiny the FLOOR wins -- "the greater of £5 or 1%"
    let small = PaymentContext { balance_minor: 1_000, statement_minor: 1_000,
                                 interest_minor: 0, fees_minor: 0 };
    let got = payment_amount("pct_of_statement", small, None, Some(10_000_000_000_000),
                             Some(500), None, None).unwrap();
    assert_eq!(got, 500, "the £5 floor beats 1% of £10");
}

#[test]
fn a_payment_never_exceeds_what_is_owed() {
    let ctx = PaymentContext { balance_minor: 3_000, statement_minor: 3_000,
                               interest_minor: 0, fees_minor: 0 };
    // a £50 fixed payment against a £30 balance pays £30
    let got = payment_amount("fixed", ctx, Some(5_000), None, None, None, None).unwrap();
    assert_eq!(got, 3_000);
    // and a cleared card asks for nothing rather than a negative
    let clear = PaymentContext { balance_minor: 0, statement_minor: 0,
                                 interest_minor: 0, fees_minor: 0 };
    assert_eq!(payment_amount("fixed", clear, Some(5_000), None, None, None, None).unwrap(), 0);
}

#[test]
fn full_statement_and_fixed_and_level_shapes() {
    let ctx = PaymentContext { balance_minor: 120_000, statement_minor: 100_000,
                               interest_minor: 2_000, fees_minor: 0 };
    assert_eq!(payment_amount("full_statement", ctx, None, None, None, None, None).unwrap(), 100_000);
    assert_eq!(payment_amount("fixed", ctx, Some(25_000), None, None, None, None).unwrap(), 25_000);
    assert_eq!(
        payment_amount("amortising_level", ctx, None, None, None, None, Some(19_333)).unwrap(),
        19_333
    );
    assert!(payment_amount("nonsense", ctx, None, None, None, None, None).is_err());
}

#[test]
fn savings_interest_is_the_same_machinery_with_a_positive_balance() {
    // 4.5% AER credited monthly on £5,000.
    let rate = periodic(45_000_000_000_000, "effective", 12).unwrap();
    let monthly = accrue(500_000, rate).unwrap();
    // ~0.3675% a month on £5,000 = about £18.37
    assert!((1_830..=1_845).contains(&monthly), "got {monthly}");
    // and twelve months of compounding lands within a penny or two of the quoted AER
    let mut bal = 500_000i64;
    for _ in 0..12 {
        bal += accrue(bal, rate).unwrap();
    }
    let earned = bal - 500_000;
    assert!((22_450..=22_550).contains(&earned), "a year at 4.5% AER on £5,000: got {earned}");
}

#[test]
fn each_refusal_says_why() {
    let text = |r: Result<i64, InterestError>| r.unwrap_err().to_text();
    assert_eq!(text(periodic(100, "weekly-ish", 12)), "bad rate: unknown basis weekly-ish");
    assert_eq!(text(periodic(100, "nominal", 0)), "bad rate: periods_per_year 0");
    assert_eq!(text(periodic(-2_000_000_000_000_000, "effective", 12)), "bad rate: rate <= -100%");
    assert_eq!(text(derive_periodic_rate(1, "effective", 12, None)), "bad rate: not finite");
    assert_eq!(text(level(120_000, 0, -3)), "bad term: term -3");
    assert_eq!(
        text(derive_level_payment(1, 1, 12, Amortised::Degenerate)),
        "bad rate: degenerate amortisation"
    );
    assert_eq!(text(derive_level_payment(1, 1, 12, Amortised::NotFinite)), "bad rate: not finite");
    assert!(matches!(
        accrue(i64::MAX, i64::MAX),
        Err(InterestError::Money(MoneyError::Overflow(_)))
    ));
}

#[test]
fn the_floor_lifts_and_then_the_cap_limits() {
    let ctx = PaymentContext { balance_minor: 90_000, statement_minor: 80_000,
                               interest_minor: 1_000, fees_minor: 0 };
    let pay = |floor, cap| {
        payment_amount("fixed", ctx, Some(2_000), None, floor, cap, None).unwrap()
    };
    assert_eq!(pay(None, None), 2_000);
    assert_eq!(pay(Some(5_000), None), 5_000);
    assert_eq!(pay(Some(5_000), Some(4_000)), 4_000);
    assert_eq!(pay(None, Some(1_500)), 1_500);
}

#[test]
fn a_debt_accrues_as_the_same_saving_does_with_the_sign_turned() {
    for b in [1, 37, 100, 99_999, 1_234_567] {
        let up = accrue(b, 18_762_473_077_360).unwrap();
        assert_eq!(accrue(-b, 18_762_473_077_360).unwrap(), -up);
    }
}
