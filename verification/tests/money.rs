use minka_ledger::money::{format_minor, parse_minor, round_half_away, MoneyError};

#[test]
fn parses_the_shapes_real_exports_contain() {
    assert_eq!(parse_minor("12.34", 2).unwrap(), 1234);
    assert_eq!(parse_minor("  12.34  ", 2).unwrap(), 1234);
    assert_eq!(parse_minor("£12.34", 2).unwrap(), 1234);
    assert_eq!(parse_minor("1,234.56", 2).unwrap(), 123456);
    assert_eq!(parse_minor("1\u{00a0}234.56", 2).unwrap(), 123456); // NBSP thousands
    assert_eq!(parse_minor("-12.34", 2).unwrap(), -1234);
    assert_eq!(parse_minor("\u{2212}12.34", 2).unwrap(), -1234); // Unicode minus
    assert_eq!(parse_minor("(12.34)", 2).unwrap(), -1234); // accounting negative
    assert_eq!(parse_minor("12", 2).unwrap(), 1200); // implied places
    assert_eq!(parse_minor("12.3", 2).unwrap(), 1230);
    assert_eq!(parse_minor("0", 2).unwrap(), 0);
    assert_eq!(parse_minor("-0.01", 2).unwrap(), -1);
}

#[test]
fn refuses_rather_than_rounds_excess_precision() {
    assert_eq!(
        parse_minor("1.005", 2),
        Err(MoneyError::TooPrecise { got: 3, allowed: 2 })
    );
    assert!(parse_minor("0.123456789", 8).is_err()); // 9dp, past BTC's precision
}

#[test]
fn refuses_junk_and_blank() {
    assert!(parse_minor("", 2).is_err());
    assert!(parse_minor("   ", 2).is_err());
    assert!(parse_minor("n/a", 2).is_err());
    assert!(parse_minor("12.3.4", 2).is_err()); // second dot becomes junk
    assert!(parse_minor("£", 2).is_err()); // symbol but no digits
    assert!(parse_minor("1.0", 9).is_err()); // scale past MAX_MINOR_DIGITS
}

#[test]
fn crypto_scales_fit() {
    assert_eq!(parse_minor("0.00000001", 8).unwrap(), 1);
    assert_eq!(parse_minor("21000000", 8).unwrap(), 2_100_000_000_000_000);
    assert_eq!(parse_minor("9.22337203", 8).unwrap(), 922_337_203);
}

#[test]
fn rounds_halves_away_from_zero_symmetrically() {
    assert_eq!(round_half_away(5, 2).unwrap(), 3); // 2.5 -> 3
    assert_eq!(round_half_away(-5, 2).unwrap(), -3); // -2.5 -> -3, not -2
    assert_eq!(round_half_away(4, 2).unwrap(), 2);
    assert_eq!(round_half_away(1, 3).unwrap(), 0);
    assert_eq!(round_half_away(2, 3).unwrap(), 1);
    assert_eq!(round_half_away(-2, 3).unwrap(), -1);
    assert_eq!(round_half_away(0, 7).unwrap(), 0);
    // a negative denominator must not flip the halfway rule
    assert_eq!(round_half_away(5, -2).unwrap(), -3);
}

#[test]
fn interest_arithmetic_is_exact() {
    let balance: i128 = 5_000_000_000;
    let apr_bp: i128 = 2_499;
    assert_eq!(round_half_away(balance * apr_bp, 10_000 * 12).unwrap(), 104_125_000);
}

#[test]
fn rounding_survives_a_product_that_overflows_i64() {
    let amount: i128 = 10_000_000_000; // £100m in pence
    let num: i128 = 2_406_412_345; // 1 GBP = 24064.12345 IDR, as num/den
    let den: i128 = 100_000;
    assert!(
        amount * num > i64::MAX as i128,
        "the product must exceed i64 for this to prove anything"
    );
    let got = round_half_away(amount * num, den).unwrap();
    assert_eq!(got, 240_641_234_500_000);
    // and the result itself still fits, which is what makes returning i64 sound here
    assert!(got < i64::MAX);
}

#[test]
fn formats_and_round_trips() {
    assert_eq!(format_minor(1234, 2), "12.34");
    assert_eq!(format_minor(-1234, 2), "-12.34");
    assert_eq!(format_minor(5, 2), "0.05");
    assert_eq!(format_minor(-5, 2), "-0.05");
    assert_eq!(format_minor(0, 2), "0.00");
    assert_eq!(format_minor(1, 8), "0.00000001");
    assert_eq!(format_minor(100, 0), "100");
    for (v, d) in [(1234i64, 2u32), (-1i64, 2), (0, 2), (1, 8), (-999_999, 8)] {
        assert_eq!(parse_minor(&format_minor(v, d), d).unwrap(), v, "round trip {v}@{d}");
    }
}

#[test]
fn format_handles_i64_min_without_overflowing() {
    let s = format_minor(i64::MIN, 2);
    assert!(s.starts_with("-92233720368547758.0"), "got {s}");
}

#[test]
fn every_refusal_says_why() {
    let cases = [
        (parse_minor("n/a", 2), "not a number: \"n/a\""),
        (parse_minor("1.005", 2), "3 decimal places but the currency allows 2"),
        (parse_minor("99999999999999999999", 2), "amount out of range: \"99999999999999999999\""),
        (parse_minor("1", 9), "minor_digits 9 outside 0..=8"),
    ];
    for (got, want) in cases {
        assert_eq!(got.unwrap_err().to_text(), want);
    }
    assert_eq!(
        round_half_away(i128::MIN, 1),
        Err(MoneyError::Overflow("-170141183460469231731687303715884105728".to_string()))
    );
}

#[test]
fn the_ends_of_the_range_are_amounts_and_nothing_past_them_is() {
    assert_eq!(parse_minor("92233720368547758.07", 2), Ok(i64::MAX));
    assert_eq!(parse_minor("-92233720368547758.08", 2), Ok(i64::MIN));
    assert!(matches!(parse_minor("92233720368547758.08", 2), Err(MoneyError::Overflow(_))));
    assert_eq!(parse_minor("(-1.00)", 2), Ok(-100));
    assert_eq!(parse_minor(&format_minor(i64::MIN, 8), 8), Ok(i64::MIN));
}

#[test]
fn a_comma_parts_thousands_and_nothing_else() {
    for text in ["1,50", "1,5", "1,2345", ",5", "(12,34)", "-1,50", "1,50 €", "1,23a"] {
        assert_eq!(parse_minor(text, 2), Err(MoneyError::NotANumber(text.to_string())), "{text}");
    }
    assert_eq!(parse_minor("1.234,56", 2), Err(MoneyError::TooPrecise { got: 5, allowed: 2 }));
    assert!(parse_minor("1.234,56", 8).is_err());
    // What cannot be a decimal comma is read.
    for (text, minor) in [
        ("12.34,", 1_234),
        ("1,", 100),
        ("1, 234", 123_400),
        ("1,00,000.00", 10_000_000),
        ("12,34.56", 123_456),
        ("1,234,56", 12_345_600),
    ] {
        assert_eq!(parse_minor(text, 2).unwrap(), minor, "{text}");
    }
    assert_eq!(parse_minor("1,234", 2).unwrap(), 123_400);
    assert_eq!(parse_minor("£1,234,567.89", 2).unwrap(), 123_456_789);
    assert_eq!(parse_minor("(1,234.50)", 2).unwrap(), -123_450);
}

#[test]
fn a_minus_or_parentheses_give_the_opposite() {
    let v = parse_minor("1,234.5", 2).unwrap();
    for text in ["-1,234.5", "\u{2212}1,234.5", "(1,234.5)", "(-1,234.5)", "(\u{2212}1,234.5)"] {
        assert_eq!(parse_minor(text, 2).unwrap(), -v, "{text}");
    }
}

#[test]
fn separators_and_symbols_carry_no_value() {
    for (text, bare) in [
        ("£ 1,234.56", "1234.56"),
        (" -£1_234 ", "-1234"),
        ("( €1\u{202f}234 )", "(1234)"),
        ("12¥", "12"),
    ] {
        assert_eq!(parse_minor(text, 2).unwrap(), parse_minor(bare, 2).unwrap(), "{text}");
    }
}

#[test]
fn rounding_takes_every_divisor_but_zero() {
    assert_eq!(round_half_away(i128::MIN, i128::MIN).unwrap(), 1);
    assert_eq!(round_half_away(i128::MAX, i128::MIN).unwrap(), -1);
    assert_eq!(round_half_away(1, i128::MAX).unwrap(), 0);
    assert_eq!(
        round_half_away(i128::MIN, -1),
        Err(MoneyError::Overflow("170141183460469231731687303715884105728".to_string()))
    );
}
