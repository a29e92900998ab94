use minka_ledger::book::{Account, Leg};
use minka_ledger::date::Date;
use minka_ledger::db::integrity;
use minka_ledger::fx::{
    build_conversion, convert, convert_minor, decimal_to_rate, entered_rate, fx_position,
    minor_digits, put_rate, rates_from, rates_url, read_rates, resolve_rate, Currency, FxError, Holding, Rate, RateRow,
};
use minka_ledger::roles::{conversion, Role};

fn d(s: &str) -> Date {
    Date::parse(s).unwrap()
}

/// A book in memory: what a store would hold.
struct Book {
    rates: Vec<RateRow>,
    currencies: Vec<Currency>,
    accounts: Vec<Account>,
    txns: Vec<Vec<Leg>>,
}

fn account(id: i64, name: &str, currency: &str) -> Account {
    Account {
        id,
        name: name.to_string(),
        kind: "asset".to_string(),
        currency: currency.to_string(),
        system: false,
        closed: false,
    }
}

fn book() -> Book {
    Book {
        rates: vec![],
        currencies: vec![
            Currency { code: "EUR".into(), minor_digits: 2 },
            Currency { code: "GBP".into(), minor_digits: 2 },
            Currency { code: "JPY".into(), minor_digits: 0 },
        ],
        accounts: vec![
            account(1, "Current", "GBP"),
            account(2, "Euro pot", "EUR"),
            account(3, "Yen pot", "JPY"),
        ],
        txns: vec![],
    }
}

impl Book {
    fn put(&mut self, base: &str, quote: &str, on: &str, source: &str, rate: Rate) {
        self.rates.push(put_rate(base, quote, on, source, rate).unwrap());
    }

    fn resolve(&self, base: &str, quote: &str, on: &str) -> Result<(Rate, String), FxError> {
        resolve_rate(&self.rates, "GBP", base, quote, d(on))
    }

    fn trading(&mut self, code: &str) -> i64 {
        match conversion(&self.accounts, code) {
            Role::Existing(id) => id,
            Role::Create { name, kind, currency, system } => {
                let id = self.accounts.len() as i64 + 1;
                self.accounts.push(Account { id, name, kind, currency, system, closed: false });
                id
            }
        }
    }

    fn convert_money(&mut self, from: i64, fm: i64, to: i64, tm: i64) -> Result<usize, FxError> {
        let fc = self.accounts.iter().find(|a| a.id == from).unwrap().currency.clone();
        let tc = self.accounts.iter().find(|a| a.id == to).unwrap().currency.clone();
        let ft = self.trading(&fc);
        let tt = self.trading(&tc);
        let legs = build_conversion(from, &fc, fm, ft, to, &tc, tm, tt)?;
        self.txns.push(legs);
        Ok(self.txns.len() - 1)
    }

    fn held(&self) -> Vec<Holding> {
        let mut out: Vec<Holding> = vec![];
        for a in self.accounts.iter().filter(|a| a.kind == "conversion") {
            let sum: i64 = self
                .txns
                .iter()
                .flatten()
                .filter(|l| l.account_id == a.id)
                .map(|l| l.amount_minor)
                .sum();
            out.push(Holding { currency: a.currency.clone(), amount_minor: sum, valued_minor: 0 });
        }
        out
    }
}

#[test]
fn rates_are_exact_rationals_and_invert_losslessly() {
    let mut c = book();
    // 1 GBP = 1.1666 EUR
    c.put("GBP", "EUR", "2026-08-01", "manual", Rate { num: 11_666, den: 10_000 });
    let (fwd, _) = c.resolve("GBP", "EUR", "2026-08-01").unwrap();
    assert_eq!(fwd, Rate { num: 11_666, den: 10_000 });
    // the reverse direction is the same rational upside down -- no precision lost
    let (rev, _) = c.resolve("EUR", "GBP", "2026-08-01").unwrap();
    assert_eq!(rev, Rate { num: 10_000, den: 11_666 });
}

#[test]
fn resolution_takes_the_latest_rate_on_or_before_the_date() {
    let mut c = book();
    c.put("GBP", "EUR", "2026-08-01", "boe", Rate { num: 11_600, den: 10_000 });
    c.put("GBP", "EUR", "2026-08-15", "boe", Rate { num: 11_800, den: 10_000 });
    let (r, as_of) = c.resolve("GBP", "EUR", "2026-08-10").unwrap();
    assert_eq!(r.num, 11_600);
    assert_eq!(as_of, "2026-08-01", "the rate that was in force, not the one asked for");
    // and a FUTURE date holds the last known rate flat, from the same code path
    let (r, as_of) = c.resolve("GBP", "EUR", "2027-06-01").unwrap();
    assert_eq!(r.num, 11_800);
    assert_eq!(as_of, "2026-08-15", "flat carry, and it says which date it came from");
}

#[test]
fn a_manual_rate_beats_a_fetched_one_on_the_same_day() {
    let mut c = book();
    c.put("GBP", "EUR", "2026-08-01", "ecb", Rate { num: 11_600, den: 10_000 });
    c.put("GBP", "EUR", "2026-08-01", "manual", Rate { num: 11_900, den: 10_000 });
    assert_eq!(c.resolve("GBP", "EUR", "2026-08-01").unwrap().0.num, 11_900);
}

#[test]
fn a_missing_rate_is_an_error_not_a_guess() {
    let mut c = book();
    c.put("GBP", "EUR", "2026-08-01", "boe", Rate { num: 11_666, den: 10_000 });
    // asking before any rate exists must fail rather than extrapolate backwards
    assert!(matches!(c.resolve("GBP", "EUR", "2026-07-01"), Err(FxError::NoRate { .. })));
}

#[test]
fn converts_across_different_minor_scales() {
    let mut c = book();
    // JPY has 0 decimal places; GBP has 2. 1 GBP = 190 JPY.
    c.put("GBP", "JPY", "2026-08-01", "manual", Rate { num: 190, den: 1 });
    // £10.00 -> 1900 yen (as 1900 minor units, since JPY minor_digits = 0)
    let on = d("2026-08-01");
    let (out, _, _) = convert(&c.rates, &c.currencies, "GBP", 1_000, "GBP", "JPY", on).unwrap();
    assert_eq!(out, 1_900);
    // and back
    let (back, _, _) = convert(&c.rates, &c.currencies, "GBP", 1_900, "JPY", "GBP", on).unwrap();
    assert_eq!(back, 1_000);
}

#[test]
fn a_cross_rate_goes_through_the_display_currency() {
    let mut c = book();
    c.put("GBP", "EUR", "2026-08-01", "boe", Rate { num: 12_000, den: 10_000 });
    c.put("GBP", "JPY", "2026-08-01", "boe", Rate { num: 190, den: 1 });
    // EUR->JPY = (GBP->JPY) / (GBP->EUR) = 190 / 1.2 = 158.33...
    let (r, _) = c.resolve("EUR", "JPY", "2026-08-01").unwrap();
    let approx = r.num as f64 / r.den as f64;
    assert!((approx - 158.3333).abs() < 0.001, "got {r:?}");
}

#[test]
fn a_conversion_balances_per_currency_with_no_residual() {
    let mut c = book();
    // £400.00 out, €466.64 in -- both exact, so no sub-penny anywhere.
    let id = c.convert_money(1, 40_000, 2, 46_664).unwrap();
    let mut unbalanced: i64 = 0;
    for cur in ["GBP", "EUR"] {
        let sum: i64 =
            c.txns[id].iter().filter(|l| l.currency == cur).map(|l| l.amount_minor).sum();
        assert_eq!(sum, 0, "{cur} must balance");
        if sum != 0 {
            unbalanced += 1;
        }
    }
    // and the book-wide checks agree
    assert!(integrity(&vec![unbalanced, 0, 0]));
}

#[test]
fn conversion_accounts_are_created_once_and_are_system_owned() {
    let mut c = book();
    c.convert_money(1, 10_000, 2, 11_666).unwrap();
    c.convert_money(1, 10_000, 2, 11_700).unwrap();
    let own: Vec<&Account> = c.accounts.iter().filter(|a| a.kind == "conversion").collect();
    assert_eq!(own.len(), 2, "one per currency, reused");
    assert!(own.iter().all(|a| a.system), "and locked against hand posting");
}

#[test]
fn a_same_currency_conversion_is_refused() {
    let mut c = book();
    assert!(matches!(c.convert_money(1, 100, 1, 100), Err(FxError::SameCurrency(_))));
}

#[test]
fn fx_gain_falls_out_of_the_conversion_accounts() {
    let mut c = book();
    // Convert £400 into €466.64 at 1.1666.
    c.put("GBP", "EUR", "2026-08-01", "boe", Rate { num: 11_666, den: 10_000 });
    c.convert_money(1, 40_000, 2, 46_664).unwrap();

    // Valued at the SAME rate, the position is flat: nothing has happened yet.
    let flat = fx_position(&c.rates, &c.currencies, "GBP", &c.held(), d("2026-08-01")).unwrap();
    assert_eq!(flat.gain_minor, 0, "no movement, no gain: {flat:?}");

    // The euro strengthens: 1 GBP now buys only 1.10 EUR, so the euros are worth more.
    c.put("GBP", "EUR", "2026-09-01", "boe", Rate { num: 11_000, den: 10_000 });
    let later = fx_position(&c.rates, &c.currencies, "GBP", &c.held(), d("2026-09-01")).unwrap();
    assert!(later.gain_minor > 0, "a stronger euro is a gain on a euro holding: {later:?}");
}

#[test]
fn rounding_of_a_conversion_is_half_away_from_zero() {
    // 1 GBP = 1.005 EUR, converting £1.00 -> €1.005 -> rounds to €1.01, not €1.00.
    let r = Rate { num: 1_005, den: 1_000 };
    assert_eq!(convert_minor(100, r, 2, 2).unwrap(), 101);
    // and symmetrically for a negative amount
    assert_eq!(convert_minor(-100, r, 2, 2).unwrap(), -101);
}

#[test]
fn decimals_become_exact_rationals() {
    assert_eq!(decimal_to_rate("1.1666").unwrap(), Rate { num: 11_666, den: 10_000 });
    assert_eq!(decimal_to_rate("216.89").unwrap(), Rate { num: 21_689, den: 100 });
    assert_eq!(decimal_to_rate("190").unwrap(), Rate { num: 190, den: 1 });
    // and the value that a float would mangle round-trips exactly
    let r = decimal_to_rate("1.005").unwrap();
    assert_eq!(r, Rate { num: 1_005, den: 1_000 });
}

#[test]
fn junk_is_refused() {
    assert!(decimal_to_rate("not a rate").is_err());
    assert!(decimal_to_rate("").is_err());
}

#[test]
fn each_refused_rate_says_why() {
    let one = Rate { num: 1, den: 1 };
    let e = put_rate("GBP", "GBP", "2026-08-01", "manual", one).unwrap_err();
    assert_eq!(e.to_text(), "GBP to itself is not a conversion");
    let e = put_rate("GBP", "EUR", "2026-08-01", "manual", Rate { num: 0, den: 5 }).unwrap_err();
    assert_eq!(e.to_text(), "bad rate: 0/5");
    let e = book().resolve("GBP", "EUR", "2026-08-01").unwrap_err();
    assert_eq!(e.to_text(), "no GBP/EUR rate on or before 2026-08-01");
    let e = minor_digits(&book().currencies, "CHF").unwrap_err();
    assert_eq!(e.to_text(), "unknown currency: CHF");
    assert_eq!(minor_digits(&book().currencies, "JPY").unwrap(), 0);
    assert!(decimal_to_rate("1.1234567890123456789").unwrap_err().to_text().ends_with(
        "too many decimal places"
    ));
}

#[test]
fn a_rate_to_itself_is_one() {
    assert_eq!(book().resolve("EUR", "EUR", "2026-08-01").unwrap().0, Rate { num: 1, den: 1 });
}

#[test]
fn fetched_rates_keep_the_date_the_source_reports() {
    let body = "{\"date\":\"2026-08-28\",\"rates\":{\"EUR\":1.1666,\"JPY\":190}}";
    let (reported, read) = read_rates("GBP", body).unwrap();
    let rows = read.rows;
    assert!(read.refused.is_none());
    assert_eq!(reported, "2026-08-28");
    assert_eq!(rows.len(), 2);
    let eur = rows.iter().find(|r| r.quote == "EUR").unwrap();
    assert_eq!(eur.rate, Rate { num: 11_666, den: 10_000 });
    assert_eq!(eur.as_of, "2026-08-28");
    assert_eq!(eur.source, "ecb");
    let why = |body| read_rates("GBP", body).unwrap_err().to_text();
    assert!(why("not json").contains("not JSON: "));
    assert!(why("{\"rates\":{}}").contains("response has no date"));
    assert!(why("{\"date\":\"2026-08-28\"}").contains("response has no rates"));
}

#[test]
fn rates_are_made_from_texts_exactly() {
    let read = |entries: &[(&str, &str)]| {
        let all = entries.iter().map(|(c, v)| (c.to_string(), v.to_string())).collect();
        rates_from("GBP", "2026-08-28", &all)
    };
    let r = read(&[("EUR", "1.005")]);
    assert!(r.refused.is_none());
    assert_eq!(r.rows[0].rate, Rate { num: 1_005, den: 1_000 });
    let r = read(&[("EUR", "1.005"), ("JPY", "x"), ("USD", "1.3")]);
    assert_eq!(r.rows.len(), 1, "what came before is kept");
    assert!(matches!(r.refused, Some(FxError::BadRate(m)) if m == "x"));
    assert!(matches!(read(&[("JPY", "-0.5")]).refused, Some(FxError::BadRate(m)) if m == "-5/10"));
    assert!(matches!(read(&[("GBP", "1")]).refused, Some(FxError::SameCurrency(c)) if c == "GBP"));
}

#[test]
fn rates_are_asked_for_every_other_currency_of_the_book() {
    let codes = vec!["EUR".to_string(), "GBP".to_string(), "JPY".to_string()];
    let url = rates_url(d("2026-08-28"), "GBP", &codes).unwrap();
    assert_eq!(url, "https://api.frankfurter.dev/v1/2026-08-28?base=GBP&symbols=EUR,JPY");
    assert!(rates_url(d("2026-08-28"), "GBP", &vec!["GBP".to_string()]).is_none());
}

#[test]
fn a_rate_is_entered_as_a_ratio_or_as_a_decimal() {
    let r = entered_rate(Some(7), Some(6), Some("9")).unwrap();
    assert_eq!((r.num, r.den), (7, 6));
    let r = entered_rate(None, Some(6), Some("1.1666")).unwrap();
    assert_eq!((r.num, r.den), (11_666, 10_000));
    let r = entered_rate(None, None, Some("2")).unwrap();
    assert_eq!((r.num, r.den), (2, 1));
    assert_eq!(entered_rate(None, None, Some("1,5")).unwrap_err().message, "rate must be a decimal");
    assert_eq!(entered_rate(Some(1), None, None).unwrap_err().message, "rate or num/den");
}
