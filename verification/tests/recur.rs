use minka_ledger::date::Date;
use minka_ledger::recur::{
    business_adjust, describe, describe_upper, keep_within, RRuleCrate, RecurError, Recurrence,
};

fn d(s: &str) -> Date {
    Date::parse(s).unwrap()
}

fn expand(rule: &str, start: &str, lo: &str, hi: &str) -> Vec<String> {
    RRuleCrate
        .expand(rule, d(start), None, d(lo), d(hi))
        .unwrap()
        .iter()
        .map(|x| x.to_text())
        .collect()
}

#[test]
fn monthly_on_a_fixed_day() {
    let got = expand("FREQ=MONTHLY;BYMONTHDAY=1", "2026-01-01", "2026-01-01", "2026-04-30");
    assert_eq!(got, ["2026-01-01", "2026-02-01", "2026-03-01", "2026-04-01"]);
}

#[test]
fn the_uk_payday_rule_last_working_day_of_the_month() {
    // The single most common UK salary rule, and the one most likely to be got wrong.
    let got = expand(
        "FREQ=MONTHLY;BYDAY=MO,TU,WE,TH,FR;BYSETPOS=-1",
        "2026-01-01",
        "2026-01-01",
        "2026-06-30",
    );
    // Jan 30 is a Friday (31st is Sat); Feb 27 Fri (28th Sat); Mar 31 Tue; Apr 30 Thu;
    // May 29 Fri (30/31 weekend); Jun 30 Tue.
    assert_eq!(
        got,
        ["2026-01-30", "2026-02-27", "2026-03-31", "2026-04-30", "2026-05-29", "2026-06-30"]
    );
}

#[test]
fn bymonthday_31_skips_short_months_rather_than_clamping() {
    // RFC 5545 says an invalid date is OMITTED, not clamped to the 30th. A ledger that clamps
    // would invent a payment in February that never happens.
    let got = expand("FREQ=MONTHLY;BYMONTHDAY=31", "2026-01-31", "2026-01-01", "2026-08-31");
    assert_eq!(got, ["2026-01-31", "2026-03-31", "2026-05-31", "2026-07-31", "2026-08-31"]);
}

#[test]
fn dst_transitions_do_not_move_the_date() {
    // Europe/London springs forward 2026-03-29 and falls back 2026-10-25. Noon-UTC anchoring
    // is what keeps a "29th of the month" rule landing on the 29th through both.
    let spring = expand("FREQ=MONTHLY;BYMONTHDAY=29", "2026-01-29", "2026-03-01", "2026-03-31");
    assert_eq!(spring, ["2026-03-29"]);
    let autumn = expand("FREQ=MONTHLY;BYMONTHDAY=25", "2026-01-25", "2026-10-01", "2026-10-31");
    assert_eq!(autumn, ["2026-10-25"]);
    // and daily across the spring-forward weekend loses no day and repeats none
    let daily = expand("FREQ=DAILY", "2026-03-27", "2026-03-27", "2026-03-31");
    assert_eq!(daily, ["2026-03-27", "2026-03-28", "2026-03-29", "2026-03-30", "2026-03-31"]);
}

#[test]
fn horizon_bounds_are_inclusive_at_both_ends() {
    // Pinned deliberately: the crate's before()/after() inclusivity is undocumented, so we
    // filter ourselves. If that ever changes, this fails rather than silently dropping a
    // payment on the horizon edge.
    let got = expand("FREQ=MONTHLY;BYMONTHDAY=15", "2026-01-15", "2026-01-15", "2026-03-15");
    assert_eq!(got, ["2026-01-15", "2026-02-15", "2026-03-15"]);
}

#[test]
fn until_bounds_the_series_inclusively() {
    let got = RRuleCrate
        .expand(
            "FREQ=MONTHLY;BYMONTHDAY=1",
            d("2026-01-01"),
            Some(d("2026-03-01")),
            d("2026-01-01"),
            d("2026-12-31"),
        )
        .unwrap();
    assert_eq!(got.len(), 3, "until_on is inclusive (RFC 5545 3.3.10): {got:?}");
    assert_eq!(got.last().unwrap().to_text(), "2026-03-01");
}

#[test]
fn weekly_and_fortnightly() {
    let weekly = expand("FREQ=WEEKLY;BYDAY=FR", "2026-08-07", "2026-08-01", "2026-08-31");
    assert_eq!(weekly, ["2026-08-07", "2026-08-14", "2026-08-21", "2026-08-28"]);
    let fortnightly = expand("FREQ=WEEKLY;INTERVAL=2;BYDAY=FR", "2026-08-07", "2026-08-01", "2026-09-30");
    assert_eq!(fortnightly, ["2026-08-07", "2026-08-21", "2026-09-04", "2026-09-18"]);
}

#[test]
fn an_empty_or_reversed_window_yields_nothing() {
    assert!(expand("FREQ=DAILY", "2026-01-01", "2026-03-02", "2026-03-01").is_empty());
    // window entirely before the series starts
    assert!(expand("FREQ=DAILY", "2026-06-01", "2026-01-01", "2026-02-01").is_empty());
}

#[test]
fn a_long_horizon_on_a_daily_rule_stays_quick() {
    // The case that motivated bounding the expansion: without before(), this generates the
    // full 65535-occurrence limit regardless of the window asked for.
    let t = std::time::Instant::now();
    let got = expand("FREQ=DAILY", "2000-01-01", "2026-08-01", "2026-08-31");
    assert_eq!(got.len(), 31);
    assert!(t.elapsed().as_millis() < 500, "took {:?}", t.elapsed());
}

#[test]
fn a_malformed_rule_is_an_error_not_a_panic() {
    assert!(RRuleCrate
        .expand("FREQ=NONSENSE", d("2026-01-01"), None, d("2026-01-01"), d("2026-12-31"))
        .is_err());
}

#[test]
fn weekend_adjustment_moves_the_value_date_only() {
    let sat = d("2026-08-01"); // Saturday
    assert_eq!(business_adjust(sat, "none", &vec![]).to_text(), "2026-08-01");
    assert_eq!(business_adjust(sat, "before", &vec![]).to_text(), "2026-07-31"); // Fri
    assert_eq!(business_adjust(sat, "after", &vec![]).to_text(), "2026-08-03"); // Mon
    // a weekday is untouched by every rule
    let wed = d("2026-08-05");
    for r in ["none", "before", "after", "modified_after"] {
        assert_eq!(business_adjust(wed, r, &vec![]), wed);
    }
}

#[test]
fn modified_following_stays_inside_the_month() {
    // 2026-08-30 is a Sunday; forward would be Mon 31 Aug -- same month, so forward.
    assert_eq!(business_adjust(d("2026-08-30"), "modified_after", &vec![]).to_text(), "2026-08-31");
    // 2026-05-31 is a Sunday; forward is 1 Jun, a new month, so it must go backward instead.
    assert_eq!(business_adjust(d("2026-05-31"), "modified_after", &vec![]).to_text(), "2026-05-29");
}

#[test]
fn bank_holidays_are_skipped_like_weekends() {
    // Mon 2026-08-31 is the UK summer bank holiday.
    let hols = vec![d("2026-08-31")];
    assert_eq!(business_adjust(d("2026-08-30"), "after", &hols).to_text(), "2026-09-01");
    assert_eq!(business_adjust(d("2026-08-31"), "before", &hols).to_text(), "2026-08-28");
}

#[test]
fn describe_says_what_the_rule_does() {
    let fri = d("2026-08-07"); // a Friday
    let say = |rule: &str, start: Date| describe(rule, start);
    assert_eq!(say("FREQ=DAILY", fri), "daily");
    assert_eq!(say("FREQ=DAILY;INTERVAL=3", fri), "every 3 days");
    assert_eq!(say("FREQ=WEEKLY;BYDAY=FR", fri), "weekly on Friday");
    assert_eq!(say("FREQ=WEEKLY", fri), "weekly on Friday", "the start date's weekday");
    assert_eq!(say("FREQ=WEEKLY;INTERVAL=2;BYDAY=FR", fri), "fortnightly on Friday");
    assert_eq!(say("FREQ=WEEKLY;INTERVAL=4;BYDAY=MO", fri), "every 4 weeks on Monday");
    assert_eq!(say("FREQ=WEEKLY;BYDAY=MO,FR", fri), "weekly on Monday, Friday");
    assert_eq!(say("FREQ=MONTHLY;BYMONTHDAY=1", fri), "monthly on the 1st");
    for (n, word) in [(2, "2nd"), (3, "3rd"), (4, "4th"), (11, "11th"), (12, "12th"), (13, "13th"),
                      (21, "21st"), (22, "22nd"), (23, "23rd")] {
        assert_eq!(say(&format!("FREQ=MONTHLY;BYMONTHDAY={n}"), fri), format!("monthly on the {word}"));
    }
    assert_eq!(say("FREQ=MONTHLY;BYMONTHDAY=31", fri), "monthly on the 31st (skips months without one)");
    assert_eq!(say("FREQ=MONTHLY", d("2026-01-30")), "monthly on the 30th (skips months without one)");
    assert_eq!(say("FREQ=MONTHLY;BYMONTHDAY=15,31", fri), "monthly on the 15th and 31st",
               "the 15th is paid every month, so the rule as a whole does not skip one");
    assert_eq!(say("FREQ=MONTHLY;BYMONTHDAY=1,15", fri), "monthly on the 1st and 15th");
    assert_eq!(say("FREQ=MONTHLY;INTERVAL=3;BYMONTHDAY=1", fri), "every 3 months on the 1st",
               "a quarterly rule must never read monthly");
    assert_eq!(say("FREQ=MONTHLY", fri), "monthly on the 7th");
    assert_eq!(say("FREQ=MONTHLY;BYMONTHDAY=-1", fri), "monthly on the last day");
    assert_eq!(say("FREQ=MONTHLY;BYDAY=MO,TU,WE,TH,FR;BYSETPOS=-1", fri), "monthly on the last working day");
    assert_eq!(say("FREQ=MONTHLY;BYDAY=FR;BYSETPOS=-1", fri), "monthly on the last Friday");
    assert_eq!(say("FREQ=MONTHLY;BYDAY=-1FR", fri), "monthly on the last Friday");
    assert_eq!(say("FREQ=MONTHLY;BYDAY=2MO", fri), "monthly on the second Monday");
    assert_eq!(say("FREQ=MONTHLY;BYDAY=MO;BYSETPOS=1", fri), "monthly on the first Monday");
    assert_eq!(say("FREQ=YEARLY", d("2026-03-05")), "yearly on 5 March");
    assert_eq!(say("FREQ=YEARLY;BYMONTH=12;BYMONTHDAY=25", fri), "yearly on 25 December");
    // Anything it cannot fully read comes back as itself.
    assert_eq!(say("FREQ=MONTHLY;BYWEEKNO=3", fri), "FREQ=MONTHLY;BYWEEKNO=3");
    assert_eq!(say("FREQ=NOPE", fri), "FREQ=NOPE");
    assert_eq!(say("FREQ=YEARLY;BYDAY=MO", fri), "FREQ=YEARLY;BYDAY=MO");
}

#[test]
fn a_rule_over_two_lines_stays_in_its_window() {
    let got = RRuleCrate.expand(
        "FREQ=DAILY\nEXDATE:20260102T120000Z",
        d("2026-01-01"),
        None,
        d("2026-01-01"),
        d("2026-01-04"),
    );
    if let Ok(days) = got {
        assert!(days.iter().all(|x| *x >= d("2026-01-01") && *x <= d("2026-01-04")));
    }
}

#[test]
fn a_refused_rule_says_why() {
    let e = RRuleCrate
        .expand("FREQ=NONSENSE", d("2026-01-01"), None, d("2026-01-01"), d("2026-12-31"))
        .unwrap_err();
    assert!(matches!(e, RecurError::BadRule(_)));
    assert!(e.to_text().starts_with("bad recurrence rule: "));
}

#[test]
fn both_ends_of_a_window_are_kept() {
    let days = vec![d("2026-01-01"), d("2026-01-02"), d("2026-01-03"), d("2026-01-04")];
    assert_eq!(
        keep_within(&days, d("2026-01-02"), d("2026-01-03")),
        vec![d("2026-01-02"), d("2026-01-03")]
    );
    assert!(keep_within(&days, d("2026-01-03"), d("2026-01-02")).is_empty());
}

#[test]
fn a_weekday_that_cannot_be_read_is_refused() {
    let on = d("2026-01-05");
    for rule in [
        "FREQ=WEEKLY;BYDAY=éx",
        "FREQ=WEEKLY;BYDAY=€",
        "FREQ=WEEKLY;byday=MO,aé€",
        "FREQ=WEEKLY;BYWEEKDAY=MO,éx",
        "FREQ=DAILY\nRRULE:FREQ=WEEKLY;BYDAY=éx",
        "FREQ=WEEKLY;BYDAY=éx\r\nEXDATE:20260105T120000Z",
    ] {
        let e = RRuleCrate.expand(rule, on, None, on, on).unwrap_err();
        assert!(matches!(e, RecurError::BadRule(_)), "{rule}");
        assert_eq!(describe(rule, on), rule);
    }
    // A character of two bytes can be cut, and is then no weekday.
    assert!(RRuleCrate.expand("FREQ=WEEKLY;BYDAY=é", on, None, on, on).is_err());
    // Only what lists weekdays is cut so.
    let got = expand("FREQ=WEEKLY;WKST=\u{17f}A", "2026-01-05", "2026-01-05", "2026-01-12");
    assert_eq!(got, ["2026-01-05", "2026-01-12"]);
}

#[test]
fn a_rule_in_capitals_is_put_into_words() {
    let on = d("2026-01-01");
    let raw = "freq=monthly;bymonthday=1";
    assert_eq!(describe_upper(raw, "FREQ=MONTHLY;BYMONTHDAY=1", on, true), "monthly on the 1st");
    assert_eq!(describe_upper(raw, "FREQ=MONTHLY;BYMONTHDAY=1", on, false), raw);
    assert_eq!(describe_upper(raw, "FREQ=MONTHLY;BYEASTER=1", on, true), raw);
}

#[test]
fn every_second_time_is_said_for_every_frequency() {
    let fri = d("2026-08-07");
    assert_eq!(describe("FREQ=DAILY;INTERVAL=2", fri), "every 2 days");
    assert_eq!(describe("FREQ=WEEKLY;INTERVAL=2", fri), "fortnightly on Friday");
    assert_eq!(describe("FREQ=MONTHLY;INTERVAL=2;BYMONTHDAY=1", fri), "every 2 months on the 1st");
    assert!(describe("FREQ=YEARLY;INTERVAL=2", fri).starts_with("every 2 years"));
}

#[test]
fn what_cannot_be_handed_over_is_refused_in_words() {
    let on = d("2026-01-05");
    let e = RRuleCrate.expand("FREQ=WEEKLY;BYDAY=x\u{20ac}", on, None, on, on).unwrap_err();
    assert_eq!(e.to_text(), "bad recurrence rule: it lists a weekday that cannot be read");
    let far = Date { days: i32::MAX };
    let e = RRuleCrate.expand("FREQ=DAILY", on, None, on, far).unwrap_err();
    assert_eq!(e.to_text(), "bad recurrence rule: the window leaves the calendar");
}

#[test]
fn windows_that_meet_add_up_and_days_are_in_order() {
    for (rule, until) in [
        ("FREQ=MONTHLY;BYMONTHDAY=1,15,31", None),
        ("FREQ=WEEKLY;INTERVAL=2;BYDAY=MO,FR;WKST=SU", None),
        ("FREQ=MONTHLY;BYDAY=MO,TU,WE,TH,FR;BYSETPOS=-1,1", Some("2026-05-20")),
        ("FREQ=YEARLY;BYWEEKNO=1,53;BYDAY=MO", None),
        ("FREQ=HOURLY;INTERVAL=7;BYHOUR=3,12,21", None),
        ("FREQ=DAILY;COUNT=9", Some("2027-01-01")),
    ] {
        let (start, lo, hi) = (d("2026-02-03"), d("2026-01-01"), d("2027-01-31"));
        let until = until.map(d);
        let all = RRuleCrate.expand(rule, start, until, lo, hi).unwrap();
        for mid in ["2026-01-01", "2026-02-02", "2026-02-03", "2026-05-20", "2026-12-31"] {
            let one = RRuleCrate.expand(rule, start, until, lo, d(mid)).unwrap();
            let two = RRuleCrate.expand(rule, start, until, Date { days: d(mid).days + 1 }, hi).unwrap();
            let both: Vec<i32> = one.iter().chain(two.iter()).map(|x| x.days).collect();
            assert_eq!(both, all.iter().map(|x| x.days).collect::<Vec<i32>>(), "{rule} {mid}");
        }
        assert!(all.iter().all(|x| start.days <= x.days && x.days <= hi.days), "{rule}");
        assert!(all.windows(2).all(|w| w[0].days < w[1].days), "{rule}");
    }
}
