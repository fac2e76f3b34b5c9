use tax_lots::model::sell_trade::SellTrade;
use tax_lots::model::trade::Trade;
use tax_lots::utils::time_utils::{
    datetime_from_str, datetime_to_str, datetime_to_tax_str, end_of_the_day,
    generate_random_datetime, indices_within, is_datetime_within_limits, long_term_threshold,
    start_of_the_day, CivilDate, Timestamp, APP_TIME_FORMAT,
};

const UNIT: u64 = 1_000_000_000;
const Y2020: i64 = 1_577_836_800;
const DAY: i64 = 86_400;

fn at(secs: i64) -> Timestamp {
    Timestamp { millis: secs * 1000 }
}

fn trade(when: Timestamp, vf: u64, cf: &str, pf: u64, vt: u64, ct: &str, pt: u64) -> Trade {
    Trade {
        datetime: when,
        exchange_name: "Exchange_3".to_string(),
        volume_from: vf,
        currency_from: cf.to_string(),
        currency_from_price_usd: pf,
        volume_to: vt,
        currency_to: ct.to_string(),
        currency_to_price_usd: pt,
        notes: Vec::new(),
    }
}

fn sale(bought: Timestamp, sold: Timestamp) -> SellTrade {
    let buy = trade(bought, 100 * UNIT, "USD", UNIT, UNIT, "BTC", 100 * UNIT);
    let sell = trade(sold, UNIT, "BTC", 100 * UNIT, 100 * UNIT, "USD", UNIT);
    SellTrade::new(UNIT, 100 * UNIT, &buy, &sell, 0, 1)
}

#[test]
fn long_term_boundary() {
    let bought = at(Y2020);
    assert_eq!(sale(bought, at(Y2020 + 367 * DAY)).is_long_term(), Some(true));
    assert_eq!(sale(bought, at(Y2020 + 366 * DAY)).is_long_term(), Some(false));
    assert_eq!(sale(bought, at(Y2020 + 367 * DAY - 1)).is_long_term(), Some(false));
    assert_eq!(long_term_threshold(&bought), Some(at(Y2020 + 367 * DAY)));
}

#[test]
fn long_term_counts_from_the_day_not_the_hour() {
    let bought = Timestamp { millis: (Y2020 + 17 * 3600) * 1000 + 123 };
    assert_eq!(long_term_threshold(&bought), Some(at(Y2020 + 367 * DAY)));
}

#[test]
fn leap_year_adjustment() {
    // Bought on 2020-02-28: the day after is a February 29, so the holding
    // period counts from 2020-03-01 and the sale is long term from 2021-03-01.
    let bought = at(Y2020 + 58 * DAY + 12 * 3600);
    let march_first_2021 = at(Y2020 + 366 * DAY + 59 * DAY);
    assert_eq!(long_term_threshold(&bought), Some(march_first_2021));
    assert_eq!(sale(bought, march_first_2021).is_long_term(), Some(true));
    assert_eq!(
        sale(bought, Timestamp { millis: march_first_2021.millis - 1 }).is_long_term(),
        Some(false)
    );
    // Bought a day earlier, the day after is no February 29.
    let bought = at(Y2020 + 57 * DAY);
    assert_eq!(long_term_threshold(&bought), Some(at(Y2020 + 366 * DAY + 58 * DAY)));
    // Bought on the February 29 itself: counts from March 1 too.
    let bought = at(Y2020 + 59 * DAY);
    assert_eq!(long_term_threshold(&bought), Some(march_first_2021));
}

#[test]
fn a_year_before_a_leap_day_ends_on_it() {
    // Bought on 2019-02-28: counts from 2019-03-01, long term from 2020-03-01.
    let bought = at(Y2020 - 365 * DAY + 58 * DAY);
    assert_eq!(long_term_threshold(&bought), Some(at(Y2020 + 60 * DAY)));
}

#[test]
fn dates_beyond_the_calendar_have_no_threshold() {
    assert_eq!(long_term_threshold(&Timestamp { millis: i64::MAX }), None);
    assert_eq!(long_term_threshold(&Timestamp { millis: i64::MIN }), None);
    assert_eq!(sale(Timestamp { millis: i64::MAX }, at(0)).is_long_term(), None);
}

#[test]
fn civil_dates() {
    assert!(CivilDate { year: 2020, month: 2, day: 29 }.is_leap_day());
    assert!(!CivilDate { year: 2020, month: 2, day: 28 }.is_leap_day());
    assert!(!CivilDate { year: 2020, month: 3, day: 29 }.is_leap_day());
    assert_eq!(
        CivilDate { year: 2020, month: 3, day: 1 }.a_year_later(),
        Some(CivilDate { year: 2021, month: 3, day: 1 })
    );
    assert_eq!(CivilDate { year: i32::MAX, month: 3, day: 1 }.a_year_later(), None);
}

#[test]
fn instants_read_from_text() {
    assert_eq!(APP_TIME_FORMAT, "%Y-%m-%d %H:%M:%S%:z");
    assert_eq!(datetime_from_str("2020-01-01 00:00:00+00:00").ok(), Some(at(Y2020)));
    assert_eq!(datetime_from_str("2019-12-31 16:30:00-07:30").ok(), Some(at(Y2020)));
    assert_eq!(datetime_from_str("2020-01-01 01:00:01+01:00").ok(), Some(at(Y2020 + 1)));
    assert!(datetime_from_str("2020-01-01 00:00:00").is_err());
    assert!(datetime_from_str("2020-13-01 00:00:00+00:00").is_err());
    assert!(datetime_from_str("yesterday").is_err());
}

#[test]
fn instants_written_as_text() {
    assert_eq!(datetime_to_str(&at(Y2020)), Some("2020-01-01 00:00:00+00:00".to_string()));
    assert_eq!(
        datetime_to_str(&Timestamp { millis: (Y2020 + 3661) * 1000 + 999 }),
        Some("2020-01-01 01:01:01+00:00".to_string())
    );
    assert_eq!(datetime_to_str(&Timestamp { millis: i64::MAX }), None);
    assert_eq!(datetime_to_tax_str(&at(Y2020)), Some("2020-01-01 00:00:00 +0000".to_string()));
    assert_eq!(datetime_to_tax_str(&Timestamp { millis: i64::MIN }), None);
}

#[test]
fn windows_are_half_open() {
    let from = at(100);
    let to = at(200);
    assert!(is_datetime_within_limits(&at(100), &from, &to));
    assert!(is_datetime_within_limits(&at(199), &from, &to));
    assert!(!is_datetime_within_limits(&at(200), &from, &to));
    assert!(!is_datetime_within_limits(&at(99), &from, &to));
    let times = vec![at(99), at(100), at(150), at(200), at(120)];
    assert_eq!(indices_within(&times, &from, &to), vec![1, 2, 4]);
}

#[test]
fn days_start_at_midnight_and_end_before_the_next() {
    let noon = Timestamp { millis: (Y2020 + 12 * 3600) * 1000 + 5 };
    assert_eq!(start_of_the_day(&noon), Some(at(Y2020)));
    assert_eq!(end_of_the_day(&noon), Some(Timestamp { millis: (Y2020 + DAY) * 1000 - 1 }));
    assert_eq!(start_of_the_day(&at(Y2020)), Some(at(Y2020)));
    assert_eq!(start_of_the_day(&Timestamp { millis: -1 }), Some(at(-DAY)));
    assert_eq!(start_of_the_day(&Timestamp { millis: i64::MAX }), None);
    assert_eq!(end_of_the_day(&Timestamp { millis: i64::MIN }), None);
}

#[test]
fn random_instants_lie_in_the_window() {
    let from = at(Y2020);
    let to = Timestamp { millis: from.millis + 3 };
    let mut seen = [false; 3];
    for _ in 0..200 {
        let drawn = generate_random_datetime(&from, &to);
        assert!(from.millis <= drawn.millis && drawn.millis < to.millis);
        seen[(drawn.millis - from.millis) as usize] = true;
    }
    assert!(seen.iter().all(|hit| *hit));
    let wide = generate_random_datetime(&Timestamp { millis: i64::MIN }, &Timestamp { millis: i64::MAX });
    assert!(wide.millis < i64::MAX);
}
