use tax_lots::amount::{usd_value_of, EPS, MAX_USD_VALUE, SCALE};
use tax_lots::model::currency_is_usd;
use tax_lots::model::sell_trade::SellTrade;
use tax_lots::model::trade::Trade;
use tax_lots::model::usd_trade::UsdTrade;
use tax_lots::utils::time_utils::Timestamp;

const UNIT: u64 = 1_000_000_000;

fn trade(vf: u64, cf: &str, pf: u64, vt: u64, ct: &str, pt: u64) -> Trade {
    Trade {
        datetime: Timestamp { millis: 1_577_836_800_000 },
        exchange_name: "Exchange_2".to_string(),
        volume_from: vf,
        currency_from: cf.to_string(),
        currency_from_price_usd: pf,
        volume_to: vt,
        currency_to: ct.to_string(),
        currency_to_price_usd: pt,
        notes: Vec::new(),
    }
}

#[test]
fn constants_are_the_scale_of_amounts() {
    assert_eq!(SCALE, 1_000_000_000);
    assert_eq!(EPS, 10_000);
    assert_eq!(MAX_USD_VALUE, 1_000_000_000 * SCALE);
}

#[test]
fn usd_value_is_volume_times_price() {
    assert_eq!(usd_value_of(4 * UNIT, 150 * UNIT), 600 * UNIT as u128);
    assert_eq!(usd_value_of(1, 999_999_999), 0);
    assert_eq!(usd_value_of(3, UNIT / 2), 1);
    assert_eq!(usd_value_of(u64::MAX, u64::MAX), 340282366920938463426481119284);
}

#[test]
fn fee_in_usd_and_percent() {
    let t = trade(100 * UNIT, "USD", UNIT, 990_000_000, "BTC", 100 * UNIT);
    assert!(t.is_well_formed());
    assert_eq!(t.fees_usd(), UNIT as i64);
    assert_eq!(t.fees_percent(), Some(UNIT as i128));
    assert_eq!(t.acquisition_cost(), 100 * UNIT);
}

#[test]
fn fee_is_signed() {
    let t = trade(100 * UNIT, "USD", UNIT, 1_010_000_000, "BTC", 100 * UNIT);
    assert!(t.is_well_formed());
    assert_eq!(t.fees_usd(), -(UNIT as i64));
    assert_eq!(t.fees_percent(), Some(-(UNIT as i128)));
    assert_eq!(t.acquisition_cost(), 100 * UNIT);
}

#[test]
fn fee_rounds_toward_zero() {
    // 1 USD buys a third of a unit at 3 USD; 0.3 came.
    let t = trade(UNIT, "USD", UNIT, 300_000_000, "BTC", 3 * UNIT);
    assert_eq!(t.fees_usd(), 99_999_999);
    assert_eq!(t.fees_percent(), Some(9_999_999_909));
    let t = trade(UNIT, "USD", UNIT, 400_000_000, "BTC", 3 * UNIT);
    assert_eq!(t.fees_usd(), -200_000_001);
    assert_eq!(t.fees_percent(), Some(-20_000_000_120));
}

#[test]
fn fee_percent_needs_an_expected_volume() {
    let t = trade(1, "USD", 1, 5, "BTC", 100 * UNIT);
    assert!(t.is_well_formed());
    assert_eq!(t.fees_percent(), None);
    assert_eq!(t.fees_usd(), -500);
}

#[test]
fn well_formed_trades_have_positive_amounts_within_the_limit() {
    assert!(trade(UNIT, "USD", UNIT, UNIT, "BTC", UNIT).is_well_formed());
    assert!(!trade(0, "USD", UNIT, UNIT, "BTC", UNIT).is_well_formed());
    assert!(!trade(UNIT, "USD", 0, UNIT, "BTC", UNIT).is_well_formed());
    assert!(!trade(UNIT, "USD", UNIT, 0, "BTC", UNIT).is_well_formed());
    assert!(!trade(UNIT, "USD", UNIT, UNIT, "BTC", 0).is_well_formed());
    assert!(trade(MAX_USD_VALUE, "USD", UNIT, UNIT, "BTC", MAX_USD_VALUE).is_well_formed());
    assert!(!trade(MAX_USD_VALUE + 1, "USD", UNIT, UNIT, "BTC", UNIT).is_well_formed());
    assert!(!trade(UNIT, "USD", UNIT, MAX_USD_VALUE + 1, "BTC", UNIT).is_well_formed());
}

#[test]
fn usd_is_the_reporting_currency() {
    assert!(currency_is_usd(&"USD".to_string()));
    assert!(!currency_is_usd(&"usd".to_string()));
    assert!(!currency_is_usd(&"USDT".to_string()));
    assert!(!currency_is_usd(&"".to_string()));
}

#[test]
fn sale_proceeds_by_destination() {
    let buy = trade(1000 * UNIT, "USD", UNIT, 10 * UNIT, "BTC", 100 * UNIT);
    let for_usd = trade(4 * UNIT, "BTC", 150 * UNIT, 594 * UNIT, "USD", UNIT);
    let sale = SellTrade::new(UNIT, 100 * UNIT, &buy, &for_usd, 0, 1);
    assert_eq!(sale.proceeds, 148_500_000_000);
    assert_eq!(sale.gain(), 48_500_000_000);
    assert_eq!(sale.currency, "BTC");
    assert_eq!(sale.volume, UNIT);
    assert_eq!(sale.cost_basis, 100 * UNIT);
    let for_eth = trade(4 * UNIT, "BTC", 150 * UNIT, 59 * UNIT, "ETH", 10 * UNIT);
    let sale = SellTrade::new(UNIT, 100 * UNIT, &buy, &for_eth, 0, 1);
    assert_eq!(sale.proceeds, 150 * UNIT as i64);
    assert_eq!(sale.gain(), 50 * UNIT as i128);
}

#[test]
fn usd_sides_carry_the_fee_once() {
    let t = trade(4 * UNIT, "BTC", 150 * UNIT, 59 * UNIT, "ETH", 10 * UNIT);
    let bought = UsdTrade::new(&t, true);
    assert!(bought.is_buy);
    assert_eq!(bought.currency, "ETH");
    assert_eq!(bought.volume, 59 * UNIT);
    assert_eq!(bought.price_usd, 10 * UNIT);
    assert_eq!(bought.fees_usd, 10 * UNIT as i64);
    assert_eq!(bought.exchange_name, "Exchange_2");
    let sold = UsdTrade::new(&t, false);
    assert!(!sold.is_buy);
    assert_eq!(sold.currency, "BTC");
    assert_eq!(sold.volume, 4 * UNIT);
    assert_eq!(sold.price_usd, 150 * UNIT);
    assert_eq!(sold.fees_usd, 0);
    let t = trade(4 * UNIT, "BTC", 150 * UNIT, 594 * UNIT, "USD", UNIT);
    assert_eq!(UsdTrade::new(&t, false).fees_usd, 6 * UNIT as i64);
}
