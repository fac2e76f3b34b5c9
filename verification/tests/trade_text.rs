use tax_lots::model::lines::BITCOINTAX_INPUT_COLUMNS;
use tax_lots::model::sell_trade::SellTrade;
use tax_lots::model::trade::Trade;
use tax_lots::model::trade_text::{
    load_trades, strip_note, LoadError, TradeParseError, TRADE_GROUPS, TRADE_PATTERN,
};
use tax_lots::model::usd_trade::UsdTrade;
use tax_lots::utils::time_utils::Timestamp;

const UNIT: u64 = 1_000_000_000;
const LINE: &str = "[2020-01-01 00:00:00+00:00] 1000.000000000 USD => 10.000000000 BTC (USD=1.000000000, BTC=100.000000000, Exchange_1)";

fn fault(line: &str) -> Option<TradeParseError> {
    Trade::parse(line).err()
}

#[test]
fn a_trade_is_read_from_its_line() {
    let trade = Trade::parse(LINE).unwrap();
    assert_eq!(trade.datetime, Timestamp { millis: 1_577_836_800_000 });
    assert_eq!(trade.exchange_name, "Exchange_1");
    assert_eq!(trade.volume_from, 1000 * UNIT);
    assert_eq!(trade.currency_from, "USD");
    assert_eq!(trade.currency_from_price_usd, UNIT);
    assert_eq!(trade.volume_to, 10 * UNIT);
    assert_eq!(trade.currency_to, "BTC");
    assert_eq!(trade.currency_to_price_usd, 100 * UNIT);
    assert!(trade.notes.is_empty());
    assert!(trade.is_well_formed());
}

#[test]
fn a_trade_is_read_with_short_amounts_and_an_offset() {
    let trade = Trade::parse(
        "[2019-12-31 16:30:00-07:30] 0.5 BTC => 7 ETH (BTC=150, ETH=10.25, Exchange_2)",
    )
    .unwrap();
    assert_eq!(trade.datetime, Timestamp { millis: 1_577_836_800_000 });
    assert_eq!(trade.volume_from, UNIT / 2);
    assert_eq!(trade.currency_from, "BTC");
    assert_eq!(trade.currency_from_price_usd, 150 * UNIT);
    assert_eq!(trade.volume_to, 7 * UNIT);
    assert_eq!(trade.currency_to, "ETH");
    assert_eq!(trade.currency_to_price_usd, 10 * UNIT + UNIT / 4);
    assert_eq!(trade.exchange_name, "Exchange_2");
}

#[test]
fn a_trade_is_written_as_its_line() {
    let trade = Trade::parse(LINE).unwrap();
    assert_eq!(trade.to_line().as_deref(), Some(LINE));
    let mut far = Trade::parse(LINE).unwrap();
    far.datetime = Timestamp { millis: i64::MAX };
    assert_eq!(far.to_line(), None);
}

#[test]
fn each_fault_of_a_line_has_its_name() {
    assert_eq!(fault(""), Some(TradeParseError::NoMatch));
    assert_eq!(fault("--- a note"), Some(TradeParseError::NoMatch));
    assert_eq!(fault(&LINE.replace(" => ", " -> ")), Some(TradeParseError::NoMatch));
    assert_eq!(fault(&format!("{} ", LINE)), Some(TradeParseError::NoMatch));
    assert_eq!(fault(&LINE.replace("2020-01-01", "2020-01-32")), Some(TradeParseError::BadDatetime));
    assert_eq!(fault(&LINE.replace("+00:00", "")), Some(TradeParseError::BadDatetime));
    assert_eq!(fault(&LINE.replace("1000.000000000 USD", "1e3 USD")), Some(TradeParseError::BadVolumeFrom));
    assert_eq!(fault(&LINE.replace("10.000000000 BTC", "-10 BTC")), Some(TradeParseError::BadVolumeTo));
    assert_eq!(fault(&LINE.replace("(USD=", "(EUR=")), Some(TradeParseError::CurrencyFromMismatch));
    assert_eq!(fault(&LINE.replace("USD=1.000000000", "USD=one")), Some(TradeParseError::BadPriceFrom));
    assert_eq!(fault(&LINE.replace(" BTC=", " ETH=")), Some(TradeParseError::CurrencyToMismatch));
    assert_eq!(fault(&LINE.replace("BTC=100.000000000", "BTC=1.0.0")), Some(TradeParseError::BadPriceTo));
    assert_eq!(fault(&LINE.replace("10.000000000 BTC", "0.000000000 BTC")), Some(TradeParseError::NotWellFormed));
    assert_eq!(
        fault(&LINE.replace("1000.000000000 USD", "1000000000.000000001 USD")),
        Some(TradeParseError::NotWellFormed)
    );
}

#[test]
fn the_first_fault_counts() {
    let line = LINE
        .replace("2020-01-01", "2020-01-32")
        .replace("1000.000000000 USD", "x USD")
        .replace("(USD=", "(EUR=");
    assert_eq!(fault(&line), Some(TradeParseError::BadDatetime));
    let line = LINE.replace("10.000000000 BTC", "x BTC").replace("(USD=", "(EUR=");
    assert_eq!(fault(&line), Some(TradeParseError::BadVolumeTo));
}

#[test]
fn groups_make_a_trade() {
    assert_eq!(TRADE_GROUPS, 11);
    assert!(TRADE_PATTERN.starts_with("^\\["));
    let texts = [
        "whole", "2020-01-01 00:00:00+00:00", "2", "BTC", "3", "ETH", "BTC", "150", "ETH", "100",
        "Exchange_3",
    ];
    let groups: Vec<Option<String>> = texts.iter().map(|t| Some(t.to_string())).collect();
    let trade = Trade::from_groups(&groups).unwrap();
    assert_eq!(trade.volume_from, 2 * UNIT);
    assert_eq!(trade.currency_to, "ETH");
    assert_eq!(trade.exchange_name, "Exchange_3");
    let mut short = groups.clone();
    short.pop();
    assert_eq!(Trade::from_groups(&short).err(), Some(TradeParseError::NoMatch));
    let mut holed = groups.clone();
    holed[4] = None;
    assert_eq!(Trade::from_groups(&holed).err(), Some(TradeParseError::NoMatch));
    assert_eq!(Trade::from_groups(&Vec::new()).err(), Some(TradeParseError::NoMatch));
}

#[test]
fn notes_are_marked_lines() {
    assert_eq!(strip_note("--- bought on a whim"), Some("bought on a whim".to_string()));
    assert_eq!(strip_note("--- "), Some("".to_string()));
    assert_eq!(strip_note("---"), None);
    assert_eq!(strip_note("---- x"), None);
    assert_eq!(strip_note(" --- x"), None);
    assert_eq!(strip_note(""), None);
    assert_eq!(strip_note("--- é--- "), Some("é--- ".to_string()));
}

#[test]
fn a_log_is_read_with_its_notes() {
    let second = "[2020-02-01 00:00:00+00:00] 4.000000000 BTC => 600.000000000 USD (BTC=150.000000000, USD=1.000000000, Exchange_2)";
    let lines: Vec<String> = [LINE, "--- first note", "--- second note", second, LINE, "--- last"]
        .iter()
        .map(|l| l.to_string())
        .collect();
    let trades = load_trades(&lines).unwrap();
    assert_eq!(trades.len(), 3);
    assert_eq!(trades[0].notes, vec!["first note".to_string(), "second note".to_string()]);
    assert!(trades[1].notes.is_empty());
    assert_eq!(trades[1].currency_from, "BTC");
    assert_eq!(trades[2].notes, vec!["last".to_string()]);
    assert_eq!(trades[2].to_line().as_deref(), Some(LINE));
    assert!(load_trades(&Vec::new()).unwrap().is_empty());
}

#[test]
fn a_log_stops_at_its_first_bad_line() {
    let lines: Vec<String> =
        [LINE, "--- note", "not a trade", LINE].iter().map(|l| l.to_string()).collect();
    assert_eq!(
        load_trades(&lines).err(),
        Some(LoadError { line: 2, fault: TradeParseError::NoMatch })
    );
    let lines: Vec<String> = ["--- note first", LINE].iter().map(|l| l.to_string()).collect();
    assert_eq!(
        load_trades(&lines).err(),
        Some(LoadError { line: 0, fault: TradeParseError::NoMatch })
    );
    let bad = LINE.replace("1000.000000000 USD", "0 USD");
    let lines: Vec<String> = [LINE, bad.as_str()].iter().map(|l| l.to_string()).collect();
    assert_eq!(
        load_trades(&lines).err(),
        Some(LoadError { line: 1, fault: TradeParseError::NotWellFormed })
    );
}

#[test]
fn sales_and_usd_sides_are_written_as_lines() {
    assert_eq!(BITCOINTAX_INPUT_COLUMNS, "Date,Action,Source,Symbol,Volume,Price,Currency,Fee");
    let buy = Trade::parse(LINE).unwrap();
    let sell = Trade::parse(
        "[2021-01-02 00:00:00+00:00] 4 BTC => 594 USD (BTC=150, USD=1, Exchange_2)",
    )
    .unwrap();
    let sale = SellTrade::new(UNIT, 250 * UNIT, &buy, &sell, 0, 1);
    assert_eq!(
        sale.to_line().as_deref(),
        Some("1.000000000 BTC 2020-01-01 00:00:00+00:00 2021-01-02 00:00:00+00:00 148.500000000 250.000000000 -101.500000000")
    );
    assert_eq!(
        UsdTrade::new(&sell, false).to_line().as_deref(),
        Some("2021-01-02 00:00:00 +0000,SELL,Exchange_2,BTC,4.000000000,150.000000000,USD,6.000000000")
    );
    assert_eq!(
        UsdTrade::new(&buy, true).to_line().as_deref(),
        Some("2020-01-01 00:00:00 +0000,BUY,Exchange_1,BTC,10.000000000,100.000000000,USD,0.000000000")
    );
}

#[test]
fn a_trade_is_written_with_its_fee() {
    let trade = Trade::parse(
        "[2020-01-01 00:00:00+00:00] 100 USD => 0.99 BTC (USD=1, BTC=100, Exchange_1)",
    )
    .unwrap();
    assert_eq!(
        trade.to_fee_line().as_deref(),
        Some("[2020-01-01 00:00:00+00:00] 100.000000000 USD => 0.990000000 BTC (USD=1.000000000, BTC=100.000000000, Exchange_1, fees=[1.000000000 USD, 1.000000000%])")
    );
    let odd = Trade::parse(
        "[2020-01-01 00:00:00+00:00] 0.000000001 USD => 0.000000005 BTC (USD=0.000000001, BTC=100, Exchange_1)",
    )
    .unwrap();
    assert!(odd.to_fee_line().unwrap().ends_with(", Exchange_1, fees=[-0.000000500 USD, NaN%])"));
}
