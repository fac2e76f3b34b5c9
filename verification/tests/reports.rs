use tax_lots::model::holdings::HoldingsItem;
use tax_lots::model::ledger::HoldingsBucket;
use tax_lots::model::proceeds::{aggregate, ProceedsError, ProceedsInfo};
use tax_lots::model::report::{snapshot, summarize};
use tax_lots::model::trade::Trade;
use tax_lots::model::wallet::Wallet;
use tax_lots::utils::time_utils::Timestamp;

const UNIT: u64 = 1_000_000_000;
const Y2020: i64 = 1_577_836_800;
const DAY: i64 = 86_400;

fn at(secs: i64) -> Timestamp {
    Timestamp { millis: secs * 1000 }
}

fn trade(secs: i64, vf: u64, cf: &str, pf: u64, vt: u64, ct: &str, pt: u64) -> Trade {
    Trade {
        datetime: at(secs),
        exchange_name: "Exchange_1".to_string(),
        volume_from: vf,
        currency_from: cf.to_string(),
        currency_from_price_usd: pf,
        volume_to: vt,
        currency_to: ct.to_string(),
        currency_to_price_usd: pt,
        notes: Vec::new(),
    }
}

fn wallet_of(log: Vec<Trade>) -> Wallet {
    let mut wallet = Wallet::new();
    for next in log {
        assert!(next.is_well_formed());
        assert!(wallet.add_trade(next).is_ok());
    }
    wallet
}

fn sample() -> Wallet {
    wallet_of(vec![
        trade(Y2020, 1000 * UNIT, "USD", UNIT, 10 * UNIT, "BTC", 100 * UNIT),
        trade(Y2020 + DAY, 1000 * UNIT, "USD", UNIT, 100 * UNIT, "ETH", 10 * UNIT),
        trade(Y2020 + 2 * DAY, 500 * UNIT, "USD", UNIT, 50 * UNIT, "ADA", 10 * UNIT),
        // short term
        trade(Y2020 + 100 * DAY, 2 * UNIT, "BTC", 150 * UNIT, 297 * UNIT, "USD", UNIT),
        trade(Y2020 + 101 * DAY, 10 * UNIT, "ETH", 12 * UNIT, 120 * UNIT, "USD", UNIT),
        trade(Y2020 + 102 * DAY, 10 * UNIT, "ADA", 8 * UNIT, 80 * UNIT, "USD", UNIT),
        trade(Y2020 + 103 * DAY, UNIT, "BTC", 160 * UNIT, 160 * UNIT, "USD", UNIT),
        // long term
        trade(Y2020 + 400 * DAY, 3 * UNIT, "BTC", 200 * UNIT, 600 * UNIT, "USD", UNIT),
        trade(Y2020 + 401 * DAY, 20 * UNIT, "ETH", 5 * UNIT, 100 * UNIT, "USD", UNIT),
    ])
}

fn info(volume: u64, proceeds: i64, cost_basis: u64) -> ProceedsInfo {
    ProceedsInfo {
        volume: volume as u128 * UNIT as u128,
        proceeds: proceeds as i128 * UNIT as i128,
        cost_basis: cost_basis as u128 * UNIT as u128,
        gain: (proceeds as i128 - cost_basis as i128) * UNIT as i128,
    }
}

#[test]
fn proceeds_by_term_and_currency() {
    let wallet = sample();
    let proceeds = wallet.proceeds(&at(Y2020), &at(Y2020 + 1000 * DAY)).unwrap();
    let short: Vec<(&str, ProceedsInfo)> =
        proceeds.short_term.by_currency.iter().map(|e| (e.currency.as_str(), e.info)).collect();
    assert_eq!(
        short,
        vec![("ADA", info(10, 80, 100)), ("BTC", info(3, 457, 300)), ("ETH", info(10, 120, 100))]
    );
    assert_eq!(proceeds.short_term.totals, info(23, 657, 500));
    let long: Vec<(&str, ProceedsInfo)> =
        proceeds.long_term.by_currency.iter().map(|e| (e.currency.as_str(), e.info)).collect();
    assert_eq!(long, vec![("BTC", info(3, 600, 300)), ("ETH", info(20, 100, 200))]);
    assert_eq!(proceeds.long_term.totals, info(23, 700, 500));
}

#[test]
fn proceeds_of_a_window() {
    let wallet = sample();
    let proceeds = wallet.proceeds(&at(Y2020 + 101 * DAY), &at(Y2020 + 103 * DAY)).unwrap();
    let short: Vec<(&str, ProceedsInfo)> =
        proceeds.short_term.by_currency.iter().map(|e| (e.currency.as_str(), e.info)).collect();
    assert_eq!(short, vec![("ADA", info(10, 80, 100)), ("ETH", info(10, 120, 100))]);
    assert_eq!(proceeds.short_term.totals, info(20, 200, 200));
    assert!(proceeds.long_term.by_currency.is_empty());
    assert_eq!(proceeds.long_term.totals, info(0, 0, 0));
}

#[test]
fn proceeds_need_a_window_that_starts_before_it_ends() {
    let wallet = sample();
    assert!(matches!(
        wallet.proceeds(&at(Y2020), &at(Y2020)),
        Err(ProceedsError::InvalidWindow)
    ));
    assert!(matches!(
        wallet.proceeds(&at(Y2020 + 1), &at(Y2020)),
        Err(ProceedsError::InvalidWindow)
    ));
    assert!(matches!(
        aggregate(&Vec::new(), &at(5), &at(4)),
        Err(ProceedsError::InvalidWindow)
    ));
    assert!(aggregate(&Vec::new(), &at(4), &at(5)).is_ok());
}

#[test]
fn proceeds_name_the_sale_that_has_no_term() {
    let far = i64::MAX / 1000 - 10;
    let wallet = wallet_of(vec![
        trade(Y2020, 1000 * UNIT, "USD", UNIT, 10 * UNIT, "BTC", 100 * UNIT),
        trade(far - 5, 1000 * UNIT, "USD", UNIT, 10 * UNIT, "ETH", 100 * UNIT),
        trade(far - 4, UNIT, "BTC", 150 * UNIT, 150 * UNIT, "USD", UNIT),
        trade(far - 3, UNIT, "ETH", 150 * UNIT, 150 * UNIT, "USD", UNIT),
    ]);
    assert!(matches!(
        wallet.proceeds(&at(Y2020), &at(far)),
        Err(ProceedsError::Unclassified { sale_idx: 1 })
    ));
    assert!(wallet.proceeds(&at(Y2020), &at(far - 3)).is_ok());
}

#[test]
fn holdings_report_lists_by_cost_basis_then_name() {
    let wallet = wallet_of(vec![
        trade(1, 500 * UNIT, "USD", UNIT, 50 * UNIT, "XRP", 10 * UNIT),
        trade(2, 1000 * UNIT, "USD", UNIT, 10 * UNIT, "BTC", 100 * UNIT),
        trade(3, 500 * UNIT, "USD", UNIT, 25 * UNIT, "ADA", 20 * UNIT),
        trade(4, 500 * UNIT, "USD", UNIT, 4 * UNIT, "BTC", 125 * UNIT),
        trade(5, 100 * UNIT, "USD", UNIT, 3 * UNIT, "ETH", 30 * UNIT),
        trade(6, 500 * UNIT, "USD", UNIT, 1 * UNIT, "ADAX", 500 * UNIT),
    ]);
    let report = wallet.snapshot();
    let listed: Vec<(&str, u128, u128, Option<u128>, usize)> = report
        .iter()
        .map(|s| {
            (s.currency.as_str(), s.total_volume, s.total_cost_basis, s.average_cost, s.lots.len())
        })
        .collect();
    let u = UNIT as u128;
    assert_eq!(
        listed,
        vec![
            ("BTC", 14 * u, 1500 * u, Some(107_142_857_142), 2),
            ("ADA", 25 * u, 500 * u, Some(20 * u), 1),
            ("ADAX", u, 500 * u, Some(500 * u), 1),
            ("XRP", 50 * u, 500 * u, Some(10 * u), 1),
            // 100 USD buy 3.333333333 ETH at 30 USD, rounded down; 3 came.
            ("ETH", 3 * u, 99_999_999_990, Some(33_333_333_330), 1),
        ]
    );
    assert_eq!(
        report[0].lots,
        vec![
            HoldingsItem { volume: 10 * UNIT, cost_basis: 1000 * UNIT, trade_idx: 1 },
            HoldingsItem { volume: 4 * UNIT, cost_basis: 500 * UNIT, trade_idx: 3 },
        ]
    );
    assert!(Wallet::new().snapshot().is_empty());
}

#[test]
fn a_bucket_without_volume_has_no_average_cost() {
    let empty = HoldingsBucket { currency: "BTC".to_string(), items: Vec::new() };
    let summary = summarize(&empty);
    assert_eq!(summary.total_volume, 0);
    assert_eq!(summary.total_cost_basis, 0);
    assert_eq!(summary.average_cost, None);
    let rich = HoldingsBucket {
        currency: "BTC".to_string(),
        items: vec![HoldingsItem { volume: 1, cost_basis: u64::MAX, trade_idx: 0 }; 40_000],
    };
    assert_eq!(summarize(&rich).average_cost, Some(u64::MAX as u128 * UNIT as u128));
    assert_eq!(summarize(&rich).total_cost_basis, 40_000 * u64::MAX as u128);
    let buckets = vec![
        HoldingsBucket { currency: "B".to_string(), items: vec![HoldingsItem { volume: 2, cost_basis: 7, trade_idx: 0 }] },
        HoldingsBucket { currency: "A".to_string(), items: vec![HoldingsItem { volume: 2, cost_basis: 7, trade_idx: 1 }] },
    ];
    let report = snapshot(&buckets);
    assert_eq!(report[0].currency, "A");
    assert_eq!(report[1].currency, "B");
    assert_eq!(report[0].average_cost, Some(3_500_000_000));
}
