use tax_lots::model::holdings::HoldingsItem;
use tax_lots::model::trade::Trade;
use tax_lots::model::wallet::{Wallet, WalletError};
use tax_lots::utils::time_utils::Timestamp;

const UNIT: u64 = 1_000_000_000;

fn trade(secs: i64, vf: u64, cf: &str, pf: u64, vt: u64, ct: &str, pt: u64) -> Trade {
    Trade {
        datetime: Timestamp { millis: secs * 1000 },
        exchange_name: "Exchange_1".to_string(),
        volume_from: vf,
        currency_from: cf.to_string(),
        currency_from_price_usd: pf,
        volume_to: vt,
        currency_to: ct.to_string(),
        currency_to_price_usd: pt,
        notes: Vec::new(),
    }
}

fn take(wallet: &mut Wallet, trade: Trade) {
    assert!(trade.is_well_formed());
    assert!(wallet.add_trade(trade).is_ok());
}

fn lots_of(wallet: &Wallet, currency: &str) -> Vec<HoldingsItem> {
    for bucket in wallet.holdings() {
        if bucket.currency == currency {
            return bucket.items.clone();
        }
    }
    Vec::new()
}

fn lot(volume: u64, cost_basis: u64, trade_idx: usize) -> HoldingsItem {
    HoldingsItem { volume, cost_basis, trade_idx }
}

#[test]
fn end_to_end_scenario() {
    let mut wallet = Wallet::new();
    take(&mut wallet, trade(1_577_836_800, 1000 * UNIT, "USD", UNIT, 10 * UNIT, "BTC", 100 * UNIT));
    assert_eq!(lots_of(&wallet, "BTC"), vec![lot(10 * UNIT, 1000 * UNIT, 0)]);

    take(&mut wallet, trade(1_580_000_000, 4 * UNIT, "BTC", 150 * UNIT, 600 * UNIT, "USD", UNIT));
    assert_eq!(wallet.sell_trades().len(), 1);
    let sale = &wallet.sell_trades()[0];
    assert_eq!(sale.volume, 4 * UNIT);
    assert_eq!(sale.currency, "BTC");
    assert_eq!(sale.proceeds, 600 * UNIT as i64);
    assert_eq!(sale.cost_basis, 400 * UNIT);
    assert_eq!(sale.gain(), 200 * UNIT as i128);
    assert_eq!(sale.buy_trade_idx, 0);
    assert_eq!(sale.sell_trade_idx, 1);
    assert_eq!(sale.buy_datetime, Timestamp { millis: 1_577_836_800_000 });
    assert_eq!(sale.sell_datetime, Timestamp { millis: 1_580_000_000_000 });
    assert_eq!(lots_of(&wallet, "BTC"), vec![lot(6 * UNIT, 600 * UNIT, 0)]);

    take(&mut wallet, trade(1_590_000_000, 6 * UNIT, "BTC", 200 * UNIT, 1200 * UNIT, "USD", UNIT));
    assert_eq!(wallet.sell_trades().len(), 2);
    let sale = &wallet.sell_trades()[1];
    assert_eq!(sale.volume, 6 * UNIT);
    assert_eq!(sale.proceeds, 1200 * UNIT as i64);
    assert_eq!(sale.cost_basis, 600 * UNIT);
    assert_eq!(sale.gain(), 600 * UNIT as i128);
    assert_eq!(sale.buy_trade_idx, 0);
    assert_eq!(sale.sell_trade_idx, 2);
    assert!(wallet.holdings().is_empty());
    assert_eq!(wallet.trades().len(), 3);
}

#[test]
fn insufficient_holdings_failure() {
    let mut wallet = Wallet::new();
    let sale = trade(1_580_000_000, 5 * UNIT, "BTC", 150 * UNIT, 750 * UNIT, "USD", UNIT);
    assert!(sale.is_well_formed());
    match wallet.add_trade(sale) {
        Err(WalletError::InsufficientHoldings { trade_idx, currency, shortfall }) => {
            assert_eq!(trade_idx, 0);
            assert_eq!(currency, "BTC");
            assert_eq!(shortfall, 5 * UNIT);
        }
        Ok(()) => panic!("a disposal with nothing held was taken"),
    }
    assert!(wallet.sell_trades().is_empty());
    assert!(wallet.trades().is_empty());
    assert!(wallet.usd_trades().is_empty());
    assert!(wallet.holdings().is_empty());
}

#[test]
fn selling_more_than_held_changes_nothing() {
    let mut wallet = Wallet::new();
    take(&mut wallet, trade(1, 100 * UNIT, "USD", UNIT, UNIT, "BTC", 100 * UNIT));
    take(&mut wallet, trade(2, 200 * UNIT, "USD", UNIT, UNIT, "BTC", 200 * UNIT));
    let sale = trade(3, 2 * UNIT + 10_001, "BTC", 300 * UNIT, 600 * UNIT, "USD", UNIT);
    assert!(sale.is_well_formed());
    match wallet.add_trade(sale) {
        Err(WalletError::InsufficientHoldings { trade_idx, currency, shortfall }) => {
            assert_eq!(trade_idx, 2);
            assert_eq!(currency, "BTC");
            assert_eq!(shortfall, 10_001);
        }
        Ok(()) => panic!("a disposal of more than is held was taken"),
    }
    assert_eq!(wallet.trades().len(), 2);
    assert!(wallet.sell_trades().is_empty());
    assert_eq!(wallet.usd_trades().len(), 2);
    assert_eq!(
        lots_of(&wallet, "BTC"),
        vec![lot(UNIT, 100 * UNIT, 0), lot(UNIT, 200 * UNIT, 1)]
    );
}

#[test]
fn selling_what_is_held_up_to_the_tolerance_is_taken() {
    let mut wallet = Wallet::new();
    take(&mut wallet, trade(1, 100 * UNIT, "USD", UNIT, UNIT, "BTC", 100 * UNIT));
    take(&mut wallet, trade(2, UNIT + 10_000, "BTC", 300 * UNIT, 300 * UNIT, "USD", UNIT));
    assert_eq!(wallet.sell_trades().len(), 1);
    assert_eq!(wallet.sell_trades()[0].volume, UNIT);
    assert_eq!(wallet.sell_trades()[0].cost_basis, 100 * UNIT);
    assert!(wallet.holdings().is_empty());
}

#[test]
fn partial_split_correctness() {
    let mut wallet = Wallet::new();
    take(&mut wallet, trade(1, 100 * UNIT, "USD", UNIT, 10 * UNIT, "BTC", 10 * UNIT));
    assert_eq!(lots_of(&wallet, "BTC"), vec![lot(10 * UNIT, 100 * UNIT, 0)]);
    take(&mut wallet, trade(2, 4 * UNIT, "BTC", 10 * UNIT, 40 * UNIT, "USD", UNIT));
    assert_eq!(wallet.sell_trades().len(), 1);
    assert_eq!(wallet.sell_trades()[0].volume, 4 * UNIT);
    assert_eq!(wallet.sell_trades()[0].cost_basis, 40 * UNIT);
    assert_eq!(lots_of(&wallet, "BTC"), vec![lot(6 * UNIT, 60 * UNIT, 0)]);
}

#[test]
fn partial_split_rounds_the_slice_down_and_loses_nothing() {
    let mut wallet = Wallet::new();
    take(&mut wallet, trade(1, 100 * UNIT, "USD", UNIT, 3 * UNIT, "BTC", 100 * UNIT / 3));
    let cost = lots_of(&wallet, "BTC")[0].cost_basis;
    take(&mut wallet, trade(2, UNIT, "BTC", 40 * UNIT, 40 * UNIT, "USD", UNIT));
    let sold = wallet.sell_trades()[0].cost_basis;
    let left = lots_of(&wallet, "BTC")[0].cost_basis;
    assert_eq!(sold, cost / 3);
    assert_eq!(sold + left, cost);
    assert_eq!(lots_of(&wallet, "BTC")[0].volume, 2 * UNIT);
}

#[test]
fn fifo_order() {
    let mut wallet = Wallet::new();
    take(&mut wallet, trade(10, 100 * UNIT, "USD", UNIT, UNIT, "BTC", 100 * UNIT));
    take(&mut wallet, trade(20, 400 * UNIT, "USD", UNIT, 2 * UNIT, "BTC", 200 * UNIT));
    take(&mut wallet, trade(30, 900 * UNIT, "USD", UNIT, 3 * UNIT, "BTC", 300 * UNIT));
    take(&mut wallet, trade(40, 3 * UNIT + UNIT / 2, "BTC", 400 * UNIT, 1400 * UNIT, "USD", UNIT));
    let sales = wallet.sell_trades();
    assert_eq!(sales.len(), 3);
    assert_eq!((sales[0].buy_trade_idx, sales[0].volume, sales[0].cost_basis), (0, UNIT, 100 * UNIT));
    assert_eq!(
        (sales[1].buy_trade_idx, sales[1].volume, sales[1].cost_basis),
        (1, 2 * UNIT, 400 * UNIT)
    );
    assert_eq!(
        (sales[2].buy_trade_idx, sales[2].volume, sales[2].cost_basis),
        (2, UNIT / 2, 150 * UNIT)
    );
    assert_eq!(sales[0].proceeds, 400 * UNIT as i64);
    assert_eq!(sales[1].proceeds, 800 * UNIT as i64);
    assert_eq!(sales[2].proceeds, 200 * UNIT as i64);
    assert!(sales.iter().all(|sale| sale.sell_trade_idx == 3));
    assert_eq!(lots_of(&wallet, "BTC"), vec![lot(2 * UNIT + UNIT / 2, 750 * UNIT, 2)]);
}

#[test]
fn a_lot_within_the_tolerance_goes_whole() {
    let mut wallet = Wallet::new();
    take(&mut wallet, trade(1, 100 * UNIT, "USD", UNIT, UNIT + 5_000, "BTC", 100 * UNIT));
    take(&mut wallet, trade(2, UNIT, "BTC", 100 * UNIT, 100 * UNIT, "USD", UNIT));
    assert_eq!(wallet.sell_trades().len(), 1);
    assert_eq!(wallet.sell_trades()[0].volume, UNIT + 5_000);
    assert!(wallet.holdings().is_empty());
}

#[test]
fn a_lot_beyond_the_tolerance_keeps_its_residual() {
    let mut wallet = Wallet::new();
    take(&mut wallet, trade(1, 100 * UNIT, "USD", UNIT, UNIT + 10_001, "BTC", 100 * UNIT));
    take(&mut wallet, trade(2, UNIT, "BTC", 100 * UNIT, 100 * UNIT, "USD", UNIT));
    assert_eq!(wallet.sell_trades()[0].volume, UNIT);
    assert_eq!(lots_of(&wallet, "BTC")[0].volume, 10_001);
}

#[test]
fn a_disposal_within_the_tolerance_sells_nothing() {
    let mut wallet = Wallet::new();
    take(&mut wallet, trade(1, 100 * UNIT, "USD", UNIT, UNIT, "BTC", 100 * UNIT));
    take(&mut wallet, trade(2, 10_000, "BTC", 100 * UNIT, 1_000_000, "USD", UNIT));
    assert!(wallet.sell_trades().is_empty());
    assert_eq!(lots_of(&wallet, "BTC"), vec![lot(UNIT, 100 * UNIT, 0)]);
    assert_eq!(wallet.trades().len(), 2);
}

#[test]
fn fee_attribution() {
    let mut wallet = Wallet::new();
    take(&mut wallet, trade(1, 1000 * UNIT, "USD", UNIT, 10 * UNIT, "BTC", 100 * UNIT));
    // Paid in USD: 300 USD were due, 297 came.
    take(&mut wallet, trade(2, 2 * UNIT, "BTC", 150 * UNIT, 297 * UNIT, "USD", UNIT));
    let sale = &wallet.sell_trades()[0];
    assert_eq!(sale.proceeds, 297 * UNIT as i64);
    assert_eq!(sale.cost_basis, 200 * UNIT);
    assert_eq!(sale.gain(), 97 * UNIT as i128);
    // Paid in ETH: 30 ETH were due, 29.7 came; the fee is in the cost of the ETH.
    take(
        &mut wallet,
        trade(3, 2 * UNIT, "BTC", 150 * UNIT, 29 * UNIT + 700_000_000, "ETH", 10 * UNIT),
    );
    let sale = &wallet.sell_trades()[1];
    assert_eq!(sale.proceeds, 300 * UNIT as i64);
    assert_eq!(sale.cost_basis, 200 * UNIT);
    assert_eq!(lots_of(&wallet, "ETH"), vec![lot(29 * UNIT + 700_000_000, 300 * UNIT, 2)]);
    assert_eq!(lots_of(&wallet, "BTC"), vec![lot(6 * UNIT, 600 * UNIT, 0)]);
}

#[test]
fn fee_share_follows_the_slice() {
    let mut wallet = Wallet::new();
    take(&mut wallet, trade(1, 100 * UNIT, "USD", UNIT, UNIT, "BTC", 100 * UNIT));
    take(&mut wallet, trade(2, 600 * UNIT, "USD", UNIT, 3 * UNIT, "BTC", 200 * UNIT));
    // 4 BTC at 100 USD: 400 USD are due, 396 come.
    take(&mut wallet, trade(3, 4 * UNIT, "BTC", 100 * UNIT, 396 * UNIT, "USD", UNIT));
    let sales = wallet.sell_trades();
    assert_eq!(sales.len(), 2);
    assert_eq!(sales[0].proceeds, 99 * UNIT as i64);
    assert_eq!(sales[1].proceeds, 297 * UNIT as i64);
    assert_eq!(sales[0].gain(), -(UNIT as i128));
    assert_eq!(sales[1].gain(), -303 * UNIT as i128);
}

#[test]
fn conservation() {
    let mut wallet = Wallet::new();
    let log = vec![
        trade(1, 1000 * UNIT, "USD", UNIT, 9 * UNIT + 900_000_000, "BTC", 100 * UNIT),
        trade(2, 500 * UNIT, "USD", UNIT, 49 * UNIT, "ETH", 10 * UNIT),
        trade(3, 3 * UNIT + 333_333_333, "BTC", 120 * UNIT, 39 * UNIT, "ETH", 10 * UNIT),
        trade(4, 60 * UNIT, "ETH", 11 * UNIT, 650 * UNIT, "USD", UNIT),
        trade(5, 2 * UNIT, "BTC", 130 * UNIT, 255 * UNIT, "USD", UNIT),
        trade(6, 28 * UNIT, "ETH", 12 * UNIT, 3 * UNIT, "BTC", 110 * UNIT),
    ];
    for next in log {
        take(&mut wallet, next);
        for currency in ["BTC", "ETH"] {
            let open: u128 = lots_of(&wallet, currency).iter().map(|l| l.volume as u128).sum();
            let open_cost: u128 =
                lots_of(&wallet, currency).iter().map(|l| l.cost_basis as u128).sum();
            let sold: u128 = wallet
                .sell_trades()
                .iter()
                .filter(|s| s.currency == currency)
                .map(|s| s.volume as u128)
                .sum();
            let sold_cost: u128 = wallet
                .sell_trades()
                .iter()
                .filter(|s| s.currency == currency)
                .map(|s| s.cost_basis as u128)
                .sum();
            let acquired: u128 = wallet
                .trades()
                .iter()
                .filter(|t| t.currency_to == currency)
                .map(|t| t.volume_to as u128)
                .sum();
            let acquired_cost: u128 = wallet
                .trades()
                .iter()
                .filter(|t| t.currency_to == currency)
                .map(|t| t.acquisition_cost() as u128)
                .sum();
            assert_eq!(open + sold, acquired);
            assert_eq!(open_cost + sold_cost, acquired_cost);
        }
    }
    assert_eq!(wallet.sell_trades().len(), 5);
    assert_eq!(
        lots_of(&wallet, "BTC"),
        vec![lot(4 * UNIT + 566_666_667, 461_279_461_314, 0), lot(3 * UNIT, 335_999_999_940, 5)]
    );
    assert!(lots_of(&wallet, "ETH").is_empty());
}

#[test]
fn usd_sides_follow_the_trades() {
    let mut wallet = Wallet::new();
    take(&mut wallet, trade(1, 1000 * UNIT, "USD", UNIT, 9 * UNIT, "BTC", 100 * UNIT));
    take(&mut wallet, trade(2, 2 * UNIT, "BTC", 150 * UNIT, 29 * UNIT, "ETH", 10 * UNIT));
    take(&mut wallet, trade(3, 2 * UNIT, "BTC", 150 * UNIT, 297 * UNIT, "USD", UNIT));
    let sides = wallet.usd_trades();
    assert_eq!(sides.len(), 4);
    assert!(sides[0].is_buy);
    assert_eq!((sides[0].currency.as_str(), sides[0].volume, sides[0].price_usd), ("BTC", 9 * UNIT, 100 * UNIT));
    assert_eq!(sides[0].fees_usd, 100 * UNIT as i64);
    assert!(!sides[1].is_buy);
    assert_eq!((sides[1].currency.as_str(), sides[1].volume, sides[1].fees_usd), ("BTC", 2 * UNIT, 0));
    assert!(sides[2].is_buy);
    assert_eq!((sides[2].currency.as_str(), sides[2].volume, sides[2].fees_usd), ("ETH", 29 * UNIT, 10 * UNIT as i64));
    assert!(!sides[3].is_buy);
    assert_eq!((sides[3].currency.as_str(), sides[3].volume, sides[3].fees_usd), ("BTC", 2 * UNIT, 3 * UNIT as i64));
}

#[test]
fn windows_pick_by_time() {
    let mut wallet = Wallet::new();
    take(&mut wallet, trade(10, 1000 * UNIT, "USD", UNIT, 10 * UNIT, "BTC", 100 * UNIT));
    take(&mut wallet, trade(20, UNIT, "BTC", 150 * UNIT, 150 * UNIT, "USD", UNIT));
    take(&mut wallet, trade(30, UNIT, "BTC", 150 * UNIT, 15 * UNIT, "ETH", 10 * UNIT));
    let from = Timestamp { millis: 20_000 };
    let to = Timestamp { millis: 30_000 };
    assert_eq!(wallet.trades_within(&from, &to), vec![1]);
    assert_eq!(wallet.sell_trades_within(&from, &Timestamp { millis: 30_001 }), vec![0, 1]);
    assert_eq!(wallet.usd_trades_within(&Timestamp { millis: 0 }, &to), vec![0, 1]);
}

#[test]
fn a_new_wallet_is_empty() {
    for wallet in [Wallet::new(), Wallet::default()] {
        assert!(wallet.trades().is_empty());
        assert!(wallet.sell_trades().is_empty());
        assert!(wallet.usd_trades().is_empty());
        assert!(wallet.holdings().is_empty());
        assert!(wallet.snapshot().is_empty());
    }
}
