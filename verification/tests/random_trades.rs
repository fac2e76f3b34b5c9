use tax_lots::model::random_trades::{generate_random_consistent_trades, CURRENCY_COUNT, EXCHANGE_COUNT};
use tax_lots::utils::time_utils::Timestamp;

#[test]
fn random_logs_are_consistent() {
    assert_eq!(CURRENCY_COUNT, 4);
    assert_eq!(EXCHANGE_COUNT, 3);
    let from = Timestamp { millis: 1_577_836_800_000 };
    let to = Timestamp { millis: 1_609_459_200_000 };
    for _ in 0..20 {
        let trades = generate_random_consistent_trades(150, &from, &to);
        assert_eq!(trades.len(), 150);
        let names = ["USD", "BTC", "ETH", "DOGE"];
        let mut held = [0u128; 4];
        let mut last = from.millis;
        for trade in &trades {
            assert!(trade.is_well_formed());
            assert!(trade.datetime.millis >= last && trade.datetime.millis < to.millis);
            last = trade.datetime.millis;
            assert!(trade.currency_from != trade.currency_to);
            assert!(trade.exchange_name.starts_with("Exchange_"));
            assert!(trade.notes.is_empty());
            let f = names.iter().position(|n| *n == trade.currency_from).unwrap();
            let t = names.iter().position(|n| *n == trade.currency_to).unwrap();
            if f != 0 {
                assert!(held[f] > trade.volume_from as u128);
                held[f] -= trade.volume_from as u128;
            }
            held[t] += trade.volume_to as u128;
            let full = trade.volume_from as u128 * trade.currency_from_price_usd as u128
                / trade.currency_to_price_usd as u128;
            let taken = trade.volume_to as u128;
            assert!(taken == full * 990 / 1000 || taken == full * 995 / 1000 || taken == full * 999 / 1000);
        }
        assert_eq!(trades[0].currency_from, "USD");
    }
    assert!(generate_random_consistent_trades(0, &from, &to).is_empty());
}
