//! Random logs of trades that never offer more of a currency than the log
//! has acquired of it.

use vstd::prelude::*;
use vstd::string::StringExecFns;

use crate::amount::{usd_value, EPS, MAX_USD_VALUE, SCALE};
use crate::model::trade::{well_formed_amounts, Trade};
use crate::model::wallet::{acquired_volume, acquires, chronological, disposes};
use crate::model::Currency;
use crate::utils::random::random_below;
use crate::utils::time_utils::{generate_random_datetime, within_limits, Timestamp};

verus! {

/// Number of currencies that a random log trades in; the first is USD.
pub const CURRENCY_COUNT: usize = 4;

/// Number of exchanges that a random log names.
pub const EXCHANGE_COUNT: usize = 3;

/// Lowest price drawn for a currency other than USD: one dollar.
pub const MIN_PRICE: u64 = 1_000_000_000;

/// Prices are drawn below this: a hundred dollars.
pub const MAX_PRICE: u64 = 100_000_000_000;

/// Least USD offered where the log holds nothing to sell: ten dollars.
pub const MIN_DEPOSIT: u64 = 10_000_000_000;

/// USD are offered below this where the log holds nothing to sell: a
/// thousand dollars.
pub const MAX_DEPOSIT: u64 = 1_000_000_000_000;

/// The name of the currency number `index`.
pub open spec fn currency_name(index: int) -> Seq<char> {
    if index == 0 {
        "USD"@
    } else if index == 1 {
        "BTC"@
    } else if index == 2 {
        "ETH"@
    } else {
        "DOGE"@
    }
}

/// Volume of `currency` that the trades offer.
pub open spec fn offered_volume(trades: Seq<Trade>, currency: Seq<char>) -> int
    decreases trades.len(),
{
    if trades.len() == 0 {
        0
    } else {
        offered_volume(trades.drop_last(), currency) + if disposes(trades.last(), currency) {
            trades.last().volume_from as int
        } else {
            0
        }
    }
}

/// At no point of the log has more of a currency been offered than
/// acquired.
pub open spec fn consistent(trades: Seq<Trade>) -> bool {
    forall|k: int, currency: Seq<char>|
        0 <= k <= trades.len() ==> #[trigger] offered_volume(trades.take(k), currency)
            <= acquired_volume(trades.take(k), currency)
}

/// The name of the exchange number `index`.
pub open spec fn exchange_name(index: int) -> Seq<char> {
    if index == 0 {
        "Exchange_1"@
    } else if index == 1 {
        "Exchange_2"@
    } else {
        "Exchange_3"@
    }
}

/// What is taken for `volume_from` at the quoted prices, less a fee of
/// `1000 - per_mille` thousandths.
pub open spec fn volume_after_fee(volume_from: int, price_from: int, price_to: int, per_mille: int) -> int {
    (((volume_from * price_from) / price_to) * per_mille) / 1000
}

/// One of the four currencies.
pub open spec fn is_currency(name: Seq<char>) -> bool {
    exists|c: int| 0 <= c < CURRENCY_COUNT && name == #[trigger] currency_name(c)
}

/// One of the three exchanges.
pub open spec fn is_exchange(name: Seq<char>) -> bool {
    exists|e: int| 0 <= e < EXCHANGE_COUNT && name == #[trigger] exchange_name(e)
}

/// The trade takes what the prices give less `1000 - per_mille`
/// thousandths.
pub open spec fn takes_after_fee(trade: Trade, per_mille: int) -> bool {
    trade.volume_to == volume_after_fee(
        trade.volume_from as int,
        trade.currency_from_price_usd as int,
        trade.currency_to_price_usd as int,
        per_mille,
    )
}

/// The price is one that a random log quotes for the currency: a dollar for
/// USD, else from a dollar to below a hundred.
pub open spec fn is_quote(price: int, currency: Seq<char>) -> bool {
    &&& MIN_PRICE <= price < MAX_PRICE
    &&& crate::model::is_usd(currency) ==> price == SCALE
}

/// The trade is one that a random log holds: well formed, made in the
/// window, one of the four currencies for another of them at quoted prices,
/// on one of the three exchanges, without notes, and with a fee of one, five
/// or ten thousandths of what the prices give.
pub open spec fn is_plausible(trade: Trade, from: Timestamp, to: Timestamp) -> bool {
    &&& trade.well_formed()
    &&& within_limits(trade.datetime, from, to)
    &&& trade.currency_from@ != trade.currency_to@
    &&& is_currency(trade.currency_from@)
    &&& is_currency(trade.currency_to@)
    &&& is_exchange(trade.exchange_name@)
    &&& is_quote(trade.currency_from_price_usd as int, trade.currency_from@)
    &&& is_quote(trade.currency_to_price_usd as int, trade.currency_to@)
    &&& (takes_after_fee(trade, 990) || takes_after_fee(trade, 995) || takes_after_fee(trade, 999))
    &&& trade.notes@.len() == 0
}

/// Every trade is one that a random log holds.
pub open spec fn all_plausible(trades: Seq<Trade>, from: Timestamp, to: Timestamp) -> bool {
    forall|i: int| 0 <= i < trades.len() ==> is_plausible(#[trigger] trades[i], from, to)
}

/// The four names differ, and only the first is USD.
pub proof fn lemma_currency_names(a: int, b: int)
    requires
        0 <= a < CURRENCY_COUNT,
        0 <= b < CURRENCY_COUNT,
    ensures
        currency_name(a) == currency_name(b) <==> a == b,
        crate::model::is_usd(currency_name(a)) <==> a == 0,
{
    reveal_strlit("USD");
    reveal_strlit("BTC");
    reveal_strlit("ETH");
    reveal_strlit("DOGE");
    assert("USD"@[0] == 'U');
    assert("BTC"@[0] == 'B');
    assert("ETH"@[0] == 'E');
    assert("DOGE"@[0] == 'D');
}

/// The currency number `index`, by name.
fn name_currency(index: usize) -> (name: Currency)
    requires
        index < CURRENCY_COUNT,
    ensures
        name@ == currency_name(index as int),
{
    if index == 0 {
        String::from_str("USD")
    } else if index == 1 {
        String::from_str("BTC")
    } else if index == 2 {
        String::from_str("ETH")
    } else {
        String::from_str("DOGE")
    }
}

/// The exchange number `index`, by name.
fn name_exchange(index: usize) -> (name: String)
    requires
        index < EXCHANGE_COUNT,
    ensures
        name@ == exchange_name(index as int),
{
    if index == 0 {
        String::from_str("Exchange_1")
    } else if index == 1 {
        String::from_str("Exchange_2")
    } else {
        String::from_str("Exchange_3")
    }
}

/// A number drawn at random from `[low, high)`.
fn random_between(low: u64, high: u64) -> (drawn: u64)
    requires
        low < high,
    ensures
        low <= drawn < high,
{
    low + random_below(high - low)
}

/// A price drawn at random for the currency number `index`; USD costs a
/// dollar.
fn random_price(index: usize) -> (price: u64)
    ensures
        MIN_PRICE <= price < MAX_PRICE,
        index == 0 ==> price == SCALE,
{
    if index == 0 {
        SCALE
    } else {
        random_between(MIN_PRICE, MAX_PRICE)
    }
}

/// One of the currencies other than the one numbered `index`, drawn at
/// random.
fn random_other(index: usize) -> (other: usize)
    requires
        index < CURRENCY_COUNT,
    ensures
        other < CURRENCY_COUNT,
        other != index,
{
    let drawn = random_below((CURRENCY_COUNT - 1) as u64) as usize;
    if drawn >= index {
        drawn + 1
    } else {
        drawn
    }
}

/// `n` instants drawn at random from `[dt_from, dt_to)`, in rising order.
fn random_datetimes(n: usize, dt_from: &Timestamp, dt_to: &Timestamp) -> (times: Vec<Timestamp>)
    requires
        dt_from.millis < dt_to.millis,
    ensures
        times@.len() == n,
        forall|i: int| 0 <= i < n ==> within_limits(#[trigger] times@[i], *dt_from, *dt_to),
        forall|i: int, j: int|
            0 <= i <= j < n ==> (#[trigger] times@[i]).millis <= (#[trigger] times@[j]).millis,
{
    let mut times: Vec<Timestamp> = Vec::new();
    let mut made: usize = 0;
    while made < n
        invariant
            made <= n,
            dt_from.millis < dt_to.millis,
            times@.len() == made,
            forall|i: int| 0 <= i < made ==> within_limits(#[trigger] times@[i], *dt_from, *dt_to),
            forall|i: int, j: int|
                0 <= i <= j < made ==> (#[trigger] times@[i]).millis <= (
                #[trigger] times@[j]).millis,
        decreases n - made,
    {
        let drawn = generate_random_datetime(dt_from, dt_to);
        let mut at: usize = 0;
        while at < times.len() && times[at].millis <= drawn.millis
            invariant
                at <= times.len(),
                forall|i: int| 0 <= i < at ==> (#[trigger] times@[i]).millis <= drawn.millis,
            decreases times.len() - at,
        {
            at += 1;
        }
        let ghost before = times@;
        times.insert(at, drawn);
        proof {
            assert forall|i: int| 0 <= i < times@.len() implies within_limits(
                #[trigger] times@[i],
                *dt_from,
                *dt_to,
            ) by {
                if i < at {
                    assert(times@[i] == before[i]);
                } else if i > at {
                    assert(times@[i] == before[i - 1]);
                }
            }
            assert forall|i: int, j: int| 0 <= i <= j < times@.len() implies (
            #[trigger] times@[i]).millis <= (#[trigger] times@[j]).millis by {
                let bi = if i < at {
                    i
                } else {
                    i - 1
                };
                let bj = if j < at {
                    j
                } else {
                    j - 1
                };
                if i != at && j != at {
                    assert(times@[i] == before[bi]);
                    assert(times@[j] == before[bj]);
                    assert(before[bi].millis <= before[bj].millis);
                } else if i == at && j != at {
                    assert(times@[j] == before[bj]);
                    assert(before[at as int].millis <= before[bj].millis);
                } else if j == at && i != at {
                    assert(times@[i] == before[bi]);
                }
            }
        }
        made += 1;
    }
    times
}

/// A trade drawn within the ranges of a random log is well formed.
proof fn lemma_drawn_amounts(volume_from: int, price_from: int, price_to: int, per_mille: int)
    requires
        1000 <= volume_from,
        MIN_PRICE <= price_from < MAX_PRICE,
        MIN_PRICE <= price_to < MAX_PRICE,
        volume_from * price_from <= MAX_USD_VALUE * SCALE,
        990 <= per_mille <= 999,
    ensures
        0 <= (volume_from * price_from) / price_to <= MAX_USD_VALUE,
        1 <= volume_after_fee(volume_from, price_from, price_to, per_mille) <= MAX_USD_VALUE,
        well_formed_amounts(
            volume_from,
            price_from,
            volume_after_fee(volume_from, price_from, price_to, per_mille),
            price_to,
        ),
{
    let s = SCALE as int;
    let value = volume_from * price_from;
    let full = value / price_to;
    let taken = (full * per_mille) / 1000;
    assert(value >= 1000 * s) by (nonlinear_arith)
        requires
            value == volume_from * price_from,
            volume_from >= 1000,
            price_from >= s,
            s > 0,
    ;
    vstd::arithmetic::div_mod::lemma_div_is_ordered_by_denominator(value, price_to, 100 * s);
    vstd::arithmetic::div_mod::lemma_div_is_ordered(1000 * s, value, 100 * s);
    assert((1000 * s) / (100 * s) == 10);
    assert(full >= 10);
    vstd::arithmetic::div_mod::lemma_div_is_ordered_by_denominator(value, s, price_to);
    vstd::arithmetic::div_mod::lemma_div_is_ordered(value, MAX_USD_VALUE * s, s);
    vstd::arithmetic::div_mod::lemma_div_multiples_vanish(MAX_USD_VALUE as int, s);
    assert(MAX_USD_VALUE * s == s * MAX_USD_VALUE) by (nonlinear_arith);
    assert(full <= MAX_USD_VALUE);
    vstd::arithmetic::div_mod::lemma_fundamental_div_mod(value, price_to);
    vstd::arithmetic::div_mod::lemma_mod_bound(value, price_to);
    assert(full * price_to <= value) by (nonlinear_arith)
        requires
            value == price_to * full + value % price_to,
            value % price_to >= 0,
    ;
    crate::model::trade::lemma_share_below(full, per_mille, 1000);
    assert(full * per_mille >= 9900) by (nonlinear_arith)
        requires
            full >= 10,
            per_mille >= 990,
    ;
    vstd::arithmetic::div_mod::lemma_div_is_ordered(9900, full * per_mille, 1000);
    assert(1 <= taken <= full);
    assert(taken * price_to <= full * price_to) by (nonlinear_arith)
        requires
            0 <= taken <= full,
            price_to > 0,
    ;
    vstd::arithmetic::div_mod::lemma_div_is_ordered(taken * price_to, MAX_USD_VALUE * s, s);
}

/// What one drawn trade is and does to the balances.
struct Drawn {
    trade: Trade,
    from: usize,
    to: usize,
    is_sell: bool,
}

/// Draws the next trade of a random log: a sale of something held, or,
/// where nothing is held, a purchase for USD; and books it.
fn random_trade(balances: &mut Vec<u128>, when: Timestamp, Ghost(limit): Ghost<int>) -> (drawn: Drawn)
    requires
        old(balances)@.len() == CURRENCY_COUNT,
        forall|c: int| 0 <= c < CURRENCY_COUNT ==> (#[trigger] old(balances)@[c]) <= limit,
        limit + MAX_USD_VALUE <= u128::MAX,
    ensures
        final(balances)@.len() == CURRENCY_COUNT,
        drawn.trade.well_formed(),
        drawn.trade.datetime == when,
        forall|from: Timestamp, to: Timestamp|
            within_limits(when, from, to) ==> #[trigger] is_plausible(drawn.trade, from, to),
        drawn.from < CURRENCY_COUNT,
        drawn.to < CURRENCY_COUNT,
        drawn.from != drawn.to,
        drawn.trade.currency_from@ == currency_name(drawn.from as int),
        drawn.trade.currency_to@ == currency_name(drawn.to as int),
        !drawn.is_sell ==> drawn.from == 0,
        drawn.is_sell ==> drawn.trade.volume_from < old(balances)@[drawn.from as int],
        forall|c: int|
            0 <= c < CURRENCY_COUNT ==> (#[trigger] final(balances)@[c]) == old(balances)@[c] - (
            if drawn.is_sell && c == drawn.from {
                drawn.trade.volume_from as int
            } else {
                0
            }) + (if c == drawn.to {
                drawn.trade.volume_to as int
            } else {
                0
            }),
        forall|c: int|
            0 <= c < CURRENCY_COUNT ==> (#[trigger] final(balances)@[c]) <= limit + MAX_USD_VALUE,
{
    let ghost before = balances@;
    let mut can_sell: Vec<usize> = Vec::new();
    let mut c: usize = 0;
    while c < CURRENCY_COUNT
        invariant
            c <= CURRENCY_COUNT,
            balances@ == before,
            before.len() == CURRENCY_COUNT,
            can_sell@.len() <= c,
            forall|j: int|
                0 <= j < can_sell@.len() ==> (#[trigger] can_sell@[j]) < CURRENCY_COUNT
                    && before[can_sell@[j] as int] > EPS,
        decreases CURRENCY_COUNT - c,
    {
        if balances[c] > EPS as u128 {
            can_sell.push(c);
        }
        c += 1;
    }
    let is_sell = can_sell.len() > 0 && random_below(1) == 0;
    let from: usize;
    let price_from: u64;
    let volume_from: u64;
    if is_sell {
        from = can_sell[random_below(can_sell.len() as u64) as usize];
        price_from = random_price(from);
        let have = balances[from];
        let most: u128 = ((MAX_USD_VALUE as u128) * (SCALE as u128)) / (price_from as u128);
        proof {
            let s = SCALE as int;
            let whole = MAX_USD_VALUE * s;
            vstd::arithmetic::div_mod::lemma_div_is_ordered_by_denominator(
                whole,
                s,
                price_from as int,
            );
            vstd::arithmetic::div_mod::lemma_div_is_ordered_by_denominator(
                whole,
                price_from as int,
                MAX_PRICE as int,
            );
            vstd::arithmetic::div_mod::lemma_div_multiples_vanish(MAX_USD_VALUE as int, s);
            assert(whole == s * MAX_USD_VALUE) by (nonlinear_arith)
                requires
                    whole == MAX_USD_VALUE * s,
            ;
            assert(whole / (MAX_PRICE as int) == 10_000_000_000_000_000);
            vstd::arithmetic::div_mod::lemma_fundamental_div_mod(whole, price_from as int);
            vstd::arithmetic::div_mod::lemma_mod_bound(whole, price_from as int);
            assert(most * price_from <= whole) by (nonlinear_arith)
                requires
                    whole == price_from * most + whole % (price_from as int),
                    whole % (price_from as int) >= 0,
            ;
        }
        let high: u128 = if have <= most {
            have
        } else {
            most + 1
        };
        let tenth: u128 = have / 10;
        let low: u128 = if tenth < high {
            tenth
        } else {
            high - 1
        };
        volume_from = random_between(low as u64, high as u64);
        proof {
            assert(volume_from * price_from <= most * price_from) by (nonlinear_arith)
                requires
                    volume_from <= most,
                    price_from >= 0,
            ;
        }
    } else {
        from = 0;
        price_from = SCALE;
        volume_from = random_between(MIN_DEPOSIT, MAX_DEPOSIT);
        proof {
            assert(volume_from * price_from <= MAX_USD_VALUE * SCALE) by (nonlinear_arith)
                requires
                    volume_from <= MAX_DEPOSIT,
                    price_from == SCALE,
                    MAX_DEPOSIT <= MAX_USD_VALUE,
            ;
        }
    }
    let to = random_other(from);
    let price_to = random_price(to);
    let per_mille: u128 = match random_below(3) {
        0 => 990,
        1 => 995,
        _ => 999,
    };
    proof {
        lemma_drawn_amounts(
            volume_from as int,
            price_from as int,
            price_to as int,
            per_mille as int,
        );
        assert(volume_from * price_from <= u64::MAX * u64::MAX) by (nonlinear_arith)
            requires
                volume_from <= u64::MAX,
                price_from <= u64::MAX,
        ;
        assert(((volume_from * price_from) / (price_to as int)) * per_mille <= MAX_USD_VALUE
            * 1000) by (nonlinear_arith)
            requires
                0 <= (volume_from * price_from) / (price_to as int) <= MAX_USD_VALUE,
                0 <= per_mille <= 1000,
        ;
    }
    let full: u128 = ((volume_from as u128) * (price_from as u128)) / (price_to as u128);
    let volume_to: u64 = ((full * per_mille) / 1000) as u64;
    if is_sell {
        let have = balances[from];
        balances[from] = have - volume_from as u128;
    }
    let held = balances[to];
    balances[to] = held + volume_to as u128;
    let exchange = random_below(EXCHANGE_COUNT as u64) as usize;
    let trade = Trade {
        datetime: when,
        exchange_name: name_exchange(exchange),
        volume_from,
        currency_from: name_currency(from),
        currency_from_price_usd: price_from,
        volume_to,
        currency_to: name_currency(to),
        currency_to_price_usd: price_to,
        notes: Vec::new(),
    };
    proof {
        lemma_currency_names(from as int, to as int);
        lemma_currency_names(from as int, from as int);
        lemma_currency_names(to as int, to as int);
        assert(trade.exchange_name@ == exchange_name(exchange as int));
        assert(is_exchange(trade.exchange_name@));
        assert(trade.currency_from@ == currency_name(from as int));
        assert(is_currency(trade.currency_from@));
        assert(trade.currency_to@ == currency_name(to as int));
        assert(is_currency(trade.currency_to@));
        assert(takes_after_fee(trade, per_mille as int));
        assert(is_quote(price_from as int, trade.currency_from@));
        assert(is_quote(price_to as int, trade.currency_to@));
        assert(trade.notes@.len() == 0);
    }
    Drawn { trade, from, to, is_sell }
}

/// One more trade adds what it offers to the sums of what was offered.
proof fn lemma_offered_of_push(trades: Seq<Trade>, trade: Trade, currency: Seq<char>)
    ensures
        offered_volume(trades.push(trade), currency) == offered_volume(trades, currency)
            + if disposes(trade, currency) {
            trade.volume_from as int
        } else {
            0
        },
{
    assert(trades.push(trade).drop_last() =~= trades);
}

/// The balance of each currency but USD is what the log acquired of it
/// less what it offered.
spec fn balanced(balances: Seq<u128>, trades: Seq<Trade>) -> bool {
    &&& balances.len() == CURRENCY_COUNT
    &&& forall|c: int|
        1 <= c < CURRENCY_COUNT ==> (#[trigger] balances[c]) == acquired_volume(
            trades,
            currency_name(c),
        ) - offered_volume(trades, currency_name(c))
}

/// Nothing was offered beyond what was acquired.
spec fn covered(trades: Seq<Trade>) -> bool {
    forall|currency: Seq<char>| #[trigger]
        offered_volume(trades, currency) <= acquired_volume(trades, currency)
}

/// A drawn trade keeps the balances what the log says and the log covered.
proof fn lemma_drawn_keeps_balanced(
    before: Seq<u128>,
    after: Seq<u128>,
    trades: Seq<Trade>,
    trade: Trade,
    from: int,
    to: int,
    is_sell: bool,
)
    requires
        balanced(before, trades),
        covered(trades),
        after.len() == CURRENCY_COUNT,
        0 <= from < CURRENCY_COUNT,
        0 <= to < CURRENCY_COUNT,
        from != to,
        trade.currency_from@ == currency_name(from),
        trade.currency_to@ == currency_name(to),
        !is_sell ==> from == 0,
        forall|c: int|
            0 <= c < CURRENCY_COUNT ==> (#[trigger] after[c]) == before[c] - (if is_sell && c
                == from {
                trade.volume_from as int
            } else {
                0
            }) + (if c == to {
                trade.volume_to as int
            } else {
                0
            }),
    ensures
        balanced(after, trades.push(trade)),
        covered(trades.push(trade)),
{
    let more = trades.push(trade);
    lemma_currency_names(from, from);
    lemma_currency_names(to, to);
    assert forall|c: int| 1 <= c < CURRENCY_COUNT implies (#[trigger] after[c]) == acquired_volume(
        more,
        currency_name(c),
    ) - offered_volume(more, currency_name(c)) by {
        lemma_currency_names(c, from);
        lemma_currency_names(c, to);
        lemma_currency_names(c, c);
        crate::model::wallet::lemma_acquired_of_push(trades, trade, currency_name(c));
        lemma_offered_of_push(trades, trade, currency_name(c));
        assert(before[c] == acquired_volume(trades, currency_name(c)) - offered_volume(
            trades,
            currency_name(c),
        ));
    }
    assert forall|currency: Seq<char>| #[trigger]
        offered_volume(more, currency) <= acquired_volume(more, currency) by {
        crate::model::wallet::lemma_acquired_of_push(trades, trade, currency);
        lemma_offered_of_push(trades, trade, currency);
        assert(offered_volume(trades, currency) <= acquired_volume(trades, currency));
        if disposes(trade, currency) {
            assert(currency == currency_name(from));
            assert(from != 0);
            assert(after[from] >= 0);
            assert(after[from] == acquired_volume(more, currency_name(from)) - offered_volume(
                more,
                currency_name(from),
            ));
        }
    }
}

/// A random log of `n` trades made in the window `[dt_from, dt_to)`, in the
/// order of time. Which trades come is left to chance; whatever comes, the log
/// never offers more of a currency than it has acquired of it.
pub fn generate_random_consistent_trades(n: usize, dt_from: &Timestamp, dt_to: &Timestamp) -> (trades:
    Vec<Trade>)
    requires
        dt_from.millis < dt_to.millis,
    ensures
        trades@.len() == n,
        all_plausible(trades@, *dt_from, *dt_to),
        chronological(trades@),
        consistent(trades@),
{
    let times = random_datetimes(n, dt_from, dt_to);
    let mut balances: Vec<u128> = Vec::new();
    balances.push(0);
    balances.push(0);
    balances.push(0);
    balances.push(0);
    let mut trades: Vec<Trade> = Vec::new();
    let mut i: usize = 0;
    assert(trades@.take(0) =~= trades@);
    while i < n
        invariant
            i <= n,
            times@.len() == n,
            forall|k: int| 0 <= k < n ==> within_limits(#[trigger] times@[k], *dt_from, *dt_to),
            forall|j: int, k: int|
                0 <= j <= k < n ==> (#[trigger] times@[j]).millis <= (#[trigger] times@[k]).millis,
            trades@.len() == i,
            forall|k: int| 0 <= k < i ==> (#[trigger] trades@[k]).datetime == times@[k],
            all_plausible(trades@, *dt_from, *dt_to),
            balanced(balances@, trades@),
            covered(trades@),
            consistent(trades@),
            forall|c: int|
                0 <= c < CURRENCY_COUNT ==> (#[trigger] balances@[c]) <= i * MAX_USD_VALUE,
        decreases n - i,
    {
        let ghost before = balances@;
        let ghost earlier = trades@;
        proof {
            assert((i + 1) * MAX_USD_VALUE <= u64::MAX * MAX_USD_VALUE) by (nonlinear_arith)
                requires
                    i + 1 <= u64::MAX,
            ;
            assert(i * MAX_USD_VALUE + MAX_USD_VALUE == (i + 1) * MAX_USD_VALUE)
                by (nonlinear_arith);
        }
        let drawn = random_trade(&mut balances, times[i], Ghost(i * MAX_USD_VALUE));
        proof {
            let more = earlier.push(drawn.trade);
            lemma_drawn_keeps_balanced(
                before,
                balances@,
                earlier,
                drawn.trade,
                drawn.from as int,
                drawn.to as int,
                drawn.is_sell,
            );
            lemma_currency_names(drawn.from as int, drawn.to as int);
            assert forall|k: int| 0 <= k < more.len() implies is_plausible(
                #[trigger] more[k],
                *dt_from,
                *dt_to,
            ) by {
                if k < earlier.len() {
                    assert(more[k] == earlier[k]);
                }
            }
            assert forall|k: int, currency: Seq<char>| 0 <= k <= more.len() implies #[trigger] offered_volume(
                more.take(k),
                currency,
            ) <= acquired_volume(more.take(k), currency) by {
                if k <= earlier.len() {
                    assert(more.take(k) =~= earlier.take(k));
                } else {
                    assert(more.take(k) =~= more);
                }
            }
        }
        trades.push(drawn.trade);
        i += 1;
    }
    proof {
        assert forall|j: int, k: int| 0 <= j <= k < trades@.len() implies (
        #[trigger] trades@[j]).datetime.millis <= (#[trigger] trades@[k]).datetime.millis by {
            assert(times@[j].millis <= times@[k].millis);
        }
    }
    trades
}

} // verus!
