//! A realized sale: the part of one disposal that was matched against one lot.

use vstd::prelude::*;

use crate::amount::{div_trunc, usd_value, EPS, MAX_USD_VALUE, SCALE};
use crate::model::holdings::HoldingsItem;
use crate::model::trade::{lemma_div_below, lemma_fee_bounds, Trade};
use crate::model::{currency_is_usd, is_usd, Currency};
use crate::utils::time_utils::{long_term_from, long_term_threshold, Timestamp};

verus! {

/// What a tax form asks about one matched disposal.
#[derive(Clone, Debug)]
pub struct SellTrade {
    pub volume: u64,
    pub currency: Currency,
    /// What the sold volume had cost, acquisition fee included.
    pub cost_basis: u64,
    /// What the sold volume brought in, net of the fee when the disposal was
    /// paid in USD.
    pub proceeds: i64,
    pub buy_trade_idx: usize,
    pub sell_trade_idx: usize,
    pub buy_datetime: Timestamp,
    pub sell_datetime: Timestamp,
}

/// No realized sale of a well-formed trade brings in more than this, or
/// less than its negative: four times the limit on a side, and one.
pub const MAX_PROCEEDS: i64 = 4_000_000_000_000_000_001;

/// The part of the disposal's USD fee that falls on `volume` of it. A
/// disposal paid in another currency carries no fee here: that fee is part of
/// what the acquired currency cost.
pub open spec fn fee_share(volume: int, sell_trade: Trade) -> int {
    if is_usd(sell_trade.currency_to@) {
        div_trunc(sell_trade.spec_fees_usd() * volume, sell_trade.volume_from as int)
    } else {
        0
    }
}

/// Proceeds of selling `volume` in `sell_trade`: its value at the
/// disposal's price, less its share of the fee.
pub open spec fn proceeds_of(volume: int, sell_trade: Trade) -> int {
    usd_value(volume, sell_trade.currency_from_price_usd as int) - fee_share(volume, sell_trade)
}

/// `volume` can be one matched slice of `sell_trade`: the disposal is more
/// than the tolerance, and the slice is at most the whole of it, up to the
/// tolerance.
pub open spec fn is_slice_of(volume: int, sell_trade: Trade) -> bool {
    &&& sell_trade.volume_from > EPS
    &&& 0 <= volume <= sell_trade.volume_from + EPS
}

/// The realized sale of `slice`, taken from a lot that `buy_trade` acquired,
/// in the disposal `sell_trade`, which has the index `sell_trade_idx`.
pub open spec fn sale_of(
    slice: HoldingsItem,
    buy_trade: Trade,
    sell_trade: Trade,
    sell_trade_idx: usize,
) -> SellTrade {
    SellTrade {
        volume: slice.volume,
        currency: sell_trade.currency_from,
        cost_basis: slice.cost_basis,
        proceeds: proceeds_of(slice.volume as int, sell_trade) as i64,
        buy_trade_idx: slice.trade_idx,
        sell_trade_idx,
        buy_datetime: buy_trade.datetime,
        sell_datetime: sell_trade.datetime,
    }
}

impl SellTrade {
    /// The realized sale of `volume`, with the cost basis `cost_basis`, out
    /// of a lot that `buy_trade` acquired, in the disposal `sell_trade`.
    pub fn new(
        volume: u64,
        cost_basis: u64,
        buy_trade: &Trade,
        sell_trade: &Trade,
        buy_trade_idx: usize,
        sell_trade_idx: usize,
    ) -> (sale: Self)
        requires
            sell_trade.well_formed(),
            is_slice_of(volume as int, *sell_trade),
        ensures
            sale == sale_of(
                HoldingsItem { volume, cost_basis, trade_idx: buy_trade_idx },
                *buy_trade,
                *sell_trade,
                sell_trade_idx,
            ),
            sale.proceeds == proceeds_of(volume as int, *sell_trade),
    {
        proof {
            lemma_proceeds_bounds(volume as int, *sell_trade);
        }
        let fees: i64 = if currency_is_usd(&sell_trade.currency_to) {
            let fee = sell_trade.fees_usd();
            let whole = sell_trade.volume_from as u128;
            proof {
                lemma_fee_bounds(
                    sell_trade.volume_from as int,
                    sell_trade.currency_from_price_usd as int,
                    sell_trade.volume_to as int,
                    sell_trade.currency_to_price_usd as int,
                );
            }
            if fee >= 0 {
                assert(fee * volume <= MAX_USD_VALUE * u64::MAX) by (nonlinear_arith)
                    requires
                        0 <= fee <= MAX_USD_VALUE,
                        volume <= u64::MAX,
                ;
                let scaled: u128 = (fee as u128) * (volume as u128);
                (scaled / whole) as i64
            } else {
                assert((-fee) * volume <= MAX_USD_VALUE * u64::MAX) by (nonlinear_arith)
                    requires
                        0 <= -fee <= MAX_USD_VALUE,
                        volume <= u64::MAX,
                ;
                let scaled: u128 = ((-fee) as u128) * (volume as u128);
                assert(scaled == -(sell_trade.spec_fees_usd() * volume)) by (nonlinear_arith)
                    requires
                        scaled == (-fee) * volume,
                        fee == sell_trade.spec_fees_usd(),
                ;
                -((scaled / whole) as i64)
            }
        } else {
            0
        };
        assert(volume * sell_trade.currency_from_price_usd <= u64::MAX * u64::MAX)
            by (nonlinear_arith)
            requires
                volume <= u64::MAX,
                sell_trade.currency_from_price_usd <= u64::MAX,
        ;
        let gross: u128 = (volume as u128) * (sell_trade.currency_from_price_usd as u128) / (
        SCALE as u128);
        let proceeds: i64 = (gross as i64) - fees;
        SellTrade {
            volume,
            currency: sell_trade.currency_from.clone(),
            cost_basis,
            proceeds,
            buy_trade_idx,
            sell_trade_idx,
            buy_datetime: buy_trade.datetime,
            sell_datetime: sell_trade.datetime,
        }
    }

    /// The sale's amounts are within what a well-formed trade can give, so
    /// that sums over any number of sales fit in 128 bits.
    pub open spec fn in_range(&self) -> bool {
        &&& self.cost_basis <= MAX_USD_VALUE
        &&& -MAX_PROCEEDS <= self.proceeds <= MAX_PROCEEDS
    }

    /// Whether the sale is long term: it was made at or after the first
    /// instant at which a sale of that purchase is. `None` where the calendar
    /// has no such instant.
    pub open spec fn spec_is_long_term(&self) -> Option<bool> {
        match long_term_from(self.buy_datetime.millis as int) {
            Some(threshold) => Some(self.sell_datetime.millis >= threshold),
            None => None,
        }
    }

    /// Tests whether the sale is long term; `None` where the calendar
    /// has no answer.
    pub fn is_long_term(&self) -> (long_term: Option<bool>)
        ensures
            long_term == self.spec_is_long_term(),
    {
        match long_term_threshold(&self.buy_datetime) {
            Some(threshold) => Some(self.sell_datetime.millis >= threshold.millis),
            None => None,
        }
    }

    /// Proceeds less cost basis.
    pub open spec fn spec_gain(&self) -> int {
        self.proceeds - self.cost_basis
    }

    /// Proceeds less cost basis.
    pub fn gain(&self) -> (gain: i128)
        ensures
            gain == self.spec_gain(),
    {
        (self.proceeds as i128) - (self.cost_basis as i128)
    }
}

/// Where the fee of a disposal goes: a disposal paid in USD has its share of
/// the fee taken off the proceeds; one paid in another currency has nothing
/// taken off, its proceeds being the value sold at the disposal's price.
pub proof fn lemma_fee_attribution(volume: int, sell_trade: Trade)
    ensures
        is_usd(sell_trade.currency_to@) ==> proceeds_of(volume, sell_trade) == usd_value(
            volume,
            sell_trade.currency_from_price_usd as int,
        ) - div_trunc(sell_trade.spec_fees_usd() * volume, sell_trade.volume_from as int),
        !is_usd(sell_trade.currency_to@) ==> proceeds_of(volume, sell_trade) == usd_value(
            volume,
            sell_trade.currency_from_price_usd as int,
        ),
{
}

/// The proceeds of a slice of a well-formed disposal fit in 64 bits: the
/// gross value and the fee share are each at most twice the limit on a side.
pub proof fn lemma_proceeds_bounds(volume: int, sell_trade: Trade)
    requires
        sell_trade.well_formed(),
        is_slice_of(volume, sell_trade),
    ensures
        0 <= usd_value(volume, sell_trade.currency_from_price_usd as int) <= 2 * MAX_USD_VALUE + 1,
        -2 * MAX_USD_VALUE <= div_trunc(
            sell_trade.spec_fees_usd() * volume,
            sell_trade.volume_from as int,
        ) <= 2 * MAX_USD_VALUE,
        -2 * MAX_USD_VALUE <= fee_share(volume, sell_trade) <= 2 * MAX_USD_VALUE,
        -2 * MAX_USD_VALUE <= proceeds_of(volume, sell_trade) <= 4 * MAX_USD_VALUE + 1,
{
    let vf = sell_trade.volume_from as int;
    let pf = sell_trade.currency_from_price_usd as int;
    let vt = sell_trade.volume_to as int;
    let pt = sell_trade.currency_to_price_usd as int;
    let s = SCALE as int;
    let fee = sell_trade.spec_fees_usd();
    lemma_fee_bounds(vf, pf, vt, pt);
    assert(volume <= 2 * vf);
    // gross value
    assert(0 <= volume * pf <= 2 * (vf * pf)) by (nonlinear_arith)
        requires
            0 <= volume <= 2 * vf,
            0 < pf,
    ;
    assert(2 * ((MAX_USD_VALUE + 1) * s) == (2 * MAX_USD_VALUE + 2) * s) by (nonlinear_arith);
    lemma_div_below(volume * pf, 2 * MAX_USD_VALUE + 1);
    // fee share
    let magnitude = if fee >= 0 {
        fee
    } else {
        -fee
    };
    assert(0 <= magnitude * volume <= (2 * magnitude) * vf) by (nonlinear_arith)
        requires
            0 <= volume <= 2 * vf,
            0 <= magnitude,
    ;
    vstd::arithmetic::div_mod::lemma_div_pos_is_pos(magnitude * volume, vf);
    vstd::arithmetic::div_mod::lemma_div_is_ordered(magnitude * volume, (2 * magnitude) * vf, vf);
    vstd::arithmetic::div_mod::lemma_div_multiples_vanish(2 * magnitude, vf);
    assert((2 * magnitude) * vf == vf * (2 * magnitude)) by (nonlinear_arith);
    assert(0 <= (magnitude * volume) / vf <= 2 * magnitude);
    if fee >= 0 {
        assert(0 <= fee * volume) by (nonlinear_arith)
            requires
                0 <= fee,
                0 <= volume,
        ;
    } else {
        assert(-(fee * volume) == magnitude * volume) by (nonlinear_arith)
            requires
                magnitude == -fee,
        ;
        if fee * volume >= 0 {
            assert(magnitude * volume == 0);
            assert(fee * volume == 0);
        }
    }
}

} // verus!
