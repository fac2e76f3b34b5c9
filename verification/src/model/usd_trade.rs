//! A trade seen as a purchase or a sale against USD, the form in which tax
//! tools take their input. A trade between two other currencies gives two of
//! these: a sale of the one and a purchase of the other.

use vstd::prelude::*;

use crate::model::trade::Trade;
use crate::model::{currency_is_usd, is_usd, Currency};
use crate::utils::time_utils::Timestamp;

verus! {

/// One side of a trade, priced in USD.
#[derive(Clone, Debug)]
pub struct UsdTrade {
    pub datetime: Timestamp,
    pub is_buy: bool,
    pub exchange_name: String,
    pub currency: Currency,
    pub volume: u64,
    pub price_usd: u64,
    pub fees_usd: i64,
}

/// The USD view of one side of `trade`. The purchase side carries the fee.
/// The sale side carries it only when the trade was paid in USD: otherwise
/// the fee is already part of what the acquired currency cost.
pub open spec fn usd_side(trade: Trade, is_buy: bool) -> UsdTrade {
    if is_buy {
        UsdTrade {
            datetime: trade.datetime,
            is_buy,
            exchange_name: trade.exchange_name,
            currency: trade.currency_to,
            volume: trade.volume_to,
            price_usd: trade.currency_to_price_usd,
            fees_usd: trade.spec_fees_usd() as i64,
        }
    } else {
        UsdTrade {
            datetime: trade.datetime,
            is_buy,
            exchange_name: trade.exchange_name,
            currency: trade.currency_from,
            volume: trade.volume_from,
            price_usd: trade.currency_from_price_usd,
            fees_usd: if is_usd(trade.currency_to@) {
                trade.spec_fees_usd() as i64
            } else {
                0
            },
        }
    }
}

impl UsdTrade {
    /// The USD view of one side of `trade`: what was taken where `is_buy`,
    /// else what was given.
    pub fn new(trade: &Trade, is_buy: bool) -> (side: Self)
        requires
            trade.well_formed(),
        ensures
            side == usd_side(*trade, is_buy),
    {
        let datetime = trade.datetime;
        let exchange_name = trade.exchange_name.clone();
        if is_buy {
            UsdTrade {
                datetime,
                is_buy,
                exchange_name,
                currency: trade.currency_to.clone(),
                volume: trade.volume_to,
                price_usd: trade.currency_to_price_usd,
                fees_usd: trade.fees_usd(),
            }
        } else {
            let fees_usd = if currency_is_usd(&trade.currency_to) {
                trade.fees_usd()
            } else {
                0
            };
            UsdTrade {
                datetime,
                is_buy,
                exchange_name,
                currency: trade.currency_from.clone(),
                volume: trade.volume_from,
                price_usd: trade.currency_from_price_usd,
                fees_usd,
            }
        }
    }
}

} // verus!
